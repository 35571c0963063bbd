use flc::reg_lang::NumTerm;
use flc::regex::{NumLocalSets, Regex};

fn lit(c: char, i: usize) -> Box<Regex> {
    Box::new(Regex::Literal(NumTerm::new(c, i)))
}

fn sorted_terms(mut v: Vec<NumTerm>) -> Vec<(char, usize)> {
    let mut r: Vec<(char, usize)> = v.drain(..).map(|t| (t.c, t.i)).collect();
    r.sort();
    r.dedup();
    r
}

fn a_then_b_or_c_star() -> Regex {
    Regex::Concat(lit('a', 1), Box::new(Regex::Star(Box::new(Regex::Union(lit('b', 2), lit('c', 3))))))
}

#[test]
fn local_sets_of_concatenation() {
    let r = a_then_b_or_c_star();
    assert!(!r.nullable());
    assert_eq!(sorted_terms(r.all_numbered()), vec![('a', 1), ('b', 2), ('c', 3)]);
    assert_eq!(sorted_terms(r.numbered_initials()), vec![('a', 1)]);
    assert_eq!(sorted_terms(r.numbered_finals()), vec![('a', 1), ('b', 2), ('c', 3)]);
    let mut d: Vec<(usize, usize)> = r.numbered_digrams().iter().map(|(x, y)| (x.i, y.i)).collect();
    d.sort();
    d.dedup();
    assert_eq!(d, vec![(1, 2), (1, 3), (2, 2), (2, 3), (3, 2), (3, 3)]);
}

#[test]
fn local_sets_of_nullable_prefix() {
    // (a)* . b+ | empty
    let r = Regex::Union(
        Box::new(Regex::Concat(Box::new(Regex::Star(lit('a', 1))), Box::new(Regex::Plus(lit('b', 2))))),
        Box::new(Regex::Null),
    );
    assert!(r.nullable());
    assert_eq!(sorted_terms(r.numbered_initials()), vec![('a', 1), ('b', 2)]);
    assert_eq!(sorted_terms(r.numbered_finals()), vec![('b', 2)]);
    let mut d: Vec<(usize, usize)> = r.numbered_digrams().iter().map(|(x, y)| (x.i, y.i)).collect();
    d.sort();
    d.dedup();
    assert_eq!(d, vec![(1, 1), (1, 2), (2, 2)]);
}

#[test]
fn local_sets_of_empty_word() {
    let r = Regex::Null;
    assert!(r.nullable());
    assert!(r.all_numbered().is_empty());
    assert!(r.numbered_initials().is_empty());
    assert!(r.numbered_digrams().is_empty());
}
