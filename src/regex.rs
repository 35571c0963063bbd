//! Regular expressions over numbered terminals, and their local sets: the
//! terminals that may begin or end a word, the pairs that may be adjacent,
//! and whether the empty word belongs to the language.

use vstd::prelude::*;
use crate::reg_lang::{set_prod, NumTerm};

verus! {

/// A regular expression whose letters are numbered terminals.
#[derive(Debug)]
pub enum Regex {
    Null,
    Literal(NumTerm),
    Union(Box<Regex>, Box<Regex>),
    Concat(Box<Regex>, Box<Regex>),
    Star(Box<Regex>),
    Plus(Box<Regex>),
}

/// Whether the language of `r` holds the empty word.
pub open spec fn nullable_spec(r: Regex) -> bool
    decreases r,
{
    match r {
        Regex::Null => true,
        Regex::Literal(_) => false,
        Regex::Union(a, b) => nullable_spec(*a) || nullable_spec(*b),
        Regex::Concat(a, b) => nullable_spec(*a) && nullable_spec(*b),
        Regex::Plus(a) => nullable_spec(*a),
        Regex::Star(_) => true,
    }
}

/// The terminals of `r`.
pub open spec fn all_spec(r: Regex) -> Set<NumTerm>
    decreases r,
{
    match r {
        Regex::Null => Set::empty(),
        Regex::Literal(t) => set![t],
        Regex::Union(a, b) => all_spec(*a).union(all_spec(*b)),
        Regex::Concat(a, b) => all_spec(*a).union(all_spec(*b)),
        Regex::Plus(a) => all_spec(*a),
        Regex::Star(a) => all_spec(*a),
    }
}

/// The terminals that may begin a word of `r`.
pub open spec fn initials_spec(r: Regex) -> Set<NumTerm>
    decreases r,
{
    match r {
        Regex::Null => Set::empty(),
        Regex::Literal(t) => set![t],
        Regex::Union(a, b) => initials_spec(*a).union(initials_spec(*b)),
        Regex::Concat(a, b) => if nullable_spec(*a) {
            initials_spec(*a).union(initials_spec(*b))
        } else {
            initials_spec(*a)
        },
        Regex::Plus(a) => initials_spec(*a),
        Regex::Star(a) => initials_spec(*a),
    }
}

/// The terminals that may end a word of `r`.
pub open spec fn finals_spec(r: Regex) -> Set<NumTerm>
    decreases r,
{
    match r {
        Regex::Null => Set::empty(),
        Regex::Literal(t) => set![t],
        Regex::Union(a, b) => finals_spec(*a).union(finals_spec(*b)),
        Regex::Concat(a, b) => if nullable_spec(*b) {
            finals_spec(*b).union(finals_spec(*a))
        } else {
            finals_spec(*b)
        },
        Regex::Plus(a) => finals_spec(*a),
        Regex::Star(a) => finals_spec(*a),
    }
}

/// The pairs of terminals of `a` and `b`.
pub open spec fn pairs_of(a: Set<NumTerm>, b: Set<NumTerm>) -> Set<(NumTerm, NumTerm)> {
    Set::new(|p: (NumTerm, NumTerm)| a.contains(p.0) && b.contains(p.1))
}

/// The pairs of terminals that may be adjacent in a word of `r`.
pub open spec fn digrams_spec(r: Regex) -> Set<(NumTerm, NumTerm)>
    decreases r,
{
    match r {
        Regex::Null => Set::empty(),
        Regex::Literal(_) => Set::empty(),
        Regex::Union(a, b) => digrams_spec(*a).union(digrams_spec(*b)),
        Regex::Concat(a, b) => digrams_spec(*a).union(digrams_spec(*b)).union(
            pairs_of(finals_spec(*a), initials_spec(*b))),
        Regex::Plus(a) => digrams_spec(*a).union(pairs_of(finals_spec(*a), initials_spec(*a))),
        Regex::Star(a) => digrams_spec(*a).union(pairs_of(finals_spec(*a), initials_spec(*a))),
    }
}

/// The local sets of a regular language, each terminal set listed in a
/// vector.
pub trait NumLocalSets {
    /// Whether the empty word belongs to the language.
    spec fn nullable_view(&self) -> bool;

    /// The terminals of the language.
    spec fn all_view(&self) -> Set<NumTerm>;

    /// The terminals that may begin a word.
    spec fn initials_view(&self) -> Set<NumTerm>;

    /// The terminals that may end a word.
    spec fn finals_view(&self) -> Set<NumTerm>;

    /// The pairs of terminals that may be adjacent in a word.
    spec fn digrams_view(&self) -> Set<(NumTerm, NumTerm)>;

    /// Whether the empty word belongs to the language.
    fn nullable(&self) -> (r: bool)
        ensures
            r == self.nullable_view(),
    ;

    /// The terminals of the language.
    fn all_numbered(&self) -> (r: Vec<NumTerm>)
        ensures
            r@.to_set() == self.all_view(),
    ;

    /// The terminals that may begin a word.
    fn numbered_initials(&self) -> (r: Vec<NumTerm>)
        ensures
            r@.to_set() == self.initials_view(),
    ;

    /// The terminals that may end a word.
    fn numbered_finals(&self) -> (r: Vec<NumTerm>)
        ensures
            r@.to_set() == self.finals_view(),
    ;

    /// The pairs of terminals that may be adjacent in a word.
    fn numbered_digrams(&self) -> (r: Vec<(NumTerm, NumTerm)>)
        ensures
            r@.to_set() == self.digrams_view(),
    ;
}

/// Appends `b` to `a`.
fn append_all<A: Copy>(a: &mut Vec<A>, b: &Vec<A>)
    ensures
        final(a)@ == old(a)@ + b@,
{
    let mut i: usize = 0;
    while i < b.len()
        invariant
            i <= b@.len(),
            a@ == old(a)@ + b@.take(i as int),
        decreases b@.len() - i,
    {
        a.push(b[i]);
        assert(b@.take(i + 1) == b@.take(i as int).push(b@[i as int]));
        i += 1;
    }
    assert(b@.take(i as int) == b@);
}

proof fn lemma_concat_to_set<A>(a: Seq<A>, b: Seq<A>)
    ensures
        (a + b).to_set() == a.to_set().union(b.to_set()),
{
    assert forall|x: A| (a + b).to_set().contains(x) <==> a.to_set().union(b.to_set()).contains(x) by {
        if (a + b).contains(x) {
            let k = choose|k: int| 0 <= k < (a + b).len() && (a + b)[k] == x;
            if k < a.len() {
                assert(a[k] == x);
            } else {
                assert(b[k - a.len()] == x);
            }
        }
        if a.contains(x) {
            let k = choose|k: int| 0 <= k < a.len() && a[k] == x;
            assert((a + b)[k] == x);
        }
        if b.contains(x) {
            let k = choose|k: int| 0 <= k < b.len() && b[k] == x;
            assert((a + b)[a.len() + k] == x);
        }
    }
    assert((a + b).to_set() =~= a.to_set().union(b.to_set()));
}

proof fn lemma_single_to_set<A>(x: A)
    ensures
        seq![x].to_set() == set![x],
{
    assert(seq![x].to_set() =~= set![x]) by {
        assert(seq![x][0] == x);
    }
}

impl Regex {
    fn nullable_impl(&self) -> (r: bool)
        ensures
            r == nullable_spec(*self),
        decreases self,
    {
        match self {
            Regex::Null => true,
            Regex::Literal(_) => false,
            Regex::Union(a, b) => a.nullable_impl() || b.nullable_impl(),
            Regex::Concat(a, b) => a.nullable_impl() && b.nullable_impl(),
            Regex::Plus(a) => a.nullable_impl(),
            Regex::Star(_) => true,
        }
    }

    fn all_impl(&self) -> (r: Vec<NumTerm>)
        ensures
            r@.to_set() == all_spec(*self),
        decreases self,
    {
        match self {
            Regex::Null => {
                assert(Seq::<NumTerm>::empty().to_set() =~= Set::empty());
                Vec::new()
            },
            Regex::Literal(t) => {
                proof {
                    lemma_single_to_set(*t);
                }
                let r = vec![*t];
                assert(r@ =~= seq![*t]);
                r
            },
            Regex::Union(a, b) | Regex::Concat(a, b) => {
                let mut r = a.all_impl();
                let rb = b.all_impl();
                let ghost ra = r@;
                append_all(&mut r, &rb);
                proof {
                    lemma_concat_to_set(ra, rb@);
                }
                r
            },
            Regex::Plus(a) | Regex::Star(a) => a.all_impl(),
        }
    }

    fn initials_impl(&self) -> (r: Vec<NumTerm>)
        ensures
            r@.to_set() == initials_spec(*self),
        decreases self,
    {
        match self {
            Regex::Null => {
                assert(Seq::<NumTerm>::empty().to_set() =~= Set::empty());
                Vec::new()
            },
            Regex::Literal(t) => {
                proof {
                    lemma_single_to_set(*t);
                }
                let r = vec![*t];
                assert(r@ =~= seq![*t]);
                r
            },
            Regex::Union(a, b) => {
                let mut r = a.initials_impl();
                let rb = b.initials_impl();
                let ghost ra = r@;
                append_all(&mut r, &rb);
                proof {
                    lemma_concat_to_set(ra, rb@);
                }
                r
            },
            Regex::Concat(a, b) => {
                let mut r = a.initials_impl();
                if a.nullable_impl() {
                    let rb = b.initials_impl();
                    let ghost ra = r@;
                    append_all(&mut r, &rb);
                    proof {
                        lemma_concat_to_set(ra, rb@);
                    }
                }
                r
            },
            Regex::Plus(a) | Regex::Star(a) => a.initials_impl(),
        }
    }

    fn finals_impl(&self) -> (r: Vec<NumTerm>)
        ensures
            r@.to_set() == finals_spec(*self),
        decreases self,
    {
        match self {
            Regex::Null => {
                assert(Seq::<NumTerm>::empty().to_set() =~= Set::empty());
                Vec::new()
            },
            Regex::Literal(t) => {
                proof {
                    lemma_single_to_set(*t);
                }
                let r = vec![*t];
                assert(r@ =~= seq![*t]);
                r
            },
            Regex::Union(a, b) => {
                let mut r = a.finals_impl();
                let rb = b.finals_impl();
                let ghost ra = r@;
                append_all(&mut r, &rb);
                proof {
                    lemma_concat_to_set(ra, rb@);
                }
                r
            },
            Regex::Concat(a, b) => {
                let mut r = b.finals_impl();
                if b.nullable_impl() {
                    let ra = a.finals_impl();
                    let ghost rb = r@;
                    append_all(&mut r, &ra);
                    proof {
                        lemma_concat_to_set(rb, ra@);
                    }
                }
                r
            },
            Regex::Plus(a) | Regex::Star(a) => a.finals_impl(),
        }
    }

    fn digrams_impl(&self) -> (r: Vec<(NumTerm, NumTerm)>)
        ensures
            r@.to_set() == digrams_spec(*self),
        decreases self,
    {
        match self {
            Regex::Null | Regex::Literal(_) => {
                assert(Seq::<(NumTerm, NumTerm)>::empty().to_set() =~= Set::empty());
                Vec::new()
            },
            Regex::Union(a, b) => {
                let mut r = a.digrams_impl();
                let rb = b.digrams_impl();
                let ghost ra = r@;
                append_all(&mut r, &rb);
                proof {
                    lemma_concat_to_set(ra, rb@);
                }
                r
            },
            Regex::Concat(a, b) => {
                let mut r = a.digrams_impl();
                let rb = b.digrams_impl();
                let ghost ra = r@;
                append_all(&mut r, &rb);
                let fa = a.finals_impl();
                let ib = b.initials_impl();
                let prod = set_prod(&fa, &ib);
                let ghost rab = r@;
                append_all(&mut r, &prod);
                proof {
                    lemma_concat_to_set(ra, rb@);
                    lemma_concat_to_set(rab, prod@);
                    assert(prod@.to_set() =~= pairs_of(finals_spec(**a), initials_spec(**b)));
                }
                r
            },
            Regex::Plus(a) | Regex::Star(a) => {
                let mut r = a.digrams_impl();
                let fa = a.finals_impl();
                let ia = a.initials_impl();
                let prod = set_prod(&fa, &ia);
                let ghost ra = r@;
                append_all(&mut r, &prod);
                proof {
                    lemma_concat_to_set(ra, prod@);
                    assert(prod@.to_set() =~= pairs_of(finals_spec(**a), initials_spec(**a)));
                }
                r
            },
        }
    }
}

impl NumLocalSets for Regex {
    open spec fn nullable_view(&self) -> bool {
        nullable_spec(*self)
    }

    open spec fn all_view(&self) -> Set<NumTerm> {
        all_spec(*self)
    }

    open spec fn initials_view(&self) -> Set<NumTerm> {
        initials_spec(*self)
    }

    open spec fn finals_view(&self) -> Set<NumTerm> {
        finals_spec(*self)
    }

    open spec fn digrams_view(&self) -> Set<(NumTerm, NumTerm)> {
        digrams_spec(*self)
    }

    fn nullable(&self) -> (r: bool) {
        self.nullable_impl()
    }

    fn all_numbered(&self) -> (r: Vec<NumTerm>) {
        self.all_impl()
    }

    fn numbered_initials(&self) -> (r: Vec<NumTerm>) {
        self.initials_impl()
    }

    fn numbered_finals(&self) -> (r: Vec<NumTerm>) {
        self.finals_impl()
    }

    fn numbered_digrams(&self) -> (r: Vec<(NumTerm, NumTerm)>) {
        self.digrams_impl()
    }
}

} // verus!
