//! Numbered terminals: the positions of a regular language's letters.

use vstd::prelude::*;

verus! {

/// A terminal `c` numbered `i`, told apart from other occurrences of `c`.
#[derive(Debug, Clone, Copy, PartialEq, Eq, Structural, Hash)]
pub struct NumTerm {
    pub c: char,
    pub i: usize,
}

impl NumTerm {
    /// The terminal `c` numbered `i`.
    pub fn new(c: char, i: usize) -> (r: NumTerm)
        ensures
            r == (NumTerm { c, i }),
    {
        NumTerm { c, i }
    }
}

/// Every pair of a terminal of `a` and a terminal of `b`, `a`'s order first.
pub open spec fn prod_spec(a: Seq<NumTerm>, b: Seq<NumTerm>) -> Seq<(NumTerm, NumTerm)>
    decreases a.len(),
{
    if a.len() == 0 {
        Seq::empty()
    } else {
        prod_spec(a.drop_last(), b) + b.map_values(|y: NumTerm| (a.last(), y))
    }
}

/// Every pair of a terminal of `a` and a terminal of `b`.
pub fn set_prod(a: &Vec<NumTerm>, b: &Vec<NumTerm>) -> (r: Vec<(NumTerm, NumTerm)>)
    ensures
        r@ == prod_spec(a@, b@),
        forall|p: (NumTerm, NumTerm)| r@.contains(p) <==> a@.contains(p.0) && b@.contains(p.1),
{
    let mut res: Vec<(NumTerm, NumTerm)> = Vec::new();
    let mut x: usize = 0;
    while x < a.len()
        invariant
            x <= a@.len(),
            res@ == prod_spec(a@.take(x as int), b@),
        decreases a@.len() - x,
    {
        assert(a@.take(x + 1).drop_last() == a@.take(x as int));
        let ghost base = res@;
        let mut y: usize = 0;
        while y < b.len()
            invariant
                x < a@.len(),
                y <= b@.len(),
                res@ == base + b@.take(y as int).map_values(|q: NumTerm| (a@[x as int], q)),
            decreases b@.len() - y,
        {
            res.push((a[x], b[y]));
            assert(b@.take(y + 1).map_values(|q: NumTerm| (a@[x as int], q))
                =~= b@.take(y as int).map_values(|q: NumTerm| (a@[x as int], q)).push((a@[x as int], b@[y as int])));
            y += 1;
        }
        assert(b@.take(y as int) == b@);
        assert(a@.take(x + 1).last() == a@[x as int]);
        x += 1;
    }
    assert(a@.take(x as int) == a@);
    proof {
        lemma_prod_contains(a@, b@);
    }
    res
}

proof fn lemma_prod_contains(a: Seq<NumTerm>, b: Seq<NumTerm>)
    ensures
        forall|p: (NumTerm, NumTerm)| prod_spec(a, b).contains(p) <==> a.contains(p.0) && b.contains(p.1),
    decreases a.len(),
{
    if a.len() > 0 {
        lemma_prod_contains(a.drop_last(), b);
        let r = prod_spec(a.drop_last(), b);
        let row = b.map_values(|y: NumTerm| (a.last(), y));
        assert forall|p: (NumTerm, NumTerm)| prod_spec(a, b).contains(p) <==> a.contains(p.0) && b.contains(p.1) by {
            if prod_spec(a, b).contains(p) {
                let k = choose|k: int| 0 <= k < (r + row).len() && (r + row)[k] == p;
                if k < r.len() {
                    assert(r[k] == p);
                    assert(r.contains(p));
                    let m = choose|m: int| 0 <= m < a.drop_last().len() && a.drop_last()[m] == p.0;
                    assert(a[m] == p.0);
                } else {
                    assert(row[k - r.len()] == p);
                    assert(a[a.len() - 1] == p.0);
                    assert(b[k - r.len()] == p.1);
                }
            }
            if a.contains(p.0) && b.contains(p.1) {
                let m = choose|m: int| 0 <= m < a.len() && a[m] == p.0;
                let n = choose|n: int| 0 <= n < b.len() && b[n] == p.1;
                if m < a.len() - 1 {
                    assert(a.drop_last()[m] == p.0);
                    assert(a.drop_last().contains(p.0));
                    assert(r.contains(p));
                    let k = choose|k: int| 0 <= k < r.len() && r[k] == p;
                    assert((r + row)[k] == p);
                } else {
                    assert(row[n] == p);
                    assert((r + row)[r.len() + n] == p);
                }
            }
        }
    }
}

} // verus!
