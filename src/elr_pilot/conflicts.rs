//! The three conflicts that keep a pilot from being deterministic.

use vstd::prelude::*;
use crate::elr_pilot::{cand_text, Pilot, PilotState, PilotTransition, StateView};
use crate::text::{decimal, push_char, push_decimal, push_text, string_views};

verus! {

/// A final candidate of a state whose lookahead is also a symbol the state
/// shifts on.
#[derive(Debug, Clone, Copy, PartialEq, Eq, Structural)]
pub struct ShiftReduceConflict {
    pub state_id: i32,
    pub candidate_idx: usize,
}

/// Two final candidates of a state with the same lookahead.
#[derive(Debug, Clone, Copy, PartialEq, Eq, Structural)]
pub struct ReduceReduceConflict {
    pub state_id: i32,
    pub candidate_1_idx: usize,
    pub candidate_2_idx: usize,
}

/// Two candidates of a state that a shift on `transition_char` merges into
/// the same candidate of the destination state.
#[derive(Debug, Clone, Copy, PartialEq, Eq, Structural)]
pub struct ConvergenceConflict {
    pub state_1_id: i32,
    pub candidate_1_1_idx: usize,
    pub candidate_1_2_idx: usize,
    pub transition_char: char,
    pub state_2_id: i32,
    pub candidate_2_idx: usize,
}

/// Whether state `st` shifts on `c`.
pub open spec fn shifts_on(st: StateView, c: char) -> bool {
    exists|k: int| 0 <= k < st.transitions.len() && #[trigger] st.transitions[k].character == c
}

/// Whether candidate `i` of `st` is final and its lookahead is shifted on.
pub open spec fn is_sr(st: StateView, i: int) -> bool {
    st.candidates[i].is_final && shifts_on(st, st.candidates[i].lookahead)
}

/// The shift-reduce conflicts among the first `n` candidates of `st`.
pub open spec fn sr_upto(st: StateView, n: int) -> Seq<ShiftReduceConflict>
    decreases n,
{
    if n <= 0 {
        Seq::empty()
    } else if is_sr(st, n - 1) {
        sr_upto(st, n - 1).push(ShiftReduceConflict { state_id: st.id, candidate_idx: (n - 1) as usize })
    } else {
        sr_upto(st, n - 1)
    }
}

/// Whether candidates `i` and `j` of `st` are final with the same lookahead.
pub open spec fn is_rr(st: StateView, i: int, j: int) -> bool {
    st.candidates[i].is_final && st.candidates[j].is_final && st.candidates[i].lookahead == st.candidates[j].lookahead
}

/// The reduce-reduce conflicts of candidate `i` with candidates `i+1 .. n`.
pub open spec fn rr_row(st: StateView, i: int, n: int) -> Seq<ReduceReduceConflict>
    decreases n - i,
{
    if n <= i + 1 {
        Seq::empty()
    } else if is_rr(st, i, n - 1) {
        rr_row(st, i, n - 1).push(ReduceReduceConflict { state_id: st.id, candidate_1_idx: i as usize, candidate_2_idx: (n - 1) as usize })
    } else {
        rr_row(st, i, n - 1)
    }
}

/// The reduce-reduce conflicts whose first candidate is among the first `n`.
pub open spec fn rr_upto(st: StateView, n: int) -> Seq<ReduceReduceConflict>
    decreases n,
{
    if n <= 0 {
        Seq::empty()
    } else {
        rr_upto(st, n - 1) + rr_row(st, n - 1, st.candidates.len() as int)
    }
}

/// The convergence conflicts of entry `a` of `map` with entries
/// `a+1 .. n`, for the shift of `st` on `ch` to `dest`.
pub open spec fn conv_row(st: StateView, ch: char, dest: i32, map: Seq<(usize, usize)>, a: int, n: int) -> Seq<ConvergenceConflict>
    decreases n - a,
{
    if n <= a + 1 {
        Seq::empty()
    } else if map[a].1 == map[n - 1].1 {
        conv_row(st, ch, dest, map, a, n - 1).push(ConvergenceConflict {
            state_1_id: st.id,
            candidate_1_1_idx: map[a].0,
            candidate_1_2_idx: map[n - 1].0,
            transition_char: ch,
            state_2_id: dest,
            candidate_2_idx: map[a].1,
        })
    } else {
        conv_row(st, ch, dest, map, a, n - 1)
    }
}

/// The convergence conflicts of the first `n` entries of `map`.
pub open spec fn conv_map(st: StateView, ch: char, dest: i32, map: Seq<(usize, usize)>, n: int) -> Seq<ConvergenceConflict>
    decreases n,
{
    if n <= 0 {
        Seq::empty()
    } else {
        conv_map(st, ch, dest, map, n - 1) + conv_row(st, ch, dest, map, n - 1, map.len() as int)
    }
}

/// The convergence conflicts of the first `n` transitions of `st`.
pub open spec fn conv_upto(st: StateView, n: int) -> Seq<ConvergenceConflict>
    decreases n,
{
    if n <= 0 {
        Seq::empty()
    } else {
        let t = st.transitions[n - 1];
        conv_upto(st, n - 1) + conv_map(st, t.character, t.dest_id, t.candidate_map, t.candidate_map.len() as int)
    }
}

proof fn lemma_sr_empty(st: StateView, n: int)
    requires
        sr_upto(st, n).len() == 0,
    ensures
        forall|i: int| 0 <= i < n ==> !is_sr(st, i),
    decreases n,
{
    if n > 0 {
        lemma_sr_empty(st, n - 1);
    }
}

proof fn lemma_rr_row_empty(st: StateView, i: int, n: int)
    requires
        rr_row(st, i, n).len() == 0,
    ensures
        forall|j: int| i < j < n ==> !is_rr(st, i, j),
    decreases n - i,
{
    if n > i + 1 {
        lemma_rr_row_empty(st, i, n - 1);
    }
}

proof fn lemma_rr_empty(st: StateView, n: int)
    requires
        rr_upto(st, n).len() == 0,
    ensures
        forall|i: int, j: int| 0 <= i < n && i < j < st.candidates.len() ==> !is_rr(st, i, j),
    decreases n,
{
    if n > 0 {
        lemma_rr_empty(st, n - 1);
        lemma_rr_row_empty(st, n - 1, st.candidates.len() as int);
    }
}

proof fn lemma_conv_row_empty(st: StateView, ch: char, dest: i32, map: Seq<(usize, usize)>, a: int, n: int)
    requires
        conv_row(st, ch, dest, map, a, n).len() == 0,
    ensures
        forall|b: int| a < b < n ==> map[a].1 != map[b].1,
    decreases n - a,
{
    if n > a + 1 {
        lemma_conv_row_empty(st, ch, dest, map, a, n - 1);
    }
}

proof fn lemma_conv_map_empty(st: StateView, ch: char, dest: i32, map: Seq<(usize, usize)>, n: int)
    requires
        conv_map(st, ch, dest, map, n).len() == 0,
    ensures
        forall|a: int, b: int| 0 <= a < n && a < b < map.len() ==> map[a].1 != map[b].1,
    decreases n,
{
    if n > 0 {
        lemma_conv_map_empty(st, ch, dest, map, n - 1);
        lemma_conv_row_empty(st, ch, dest, map, n - 1, map.len() as int);
    }
}

proof fn lemma_conv_empty(st: StateView, n: int)
    requires
        conv_upto(st, n).len() == 0,
    ensures
        forall|k: int, a: int, b: int| 0 <= k < n && 0 <= a < b < st.transitions[k].candidate_map.len()
            ==> #[trigger] st.transitions[k].candidate_map[a].1 != #[trigger] st.transitions[k].candidate_map[b].1,
    decreases n,
{
    if n > 0 {
        lemma_conv_empty(st, n - 1);
        let t = st.transitions[n - 1];
        lemma_conv_map_empty(st, t.character, t.dest_id, t.candidate_map, t.candidate_map.len() as int);
    }
}

/// A state with no conflict of any kind is deterministic: no final
/// candidate has a lookahead the state shifts on, no two final candidates
/// share a lookahead, and no shift maps two source candidates to the same
/// destination candidate.
pub proof fn lemma_no_conflict_deterministic(st: StateView)
    requires
        sr_upto(st, st.candidates.len() as int).len() == 0,
        rr_upto(st, st.candidates.len() as int).len() == 0,
        conv_upto(st, st.transitions.len() as int).len() == 0,
    ensures
        forall|i: int| 0 <= i < st.candidates.len() && (#[trigger] st.candidates[i]).is_final
            ==> !shifts_on(st, st.candidates[i].lookahead),
        forall|i: int, j: int| 0 <= i < j < st.candidates.len() && (#[trigger] st.candidates[i]).is_final
            && (#[trigger] st.candidates[j]).is_final ==> st.candidates[i].lookahead != st.candidates[j].lookahead,
        forall|k: int, a: int, b: int| 0 <= k < st.transitions.len() && 0 <= a < b < st.transitions[k].candidate_map.len()
            ==> #[trigger] st.transitions[k].candidate_map[a].1 != #[trigger] st.transitions[k].candidate_map[b].1,
{
    lemma_sr_empty(st, st.candidates.len() as int);
    lemma_rr_empty(st, st.candidates.len() as int);
    lemma_conv_empty(st, st.transitions.len() as int);
    assert forall|i: int| 0 <= i < st.candidates.len() && (#[trigger] st.candidates[i]).is_final
        implies !shifts_on(st, st.candidates[i].lookahead) by {
        assert(!is_sr(st, i));
    }
    assert forall|i: int, j: int| 0 <= i < j < st.candidates.len() && (#[trigger] st.candidates[i]).is_final
        && (#[trigger] st.candidates[j]).is_final implies st.candidates[i].lookahead != st.candidates[j].lookahead by {
        assert(!is_rr(st, i, j));
    }
}

/// Whether each state of `p` is numbered by its position, each transition
/// leads to a state of `p`, and each entry of a candidate map pairs a
/// candidate of the source with a candidate of the destination.
pub open spec fn well_indexed(p: Seq<StateView>) -> bool {
    forall|i: int| 0 <= i < p.len() ==> #[trigger] well_indexed_at(p, i)
}

/// Whether transition `k` of state `i` of `p` leads to a state of `p` and
/// its candidate map pairs candidates of the two states.
pub open spec fn transition_ok(p: Seq<StateView>, i: int, k: int) -> bool {
    let t = p[i].transitions[k];
    &&& 0 <= t.dest_id < p.len()
    &&& forall|a: int| 0 <= a < t.candidate_map.len() ==>
        (#[trigger] t.candidate_map[a]).0 < p[i].candidates.len()
        && t.candidate_map[a].1 < p[t.dest_id as int].candidates.len()
}

/// Whether state `i` of `p` is numbered `i` and its transitions are indexed
/// consistently.
pub open spec fn well_indexed_at(p: Seq<StateView>, i: int) -> bool {
    &&& p[i].id == i
    &&& forall|k: int| 0 <= k < p[i].transitions.len() ==> #[trigger] transition_ok(p, i, k)
}

/// How a shift-reduce conflict of the pilot `p` reads.
pub open spec fn sr_text(p: Seq<StateView>, c: ShiftReduceConflict) -> Seq<char> {
    let cand = p[c.state_id as int].candidates[c.candidate_idx as int];
    "state I"@ + decimal(c.state_id as int) + ": shift-reduce conflict between "@ + cand_text(cand)
        + " and outgoing edge '"@ + seq![cand.lookahead, '\'']
}

/// How a reduce-reduce conflict of the pilot `p` reads.
pub open spec fn rr_text(p: Seq<StateView>, c: ReduceReduceConflict) -> Seq<char> {
    let cs = p[c.state_id as int].candidates;
    "state I"@ + decimal(c.state_id as int) + ": reduce-reduce conflict between "@
        + cand_text(cs[c.candidate_1_idx as int]) + " and "@ + cand_text(cs[c.candidate_2_idx as int])
}

/// How a convergence conflict of the pilot `p` reads.
pub open spec fn conv_text(p: Seq<StateView>, c: ConvergenceConflict) -> Seq<char> {
    let cs1 = p[c.state_1_id as int].candidates;
    let cs2 = p[c.state_2_id as int].candidates;
    "transition I"@ + decimal(c.state_1_id as int) + " -"@ + seq![c.transition_char] + "-> I"@
        + decimal(c.state_2_id as int) + ": convergence conflict as both "@
        + cand_text(cs1[c.candidate_1_1_idx as int]) + " and "@ + cand_text(cs1[c.candidate_1_2_idx as int])
        + " shift to "@ + cand_text(cs2[c.candidate_2_idx as int])
}

/// The messages for the conflicts of state `st` of the pilot `p`: its
/// shift-reduce, then reduce-reduce, then convergence conflicts.
pub open spec fn state_messages(p: Seq<StateView>, st: StateView) -> Seq<Seq<char>> {
    sr_upto(st, st.candidates.len() as int).map_values(|c: ShiftReduceConflict| sr_text(p, c))
        + rr_upto(st, st.candidates.len() as int).map_values(|c: ReduceReduceConflict| rr_text(p, c))
        + conv_upto(st, st.transitions.len() as int).map_values(|c: ConvergenceConflict| conv_text(p, c))
}

/// The messages for the conflicts of the first `n` states of `p`.
pub open spec fn messages_upto(p: Seq<StateView>, n: int) -> Seq<Seq<char>>
    decreases n,
{
    if n <= 0 {
        Seq::empty()
    } else {
        messages_upto(p, n - 1) + state_messages(p, p[n - 1])
    }
}

/// The conflict report of the pilot `p`: a message per conflict, or the
/// single message `no conflicts`.
pub open spec fn conflict_report(p: Seq<StateView>) -> Seq<Seq<char>> {
    let m = messages_upto(p, p.len() as int);
    if m.len() == 0 { seq!["no conflicts"@] } else { m }
}

proof fn lemma_sr_elems(st: StateView, n: int)
    ensures
        forall|k: int| 0 <= k < sr_upto(st, n).len() ==> (#[trigger] sr_upto(st, n)[k]).state_id == st.id
            && sr_upto(st, n)[k].candidate_idx < n,
    decreases n,
{
    if n > 0 {
        lemma_sr_elems(st, n - 1);
        let a = sr_upto(st, n - 1);
        assert forall|k: int| 0 <= k < sr_upto(st, n).len() implies (#[trigger] sr_upto(st, n)[k]).state_id == st.id
            && sr_upto(st, n)[k].candidate_idx < n by {
            if k < a.len() {
                assert(sr_upto(st, n)[k] == a[k]);
            }
        }
    }
}

proof fn lemma_rr_row_elems(st: StateView, i: int, n: int)
    requires
        0 <= i,
        n <= usize::MAX,
    ensures
        forall|k: int| 0 <= k < rr_row(st, i, n).len() ==> (#[trigger] rr_row(st, i, n)[k]).state_id == st.id
            && rr_row(st, i, n)[k].candidate_1_idx == i && rr_row(st, i, n)[k].candidate_2_idx < n,
    decreases n - i,
{
    if n > i + 1 {
        lemma_rr_row_elems(st, i, n - 1);
        let a = rr_row(st, i, n - 1);
        assert forall|k: int| 0 <= k < rr_row(st, i, n).len() implies (#[trigger] rr_row(st, i, n)[k]).state_id == st.id
            && rr_row(st, i, n)[k].candidate_1_idx == i && rr_row(st, i, n)[k].candidate_2_idx < n by {
            if k < a.len() {
                assert(rr_row(st, i, n)[k] == a[k]);
            }
        }
    }
}

proof fn lemma_rr_elems(st: StateView, n: int)
    requires
        n <= st.candidates.len() <= usize::MAX,
    ensures
        forall|k: int| 0 <= k < rr_upto(st, n).len() ==> (#[trigger] rr_upto(st, n)[k]).state_id == st.id
            && rr_upto(st, n)[k].candidate_1_idx < st.candidates.len()
            && rr_upto(st, n)[k].candidate_2_idx < st.candidates.len(),
    decreases n,
{
    if n > 0 {
        lemma_rr_elems(st, n - 1);
        lemma_rr_row_elems(st, n - 1, st.candidates.len() as int);
        let a = rr_upto(st, n - 1);
        let b = rr_row(st, n - 1, st.candidates.len() as int);
        assert forall|k: int| 0 <= k < (a + b).len() implies (#[trigger] (a + b)[k]).state_id == st.id
            && (a + b)[k].candidate_1_idx < st.candidates.len() && (a + b)[k].candidate_2_idx < st.candidates.len() by {
            if k < a.len() {
                assert(a[k] == (a + b)[k]);
            } else {
                assert(b[k - a.len()] == (a + b)[k]);
            }
        }
    }
}

/// Whether the indices of the convergence conflict `c` lie in the pilot `p`.
pub open spec fn conv_ok(p: Seq<StateView>, c: ConvergenceConflict) -> bool {
    &&& 0 <= c.state_1_id < p.len()
    &&& 0 <= c.state_2_id < p.len()
    &&& c.candidate_1_1_idx < p[c.state_1_id as int].candidates.len()
    &&& c.candidate_1_2_idx < p[c.state_1_id as int].candidates.len()
    &&& c.candidate_2_idx < p[c.state_2_id as int].candidates.len()
}

proof fn lemma_conv_row_elems(p: Seq<StateView>, st: StateView, ch: char, dest: i32, map: Seq<(usize, usize)>, a: int, n: int)
    requires
        0 <= st.id < p.len(),
        p[st.id as int] == st,
        0 <= dest < p.len(),
        0 <= a,
        n <= map.len(),
        forall|x: int| 0 <= x < map.len() ==> (#[trigger] map[x]).0 < st.candidates.len() && map[x].1 < p[dest as int].candidates.len(),
    ensures
        forall|k: int| 0 <= k < conv_row(st, ch, dest, map, a, n).len() ==> conv_ok(p, #[trigger] conv_row(st, ch, dest, map, a, n)[k]),
    decreases n - a,
{
    if n > a + 1 {
        lemma_conv_row_elems(p, st, ch, dest, map, a, n - 1);
        assert(map[a].0 < st.candidates.len() && map[n - 1].0 < st.candidates.len());
        let x = conv_row(st, ch, dest, map, a, n - 1);
        assert forall|k: int| 0 <= k < conv_row(st, ch, dest, map, a, n).len() implies conv_ok(p, #[trigger] conv_row(st, ch, dest, map, a, n)[k]) by {
            if k < x.len() {
                assert(conv_row(st, ch, dest, map, a, n)[k] == x[k]);
            }
        }
    }
}

proof fn lemma_conv_map_elems(p: Seq<StateView>, st: StateView, ch: char, dest: i32, map: Seq<(usize, usize)>, n: int)
    requires
        0 <= st.id < p.len(),
        p[st.id as int] == st,
        0 <= dest < p.len(),
        n <= map.len(),
        forall|x: int| 0 <= x < map.len() ==> (#[trigger] map[x]).0 < st.candidates.len() && map[x].1 < p[dest as int].candidates.len(),
    ensures
        forall|k: int| 0 <= k < conv_map(st, ch, dest, map, n).len() ==> conv_ok(p, #[trigger] conv_map(st, ch, dest, map, n)[k]),
    decreases n,
{
    if n > 0 {
        lemma_conv_map_elems(p, st, ch, dest, map, n - 1);
        lemma_conv_row_elems(p, st, ch, dest, map, n - 1, map.len() as int);
        let x = conv_map(st, ch, dest, map, n - 1);
        let y = conv_row(st, ch, dest, map, n - 1, map.len() as int);
        assert forall|k: int| 0 <= k < (x + y).len() implies conv_ok(p, #[trigger] (x + y)[k]) by {
            if k < x.len() {
                assert(x[k] == (x + y)[k]);
            } else {
                assert(y[k - x.len()] == (x + y)[k]);
            }
        }
    }
}

proof fn lemma_conv_elems(p: Seq<StateView>, i: int, n: int)
    requires
        well_indexed(p),
        0 <= i < p.len(),
        n <= p[i].transitions.len(),
    ensures
        forall|k: int| 0 <= k < conv_upto(p[i], n).len() ==> conv_ok(p, #[trigger] conv_upto(p[i], n)[k]),
    decreases n,
{
    let st = p[i];
    if n > 0 {
        lemma_conv_elems(p, i, n - 1);
        let t = st.transitions[n - 1];
        assert(well_indexed_at(p, i));
        assert(transition_ok(p, i, n - 1));
        assert(st.id == i);
        assert(0 <= t.dest_id < p.len());
        assert forall|x: int| 0 <= x < t.candidate_map.len() implies (#[trigger] t.candidate_map[x]).0 < st.candidates.len()
            && t.candidate_map[x].1 < p[t.dest_id as int].candidates.len() by {
            assert(st.transitions[n - 1] == t);
            assert(transition_ok(p, i, n - 1));
        }
        lemma_conv_map_elems(p, st, t.character, t.dest_id, t.candidate_map, t.candidate_map.len() as int);
        let x = conv_upto(st, n - 1);
        let y = conv_map(st, t.character, t.dest_id, t.candidate_map, t.candidate_map.len() as int);
        assert forall|k: int| 0 <= k < (x + y).len() implies conv_ok(p, #[trigger] (x + y)[k]) by {
            if k < x.len() {
                assert(x[k] == (x + y)[k]);
            } else {
                assert(y[k - x.len()] == (x + y)[k]);
            }
        }
    }
}

/// Whether some transition of `ts` is on `c`.
fn shifts_on_vec(ts: &Vec<PilotTransition>, c: char) -> (r: bool)
    ensures
        r == exists|k: int| 0 <= k < ts@.len() && #[trigger] ts@[k].character == c,
{
    let mut k: usize = 0;
    while k < ts.len()
        invariant
            k <= ts@.len(),
            forall|j: int| 0 <= j < k ==> ts@[j].character != c,
        decreases ts@.len() - k,
    {
        if ts[k].character == c {
            return true;
        }
        k += 1;
    }
    false
}

impl PilotState {
    /// The final candidates whose lookahead the state also shifts on, in
    /// candidate order.
    pub fn shift_reduce_conflicts(&self) -> (r: Vec<ShiftReduceConflict>)
        ensures
            r@ == sr_upto(self@, self.candidates@.len() as int),
    {
        let mut res: Vec<ShiftReduceConflict> = Vec::new();
        let mut i: usize = 0;
        while i < self.candidates.len()
            invariant
                i <= self.candidates@.len(),
                res@ == sr_upto(self@, i as int),
            decreases self.candidates@.len() - i,
        {
            let cand = self.candidates[i];
            let shifted = shifts_on_vec(&self.transitions, cand.lookahead);
            proof {
                let st = self@;
                assert(st.candidates[i as int] == cand);
                if shifted {
                    let k = choose|k: int| 0 <= k < self.transitions@.len() && #[trigger] self.transitions@[k].character == cand.lookahead;
                    assert(st.transitions[k].character == cand.lookahead);
                }
                if shifts_on(st, cand.lookahead) {
                    let k = choose|k: int| 0 <= k < st.transitions.len() && #[trigger] st.transitions[k].character == cand.lookahead;
                    assert(self.transitions@[k].character == cand.lookahead);
                }
            }
            if cand.is_final && shifted {
                res.push(ShiftReduceConflict { state_id: self.id, candidate_idx: i });
            }
            i += 1;
        }
        res
    }

    /// Each pair of final candidates with the same lookahead, ordered by the
    /// first index and then the second.
    pub fn reduce_reduce_conflicts(&self) -> (r: Vec<ReduceReduceConflict>)
        ensures
            r@ == rr_upto(self@, self.candidates@.len() as int),
    {
        let ghost st = self@;
        let n = self.candidates.len();
        let mut res: Vec<ReduceReduceConflict> = Vec::new();
        let mut i: usize = 0;
        while i < n
            invariant
                st == self@,
                n == self.candidates@.len(),
                i <= n,
                res@ == rr_upto(st, i as int),
            decreases n - i,
        {
            let ghost before = res@;
            let mut j: usize = i + 1;
            assert(res@ =~= before + rr_row(st, i as int, j as int));
            while j < n
                invariant
                    st == self@,
                    n == self.candidates@.len(),
                    i < n,
                    i + 1 <= j <= n,
                    res@ == before + rr_row(st, i as int, j as int),
                decreases n - j,
            {
                let ci = self.candidates[i];
                let cj = self.candidates[j];
                if ci.is_final && cj.is_final && ci.lookahead == cj.lookahead {
                    res.push(ReduceReduceConflict { state_id: self.id, candidate_1_idx: i, candidate_2_idx: j });
                }
                j += 1;
            }
            assert(res@ =~= rr_upto(st, i + 1));
            i += 1;
        }
        res
    }

    /// For each transition in order, each pair of entries of its candidate
    /// map whose destination index coincides.
    pub fn convergence_conflicts(&self) -> (r: Vec<ConvergenceConflict>)
        ensures
            r@ == conv_upto(self@, self.transitions@.len() as int),
    {
        let ghost st = self@;
        let mut res: Vec<ConvergenceConflict> = Vec::new();
        let mut k: usize = 0;
        while k < self.transitions.len()
            invariant
                st == self@,
                k <= self.transitions@.len(),
                res@ == conv_upto(st, k as int),
            decreases self.transitions@.len() - k,
        {
            let t = &self.transitions[k];
            assert(st.transitions[k as int] == t@);
            let ghost before_t = res@;
            assert(res@ =~= before_t + conv_map(st, t.character, t.dest_id, t.candidate_map@, 0));
            let n = t.candidate_map.len();
            let mut a: usize = 0;
            while a < n
                invariant
                    st == self@,
                    k < self.transitions@.len(),
                    st.transitions[k as int] == t@,
                    n == t.candidate_map@.len(),
                    a <= n,
                    res@ == before_t + conv_map(st, t.character, t.dest_id, t.candidate_map@, a as int),
                decreases n - a,
            {
                let ghost before = res@;
                let (i_s, i_d) = t.candidate_map[a];
                let mut b: usize = a + 1;
                assert(res@ =~= before + conv_row(st, t.character, t.dest_id, t.candidate_map@, a as int, b as int));
                while b < n
                    invariant
                        st == self@,
                        n == t.candidate_map@.len(),
                        a < n,
                        a + 1 <= b <= n,
                        (i_s, i_d) == t.candidate_map@[a as int],
                        res@ == before + conv_row(st, t.character, t.dest_id, t.candidate_map@, a as int, b as int),
                    decreases n - b,
                {
                    let (j_s, j_d) = t.candidate_map[b];
                    if i_d == j_d {
                        res.push(ConvergenceConflict {
                            state_1_id: self.id,
                            candidate_1_1_idx: i_s,
                            candidate_1_2_idx: j_s,
                            transition_char: t.character,
                            state_2_id: t.dest_id,
                            candidate_2_idx: i_d,
                        });
                    }
                    b += 1;
                }
                assert(res@ =~= before_t + conv_map(st, t.character, t.dest_id, t.candidate_map@, a + 1));
                a += 1;
            }
            assert(res@ =~= conv_upto(st, k + 1));
            k += 1;
        }
        res
    }
}

impl Pilot {
    /// Whether the pilot is indexed consistently (see `well_indexed`).
    pub fn is_well_indexed(&self) -> (r: bool)
        ensures
            r == well_indexed(self@),
    {
        let n = self.states.len();
        let mut i: usize = 0;
        while i < n
            invariant
                n == self@.len(),
                i <= n,
                forall|x: int| 0 <= x < i ==> #[trigger] well_indexed_at(self@, x),
            decreases n - i,
        {
            let st = &self.states[i];
            assert(self@[i as int] == st@);
            if i > 0x7fff_ffff || st.id != i as i32 {
                assert(!well_indexed_at(self@, i as int));
                return false;
            }
            let mut k: usize = 0;
            while k < st.transitions.len()
                invariant
                    n == self@.len(),
                    i < n,
                    self@[i as int] == st@,
                    st.id == i,
                    k <= st.transitions@.len(),
                    forall|y: int| 0 <= y < k ==> #[trigger] transition_ok(self@, i as int, y),
                decreases st.transitions@.len() - k,
            {
                let t = &st.transitions[k];
                assert(self@[i as int].transitions[k as int] == t@);
                if t.dest_id < 0 || t.dest_id as usize >= n {
                    assert(!transition_ok(self@, i as int, k as int));
                    assert(!well_indexed_at(self@, i as int));
                    return false;
                }
                let dn = self.states[t.dest_id as usize].candidates.len();
                assert(self@[t.dest_id as int].candidates.len() == dn);
                let mut a: usize = 0;
                while a < t.candidate_map.len()
                    invariant
                        n == self@.len(),
                        i < n,
                        self@[i as int] == st@,
                        k < st.transitions@.len(),
                        self@[i as int].transitions[k as int] == t@,
                        0 <= t.dest_id < n,
                        self@[t.dest_id as int].candidates.len() == dn,
                        a <= t.candidate_map@.len(),
                        forall|z: int| 0 <= z < a ==> (#[trigger] t.candidate_map@[z]).0 < st.candidates@.len()
                            && t.candidate_map@[z].1 < dn,
                    decreases t.candidate_map@.len() - a,
                {
                    let (x, y) = t.candidate_map[a];
                    if x >= st.candidates.len() || y >= dn {
                        assert(self@[i as int].transitions[k as int].candidate_map[a as int] == (x, y));
                        assert(!transition_ok(self@, i as int, k as int));
                        assert(!well_indexed_at(self@, i as int));
                        return false;
                    }
                    a += 1;
                }
                assert(transition_ok(self@, i as int, k as int));
                k += 1;
            }
            assert(well_indexed_at(self@, i as int));
            i += 1;
        }
        assert(well_indexed(self@)) by {
            assert forall|x: int| 0 <= x < self@.len() implies #[trigger] well_indexed_at(self@, x) by {}
        }
        true
    }

    /// The message for each conflict of each state in order (its
    /// shift-reduce, reduce-reduce, then convergence conflicts), or the
    /// single message `no conflicts`.
    pub fn conflict_messages(&self) -> (r: Vec<String>)
        requires
            well_indexed(self@),
        ensures
            string_views(r@) == conflict_report(self@),
    {
        let ghost p = self@;
        let mut res: Vec<String> = Vec::new();
        let mut i: usize = 0;
        while i < self.states.len()
            invariant
                p == self@,
                well_indexed(p),
                i <= p.len(),
                string_views(res@) == messages_upto(p, i as int),
            decreases p.len() - i,
        {
            let state = &self.states[i];
            let ghost st = p[i as int];
            assert(st == state@);
            assert(well_indexed_at(p, i as int));
            let ghost base = string_views(res@);
            let sr = state.shift_reduce_conflicts();
            proof {
                lemma_sr_elems(st, st.candidates.len() as int);
            }
            let mut j: usize = 0;
            while j < sr.len()
                invariant
                    p == self@,
                    well_indexed(p),
                    i < p.len(),
                    st == p[i as int],
                    st.id == i,
                    sr@ == sr_upto(st, st.candidates.len() as int),
                    forall|k: int| 0 <= k < sr@.len() ==> (#[trigger] sr@[k]).state_id == st.id && sr@[k].candidate_idx < st.candidates.len(),
                    j <= sr@.len(),
                    string_views(res@) == base + sr@.take(j as int).map_values(|c: ShiftReduceConflict| sr_text(p, c)),
                decreases sr@.len() - j,
            {
                let m = self.shift_reduce_message(&sr[j]);
                let ghost before = res@;
                res.push(m);
                assert(string_views(res@) =~= string_views(before).push(m@));
                assert(sr@.take(j + 1).map_values(|c: ShiftReduceConflict| sr_text(p, c))
                    =~= sr@.take(j as int).map_values(|c: ShiftReduceConflict| sr_text(p, c)).push(sr_text(p, sr@[j as int])));
                j += 1;
            }
            assert(sr@.take(j as int) == sr@);
            let ghost base2 = string_views(res@);
            let rr = state.reduce_reduce_conflicts();
            let nc = state.candidates.len();
            proof {
                assert(st.candidates.len() == nc);
                lemma_rr_elems(st, st.candidates.len() as int);
            }
            let mut j: usize = 0;
            while j < rr.len()
                invariant
                    p == self@,
                    well_indexed(p),
                    i < p.len(),
                    st == p[i as int],
                    st.id == i,
                    rr@ == rr_upto(st, st.candidates.len() as int),
                    forall|k: int| 0 <= k < rr@.len() ==> (#[trigger] rr@[k]).state_id == st.id
                        && rr@[k].candidate_1_idx < st.candidates.len() && rr@[k].candidate_2_idx < st.candidates.len(),
                    j <= rr@.len(),
                    string_views(res@) == base2 + rr@.take(j as int).map_values(|c: ReduceReduceConflict| rr_text(p, c)),
                decreases rr@.len() - j,
            {
                let m = self.reduce_reduce_message(&rr[j]);
                let ghost before = res@;
                res.push(m);
                assert(string_views(res@) =~= string_views(before).push(m@));
                assert(rr@.take(j + 1).map_values(|c: ReduceReduceConflict| rr_text(p, c))
                    =~= rr@.take(j as int).map_values(|c: ReduceReduceConflict| rr_text(p, c)).push(rr_text(p, rr@[j as int])));
                j += 1;
            }
            assert(rr@.take(j as int) == rr@);
            let ghost base3 = string_views(res@);
            let cc = state.convergence_conflicts();
            proof {
                lemma_conv_elems(p, i as int, st.transitions.len() as int);
            }
            let mut j: usize = 0;
            while j < cc.len()
                invariant
                    p == self@,
                    i < p.len(),
                    st == p[i as int],
                    cc@ == conv_upto(st, st.transitions.len() as int),
                    forall|k: int| 0 <= k < cc@.len() ==> conv_ok(p, #[trigger] cc@[k]),
                    j <= cc@.len(),
                    string_views(res@) == base3 + cc@.take(j as int).map_values(|c: ConvergenceConflict| conv_text(p, c)),
                decreases cc@.len() - j,
            {
                assert(conv_ok(p, cc@[j as int]));
                let m = self.convergence_message(&cc[j]);
                let ghost before = res@;
                res.push(m);
                assert(string_views(res@) =~= string_views(before).push(m@));
                assert(cc@.take(j + 1).map_values(|c: ConvergenceConflict| conv_text(p, c))
                    =~= cc@.take(j as int).map_values(|c: ConvergenceConflict| conv_text(p, c)).push(conv_text(p, cc@[j as int])));
                j += 1;
            }
            assert(cc@.take(j as int) == cc@);
            assert(string_views(res@) =~= messages_upto(p, i + 1));
            i += 1;
        }
        if res.len() == 0 {
            res.push(<String as vstd::string::StringExecFns>::from_str("no conflicts"));
            assert(string_views(res@) =~= seq!["no conflicts"@]);
        }
        res
    }

    /// The message for the shift-reduce conflict `c`.
    pub fn shift_reduce_message(&self, c: &ShiftReduceConflict) -> (r: String)
        requires
            well_indexed(self@),
            0 <= c.state_id < self@.len(),
            c.candidate_idx < self@[c.state_id as int].candidates.len(),
        ensures
            r@ == sr_text(self@, *c),
    {
        let s = c.state_id;
        assert(well_indexed_at(self@, s as int));
        assert(self@[s as int] == self.states@[s as int]@ && self@[s as int].id == s);
        let candidate = self.states[s as usize].candidates[c.candidate_idx];
        let mut r = String::new();
        push_text(&mut r, "state I");
        push_decimal(&mut r, s);
        push_text(&mut r, ": shift-reduce conflict between ");
        let t = candidate.to_string();
        push_text(&mut r, t.as_str());
        push_text(&mut r, " and outgoing edge '");
        push_char(&mut r, candidate.lookahead);
        push_char(&mut r, '\'');
        assert(r@ =~= sr_text(self@, *c));
        r
    }

    /// The message for the reduce-reduce conflict `c`.
    pub fn reduce_reduce_message(&self, c: &ReduceReduceConflict) -> (r: String)
        requires
            well_indexed(self@),
            0 <= c.state_id < self@.len(),
            c.candidate_1_idx < self@[c.state_id as int].candidates.len(),
            c.candidate_2_idx < self@[c.state_id as int].candidates.len(),
        ensures
            r@ == rr_text(self@, *c),
    {
        let s = c.state_id;
        assert(self@[s as int] == self.states@[s as int]@);
        let c1 = self.states[s as usize].candidates[c.candidate_1_idx].to_string();
        let c2 = self.states[s as usize].candidates[c.candidate_2_idx].to_string();
        let mut r = String::new();
        push_text(&mut r, "state I");
        push_decimal(&mut r, s);
        push_text(&mut r, ": reduce-reduce conflict between ");
        push_text(&mut r, c1.as_str());
        push_text(&mut r, " and ");
        push_text(&mut r, c2.as_str());
        assert(r@ =~= rr_text(self@, *c));
        r
    }

    /// The message for the convergence conflict `c`.
    pub fn convergence_message(&self, c: &ConvergenceConflict) -> (r: String)
        requires
            conv_ok(self@, *c),
        ensures
            r@ == conv_text(self@, *c),
    {
        let s1 = c.state_1_id;
        let s2 = c.state_2_id;
        assert(self@[s1 as int] == self.states@[s1 as int]@);
        assert(self@[s2 as int] == self.states@[s2 as int]@);
        let c1 = self.states[s1 as usize].candidates[c.candidate_1_1_idx].to_string();
        let c2 = self.states[s1 as usize].candidates[c.candidate_1_2_idx].to_string();
        let c3 = self.states[s2 as usize].candidates[c.candidate_2_idx].to_string();
        let mut r = String::new();
        push_text(&mut r, "transition I");
        push_decimal(&mut r, s1);
        push_text(&mut r, " -");
        push_char(&mut r, c.transition_char);
        push_text(&mut r, "-> I");
        push_decimal(&mut r, s2);
        push_text(&mut r, ": convergence conflict as both ");
        push_text(&mut r, c1.as_str());
        push_text(&mut r, " and ");
        push_text(&mut r, c2.as_str());
        push_text(&mut r, " shift to ");
        push_text(&mut r, c3.as_str());
        assert(r@ =~= conv_text(self@, *c));
        r
    }
}

} // verus!
