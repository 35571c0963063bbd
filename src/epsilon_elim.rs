//! Removal of spontaneous (epsilon) transitions from a machine.

use vstd::prelude::*;
use crate::fsm::{is_epsilon_label, Machine, State, Transition};

verus! {

/// The transitions of `ts` that are not spontaneous, in order.
pub open spec fn non_epsilon(ts: Seq<Transition>) -> Seq<Transition>
    decreases ts.len(),
{
    if ts.len() == 0 {
        ts
    } else if is_epsilon_label(ts.last().label) {
        non_epsilon(ts.drop_last())
    } else {
        non_epsilon(ts.drop_last()).push(ts.last())
    }
}

/// Whether one of the first `n` transitions of `ts` is spontaneous and
/// leads to `id`.
pub open spec fn eps_to(ts: Seq<Transition>, n: int, id: i32) -> bool {
    exists|k: int| 0 <= k < n && is_epsilon_label(#[trigger] ts[k].label) && ts[k].dest_id == id
}

/// One more transition adds its target to `eps_to` exactly when it is
/// spontaneous.
proof fn lemma_eps_to_step(ts: Seq<Transition>, k: int)
    requires
        0 <= k < ts.len(),
    ensures
        forall|id: i32| #[trigger] eps_to(ts, k + 1, id) <==> eps_to(ts, k, id) || (is_epsilon_label(ts[k].label) && ts[k].dest_id == id),
{
    assert forall|id: i32| #[trigger] eps_to(ts, k + 1, id) <==> eps_to(ts, k, id) || (is_epsilon_label(ts[k].label) && ts[k].dest_id == id) by {
        if eps_to(ts, k + 1, id) {
            let k2 = choose|k2: int| 0 <= k2 < k + 1 && is_epsilon_label(#[trigger] ts[k2].label) && ts[k2].dest_id == id;
            if k2 < k {
                assert(eps_to(ts, k, id));
            }
        }
        if eps_to(ts, k, id) {
            let k2 = choose|k2: int| 0 <= k2 < k && is_epsilon_label(#[trigger] ts[k2].label) && ts[k2].dest_id == id;
            assert(0 <= k2 < k + 1);
        }
        if is_epsilon_label(ts[k].label) && ts[k].dest_id == id {
            assert(0 <= k < k + 1);
        }
    }
}

/// Whether state `a` is `b` with letter transitions appended, each towards
/// a state of `m0`.
pub open spec fn state_extends(a: State, b: State, m0: Machine) -> bool {
    &&& a.id == b.id && a.label == b.label && a.is_initial == b.is_initial && a.is_final == b.is_final
    &&& b.transitions@.len() <= a.transitions@.len()
    &&& a.transitions@.take(b.transitions@.len() as int) == b.transitions@
    &&& forall|k: int| b.transitions@.len() <= k < a.transitions@.len()
        ==> !is_epsilon_label(#[trigger] a.transitions@[k].label) && m0.has_state(a.transitions@[k].dest_id)
}

/// Whether state `j` of `m` has a spontaneous transition to `d`.
pub open spec fn eps_edge(m: Machine, j: int, d: i32) -> bool {
    eps_to(m.states@[j].transitions@, m.states@[j].transitions@.len() as int, d)
}

/// Whether `p` lists positions of states of `m`, each with a spontaneous
/// transition to the next.
pub open spec fn eps_path(m: Machine, p: Seq<int>) -> bool {
    &&& p.len() >= 1
    &&& forall|i: int| 0 <= i < p.len() ==> 0 <= #[trigger] p[i] < m.states@.len()
    &&& forall|i: int| 0 <= i < p.len() - 1 ==> eps_edge(m, #[trigger] p[i], m.states@[p[i + 1]].id)
}

/// Whether `m` leads from state `j` to the state identified by `d` through
/// one or more spontaneous transitions.
pub open spec fn eps_reaches(m: Machine, j: int, d: i32) -> bool {
    exists|p: Seq<int>| #[trigger] eps_path(m, p) && p.len() >= 2 && p[0] == j && m.states@[p.last()].id == d
}

/// Whether each state of `m` has a spontaneous transition to every state
/// that a spontaneous transition of its spontaneous targets reaches.
pub open spec fn eps_closed(m: Machine) -> bool {
    forall|j: int, d1: i32, d2: i32|
        0 <= j < m.states@.len() && #[trigger] eps_edge(m, j, d1) && m.has_state(d1)
            && #[trigger] eps_edge(m, m.state_index(d1), d2) ==> eps_edge(m, j, d2)
}

/// Whether state `a` is `b` with spontaneous transitions appended, each
/// towards a state of `m0` that no earlier spontaneous transition of `a`
/// leads to.
pub open spec fn state_extends_eps(a: State, b: State, m0: Machine) -> bool {
    &&& a.id == b.id && a.label == b.label && a.is_initial == b.is_initial && a.is_final == b.is_final
    &&& b.transitions@.len() <= a.transitions@.len()
    &&& a.transitions@.take(b.transitions@.len() as int) == b.transitions@
    &&& forall|k: int| b.transitions@.len() <= k < a.transitions@.len()
        ==> is_epsilon_label(#[trigger] a.transitions@[k].label) && m0.has_state(a.transitions@[k].dest_id)
    &&& forall|i: int, k: int| #![trigger a.transitions@[i], a.transitions@[k]]
        b.transitions@.len() <= k < a.transitions@.len() && 0 <= i < k
        ==> !(is_epsilon_label(a.transitions@[i].label) && a.transitions@[i].dest_id == a.transitions@[k].dest_id)
}

/// How many pairs (state `j`, state `k`) with `j` below `jj` and `k` below
/// `kk` lack a spontaneous transition from `j` to `k`.
pub open spec fn missing_row(m: Machine, j: int, kk: int) -> nat
    decreases kk,
{
    if kk <= 0 {
        0
    } else {
        missing_row(m, j, kk - 1) + if eps_edge(m, j, m.states@[kk - 1].id) { 0nat } else { 1nat }
    }
}

/// How many pairs of states of `m`, the first below `jj`, lack a
/// spontaneous transition from the first to the second.
pub open spec fn missing(m: Machine, jj: int) -> nat
    decreases jj,
{
    if jj <= 0 {
        0
    } else {
        missing(m, jj - 1) + missing_row(m, jj - 1, m.states@.len() as int)
    }
}

/// Joining two paths of spontaneous transitions.
proof fn lemma_path_concat(m: Machine, p: Seq<int>, q: Seq<int>)
    requires
        eps_path(m, p),
        eps_path(m, q),
        p.last() == q[0],
    ensures
        eps_path(m, p + q.drop_first()),
        (p + q.drop_first())[0] == p[0],
        (p + q.drop_first()).last() == q.last(),
        (p + q.drop_first()).len() == p.len() + q.len() - 1,
{
    let r = p + q.drop_first();
    assert forall|i: int| 0 <= i < r.len() implies 0 <= #[trigger] r[i] < m.states@.len() by {
        if i < p.len() {
            assert(r[i] == p[i]);
        } else {
            assert(r[i] == q[i - p.len() + 1]);
        }
    }
    assert forall|i: int| 0 <= i < r.len() - 1 implies eps_edge(m, #[trigger] r[i], m.states@[r[i + 1]].id) by {
        if i < p.len() - 1 {
            assert(r[i] == p[i] && r[i + 1] == p[i + 1]);
        } else if i == p.len() - 1 {
            assert(r[i] == q[0] && r[i + 1] == q[1]);
        } else {
            assert(r[i] == q[i - p.len() + 1] && r[i + 1] == q[i - p.len() + 2]);
        }
    }
    if q.len() == 1 {
        assert(r =~= p);
    }
}

/// Fewer missing pairs in a row when pairs are only gained, strictly when
/// one is gained.
proof fn lemma_missing_row_mono(m0: Machine, m1: Machine, j: int, kk: int)
    requires
        m0.states@.len() == m1.states@.len(),
        0 <= kk <= m0.states@.len(),
        forall|k: int| 0 <= k < m0.states@.len() ==> (#[trigger] m1.states@[k]).id == m0.states@[k].id,
        forall|d: i32| eps_edge(m0, j, d) ==> eps_edge(m1, j, d),
    ensures
        missing_row(m1, j, kk) <= missing_row(m0, j, kk),
        (exists|k: int| 0 <= k < kk && !eps_edge(m0, j, m0.states@[k].id) && eps_edge(m1, j, m0.states@[k].id))
            ==> missing_row(m1, j, kk) < missing_row(m0, j, kk),
    decreases kk,
{
    if kk > 0 {
        lemma_missing_row_mono(m0, m1, j, kk - 1);
        assert(m1.states@[kk - 1].id == m0.states@[kk - 1].id);
        if exists|k: int| 0 <= k < kk && !eps_edge(m0, j, m0.states@[k].id) && eps_edge(m1, j, m0.states@[k].id) {
            let k = choose|k: int| 0 <= k < kk && !eps_edge(m0, j, m0.states@[k].id) && eps_edge(m1, j, m0.states@[k].id);
            if k < kk - 1 {
            }
        }
    }
}

/// Fewer missing pairs when pairs are only gained, strictly when one is
/// gained.
proof fn lemma_missing_mono(m0: Machine, m1: Machine, jj: int)
    requires
        m0.states@.len() == m1.states@.len(),
        0 <= jj <= m0.states@.len(),
        forall|k: int| 0 <= k < m0.states@.len() ==> (#[trigger] m1.states@[k]).id == m0.states@[k].id,
        forall|j: int, d: i32| 0 <= j < m0.states@.len() && #[trigger] eps_edge(m0, j, d) ==> eps_edge(m1, j, d),
    ensures
        missing(m1, jj) <= missing(m0, jj),
        (exists|j: int, k: int| 0 <= j < jj && 0 <= k < m0.states@.len() && !eps_edge(m0, j, m0.states@[k].id)
            && #[trigger] eps_edge(m1, j, m0.states@[k].id)) ==> missing(m1, jj) < missing(m0, jj),
    decreases jj,
{
    if jj > 0 {
        lemma_missing_mono(m0, m1, jj - 1);
        let n = m0.states@.len() as int;
        assert forall|d: i32| #[trigger] eps_edge(m0, jj - 1, d) implies eps_edge(m1, jj - 1, d) by {}
        lemma_missing_row_mono(m0, m1, jj - 1, n);
        if exists|j: int, k: int| 0 <= j < jj && 0 <= k < n && !eps_edge(m0, j, m0.states@[k].id)
            && #[trigger] eps_edge(m1, j, m0.states@[k].id) {
            let (j, k) = choose|j: int, k: int| 0 <= j < jj && 0 <= k < n && !eps_edge(m0, j, m0.states@[k].id)
                && #[trigger] eps_edge(m1, j, m0.states@[k].id);
            if j == jj - 1 {
                assert(exists|k2: int| 0 <= k2 < n && !eps_edge(m0, jj - 1, m0.states@[k2].id) && eps_edge(m1, jj - 1, m0.states@[k2].id));
            }
        }
    }
}

/// A state extends itself.
proof fn lemma_state_extends_refl(a: State, m0: Machine)
    ensures
        state_extends(a, a, m0),
        state_extends_eps(a, a, m0),
{
    assert(a.transitions@.take(a.transitions@.len() as int) =~= a.transitions@);
}

/// `s` with its final flag set to `f`.
pub open spec fn with_final(s: State, f: bool) -> State {
    State { id: s.id, label: s.label, transitions: s.transitions, is_initial: s.is_initial, is_final: f }
}

/// `s` with its initial flag set to `f`.
pub open spec fn with_initial(s: State, f: bool) -> State {
    State { id: s.id, label: s.label, transitions: s.transitions, is_initial: f, is_final: s.is_final }
}

/// `ts` with the transition on `c` to `d` appended unless it is there.
pub open spec fn add_trans(ts: Seq<Transition>, c: char, d: i32) -> Seq<Transition> {
    if exists|k: int| 0 <= k < ts.len() && ts[k].dest_id == d && ts[k].label == c {
        ts
    } else {
        ts.push(Transition { label: c, dest_id: d })
    }
}

/// The transitions of each state of `m`.
pub open spec fn trans_views(m: Machine) -> Seq<Seq<Transition>> {
    m.states@.map_values(|s: State| s.transitions@)
}

/// The transition lists `tv` of the states of `m` after adding, in order,
/// each (source identifier, label, destination) of `adds`.
pub open spec fn apply_adds(m: Machine, tv: Seq<Seq<Transition>>, adds: Seq<(i32, char, i32)>) -> Seq<Seq<Transition>>
    decreases adds.len(),
{
    if adds.len() == 0 {
        tv
    } else {
        let r = apply_adds(m, tv, adds.drop_last());
        let a = adds.last();
        let j = m.state_index(a.0);
        r.update(j, add_trans(r[j], a.1, a.2))
    }
}

/// The letter transitions of `ts`, each as a transition of state `id`.
pub open spec fn letters_from(id: i32, ts: Seq<Transition>) -> Seq<(i32, char, i32)>
    decreases ts.len(),
{
    if ts.len() == 0 {
        Seq::empty()
    } else if is_epsilon_label(ts.last().label) {
        letters_from(id, ts.drop_last())
    } else {
        letters_from(id, ts.drop_last()).push((id, ts.last().label, ts.last().dest_id))
    }
}

/// The spontaneous transitions of `ts`, each as a transition of state `id`
/// on `c`.
pub open spec fn spontaneous_from(id: i32, c: char, ts: Seq<Transition>) -> Seq<(i32, char, i32)>
    decreases ts.len(),
{
    if ts.len() == 0 {
        Seq::empty()
    } else if is_epsilon_label(ts.last().label) {
        spontaneous_from(id, c, ts.drop_last()).push((id, c, ts.last().dest_id))
    } else {
        spontaneous_from(id, c, ts.drop_last())
    }
}

impl Machine {
    /// The transitions of `m` that backward propagation adds for the first
    /// `n` transitions of state `j`: for each spontaneous one, the letter
    /// transitions of its target.
    pub open spec fn backward_of(&self, j: int, n: int) -> Seq<(i32, char, i32)>
        decreases n,
    {
        if n <= 0 {
            Seq::empty()
        } else {
            let t = self.states@[j].transitions@[n - 1];
            let rest = self.backward_of(j, n - 1);
            if is_epsilon_label(t.label) {
                rest + letters_from(self.states@[j].id, self.states@[self.state_index(t.dest_id)].transitions@)
            } else {
                rest
            }
        }
    }

    /// The transitions that backward propagation adds for the first `n`
    /// states.
    pub open spec fn backward_adds(&self, n: int) -> Seq<(i32, char, i32)>
        decreases n,
    {
        if n <= 0 {
            Seq::empty()
        } else {
            self.backward_adds(n - 1) + self.backward_of(n - 1, self.states@[n - 1].transitions@.len() as int)
        }
    }

    /// The transitions that forward propagation adds for the first `n`
    /// transitions of state `j`: for each letter one, a transition on its
    /// letter to each spontaneous target of its target.
    pub open spec fn forward_of(&self, j: int, n: int) -> Seq<(i32, char, i32)>
        decreases n,
    {
        if n <= 0 {
            Seq::empty()
        } else {
            let t = self.states@[j].transitions@[n - 1];
            let rest = self.forward_of(j, n - 1);
            if !is_epsilon_label(t.label) {
                rest + spontaneous_from(self.states@[j].id, t.label, self.states@[self.state_index(t.dest_id)].transitions@)
            } else {
                rest
            }
        }
    }

    /// The transitions that forward propagation adds for the first `n`
    /// states.
    pub open spec fn forward_adds(&self, n: int) -> Seq<(i32, char, i32)>
        decreases n,
    {
        if n <= 0 {
            Seq::empty()
        } else {
            self.forward_adds(n - 1) + self.forward_of(n - 1, self.states@[n - 1].transitions@.len() as int)
        }
    }

    /// Whether state `j` has a spontaneous transition to a final state.
    pub open spec fn reaches_final(&self, j: int) -> bool {
        exists|k: int| 0 <= k < self.states@[j].transitions@.len()
            && is_epsilon_label(#[trigger] self.states@[j].transitions@[k].label)
            && self.states@[self.state_index(self.states@[j].transitions@[k].dest_id)].is_final
    }

    /// Whether some initial state has a spontaneous transition to the state
    /// identified by `id`.
    pub open spec fn entered_from_initial(&self, id: i32) -> bool {
        exists|j: int, k: int| 0 <= j < self.states@.len() && self.states@[j].is_initial
            && 0 <= k < self.states@[j].transitions@.len()
            && is_epsilon_label(#[trigger] self.states@[j].transitions@[k].label)
            && self.states@[j].transitions@[k].dest_id == id
    }

    /// Drops every spontaneous transition.
    pub fn remove_epsilon_trans(&mut self)
        ensures
            final(self).label == old(self).label,
            final(self).states@.len() == old(self).states@.len(),
            forall|j: int| 0 <= j < old(self).states@.len() ==> {
                let o = #[trigger] old(self).states@[j];
                let n = final(self).states@[j];
                &&& n.id == o.id && n.label == o.label && n.is_initial == o.is_initial && n.is_final == o.is_final
                &&& n.transitions@ == non_epsilon(o.transitions@)
            },
    {
        let mut j: usize = 0;
        while j < self.states.len()
            invariant
                self.label == old(self).label,
                self.states@.len() == old(self).states@.len(),
                j <= self.states@.len(),
                forall|x: int| j <= x < self.states@.len() ==> #[trigger] self.states@[x] == old(self).states@[x],
                forall|x: int| 0 <= x < j ==> {
                    let o = #[trigger] old(self).states@[x];
                    let n = self.states@[x];
                    &&& n.id == o.id && n.label == o.label && n.is_initial == o.is_initial && n.is_final == o.is_final
                    &&& n.transitions@ == non_epsilon(o.transitions@)
                },
            decreases self.states@.len() - j,
        {
            let mut new_ts: Vec<Transition> = Vec::new();
            let mut k: usize = 0;
            while k < self.states[j].transitions.len()
                invariant
                    j < self.states@.len(),
                    self.states@[j as int] == old(self).states@[j as int],
                    k <= self.states@[j as int].transitions@.len(),
                    new_ts@ == non_epsilon(self.states@[j as int].transitions@.take(k as int)),
                decreases self.states@[j as int].transitions@.len() - k,
            {
                assert(self.states@[j as int].transitions@.take(k + 1).drop_last() == self.states@[j as int].transitions@.take(k as int));
                let t = self.states[j].transitions[k];
                if !t.is_epsilon() {
                    new_ts.push(t);
                }
                k += 1;
            }
            assert(self.states@[j as int].transitions@.take(k as int) == self.states@[j as int].transitions@);
            self.states[j].transitions = new_ts;
            j += 1;
        }
    }

    /// Makes final every state with a spontaneous transition to a final
    /// state.
    pub fn mark_new_final(&mut self)
        requires
            old(self).wf(),
        ensures
            final(self).label == old(self).label,
            final(self).states@.len() == old(self).states@.len(),
            forall|j: int| 0 <= j < old(self).states@.len() ==> #[trigger] final(self).states@[j]
                == with_final(old(self).states@[j], old(self).states@[j].is_final || old(self).reaches_final(j)),
    {
        let ghost m0 = *self;
        let mut to_add: Vec<i32> = Vec::new();
        let mut j: usize = 0;
        while j < self.states.len()
            invariant
                *self == m0,
                m0.wf(),
                j <= m0.states@.len(),
                forall|id: i32| to_add@.contains(id) <==> exists|x: int| 0 <= x < j && m0.states@[x].id == id && #[trigger] m0.reaches_final(x),
            decreases m0.states@.len() - j,
        {
            let s = &self.states[j];
            let mut k: usize = 0;
            let mut hit = false;
            while k < s.transitions.len()
                invariant
                    *self == m0,
                    m0.wf(),
                    j < m0.states@.len(),
                    s == &m0.states@[j as int],
                    k <= s.transitions@.len(),
                    hit <==> exists|y: int| 0 <= y < k && is_epsilon_label(#[trigger] s.transitions@[y].label)
                        && m0.states@[m0.state_index(s.transitions@[y].dest_id)].is_final,
                decreases s.transitions@.len() - k,
            {
                let t = s.transitions[k];
                if t.is_epsilon() {
                    assert(m0.has_state(m0.states@[j as int].transitions@[k as int].dest_id));
                    if self.lookup_state(t.dest_id).is_final {
                        hit = true;
                    }
                }
                k += 1;
            }
            assert(hit == m0.reaches_final(j as int));
            if hit {
                let ghost before = to_add@;
                to_add.push(s.id);
                assert forall|id: i32| to_add@.contains(id) <==> exists|x: int| 0 <= x < j + 1 && m0.states@[x].id == id && #[trigger] m0.reaches_final(x) by {
                    if to_add@.contains(id) && id != s.id {
                        let y = choose|y: int| 0 <= y < to_add@.len() && to_add@[y] == id;
                        assert(before[y] == id);
                    }
                    if id == s.id {
                        assert(to_add@[before.len() as int] == id);
                    } else if before.contains(id) {
                        let y = choose|y: int| 0 <= y < before.len() && before[y] == id;
                        assert(to_add@[y] == id);
                    }
                }
            }
            j += 1;
        }
        let mut x: usize = 0;
        while x < to_add.len()
            invariant
                m0.wf(),
                self.label == m0.label,
                self.states@.len() == m0.states@.len(),
                forall|id: i32| to_add@.contains(id) <==> exists|y: int| 0 <= y < m0.states@.len() && m0.states@[y].id == id && #[trigger] m0.reaches_final(y),
                x <= to_add@.len(),
                forall|y: int| 0 <= y < m0.states@.len() ==> #[trigger] self.states@[y]
                    == with_final(m0.states@[y], m0.states@[y].is_final || to_add@.take(x as int).contains(m0.states@[y].id)),
            decreases to_add@.len() - x,
        {
            let id = to_add[x];
            assert(to_add@.contains(id));
            let ghost y0 = choose|y: int| 0 <= y < m0.states@.len() && m0.states@[y].id == id && #[trigger] m0.reaches_final(y);
            let ghost before = self.states@;
            proof {
                assert(self.states@[y0].id == id);
                assert(self.ids_unique()) by {
                    assert forall|a: int, b: int| 0 <= a < b < self.states@.len() implies (#[trigger] self.states@[a]).id != (#[trigger] self.states@[b]).id by {
                        assert(self.states@[a].id == m0.states@[a].id && self.states@[b].id == m0.states@[b].id);
                    }
                }
                self.lemma_index_of_unique(y0);
            }
            let st = self.lookup_state_mut(id);
            st.is_final = true;
            proof {
                assert(self.states@ == before.update(y0, with_final(before[y0], true)));
                assert(to_add@.take(x + 1) == to_add@.take(x as int).push(id));
                assert forall|y: int| 0 <= y < m0.states@.len() implies #[trigger] self.states@[y]
                    == with_final(m0.states@[y], m0.states@[y].is_final || to_add@.take(x + 1).contains(m0.states@[y].id)) by {
                    let t = to_add@.take(x as int);
                    assert(t.push(id)[t.len() as int] == id);
                    if y == y0 {
                        assert(to_add@.take(x + 1).contains(id));
                    } else {
                        assert(m0.states@[y].id != id) by {
                            if y < y0 {
                                assert(m0.states@[y].id != m0.states@[y0].id);
                            } else {
                                assert(m0.states@[y0].id != m0.states@[y].id);
                            }
                        }
                        if to_add@.take(x + 1).contains(m0.states@[y].id) {
                            let tt = to_add@.take(x + 1);
                            let z = choose|z: int| 0 <= z < tt.len() && tt[z] == m0.states@[y].id;
                            assert(t[z] == m0.states@[y].id);
                        }
                        if t.contains(m0.states@[y].id) {
                            let z = choose|z: int| 0 <= z < t.len() && t[z] == m0.states@[y].id;
                            assert(to_add@.take(x + 1)[z] == m0.states@[y].id);
                        }
                    }
                }
            }
            x += 1;
        }
        assert(to_add@.take(x as int) == to_add@);
        assert forall|j: int| 0 <= j < m0.states@.len() implies #[trigger] self.states@[j]
            == with_final(m0.states@[j], m0.states@[j].is_final || m0.reaches_final(j)) by {
            if m0.reaches_final(j) {
                assert(to_add@.contains(m0.states@[j].id));
            }
            if to_add@.contains(m0.states@[j].id) {
                let y = choose|y: int| 0 <= y < m0.states@.len() && m0.states@[y].id == m0.states@[j].id && #[trigger] m0.reaches_final(y);
                if y != j {
                    if y < j {
                        assert(m0.states@[y].id != m0.states@[j].id);
                    } else {
                        assert(m0.states@[j].id != m0.states@[y].id);
                    }
                }
            }
        }
    }

    /// Makes initial every state that an initial state reaches by a
    /// spontaneous transition.
    pub fn mark_new_initial(&mut self)
        requires
            old(self).wf(),
        ensures
            final(self).label == old(self).label,
            final(self).states@.len() == old(self).states@.len(),
            forall|j: int| 0 <= j < old(self).states@.len() ==> #[trigger] final(self).states@[j]
                == with_initial(old(self).states@[j], old(self).states@[j].is_initial || old(self).entered_from_initial(old(self).states@[j].id)),
    {
        let ghost m0 = *self;
        let mut to_add: Vec<i32> = Vec::new();
        let mut j: usize = 0;
        while j < self.states.len()
            invariant
                *self == m0,
                m0.wf(),
                j <= m0.states@.len(),
                forall|id: i32| to_add@.contains(id) ==> m0.has_state(id),
                forall|id: i32| to_add@.contains(id) <==> exists|x: int, k: int| 0 <= x < j && m0.states@[x].is_initial
                    && 0 <= k < m0.states@[x].transitions@.len()
                    && is_epsilon_label(#[trigger] m0.states@[x].transitions@[k].label)
                    && m0.states@[x].transitions@[k].dest_id == id,
            decreases m0.states@.len() - j,
        {
            let s = &self.states[j];
            if s.is_initial {
                let mut k: usize = 0;
                let ghost base = to_add@;
                while k < s.transitions.len()
                    invariant
                        *self == m0,
                        m0.wf(),
                        j < m0.states@.len(),
                        s == &m0.states@[j as int],
                        s.is_initial,
                        k <= s.transitions@.len(),
                        forall|id: i32| base.contains(id) ==> m0.has_state(id),
                        forall|id: i32| to_add@.contains(id) ==> m0.has_state(id),
                        forall|id: i32| base.contains(id) <==> exists|x: int, k2: int| 0 <= x < j && m0.states@[x].is_initial
                            && 0 <= k2 < m0.states@[x].transitions@.len()
                            && is_epsilon_label(#[trigger] m0.states@[x].transitions@[k2].label)
                            && m0.states@[x].transitions@[k2].dest_id == id,
                        forall|id: i32| #[trigger] to_add@.contains(id) <==> base.contains(id) || eps_to(s.transitions@, k as int, id),
                    decreases s.transitions@.len() - k,
                {
                    let t = s.transitions[k];
                    assert(t == s.transitions@[k as int]);
                    let ghost before = to_add@;
                    if t.is_epsilon() {
                        assert(m0.has_state(m0.states@[j as int].transitions@[k as int].dest_id));
                        to_add.push(t.dest_id);
                        assert forall|id: i32| #[trigger] to_add@.contains(id) <==> before.contains(id) || id == t.dest_id by {
                            if to_add@.contains(id) && id != t.dest_id {
                                let y = choose|y: int| 0 <= y < to_add@.len() && to_add@[y] == id;
                                assert(before[y] == id);
                            }
                            if id == t.dest_id {
                                assert(to_add@[before.len() as int] == id);
                            } else if before.contains(id) {
                                let y = choose|y: int| 0 <= y < before.len() && before[y] == id;
                                assert(to_add@[y] == id);
                            }
                        }
                    }
                    proof {
                        lemma_eps_to_step(s.transitions@, k as int);
                    }
                    k += 1;
                }
                assert forall|id: i32| to_add@.contains(id) <==> exists|x: int, k2: int| 0 <= x < j + 1 && m0.states@[x].is_initial
                    && 0 <= k2 < m0.states@[x].transitions@.len()
                    && is_epsilon_label(#[trigger] m0.states@[x].transitions@[k2].label)
                    && m0.states@[x].transitions@[k2].dest_id == id by {
                    if eps_to(s.transitions@, k as int, id) {
                        let k2 = choose|k2: int| 0 <= k2 < k && is_epsilon_label(#[trigger] s.transitions@[k2].label) && s.transitions@[k2].dest_id == id;
                        assert(is_epsilon_label(m0.states@[j as int].transitions@[k2].label));
                    }
                    if exists|x: int, k2: int| 0 <= x < j + 1 && m0.states@[x].is_initial
                        && 0 <= k2 < m0.states@[x].transitions@.len()
                        && is_epsilon_label(#[trigger] m0.states@[x].transitions@[k2].label)
                        && m0.states@[x].transitions@[k2].dest_id == id {
                        let (x, k2) = choose|x: int, k2: int| 0 <= x < j + 1 && m0.states@[x].is_initial
                            && 0 <= k2 < m0.states@[x].transitions@.len()
                            && is_epsilon_label(#[trigger] m0.states@[x].transitions@[k2].label)
                            && m0.states@[x].transitions@[k2].dest_id == id;
                        if x == j {
                            assert(is_epsilon_label(s.transitions@[k2].label));
                        }
                    }
                }
            } else {
                assert forall|id: i32| to_add@.contains(id) <==> exists|x: int, k2: int| 0 <= x < j + 1 && m0.states@[x].is_initial
                    && 0 <= k2 < m0.states@[x].transitions@.len()
                    && is_epsilon_label(#[trigger] m0.states@[x].transitions@[k2].label)
                    && m0.states@[x].transitions@[k2].dest_id == id by {
                    if exists|x: int, k2: int| 0 <= x < j + 1 && m0.states@[x].is_initial
                        && 0 <= k2 < m0.states@[x].transitions@.len()
                        && is_epsilon_label(#[trigger] m0.states@[x].transitions@[k2].label)
                        && m0.states@[x].transitions@[k2].dest_id == id {
                        let (x, k2) = choose|x: int, k2: int| 0 <= x < j + 1 && m0.states@[x].is_initial
                            && 0 <= k2 < m0.states@[x].transitions@.len()
                            && is_epsilon_label(#[trigger] m0.states@[x].transitions@[k2].label)
                            && m0.states@[x].transitions@[k2].dest_id == id;
                        assert(x != j);
                    }
                }
            }
            j += 1;
        }
        let mut x: usize = 0;
        while x < to_add.len()
            invariant
                m0.wf(),
                self.label == m0.label,
                self.states@.len() == m0.states@.len(),
                forall|id: i32| to_add@.contains(id) ==> m0.has_state(id),
                forall|id: i32| to_add@.contains(id) <==> m0.entered_from_initial(id),
                x <= to_add@.len(),
                forall|y: int| 0 <= y < m0.states@.len() ==> #[trigger] self.states@[y]
                    == with_initial(m0.states@[y], m0.states@[y].is_initial || to_add@.take(x as int).contains(m0.states@[y].id)),
            decreases to_add@.len() - x,
        {
            let id = to_add[x];
            assert(to_add@.contains(id));
            assert(m0.has_state(id));
            let ghost y0 = choose|y: int| 0 <= y < m0.states@.len() && m0.states@[y].id == id;
            let ghost before = self.states@;
            proof {
                assert(self.states@[y0].id == id);
                assert(self.ids_unique()) by {
                    assert forall|a: int, b: int| 0 <= a < b < self.states@.len() implies (#[trigger] self.states@[a]).id != (#[trigger] self.states@[b]).id by {
                        assert(self.states@[a].id == m0.states@[a].id && self.states@[b].id == m0.states@[b].id);
                    }
                }
                self.lemma_index_of_unique(y0);
            }
            let st = self.lookup_state_mut(id);
            st.is_initial = true;
            proof {
                assert(self.states@ == before.update(y0, with_initial(before[y0], true)));
                assert forall|y: int| 0 <= y < m0.states@.len() implies #[trigger] self.states@[y]
                    == with_initial(m0.states@[y], m0.states@[y].is_initial || to_add@.take(x + 1).contains(m0.states@[y].id)) by {
                    let t = to_add@.take(x as int);
                    let tt = to_add@.take(x + 1);
                    assert(tt == t.push(id));
                    assert(tt[t.len() as int] == id);
                    if y == y0 {
                        assert(tt.contains(id));
                    } else {
                        assert(m0.states@[y].id != id) by {
                            if y < y0 {
                                assert(m0.states@[y].id != m0.states@[y0].id);
                            } else {
                                assert(m0.states@[y0].id != m0.states@[y].id);
                            }
                        }
                        if tt.contains(m0.states@[y].id) {
                            let z = choose|z: int| 0 <= z < tt.len() && tt[z] == m0.states@[y].id;
                            assert(t[z] == m0.states@[y].id);
                        }
                        if t.contains(m0.states@[y].id) {
                            let z = choose|z: int| 0 <= z < t.len() && t[z] == m0.states@[y].id;
                            assert(tt[z] == m0.states@[y].id);
                        }
                    }
                }
            }
            x += 1;
        }
        assert(to_add@.take(x as int) == to_add@);
    }

    /// Adds to state `src_id` the transition on `c` to `dest_id` unless it
    /// is there.
    fn add_transition(&mut self, src_id: i32, c: char, dest_id: i32)
        requires
            old(self).has_state(src_id),
        ensures
            final(self).label == old(self).label,
            final(self).states@.len() == old(self).states@.len(),
            old(self).is_first_state(old(self).state_index(src_id), src_id),
            forall|x: int| 0 <= x < old(self).states@.len() && x != old(self).state_index(src_id)
                ==> final(self).states@[x] == old(self).states@[x],
            final(self).states@[old(self).state_index(src_id)].id == old(self).states@[old(self).state_index(src_id)].id,
            final(self).states@[old(self).state_index(src_id)].label == old(self).states@[old(self).state_index(src_id)].label,
            final(self).states@[old(self).state_index(src_id)].is_initial == old(self).states@[old(self).state_index(src_id)].is_initial,
            final(self).states@[old(self).state_index(src_id)].is_final == old(self).states@[old(self).state_index(src_id)].is_final,
            final(self).states@[old(self).state_index(src_id)].transitions@
                == add_trans(old(self).states@[old(self).state_index(src_id)].transitions@, c, dest_id),
    {
        let src = self.lookup_state(src_id);
        let mut k: usize = 0;
        while k < src.transitions.len()
            invariant
                *self == *old(self),
                self.is_first_state(self.state_index(src_id), src_id),
                *src == self.states@[self.state_index(src_id)],
                k <= src.transitions@.len(),
                forall|y: int| 0 <= y < k ==> !(src.transitions@[y].dest_id == dest_id && src.transitions@[y].label == c),
            decreases src.transitions@.len() - k,
        {
            if src.transitions[k].dest_id == dest_id && src.transitions[k].label == c {
                assert(src.transitions@[k as int].dest_id == dest_id && src.transitions@[k as int].label == c);
                assert(add_trans(src.transitions@, c, dest_id) == src.transitions@);
                return;
            }
            k += 1;
        }
        assert(add_trans(src.transitions@, c, dest_id) == src.transitions@.push(Transition { label: c, dest_id }));
        let src = self.lookup_state_mut(src_id);
        src.transitions.push(Transition { dest_id, label: c });
    }

    /// Whether `self` differs from `m0` only by letter transitions appended
    /// to its states, each towards a state of `m0`.
    pub open spec fn extends_with_letters(&self, m0: Machine) -> bool {
        &&& self.label == m0.label
        &&& self.states@.len() == m0.states@.len()
        &&& forall|j: int| 0 <= j < m0.states@.len() ==> state_extends(#[trigger] self.states@[j], m0.states@[j], m0)
    }

    /// Adds to state `src_id` a spontaneous transition to `dest_id` unless
    /// it has one; says whether it added it.
    fn add_epsilon_transition(&mut self, src_id: i32, dest_id: i32) -> (r: bool)
        requires
            old(self).has_state(src_id),
        ensures
            old(self).is_first_state(old(self).state_index(src_id), src_id),
            r == !eps_edge(*old(self), old(self).state_index(src_id), dest_id),
            final(self).label == old(self).label,
            final(self).states@.len() == old(self).states@.len(),
            forall|x: int| 0 <= x < old(self).states@.len() && x != old(self).state_index(src_id)
                ==> final(self).states@[x] == old(self).states@[x],
            final(self).states@[old(self).state_index(src_id)].id == old(self).states@[old(self).state_index(src_id)].id,
            final(self).states@[old(self).state_index(src_id)].label == old(self).states@[old(self).state_index(src_id)].label,
            final(self).states@[old(self).state_index(src_id)].is_initial == old(self).states@[old(self).state_index(src_id)].is_initial,
            final(self).states@[old(self).state_index(src_id)].is_final == old(self).states@[old(self).state_index(src_id)].is_final,
            final(self).states@[old(self).state_index(src_id)].transitions@
                == add_trans(old(self).states@[old(self).state_index(src_id)].transitions@, '_', dest_id),
    {
        let src = self.lookup_state(src_id);
        let mut k: usize = 0;
        while k < src.transitions.len()
            invariant
                *self == *old(self),
                self.is_first_state(self.state_index(src_id), src_id),
                *src == self.states@[self.state_index(src_id)],
                k <= src.transitions@.len(),
                forall|y: int| 0 <= y < k ==> !(src.transitions@[y].dest_id == dest_id && is_epsilon_label(src.transitions@[y].label)),
            decreases src.transitions@.len() - k,
        {
            if src.transitions[k].dest_id == dest_id && src.transitions[k].is_epsilon() {
                assert(src.transitions@[k as int].dest_id == dest_id && src.transitions@[k as int].label == '_');
                assert(add_trans(src.transitions@, '_', dest_id) == src.transitions@);
                assert(eps_to(src.transitions@, src.transitions@.len() as int, dest_id));
                return false;
            }
            k += 1;
        }
        assert(!eps_to(src.transitions@, src.transitions@.len() as int, dest_id));
        assert(add_trans(src.transitions@, '_', dest_id) == src.transitions@.push(Transition { label: '_', dest_id }));
        let src = self.lookup_state_mut(src_id);
        src.transitions.push(Transition { dest_id, label: '_' });
        true
    }

    /// Whether `self` differs from `m0` only by spontaneous transitions
    /// appended to its states, each towards a state of `m0`.
    pub open spec fn extends_with_eps(&self, m0: Machine) -> bool {
        &&& self.label == m0.label
        &&& self.states@.len() == m0.states@.len()
        &&& forall|j: int| 0 <= j < m0.states@.len() ==> state_extends_eps(#[trigger] self.states@[j], m0.states@[j], m0)
    }

    /// Adds spontaneous transitions until every state has one to each state
    /// that its spontaneous targets reach spontaneously: the spontaneous
    /// transitions become the transitive closure of the existing ones.
    pub fn epsilon_trans_closure(&mut self)
        requires
            old(self).wf(),
        ensures
            final(self).extends_with_eps(*old(self)),
            eps_closed(*final(self)),
            forall|j: int, d: i32| 0 <= j < old(self).states@.len() && #[trigger] eps_edge(*final(self), j, d)
                ==> eps_reaches(*old(self), j, d),
    {
        let ghost m0 = *self;
        proof {
            assert forall|j: int| 0 <= j < m0.states@.len() implies state_extends_eps(#[trigger] self.states@[j], m0.states@[j], m0) by {
                lemma_state_extends_refl(m0.states@[j], m0);
            }
            assert forall|j: int, d: i32| 0 <= j < m0.states@.len() && #[trigger] eps_edge(*self, j, d) implies eps_reaches(m0, j, d) by {
                lemma_edge_reaches(m0, j, d);
            }
        }
        loop
            invariant
                m0.wf(),
                self.extends_with_eps(m0),
                forall|j: int, d: i32| 0 <= j < m0.states@.len() && #[trigger] eps_edge(*self, j, d) ==> eps_reaches(m0, j, d),
            ensures
                self.extends_with_eps(m0),
                eps_closed(*self),
                forall|j: int, d: i32| 0 <= j < m0.states@.len() && #[trigger] eps_edge(*self, j, d) ==> eps_reaches(m0, j, d),
            decreases missing(*self, self.states@.len() as int),
        {
            let ghost mr = *self;
            proof {
                lemma_eps_extension_wf(m0, mr);
            }
            let mut to_add: Vec<(i32, i32)> = Vec::new();
            let mut j: usize = 0;
            while j < self.states.len()
                invariant
                    *self == mr,
                    mr.wf(),
                    m0.wf(),
                    mr.extends_with_eps(m0),
                    forall|a: int, d: i32| 0 <= a < m0.states@.len() && #[trigger] eps_edge(mr, a, d) ==> eps_reaches(m0, a, d),
                    j <= mr.states@.len(),
                    forall|y: int| 0 <= y < to_add@.len() ==> add_ok(m0, mr, #[trigger] to_add@[y]),
                    forall|a: int, d1: i32, d2: i32| 0 <= a < j && #[trigger] eps_edge(mr, a, d1) && mr.has_state(d1)
                        && #[trigger] eps_edge(mr, mr.state_index(d1), d2) ==> to_add@.contains((mr.states@[a].id, d2)),
                decreases mr.states@.len() - j,
            {
                let s = &self.states[j];
                let ghost base = to_add@;
                let mut k: usize = 0;
                while k < s.transitions.len()
                    invariant
                        *self == mr,
                        mr.wf(),
                        m0.wf(),
                        mr.extends_with_eps(m0),
                        forall|a: int, d: i32| 0 <= a < m0.states@.len() && #[trigger] eps_edge(mr, a, d) ==> eps_reaches(m0, a, d),
                        j < mr.states@.len(),
                        s == &mr.states@[j as int],
                        k <= s.transitions@.len(),
                        forall|y: int| 0 <= y < to_add@.len() ==> add_ok(m0, mr, #[trigger] to_add@[y]),
                        forall|x: (i32, i32)| base.contains(x) ==> #[trigger] to_add@.contains(x),
                        forall|d1: i32, d2: i32| #[trigger] eps_to(s.transitions@, k as int, d1) && mr.has_state(d1)
                            && #[trigger] eps_edge(mr, mr.state_index(d1), d2) ==> to_add@.contains((s.id, d2)),
                    decreases s.transitions@.len() - k,
                {
                    let t = s.transitions[k];
                    assert(t == mr.states@[j as int].transitions@[k as int]);
                    proof {
                        lemma_eps_to_step(s.transitions@, k as int);
                    }
                    let ghost before_t = to_add@;
                    if t.is_epsilon() {
                        assert(mr.has_state(mr.states@[j as int].transitions@[k as int].dest_id));
                        let dest_s = self.lookup_state(t.dest_id);
                        let ghost di = mr.state_index(t.dest_id);
                        proof {
                            assert(eps_to(s.transitions@, k + 1, t.dest_id));
                            assert(eps_to(s.transitions@, s.transitions@.len() as int, t.dest_id)) by {
                                assert(is_epsilon_label(s.transitions@[k as int].label));
                            }
                            assert(eps_edge(mr, j as int, t.dest_id));
                        }
                        let mut l: usize = 0;
                        while l < dest_s.transitions.len()
                            invariant
                                mr.wf(),
                                m0.wf(),
                                mr.extends_with_eps(m0),
                                forall|a: int, d: i32| 0 <= a < m0.states@.len() && #[trigger] eps_edge(mr, a, d) ==> eps_reaches(m0, a, d),
                                j < mr.states@.len(),
                                s == &mr.states@[j as int],
                                mr.has_state(t.dest_id),
                                eps_edge(mr, j as int, t.dest_id),
                                di == mr.state_index(t.dest_id),
                                mr.is_first_state(di, t.dest_id),
                                *dest_s == mr.states@[di],
                                l <= dest_s.transitions@.len(),
                                forall|y: int| 0 <= y < to_add@.len() ==> add_ok(m0, mr, #[trigger] to_add@[y]),
                                forall|x: (i32, i32)| before_t.contains(x) ==> #[trigger] to_add@.contains(x),
                                forall|d2: i32| #[trigger] eps_to(dest_s.transitions@, l as int, d2) ==> to_add@.contains((s.id, d2)),
                            decreases dest_s.transitions@.len() - l,
                        {
                            let nt = dest_s.transitions[l];
                            assert(nt == mr.states@[di].transitions@[l as int]);
                            proof {
                                lemma_eps_to_step(dest_s.transitions@, l as int);
                            }
                            if nt.is_epsilon() {
                                assert(mr.has_state(mr.states@[di].transitions@[l as int].dest_id));
                                proof {
                                    assert(eps_to(dest_s.transitions@, dest_s.transitions@.len() as int, nt.dest_id)) by {
                                        assert(is_epsilon_label(dest_s.transitions@[l as int].label));
                                    }
                                    assert(eps_edge(mr, di, nt.dest_id));
                                    lemma_reach_step(m0, mr, j as int, t.dest_id, nt.dest_id);
                                    mr.lemma_index_of_unique(j as int);
                                }
                                let ghost before = to_add@;
                                to_add.push((s.id, nt.dest_id));
                                proof {
                                    assert(to_add@[before.len() as int] == (s.id, nt.dest_id));
                                    assert forall|y: int| 0 <= y < to_add@.len() implies add_ok(m0, mr, #[trigger] to_add@[y]) by {
                                        if y < before.len() {
                                            assert(to_add@[y] == before[y]);
                                        }
                                    }
                                    assert forall|x: (i32, i32)| before.contains(x) implies #[trigger] to_add@.contains(x) by {
                                        let y = choose|y: int| 0 <= y < before.len() && before[y] == x;
                                        assert(to_add@[y] == x);
                                    }
                                }
                            }
                            l += 1;
                        }
                        assert(dest_s.transitions@.len() == mr.states@[di].transitions@.len());
                        proof {
                            assert forall|d1: i32, d2: i32| #[trigger] eps_to(s.transitions@, k + 1, d1) && mr.has_state(d1)
                                && #[trigger] eps_edge(mr, mr.state_index(d1), d2) implies to_add@.contains((s.id, d2)) by {
                                if eps_to(s.transitions@, k as int, d1) {
                                    assert(before_t.contains((s.id, d2)));
                                } else {
                                    assert(d1 == t.dest_id);
                                    assert(eps_to(dest_s.transitions@, l as int, d2));
                                }
                            }
                        }
                    } else {
                        proof {
                            assert forall|d1: i32, d2: i32| #[trigger] eps_to(s.transitions@, k + 1, d1) && mr.has_state(d1)
                                && #[trigger] eps_edge(mr, mr.state_index(d1), d2) implies to_add@.contains((s.id, d2)) by {
                                assert(eps_to(s.transitions@, k as int, d1));
                            }
                        }
                    }
                    k += 1;
                }
                proof {
                    assert forall|a: int, d1: i32, d2: i32| 0 <= a < j + 1 && #[trigger] eps_edge(mr, a, d1) && mr.has_state(d1)
                        && #[trigger] eps_edge(mr, mr.state_index(d1), d2) implies to_add@.contains((mr.states@[a].id, d2)) by {
                        if a < j {
                            assert(base.contains((mr.states@[a].id, d2)));
                        } else {
                            assert(eps_to(s.transitions@, k as int, d1));
                        }
                    }
                }
                j += 1;
            }
            let mut changed = false;
            let mut x: usize = 0;
            while x < to_add.len()
                invariant
                    m0.wf(),
                    mr.wf(),
                    mr.extends_with_eps(m0),
                    self.extends_with_eps(m0),
                    forall|a: int, d: i32| 0 <= a < m0.states@.len() && #[trigger] eps_edge(*self, a, d) ==> eps_reaches(m0, a, d),
                    forall|y: int| 0 <= y < to_add@.len() ==> add_ok(m0, mr, #[trigger] to_add@[y]),
                    x <= to_add@.len(),
                    missing(*self, m0.states@.len() as int) <= missing(mr, m0.states@.len() as int),
                    changed ==> missing(*self, m0.states@.len() as int) < missing(mr, m0.states@.len() as int),
                    !changed ==> forall|p: int, e: i32| 0 <= p < m0.states@.len() ==> (#[trigger] eps_edge(*self, p, e) == eps_edge(mr, p, e)),
                    !changed ==> forall|y: int| 0 <= y < x ==> eps_edge(mr, mr.state_index((#[trigger] to_add@[y]).0), to_add@[y].1),
                decreases to_add@.len() - x,
            {
                let a = to_add[x];
                let ghost before = *self;
                proof {
                    assert(add_ok(m0, mr, to_add@[x as int]));
                    lemma_eps_extension_wf(m0, before);
                    lemma_eps_extension_wf(m0, mr);
                    lemma_same_index(m0, mr, before, a.0);
                }
                let c = self.add_epsilon_transition(a.0, a.1);
                proof {
                    let j0 = before.state_index(a.0);
                    lemma_add_keeps_eps_extension(m0, before, *self, j0, a.1);
                    lemma_add_eps_edges(before, *self, j0, a.1);
                    assert forall|p: int, d: i32| 0 <= p < m0.states@.len() && #[trigger] eps_edge(*self, p, d) implies eps_reaches(m0, p, d) by {
                        if !eps_edge(before, p, d) {
                            assert(p == j0 && d == a.1);
                        }
                    }
                    assert forall|p: int| 0 <= p < m0.states@.len() implies (#[trigger] self.states@[p]).id == before.states@[p].id by {}
                    assert forall|p: int, d: i32| 0 <= p < m0.states@.len() && #[trigger] eps_edge(before, p, d) implies eps_edge(*self, p, d) by {}
                    let k0 = choose|k0: int| 0 <= k0 < before.states@.len() && before.states@[k0].id == a.1;
                    if c {
                        assert(eps_edge(*self, j0, before.states@[k0].id));
                    } else {
                        assert(eps_edge(before, j0, a.1));
                    }
                    lemma_missing_mono(before, *self, m0.states@.len() as int);
                }
                changed = changed || c;
                x += 1;
            }
            if !changed {
                proof {
                    lemma_eps_extension_wf(m0, *self);
                    lemma_eps_extension_wf(m0, mr);
                    assert forall|p: int, d1: i32, d2: i32|
                        0 <= p < self.states@.len() && #[trigger] eps_edge(*self, p, d1) && self.has_state(d1)
                            && #[trigger] eps_edge(*self, self.state_index(d1), d2) implies eps_edge(*self, p, d2) by {
                        lemma_same_index(m0, *self, mr, d1);
                        assert(eps_edge(mr, p, d1));
                        assert(eps_edge(mr, mr.state_index(d1), d2));
                        assert(to_add@.contains((mr.states@[p].id, d2)));
                        let y = choose|y: int| 0 <= y < to_add@.len() && to_add@[y] == (mr.states@[p].id, d2);
                        assert(eps_edge(mr, mr.state_index(to_add@[y].0), to_add@[y].1));
                        mr.lemma_index_of_unique(p);
                        assert(eps_edge(mr, p, d2));
                    }
                }
                break;
            }
        }
    }

    /// Adds each (source identifier, label, destination) of `to_add` in
    /// order.
    fn add_all(&mut self, to_add: &Vec<(i32, char, i32)>)
        requires
            old(self).wf(),
            forall|x: int| 0 <= x < to_add@.len() ==> old(self).has_state((#[trigger] to_add@[x]).0)
                && old(self).has_state(to_add@[x].2) && !is_epsilon_label(to_add@[x].1),
        ensures
            final(self).extends_with_letters(*old(self)),
            trans_views(*final(self)) == apply_adds(*old(self), trans_views(*old(self)), to_add@),
    {
        let ghost m0 = *self;
        let mut x: usize = 0;
        proof {
            assert forall|j: int| 0 <= j < m0.states@.len() implies state_extends(#[trigger] self.states@[j], m0.states@[j], m0) by {
                assert(self.states@[j] == m0.states@[j]);
                lemma_state_extends_refl(m0.states@[j], m0);
            }
            assert(to_add@.take(0) =~= Seq::<(i32, char, i32)>::empty());
        }
        while x < to_add.len()
            invariant
                m0.wf(),
                forall|y: int| 0 <= y < to_add@.len() ==> m0.has_state((#[trigger] to_add@[y]).0)
                    && m0.has_state(to_add@[y].2) && !is_epsilon_label(to_add@[y].1),
                x <= to_add@.len(),
                self.extends_with_letters(m0),
                trans_views(*self) == apply_adds(m0, trans_views(m0), to_add@.take(x as int)),
            decreases to_add@.len() - x,
        {
            let a = to_add[x];
            assert(to_add@.take(x + 1).drop_last() == to_add@.take(x as int));
            assert(to_add@.take(x + 1).last() == a);
            let ghost before = *self;
            let ghost j0 = m0.state_index(a.0);
            proof {
                assert(m0.has_state(to_add@[x as int].0));
                m0.lemma_first_state(a.0);
                assert(self.states@[j0].id == a.0);
                assert(self.ids_unique()) by {
                    assert forall|p: int, q: int| 0 <= p < q < self.states@.len() implies (#[trigger] self.states@[p]).id != (#[trigger] self.states@[q]).id by {
                        assert(self.states@[p].id == m0.states@[p].id && self.states@[q].id == m0.states@[q].id);
                    }
                }
                self.lemma_index_of_unique(j0);
            }
            self.add_transition(a.0, a.1, a.2);
            proof {
                assert(trans_views(*self) =~= trans_views(before).update(j0, add_trans(before.states@[j0].transitions@, a.1, a.2)));
                lemma_add_keeps_extension(m0, before, *self, j0, a.1, a.2);
            }
            x += 1;
        }
        assert(to_add@.take(x as int) == to_add@);
    }

    /// Gives each state, for each spontaneous transition, the letter
    /// transitions of its target; then marks final the states that reach a
    /// final state spontaneously.
    pub fn backward_propagation(&mut self)
        requires
            old(self).wf(),
        ensures
            final(self).label == old(self).label,
            final(self).states@.len() == old(self).states@.len(),
            forall|j: int| 0 <= j < old(self).states@.len() ==> {
                let n = #[trigger] final(self).states@[j];
                let o = old(self).states@[j];
                &&& n.id == o.id && n.label == o.label && n.is_initial == o.is_initial
                &&& n.is_final == (o.is_final || old(self).reaches_final(j))
                &&& n.transitions@ == apply_adds(*old(self), trans_views(*old(self)),
                    old(self).backward_adds(old(self).states@.len() as int))[j]
            },
    {
        let ghost m0 = *self;
        let mut to_add: Vec<(i32, char, i32)> = Vec::new();
        let mut j: usize = 0;
        while j < self.states.len()
            invariant
                *self == m0,
                m0.wf(),
                j <= m0.states@.len(),
                to_add@ == m0.backward_adds(j as int),
                forall|y: int| 0 <= y < to_add@.len() ==> m0.has_state((#[trigger] to_add@[y]).0)
                    && m0.has_state(to_add@[y].2) && !is_epsilon_label(to_add@[y].1),
            decreases m0.states@.len() - j,
        {
            let s = &self.states[j];
            let ghost base = to_add@;
            assert(m0.has_state(m0.states@[j as int].id));
            let mut k: usize = 0;
            while k < s.transitions.len()
                invariant
                    *self == m0,
                    m0.wf(),
                    j < m0.states@.len(),
                    s == &m0.states@[j as int],
                    m0.has_state(s.id),
                    k <= s.transitions@.len(),
                    to_add@ == base + m0.backward_of(j as int, k as int),
                    forall|y: int| 0 <= y < to_add@.len() ==> m0.has_state((#[trigger] to_add@[y]).0)
                        && m0.has_state(to_add@[y].2) && !is_epsilon_label(to_add@[y].1),
                decreases s.transitions@.len() - k,
            {
                let t = s.transitions[k];
                assert(t == m0.states@[j as int].transitions@[k as int]);
                if t.is_epsilon() {
                    assert(m0.has_state(m0.states@[j as int].transitions@[k as int].dest_id));
                    let dest_s = self.lookup_state(t.dest_id);
                    let ghost mid = to_add@;
                    let mut l: usize = 0;
                    while l < dest_s.transitions.len()
                        invariant
                            m0.wf(),
                            m0.has_state(s.id),
                            *dest_s == m0.states@[m0.state_index(t.dest_id)],
                            m0.is_first_state(m0.state_index(t.dest_id), t.dest_id),
                            l <= dest_s.transitions@.len(),
                            to_add@ == mid + letters_from(s.id, dest_s.transitions@.take(l as int)),
                            forall|y: int| 0 <= y < to_add@.len() ==> m0.has_state((#[trigger] to_add@[y]).0)
                                && m0.has_state(to_add@[y].2) && !is_epsilon_label(to_add@[y].1),
                        decreases dest_s.transitions@.len() - l,
                    {
                        assert(dest_s.transitions@.take(l + 1).drop_last() == dest_s.transitions@.take(l as int));
                        let nt = dest_s.transitions[l];
                        assert(nt == m0.states@[m0.state_index(t.dest_id)].transitions@[l as int]);
                        if !nt.is_epsilon() {
                            assert(m0.has_state(m0.states@[m0.state_index(t.dest_id)].transitions@[l as int].dest_id));
                            let ghost before = to_add@;
                            to_add.push((s.id, nt.label, nt.dest_id));
                            assert(to_add@ =~= mid + letters_from(s.id, dest_s.transitions@.take(l + 1)));
                            assert forall|y: int| 0 <= y < to_add@.len() implies m0.has_state((#[trigger] to_add@[y]).0)
                                && m0.has_state(to_add@[y].2) && !is_epsilon_label(to_add@[y].1) by {
                                if y < before.len() {
                                    assert(to_add@[y] == before[y]);
                                }
                            }
                        }
                        l += 1;
                    }
                    assert(dest_s.transitions@.take(l as int) == dest_s.transitions@);
                    assert(to_add@ =~= base + m0.backward_of(j as int, k + 1));
                } else {
                    assert(m0.backward_of(j as int, k + 1) == m0.backward_of(j as int, k as int));
                }
                k += 1;
            }
            assert(to_add@ =~= m0.backward_adds(j + 1));
            j += 1;
        }
        self.add_all(&to_add);
        let ghost m1 = *self;
        proof {
            lemma_extension_wf(m0, m1);
        }
        self.mark_new_final();
        proof {
            assert forall|j: int| 0 <= j < m0.states@.len() implies m1.reaches_final(j) == m0.reaches_final(j) by {
                lemma_reaches_final_same(m0, m1, j);
            }
            assert forall|j: int| 0 <= j < m0.states@.len() implies m1.states@[j].transitions@ == trans_views(m1)[j] by {}
        }
    }

    /// Gives each state, for each letter transition, a transition on the
    /// same letter to each spontaneous target of its target; then marks
    /// initial the states that an initial state reaches spontaneously.
    pub fn forward_propagation(&mut self)
        requires
            old(self).wf(),
        ensures
            final(self).label == old(self).label,
            final(self).states@.len() == old(self).states@.len(),
            forall|j: int| 0 <= j < old(self).states@.len() ==> {
                let n = #[trigger] final(self).states@[j];
                let o = old(self).states@[j];
                &&& n.id == o.id && n.label == o.label && n.is_final == o.is_final
                &&& n.is_initial == (o.is_initial || old(self).entered_from_initial(o.id))
                &&& n.transitions@ == apply_adds(*old(self), trans_views(*old(self)),
                    old(self).forward_adds(old(self).states@.len() as int))[j]
            },
    {
        let ghost m0 = *self;
        let mut to_add: Vec<(i32, char, i32)> = Vec::new();
        let mut j: usize = 0;
        while j < self.states.len()
            invariant
                *self == m0,
                m0.wf(),
                j <= m0.states@.len(),
                to_add@ == m0.forward_adds(j as int),
                forall|y: int| 0 <= y < to_add@.len() ==> m0.has_state((#[trigger] to_add@[y]).0)
                    && m0.has_state(to_add@[y].2) && !is_epsilon_label(to_add@[y].1),
            decreases m0.states@.len() - j,
        {
            let s = &self.states[j];
            let ghost base = to_add@;
            assert(m0.has_state(m0.states@[j as int].id));
            let mut k: usize = 0;
            while k < s.transitions.len()
                invariant
                    *self == m0,
                    m0.wf(),
                    j < m0.states@.len(),
                    s == &m0.states@[j as int],
                    m0.has_state(s.id),
                    k <= s.transitions@.len(),
                    to_add@ == base + m0.forward_of(j as int, k as int),
                    forall|y: int| 0 <= y < to_add@.len() ==> m0.has_state((#[trigger] to_add@[y]).0)
                        && m0.has_state(to_add@[y].2) && !is_epsilon_label(to_add@[y].1),
                decreases s.transitions@.len() - k,
            {
                let t = s.transitions[k];
                assert(t == m0.states@[j as int].transitions@[k as int]);
                if !t.is_epsilon() {
                    assert(m0.has_state(m0.states@[j as int].transitions@[k as int].dest_id));
                    let dest_s = self.lookup_state(t.dest_id);
                    let ghost mid = to_add@;
                    let mut l: usize = 0;
                    while l < dest_s.transitions.len()
                        invariant
                            m0.wf(),
                            m0.has_state(s.id),
                            !is_epsilon_label(t.label),
                            *dest_s == m0.states@[m0.state_index(t.dest_id)],
                            m0.is_first_state(m0.state_index(t.dest_id), t.dest_id),
                            l <= dest_s.transitions@.len(),
                            to_add@ == mid + spontaneous_from(s.id, t.label, dest_s.transitions@.take(l as int)),
                            forall|y: int| 0 <= y < to_add@.len() ==> m0.has_state((#[trigger] to_add@[y]).0)
                                && m0.has_state(to_add@[y].2) && !is_epsilon_label(to_add@[y].1),
                        decreases dest_s.transitions@.len() - l,
                    {
                        assert(dest_s.transitions@.take(l + 1).drop_last() == dest_s.transitions@.take(l as int));
                        let nt = dest_s.transitions[l];
                        assert(nt == m0.states@[m0.state_index(t.dest_id)].transitions@[l as int]);
                        if nt.is_epsilon() {
                            assert(m0.has_state(m0.states@[m0.state_index(t.dest_id)].transitions@[l as int].dest_id));
                            let ghost before = to_add@;
                            to_add.push((s.id, t.label, nt.dest_id));
                            assert(to_add@ =~= mid + spontaneous_from(s.id, t.label, dest_s.transitions@.take(l + 1)));
                            assert forall|y: int| 0 <= y < to_add@.len() implies m0.has_state((#[trigger] to_add@[y]).0)
                                && m0.has_state(to_add@[y].2) && !is_epsilon_label(to_add@[y].1) by {
                                if y < before.len() {
                                    assert(to_add@[y] == before[y]);
                                }
                            }
                        }
                        l += 1;
                    }
                    assert(dest_s.transitions@.take(l as int) == dest_s.transitions@);
                    assert(to_add@ =~= base + m0.forward_of(j as int, k + 1));
                } else {
                    assert(m0.forward_of(j as int, k + 1) == m0.forward_of(j as int, k as int));
                }
                k += 1;
            }
            assert(to_add@ =~= m0.forward_adds(j + 1));
            j += 1;
        }
        self.add_all(&to_add);
        let ghost m1 = *self;
        proof {
            lemma_extension_wf(m0, m1);
        }
        self.mark_new_initial();
        proof {
            assert forall|id: i32| m1.entered_from_initial(id) == m0.entered_from_initial(id) by {
                lemma_entered_same(m0, m1, id);
            }
            assert forall|j: int| 0 <= j < m0.states@.len() implies m1.states@[j].transitions@ == trans_views(m1)[j] by {}
            assert forall|j: int| 0 <= j < m0.states@.len() implies (#[trigger] m1.states@[j]).id == m0.states@[j].id by {
                assert(state_extends(m1.states@[j], m0.states@[j], m0));
            }
        }
    }
}

/// Appending letter transitions leaves which states an initial state
/// reaches spontaneously unchanged.
proof fn lemma_entered_same(m0: Machine, m1: Machine, id: i32)
    requires
        m0.wf(),
        m1.extends_with_letters(m0),
    ensures
        m1.entered_from_initial(id) == m0.entered_from_initial(id),
{
    if m1.entered_from_initial(id) {
        let (j, k) = choose|j: int, k: int| 0 <= j < m1.states@.len() && m1.states@[j].is_initial
            && 0 <= k < m1.states@[j].transitions@.len()
            && is_epsilon_label(#[trigger] m1.states@[j].transitions@[k].label)
            && m1.states@[j].transitions@[k].dest_id == id;
        assert(state_extends(m1.states@[j], m0.states@[j], m0));
        let a = m1.states@[j].transitions@;
        let b = m0.states@[j].transitions@;
        if k >= b.len() {
            assert(!is_epsilon_label(a[k].label));
        }
        assert(a.take(b.len() as int)[k] == b[k]);
        assert(is_epsilon_label(m0.states@[j].transitions@[k].label));
    }
    if m0.entered_from_initial(id) {
        let (j, k) = choose|j: int, k: int| 0 <= j < m0.states@.len() && m0.states@[j].is_initial
            && 0 <= k < m0.states@[j].transitions@.len()
            && is_epsilon_label(#[trigger] m0.states@[j].transitions@[k].label)
            && m0.states@[j].transitions@[k].dest_id == id;
        assert(state_extends(m1.states@[j], m0.states@[j], m0));
        let a = m1.states@[j].transitions@;
        let b = m0.states@[j].transitions@;
        assert(a.take(b.len() as int)[k] == b[k]);
        assert(is_epsilon_label(m1.states@[j].transitions@[k].label));
    }
}

/// Adding a letter transition towards a state of `m0` to state `j0` keeps a
/// machine an extension of `m0` by letter transitions.
proof fn lemma_add_keeps_extension(m0: Machine, before: Machine, after: Machine, j0: int, c: char, d: i32)
    requires
        before.extends_with_letters(m0),
        !is_epsilon_label(c),
        m0.has_state(d),
        0 <= j0 < before.states@.len(),
        after.label == before.label,
        after.states@.len() == before.states@.len(),
        forall|x: int| 0 <= x < before.states@.len() && x != j0 ==> after.states@[x] == before.states@[x],
        after.states@[j0].id == before.states@[j0].id,
        after.states@[j0].label == before.states@[j0].label,
        after.states@[j0].is_initial == before.states@[j0].is_initial,
        after.states@[j0].is_final == before.states@[j0].is_final,
        after.states@[j0].transitions@ == add_trans(before.states@[j0].transitions@, c, d),
    ensures
        after.extends_with_letters(m0),
{
    assert forall|j: int| 0 <= j < m0.states@.len() implies state_extends(#[trigger] after.states@[j], m0.states@[j], m0) by {
        assert(state_extends(before.states@[j], m0.states@[j], m0));
        let q = before.states@[j];
        let b = m0.states@[j];
        let p = after.states@[j];
        assert(q == before.states@[j]);
        if j == j0 {
            let old_ts = q.transitions@;
            assert(old_ts.take(b.transitions@.len() as int) == b.transitions@);
            assert(p.id == b.id && p.label == b.label && p.is_initial == b.is_initial && p.is_final == b.is_final);
            if p.transitions@ != old_ts {
                assert(p.transitions@ == old_ts.push(Transition { label: c, dest_id: d }));
                assert forall|i: int| 0 <= i < b.transitions@.len() implies p.transitions@[i] == b.transitions@[i] by {
                    assert(old_ts.take(b.transitions@.len() as int)[i] == b.transitions@[i]);
                }
                assert(p.transitions@.take(b.transitions@.len() as int) =~= b.transitions@);
                assert forall|k: int| b.transitions@.len() <= k < p.transitions@.len() implies
                    !is_epsilon_label(#[trigger] p.transitions@[k].label) && m0.has_state(p.transitions@[k].dest_id) by {
                    if k < old_ts.len() {
                        assert(p.transitions@[k] == old_ts[k]);
                        assert(!is_epsilon_label(before.states@[j].transitions@[k].label));
                    } else {
                        assert(p.transitions@[k] == Transition { label: c, dest_id: d });
                        assert(!is_epsilon_label(c));
                    }
                }
            } else {
                assert forall|k: int| b.transitions@.len() <= k < p.transitions@.len() implies
                    !is_epsilon_label(#[trigger] p.transitions@[k].label) && m0.has_state(p.transitions@[k].dest_id) by {
                    assert(!is_epsilon_label(before.states@[j].transitions@[k].label));
                }
            }
        } else {
            assert(after.states@[j] == before.states@[j]);
            assert forall|k: int| b.transitions@.len() <= k < p.transitions@.len() implies
                !is_epsilon_label(#[trigger] p.transitions@[k].label) && m0.has_state(p.transitions@[k].dest_id) by {
                assert(!is_epsilon_label(before.states@[j].transitions@[k].label));
            }
        }
        assert(p.id == b.id && p.label == b.label && p.is_initial == b.is_initial && p.is_final == b.is_final);
        assert(b.transitions@.len() <= p.transitions@.len());
        assert(p.transitions@.take(b.transitions@.len() as int) == b.transitions@);
        assert(state_extends(p, b, m0));
    }
}

/// Whether adding the spontaneous transition `a` (source identifier,
/// destination) to a machine that was `mr` keeps its spontaneous
/// transitions within what `m0` reaches.
pub open spec fn add_ok(m0: Machine, mr: Machine, a: (i32, i32)) -> bool {
    &&& mr.has_state(a.0)
    &&& mr.has_state(a.1)
    &&& eps_reaches(m0, mr.state_index(a.0), a.1)
}

/// A spontaneous transition of a well-formed machine is a path of two states.
proof fn lemma_edge_reaches(m0: Machine, j: int, d: i32)
    requires
        m0.wf(),
        0 <= j < m0.states@.len(),
        eps_edge(m0, j, d),
    ensures
        eps_reaches(m0, j, d),
{
    let ts = m0.states@[j].transitions@;
    let k = choose|k: int| 0 <= k < ts.len() && is_epsilon_label(#[trigger] ts[k].label) && ts[k].dest_id == d;
    assert(m0.has_state(m0.states@[j].transitions@[k].dest_id));
    m0.lemma_first_state(d);
    let p = seq![j, m0.state_index(d)];
    assert(eps_path(m0, p));
    assert(p.last() == m0.state_index(d));
}

/// Appending spontaneous transitions towards existing states keeps a
/// machine well formed, its identifiers and the state each identifies.
proof fn lemma_eps_extension_wf(m0: Machine, m1: Machine)
    requires
        m0.wf(),
        m1.extends_with_eps(m0),
    ensures
        m1.wf(),
        forall|id: i32| m1.has_state(id) == m0.has_state(id),
        forall|k: int| 0 <= k < m0.states@.len() ==> (#[trigger] m1.states@[k]).id == m0.states@[k].id,
        forall|id: i32| m0.has_state(id) ==> m1.state_index(id) == m0.state_index(id),
{
    assert forall|k: int| 0 <= k < m0.states@.len() implies (#[trigger] m1.states@[k]).id == m0.states@[k].id by {
        assert(state_extends_eps(m1.states@[k], m0.states@[k], m0));
    }
    assert forall|id: i32| m1.has_state(id) == m0.has_state(id) by {
        if m0.has_state(id) {
            let j = choose|j: int| 0 <= j < m0.states@.len() && m0.states@[j].id == id;
            assert(m1.states@[j].id == id);
        }
        if m1.has_state(id) {
            let j = choose|j: int| 0 <= j < m1.states@.len() && m1.states@[j].id == id;
            assert(m1.states@[j].id == m0.states@[j].id);
        }
    }
    assert forall|p: int, q: int| 0 <= p < q < m1.states@.len() implies (#[trigger] m1.states@[p]).id != (#[trigger] m1.states@[q]).id by {
        assert(m1.states@[p].id == m0.states@[p].id && m1.states@[q].id == m0.states@[q].id);
    }
    assert forall|j: int, k: int| 0 <= j < m1.states@.len() && 0 <= k < m1.states@[j].transitions@.len()
        implies m1.has_state(#[trigger] m1.states@[j].transitions@[k].dest_id) by {
        assert(state_extends_eps(m1.states@[j], m0.states@[j], m0));
        let b = m0.states@[j].transitions@;
        let a = m1.states@[j].transitions@;
        if k < b.len() {
            assert(a.take(b.len() as int)[k] == b[k]);
            assert(m0.has_state(m0.states@[j].transitions@[k].dest_id));
        } else {
            assert(is_epsilon_label(m1.states@[j].transitions@[k].label));
        }
        assert(m0.has_state(a[k].dest_id));
    }
    assert forall|id: i32| m0.has_state(id) implies m1.state_index(id) == m0.state_index(id) by {
        m0.lemma_first_state(id);
        let x = m0.state_index(id);
        m1.lemma_index_of_unique(x);
    }
}

/// Two extensions of `m0` look an existing identifier up at the same state.
proof fn lemma_same_index(m0: Machine, m1: Machine, m2: Machine, id: i32)
    requires
        m0.wf(),
        m1.extends_with_eps(m0),
        m2.extends_with_eps(m0),
        m1.has_state(id),
    ensures
        m2.has_state(id),
        m1.state_index(id) == m2.state_index(id),
        0 <= m1.state_index(id) < m1.states@.len(),
{
    lemma_eps_extension_wf(m0, m1);
    lemma_eps_extension_wf(m0, m2);
    m0.lemma_first_state(id);
}

/// A spontaneous transition from a state that `m0` reaches extends the
/// reach.
proof fn lemma_reach_step(m0: Machine, mr: Machine, j: int, d1: i32, d2: i32)
    requires
        m0.wf(),
        mr.extends_with_eps(m0),
        0 <= j < m0.states@.len(),
        forall|a: int, d: i32| 0 <= a < m0.states@.len() && #[trigger] eps_edge(mr, a, d) ==> eps_reaches(m0, a, d),
        eps_edge(mr, j, d1),
        mr.has_state(d1),
        eps_edge(mr, mr.state_index(d1), d2),
    ensures
        eps_reaches(m0, j, d2),
{
    lemma_eps_extension_wf(m0, mr);
    m0.lemma_first_state(d1);
    let i1 = m0.state_index(d1);
    assert(eps_reaches(m0, j, d1));
    assert(eps_reaches(m0, i1, d2));
    let p = choose|p: Seq<int>| #[trigger] eps_path(m0, p) && p.len() >= 2 && p[0] == j && m0.states@[p.last()].id == d1;
    let q = choose|q: Seq<int>| #[trigger] eps_path(m0, q) && q.len() >= 2 && q[0] == i1 && m0.states@[q.last()].id == d2;
    assert(0 <= p.last() < m0.states@.len());
    m0.lemma_index_of_unique(p.last());
    lemma_path_concat(m0, p, q);
    let r = p + q.drop_first();
    assert(eps_path(m0, r) && r.len() >= 2 && r[0] == j && m0.states@[r.last()].id == d2);
}

/// Adding a spontaneous transition gains exactly that transition.
proof fn lemma_add_eps_edges(before: Machine, after: Machine, j0: int, d: i32)
    requires
        0 <= j0 < before.states@.len(),
        after.states@.len() == before.states@.len(),
        forall|x: int| 0 <= x < before.states@.len() && x != j0 ==> after.states@[x] == before.states@[x],
        after.states@[j0].transitions@ == add_trans(before.states@[j0].transitions@, '_', d),
    ensures
        forall|p: int, e: i32| 0 <= p < before.states@.len() ==>
            (#[trigger] eps_edge(after, p, e) <==> eps_edge(before, p, e) || (p == j0 && e == d)),
{
    assert forall|p: int, e: i32| 0 <= p < before.states@.len() implies
        (#[trigger] eps_edge(after, p, e) <==> eps_edge(before, p, e) || (p == j0 && e == d)) by {
        if p == j0 {
            let b = before.states@[j0].transitions@;
            let a = after.states@[j0].transitions@;
            if a != b {
                assert(a == b.push(Transition { label: '_', dest_id: d }));
                lemma_eps_to_step(a, b.len() as int);
                assert(a.take(b.len() as int) =~= b);
                lemma_eps_to_prefix(a, b, e);
                assert(b.len() + 1 == a.len());
            } else {
                if eps_edge(before, p, e) || (p == j0 && e == d) {
                    if !eps_edge(before, p, e) {
                        let k = choose|k: int| 0 <= k < b.len() && b[k].dest_id == d && b[k].label == '_';
                        assert(is_epsilon_label(b[k].label));
                    }
                }
            }
        } else {
            assert(after.states@[p] == before.states@[p]);
        }
    }
}

/// `eps_to` over a prefix.
proof fn lemma_eps_to_prefix(a: Seq<Transition>, b: Seq<Transition>, e: i32)
    requires
        b.len() <= a.len(),
        a.take(b.len() as int) == b,
    ensures
        eps_to(a, b.len() as int, e) == eps_to(b, b.len() as int, e),
{
    if eps_to(a, b.len() as int, e) {
        let k = choose|k: int| 0 <= k < b.len() && is_epsilon_label(#[trigger] a[k].label) && a[k].dest_id == e;
        assert(a.take(b.len() as int)[k] == b[k]);
        assert(is_epsilon_label(b[k].label));
    }
    if eps_to(b, b.len() as int, e) {
        let k = choose|k: int| 0 <= k < b.len() && is_epsilon_label(#[trigger] b[k].label) && b[k].dest_id == e;
        assert(a.take(b.len() as int)[k] == b[k]);
        assert(is_epsilon_label(a[k].label));
    }
}

/// Adding a spontaneous transition towards a state of `m0` to state `j0`
/// keeps a machine an extension of `m0` by spontaneous transitions.
proof fn lemma_add_keeps_eps_extension(m0: Machine, before: Machine, after: Machine, j0: int, d: i32)
    requires
        before.extends_with_eps(m0),
        m0.has_state(d),
        0 <= j0 < before.states@.len(),
        after.label == before.label,
        after.states@.len() == before.states@.len(),
        forall|x: int| 0 <= x < before.states@.len() && x != j0 ==> after.states@[x] == before.states@[x],
        after.states@[j0].id == before.states@[j0].id,
        after.states@[j0].label == before.states@[j0].label,
        after.states@[j0].is_initial == before.states@[j0].is_initial,
        after.states@[j0].is_final == before.states@[j0].is_final,
        after.states@[j0].transitions@ == add_trans(before.states@[j0].transitions@, '_', d),
    ensures
        after.extends_with_eps(m0),
{
    assert forall|j: int| 0 <= j < m0.states@.len() implies state_extends_eps(#[trigger] after.states@[j], m0.states@[j], m0) by {
        assert(state_extends_eps(before.states@[j], m0.states@[j], m0));
        let q = before.states@[j];
        let b = m0.states@[j];
        let p = after.states@[j];
        if j == j0 {
            let old_ts = q.transitions@;
            if p.transitions@ != old_ts {
                assert(p.transitions@ == old_ts.push(Transition { label: '_', dest_id: d }));
                assert forall|i: int| 0 <= i < b.transitions@.len() implies p.transitions@[i] == b.transitions@[i] by {
                    assert(old_ts.take(b.transitions@.len() as int)[i] == b.transitions@[i]);
                }
                assert(p.transitions@.take(b.transitions@.len() as int) =~= b.transitions@);
                assert forall|k: int| b.transitions@.len() <= k < p.transitions@.len() implies
                    is_epsilon_label(#[trigger] p.transitions@[k].label) && m0.has_state(p.transitions@[k].dest_id) by {
                    if k < old_ts.len() {
                        assert(p.transitions@[k] == old_ts[k]);
                        assert(is_epsilon_label(before.states@[j].transitions@[k].label));
                    }
                }
            } else {
                assert forall|k: int| b.transitions@.len() <= k < p.transitions@.len() implies
                    is_epsilon_label(#[trigger] p.transitions@[k].label) && m0.has_state(p.transitions@[k].dest_id) by {
                    assert(is_epsilon_label(before.states@[j].transitions@[k].label));
                }
            }
        } else {
            assert(after.states@[j] == before.states@[j]);
            assert forall|k: int| b.transitions@.len() <= k < p.transitions@.len() implies
                is_epsilon_label(#[trigger] p.transitions@[k].label) && m0.has_state(p.transitions@[k].dest_id) by {
                assert(is_epsilon_label(before.states@[j].transitions@[k].label));
            }
        }
        assert(p.id == b.id && p.label == b.label && p.is_initial == b.is_initial && p.is_final == b.is_final);
        assert(b.transitions@.len() <= p.transitions@.len());
        assert(p.transitions@.take(b.transitions@.len() as int) == b.transitions@);
        assert(state_extends_eps(p, b, m0));
    }
}

/// Appending letter transitions towards existing states keeps a machine
/// well formed.
proof fn lemma_extension_wf(m0: Machine, m1: Machine)
    requires
        m0.wf(),
        m1.extends_with_letters(m0),
    ensures
        m1.wf(),
        forall|id: i32| m1.has_state(id) == m0.has_state(id),
{
    assert forall|id: i32| m1.has_state(id) == m0.has_state(id) by {
        if m0.has_state(id) {
            let j = choose|j: int| 0 <= j < m0.states@.len() && m0.states@[j].id == id;
            assert(state_extends(m1.states@[j], m0.states@[j], m0));
        }
        if m1.has_state(id) {
            let j = choose|j: int| 0 <= j < m1.states@.len() && m1.states@[j].id == id;
            assert(state_extends(m1.states@[j], m0.states@[j], m0));
        }
    }
    assert forall|p: int, q: int| 0 <= p < q < m1.states@.len() implies (#[trigger] m1.states@[p]).id != (#[trigger] m1.states@[q]).id by {
        assert(state_extends(m1.states@[p], m0.states@[p], m0) && state_extends(m1.states@[q], m0.states@[q], m0));
    }
    assert forall|j: int, k: int| 0 <= j < m1.states@.len() && 0 <= k < m1.states@[j].transitions@.len()
        implies m1.has_state(#[trigger] m1.states@[j].transitions@[k].dest_id) by {
        let b = m0.states@[j].transitions@;
        let a = m1.states@[j].transitions@;
        assert(state_extends(m1.states@[j], m0.states@[j], m0));
        if k < b.len() {
            assert(a.take(b.len() as int)[k] == b[k]);
            assert(m0.has_state(m0.states@[j].transitions@[k].dest_id));
        } else {
            assert(!is_epsilon_label(m1.states@[j].transitions@[k].label));
            assert(m0.has_state(a[k].dest_id));
        }
        assert(m0.has_state(a[k].dest_id));
        assert(m1.has_state(a[k].dest_id) == m0.has_state(a[k].dest_id));
    }
}

/// Appending letter transitions leaves the state looked up by an
/// identifier unchanged.
proof fn lemma_index_same(m0: Machine, m1: Machine, id: i32)
    requires
        m0.wf(),
        m1.extends_with_letters(m0),
        m0.has_state(id),
    ensures
        m1.state_index(id) == m0.state_index(id),
        0 <= m0.state_index(id) < m0.states@.len(),
{
    lemma_extension_wf(m0, m1);
    m0.lemma_first_state(id);
    let x = m0.state_index(id);
    assert(state_extends(m1.states@[x], m0.states@[x], m0));
    assert(m1.states@[x].id == m0.states@[x].id);
    m1.lemma_index_of_unique(x);
}

/// Appending letter transitions leaves which states reach a final state
/// spontaneously unchanged.
proof fn lemma_reaches_final_same(m0: Machine, m1: Machine, j: int)
    requires
        m0.wf(),
        m1.extends_with_letters(m0),
        0 <= j < m0.states@.len(),
    ensures
        m1.reaches_final(j) == m0.reaches_final(j),
{
    lemma_extension_wf(m0, m1);
    let a = m1.states@[j].transitions@;
    let b = m0.states@[j].transitions@;
    assert(state_extends(m1.states@[j], m0.states@[j], m0));
    if m1.reaches_final(j) {
        let k = choose|k: int| 0 <= k < a.len() && is_epsilon_label(#[trigger] a[k].label)
            && m1.states@[m1.state_index(a[k].dest_id)].is_final;
        if k >= b.len() {
            assert(!is_epsilon_label(a[k].label));
        }
        assert(a.take(b.len() as int)[k] == b[k]);
        assert(m0.has_state(m0.states@[j].transitions@[k].dest_id));
        lemma_index_same(m0, m1, b[k].dest_id);
        assert(state_extends(m1.states@[m0.state_index(b[k].dest_id)], m0.states@[m0.state_index(b[k].dest_id)], m0));
        assert(is_epsilon_label(m0.states@[j].transitions@[k].label));
    }
    if m0.reaches_final(j) {
        let k = choose|k: int| 0 <= k < b.len() && is_epsilon_label(#[trigger] b[k].label)
            && m0.states@[m0.state_index(b[k].dest_id)].is_final;
        assert(a.take(b.len() as int)[k] == b[k]);
        assert(m0.has_state(m0.states@[j].transitions@[k].dest_id));
        lemma_index_same(m0, m1, b[k].dest_id);
        assert(state_extends(m1.states@[m0.state_index(b[k].dest_id)], m0.states@[m0.state_index(b[k].dest_id)], m0));
        assert(is_epsilon_label(m1.states@[j].transitions@[k].label));
    }
}

} // verus!
