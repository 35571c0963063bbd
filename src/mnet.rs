//! Machine nets: named machines that call each other through transitions
//! labeled by upper-case machine names, and the follower analysis over them.

pub mod dot_formatter;

use vstd::prelude::*;
use crate::fsm::{is_upper, Machine, State, Transition};

verus! {

/// A network of mutually recursive machines, looked up by name.
#[derive(Debug)]
pub struct MachineNet {
    pub machines: Vec<Machine>,
}

/// `acc` with `c` appended unless it already holds it.
pub open spec fn add_unique(acc: Seq<char>, c: char) -> Seq<char> {
    if acc.contains(c) { acc } else { acc.push(c) }
}

/// `acc` with the characters of `xs` appended in order, skipping those
/// already present.
pub open spec fn extend_unique(acc: Seq<char>, xs: Seq<char>) -> Seq<char>
    decreases xs.len(),
{
    if xs.len() == 0 {
        acc
    } else {
        add_unique(extend_unique(acc, xs.drop_last()), xs.last())
    }
}

/// The pair of each state of `ms` lies in `state_keys(ms)`.
proof fn lemma_state_keys(ms: Seq<Machine>, i: int, j: int)
    requires
        0 <= i < ms.len(),
        0 <= j < ms[i].states@.len(),
    ensures
        state_keys(ms).contains((ms[i].label, ms[i].states@[j].id)),
    decreases ms.len(),
{
    let m = ms.last();
    if i == ms.len() - 1 {
        let pairs = m.states@.map_values(|st: State| (m.label, st.id));
        assert(pairs[j] == (ms[i].label, ms[i].states@[j].id));
        assert(pairs.contains(pairs[j]));
    } else {
        lemma_state_keys(ms.drop_last(), i, j);
    }
}

/// `state_keys(ms)` is finite.
proof fn lemma_state_keys_finite(ms: Seq<Machine>)
    ensures
        state_keys(ms).finite(),
    decreases ms.len(),
{
    if ms.len() > 0 {
        let m = ms.last();
        lemma_state_keys_finite(ms.drop_last());
        m.states@.map_values(|st: State| (m.label, st.id)).lemma_cardinality_of_set();
    }
}

/// What `extend_unique(acc, xs)` holds: the elements of `acc` and of `xs`.
pub proof fn lemma_extend_unique_contains(acc: Seq<char>, xs: Seq<char>, x: char)
    ensures
        extend_unique(acc, xs).contains(x) <==> acc.contains(x) || xs.contains(x),
    decreases xs.len(),
{
    if xs.len() > 0 {
        lemma_extend_unique_contains(acc, xs.drop_last(), x);
        let r = extend_unique(acc, xs.drop_last());
        if r.contains(xs.last()) {
        } else {
            assert(r.push(xs.last())[r.len() as int] == xs.last());
            if r.contains(x) {
                let k = choose|k: int| 0 <= k < r.len() && r[k] == x;
                assert(r.push(xs.last())[k] == x);
            }
        }
        if xs.contains(x) && x != xs.last() {
            let k = choose|k: int| 0 <= k < xs.len() && xs[k] == x;
            assert(xs.drop_last()[k] == x);
        }
        if xs.drop_last().contains(x) {
            let k = choose|k: int| 0 <= k < xs.drop_last().len() && xs.drop_last()[k] == x;
            assert(xs[k] == x);
        }
        assert(xs[xs.len() - 1] == xs.last());
    }
}

/// The pairs (machine name, state identifier) of the states of `ms`.
pub open spec fn state_keys(ms: Seq<Machine>) -> Set<(char, i32)>
    decreases ms.len(),
{
    if ms.len() == 0 {
        Set::empty()
    } else {
        let m = ms.last();
        state_keys(ms.drop_last()).union(m.states@.map_values(|st: State| (m.label, st.id)).to_set())
    }
}

impl MachineNet {
    /// Whether some machine is named `m`.
    pub open spec fn has_machine(&self, m: char) -> bool {
        exists|i: int| 0 <= i < self.machines@.len() && self.machines@[i].label == m
    }

    /// Whether `i` is the position of the first machine named `m`.
    pub open spec fn is_first_machine(&self, i: int, m: char) -> bool {
        &&& 0 <= i < self.machines@.len()
        &&& self.machines@[i].label == m
        &&& forall|k: int| 0 <= k < i ==> self.machines@[k].label != m
    }

    /// The first machine named `m`.
    pub open spec fn machine(&self, m: char) -> Machine {
        self.machines@[choose|i: int| self.is_first_machine(i, m)]
    }

    /// Whether the machine named `m` has a state `s`.
    pub open spec fn has_state(&self, m: char, s: i32) -> bool {
        self.has_machine(m) && self.machine(m).has_state(s)
    }

    /// State `s` of the machine named `m`.
    pub open spec fn state(&self, m: char, s: i32) -> State {
        self.machine(m).states@[self.machine(m).state_index(s)]
    }

    /// Every transition leads to a state of its own machine, and every call
    /// names a machine whose initial state 0 exists.
    pub open spec fn wf(&self) -> bool {
        forall|m: char, s: i32, k: int|
            #![trigger self.state(m, s).transitions@[k]]
            self.has_state(m, s) && 0 <= k < self.state(m, s).transitions@.len() ==> {
                &&& self.has_state(m, self.state(m, s).transitions@[k].dest_id)
                &&& is_upper(self.state(m, s).transitions@[k].label)
                    ==> self.has_state(self.state(m, s).transitions@[k].label, 0)
            }
    }

    /// No transition re-enters the initial state 0 of its machine.
    pub open spec fn no_reentry(&self) -> bool {
        forall|m: char, s: i32, k: int|
            #![trigger self.state(m, s).transitions@[k]]
            self.has_state(m, s) && 0 <= k < self.state(m, s).transitions@.len()
                ==> self.state(m, s).transitions@[k].dest_id != 0
    }

    /// The states of the net, as (machine name, state identifier) pairs.
    pub open spec fn keys(&self) -> Set<(char, i32)> {
        Set::new(|k: (char, i32)| self.has_state(k.0, k.1))
    }

    /// The terminal labels of the transitions of the net.
    pub open spec fn labels(&self) -> Set<char> {
        Set::new(|ch: char| !is_upper(ch) && exists|m: char, s: i32, k: int|
            self.has_state(m, s) && 0 <= k < self.state(m, s).transitions@.len()
            && #[trigger] self.state(m, s).transitions@[k].label == ch)
    }

    /// The labels of the transitions of state `k` of the net.
    pub open spec fn labels_at(&self, k: (char, i32)) -> Set<char> {
        self.state(k.0, k.1).transitions@.map_values(|t: Transition| t.label).to_set()
    }

    /// How many states of the net lie outside `vis`.
    pub open spec fn unvisited(&self, vis: Set<(char, i32)>) -> nat {
        self.keys().difference(vis).len()
    }

    /// A machine named `m` has a first position.
    pub proof fn lemma_first_machine(&self, m: char)
        requires
            self.has_machine(m),
        ensures
            self.is_first_machine(choose|i: int| self.is_first_machine(i, m), m),
    {
        let i = choose|i: int| 0 <= i < self.machines@.len() && self.machines@[i].label == m;
        self.lemma_first_machine_below(m, i);
    }

    proof fn lemma_first_machine_below(&self, m: char, i: int)
        requires
            0 <= i < self.machines@.len(),
            self.machines@[i].label == m,
        ensures
            self.is_first_machine(choose|i: int| self.is_first_machine(i, m), m),
        decreases i,
    {
        if exists|k: int| 0 <= k < i && self.machines@[k].label == m {
            let k = choose|k: int| 0 <= k < i && self.machines@[k].label == m;
            self.lemma_first_machine_below(m, k);
        } else {
            assert(self.is_first_machine(i, m));
        }
    }

    /// The states of the net are finitely many.
    pub proof fn lemma_keys_finite(&self)
        ensures
            self.keys().finite(),
    {
        lemma_state_keys_finite(self.machines@);
        assert forall|k: (char, i32)| self.keys().contains(k) implies #[trigger] state_keys(self.machines@).contains(k) by {
            self.lemma_first_machine(k.0);
            let i = choose|i: int| self.is_first_machine(i, k.0);
            self.machine(k.0).lemma_first_state(k.1);
            lemma_state_keys(self.machines@, i, self.machine(k.0).state_index(k.1));
        }
        vstd::set_lib::lemma_set_subset_finite(state_keys(self.machines@), self.keys());
    }

    /// The labels of the net are finitely many.
    pub proof fn lemma_labels_finite(&self)
        ensures
            self.labels().finite(),
    {
        self.lemma_keys_finite();
        let fam = self.keys().map(|k: (char, i32)| self.labels_at(k));
        self.keys().lemma_map_finite(|k: (char, i32)| self.labels_at(k));
        assert forall|x: Set<char>| fam.contains(x) implies #[trigger] x.finite() by {
            let k = choose|k: (char, i32)| self.keys().contains(k) && self.labels_at(k) == x;
            self.state(k.0, k.1).transitions@.map_values(|t: Transition| t.label).lemma_cardinality_of_set();
        }
        fam.lemma_flatten_finite();
        assert forall|ch: char| self.labels().contains(ch) implies #[trigger] fam.flatten().contains(ch) by {
            let (m, s, k) = choose|m: char, s: i32, k: int|
                self.has_state(m, s) && 0 <= k < self.state(m, s).transitions@.len()
                && #[trigger] self.state(m, s).transitions@[k].label == ch;
            let ls = self.state(m, s).transitions@.map_values(|t: Transition| t.label);
            assert(ls[k] == ch);
            assert(self.labels_at((m, s)).contains(ch));
            assert(self.keys().contains((m, s)));
            assert(fam.contains(self.labels_at((m, s))));
        }
        vstd::set_lib::lemma_set_subset_finite(fam.flatten(), self.labels());
    }

    /// The followers of a state lie among the labels of the net and the
    /// continuation.
    pub proof fn lemma_fol_labels(&self, fuel: nat, m: char, s: i32, vis: Set<(char, i32)>, next: Seq<char>, x: char)
        requires
            self.fol(fuel, m, s, vis, next).contains(x),
        ensures
            self.labels().contains(x) || next.contains(x),
        decreases fuel, 0nat, 0nat,
    {
        if fuel == 0 || vis.contains((m, s)) || !self.has_state(m, s) {
        } else {
            let init = if self.state(m, s).is_final { extend_unique(Seq::empty(), next) } else { Seq::empty() };
            lemma_extend_unique_contains(Seq::empty(), next, x);
            self.lemma_fol_from_labels((fuel - 1) as nat, m, s, 0, vis.insert((m, s)), next, init, x);
        }
    }

    /// The followers that the transitions from position `k` on add to `acc`
    /// lie among `acc`, the labels of the net and the continuation.
    pub proof fn lemma_fol_from_labels(&self, fuel: nat, m: char, s: i32, k: nat, vis: Set<(char, i32)>, next: Seq<char>, acc: Seq<char>, x: char)
        requires
            self.has_state(m, s),
            self.fol_from(fuel, m, s, k, vis, next, acc).contains(x),
        ensures
            acc.contains(x) || self.labels().contains(x) || next.contains(x),
        decreases fuel, 1nat, self.state(m, s).transitions@.len() - k,
    {
        let ts = self.state(m, s).transitions@;
        if k >= ts.len() {
        } else {
            let t = ts[k as int];
            if !is_upper(t.label) {
                let acc2 = add_unique(acc, t.label);
                self.lemma_fol_from_labels(fuel, m, s, k + 1, vis, next, acc2, x);
                if acc2.contains(x) && !acc.contains(x) {
                    if !acc.contains(t.label) {
                        let j = choose|j: int| 0 <= j < acc2.len() && acc2[j] == x;
                        if j < acc.len() {
                            assert(acc[j] == x);
                        }
                    }
                    assert(self.state(m, s).transitions@[k as int].label == x);
                }
            } else {
                let nn = self.fol(fuel, m, t.dest_id, vis, next);
                let rf = self.fol(fuel, t.label, 0, vis, nn);
                let acc2 = extend_unique(acc, rf);
                self.lemma_fol_from_labels(fuel, m, s, k + 1, vis, next, acc2, x);
                lemma_extend_unique_contains(acc, rf, x);
                if rf.contains(x) {
                    self.lemma_fol_labels(fuel, t.label, 0, vis, nn, x);
                    if nn.contains(x) {
                        self.lemma_fol_labels(fuel, m, t.dest_id, vis, next, x);
                    }
                }
            }
        }
    }

    /// Visiting one more state of the net leaves one fewer unvisited.
    proof fn lemma_unvisited_insert(&self, a: Set<(char, i32)>, k: (char, i32))
        requires
            self.keys().contains(k),
            !a.contains(k),
        ensures
            self.unvisited(a.insert(k)) + 1 == self.unvisited(a),
    {
        self.lemma_keys_finite();
        assert(self.keys().difference(a.insert(k)) =~= self.keys().difference(a).remove(k));
    }

    /// Whether transition `k` of state `s` of machine `m` leads to a state of
    /// `m` and, when it calls a machine, that machine has a state 0.
    pub open spec fn transition_ok(&self, m: char, s: i32, k: int) -> bool {
        &&& self.has_state(m, self.state(m, s).transitions@[k].dest_id)
        &&& is_upper(self.state(m, s).transitions@[k].label)
            ==> self.has_state(self.state(m, s).transitions@[k].label, 0)
    }

    /// The position of the first machine named `m`.
    pub open spec fn machine_index(&self, m: char) -> int {
        choose|i: int| self.is_first_machine(i, m)
    }

    /// Whether the net is well formed (see `wf`).
    pub fn is_wf(&self) -> (r: bool)
        ensures
            r == self.wf(),
    {
        let mut i: usize = 0;
        assert forall|m: char, s: i32, k: int| self.has_state(m, s) && self.machine_index(m) < 0
            && 0 <= k < self.state(m, s).transitions@.len() implies #[trigger] self.transition_ok(m, s, k) by {
            self.lemma_first_machine(m);
        }
        while i < self.machines.len()
            invariant
                i <= self.machines@.len(),
                forall|m: char, s: i32, k: int| self.has_state(m, s) && self.machine_index(m) < i
                    && 0 <= k < self.state(m, s).transitions@.len() ==> #[trigger] self.transition_ok(m, s, k),
            decreases self.machines@.len() - i,
        {
            let mach = &self.machines[i];
            let first = self.find_machine(mach.label);
            if first == Some(i) {
                let ghost m = mach.label;
                proof {
                    assert(self.is_first_machine(i as int, m));
                    self.lemma_first_machine(m);
                    assert(self.machine_index(m) == i);
                    assert(self.machine(m) == *mach);
                }
                let mut j: usize = 0;
                assert forall|s: i32, k: int| self.has_state(m, s) && mach.state_index(s) < 0
                    && 0 <= k < self.state(m, s).transitions@.len() implies #[trigger] self.transition_ok(m, s, k) by {
                    mach.lemma_first_state(s);
                }
                while j < mach.states.len()
                    invariant
                        i < self.machines@.len(),
                        *mach == self.machines@[i as int],
                        m == mach.label,
                        self.machine_index(m) == i,
                        self.machine(m) == *mach,
                        self.is_first_machine(i as int, m),
                        j <= mach.states@.len(),
                        forall|m2: char, s: i32, k: int| self.has_state(m2, s) && self.machine_index(m2) < i
                            && 0 <= k < self.state(m2, s).transitions@.len() ==> #[trigger] self.transition_ok(m2, s, k),
                        forall|s: i32, k: int| self.has_state(m, s) && mach.state_index(s) < j
                            && 0 <= k < self.state(m, s).transitions@.len() ==> #[trigger] self.transition_ok(m, s, k),
                    decreases mach.states@.len() - j,
                {
                    let st = &mach.states[j];
                    if mach.find_state(st.id) == Some(j) {
                        let ghost sid = st.id;
                        assert(self.has_state(m, sid));
                        assert(self.state(m, sid) == *st);
                        let mut k: usize = 0;
                        while k < st.transitions.len()
                            invariant
                                i < self.machines@.len(),
                                *mach == self.machines@[i as int],
                                m == mach.label,
                                self.machine(m) == *mach,
                                self.has_state(m, sid),
                                self.state(m, sid) == *st,
                                k <= st.transitions@.len(),
                                forall|y: int| 0 <= y < k ==> #[trigger] self.transition_ok(m, sid, y),
                            decreases st.transitions@.len() - k,
                        {
                            let t = st.transitions[k];
                            assert(t == self.state(m, sid).transitions@[k as int]);
                            if self.try_lookup_state(mach.label, t.dest_id).is_none() {
                                assert(!self.transition_ok(m, sid, k as int));
                                return false;
                            }
                            if t.is_nonterminal() && self.try_lookup_state(t.label, 0).is_none() {
                                assert(!self.transition_ok(m, sid, k as int));
                                return false;
                            }
                            assert(self.transition_ok(m, sid, k as int));
                            k += 1;
                        }
                        assert forall|s: i32, k2: int| self.has_state(m, s) && mach.state_index(s) < j + 1
                            && 0 <= k2 < self.state(m, s).transitions@.len() implies #[trigger] self.transition_ok(m, s, k2) by {
                            mach.lemma_first_state(s);
                            if mach.state_index(s) == j {
                                assert(mach.is_first_state(j as int, sid));
                                assert(mach.state_index(s) == mach.state_index(sid)) by {
                                    mach.lemma_first_state(sid);
                                    assert(mach.states@[j as int].id == s);
                                }
                                assert(s == sid);
                            }
                        }
                    } else {
                        assert forall|s: i32, k2: int| self.has_state(m, s) && mach.state_index(s) < j + 1
                            && 0 <= k2 < self.state(m, s).transitions@.len() implies #[trigger] self.transition_ok(m, s, k2) by {
                            mach.lemma_first_state(s);
                            if mach.state_index(s) == j {
                                assert(mach.states@[j as int].id == s);
                            }
                        }
                    }
                    j += 1;
                }
                assert forall|m2: char, s: i32, k: int| self.has_state(m2, s) && self.machine_index(m2) < i + 1
                    && 0 <= k < self.state(m2, s).transitions@.len() implies #[trigger] self.transition_ok(m2, s, k) by {
                    if self.machine_index(m2) == i {
                        self.lemma_first_machine(m2);
                        assert(m2 == m);
                        mach.lemma_first_state(s);
                    }
                }
            } else {
                assert forall|m2: char, s: i32, k: int| self.has_state(m2, s) && self.machine_index(m2) < i + 1
                    && 0 <= k < self.state(m2, s).transitions@.len() implies #[trigger] self.transition_ok(m2, s, k) by {
                    if self.machine_index(m2) == i {
                        self.lemma_first_machine(m2);
                        assert(self.machines@[i as int].label == m2);
                        assert(self.is_first_machine(i as int, mach.label));
                    }
                }
            }
            i += 1;
        }
        assert forall|m: char, s: i32, k: int| self.has_state(m, s) && 0 <= k < self.state(m, s).transitions@.len()
            implies #[trigger] self.transition_ok(m, s, k) by {
            self.lemma_first_machine(m);
        }
        assert(self.wf()) by {
            assert forall|m: char, s: i32, k: int|
                self.has_state(m, s) && 0 <= k < self.state(m, s).transitions@.len() implies {
                    &&& self.has_state(m, #[trigger] self.state(m, s).transitions@[k].dest_id)
                    &&& is_upper(self.state(m, s).transitions@[k].label)
                        ==> self.has_state(self.state(m, s).transitions@[k].label, 0)
                } by {
                assert(self.transition_ok(m, s, k));
            }
        }
        true
    }

    /// The position of the first machine named `m`, if any.
    fn find_machine(&self, m: char) -> (r: Option<usize>)
        ensures
            r is None <==> !self.has_machine(m),
            r matches Some(i) ==> self.is_first_machine(i as int, m) && self.machines@[i as int] == self.machine(m),
    {
        let mut i: usize = 0;
        assert forall|m: char, s: i32, k: int| self.has_state(m, s) && self.machine_index(m) < 0
            && 0 <= k < self.state(m, s).transitions@.len() implies #[trigger] self.transition_ok(m, s, k) by {
            self.lemma_first_machine(m);
        }
        while i < self.machines.len()
            invariant
                i <= self.machines@.len(),
                forall|k: int| 0 <= k < i ==> self.machines@[k].label != m,
            decreases self.machines@.len() - i,
        {
            if self.machines[i].label == m {
                assert(self.is_first_machine(i as int, m));
                assert forall|j: int| self.is_first_machine(j, m) implies j == i by {
                    if j > i {
                        assert(self.machines@[i as int].label == m);
                    }
                }
                return Some(i);
            }
            i += 1;
        }
        None
    }

    /// The first machine named `machine`, if any.
    pub fn try_lookup_machine(&self, machine: char) -> (r: Option<&Machine>)
        ensures
            r is None <==> !self.has_machine(machine),
            r matches Some(x) ==> *x == self.machine(machine),
    {
        match self.find_machine(machine) {
            Some(i) => Some(&self.machines[i]),
            None => None,
        }
    }

    /// The first machine named `machine`, which must exist.
    pub fn lookup_machine(&self, machine: char) -> (r: &Machine)
        requires
            self.has_machine(machine),
        ensures
            *r == self.machine(machine),
    {
        let i = self.find_machine(machine).unwrap();
        &self.machines[i]
    }

    /// State `id` of the machine named `machine`, if both exist.
    pub fn try_lookup_state(&self, machine: char, id: i32) -> (r: Option<&State>)
        ensures
            r is None <==> !self.has_state(machine, id),
            r matches Some(x) ==> *x == self.state(machine, id),
    {
        match self.try_lookup_machine(machine) {
            Some(m) => m.try_lookup_state(id),
            None => None,
        }
    }

    /// State `id` of the machine named `machine`, which must exist.
    pub fn lookup_state(&self, machine: char, id: i32) -> (r: &State)
        requires
            self.has_state(machine, id),
        ensures
            *r == self.state(machine, id),
    {
        self.lookup_machine(machine).lookup_state(id)
    }

    /// Computes `fol`: the followers of state `id` of `machine`, where
    /// `path` lists the states on the current path; `path` is left as it
    /// was.
    fn followers_impl(&self, machine: char, id: i32, path: &mut Vec<(char, i32)>, next: &Vec<char>, Ghost(fuel): Ghost<nat>) -> (r: Vec<char>)
        requires
            self.wf(),
            self.has_state(machine, id),
            self.unvisited(old(path)@.to_set()) <= fuel,
        ensures
            r@ == self.fol(fuel, machine, id, old(path)@.to_set(), next@),
            final(path)@ == old(path)@,
        decreases fuel,
    {
        let ghost p0 = path@;
        let ghost vis0 = path@.to_set();
        if holds_key(path, machine, id) {
            return Vec::new();
        }
        proof {
            self.lemma_keys_finite();
            assert(self.keys().contains((machine, id)));
            self.lemma_unvisited_insert(vis0, (machine, id));
        }
        path.push((machine, id));
        let ghost p1 = path@;
        proof {
            p0.lemma_push_to_set_commute((machine, id));
        }
        let state = self.lookup_state(machine, id);
        let mut res: Vec<char> = Vec::new();
        if state.is_final {
            extend_unique_vec(&mut res, next);
        }
        let mut k: usize = 0;
        while k < state.transitions.len()
            invariant
                self.wf(),
                self.has_state(machine, id),
                0 < fuel,
                !vis0.contains((machine, id)),
                *state == self.state(machine, id),
                k <= state.transitions@.len(),
                path@ == p1,
                p1 == p0.push((machine, id)),
                p1.to_set() == vis0.insert((machine, id)),
                self.fol(fuel, machine, id, vis0, next@) == self.fol_from((fuel - 1) as nat, machine, id, k as nat, p1.to_set(), next@, res@),
                self.unvisited(p1.to_set()) <= fuel - 1,
            decreases state.transitions@.len() - k,
        {
            let t = state.transitions[k];
            assert(t == self.state(machine, id).transitions@[k as int]);
            if !t.is_nonterminal() {
                push_unique(&mut res, t.label);
            } else {
                let nextnext = self.followers_impl(machine, t.dest_id, path, next, Ghost((fuel - 1) as nat));
                let rec_fol = self.followers_impl(t.label, 0, path, &nextnext, Ghost((fuel - 1) as nat));
                extend_unique_vec(&mut res, &rec_fol);
            }
            k += 1;
        }
        path.pop();
        assert(path@ =~= p0);
        res
    }

    /// The terminals that may follow state `id` of `machine` when the
    /// machine's instance is followed by one of `next`.
    pub fn followers(&self, machine: char, id: i32, next: Vec<char>) -> (r: Vec<char>)
        requires
            self.wf(),
            self.has_state(machine, id),
        ensures
            r@ == self.followers_of(machine, id, next@),
    {
        let mut path: Vec<(char, i32)> = Vec::new();
        proof {
            self.lemma_keys_finite();
            assert(path@.to_set() =~= Set::empty());
            assert(self.keys().difference(Set::empty()) =~= self.keys());
        }
        self.followers_impl(machine, id, &mut path, &next, Ghost(self.keys().len()))
    }

    /// The followers of state `s` of machine `m` given the continuation
    /// `next`, where the states in `path` are those on the current path of
    /// the traversal: such a state contributes nothing.
    pub open spec fn fol(&self, fuel: nat, m: char, s: i32, path: Set<(char, i32)>, next: Seq<char>) -> Seq<char>
        decreases fuel, 0nat, 0nat,
    {
        if fuel == 0 || path.contains((m, s)) || !self.has_state(m, s) {
            Seq::empty()
        } else {
            let init = if self.state(m, s).is_final { extend_unique(Seq::empty(), next) } else { Seq::empty() };
            self.fol_from((fuel - 1) as nat, m, s, 0, path.insert((m, s)), next, init)
        }
    }

    /// The followers contributed by the transitions of state `s` of machine
    /// `m` from position `k` on, added to `acc`; `path` holds the states on
    /// the current path, `s` included.
    pub open spec fn fol_from(&self, fuel: nat, m: char, s: i32, k: nat, path: Set<(char, i32)>, next: Seq<char>, acc: Seq<char>) -> Seq<char>
        decreases fuel, 1nat, self.state(m, s).transitions@.len() - k,
    {
        let ts = self.state(m, s).transitions@;
        if k >= ts.len() {
            acc
        } else {
            let t = ts[k as int];
            if !is_upper(t.label) {
                self.fol_from(fuel, m, s, k + 1, path, next, add_unique(acc, t.label))
            } else {
                let nn = self.fol(fuel, m, t.dest_id, path, next);
                let rf = self.fol(fuel, t.label, 0, path, nn);
                self.fol_from(fuel, m, s, k + 1, path, next, extend_unique(acc, rf))
            }
        }
    }

    /// The terminals that may follow state `s` of machine `m` when the
    /// machine's instance is followed by one of `next`.
    pub open spec fn followers_of(&self, m: char, s: i32, next: Seq<char>) -> Seq<char> {
        self.fol(self.keys().len(), m, s, Set::empty(), next)
    }
}

/// Whether `v` holds the pair `(m, s)`.
pub(crate) fn holds_key(v: &Vec<(char, i32)>, m: char, s: i32) -> (r: bool)
    ensures
        r == v@.contains((m, s)),
{
    let mut i: usize = 0;
    while i < v.len()
        invariant
            i <= v@.len(),
            forall|k: int| 0 <= k < i ==> v@[k] != (m, s),
        decreases v@.len() - i,
    {
        if v[i].0 == m && v[i].1 == s {
            assert(v@[i as int] == (m, s));
            return true;
        }
        i += 1;
    }
    false
}

/// Appends `c` to `acc` unless it is already there.
pub fn push_unique(acc: &mut Vec<char>, c: char)
    ensures
        final(acc)@ == add_unique(old(acc)@, c),
{
    let mut i: usize = 0;
    while i < acc.len()
        invariant
            i <= acc@.len(),
            forall|k: int| 0 <= k < i ==> acc@[k] != c,
        decreases acc@.len() - i,
    {
        if acc[i] == c {
            assert(acc@.contains(c) && acc@[i as int] == c);
            return;
        }
        i += 1;
    }
    acc.push(c);
}

/// Appends the characters of `xs` to `acc` in order, skipping those already
/// there.
pub fn extend_unique_vec(acc: &mut Vec<char>, xs: &Vec<char>)
    ensures
        final(acc)@ == extend_unique(old(acc)@, xs@),
{
    let mut i: usize = 0;
    while i < xs.len()
        invariant
            i <= xs@.len(),
            acc@ == extend_unique(old(acc)@, xs@.take(i as int)),
        decreases xs@.len() - i,
    {
        assert(xs@.take(i + 1).drop_last() == xs@.take(i as int));
        push_unique(acc, xs[i]);
        i += 1;
    }
    assert(xs@.take(i as int) == xs@);
}

} // verus!
