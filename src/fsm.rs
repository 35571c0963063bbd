//! Finite-state machines whose states carry integer identifiers and whose
//! transitions carry labels.

pub mod dot_formatter;

use vstd::prelude::*;
use crate::reg_lang::NumTerm;

verus! {

/// A transition towards the state identified by `dest_id`.
#[derive(Debug, Clone, Copy, PartialEq, Eq)]
pub struct BaseTransition<L> {
    pub label: L,
    pub dest_id: i32,
}

/// A transition labeled by a single character.
pub type Transition = BaseTransition<char>;

/// Whether `c` names a machine (an upper-case ASCII letter).
pub open spec fn is_upper(c: char) -> bool {
    'A' <= c && c <= 'Z'
}

/// The label that marks a spontaneous transition.
pub open spec fn is_epsilon_label(c: char) -> bool {
    c == '_'
}

impl Transition {
    /// Whether this transition calls another machine.
    pub fn is_nonterminal(&self) -> (r: bool)
        ensures
            r == is_upper(self.label),
    {
        'A' <= self.label && self.label <= 'Z'
    }

    /// Whether this transition is spontaneous.
    pub fn is_epsilon(&self) -> (r: bool)
        ensures
            r == is_epsilon_label(self.label),
    {
        self.label == '_'
    }
}


/// The label of a state: its identifier and the name of its machine.
#[derive(Debug, Clone, Copy)]
pub struct StateLabel {
    pub id: i32,
    pub m_name: char,
}

/// A state of a machine, with its outgoing transitions.
#[derive(Debug)]
pub struct BaseState<SL, TL> {
    pub id: i32,
    pub label: SL,
    pub transitions: Vec<BaseTransition<TL>>,
    pub is_initial: bool,
    pub is_final: bool,
}

/// A state whose transitions are labeled by characters.
pub type State = BaseState<StateLabel, char>;

/// A named finite-state machine: a list of states.
#[derive(Debug)]
pub struct BaseMachine<ML, SL, TL> {
    pub label: ML,
    pub states: Vec<BaseState<SL, TL>>,
}

/// A machine named by a character, with character-labeled transitions.
pub type Machine = BaseMachine<char, StateLabel, char>;

/// The identifiers of the states of `sts` that satisfy `initial` (or, when
/// `initial` is false, that are final), in order.
pub open spec fn flagged_ids<SL, TL>(sts: Seq<BaseState<SL, TL>>, initial: bool) -> Seq<i32>
    decreases sts.len(),
{
    if sts.len() == 0 {
        Seq::empty()
    } else {
        let last = sts.last();
        let rest = flagged_ids(sts.drop_last(), initial);
        if (if initial { last.is_initial } else { last.is_final }) {
            rest.push(last.id)
        } else {
            rest
        }
    }
}

/// The transitions of `ts` that lead to `sid`, each paired with `src`.
pub open spec fn incoming_of<TL>(src: i32, ts: Seq<BaseTransition<TL>>, sid: i32) -> Seq<(i32, BaseTransition<TL>)>
    decreases ts.len(),
{
    if ts.len() == 0 {
        Seq::empty()
    } else {
        let rest = incoming_of(src, ts.drop_last(), sid);
        if ts.last().dest_id == sid {
            rest.push((src, ts.last()))
        } else {
            rest
        }
    }
}

/// The pairs of `r` with their transitions read through the reference.
pub open spec fn deref_pairs<TL>(r: Seq<(i32, &BaseTransition<TL>)>) -> Seq<(i32, BaseTransition<TL>)> {
    r.map_values(|p: (i32, &BaseTransition<TL>)| (p.0, *p.1))
}

/// The transitions of all of `sts` that lead to `sid`, each paired with the
/// identifier of the state it leaves, in order.
pub open spec fn incoming<SL, TL>(sts: Seq<BaseState<SL, TL>>, sid: i32) -> Seq<(i32, BaseTransition<TL>)>
    decreases sts.len(),
{
    if sts.len() == 0 {
        Seq::empty()
    } else {
        incoming(sts.drop_last(), sid) + incoming_of(sts.last().id, sts.last().transitions@, sid)
    }
}

impl<ML, SL, TL> BaseMachine<ML, SL, TL> {
    /// Whether some state of the machine has identifier `id`.
    pub open spec fn has_state(&self, id: i32) -> bool {
        exists|j: int| 0 <= j < self.states@.len() && self.states@[j].id == id
    }

    /// Whether `j` is the first position of a state with identifier `id`.
    pub open spec fn is_first_state(&self, j: int, id: i32) -> bool {
        &&& 0 <= j < self.states@.len()
        &&& self.states@[j].id == id
        &&& forall|k: int| 0 <= k < j ==> self.states@[k].id != id
    }

    /// The position of the first state with identifier `id`.
    pub open spec fn state_index(&self, id: i32) -> int {
        choose|j: int| self.is_first_state(j, id)
    }

    /// A state with identifier `id` has a first position.
    pub proof fn lemma_first_state(&self, id: i32)
        requires
            self.has_state(id),
        ensures
            self.is_first_state(self.state_index(id), id),
    {
        let j = choose|j: int| 0 <= j < self.states@.len() && self.states@[j].id == id;
        self.lemma_first_state_below(id, j);
    }

    proof fn lemma_first_state_below(&self, id: i32, j: int)
        requires
            0 <= j < self.states@.len(),
            self.states@[j].id == id,
        ensures
            self.is_first_state(self.state_index(id), id),
        decreases j,
    {
        if exists|k: int| 0 <= k < j && self.states@[k].id == id {
            let k = choose|k: int| 0 <= k < j && self.states@[k].id == id;
            self.lemma_first_state_below(id, k);
        } else {
            assert(self.is_first_state(j, id));
        }
    }

    /// No two states share an identifier, and every transition leads to a
    /// state of the machine.
    pub open spec fn wf(&self) -> bool {
        &&& self.ids_unique()
        &&& forall|j: int, k: int| 0 <= j < self.states@.len() && 0 <= k < self.states@[j].transitions@.len()
            ==> self.has_state(#[trigger] self.states@[j].transitions@[k].dest_id)
    }

    /// No two states share an identifier.
    pub open spec fn ids_unique(&self) -> bool {
        forall|a: int, b: int| 0 <= a < b < self.states@.len() ==> (#[trigger] self.states@[a]).id != (#[trigger] self.states@[b]).id
    }

    /// With distinct identifiers, the state at `j` is the one looked up by
    /// its identifier.
    pub proof fn lemma_index_of_unique(&self, j: int)
        requires
            self.ids_unique(),
            0 <= j < self.states@.len(),
        ensures
            self.state_index(self.states@[j].id) == j,
    {
        let id = self.states@[j].id;
        assert(self.is_first_state(j, id)) by {
            assert forall|k: int| 0 <= k < j implies self.states@[k].id != id by {
                assert(self.states@[k].id != self.states@[j].id);
            }
        }
        assert forall|i: int| self.is_first_state(i, id) implies i == j by {
            if i < j {
                assert(self.states@[i].id != self.states@[j].id);
            } else if i > j {
            }
        }
    }

    /// An empty machine named `name`.
    pub fn new(name: ML) -> (r: BaseMachine<ML, SL, TL>)
        ensures
            r.label == name,
            r.states@.len() == 0,
    {
        BaseMachine::<ML, SL, TL> { label: name, states: Vec::new() }
    }

    /// The position of the first state with identifier `id`, if any.
    pub(crate) fn find_state(&self, id: i32) -> (r: Option<usize>)
        ensures
            r is None <==> !self.has_state(id),
            r matches Some(j) ==> self.is_first_state(j as int, id) && j as int == self.state_index(id),
    {
        let mut j: usize = 0;
        while j < self.states.len()
            invariant
                j <= self.states@.len(),
                forall|k: int| 0 <= k < j ==> self.states@[k].id != id,
            decreases self.states@.len() - j,
        {
            if self.states[j].id == id {
                assert(self.is_first_state(j as int, id));
                assert forall|i: int| self.is_first_state(i, id) implies i == j by {
                    if i < j {
                    } else if i > j {
                        assert(self.states@[j as int].id == id);
                    }
                }
                return Some(j);
            }
            j += 1;
        }
        None
    }

    /// The first state with identifier `id`, if any.
    pub fn try_lookup_state(&self, id: i32) -> (r: Option<&BaseState<SL, TL>>)
        ensures
            r is None <==> !self.has_state(id),
            r matches Some(s) ==> self.is_first_state(self.state_index(id), id) && *s == self.states@[self.state_index(id)],
    {
        match self.find_state(id) {
            Some(j) => Some(&self.states[j]),
            None => None,
        }
    }

    /// The first state with identifier `id`, which must exist.
    pub fn lookup_state(&self, id: i32) -> (r: &BaseState<SL, TL>)
        requires
            self.has_state(id),
        ensures
            self.is_first_state(self.state_index(id), id),
            *r == self.states@[self.state_index(id)],
    {
        let j = self.find_state(id).unwrap();
        &self.states[j]
    }

    /// The first state with identifier `id`, which must exist, for update.
    pub fn lookup_state_mut(&mut self, id: i32) -> (r: &mut BaseState<SL, TL>)
        requires
            old(self).has_state(id),
        ensures
            old(self).is_first_state(old(self).state_index(id), id),
            *r == old(self).states@[old(self).state_index(id)],
            final(self).label == old(self).label,
            final(self).states@ == old(self).states@.update(old(self).state_index(id), *final(r)),
    {
        let j = self.find_state(id).unwrap();
        &mut self.states[j]
    }

    /// Each transition that leads to `sid`, with the identifier of the
    /// state it leaves, in order.
    pub fn transitions_to(&self, sid: i32) -> (r: Vec<(i32, &BaseTransition<TL>)>)
        ensures
            deref_pairs(r@) == incoming(self.states@, sid),
    {
        let mut r: Vec<(i32, &BaseTransition<TL>)> = Vec::new();
        let mut j: usize = 0;
        while j < self.states.len()
            invariant
                j <= self.states@.len(),
                deref_pairs(r@) == incoming(self.states@.take(j as int), sid),
            decreases self.states@.len() - j,
        {
            assert(self.states@.take(j + 1).drop_last() == self.states@.take(j as int));
            let s = &self.states[j];
            let mut k: usize = 0;
            while k < s.transitions.len()
                invariant
                    k <= s.transitions@.len(),
                    j < self.states@.len(),
                    s == &self.states@[j as int],
                    deref_pairs(r@) == incoming(self.states@.take(j as int), sid) + incoming_of(s.id, s.transitions@.take(k as int), sid),
                decreases s.transitions@.len() - k,
            {
                assert(s.transitions@.take(k + 1).drop_last() == s.transitions@.take(k as int));
                if s.transitions[k].dest_id == sid {
                    let ghost prev = r@;
                    r.push((s.id, &s.transitions[k]));
                    assert(deref_pairs(r@) =~= deref_pairs(prev).push((s.id, s.transitions@[k as int])));
                }
                k += 1;
            }
            assert(s.transitions@.take(k as int) == s.transitions@);
            j += 1;
        }
        assert(self.states@.take(j as int) == self.states@);
        r
    }

    /// The identifiers of the initial states, in order.
    pub fn initial_states_ids(&self) -> (r: Vec<i32>)
        ensures
            r@ == flagged_ids(self.states@, true),
    {
        let mut r: Vec<i32> = Vec::new();
        let mut j: usize = 0;
        while j < self.states.len()
            invariant
                j <= self.states@.len(),
                r@ == flagged_ids(self.states@.take(j as int), true),
            decreases self.states@.len() - j,
        {
            assert(self.states@.take(j + 1).drop_last() == self.states@.take(j as int));
            if self.states[j].is_initial {
                r.push(self.states[j].id);
            }
            j += 1;
        }
        assert(self.states@.take(j as int) == self.states@);
        r
    }

    /// The identifiers of the final states, in order.
    pub fn final_states_ids(&self) -> (r: Vec<i32>)
        ensures
            r@ == flagged_ids(self.states@, false),
    {
        let mut r: Vec<i32> = Vec::new();
        let mut j: usize = 0;
        while j < self.states.len()
            invariant
                j <= self.states@.len(),
                r@ == flagged_ids(self.states@.take(j as int), false),
            decreases self.states@.len() - j,
        {
            assert(self.states@.take(j + 1).drop_last() == self.states@.take(j as int));
            if self.states[j].is_final {
                r.push(self.states[j].id);
            }
            j += 1;
        }
        assert(self.states@.take(j as int) == self.states@);
        r
    }
}

/// A transition labeled by a numbered terminal.
pub type NumTransition = BaseTransition<NumTerm>;

/// A state whose transitions are labeled by numbered terminals.
pub type NumState = BaseState<StateLabel, NumTerm>;

/// A machine whose transitions are labeled by numbered terminals.
pub type NumMachine = BaseMachine<char, StateLabel, NumTerm>;

impl NumTransition {
    /// Whether this transition is spontaneous.
    pub fn is_epsilon(&self) -> (r: bool)
        ensures
            r == is_epsilon_label(self.label.c),
    {
        self.label.c == '_'
    }
}

/// How many transitions of `ts` are not spontaneous.
pub open spec fn letters(ts: Seq<Transition>) -> nat
    decreases ts.len(),
{
    if ts.len() == 0 {
        0
    } else {
        letters(ts.drop_last()) + if is_epsilon_label(ts.last().label) { 0nat } else { 1nat }
    }
}

/// How many transitions of the first `n` states of `sts` are not
/// spontaneous.
pub open spec fn letters_upto(sts: Seq<State>, n: int) -> nat
    decreases n,
{
    if n <= 0 {
        0
    } else {
        letters_upto(sts, n - 1) + letters(sts[n - 1].transitions@)
    }
}

/// The transitions `ts` with their letters numbered from `start + 1` on in
/// order; spontaneous transitions are labeled `_` numbered 0.
pub open spec fn number_transitions(ts: Seq<Transition>, start: nat) -> Seq<NumTransition>
    decreases ts.len(),
{
    if ts.len() == 0 {
        Seq::empty()
    } else {
        let t = ts.last();
        let label = if is_epsilon_label(t.label) {
            NumTerm { c: '_', i: 0 }
        } else {
            NumTerm { c: t.label, i: (start + letters(ts.drop_last()) + 1) as usize }
        };
        number_transitions(ts.drop_last(), start).push(BaseTransition { label, dest_id: t.dest_id })
    }
}

impl NumMachine {
    /// The machine `old_m` with each letter numbered by its position among
    /// the letters of the machine, states in order and then transitions in
    /// order.
    pub fn from_machine(old_m: Machine) -> (r: NumMachine)
        requires
            letters_upto(old_m.states@, old_m.states@.len() as int) < usize::MAX,
        ensures
            r.label == old_m.label,
            r.states@.len() == old_m.states@.len(),
            forall|j: int| 0 <= j < old_m.states@.len() ==> {
                let o = #[trigger] old_m.states@[j];
                let n = r.states@[j];
                &&& n.id == o.id && n.label == o.label && n.is_initial == o.is_initial && n.is_final == o.is_final
                &&& n.transitions@ == number_transitions(o.transitions@, letters_upto(old_m.states@, j))
            },
    {
        let mut i: usize = 0;
        let mut states: Vec<NumState> = Vec::new();
        let mut j: usize = 0;
        while j < old_m.states.len()
            invariant
                j <= old_m.states@.len(),
                letters_upto(old_m.states@, old_m.states@.len() as int) < usize::MAX,
                i == letters_upto(old_m.states@, j as int),
                states@.len() == j,
                forall|x: int| 0 <= x < j ==> {
                    let o = #[trigger] old_m.states@[x];
                    let n = states@[x];
                    &&& n.id == o.id && n.label == o.label && n.is_initial == o.is_initial && n.is_final == o.is_final
                    &&& n.transitions@ == number_transitions(o.transitions@, letters_upto(old_m.states@, x))
                },
            decreases old_m.states@.len() - j,
        {
            proof {
                lemma_letters_upto_mono(old_m.states@, j as int + 1, old_m.states@.len() as int);
            }
            let old_state = &old_m.states[j];
            let ghost ts = old_state.transitions@;
            let ghost start = i as nat;
            let mut new_ts: Vec<NumTransition> = Vec::new();
            let mut k: usize = 0;
            while k < old_state.transitions.len()
                invariant
                    ts == old_state.transitions@,
                    k <= ts.len(),
                    start + letters(ts) < usize::MAX,
                    i == start + letters(ts.take(k as int)),
                    new_ts@ == number_transitions(ts.take(k as int), start),
                decreases ts.len() - k,
            {
                assert(ts.take(k + 1).drop_last() == ts.take(k as int));
                proof {
                    lemma_letters_prefix(ts, k as int + 1);
                }
                let old_t = old_state.transitions[k];
                let dest_id = old_t.dest_id;
                let label = if old_t.label == '_' {
                    NumTerm::new('_', 0)
                } else {
                    i += 1;
                    NumTerm::new(old_t.label, i)
                };
                new_ts.push(BaseTransition::<NumTerm> { label, dest_id });
                k += 1;
            }
            assert(ts.take(k as int) == ts);
            states.push(BaseState::<StateLabel, NumTerm> {
                id: old_state.id,
                label: old_state.label,
                transitions: new_ts,
                is_final: old_state.is_final,
                is_initial: old_state.is_initial,
            });
            j += 1;
        }
        BaseMachine { label: old_m.label, states }
    }
}

/// The letters of a prefix are no more than those of the whole.
proof fn lemma_letters_prefix(ts: Seq<Transition>, n: int)
    requires
        0 <= n <= ts.len(),
    ensures
        letters(ts.take(n)) <= letters(ts),
    decreases ts.len() - n,
{
    if n < ts.len() {
        lemma_letters_prefix(ts, n + 1);
        assert(ts.take(n + 1).drop_last() == ts.take(n));
    } else {
        assert(ts.take(n) == ts);
    }
}

/// Counting more states counts no fewer letters.
proof fn lemma_letters_upto_mono(sts: Seq<State>, a: int, b: int)
    requires
        a <= b,
    ensures
        letters_upto(sts, a) <= letters_upto(sts, b),
    decreases b - a,
{
    if a < b {
        lemma_letters_upto_mono(sts, a, b - 1);
    }
}

} // verus!
