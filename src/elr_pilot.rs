//! The ELR(1) pilot of a machine net: candidates, pilot states and their
//! transitions, and the construction of the pilot.

pub mod conflicts;
pub mod dot_formatter;

use vstd::prelude::*;
use crate::fsm::{is_upper, Transition};
use crate::mnet::{holds_key, MachineNet};
use crate::text::{decimal, push_char, push_decimal, push_text};
use crate::elr_pilot::conflicts::{transition_ok, well_indexed, well_indexed_at};

verus! {

/// A position inside an instance of `machine`, at `state`, with the
/// terminal `lookahead` expected after the instance ends; `is_final` records
/// whether `state` is final in `machine`.
#[derive(Debug, Clone, Copy, PartialEq, Eq, Structural, Hash)]
pub struct Candidate {
    pub machine: char,
    pub state: i32,
    pub lookahead: char,
    pub is_final: bool,
}

/// A shift on `character` towards the pilot state `dest_id`.
/// `multiplicity` counts the distinct (machine, state) origins of the shift;
/// `candidate_map` pairs the index of each shifted source candidate with the
/// index of its image in the destination state.
#[derive(Debug, Clone, PartialEq, Eq)]
pub struct PilotTransition {
    pub character: char,
    pub dest_id: i32,
    pub multiplicity: i32,
    pub candidate_map: Vec<(usize, usize)>,
}

/// A state of the pilot: its candidates and its outgoing shifts.
#[derive(Debug, Clone)]
pub struct PilotState {
    pub id: i32,
    pub candidates: Vec<Candidate>,
    pub transitions: Vec<PilotTransition>,
}

/// The pilot automaton: its states, the initial one first.
#[derive(Debug)]
pub struct Pilot {
    pub states: Vec<PilotState>,
}

/// A pilot transition as a mathematical value.
pub struct TransitionView {
    pub character: char,
    pub dest_id: i32,
    pub multiplicity: i32,
    pub candidate_map: Seq<(usize, usize)>,
}

/// A pilot state as a mathematical value.
pub struct StateView {
    pub id: i32,
    pub candidates: Seq<Candidate>,
    pub transitions: Seq<TransitionView>,
}

impl View for PilotTransition {
    type V = TransitionView;

    open spec fn view(&self) -> TransitionView {
        TransitionView {
            character: self.character,
            dest_id: self.dest_id,
            multiplicity: self.multiplicity,
            candidate_map: self.candidate_map@,
        }
    }
}

impl View for PilotState {
    type V = StateView;

    open spec fn view(&self) -> StateView {
        StateView {
            id: self.id,
            candidates: self.candidates@,
            transitions: self.transitions@.map_values(|t: PilotTransition| t@),
        }
    }
}

impl View for Pilot {
    type V = Seq<StateView>;

    open spec fn view(&self) -> Seq<StateView> {
        self.states@.map_values(|s: PilotState| s@)
    }
}

/// Whether `j` is the first position of `x` in `s`.
pub open spec fn is_first_pos<A>(s: Seq<A>, j: int, x: A) -> bool {
    &&& 0 <= j < s.len()
    &&& s[j] == x
    &&& forall|k: int| 0 <= k < j ==> s[k] != x
}

/// The first position of `x` in `s`.
pub open spec fn first_pos<A>(s: Seq<A>, x: A) -> int {
    choose|j: int| is_first_pos(s, j, x)
}

/// Whether `j` is the first position in `ts` of a transition labeled `sym`.
pub open spec fn is_first_label(ts: Seq<Transition>, j: int, sym: char) -> bool {
    &&& 0 <= j < ts.len()
    &&& ts[j].label == sym
    &&& forall|k: int| 0 <= k < j ==> ts[k].label != sym
}

/// The candidate that `c` becomes by shifting `sym`, if its state has a
/// transition on `sym` (the first such transition).
pub open spec fn shift_candidate_spec(net: MachineNet, c: Candidate, sym: char) -> Option<Candidate> {
    let ts = net.state(c.machine, c.state).transitions@;
    if exists|j: int| 0 <= j < ts.len() && ts[j].label == sym {
        let t = ts[choose|j: int| is_first_label(ts, j, sym)];
        Some(Candidate {
            machine: c.machine,
            state: t.dest_id,
            lookahead: c.lookahead,
            is_final: net.state(c.machine, t.dest_id).is_final,
        })
    } else {
        None
    }
}

/// What a shift of a candidate list yields: the distinct origins, the
/// destination candidates, and the map from source to destination indices.
pub struct ShiftView {
    pub origins: Seq<(char, i32)>,
    pub candidates: Seq<Candidate>,
    pub candidate_map: Seq<(usize, usize)>,
}

/// The terminals a candidate may expect: the terminal labels of the net and
/// the end marker `$`.
pub open spec fn lookaheads(net: MachineNet) -> Set<char> {
    net.labels().insert('$')
}

/// Every candidate that can arise over `net`: at a state of the net, with
/// one of its lookaheads, final as its state is.
pub open spec fn universe(net: MachineNet) -> Set<Candidate> {
    Set::new(|c: Candidate|
        net.has_state(c.machine, c.state) && lookaheads(net).contains(c.lookahead)
        && c.is_final == net.state(c.machine, c.state).is_final)
}

/// The (machine, state, lookahead) triples of the candidates that can arise
/// over `net`.
pub open spec fn triples(net: MachineNet) -> Set<(char, i32, char)> {
    universe(net).map(|c: Candidate| (c.machine, c.state, c.lookahead))
}

/// `2` to the power `n`.
pub open spec fn two_to(n: nat) -> nat
    decreases n,
{
    if n == 0 { 1 } else { 2 * two_to((n - 1) as nat) }
}

/// The candidates at state `k` with a lookahead of `net`.
pub open spec fn candidates_at(net: MachineNet, k: (char, i32)) -> Set<Candidate> {
    lookaheads(net).map(|l: char| Candidate { machine: k.0, state: k.1, lookahead: l, is_final: true }).union(
        lookaheads(net).map(|l: char| Candidate { machine: k.0, state: k.1, lookahead: l, is_final: false }))
}

/// The candidates that can arise over a net are finitely many.
pub proof fn lemma_universe_finite(net: MachineNet)
    ensures
        universe(net).finite(),
{
    net.lemma_keys_finite();
    net.lemma_labels_finite();
    let fam = net.keys().map(|k: (char, i32)| candidates_at(net, k));
    net.keys().lemma_map_finite(|k: (char, i32)| candidates_at(net, k));
    assert forall|x: Set<Candidate>| fam.contains(x) implies #[trigger] x.finite() by {
        let k = choose|k: (char, i32)| net.keys().contains(k) && candidates_at(net, k) == x;
        lookaheads(net).lemma_map_finite(|l: char| Candidate { machine: k.0, state: k.1, lookahead: l, is_final: true });
        lookaheads(net).lemma_map_finite(|l: char| Candidate { machine: k.0, state: k.1, lookahead: l, is_final: false });
    }
    fam.lemma_flatten_finite();
    assert forall|c: Candidate| universe(net).contains(c) implies #[trigger] fam.flatten().contains(c) by {
        let k = (c.machine, c.state);
        assert(net.keys().contains(k));
        assert(fam.contains(candidates_at(net, k)));
        assert(candidates_at(net, k).contains(c));
    }
    vstd::set_lib::lemma_set_subset_finite(fam.flatten(), universe(net));
}

/// A candidate at a state of the net with one of its lookaheads can arise
/// over the net.
proof fn lemma_universe_contains(net: MachineNet, d: Candidate)
    requires
        net.has_state(d.machine, d.state),
        lookaheads(net).contains(d.lookahead),
        d.is_final == net.state(d.machine, d.state).is_final,
    ensures
        universe(net).contains(d),
{
}

/// A duplicate-free list of candidates of the universe is no longer than the
/// universe.
pub proof fn lemma_len_in_universe(net: MachineNet, cs: Seq<Candidate>)
    requires
        cs.no_duplicates(),
        forall|i: int| 0 <= i < cs.len() ==> universe(net).contains(#[trigger] cs[i]),
    ensures
        cs.len() <= universe(net).len(),
{
    lemma_universe_finite(net);
    cs.unique_seq_to_set();
    assert(cs.to_set().subset_of(universe(net)));
    vstd::set_lib::lemma_len_subset(cs.to_set(), universe(net));
}

/// `cs` with `c` appended unless it already holds it.
pub open spec fn add_cand(cs: Seq<Candidate>, c: Candidate) -> Seq<Candidate> {
    if cs.contains(c) { cs } else { cs.push(c) }
}

/// `cs` with the entry candidates of machine `mach`, one for each lookahead
/// of `chs` in order, appended where new; `fin` says whether state 0 of
/// `mach` is final.
pub open spec fn add_entries(cs: Seq<Candidate>, mach: char, chs: Seq<char>, fin: bool) -> Seq<Candidate>
    decreases chs.len(),
{
    if chs.len() == 0 {
        cs
    } else {
        add_cand(add_entries(cs, mach, chs.drop_last(), fin), Candidate { machine: mach, state: 0, lookahead: chs.last(), is_final: fin })
    }
}

/// `cs` extended with the entry candidates that the first `n` transitions
/// of the state of `c` call.
pub open spec fn expand(net: MachineNet, cs: Seq<Candidate>, c: Candidate, n: int) -> Seq<Candidate>
    decreases n,
{
    if n <= 0 {
        cs
    } else {
        let r = expand(net, cs, c, n - 1);
        let t = net.state(c.machine, c.state).transitions@[n - 1];
        if !is_upper(t.label) {
            r
        } else {
            add_entries(r, t.label, net.followers_of(c.machine, t.dest_id, seq![c.lookahead]), net.state(t.label, 0).is_final)
        }
    }
}

/// The closure of `cs`, processing candidates from position `i` on.
pub open spec fn closure_from(net: MachineNet, cs: Seq<Candidate>, i: nat, fuel: nat) -> Seq<Candidate>
    decreases fuel,
{
    if fuel == 0 || i >= cs.len() {
        cs
    } else {
        let c = cs[i as int];
        closure_from(net, expand(net, cs, c, net.state(c.machine, c.state).transitions@.len() as int), i + 1, (fuel - 1) as nat)
    }
}

/// The closure of the candidate list `cs`: each candidate in turn, including
/// those appended on the way, appends the entry candidates of the machines
/// its state calls.
pub open spec fn closure_of(net: MachineNet, cs: Seq<Candidate>) -> Seq<Candidate> {
    closure_from(net, cs, 0, universe(net).len())
}

/// Whether `d` enters a machine that the state of `c` calls, with a lookahead
/// that may follow the call.
#[verifier::opaque]
pub open spec fn closure_step(net: MachineNet, c: Candidate, d: Candidate) -> bool {
    let ts = net.state(c.machine, c.state).transitions@;
    exists|k: int| #![trigger ts[k]]
        0 <= k < ts.len() && is_upper(ts[k].label)
        && d == Candidate {
            machine: ts[k].label,
            state: 0,
            lookahead: d.lookahead,
            is_final: net.state(ts[k].label, 0).is_final,
        }
        && net.followers_of(c.machine, ts[k].dest_id, seq![c.lookahead]).contains(d.lookahead)
}

/// Whether each candidate of `cs` from position `n` on is reached by one
/// closure step from an earlier candidate.
pub open spec fn derived_after(net: MachineNet, cs: Seq<Candidate>, n: int) -> bool {
    forall|j: int| n <= j < cs.len() ==> #[trigger] derived_at(net, cs, j)
}

/// Whether candidate `j` of `cs` is reached by one closure step from an
/// earlier candidate.
pub open spec fn derived_at(net: MachineNet, cs: Seq<Candidate>, j: int) -> bool {
    exists|i: int| 0 <= i < j && #[trigger] closure_step(net, cs[i], cs[j])
}

/// Whether every candidate of `cs` can arise over `net`, each once.
pub open spec fn cands_ok(net: MachineNet, cs: Seq<Candidate>) -> bool {
    &&& cs.no_duplicates()
    &&& forall|i: int| 0 <= i < cs.len() ==> universe(net).contains(#[trigger] cs[i])
}

/// The base candidates among `cs`: those whose state is not 0.
pub open spec fn base_of(cs: Seq<Candidate>) -> Set<Candidate> {
    cs.to_set().filter(|c: Candidate| c.state != 0)
}

/// Whether `i` is the position of the first state of `states` whose base
/// candidates are those of `cs`.
pub open spec fn is_first_equivalent(states: Seq<StateView>, i: int, cs: Seq<Candidate>) -> bool {
    &&& 0 <= i < states.len()
    &&& base_of(states[i].candidates) == base_of(cs)
    &&& forall|k: int| 0 <= k < i ==> base_of(states[k].candidates) != base_of(cs)
}

/// Inserting the state `new` into `states`: the identifier of the first
/// state with the same base candidates, or else a new state, numbered after
/// the others, whose candidates are the closure of those of `new`.
pub open spec fn insert_spec(net: MachineNet, states: Seq<StateView>, new: StateView) -> (Seq<StateView>, i32) {
    if exists|i: int| 0 <= i < states.len() && base_of(states[i].candidates) == base_of(new.candidates) {
        (states, states[choose|i: int| is_first_equivalent(states, i, new.candidates)].id)
    } else {
        let id = states.len() as i32;
        (states.push(StateView { id, candidates: closure_of(net, new.candidates), transitions: new.transitions }), id)
    }
}

/// The position in `states` of the state that inserting candidates `cs`
/// yields: the first with the same base candidates, or a new last one.
pub open spec fn dest_index(states: Seq<StateView>, cs: Seq<Candidate>) -> int {
    if exists|i: int| 0 <= i < states.len() && base_of(states[i].candidates) == base_of(cs) {
        choose|i: int| is_first_equivalent(states, i, cs)
    } else {
        states.len() as int
    }
}

/// The entry `e` of a candidate map into `fresh`, pointed instead at the
/// same candidate in `dest` where `dest` holds it.
pub open spec fn remap_entry(fresh: Seq<Candidate>, dest: Seq<Candidate>, e: (usize, usize)) -> (usize, usize) {
    let c = fresh[e.1 as int];
    if dest.contains(c) { (e.0, first_pos(dest, c) as usize) } else { e }
}

/// The candidate map `map` into `fresh`, pointed at `dest`.
pub open spec fn remap(map: Seq<(usize, usize)>, fresh: Seq<Candidate>, dest: Seq<Candidate>) -> Seq<(usize, usize)> {
    map.map_values(|e: (usize, usize)| remap_entry(fresh, dest, e))
}

/// Shifting the candidates `src` on each of `syms` in turn and inserting
/// each destination into `states`: the states and the transitions made, the
/// candidate maps pointing into the destination states.
pub open spec fn shift_all(net: MachineNet, states: Seq<StateView>, src: Seq<Candidate>, syms: Seq<char>) -> (Seq<StateView>, Seq<TransitionView>)
    decreases syms.len(),
{
    if syms.len() == 0 {
        (states, Seq::empty())
    } else {
        let (st, tr) = shift_all(net, states, src, syms.drop_last());
        let sym = syms.last();
        let sv = shift_spec(net, src, sym);
        let (st2, id) = insert_spec(net, st, StateView { id: -1i32, candidates: sv.candidates, transitions: Seq::empty() });
        let dest = st2[dest_index(st, sv.candidates)].candidates;
        (st2, tr.push(TransitionView {
            character: sym,
            dest_id: id,
            multiplicity: sv.origins.len() as i32,
            candidate_map: remap(sv.candidate_map, sv.candidates, dest),
        }))
    }
}

/// `states` after state `i` gets its transitions, with the states these
/// reach inserted.
pub open spec fn process(net: MachineNet, states: Seq<StateView>, i: int) -> Seq<StateView> {
    let src = states[i].candidates;
    let (st, tr) = shift_all(net, states, src, collect_spec(net, src));
    st.update(i, StateView { id: st[i].id, candidates: st[i].candidates, transitions: tr })
}

/// `states` after each state from position `i` on, including those added on
/// the way, gets its transitions.
pub open spec fn build_from(net: MachineNet, states: Seq<StateView>, i: nat, fuel: nat) -> Seq<StateView>
    decreases fuel,
{
    if fuel == 0 || i >= states.len() {
        states
    } else {
        build_from(net, process(net, states, i as int), i + 1, (fuel - 1) as nat)
    }
}

/// The sets of candidates of `u`.
pub open spec fn subsets(u: Set<Candidate>) -> Set<Set<Candidate>> {
    Set::new(|s: Set<Candidate>| s.subset_of(u))
}

/// How many pilot states there can be: the number of sets of candidates
/// that can arise over the net.
pub open spec fn state_bound(net: MachineNet) -> nat {
    subsets(universe(net)).len()
}

/// The initial pilot state before closure: the axiom `S` at its state 0,
/// followed by the end marker `$`.
pub open spec fn initial_state(net: MachineNet) -> StateView {
    StateView {
        id: 0,
        candidates: seq![Candidate { machine: 'S', state: 0, lookahead: '$', is_final: net.state('S', 0).is_final }],
        transitions: Seq::empty(),
    }
}

/// The pilot of `net`, built breadth-first from the initial state.
pub open spec fn pilot_of(net: MachineNet) -> Seq<StateView> {
    build_from(net, insert_spec(net, Seq::empty(), initial_state(net)).0, 0, state_bound(net))
}

/// Whether every state of `states` holds candidates that can arise over
/// `net`, each once, and no two states have the same base candidates.
pub open spec fn states_ok(net: MachineNet, states: Seq<StateView>) -> bool {
    &&& forall|i: int| 0 <= i < states.len() ==> cands_ok(net, #[trigger] states[i].candidates)
    &&& forall|i: int, j: int| 0 <= i < j < states.len() ==> base_of(#[trigger] states[i].candidates) != base_of(#[trigger] states[j].candidates)
}

/// The sets of candidates of a finite set are finitely many.
pub proof fn lemma_subsets_finite(u: Set<Candidate>)
    requires
        u.finite(),
    ensures
        subsets(u).finite(),
    decreases u.len(),
{
    if u.len() == 0 {
        assert(subsets(u) =~= set![Set::empty()]) by {
            assert forall|s: Set<Candidate>| subsets(u).contains(s) implies s == Set::<Candidate>::empty() by {
                assert(s =~= Set::<Candidate>::empty());
            }
        }
    } else {
        let x = u.choose();
        let v = u.remove(x);
        lemma_subsets_finite(v);
        subsets(v).lemma_map_finite(|s: Set<Candidate>| s.insert(x));
        let with_x = subsets(v).map(|s: Set<Candidate>| s.insert(x));
        assert forall|s: Set<Candidate>| subsets(u).contains(s) implies #[trigger] subsets(v).union(with_x).contains(s) by {
            if s.contains(x) {
                let r = s.remove(x);
                assert(subsets(v).contains(r));
                assert(r.insert(x) =~= s);
            } else {
                assert(subsets(v).contains(s));
            }
        }
        vstd::set_lib::lemma_set_subset_finite(subsets(v).union(with_x), subsets(u));
    }
}

/// A finite set has `2` to the power of its size subsets.
pub proof fn lemma_subsets_len(u: Set<Candidate>)
    requires
        u.finite(),
    ensures
        subsets(u).finite(),
        subsets(u).len() == two_to(u.len()),
    decreases u.len(),
{
    lemma_subsets_finite(u);
    if u.len() == 0 {
        assert(subsets(u) =~= set![Set::empty()]) by {
            assert forall|s: Set<Candidate>| subsets(u).contains(s) implies s == Set::<Candidate>::empty() by {
                assert(s =~= Set::<Candidate>::empty());
            }
        }
    } else {
        let x = u.choose();
        let v = u.remove(x);
        lemma_subsets_len(v);
        let f = |s: Set<Candidate>| s.insert(x);
        let with_x = subsets(v).map(f);
        assert(vstd::relations::injective_on(f, subsets(v))) by {
            assert forall|a: Set<Candidate>, b: Set<Candidate>| subsets(v).contains(a) && subsets(v).contains(b) && #[trigger] f(a) == #[trigger] f(b) implies a == b by {
                assert(a =~= f(a).remove(x));
                assert(b =~= f(b).remove(x));
            }
        }
        vstd::set_lib::lemma_map_size(subsets(v), with_x, f);
        assert(subsets(u) =~= subsets(v).union(with_x)) by {
            assert forall|s: Set<Candidate>| subsets(u).contains(s) implies #[trigger] subsets(v).union(with_x).contains(s) by {
                if s.contains(x) {
                    let r = s.remove(x);
                    assert(subsets(v).contains(r));
                    assert(r.insert(x) =~= s);
                } else {
                    assert(subsets(v).contains(s));
                }
            }
        }
        assert(subsets(v).disjoint(with_x)) by {
            assert forall|s: Set<Candidate>| subsets(v).contains(s) implies !with_x.contains(s) by {
                if with_x.contains(s) {
                    let r = choose|r: Set<Candidate>| subsets(v).contains(r) && f(r) == s;
                    assert(s.contains(x));
                }
            }
        }
        vstd::set_lib::lemma_set_disjoint_lens(subsets(v), with_x);
    }
}

/// The candidates that can arise over a net are as many as its
/// (machine, state, lookahead) triples.
pub proof fn lemma_universe_triples(net: MachineNet)
    ensures
        universe(net).finite(),
        universe(net).len() == triples(net).len(),
{
    lemma_universe_finite(net);
    let f = |c: Candidate| (c.machine, c.state, c.lookahead);
    assert(vstd::relations::injective_on(f, universe(net)));
    vstd::set_lib::lemma_map_size(universe(net), triples(net), f);
}

/// The bound on the number of pilot states is `2` to the number of
/// (machine, state, lookahead) triples of the net.
pub proof fn lemma_state_bound(net: MachineNet)
    ensures
        state_bound(net) == two_to(triples(net).len()),
{
    lemma_universe_triples(net);
    lemma_subsets_len(universe(net));
}

/// States whose base candidates differ pairwise and arise over the net are
/// at most `state_bound(net)`.
pub proof fn lemma_states_bound(net: MachineNet, states: Seq<StateView>)
    requires
        states_ok(net, states),
    ensures
        states.len() <= state_bound(net),
{
    lemma_universe_finite(net);
    lemma_subsets_finite(universe(net));
    let idx = Set::new(|i: int| 0 <= i < states.len());
    let f = |i: int| base_of(states[i].candidates);
    vstd::set_lib::lemma_int_range(0, states.len() as int);
    assert(idx =~= vstd::set_lib::set_int_range(0, states.len() as int));
    assert(vstd::relations::injective_on(f, idx)) by {
        assert forall|a: int, b: int| idx.contains(a) && idx.contains(b) && #[trigger] f(a) == #[trigger] f(b) implies a == b by {
            if a < b {
                assert(base_of(states[a].candidates) != base_of(states[b].candidates));
            } else if b < a {
                assert(base_of(states[b].candidates) != base_of(states[a].candidates));
            }
        }
    }
    vstd::set_lib::lemma_map_size(idx, idx.map(f), f);
    assert forall|b: Set<Candidate>| idx.map(f).contains(b) implies #[trigger] subsets(universe(net)).contains(b) by {
        let i = choose|i: int| idx.contains(i) && f(i) == b;
        assert(cands_ok(net, states[i].candidates));
        assert forall|c: Candidate| b.contains(c) implies universe(net).contains(c) by {
            let k = choose|k: int| 0 <= k < states[i].candidates.len() && states[i].candidates[k] == c;
        }
    }
    vstd::set_lib::lemma_len_subset(idx.map(f), subsets(universe(net)));
}

/// Closure adds no base candidate.
pub proof fn lemma_closure_base(net: MachineNet, init: Seq<Candidate>, cs: Seq<Candidate>)
    requires
        init.len() <= cs.len(),
        cs.take(init.len() as int) == init,
        derived_after(net, cs, init.len() as int),
    ensures
        base_of(cs) == base_of(init),
{
    assert forall|c: Candidate| base_of(cs).contains(c) <==> base_of(init).contains(c) by {
        if base_of(cs).contains(c) {
            let k = choose|k: int| 0 <= k < cs.len() && cs[k] == c;
            if k >= init.len() {
                assert(derived_at(net, cs, k));
                let i = choose|i: int| 0 <= i < k && #[trigger] closure_step(net, cs[i], cs[k]);
                reveal(closure_step);
            } else {
                assert(cs.take(init.len() as int)[k] == c);
            }
        }
        if base_of(init).contains(c) {
            let k = choose|k: int| 0 <= k < init.len() && init[k] == c;
            assert(cs.take(init.len() as int)[k] == c);
        }
    }
    assert(base_of(cs) =~= base_of(init));
}

/// Whether each candidate of `cs` up to some position is a base candidate
/// (or, when `initial`, the initial candidate at position 0), and each one
/// after it is reached by a closure step from an earlier one.
pub open spec fn closure_sound(net: MachineNet, cs: Seq<Candidate>, initial: bool) -> bool {
    exists|n: int| 0 <= n <= cs.len() && derived_after(net, cs, n)
        && forall|j: int| 0 <= j < n ==> (#[trigger] cs[j]).state != 0 || (initial && j == 0 && cs[j] == seed(net))
}

/// The initial candidate of the pilot.
pub open spec fn seed(net: MachineNet) -> Candidate {
    Candidate { machine: 'S', state: 0, lookahead: '$', is_final: net.state('S', 0).is_final }
}

/// Without re-entry, the shift of candidates yields base candidates.
proof fn lemma_shift_base(net: MachineNet, cs: Seq<Candidate>, sym: char)
    requires
        net.wf(),
        net.no_reentry(),
        cands_in_net(net, cs),
    ensures
        forall|k: int| 0 <= k < shift_spec(net, cs, sym).candidates.len()
            ==> (#[trigger] shift_spec(net, cs, sym).candidates[k]).state != 0,
    decreases cs.len(),
{
    if cs.len() > 0 {
        let rest = cs.drop_last();
        assert forall|i: int| 0 <= i < rest.len() implies net.has_state(#[trigger] rest[i].machine, rest[i].state) by {
            assert(net.has_state(cs[i].machine, cs[i].state));
        }
        lemma_shift_base(net, rest, sym);
        let r = shift_spec(net, rest, sym);
        let c = cs.last();
        assert(net.has_state(cs[cs.len() - 1].machine, cs[cs.len() - 1].state));
        match shift_candidate_spec(net, c, sym) {
            None => {},
            Some(n) => {
                let ts = net.state(c.machine, c.state).transitions@;
                let j0 = choose|j: int| 0 <= j < ts.len() && ts[j].label == sym;
                lemma_first_label(ts, sym, j0);
                let j = choose|j: int| is_first_label(ts, j, sym);
                assert(net.state(c.machine, c.state).transitions@[j] == ts[j]);
                assert(n.state != 0);
                let out = shift_spec(net, cs, sym).candidates;
                assert forall|k: int| 0 <= k < out.len() implies (#[trigger] out[k]).state != 0 by {
                    if k < r.candidates.len() {
                        assert(out[k] == r.candidates[k]);
                    }
                }
            },
        }
    }
}

/// Whether `s` is in strictly increasing order.
pub open spec fn strictly_sorted(s: Seq<char>) -> bool {
    forall|i: int, j: int| 0 <= i < j < s.len() ==> s[i] < s[j]
}

/// The labels of the transitions that leave the states of the candidates
/// `cs`.
pub open spec fn label_set(net: MachineNet, cs: Seq<Candidate>) -> Set<char> {
    Set::new(|ch: char| exists|i: int, k: int|
        0 <= i < cs.len() && 0 <= k < net.state(cs[i].machine, cs[i].state).transitions@.len()
        && #[trigger] net.state(cs[i].machine, cs[i].state).transitions@[k].label == ch)
}

/// The symbols on which the candidates `cs` can shift, in increasing order.
pub open spec fn collect_spec(net: MachineNet, cs: Seq<Candidate>) -> Seq<char> {
    choose|r: Seq<char>| strictly_sorted(r) && r.to_set() == label_set(net, cs)
}

/// Two strictly increasing sequences with the same elements are equal.
pub proof fn lemma_sorted_unique(a: Seq<char>, b: Seq<char>)
    requires
        strictly_sorted(a),
        strictly_sorted(b),
        a.to_set() == b.to_set(),
    ensures
        a == b,
    decreases a.len(),
{
    if a.len() == 0 {
        if b.len() > 0 {
            assert(b.to_set().contains(b[0]));
        }
        assert(a =~= b);
    } else {
        assert(a.to_set().contains(a[0]));
        assert(b.contains(a[0]));
        assert(b.len() > 0);
        assert(b.to_set().contains(b[0]));
        assert(a.contains(b[0]));
        let i = choose|i: int| 0 <= i < a.len() && a[i] == b[0];
        let j = choose|j: int| 0 <= j < b.len() && b[j] == a[0];
        assert(a[0] == b[0]) by {
            if a[0] != b[0] {
                assert(i > 0 && j > 0);
                assert(a[0] < a[i]);
                assert(b[0] < b[j]);
            }
        }
        let ta = a.drop_first();
        let tb = b.drop_first();
        assert forall|x: char| ta.to_set().contains(x) <==> tb.to_set().contains(x) by {
            if ta.contains(x) {
                let k = choose|k: int| 0 <= k < ta.len() && ta[k] == x;
                assert(a[k + 1] == x && a[0] < x);
                assert(a.contains(x));
                assert(b.to_set().contains(x));
                let l = choose|l: int| 0 <= l < b.len() && b[l] == x;
                assert(l > 0);
                assert(tb[l - 1] == x);
            }
            if tb.contains(x) {
                let k = choose|k: int| 0 <= k < tb.len() && tb[k] == x;
                assert(b[k + 1] == x && b[0] < x);
                assert(b.contains(x));
                assert(a.to_set().contains(x));
                let l = choose|l: int| 0 <= l < a.len() && a[l] == x;
                assert(l > 0);
                assert(ta[l - 1] == x);
            }
        }
        assert(ta.to_set() =~= tb.to_set());
        lemma_sorted_unique(ta, tb);
        assert(a =~= seq![a[0]] + ta);
        assert(b =~= seq![b[0]] + tb);
    }
}

/// Every candidate of `cs` stands at a state of the net.
pub open spec fn cands_in_net(net: MachineNet, cs: Seq<Candidate>) -> bool {
    forall|i: int| 0 <= i < cs.len() ==> net.has_state(#[trigger] cs[i].machine, cs[i].state)
}

/// The shift of the candidates `cs` on `sym`.
pub open spec fn shift_spec(net: MachineNet, cs: Seq<Candidate>, sym: char) -> ShiftView
    decreases cs.len(),
{
    if cs.len() == 0 {
        ShiftView { origins: Seq::empty(), candidates: Seq::empty(), candidate_map: Seq::empty() }
    } else {
        let r = shift_spec(net, cs.drop_last(), sym);
        let i = (cs.len() - 1) as usize;
        let c = cs.last();
        match shift_candidate_spec(net, c, sym) {
            None => r,
            Some(n) => {
                let origins = if r.origins.contains((c.machine, c.state)) {
                    r.origins
                } else {
                    r.origins.push((c.machine, c.state))
                };
                if r.candidates.contains(n) {
                    ShiftView {
                        origins,
                        candidates: r.candidates,
                        candidate_map: r.candidate_map.push((i, first_pos(r.candidates, n) as usize)),
                    }
                } else {
                    ShiftView {
                        origins,
                        candidates: r.candidates.push(n),
                        candidate_map: r.candidate_map.push((i, r.candidates.len() as usize)),
                    }
                }
            }
        }
    }
}

/// How a candidate reads: `<` state, machine, `, ` lookahead `>`, the state
/// and machine in parentheses when final.
pub open spec fn cand_text(c: Candidate) -> Seq<char> {
    let st = decimal(c.state as int).push(c.machine);
    let st = if c.is_final { seq!['('] + st + seq![')'] } else { st };
    seq!['<'] + st + seq![',', ' ', c.lookahead, '>']
}

impl Candidate {
    /// The candidate as text, such as `<(1S), $>`.
    pub fn to_string(&self) -> (r: String)
        ensures
            r@ == cand_text(*self),
    {
        let mut s = String::new();
        push_char(&mut s, '<');
        if self.is_final {
            push_char(&mut s, '(');
        }
        push_decimal(&mut s, self.state);
        push_char(&mut s, self.machine);
        if self.is_final {
            push_char(&mut s, ')');
        }
        push_char(&mut s, ',');
        push_char(&mut s, ' ');
        push_char(&mut s, self.lookahead);
        push_char(&mut s, '>');
        assert(s@ =~= cand_text(*self));
        s
    }

    /// Whether the candidate has advanced inside its instance.
    pub open spec fn spec_is_base(&self) -> bool {
        self.state != 0
    }

    /// Whether the candidate has advanced inside its instance (its state is
    /// not the initial state 0).
    pub fn is_base(&self) -> (r: bool)
        ensures
            r == self.spec_is_base(),
    {
        self.state != 0
    }
}

/// Whether every base candidate of `a` is in `b`.
fn base_included(a: &Vec<Candidate>, b: &Vec<Candidate>) -> (r: bool)
    ensures
        r == base_of(a@).subset_of(base_of(b@)),
{
    let mut i: usize = 0;
    while i < a.len()
        invariant
            i <= a@.len(),
            forall|k: int| 0 <= k < i && a@[k].state != 0 ==> b@.contains(#[trigger] a@[k]),
        decreases a@.len() - i,
    {
        if a[i].state != 0 && position(b, a[i]).is_none() {
            assert(a@.contains(a@[i as int]));
            assert(base_of(a@).contains(a@[i as int]));
            return false;
        }
        i += 1;
    }
    assert forall|x: Candidate| base_of(a@).contains(x) implies base_of(b@).contains(x) by {
        let k = choose|k: int| 0 <= k < a@.len() && a@[k] == x;
        assert(b@.contains(a@[k]));
    }
    true
}

impl PilotState {
    /// The base candidates of the state, in order.
    pub fn base_set(&self) -> (r: Vec<Candidate>)
        ensures
            r@.to_set() == base_of(self.candidates@),
            forall|i: int| 0 <= i < r@.len() ==> (#[trigger] r@[i]).state != 0,
    {
        let mut r: Vec<Candidate> = Vec::new();
        let mut i: usize = 0;
        while i < self.candidates.len()
            invariant
                i <= self.candidates@.len(),
                forall|k: int| 0 <= k < r@.len() ==> (#[trigger] r@[k]).state != 0,
                forall|x: Candidate| r@.contains(x) <==> (exists|k: int| 0 <= k < i && #[trigger] self.candidates@[k] == x) && x.state != 0,
            decreases self.candidates@.len() - i,
        {
            if self.candidates[i].is_base() {
                let ghost before = r@;
                r.push(self.candidates[i]);
                assert forall|x: Candidate| r@.contains(x) <==> (exists|k: int| 0 <= k < i + 1 && #[trigger] self.candidates@[k] == x) && x.state != 0 by {
                    if r@.contains(x) && x != self.candidates@[i as int] {
                        let k = choose|k: int| 0 <= k < r@.len() && r@[k] == x;
                        assert(before[k] == x);
                    }
                    if x == self.candidates@[i as int] {
                        assert(r@[before.len() as int] == x);
                    } else if before.contains(x) {
                        let k = choose|k: int| 0 <= k < before.len() && before[k] == x;
                        assert(r@[k] == x);
                    }
                }
            }
            i += 1;
        }
        assert(r@.to_set() =~= base_of(self.candidates@));
        r
    }

    /// Whether the two states have the same base candidates.
    pub fn is_equivalent(&self, other: &PilotState) -> (r: bool)
        ensures
            r == (base_of(self.candidates@) == base_of(other.candidates@)),
    {
        let a = base_included(&self.candidates, &other.candidates);
        let b = base_included(&other.candidates, &self.candidates);
        if a && b {
            assert(base_of(self.candidates@) =~= base_of(other.candidates@));
        }
        a && b
    }
}

impl Pilot {
    /// Whether some state has identifier `id`.
    pub open spec fn has_state(&self, id: i32) -> bool {
        exists|i: int| 0 <= i < self.states@.len() && self.states@[i].id == id
    }

    /// The first state with identifier `id`, which must exist.
    pub fn lookup_state(&self, id: i32) -> (r: &PilotState)
        requires
            self.has_state(id),
        ensures
            r.id == id,
            exists|i: int| 0 <= i < self.states@.len() && self.states@[i] == *r
                && forall|k: int| 0 <= k < i ==> self.states@[k].id != id,
    {
        let mut i: usize = 0;
        while i < self.states.len()
            invariant
                i <= self.states@.len(),
                self.has_state(id),
                forall|k: int| 0 <= k < i ==> self.states@[k].id != id,
            decreases self.states@.len() - i,
        {
            if self.states[i].id == id {
                return &self.states[i];
            }
            i += 1;
        }
        proof {
            let k = choose|k: int| 0 <= k < self.states@.len() && self.states@[k].id == id;
            assert(self.states@[k].id != id);
        }
        &self.states[0]
    }

    /// Inserts `new` unless a state with the same base candidates exists;
    /// a new state gets the next identifier and is closed. Returns the
    /// identifier of the state.
    fn insert(&mut self, new: PilotState, net: &MachineNet) -> (r: (i32, usize))
        requires
            net.wf(),
            cands_ok(*net, new.candidates@),
        ensures
            (final(self)@, r.0) == insert_spec(*net, old(self)@, new@),
            r.1 == dest_index(old(self)@, new.candidates@),
            r.1 < final(self)@.len(),
            r.1 < old(self)@.len() ==> base_of(final(self)@[r.1 as int].candidates) == base_of(new.candidates@),
            final(self)@.len() == old(self)@.len() + 1 <==> r.1 == old(self)@.len(),
            forall|i: int| 0 <= i < old(self)@.len() ==> final(self)@[i] == old(self)@[i],
            old(self)@.len() <= final(self)@.len() <= old(self)@.len() + 1,
            final(self)@.len() == old(self)@.len() + 1 ==> ({
                let cs = final(self)@.last().candidates;
                &&& cands_ok(*net, cs)
                &&& new.candidates@.len() <= cs.len()
                &&& cs.take(new.candidates@.len() as int) == new.candidates@
                &&& derived_after(*net, cs, new.candidates@.len() as int)
            }),
            states_ok(*net, old(self)@) ==> states_ok(*net, final(self)@),
    {
        let mut i: usize = 0;
        while i < self.states.len()
            invariant
                i <= self@.len(),
                self@ == old(self)@,
                forall|k: int| 0 <= k < i ==> base_of(#[trigger] self@[k].candidates) != base_of(new.candidates@),
            decreases self@.len() - i,
        {
            if self.states[i].is_equivalent(&new) {
                proof {
                    let st = self@;
                    assert(st[i as int] == self.states@[i as int]@);
                    assert(is_first_equivalent(st, i as int, new.candidates@));
                    assert forall|j: int| is_first_equivalent(st, j, new.candidates@) implies j == i by {
                        if j > i {
                            assert(base_of(st[i as int].candidates) == base_of(new.candidates@));
                        }
                    }
                }
                return (self.states[i].id, i);
            }
            assert(self@[i as int] == self.states@[i as int]@);
            i += 1;
        }
        let n = self.states.len();
        let id = #[verifier::truncate] (n as i32);
        let ghost new0 = new.candidates@;
        let mut new = new;
        new.id = id;
        closure(&mut new, net);
        self.states.push(new);
        assert(self@ =~= old(self)@.push(new@));
        proof {
            lemma_closure_base(*net, new0, new.candidates@);
            let st = self@;
            if states_ok(*net, old(self)@) {
                assert forall|a: int, b: int| 0 <= a < b < st.len() implies base_of(#[trigger] st[a].candidates) != base_of(#[trigger] st[b].candidates) by {
                    if b == st.len() - 1 {
                        assert(st[a] == old(self)@[a]);
                    } else {
                        assert(st[a] == old(self)@[a] && st[b] == old(self)@[b]);
                    }
                }
                assert forall|a: int| 0 <= a < st.len() implies cands_ok(*net, #[trigger] st[a].candidates) by {
                    if a < st.len() - 1 {
                        assert(st[a] == old(self)@[a]);
                    }
                }
            }
        }
        (id, n)
    }
}

/// The candidates that can arise over a net stand at its states.
proof fn lemma_cands_in_net(net: MachineNet, cs: Seq<Candidate>)
    requires
        cands_ok(net, cs),
    ensures
        cands_in_net(net, cs),
{
    assert forall|i: int| 0 <= i < cs.len() implies net.has_state(#[trigger] cs[i].machine, cs[i].state) by {
        assert(universe(net).contains(cs[i]));
    }
}

/// A transition labeled `sym`, if any, has a first position.
proof fn lemma_first_label(ts: Seq<Transition>, sym: char, j: int)
    requires
        0 <= j < ts.len(),
        ts[j].label == sym,
    ensures
        is_first_label(ts, choose|j: int| is_first_label(ts, j, sym), sym),
    decreases j,
{
    if exists|k: int| 0 <= k < j && ts[k].label == sym {
        let k = choose|k: int| 0 <= k < j && ts[k].label == sym;
        lemma_first_label(ts, sym, k);
    } else {
        assert(is_first_label(ts, j, sym));
    }
}

/// The shift of candidates that arise over the net yields such candidates,
/// each once.
proof fn lemma_shift_ok(net: MachineNet, cs: Seq<Candidate>, sym: char)
    requires
        net.wf(),
        cands_ok(net, cs),
    ensures
        cands_ok(net, shift_spec(net, cs, sym).candidates),
    decreases cs.len(),
{
    if cs.len() > 0 {
        let rest = cs.drop_last();
        assert forall|i: int| 0 <= i < rest.len() implies universe(net).contains(#[trigger] rest[i]) by {
            assert(universe(net).contains(cs[i]));
        }
        assert(cands_ok(net, rest));
        lemma_shift_ok(net, rest, sym);
        let r = shift_spec(net, rest, sym);
        let c = cs.last();
        assert(universe(net).contains(cs[cs.len() - 1]));
        match shift_candidate_spec(net, c, sym) {
            None => {},
            Some(n) => {
                if !r.candidates.contains(n) {
                    let ts = net.state(c.machine, c.state).transitions@;
                    let j0 = choose|j: int| 0 <= j < ts.len() && ts[j].label == sym;
                    lemma_first_label(ts, sym, j0);
                    let j = choose|j: int| is_first_label(ts, j, sym);
                    assert(net.state(c.machine, c.state).transitions@[j] == ts[j]);
                    lemma_universe_contains(net, n);
                    let out = r.candidates.push(n);
                    assert forall|a: int, b: int| 0 <= a < b < out.len() implies out[a] != out[b] by {
                        if b == r.candidates.len() {
                            assert(r.candidates.contains(r.candidates[a]));
                        }
                    }
                    assert forall|i: int| 0 <= i < out.len() implies universe(net).contains(#[trigger] out[i]) by {
                        if i < r.candidates.len() {
                            assert(universe(net).contains(r.candidates[i]));
                        }
                    }
                }
            },
        }
    }
}

/// The first position of `c` in `v`, if any.
fn position(v: &Vec<Candidate>, c: Candidate) -> (r: Option<usize>)
    ensures
        r is None <==> !v@.contains(c),
        r matches Some(j) ==> is_first_pos(v@, j as int, c) && j as int == first_pos(v@, c),
{
    let mut j: usize = 0;
    while j < v.len()
        invariant
            j <= v@.len(),
            forall|k: int| 0 <= k < j ==> v@[k] != c,
        decreases v@.len() - j,
    {
        if v[j] == c {
            assert(is_first_pos(v@, j as int, c));
            assert forall|i: int| is_first_pos(v@, i, c) implies i == j by {
                if i > j {
                    assert(v@[j as int] == c);
                }
            }
            return Some(j);
        }
        j += 1;
    }
    None
}

/// The candidate that `c` becomes by shifting `next`, if any.
fn shift_candidate(c: &Candidate, net: &MachineNet, next: char) -> (r: Option<Candidate>)
    requires
        net.wf(),
        net.has_state(c.machine, c.state),
    ensures
        r == shift_candidate_spec(*net, *c, next),
{
    let mstate = net.lookup_state(c.machine, c.state);
    let mut j: usize = 0;
    while j < mstate.transitions.len()
        invariant
            net.wf(),
            net.has_state(c.machine, c.state),
            *mstate == net.state(c.machine, c.state),
            j <= mstate.transitions@.len(),
            forall|k: int| 0 <= k < j ==> mstate.transitions@[k].label != next,
        decreases mstate.transitions@.len() - j,
    {
        let t = mstate.transitions[j];
        if t.label == next {
            let ghost ts = mstate.transitions@;
            assert(is_first_label(ts, j as int, next));
            assert forall|i: int| is_first_label(ts, i, next) implies i == j by {
                if i > j {
                    assert(ts[j as int].label == next);
                }
            }
            assert(net.state(c.machine, c.state).transitions@[j as int] == t);
            let dest_state = net.lookup_state(c.machine, t.dest_id);
            return Some(Candidate { machine: c.machine, state: t.dest_id, lookahead: c.lookahead, is_final: dest_state.is_final });
        }
        j += 1;
    }
    None
}

/// Inserts `c` into the strictly increasing `v` unless it is there.
fn insert_sorted(v: &mut Vec<char>, c: char)
    requires
        strictly_sorted(old(v)@),
    ensures
        strictly_sorted(final(v)@),
        final(v)@.to_set() == old(v)@.to_set().insert(c),
{
    let mut p: usize = 0;
    while p < v.len() && v[p] < c
        invariant
            p <= v@.len(),
            forall|k: int| 0 <= k < p ==> v@[k] < c,
        decreases v@.len() - p,
    {
        p += 1;
    }
    if p < v.len() && v[p] == c {
        assert(v@.to_set() =~= v@.to_set().insert(c));
        return;
    }
    let ghost before = v@;
    v.insert(p, c);
    assert(v@ =~= before.take(p as int) + seq![c] + before.skip(p as int));
    assert forall|i: int, j: int| 0 <= i < j < v@.len() implies v@[i] < v@[j] by {
        if j < p {
        } else if j == p {
        } else if i < p {
            assert(before[j - 1] >= c);
        } else if i == p {
            assert(before[j - 1] >= before[p as int]);
        } else {
        }
    }
    assert forall|x: char| v@.to_set().contains(x) <==> before.to_set().insert(c).contains(x) by {
        if v@.contains(x) {
            let k = choose|k: int| 0 <= k < v@.len() && v@[k] == x;
            if k < p {
                assert(before[k] == x);
            } else if k > p {
                assert(before[k - 1] == x);
            }
        }
        if before.contains(x) {
            let k = choose|k: int| 0 <= k < before.len() && before[k] == x;
            if k < p {
                assert(v@[k] == x);
            } else {
                assert(v@[k + 1] == x);
            }
        }
        if x == c {
            assert(v@[p as int] == c);
        }
    }
    assert(v@.to_set() =~= before.to_set().insert(c));
}

/// The symbols on which the candidates of `state` can shift, each once, in
/// increasing order.
fn collect_transitions(state: &PilotState, net: &MachineNet) -> (r: Vec<char>)
    requires
        net.wf(),
        cands_in_net(*net, state.candidates@),
    ensures
        strictly_sorted(r@),
        r@.to_set() == label_set(*net, state.candidates@),
        r@ == collect_spec(*net, state.candidates@),
{
    let ghost cs = state.candidates@;
    let mut res: Vec<char> = Vec::new();
    let mut i: usize = 0;
    while i < state.candidates.len()
        invariant
            net.wf(),
            cands_in_net(*net, cs),
            cs == state.candidates@,
            i <= cs.len(),
            strictly_sorted(res@),
            forall|ch: char| res@.to_set().contains(ch) <==> exists|i2: int, k: int|
                0 <= i2 < i && 0 <= k < net.state(cs[i2].machine, cs[i2].state).transitions@.len()
                && #[trigger] net.state(cs[i2].machine, cs[i2].state).transitions@[k].label == ch,
        decreases cs.len() - i,
    {
        let c = state.candidates[i];
        assert(net.has_state(cs[i as int].machine, cs[i as int].state));
        let mstate = net.lookup_state(c.machine, c.state);
        let mut k: usize = 0;
        while k < mstate.transitions.len()
            invariant
                cs == state.candidates@,
                i < cs.len(),
                c == cs[i as int],
                *mstate == net.state(c.machine, c.state),
                k <= mstate.transitions@.len(),
                strictly_sorted(res@),
                forall|ch: char| res@.to_set().contains(ch) <==> (exists|i2: int, k2: int|
                    0 <= i2 < i && 0 <= k2 < net.state(cs[i2].machine, cs[i2].state).transitions@.len()
                    && #[trigger] net.state(cs[i2].machine, cs[i2].state).transitions@[k2].label == ch)
                    || (exists|k2: int| 0 <= k2 < k && #[trigger] mstate.transitions@[k2].label == ch),
            decreases mstate.transitions@.len() - k,
        {
            let ghost before = res@.to_set();
            insert_sorted(&mut res, mstate.transitions[k].label);
            assert forall|ch: char| res@.to_set().contains(ch) <==> (exists|i2: int, k2: int|
                    0 <= i2 < i && 0 <= k2 < net.state(cs[i2].machine, cs[i2].state).transitions@.len()
                    && #[trigger] net.state(cs[i2].machine, cs[i2].state).transitions@[k2].label == ch)
                    || (exists|k2: int| 0 <= k2 < k + 1 && #[trigger] mstate.transitions@[k2].label == ch) by {
                if ch == mstate.transitions@[k as int].label {
                    assert(res@.to_set().contains(ch));
                }
            }
            k += 1;
        }
        assert forall|ch: char| res@.to_set().contains(ch) <==> exists|i2: int, k2: int|
                0 <= i2 < i + 1 && 0 <= k2 < net.state(cs[i2].machine, cs[i2].state).transitions@.len()
                && #[trigger] net.state(cs[i2].machine, cs[i2].state).transitions@[k2].label == ch by {
            if exists|k2: int| 0 <= k2 < k && #[trigger] mstate.transitions@[k2].label == ch {
                let k2 = choose|k2: int| 0 <= k2 < k && #[trigger] mstate.transitions@[k2].label == ch;
                assert(net.state(cs[i as int].machine, cs[i as int].state).transitions@[k2].label == ch);
            }
            if exists|i2: int, k2: int|
                0 <= i2 < i + 1 && 0 <= k2 < net.state(cs[i2].machine, cs[i2].state).transitions@.len()
                && #[trigger] net.state(cs[i2].machine, cs[i2].state).transitions@[k2].label == ch {
                let (i2, k2) = choose|i2: int, k2: int|
                    0 <= i2 < i + 1 && 0 <= k2 < net.state(cs[i2].machine, cs[i2].state).transitions@.len()
                    && #[trigger] net.state(cs[i2].machine, cs[i2].state).transitions@[k2].label == ch;
                if i2 == i {
                    assert(mstate.transitions@[k2].label == ch);
                }
            }
        }
        i += 1;
    }
    assert(res@.to_set() =~= label_set(*net, cs));
    proof {
        let r = collect_spec(*net, cs);
        assert(strictly_sorted(r) && r.to_set() == label_set(*net, cs));
        lemma_sorted_unique(res@, r);
    }
    res
}

/// The entry candidate that the `j`-th follower of the `k`-th transition of
/// the state of `c` yields can arise over the net, and is a closure step of
/// `c`.
proof fn lemma_entry_candidate(net: MachineNet, c: Candidate, k: int, ini: Seq<char>, j: int)
    requires
        net.wf(),
        net.has_state(c.machine, c.state),
        lookaheads(net).contains(c.lookahead),
        0 <= k < net.state(c.machine, c.state).transitions@.len(),
        is_upper(net.state(c.machine, c.state).transitions@[k].label),
        ini == net.followers_of(c.machine, net.state(c.machine, c.state).transitions@[k].dest_id, seq![c.lookahead]),
        0 <= j < ini.len(),
    ensures
        ({
            let t = net.state(c.machine, c.state).transitions@[k];
            let d = Candidate { machine: t.label, state: 0, lookahead: ini[j], is_final: net.state(t.label, 0).is_final };
            universe(net).contains(d) && closure_step(net, c, d)
        }),
{
    let ts = net.state(c.machine, c.state).transitions@;
    let t = net.state(c.machine, c.state).transitions@[k];
    assert(ini.contains(ini[j]));
    net.lemma_fol_labels(net.keys().len(), c.machine, t.dest_id, Set::empty(), seq![c.lookahead], ini[j]);
    if seq![c.lookahead].contains(ini[j]) {
        assert(ini[j] == c.lookahead);
    }
    assert(net.has_state(t.label, 0));
    let d = Candidate { machine: t.label, state: 0, lookahead: ini[j], is_final: net.state(t.label, 0).is_final };
    assert(lookaheads(net).contains(d.lookahead));
    assert(net.has_state(d.machine, d.state));
    assert(lookaheads(net).contains(d.lookahead));
    lemma_universe_contains(net, d);
    assert(ts[k] == t);
    reveal(closure_step);
    assert(closure_step(net, c, d));
}

/// Appending a new candidate reached by a closure step from an earlier one
/// keeps a list duplicate-free and derived.
proof fn lemma_push_derived(net: MachineNet, cs: Seq<Candidate>, d: Candidate, n: int, src: int)
    requires
        cands_ok(net, cs),
        universe(net).contains(d),
        !cs.contains(d),
        derived_after(net, cs, n),
        0 <= src < cs.len(),
        closure_step(net, cs[src], d),
    ensures
        cands_ok(net, cs.push(d)),
        derived_after(net, cs.push(d), n),
{
    let r = cs.push(d);
    assert forall|i: int| 0 <= i < r.len() implies universe(net).contains(#[trigger] r[i]) by {
        if i < cs.len() {
            assert(universe(net).contains(cs[i]));
        }
    }
    assert forall|a: int, b: int| 0 <= a < b < r.len() implies r[a] != r[b] by {
        if b == cs.len() {
            assert(cs.contains(cs[a]));
        }
    }
    assert forall|x: int| n <= x < r.len() implies #[trigger] derived_at(net, r, x) by {
        if x < cs.len() {
            assert(derived_at(net, cs, x));
            let i = choose|i: int| 0 <= i < x && #[trigger] closure_step(net, cs[i], cs[x]);
            assert(closure_step(net, r[i], r[x]));
        } else {
            assert(closure_step(net, r[src], r[x]));
        }
    }
}

/// Appending keeps a prefix.
proof fn lemma_push_keeps_prefix<A>(s: Seq<A>, x: A, p: Seq<A>)
    requires
        p.len() <= s.len(),
        s.take(p.len() as int) == p,
    ensures
        p.len() <= s.push(x).len(),
        s.push(x).take(p.len() as int) == p,
{
    assert forall|i: int| 0 <= i < p.len() implies s.push(x)[i] == p[i] by {
        assert(s.take(p.len() as int)[i] == p[i]);
    }
    assert(s.push(x).take(p.len() as int) =~= p);
}

/// Appends to `cands` the entry candidates of machine `mach` for the
/// lookaheads `ini`, skipping those present; each is a closure step from
/// candidate `src`.
fn add_entries_vec(cands: &mut Vec<Candidate>, mach: char, ini: &Vec<char>, fin: bool, Ghost(net): Ghost<MachineNet>, Ghost(n): Ghost<int>, Ghost(src): Ghost<int>)
    requires
        cands_ok(net, old(cands)@),
        derived_after(net, old(cands)@, n),
        0 <= src < old(cands)@.len(),
        forall|j: int| 0 <= j < ini@.len() ==> ({
            let d = Candidate { machine: mach, state: 0, lookahead: #[trigger] ini@[j], is_final: fin };
            universe(net).contains(d) && closure_step(net, old(cands)@[src], d)
        }),
    ensures
        final(cands)@ == add_entries(old(cands)@, mach, ini@, fin),
        cands_ok(net, final(cands)@),
        derived_after(net, final(cands)@, n),
        old(cands)@.len() <= final(cands)@.len(),
        final(cands)@.take(old(cands)@.len() as int) == old(cands)@,
{
    let ghost first = cands@;
    let mut j: usize = 0;
    while j < ini.len()
        invariant
            cands_ok(net, cands@),
            derived_after(net, cands@, n),
            0 <= src < first.len(),
            forall|j: int| 0 <= j < ini@.len() ==> ({
                let d = Candidate { machine: mach, state: 0, lookahead: #[trigger] ini@[j], is_final: fin };
                universe(net).contains(d) && closure_step(net, first[src], d)
            }),
            j <= ini@.len(),
            cands@ == add_entries(first, mach, ini@.take(j as int), fin),
            first.len() <= cands@.len(),
            cands@.take(first.len() as int) == first,
        decreases ini@.len() - j,
    {
        assert(ini@.take(j + 1).drop_last() == ini@.take(j as int));
        let c2 = Candidate { machine: mach, state: 0, lookahead: ini[j], is_final: fin };
        if position(cands, c2).is_none() {
            let ghost before = cands@;
            proof {
                assert(c2.lookahead == ini@[j as int]);
                assert(before.take(first.len() as int)[src] == first[src]);
                lemma_push_derived(net, before, c2, n, src);
            }
            cands.push(c2);
            proof {
                lemma_push_keeps_prefix(before, c2, first);
            }
        }
        j += 1;
    }
    assert(ini@.take(j as int) == ini@);
}

/// Extends the candidates of `state` to their closure.
fn closure(state: &mut PilotState, net: &MachineNet)
    requires
        net.wf(),
        cands_ok(*net, old(state).candidates@),
    ensures
        final(state).id == old(state).id,
        final(state).transitions@ == old(state).transitions@,
        final(state).candidates@ == closure_of(*net, old(state).candidates@),
        cands_ok(*net, final(state).candidates@),
        old(state).candidates@.len() <= final(state).candidates@.len(),
        final(state).candidates@.take(old(state).candidates@.len() as int) == old(state).candidates@,
        derived_after(*net, final(state).candidates@, old(state).candidates@.len() as int),
{
    let ghost init = state.candidates@;
    let ghost bound = universe(*net).len();
    let mut candidate_id: usize = 0;
    proof {
        lemma_len_in_universe(*net, init);
    }
    while candidate_id < state.candidates.len()
        invariant
            net.wf(),
            state.id == old(state).id,
            state.transitions@ == old(state).transitions@,
            init == old(state).candidates@,
            cands_ok(*net, state.candidates@),
            candidate_id <= state.candidates@.len() <= bound,
            bound == universe(*net).len(),
            closure_from(*net, state.candidates@, candidate_id as nat, (bound - candidate_id) as nat) == closure_of(*net, init),
            state.candidates@.take(init.len() as int) == init,
            init.len() <= state.candidates@.len(),
            derived_after(*net, state.candidates@, init.len() as int),
        decreases bound - candidate_id,
    {
        let c = state.candidates[candidate_id];
        let ghost start = state.candidates@;
        assert(universe(*net).contains(start[candidate_id as int]));
        let mstate = net.lookup_state(c.machine, c.state);
        let mut k: usize = 0;
        while k < mstate.transitions.len()
            invariant
                net.wf(),
                state.id == old(state).id,
                state.transitions@ == old(state).transitions@,
                init == old(state).candidates@,
                cands_ok(*net, state.candidates@),
                candidate_id < start.len(),
                c == start[candidate_id as int],
                net.has_state(c.machine, c.state),
                lookaheads(*net).contains(c.lookahead),
                *mstate == net.state(c.machine, c.state),
                k <= mstate.transitions@.len(),
                state.candidates@ == expand(*net, start, c, k as int),
                state.candidates@.take(start.len() as int) == start,
                start.len() <= state.candidates@.len(),
                start.take(init.len() as int) == init,
                init.len() <= start.len(),
                derived_after(*net, state.candidates@, init.len() as int),
            decreases mstate.transitions@.len() - k,
        {
            let t = mstate.transitions[k];
            assert(t == net.state(c.machine, c.state).transitions@[k as int]);
            if t.is_nonterminal() {
                let look = vec![c.lookahead];
                assert(look@ =~= seq![c.lookahead]);
                let ini = net.followers(c.machine, t.dest_id, look);
                let dest_state = net.lookup_state(t.label, 0);
                let ghost mid = state.candidates@;
                proof {
                    assert(mid.take(start.len() as int)[candidate_id as int] == start[candidate_id as int]);
                    assert forall|j: int| 0 <= j < ini@.len() implies ({
                        let d = Candidate { machine: t.label, state: 0, lookahead: #[trigger] ini@[j], is_final: dest_state.is_final };
                        universe(*net).contains(d) && closure_step(*net, mid[candidate_id as int], d)
                    }) by {
                        lemma_entry_candidate(*net, c, k as int, ini@, j);
                    }
                }
                add_entries_vec(&mut state.candidates, t.label, &ini, dest_state.is_final, Ghost(*net), Ghost(init.len() as int), Ghost(candidate_id as int));
                proof {
                    let cs = state.candidates@;
                    assert forall|x: int| 0 <= x < start.len() implies cs[x] == start[x] by {
                        assert(cs.take(mid.len() as int)[x] == mid[x]);
                        assert(mid.take(start.len() as int)[x] == start[x]);
                    }
                    assert(cs.take(start.len() as int) =~= start);
                }
            }
            k += 1;
        }
        proof {
            let cs = state.candidates@;
            assert forall|x: int| 0 <= x < init.len() implies cs[x] == init[x] by {
                assert(cs.take(start.len() as int)[x] == start[x]);
                assert(start.take(init.len() as int)[x] == init[x]);
            }
            assert(cs.take(init.len() as int) =~= init);
            lemma_len_in_universe(*net, state.candidates@);
        }
        candidate_id += 1;
    }
}

/// Shifts the candidates of `state` on `character`: the transition to the
/// destination (whose `dest_id` is not yet known, -1) and the destination
/// state before closure.
fn shift(state: &PilotState, net: &MachineNet, character: char) -> (r: (PilotTransition, PilotState))
    requires
        net.wf(),
        cands_in_net(*net, state.candidates@),
    ensures
        ({
            let sv = shift_spec(*net, state.candidates@, character);
            &&& r.0.character == character
            &&& r.0.dest_id == -1
            &&& r.0.multiplicity == sv.origins.len() as i32
            &&& r.0.candidate_map@ == sv.candidate_map
            &&& r.1.id == -1
            &&& r.1.candidates@ == sv.candidates
            &&& r.1.transitions@.len() == 0
        }),
{
    let mut orig_states: Vec<(char, i32)> = Vec::new();
    let mut candidates: Vec<Candidate> = Vec::new();
    let mut candidate_map: Vec<(usize, usize)> = Vec::new();
    let mut i: usize = 0;
    while i < state.candidates.len()
        invariant
            net.wf(),
            cands_in_net(*net, state.candidates@),
            i <= state.candidates@.len(),
            ({
                let sv = shift_spec(*net, state.candidates@.take(i as int), character);
                &&& orig_states@ == sv.origins
                &&& candidates@ == sv.candidates
                &&& candidate_map@ == sv.candidate_map
            }),
        decreases state.candidates@.len() - i,
    {
        assert(state.candidates@.take(i + 1).drop_last() == state.candidates@.take(i as int));
        let c = state.candidates[i];
        assert(net.has_state(state.candidates@[i as int].machine, state.candidates@[i as int].state));
        if let Some(new) = shift_candidate(&c, net, character) {
            if !holds_key(&orig_states, c.machine, c.state) {
                orig_states.push((c.machine, c.state));
            }
            match position(&candidates, new) {
                Some(j) => {
                    candidate_map.push((i, j));
                },
                None => {
                    candidate_map.push((i, candidates.len()));
                    candidates.push(new);
                },
            }
        }
        i += 1;
    }
    assert(state.candidates@.take(i as int) == state.candidates@);
    let multiplicity = orig_states.len() as i32;
    (
        PilotTransition { character, dest_id: -1, multiplicity, candidate_map },
        PilotState { id: -1, candidates, transitions: Vec::new() },
    )
}

/// Whether transition `t` of a state with `srclen` candidates leads to a
/// state of `p` and its candidate map pairs candidates of the two states.
pub open spec fn entry_ok(p: Seq<StateView>, srclen: int, t: TransitionView) -> bool {
    &&& 0 <= t.dest_id < p.len()
    &&& forall|a: int| 0 <= a < t.candidate_map.len() ==>
        (#[trigger] t.candidate_map[a]).0 < srclen
        && t.candidate_map[a].1 < p[t.dest_id as int].candidates.len()
}

/// Whether each state of `p` whose position fits an `i32` is numbered by
/// its position.
pub open spec fn ids_by_position(p: Seq<StateView>) -> bool {
    forall|a: int| 0 <= a < p.len() && a <= i32::MAX ==> #[trigger] p[a].id == a
}

/// Growing a pilot keeps the consistent indexing of its earlier states.
proof fn lemma_indexed_grow(p: Seq<StateView>, q: Seq<StateView>, a: int)
    requires
        p.len() <= q.len(),
        forall|j: int| 0 <= j < p.len() ==> q[j] == p[j],
        0 <= a < p.len(),
        well_indexed_at(p, a),
    ensures
        well_indexed_at(q, a),
{
    assert(q[a] == p[a]);
    assert forall|k: int| 0 <= k < q[a].transitions.len() implies #[trigger] transition_ok(q, a, k) by {
        assert(transition_ok(p, a, k));
        let t = p[a].transitions[k];
        assert(q[t.dest_id as int] == p[t.dest_id as int]);
    }
}

/// Growing a pilot keeps a transition entry within it.
proof fn lemma_entry_grow(p: Seq<StateView>, q: Seq<StateView>, srclen: int, t: TransitionView)
    requires
        p.len() <= q.len(),
        forall|j: int| 0 <= j < p.len() ==> q[j] == p[j],
        entry_ok(p, srclen, t),
    ensures
        entry_ok(q, srclen, t),
{
    assert(q[t.dest_id as int] == p[t.dest_id as int]);
}

/// Pointing a candidate map at a destination that holds every shifted
/// candidate keeps its entries within the two states.
proof fn lemma_remap_bounds(map: Seq<(usize, usize)>, fresh: Seq<Candidate>, dest: Seq<Candidate>, srclen: int)
    requires
        forall|k: int| 0 <= k < map.len() ==> (#[trigger] map[k]).0 < srclen && map[k].1 < fresh.len(),
        forall|j: int| 0 <= j < fresh.len() ==> dest.contains(#[trigger] fresh[j]),
    ensures
        forall|k: int| 0 <= k < remap(map, fresh, dest).len() ==>
            (#[trigger] remap(map, fresh, dest)[k]).0 < srclen && remap(map, fresh, dest)[k].1 < dest.len(),
{
    assert forall|k: int| 0 <= k < remap(map, fresh, dest).len() implies
        (#[trigger] remap(map, fresh, dest)[k]).0 < srclen && remap(map, fresh, dest)[k].1 < dest.len() by {
        let e = map[k];
        let c = fresh[e.1 as int];
        assert(dest.contains(c));
        let w = choose|w: int| 0 <= w < dest.len() && dest[w] == c;
        lemma_first_pos_exists(dest, c, w);
    }
}

/// The candidate map pairs `(i, j)` of a shift pair a source index with an
/// index of the shifted candidates.
proof fn lemma_shift_map_bounds(net: MachineNet, cs: Seq<Candidate>, sym: char)
    requires
        cs.len() <= usize::MAX,
    ensures
        shift_spec(net, cs, sym).candidates.len() <= cs.len(),
        forall|k: int| 0 <= k < shift_spec(net, cs, sym).candidate_map.len() ==>
            (#[trigger] shift_spec(net, cs, sym).candidate_map[k]).0 < cs.len()
            && shift_spec(net, cs, sym).candidate_map[k].1 < shift_spec(net, cs, sym).candidates.len(),
    decreases cs.len(),
{
    if cs.len() > 0 {
        let rest = cs.drop_last();
        lemma_shift_map_bounds(net, rest, sym);
        let r = shift_spec(net, rest, sym);
        let out = shift_spec(net, cs, sym);
        match shift_candidate_spec(net, cs.last(), sym) {
            None => {},
            Some(n) => {
                if r.candidates.contains(n) {
                    let j = choose|j: int| is_first_pos(r.candidates, j, n);
                    let w = choose|w: int| 0 <= w < r.candidates.len() && r.candidates[w] == n;
                    lemma_first_pos_exists(r.candidates, n, w);
                }
                assert forall|k: int| 0 <= k < out.candidate_map.len() implies
                    (#[trigger] out.candidate_map[k]).0 < cs.len() && out.candidate_map[k].1 < out.candidates.len() by {
                    if k < r.candidate_map.len() {
                        assert(out.candidate_map[k] == r.candidate_map[k]);
                    }
                }
            },
        }
    }
}

/// An element of a sequence has a first position.
proof fn lemma_first_pos_exists<A>(s: Seq<A>, x: A, w: int)
    requires
        0 <= w < s.len(),
        s[w] == x,
    ensures
        is_first_pos(s, first_pos(s, x), x),
    decreases w,
{
    if exists|k: int| 0 <= k < w && s[k] == x {
        let k = choose|k: int| 0 <= k < w && s[k] == x;
        lemma_first_pos_exists(s, x, k);
    } else {
        assert(is_first_pos(s, w, x));
    }
}

/// A copy of the candidate list `v`.
fn copy_candidates(v: &Vec<Candidate>) -> (r: Vec<Candidate>)
    ensures
        r@ == v@,
{
    let mut r: Vec<Candidate> = Vec::new();
    let mut i: usize = 0;
    while i < v.len()
        invariant
            i <= v@.len(),
            r@ == v@.take(i as int),
        decreases v@.len() - i,
    {
        r.push(v[i]);
        assert(v@.take(i + 1) == v@.take(i as int).push(v@[i as int]));
        i += 1;
    }
    assert(v@.take(i as int) == v@);
    r
}

/// The candidate map `map` into `fresh`, pointed at `dest`.
fn remap_map(map: &Vec<(usize, usize)>, fresh: &Vec<Candidate>, dest: &Vec<Candidate>) -> (r: Vec<(usize, usize)>)
    requires
        forall|k: int| 0 <= k < map@.len() ==> (#[trigger] map@[k]).1 < fresh@.len(),
    ensures
        r@ == remap(map@, fresh@, dest@),
{
    let mut r: Vec<(usize, usize)> = Vec::new();
    let mut k: usize = 0;
    while k < map.len()
        invariant
            k <= map@.len(),
            forall|y: int| 0 <= y < map@.len() ==> (#[trigger] map@[y]).1 < fresh@.len(),
            r@ == map@.take(k as int).map_values(|e: (usize, usize)| remap_entry(fresh@, dest@, e)),
        decreases map@.len() - k,
    {
        let e = map[k];
        assert(e == map@[k as int]);
        let c = fresh[e.1];
        let ne = match position(dest, c) {
            Some(p) => (e.0, p),
            None => e,
        };
        assert(ne == remap_entry(fresh@, dest@, e));
        r.push(ne);
        assert(map@.take(k + 1).map_values(|e: (usize, usize)| remap_entry(fresh@, dest@, e))
            =~= map@.take(k as int).map_values(|e: (usize, usize)| remap_entry(fresh@, dest@, e)).push(ne));
        k += 1;
    }
    assert(map@.take(k as int) == map@);
    r
}

/// The candidate map of a shift records, for each source candidate that
/// shifts, the position of its image among the shifted candidates, which are
/// distinct.
proof fn lemma_shift_map_targets(net: MachineNet, cs: Seq<Candidate>, sym: char)
    requires
        cs.len() <= usize::MAX,
    ensures
        shift_spec(net, cs, sym).candidates.no_duplicates(),
        forall|k: int| 0 <= k < shift_spec(net, cs, sym).candidate_map.len() ==> {
            let e = #[trigger] shift_spec(net, cs, sym).candidate_map[k];
            &&& e.0 < cs.len() && e.1 < shift_spec(net, cs, sym).candidates.len()
            &&& shift_candidate_spec(net, cs[e.0 as int], sym) == Some(shift_spec(net, cs, sym).candidates[e.1 as int])
        },
        forall|i: int| 0 <= i < cs.len() && (#[trigger] shift_candidate_spec(net, cs[i], sym)) is Some ==>
            exists|k: int| 0 <= k < shift_spec(net, cs, sym).candidate_map.len()
                && (#[trigger] shift_spec(net, cs, sym).candidate_map[k]).0 == i,
    decreases cs.len(),
{
    if cs.len() > 0 {
        let rest = cs.drop_last();
        lemma_shift_map_targets(net, rest, sym);
        lemma_shift_map_bounds(net, rest, sym);
        let r = shift_spec(net, rest, sym);
        let out = shift_spec(net, cs, sym);
        let last = (cs.len() - 1) as int;
        assert forall|i: int| 0 <= i < rest.len() implies rest[i] == cs[i] by {}
        match shift_candidate_spec(net, cs.last(), sym) {
            None => {
                assert forall|i: int| 0 <= i < cs.len() && (#[trigger] shift_candidate_spec(net, cs[i], sym)) is Some implies
                    exists|k: int| 0 <= k < out.candidate_map.len() && (#[trigger] out.candidate_map[k]).0 == i by {
                    assert(i != last);
                    assert(shift_candidate_spec(net, rest[i], sym) is Some);
                }
            },
            Some(n) => {
                if r.candidates.contains(n) {
                    let w = choose|w: int| 0 <= w < r.candidates.len() && r.candidates[w] == n;
                    lemma_first_pos_exists(r.candidates, n, w);
                } else {
                    assert forall|a: int, b: int| 0 <= a < b < out.candidates.len() implies out.candidates[a] != out.candidates[b] by {
                        if b == r.candidates.len() {
                            assert(r.candidates.contains(r.candidates[a]));
                        }
                    }
                }
                assert forall|k: int| 0 <= k < out.candidate_map.len() implies {
                    let e = #[trigger] out.candidate_map[k];
                    &&& e.0 < cs.len() && e.1 < out.candidates.len()
                    &&& shift_candidate_spec(net, cs[e.0 as int], sym) == Some(out.candidates[e.1 as int])
                } by {
                    if k < r.candidate_map.len() {
                        assert(out.candidate_map[k] == r.candidate_map[k]);
                        let e = r.candidate_map[k];
                        assert(rest[e.0 as int] == cs[e.0 as int]);
                        assert(e.0 < rest.len() && e.1 < r.candidates.len());
                        assert(shift_candidate_spec(net, rest[e.0 as int], sym) == Some(r.candidates[e.1 as int]));
                        if !r.candidates.contains(n) {
                            assert(out.candidates[e.1 as int] == r.candidates[e.1 as int]);
                        } else {
                            assert(out.candidates == r.candidates);
                        }
                        assert(e.1 < out.candidates.len());
                        assert(shift_candidate_spec(net, cs[e.0 as int], sym) == Some(out.candidates[e.1 as int]));
                    } else {
                        let i0 = (cs.len() - 1) as usize;
                        if r.candidates.contains(n) {
                            assert(out.candidate_map == r.candidate_map.push((i0, first_pos(r.candidates, n) as usize)));
                        } else {
                            assert(out.candidate_map == r.candidate_map.push((i0, r.candidates.len() as usize)));
                        }
                        assert(k == r.candidate_map.len());
                        let e = out.candidate_map[k];
                        assert(e.0 as int == last);
                        assert(cs[last] == cs.last());
                        if r.candidates.contains(n) {
                            assert(out.candidates == r.candidates);
                            assert(is_first_pos(r.candidates, first_pos(r.candidates, n), n));
                            assert(e.1 as int == first_pos(r.candidates, n));
                            assert(out.candidates[e.1 as int] == n);
                        } else {
                            assert(out.candidates[r.candidates.len() as int] == n);
                            assert(e.1 as int == r.candidates.len());
                        }
                        assert(e.1 < out.candidates.len());
                        assert(shift_candidate_spec(net, cs[e.0 as int], sym) == Some(out.candidates[e.1 as int]));
                    }
                }
                assert forall|i: int| 0 <= i < cs.len() && (#[trigger] shift_candidate_spec(net, cs[i], sym)) is Some implies
                    exists|k: int| 0 <= k < out.candidate_map.len() && (#[trigger] out.candidate_map[k]).0 == i by {
                    if i == last {
                        let k = r.candidate_map.len() as int;
                        assert(out.candidate_map[k].0 == i);
                    } else {
                        assert(shift_candidate_spec(net, rest[i], sym) is Some);
                        let k = choose|k: int| 0 <= k < r.candidate_map.len() && (#[trigger] r.candidate_map[k]).0 == i;
                        assert(out.candidate_map[k] == r.candidate_map[k]);
                    }
                }
            },
        }
    }
}

/// When no two entries of a shift's candidate map, pointed at any
/// destination list, share a destination index (no convergence conflict),
/// no two source candidates shift to the same candidate.
pub proof fn lemma_no_convergence_no_merge(net: MachineNet, cs: Seq<Candidate>, sym: char, dest: Seq<Candidate>, a: int, b: int)
    requires
        cs.len() <= usize::MAX,
        ({
            let sv = shift_spec(net, cs, sym);
            let m = remap(sv.candidate_map, sv.candidates, dest);
            forall|x: int, y: int| 0 <= x < y < m.len() ==> m[x].1 != m[y].1
        }),
        0 <= a < b < cs.len(),
        shift_candidate_spec(net, cs[a], sym) is Some,
        shift_candidate_spec(net, cs[b], sym) is Some,
    ensures
        shift_candidate_spec(net, cs[a], sym) != shift_candidate_spec(net, cs[b], sym),
{
    lemma_shift_map_targets(net, cs, sym);
    let sv = shift_spec(net, cs, sym);
    let m = remap(sv.candidate_map, sv.candidates, dest);
    let ka = choose|k: int| 0 <= k < sv.candidate_map.len() && (#[trigger] sv.candidate_map[k]).0 == a;
    let kb = choose|k: int| 0 <= k < sv.candidate_map.len() && (#[trigger] sv.candidate_map[k]).0 == b;
    if shift_candidate_spec(net, cs[a], sym) == shift_candidate_spec(net, cs[b], sym) {
        let ea = sv.candidate_map[ka];
        let eb = sv.candidate_map[kb];
        assert(sv.candidates[ea.1 as int] == sv.candidates[eb.1 as int]);
        assert(ea.1 == eb.1);
        assert(m[ka].1 == m[kb].1);
        if ka < kb {
            assert(m[ka].1 != m[kb].1);
        } else {
            assert(m[kb].1 != m[ka].1);
        }
    }
}

/// Building the pilot is deterministic: two pilots built from the same net
/// (each equal to `pilot_of` of it, as `create_pilot` ensures) have the same
/// states, candidates and transitions.
pub proof fn lemma_pilot_deterministic(net: MachineNet, p1: Seq<StateView>, p2: Seq<StateView>)
    requires
        p1 == pilot_of(net),
        p2 == pilot_of(net),
    ensures
        p1.len() == p2.len(),
        forall|i: int| 0 <= i < p1.len() ==> (#[trigger] p1[i]).id == p2[i].id
            && p1[i].candidates == p2[i].candidates && p1[i].transitions == p2[i].transitions,
{
}

/// Builds the pilot of `net` breadth-first: from the closed initial state,
/// each state in turn shifts on each of its symbols in increasing order,
/// and each destination is inserted unless a state with the same base
/// candidates exists.
pub fn create_pilot(net: &MachineNet) -> (r: Pilot)
    requires
        net.wf(),
        net.has_state('S', 0),
    ensures
        r@ == pilot_of(*net),
        states_ok(*net, r@),
        r@.len() <= state_bound(*net),
        r@.len() <= two_to(triples(*net).len()),
        net.no_reentry() ==> forall|i: int| 0 <= i < r@.len() ==> closure_sound(*net, #[trigger] r@[i].candidates, i == 0),
        net.no_reentry() && r@.len() <= i32::MAX ==> well_indexed(r@),
{
    let first_state = net.lookup_state('S', 0);
    let init_candidate = Candidate { machine: 'S', state: 0, lookahead: '$', is_final: first_state.is_final };
    let init_state = PilotState { id: 0, candidates: vec![init_candidate], transitions: Vec::new() };
    let mut pilot = Pilot { states: Vec::new() };
    proof {
        assert(lookaheads(*net).contains('$'));
        lemma_universe_contains(*net, init_candidate);
        assert(init_state.candidates@ =~= seq![init_candidate]);
        assert(init_state@.transitions =~= Seq::<TransitionView>::empty());
        assert(init_state@ == initial_state(*net));
        assert(pilot@ =~= Seq::<StateView>::empty());
    }
    pilot.insert(init_state, net);
    let ghost bound = state_bound(*net);
    proof {
        lemma_states_bound(*net, pilot@);
        assert(pilot@.len() == 1);
        let cs = pilot@[0].candidates;
        assert(cs == pilot@.last().candidates);
        assert(cs.take(1) == seq![init_candidate]);
        assert(cs[0] == cs.take(1)[0]);
        assert(derived_after(*net, cs, 1));
        assert(forall|j: int| 0 <= j < 1 ==> (#[trigger] cs[j]).state != 0 || (true && j == 0 && cs[j] == seed(*net)));
        assert(closure_sound(*net, cs, true));
    }
    let mut i: usize = 0;
    while i < pilot.states.len()
        invariant
            net.wf(),
            bound == state_bound(*net),
            i <= pilot@.len() <= bound,
            build_from(*net, pilot@, i as nat, (bound - i) as nat) == pilot_of(*net),
            states_ok(*net, pilot@),
            net.no_reentry() ==> forall|a: int| 0 <= a < pilot@.len() ==> closure_sound(*net, #[trigger] pilot@[a].candidates, a == 0),
            ids_by_position(pilot@),
            net.no_reentry() && pilot@.len() <= i32::MAX ==> forall|a: int| 0 <= a < i ==> #[trigger] well_indexed_at(pilot@, a),
        decreases bound - i,
    {
        let ghost st0 = pilot@;
        let ghost src = st0[i as int].candidates;
        assert(pilot.states@[i as int]@ == st0[i as int]);
        proof {
            assert(cands_ok(*net, st0[i as int].candidates));
            lemma_cands_in_net(*net, src);
        }
        let syms = collect_transitions(&pilot.states[i], net);
        let mut xions: Vec<PilotTransition> = Vec::new();
        let mut k: usize = 0;
        while k < syms.len()
            invariant
                net.wf(),
                i < st0.len(),
                src == st0[i as int].candidates,
                cands_ok(*net, src),
                cands_in_net(*net, src),
                syms@ == collect_spec(*net, src),
                k <= syms@.len(),
                st0.len() <= pilot@.len(),
                forall|j: int| 0 <= j < st0.len() ==> pilot@[j] == st0[j],
                (pilot@, xions@.map_values(|t: PilotTransition| t@)) == shift_all(*net, st0, src, syms@.take(k as int)),
                states_ok(*net, pilot@),
                net.no_reentry() ==> forall|a: int| 0 <= a < pilot@.len() ==> closure_sound(*net, #[trigger] pilot@[a].candidates, a == 0),
                ids_by_position(pilot@),
                net.no_reentry() && pilot@.len() <= i32::MAX ==> forall|a: int| 0 <= a < i ==> #[trigger] well_indexed_at(pilot@, a),
                net.no_reentry() && pilot@.len() <= i32::MAX ==> forall|y: int| 0 <= y < xions@.len() ==> entry_ok(pilot@, src.len() as int, #[trigger] xions@[y]@),
            decreases syms@.len() - k,
        {
            assert(syms@.take(k + 1).drop_last() == syms@.take(k as int));
            assert(pilot.states@[i as int]@ == pilot@[i as int]);
            let ghost sv = shift_spec(*net, src, syms@[k as int]);
            let (mut trans, new_state) = shift(&pilot.states[i], net, syms[k]);
            proof {
                lemma_shift_ok(*net, src, syms@[k as int]);
                assert(new_state@.transitions =~= Seq::<TransitionView>::empty());
                assert(new_state@ == StateView { id: -1i32, candidates: sv.candidates, transitions: Seq::empty() });
            }
            let ghost p0 = pilot@;
            let ghost kernel = new_state.candidates@;
            let fresh = copy_candidates(&new_state.candidates);
            let n_src = pilot.states[i].candidates.len();
            proof {
                assert(n_src == src.len());
                lemma_shift_map_bounds(*net, src, syms@[k as int]);
            }
            proof {
                if net.no_reentry() {
                    lemma_shift_base(*net, src, syms@[k as int]);
                }
            }
            let (id, idx) = pilot.insert(new_state, net);
            proof {
                if net.no_reentry() {
                    assert forall|a: int| 0 <= a < pilot@.len() implies closure_sound(*net, #[trigger] pilot@[a].candidates, a == 0) by {
                        if a < p0.len() {
                            assert(pilot@[a] == p0[a]);
                        } else {
                            assert(pilot@.len() == p0.len() + 1);
                            let cs = pilot@[a].candidates;
                            assert(cs == pilot@.last().candidates);
                            assert(kernel.len() <= cs.len());
                            assert forall|j: int| 0 <= j < kernel.len() implies (#[trigger] cs[j]).state != 0 || (a == 0 && j == 0 && cs[j] == seed(*net)) by {
                                assert(cs.take(kernel.len() as int)[j] == kernel[j]);
                            }
                            assert(derived_after(*net, cs, kernel.len() as int));
                        }
                    }
                }
            }
            trans.dest_id = id;
            let new_map = remap_map(&trans.candidate_map, &fresh, &pilot.states[idx].candidates);
            trans.candidate_map = new_map;
            proof {
                assert(pilot@[idx as int] == pilot.states@[idx as int]@);
                assert forall|a: int| 0 <= a < pilot@.len() && a <= i32::MAX implies #[trigger] pilot@[a].id == a by {
                    if a < p0.len() {
                        assert(pilot@[a] == p0[a]);
                    }
                }
                if net.no_reentry() && pilot@.len() <= i32::MAX {
                    assert forall|a: int| 0 <= a < i implies #[trigger] well_indexed_at(pilot@, a) by {
                        lemma_indexed_grow(p0, pilot@, a);
                    }
                    let dest = pilot@[idx as int].candidates;
                    assert forall|j: int| 0 <= j < fresh@.len() implies dest.contains(#[trigger] fresh@[j]) by {
                        if (idx as int) < p0.len() {
                            assert(fresh@[j].state != 0);
                            assert(base_of(fresh@).contains(fresh@[j]));
                            assert(base_of(dest).contains(fresh@[j]));
                        } else {
                            assert(pilot@.len() == p0.len() + 1);
                            assert(dest == pilot@.last().candidates);
                            assert(dest.take(kernel.len() as int)[j] == fresh@[j]);
                        }
                    }
                    lemma_remap_bounds(sv.candidate_map, fresh@, dest, src.len() as int);
                    assert(trans.dest_id == idx);
                    assert(entry_ok(pilot@, src.len() as int, trans@));
                    assert forall|y: int| 0 <= y < xions@.len() implies entry_ok(pilot@, src.len() as int, #[trigger] xions@[y]@) by {
                        lemma_entry_grow(p0, pilot@, src.len() as int, xions@[y]@);
                    }
                }
            }
            let ghost x0 = xions@.map_values(|t: PilotTransition| t@);
            let ghost xs0 = xions@;
            xions.push(trans);
            assert(xions@.map_values(|t: PilotTransition| t@) =~= x0.push(trans@));
            proof {
                if net.no_reentry() && pilot@.len() <= i32::MAX {
                    assert forall|y: int| 0 <= y < xions@.len() implies entry_ok(pilot@, src.len() as int, #[trigger] xions@[y]@) by {
                        if y < xs0.len() {
                            assert(xions@[y] == xs0[y]);
                        }
                    }
                }
            }
            k += 1;
        }
        assert(syms@.take(k as int) == syms@);
        let ghost st1 = pilot@;
        let ghost tr = xions@.map_values(|t: PilotTransition| t@);
        pilot.states[i].transitions = xions;
        proof {
            assert(pilot@ =~= st1.update(i as int, StateView { id: st1[i as int].id, candidates: st1[i as int].candidates, transitions: tr }));
            assert(pilot@ == process(*net, st0, i as int));
            assert forall|a: int| 0 <= a < pilot@.len() implies cands_ok(*net, #[trigger] pilot@[a].candidates) by {
                assert(cands_ok(*net, st1[a].candidates));
            }
            assert forall|a: int, b: int| 0 <= a < b < pilot@.len() implies base_of(#[trigger] pilot@[a].candidates) != base_of(#[trigger] pilot@[b].candidates) by {
                assert(base_of(st1[a].candidates) != base_of(st1[b].candidates));
            }
            lemma_states_bound(*net, pilot@);
            if net.no_reentry() {
                assert forall|a: int| 0 <= a < pilot@.len() implies closure_sound(*net, #[trigger] pilot@[a].candidates, a == 0) by {
                    assert(pilot@[a].candidates == st1[a].candidates);
                }
            }
            assert forall|a: int| 0 <= a < pilot@.len() && a <= i32::MAX implies #[trigger] pilot@[a].id == a by {
                assert(pilot@[a].id == st1[a].id);
            }
            if net.no_reentry() && pilot@.len() <= i32::MAX {
                assert forall|a: int| 0 <= a < i + 1 implies #[trigger] well_indexed_at(pilot@, a) by {
                    if a < i {
                        assert(well_indexed_at(st1, a));
                        assert(pilot@[a] == st1[a]);
                        assert forall|k2: int| 0 <= k2 < pilot@[a].transitions.len() implies #[trigger] transition_ok(pilot@, a, k2) by {
                            assert(transition_ok(st1, a, k2));
                            let t = st1[a].transitions[k2];
                            assert(pilot@[t.dest_id as int].candidates == st1[t.dest_id as int].candidates);
                        }
                    } else {
                        assert(pilot@[a].transitions == tr);
                        assert(pilot@[a].candidates == src);
                        assert forall|k2: int| 0 <= k2 < pilot@[a].transitions.len() implies #[trigger] transition_ok(pilot@, a, k2) by {
                            let t = tr[k2];
                            assert(t == xions@[k2]@);
                            assert(entry_ok(st1, src.len() as int, t));
                            assert(pilot@[t.dest_id as int].candidates == st1[t.dest_id as int].candidates);
                        }
                    }
                }
            }
        }
        i += 1;
    }
    proof {
        lemma_state_bound(*net);
        if net.no_reentry() && pilot@.len() <= i32::MAX {
            assert forall|a: int| 0 <= a < pilot@.len() implies #[trigger] well_indexed_at(pilot@, a) by {}
        }
    }
    pilot
}

} // verus!
