use flc::elr_pilot::{create_pilot, Candidate};
use flc::fsm::{BaseMachine, BaseState, Machine, NumMachine, StateLabel, Transition};
use flc::mnet::MachineNet;
use flc::reg_lang::{set_prod, NumTerm};

fn machine(name: char, states: Vec<(i32, bool, bool, Vec<(char, i32)>)>) -> Machine {
    BaseMachine {
        label: name,
        states: states
            .into_iter()
            .map(|(id, ini, fin, ts)| BaseState {
                id,
                label: StateLabel { id, m_name: name },
                transitions: ts.into_iter().map(|(label, dest_id)| Transition { label, dest_id }).collect(),
                is_initial: ini,
                is_final: fin,
            })
            .collect(),
    }
}

fn sorted(mut v: Vec<char>) -> Vec<char> {
    v.sort();
    v
}

fn expr_net() -> MachineNet {
    // S: 0 -E-> 1 -b-> 2 (final); E: 0 -x-> 1 (final), 1 -c-> 2 (final)
    MachineNet {
        machines: vec![
            machine('S', vec![(0, true, false, vec![('E', 1)]), (1, false, false, vec![('b', 2)]), (2, false, true, vec![])]),
            machine('E', vec![(0, true, false, vec![('x', 1)]), (1, false, true, vec![('c', 2)]), (2, false, true, vec![])]),
        ],
    }
}

#[test]
fn followers_of_final_state_include_continuation() {
    let net = expr_net();
    assert_eq!(sorted(net.followers('E', 1, vec!['$'])), vec!['$', 'c']);
    assert_eq!(net.followers('E', 2, vec!['$', 'q']), vec!['$', 'q']);
}

#[test]
fn followers_through_call() {
    let net = expr_net();
    assert_eq!(net.followers('S', 0, vec!['$']), vec!['x']);
    assert_eq!(net.followers('S', 1, vec!['$']), vec!['b']);
    assert_eq!(net.followers('S', 2, vec!['$']), vec!['$']);
}

#[test]
fn followers_of_nullable_call() {
    // S: 0 -N-> 1 -d-> 2 (final); N: 0 (final) -n-> 1 (final)
    let net = MachineNet {
        machines: vec![
            machine('S', vec![(0, true, false, vec![('N', 1)]), (1, false, false, vec![('d', 2)]), (2, false, true, vec![])]),
            machine('N', vec![(0, true, true, vec![('n', 1)]), (1, false, true, vec![])]),
        ],
    };
    assert_eq!(sorted(net.followers('S', 0, vec!['$'])), vec!['d', 'n']);
}

#[test]
fn lookups() {
    let net = expr_net();
    assert_eq!(net.lookup_machine('E').label, 'E');
    assert!(net.try_lookup_machine('Q').is_none());
    assert_eq!(net.lookup_state('E', 1).id, 1);
    assert!(net.lookup_state('E', 1).is_final);
    assert!(net.try_lookup_state('E', 7).is_none());
    assert!(net.try_lookup_state('Q', 0).is_none());
    let m = net.lookup_machine('S');
    assert_eq!(m.initial_states_ids(), vec![0]);
    assert_eq!(m.final_states_ids(), vec![2]);
    assert!(m.try_lookup_state(3).is_none());
    let into_2: Vec<(i32, char)> = net.lookup_machine('E').transitions_to(2).iter().map(|(s, t)| (*s, t.label)).collect();
    assert_eq!(into_2, vec![(1, 'c')]);
}

#[test]
fn transition_kinds() {
    assert!(Transition { label: 'E', dest_id: 1 }.is_nonterminal());
    assert!(!Transition { label: 'e', dest_id: 1 }.is_nonterminal());
    assert!(Transition { label: '_', dest_id: 1 }.is_epsilon());
    assert!(!Transition { label: 'a', dest_id: 1 }.is_epsilon());
}

#[test]
fn candidate_text() {
    let c = Candidate { machine: 'S', state: 1, lookahead: '$', is_final: true };
    assert_eq!(c.to_string(), "<(1S), $>");
    let d = Candidate { machine: 'E', state: 12, lookahead: 'b', is_final: false };
    assert_eq!(d.to_string(), "<12E, b>");
    let e = Candidate { machine: 'E', state: -3, lookahead: 'b', is_final: false };
    assert_eq!(e.to_string(), "<-3E, b>");
}

#[test]
fn messages_without_conflicts() {
    let p = create_pilot(&expr_net());
    assert!(p.is_well_indexed());
    assert_eq!(p.conflict_messages(), vec!["no conflicts".to_string()]);
}

#[test]
fn messages_for_each_kind() {
    // reduce-reduce: S: 0 -a-> 1 (final), 0 -B-> 2 (final); B: 0 -a-> 1 (final)
    let rr = MachineNet {
        machines: vec![
            machine('S', vec![(0, true, false, vec![('a', 1), ('B', 2)]), (1, false, true, vec![]), (2, false, true, vec![])]),
            machine('B', vec![(0, true, false, vec![('a', 1)]), (1, false, true, vec![])]),
        ],
    };
    let p = create_pilot(&rr);
    assert!(p.is_well_indexed());
    assert_eq!(p.conflict_messages(), vec!["state I2: reduce-reduce conflict between <(1S), $> and <(1B), $>".to_string()]);

    let sr = MachineNet {
        machines: vec![
            machine('S', vec![(0, true, false, vec![('A', 1)]), (1, false, false, vec![('a', 2)]), (2, false, true, vec![])]),
            machine('A', vec![(0, true, true, vec![('a', 1)]), (1, false, true, vec![])]),
        ],
    };
    let p = create_pilot(&sr);
    let msgs = p.conflict_messages();
    assert_eq!(msgs[0], "state I0: shift-reduce conflict between <(0A), a> and outgoing edge 'a'");

    let cv = MachineNet {
        machines: vec![
            machine('S', vec![(0, true, false, vec![('A', 1)]), (1, false, true, vec![])]),
            machine('A', vec![
                (0, true, false, vec![('y', 1), ('x', 2)]),
                (1, false, false, vec![('x', 2), ('A', 3)]),
                (2, false, true, vec![]),
                (3, false, true, vec![]),
            ]),
        ],
    };
    let p = create_pilot(&cv);
    assert_eq!(
        p.conflict_messages(),
        vec!["transition I3 -x-> I2: convergence conflict as both <1A, $> and <0A, $> shift to <(2A), $>".to_string()]
    );
}

#[test]
fn badly_indexed_pilot_is_reported() {
    let mut p = create_pilot(&expr_net());
    p.states[0].id = 5;
    assert!(!p.is_well_indexed());
}

#[test]
fn epsilon_marks_and_removal() {
    // 0 (initial) -_-> 1 -a-> 2 -_-> 3 (final)
    let mut m = machine('M', vec![
        (0, true, false, vec![('_', 1)]),
        (1, false, false, vec![('a', 2)]),
        (2, false, false, vec![('_', 3)]),
        (3, false, true, vec![]),
    ]);
    m.mark_new_final();
    assert_eq!(m.final_states_ids(), vec![2, 3]);
    m.mark_new_initial();
    assert_eq!(m.initial_states_ids(), vec![0, 1]);
    m.remove_epsilon_trans();
    let n: usize = m.states.iter().map(|s| s.transitions.len()).sum();
    assert_eq!(n, 1);
    assert_eq!(m.states[1].transitions[0].label, 'a');
    assert!(m.states[0].transitions.is_empty());
}

#[test]
fn product_of_terminals() {
    let a = vec![NumTerm::new('a', 1), NumTerm::new('b', 2)];
    let b = vec![NumTerm::new('c', 3)];
    let p = set_prod(&a, &b);
    assert_eq!(p, vec![(NumTerm::new('a', 1), NumTerm::new('c', 3)), (NumTerm::new('b', 2), NumTerm::new('c', 3))]);
    assert!(set_prod(&vec![], &b).is_empty());
}

#[test]
fn numbering_letters() {
    let m = machine('M', vec![
        (0, true, false, vec![('a', 1), ('_', 2)]),
        (1, false, false, vec![('b', 2)]),
        (2, false, true, vec![('a', 0)]),
    ]);
    let n = NumMachine::from_machine(m);
    let labels: Vec<(char, usize)> = n.states.iter().flat_map(|s| s.transitions.iter().map(|t| (t.label.c, t.label.i))).collect();
    assert_eq!(labels, vec![('a', 1), ('_', 0), ('b', 2), ('a', 3)]);
    assert!(n.states[1].transitions[0].label.c == 'b');
    assert!(n.states[0].transitions[1].is_epsilon());
    assert!(!n.states[0].transitions[0].is_epsilon());
}

#[test]
fn net_drawing() {
    let net = MachineNet {
        machines: vec![machine('S', vec![(0, true, false, vec![('a', 1)]), (1, false, true, vec![])])],
    };
    let expected = [
        "digraph {",
        "  rankdir=\"LR\";",
        "  node [shape=\"circle\"];",
        "  initS [shape=plain,label=\"S\"];",
        "  nS0 [label=<0<sub>S</sub>>];",
        "  initS -> nS0;",
        "  nS0 -> nS1 [label=\"a\"];",
        "  nS1 [label=<1<sub>S</sub>>];",
        "  sinknS1 [shape=plain,label=\" \"];",
        "  nS1 -> sinknS1;",
        "}",
    ]
    .join("\n");
    assert_eq!(net.to_dot(), expected);
}

#[test]
fn machine_drawing_with_header() {
    let m = machine('M', vec![(0, true, true, vec![('_', 0)])]);
    let expected = [
        "digraph {",
        "  rankdir=\"LR\";",
        "  initM [shape=plain,label=\"M\"];",
        "  nM0 [label=\"0\"];",
        "  initM -> nM0;",
        "  sinknM0 [shape=plain,label=\" \"];",
        "  nM0 -> sinknM0;",
        "  nM0 -> nM0 [label=ε];",
        "}",
    ]
    .join("\n");
    assert_eq!(m.to_dot_2(false, true), expected);
}

fn labels_of(m: &Machine, j: usize) -> Vec<(char, i32)> {
    m.states[j].transitions.iter().map(|t| (t.label, t.dest_id)).collect()
}

#[test]
fn backward_propagation_copies_letters() {
    // 0 (initial) -_-> 1 -a-> 2 (final), 1 -_-> 3 (final)
    let mut m = machine('M', vec![
        (0, true, false, vec![('_', 1)]),
        (1, false, false, vec![('a', 2), ('_', 3)]),
        (2, false, true, vec![]),
        (3, false, true, vec![('b', 2)]),
    ]);
    m.backward_propagation();
    assert_eq!(labels_of(&m, 0), vec![('_', 1), ('a', 2)]);
    assert_eq!(labels_of(&m, 1), vec![('a', 2), ('_', 3), ('b', 2)]);
    assert_eq!(m.final_states_ids(), vec![1, 2, 3]);
    assert_eq!(m.initial_states_ids(), vec![0]);
}

#[test]
fn forward_propagation_extends_letters() {
    // 0 (initial) -a-> 1 -_-> 2 (final); 0 -_-> 3
    let mut m = machine('M', vec![
        (0, true, false, vec![('a', 1), ('_', 3)]),
        (1, false, false, vec![('_', 2)]),
        (2, false, true, vec![]),
        (3, false, false, vec![]),
    ]);
    m.forward_propagation();
    assert_eq!(labels_of(&m, 0), vec![('a', 1), ('_', 3), ('a', 2)]);
    assert_eq!(m.initial_states_ids(), vec![0, 3]);
    assert_eq!(m.final_states_ids(), vec![2]);
}

#[test]
fn propagation_skips_present_transitions() {
    let mut m = machine('M', vec![
        (0, true, false, vec![('_', 1), ('a', 2)]),
        (1, false, false, vec![('a', 2)]),
        (2, false, true, vec![]),
    ]);
    m.backward_propagation();
    assert_eq!(labels_of(&m, 0), vec![('_', 1), ('a', 2)]);
}

#[test]
fn epsilon_closure_is_transitive() {
    let mut m = machine('M', vec![
        (0, true, false, vec![('_', 1)]),
        (1, false, false, vec![('_', 2), ('a', 3)]),
        (2, false, false, vec![('_', 3)]),
        (3, false, true, vec![]),
    ]);
    m.epsilon_trans_closure();
    assert_eq!(labels_of(&m, 0), vec![('_', 1), ('_', 2), ('_', 3)]);
    assert_eq!(labels_of(&m, 1), vec![('_', 2), ('a', 3), ('_', 3)]);
    assert_eq!(labels_of(&m, 2), vec![('_', 3)]);
    assert!(labels_of(&m, 3).is_empty());
}

#[test]
fn epsilon_closure_of_cycle() {
    let mut m = machine('M', vec![
        (0, true, false, vec![('_', 1)]),
        (1, false, true, vec![('_', 0)]),
    ]);
    m.epsilon_trans_closure();
    assert_eq!(labels_of(&m, 0), vec![('_', 1), ('_', 0)]);
    assert_eq!(labels_of(&m, 1), vec![('_', 0), ('_', 1)]);
}

#[test]
fn followers_cut_off_only_on_current_path() {
    // S: 0 -A-> 1, 0 -B-> 1 (1 final); A: 0 -a-> 1 (final); B: 0 (final) -b-> 1 (final)
    let net = MachineNet {
        machines: vec![
            machine('S', vec![(0, true, false, vec![('A', 1), ('B', 1)]), (1, false, true, vec![])]),
            machine('A', vec![(0, true, false, vec![('a', 1)]), (1, false, true, vec![])]),
            machine('B', vec![(0, true, true, vec![('b', 1)]), (1, false, true, vec![])]),
        ],
    };
    assert!(net.is_wf());
    assert_eq!(sorted(net.followers('S', 0, vec!['$'])), vec!['$', 'a', 'b']);
}

#[test]
fn well_formedness_check() {
    assert!(expr_net().is_wf());
    let dangling = MachineNet {
        machines: vec![machine('S', vec![(0, true, false, vec![('a', 4)]), (1, false, true, vec![])])],
    };
    assert!(!dangling.is_wf());
    let unknown_call = MachineNet {
        machines: vec![machine('S', vec![(0, true, false, vec![('Q', 1)]), (1, false, true, vec![])])],
    };
    assert!(!unknown_call.is_wf());
}
