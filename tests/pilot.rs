use flc::elr_pilot::{create_pilot, Candidate, Pilot};
use flc::fsm::{BaseMachine, BaseState, Machine, StateLabel, Transition};
use flc::mnet::MachineNet;

fn machine(name: char, states: Vec<(i32, bool, Vec<(char, i32)>)>) -> Machine {
    BaseMachine {
        label: name,
        states: states
            .into_iter()
            .map(|(id, fin, ts)| BaseState {
                id,
                label: StateLabel { id, m_name: name },
                transitions: ts.into_iter().map(|(label, dest_id)| Transition { label, dest_id }).collect(),
                is_initial: id == 0,
                is_final: fin,
            })
            .collect(),
    }
}

fn cand(machine: char, state: i32, lookahead: char, is_final: bool) -> Candidate {
    Candidate { machine, state, lookahead, is_final }
}

fn total_conflicts(p: &Pilot) -> (usize, usize, usize) {
    let mut sr = 0;
    let mut rr = 0;
    let mut cv = 0;
    for s in &p.states {
        sr += s.shift_reduce_conflicts().len();
        rr += s.reduce_reduce_conflicts().len();
        cv += s.convergence_conflicts().len();
    }
    (sr, rr, cv)
}

fn net_a() -> MachineNet {
    MachineNet { machines: vec![machine('S', vec![(0, false, vec![('a', 1)]), (1, true, vec![])])] }
}

fn net_b() -> MachineNet {
    MachineNet {
        machines: vec![
            machine('S', vec![(0, false, vec![('A', 1)]), (1, true, vec![])]),
            machine('A', vec![(0, false, vec![('x', 1)]), (1, true, vec![])]),
        ],
    }
}

fn net_c() -> MachineNet {
    MachineNet {
        machines: vec![
            machine('S', vec![(0, false, vec![('a', 1), ('B', 2)]), (1, true, vec![]), (2, true, vec![])]),
            machine('B', vec![(0, false, vec![('a', 1)]), (1, true, vec![])]),
        ],
    }
}

fn net_d() -> MachineNet {
    MachineNet {
        machines: vec![
            machine('S', vec![(0, false, vec![('A', 1)]), (1, true, vec![])]),
            machine(
                'A',
                vec![
                    (0, false, vec![('y', 1), ('x', 2)]),
                    (1, false, vec![('x', 2), ('A', 3)]),
                    (2, true, vec![]),
                    (3, true, vec![]),
                ],
            ),
        ],
    }
}

#[test]
fn single_machine_pilot() {
    let p = create_pilot(&net_a());
    assert_eq!(p.states.len(), 2);
    let n_trans: usize = p.states.iter().map(|s| s.transitions.len()).sum();
    assert_eq!(n_trans, 1);
    assert_eq!(p.states[0].transitions[0].character, 'a');
    assert_eq!(p.states[0].transitions[0].dest_id, 1);
    assert_eq!(p.states[0].candidates, vec![cand('S', 0, '$', false)]);
    assert_eq!(p.states[1].candidates, vec![cand('S', 1, '$', true)]);
    assert_eq!(total_conflicts(&p), (0, 0, 0));
}

#[test]
fn nonterminal_call_pilot() {
    let p = create_pilot(&net_b());
    assert_eq!(p.states.len(), 3);
    assert_eq!(p.states[0].candidates, vec![cand('S', 0, '$', false), cand('A', 0, '$', false)]);
    let on_x = p.states[0].transitions.iter().find(|t| t.character == 'x').unwrap();
    let dest = p.lookup_state(on_x.dest_id);
    assert!(dest.candidates.contains(&cand('A', 1, '$', true)));
    let on_a = p.states[0].transitions.iter().find(|t| t.character == 'A').unwrap();
    assert_eq!(p.lookup_state(on_a.dest_id).candidates, vec![cand('S', 1, '$', true)]);
    assert_eq!(total_conflicts(&p), (0, 0, 0));
}

#[test]
fn reduce_reduce_pilot() {
    let p = create_pilot(&net_c());
    let (sr, rr, cv) = total_conflicts(&p);
    assert_eq!((sr, rr, cv), (0, 1, 0));
    let st = p.states.iter().find(|s| !s.reduce_reduce_conflicts().is_empty()).unwrap();
    let c = &st.reduce_reduce_conflicts()[0];
    assert_eq!(c.state_id, st.id);
    assert_eq!(st.candidates[c.candidate_1_idx], cand('S', 1, '$', true));
    assert_eq!(st.candidates[c.candidate_2_idx], cand('B', 1, '$', true));
    assert_eq!((c.candidate_1_idx, c.candidate_2_idx), (0, 1));
}

#[test]
fn convergence_pilot() {
    let p = create_pilot(&net_d());
    assert_eq!(p.states.len(), 5);
    let (sr, rr, cv) = total_conflicts(&p);
    assert_eq!((sr, rr, cv), (0, 0, 1));
    let st = p.lookup_state(3);
    assert_eq!(st.candidates, vec![cand('A', 1, '$', false), cand('A', 0, '$', false)]);
    let c = st.convergence_conflicts()[0];
    assert_eq!(c.state_1_id, 3);
    assert_eq!(c.candidate_1_1_idx, 0);
    assert_eq!(c.candidate_1_2_idx, 1);
    assert_eq!(c.transition_char, 'x');
    assert_eq!(c.state_2_id, 2);
    assert_eq!(c.candidate_2_idx, 0);
    let t = st.transitions.iter().find(|t| t.character == 'x').unwrap();
    assert_eq!(t.multiplicity, 2);
    assert_eq!(t.candidate_map, vec![(0, 0), (1, 0)]);
}

#[test]
fn pilot_is_deterministic() {
    let p1 = create_pilot(&net_d());
    let p2 = create_pilot(&net_d());
    assert_eq!(p1.states.len(), p2.states.len());
    for (a, b) in p1.states.iter().zip(p2.states.iter()) {
        assert_eq!(a.id, b.id);
        assert_eq!(a.candidates, b.candidates);
        assert_eq!(a.transitions, b.transitions);
    }
}

#[test]
fn pilot_states_have_distinct_bases() {
    let p = create_pilot(&net_d());
    for (i, a) in p.states.iter().enumerate() {
        assert_eq!(a.id, i as i32);
        for b in &p.states[i + 1..] {
            assert!(!a.is_equivalent(b));
        }
    }
}

#[test]
fn closure_candidates_follow_from_calls() {
    let p = create_pilot(&net_d());
    for s in &p.states {
        for c in &s.candidates {
            if c.state == 0 {
                assert!(c.machine == 'A' || (s.id == 0 && c.machine == 'S'));
            }
        }
    }
    assert_eq!(p.states[0].candidates, vec![cand('S', 0, '$', false), cand('A', 0, '$', false)]);
}

#[test]
fn transitions_are_sorted_by_symbol() {
    let p = create_pilot(&net_d());
    let syms: Vec<char> = p.states[3].transitions.iter().map(|t| t.character).collect();
    assert_eq!(syms, vec!['A', 'x', 'y']);
    assert_eq!(p.states[3].transitions[2].dest_id, 3);
}

#[test]
fn shift_reduce_detected() {
    let net = MachineNet {
        machines: vec![
            machine('S', vec![(0, false, vec![('A', 1)]), (1, true, vec![])]),
            machine('A', vec![(0, false, vec![('a', 1)]), (1, true, vec![('a', 1)])]),
        ],
    };
    let p = create_pilot(&net);
    let (sr, _, _) = total_conflicts(&p);
    assert_eq!(sr, 0);
    let net2 = MachineNet {
        machines: vec![
            machine('S', vec![(0, false, vec![('A', 1)]), (1, false, vec![('a', 2)]), (2, true, vec![])]),
            machine('A', vec![(0, true, vec![('a', 1)]), (1, true, vec![])]),
        ],
    };
    let p2 = create_pilot(&net2);
    let c = p2.states[0].shift_reduce_conflicts();
    assert_eq!(c.len(), 1);
    assert_eq!(p2.states[0].candidates[c[0].candidate_idx], cand('A', 0, 'a', true));
}

#[test]
fn base_set_and_equivalence() {
    let p = create_pilot(&net_d());
    let b = p.states[3].base_set();
    assert_eq!(b, vec![cand('A', 1, '$', false)]);
    assert!(p.states[0].base_set().is_empty());
    assert!(p.states[3].is_equivalent(&p.states[3]));
    assert!(!p.states[3].is_equivalent(&p.states[2]));
}

#[test]
fn pilot_drawing() {
    let p = create_pilot(&net_a());
    let expected = [
        "digraph {",
        "  node [shape=\"plain\", forcelabels=true];",
        "  i0 [label=<",
        "    <table border=\"0\" cellborder=\"1\" cellspacing=\"0\">",
        "    <tr><td colspan=\"2\" sides=\"t\"></td></tr>",
        "    <tr><td sides=\"ltb\">0<sub>S</sub></td><td sides=\"trb\">⊣</td></tr>",
        "    </table>",
        "  >, xlabel=<I<sub>0</sub>>];",
        "  i0 -> i1 [label=\"a\"];",
        "  i1 [label=<",
        "    <table border=\"0\" cellborder=\"1\" cellspacing=\"0\">",
        "    <tr><td sides=\"ltb\">(1<sub>S</sub>)</td><td sides=\"trb\">⊣</td></tr>",
        "    <tr><td colspan=\"2\" sides=\"b\"></td></tr>",
        "    </table>",
        "  >, xlabel=<I<sub>1</sub>>];",
        "}",
    ]
    .join("\n");
    assert_eq!(p.to_dot(), expected);
}

#[test]
fn pilot_drawing_doubles_merged_shifts() {
    let p = create_pilot(&net_d());
    let dot = p.to_dot();
    assert!(dot.contains("  i3 -> i2 [label=\"x\", color = \"black:black\"];"));
    assert!(dot.contains("  i0 -> i1 [label=\"A\"];"));
    assert!(dot.contains("    <tr><td sides=\"ltb\">1<sub>A</sub></td><td sides=\"trb\">⊣</td></tr>\n    <tr><td colspan=\"2\" border=\"0\"></td></tr>\n    <tr><td sides=\"ltb\">0<sub>A</sub></td><td sides=\"trb\">⊣</td></tr>"));
}

#[test]
fn merged_lookaheads_are_sorted() {
    // A is entered from S, followed by c, and from T, followed by b
    let net = MachineNet {
        machines: vec![
            machine('S', vec![(0, false, vec![('A', 1), ('T', 3)]), (1, false, vec![('c', 2)]), (2, true, vec![]), (3, false, vec![('b', 2)])]),
            machine('T', vec![(0, false, vec![('A', 1)]), (1, true, vec![])]),
            machine('A', vec![(0, false, vec![('x', 1)]), (1, true, vec![])]),
        ],
    };
    let p = create_pilot(&net);
    let dot = p.to_dot();
    assert!(dot.contains("<td sides=\"ltb\">0<sub>A</sub></td><td sides=\"trb\">b,c</td>"));
    assert!(dot.contains("<td sides=\"ltb\">0<sub>S</sub></td><td sides=\"trb\">⊣</td></tr>\n    <tr><td sides=\"ltb\">0<sub>A</sub>"));
}

#[test]
fn conflict_free_pilot_has_one_action_per_lookahead() {
    let p = create_pilot(&net_b());
    assert_eq!(total_conflicts(&p), (0, 0, 0));
    for s in &p.states {
        for (i, c) in s.candidates.iter().enumerate() {
            if c.is_final {
                assert!(s.transitions.iter().all(|t| t.character != c.lookahead));
                for d in &s.candidates[i + 1..] {
                    assert!(!(d.is_final && d.lookahead == c.lookahead));
                }
            }
        }
        for t in &s.transitions {
            let mut dests: Vec<usize> = t.candidate_map.iter().map(|(_, d)| *d).collect();
            dests.sort();
            dests.dedup();
            assert_eq!(dests.len(), t.candidate_map.len());
        }
    }
}

#[test]
fn pilot_size_is_bounded_by_base_sets() {
    // two states and the lookaheads a and $: four triples, at most 2^4 pilot states
    let p = create_pilot(&net_a());
    assert!(p.states.len() <= 16);
    let p = create_pilot(&net_d());
    let mut bases: Vec<Vec<Candidate>> = p.states.iter().map(|s| s.base_set()).collect();
    bases.sort_by_key(|b| format!("{:?}", b));
    bases.dedup();
    assert_eq!(bases.len(), p.states.len());
}

#[test]
fn candidate_map_points_into_existing_destination() {
    // S: 0 -x-> 3, 0 -y-> 4; 3 calls P then Q, 4 calls Q then P; both reach 5 (final)
    let net = MachineNet {
        machines: vec![
            machine('S', vec![
                (0, false, vec![('x', 3), ('y', 4)]),
                (3, false, vec![('P', 5), ('Q', 5)]),
                (4, false, vec![('Q', 5), ('P', 5)]),
                (5, true, vec![]),
            ]),
            machine('P', vec![(0, false, vec![('d', 1)]), (1, true, vec![])]),
            machine('Q', vec![(0, false, vec![('d', 1)]), (1, true, vec![])]),
        ],
    };
    let p = create_pilot(&net);
    assert_eq!(p.states[1].candidates, vec![cand('S', 3, '$', false), cand('P', 0, '$', false), cand('Q', 0, '$', false)]);
    assert_eq!(p.states[2].candidates, vec![cand('S', 4, '$', false), cand('Q', 0, '$', false), cand('P', 0, '$', false)]);
    let t1 = p.states[1].transitions.iter().find(|t| t.character == 'd').unwrap();
    let t2 = p.states[2].transitions.iter().find(|t| t.character == 'd').unwrap();
    assert_eq!(t1.dest_id, t2.dest_id);
    let dest = p.lookup_state(t1.dest_id);
    assert_eq!(dest.candidates, vec![cand('P', 1, '$', true), cand('Q', 1, '$', true)]);
    assert_eq!(t1.candidate_map, vec![(1, 0), (2, 1)]);
    assert_eq!(t2.candidate_map, vec![(1, 1), (2, 0)]);
    for (s, d) in &t2.candidate_map {
        let src = p.states[2].candidates[*s];
        assert_eq!((src.machine, src.lookahead), (dest.candidates[*d].machine, dest.candidates[*d].lookahead));
    }
}
