use log_lexer::nfa::{State, Transition, NFA};

#[test]
fn nfa_epsilon_closure() {
    let mut nfa = NFA::new();
    for _ in 0..=10 {
        _ = nfa.new_state();
    }
    nfa.add_epsilon_transition(NFA::start_state(), NFA::accept_state());
    nfa.add_epsilon_transition(NFA::accept_state(), State(2));
    nfa.add_epsilon_transition(NFA::start_state(), State(2));
    nfa.add_transition(
        State(2),
        State(3),
        Transition::convert_char_to_symbol_onehot_encoding('a'),
    );
    nfa.add_epsilon_transition(State(3), State(5));
    nfa.add_epsilon_transition(State(3), State(4));
    nfa.add_epsilon_transition(State(4), State(6));
    nfa.add_epsilon_transition(State(6), State(3));

    let closure = nfa.epsilon_closure(&vec![NFA::start_state()]);
    assert_eq!(closure.len(), 3);
    assert_eq!(closure.contains(&NFA::start_state()), true);
    assert_eq!(closure.contains(&NFA::accept_state()), true);
    assert_eq!(closure.contains(&State(2)), true);

    let closure = nfa.epsilon_closure(&vec![State(3)]);
    assert_eq!(closure.len(), 4);
    assert_eq!(closure.contains(&State(3)), true);
    assert_eq!(closure.contains(&State(4)), true);
    assert_eq!(closure.contains(&State(5)), true);
    assert_eq!(closure.contains(&State(6)), true);
}

#[test]
fn test_convert_char_range() {
    assert_eq!(
        Transition::convert_char_range_to_symbol_onehot_encoding(None),
        0
    );
    assert_eq!(
        Transition::convert_char_range_to_symbol_onehot_encoding(Some((b'0', b'9'))),
        0x000000000000000003ff000000000000u128
    );
    assert_eq!(
        Transition::convert_char_to_symbol_onehot_encoding('a'),
        1u128 << (b'a' as u32)
    );
    assert_eq!(
        Transition::convert_char_vec_to_symbol_onehot_encoding(vec![b'0', b'5', b'9']),
        (1u128 << (b'0' as u32)) | (1u128 << (b'5' as u32)) | (1u128 << (b'9' as u32))
    );
}

#[test]
fn test_transition_accessors() {
    let t = Transition::new(
        State(0),
        State(1),
        Transition::convert_char_range_to_symbol_onehot_encoding(Some((b'a', b'c'))),
        -1,
    );
    assert_eq!(t.get_to_state(), State(1));
    assert_eq!(
        t.get_symbol_onehot_encoding(),
        Transition::convert_char_range_to_symbol_onehot_encoding(Some((b'a', b'c')))
    );
    assert_eq!(t.get_symbol(), vec!['a', 'b', 'c']);
}

#[test]
fn test_get_transitions_from_state() {
    let mut nfa = NFA::new();
    nfa.add_epsilon_transition(NFA::start_state(), NFA::accept_state());
    let edges = nfa.get_transitions_from_state(&NFA::start_state()).unwrap();
    assert_eq!(edges.len(), 1);
    assert_eq!(edges[0].get_to_state(), NFA::accept_state());
    assert!(nfa.get_transitions_from_state(&State(99)).is_none());
    assert_eq!(nfa.get_transitions().len(), 2);
    assert_eq!(nfa.get_start(), State(0));
    assert_eq!(nfa.get_accept(), State(1));
}

#[test]
fn test_combined_state_names_sorts_as_strings() {
    let names = NFA::get_combined_state_names(&vec![State(10), State(2), State(1)]);
    assert_eq!(names.as_str(), "1,10,2");
    let empty = NFA::get_combined_state_names(&vec![]);
    assert_eq!(empty.as_str(), "");
    let single = NFA::get_combined_state_names(&vec![State(7)]);
    assert_eq!(single.as_str(), "7");
}
