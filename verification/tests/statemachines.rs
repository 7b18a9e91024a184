use regex_machine::statemachines::StateMachine;

#[test]
fn construct_dfa() {
    let mut state_machine = StateMachine::new();

    state_machine.add_transition(0, 1, 'a');
    state_machine.add_transition(0, 2, 'c');
    state_machine.add_transition(1, 2, 'b');

    assert!(state_machine.is_dfa())
}

#[test]
fn construct_nfa() {
    let mut state_machine = StateMachine::new();

    state_machine.add_transition(0, 1, 'a');
    state_machine.add_transition(0, 2, 'a');
    state_machine.add_transition(1, 2, 'b');

    assert!(!state_machine.is_dfa())
}
