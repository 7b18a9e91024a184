use regex_machine::PatternError;
use regex_machine::StateMachine;

#[test]
fn literal_matching() {
    let state_machine: StateMachine = "abcd".parse().unwrap();

    assert!(state_machine.matches("abcd"));
    assert!(state_machine.matches("_abcd_"));

    assert!(!state_machine.matches("abc"));
    assert!(!state_machine.matches("_abc_"));
}

#[test]
fn wildcard_matching() {
    let state_machine: StateMachine = "a.c.".parse().unwrap();

    assert!(state_machine.matches("abcd"));
    assert!(state_machine.matches("aacc"));
    assert!(state_machine.matches("_aacc_"));

    assert!(!state_machine.matches("abc"));
    assert!(!state_machine.matches("_abc"));
}

#[test]
fn determinization_is_idempotent() {
    let nfa = StateMachine::build_nfa("a.*b|cd").unwrap();
    let dfa = nfa.to_dfa();
    let again = dfa.to_dfa();

    assert!(dfa.is_dfa());
    assert_eq!(dfa.to_dot(), again.to_dot());
}

#[test]
fn determinized_output_passes_the_check() {
    for pattern in ["abcd", "a.c.", "ab*c", "a.*c", "ab|cd|ef|gh", "a(b|c)d", "a.*b|cd"] {
        let nfa = StateMachine::build_nfa(pattern).unwrap();
        assert!(nfa.to_dfa().is_dfa());
        let parsed: StateMachine = pattern.parse().unwrap();
        assert!(parsed.is_dfa());
    }
}

#[test]
fn empty_pattern_is_rejected() {
    assert_eq!("".parse::<StateMachine>().unwrap_err(), PatternError::EmptyPattern);
}

#[test]
fn unmatched_close_is_rejected() {
    assert_eq!("a)b".parse::<StateMachine>().unwrap_err(), PatternError::UnmatchedClose(1));
}

#[test]
fn unmatched_open_is_rejected() {
    assert_eq!("(ab".parse::<StateMachine>().unwrap_err(), PatternError::UnmatchedOpen(0));
    assert_eq!("a((b".parse::<StateMachine>().unwrap_err(), PatternError::UnmatchedOpen(2));
}

#[test]
fn misplaced_star_is_rejected() {
    assert_eq!("*a".parse::<StateMachine>().unwrap_err(), PatternError::MisplacedStar(0));
    assert_eq!("a(*)".parse::<StateMachine>().unwrap_err(), PatternError::MisplacedStar(2));
    assert_eq!("a|*".parse::<StateMachine>().unwrap_err(), PatternError::MisplacedStar(2));
    assert_eq!("ab**".parse::<StateMachine>().unwrap_err(), PatternError::MisplacedStar(3));
}

#[test]
fn empty_machine_matches_nothing() {
    let machine = StateMachine::new();
    assert!(machine.is_dfa());
    assert!(!machine.matches("anything"));
    assert!(!machine.matches(""));
}

#[test]
fn empty_text_never_matches() {
    let state_machine: StateMachine = "a".parse().unwrap();
    assert!(!state_machine.matches(""));
}

#[test]
fn anchors_are_never_crossed() {
    // The walk consumes characters only, so a path through an anchor
    // transition accepts nothing.
    let state_machine: StateMachine = "^a".parse().unwrap();
    assert!(!state_machine.matches("a"));
    assert!(!state_machine.matches("^a"));
}

#[test]
fn start_composite_can_be_final() {
    // The open alternation leaves the pattern start accepting, so after
    // subset construction the start composite shares a member with the
    // input's final states and is marked final itself.
    let state_machine: StateMachine = "a|a|".parse().unwrap();
    assert_eq!(
        state_machine.to_dot(),
        "digraph graphname{\n\"[0]\" -> \"[1, 2]\" [ label=\"'a'\" ]\n\"[0]\" [ shape=doublecircle ]\n\"[1, 2]\" [ shape=doublecircle ]\n}"
    );
    assert!(state_machine.matches("a"));
    assert!(!state_machine.matches("b"));
}

#[test]
fn readding_a_transition_is_a_no_op() {
    let mut state_machine = regex_machine::statemachines::StateMachine::new();
    state_machine.add_transition(0, 1, 'a');
    state_machine.add_transition(0, 1, 'a');
    assert!(state_machine.is_dfa());
}

#[test]
fn dot_rendering() {
    let state_machine: StateMachine = "ab".parse().unwrap();
    assert_eq!(
        state_machine.to_dot(),
        "digraph graphname{\n\"[0]\" -> \"[1]\" [ label=\"'a'\" ]\n\"[1]\" -> \"[2]\" [ label=\"'b'\" ]\n\"[2]\" [ shape=doublecircle ]\n}"
    );
}

#[test]
fn dot_rendering_of_anchors() {
    let state_machine: StateMachine = "^a$".parse().unwrap();
    assert_eq!(
        state_machine.to_dot(),
        "digraph graphname{\n\"[0]\" -> \"[1]\" [ label=\"^\" ]\n\"[1]\" -> \"[2]\" [ label=\"'a'\" ]\n\"[2]\" -> \"[3]\" [ label=\"$\" ]\n\"[3]\" [ shape=doublecircle ]\n}"
    );
}
