use regex_machine::StateMachine;

#[test]
fn simple_matching() {
    let reg = "a.c";
    let state_machine: StateMachine = reg.parse().unwrap();

    assert!(state_machine.matches("abc"));
    assert!(state_machine.matches("_abc_"));

    assert!(!state_machine.matches("abb"));
    assert!(!state_machine.matches("ac"));
}

#[test]
fn repeat_matching() {
    let reg = "ab*c";
    let state_machine: StateMachine = reg.parse().unwrap();

    assert!(state_machine.matches("ac"));
    assert!(state_machine.matches("abc"));
    assert!(state_machine.matches("abbc"));
    assert!(state_machine.matches("_abbbbc_"));

    assert!(!state_machine.matches("abb"));
    assert!(!state_machine.matches("bbc"));
    assert!(!state_machine.matches("adc"));
}

#[test]
fn repeat_wildcard_matching() {
    let reg = "a.*c";
    let state_machine: StateMachine = reg.parse().unwrap();

    assert!(state_machine.matches("ac"));
    assert!(state_machine.matches("apc"));
    assert!(state_machine.matches("axyc"));
    assert!(state_machine.matches("_a12345c_"));

    assert!(!state_machine.matches("abb"));
    assert!(!state_machine.matches("sdhkjdhc"));
}

#[test]
fn single_option() {
    let reg = "a.*b|cd";
    let state_machine: StateMachine = reg.parse().unwrap();

    assert!(state_machine.matches("_ab_"));
    assert!(state_machine.matches("_aajsldkb_"));
    assert!(state_machine.matches("_cd_"));
    assert!(state_machine.matches("_abcd_"));

    assert!(!state_machine.matches("bc"));
    assert!(!state_machine.matches("cb"));
}

#[test]
fn multiple_option() {
    let reg = "ab|cd|ef|gh";
    let state_machine: StateMachine = reg.parse().unwrap();

    assert!(state_machine.matches("_ab_"));
    assert!(state_machine.matches("_cd"));
    assert!(state_machine.matches("_ef"));
    assert!(state_machine.matches("_gh"));

    assert!(!state_machine.matches("ce"));
    assert!(!state_machine.matches("ah"));
}

#[test]
fn groups() {
    let reg = "a(b|c)d";
    let state_machine: StateMachine = reg.parse().unwrap();

    assert!(state_machine.matches("abd"));
    assert!(state_machine.matches("acd"));

    assert!(!state_machine.matches("abcd"));
    assert!(!state_machine.matches("ad"));
}
