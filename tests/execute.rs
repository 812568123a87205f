use shell::{parse_command, run_builtin, run_command, Action, ParseRes, Parsed};

fn strings(words: &[&str]) -> Vec<String> {
    words.iter().map(|w| w.to_string()).collect()
}

#[test]
fn empty_command_does_nothing() {
    assert!(matches!(run_command(&Vec::new()), Action::Nothing));
}

#[test]
fn cd_changes_directory() {
    match run_command(&strings(&["cd", "/tmp"])) {
        Action::ChangeDir(d) => assert_eq!("/tmp", d),
        _ => panic!("expected ChangeDir"),
    }
}

#[test]
fn cd_without_argument_is_reported() {
    assert!(matches!(run_command(&strings(&["cd"])), Action::MissingDirectory));
}

#[test]
fn other_programs_are_launched() {
    assert!(matches!(run_command(&strings(&["/bin/true"])), Action::Launch));
    assert!(matches!(run_command(&strings(&["cdx", "/tmp"])), Action::Launch));
    assert!(matches!(run_command(&strings(&["c"])), Action::Launch));
}

#[test]
fn cd_line_end_to_end() {
    let words = match parse_command("cd /tmp\n") {
        ParseRes::Success(Parsed::Sentence(v)) => v,
        _ => panic!("expected a sentence"),
    };
    match run_command(&words) {
        Action::ChangeDir(d) => assert_eq!("/tmp", d),
        _ => panic!("expected ChangeDir"),
    }
}

#[test]
fn true_line_end_to_end() {
    let words = match parse_command("/bin/true\n") {
        ParseRes::Success(Parsed::Sentence(v)) => v,
        _ => panic!("expected a sentence"),
    };
    assert_eq!(vec!["/bin/true"], words);
    assert!(matches!(run_command(&words), Action::Launch));
}

#[test]
fn run_builtin_is_inert() {
    run_builtin(&strings(&["cd", "/tmp"]));
}

#[test]
fn exited_child_ends_wait() {
    assert!(shell::child_finished(0));
    assert!(shell::child_finished(1 << 8));
}

#[test]
fn signaled_child_ends_wait() {
    assert!(shell::child_finished(9));
    assert!(shell::child_finished(15 | 0x80));
}

#[test]
fn stopped_child_is_waited_for() {
    assert!(!shell::child_finished((19 << 8) | 0x7f));
    assert!(!shell::child_finished(0x7f));
}
