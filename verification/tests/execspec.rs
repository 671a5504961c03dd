use rrc::execspec::{path_is_absolute, Argv, ArgvError, Kind};

fn argv(words: &[&str]) -> Vec<String> {
    words.iter().map(|s| s.to_string()).collect()
}

#[test]
fn absolute_command_parses() {
    let start = Argv::try_from(argv(&["/bin/echo", "hi"])).unwrap();
    let (program, args) = start.split();
    assert_eq!(program, "/bin/echo");
    assert_eq!(args, ["hi"]);
}

#[test]
fn empty_command_is_rejected() {
    let err = Argv::try_from(argv(&[])).unwrap_err().to_string();
    assert!(err.contains("command is empty"), "{err}");
}

#[test]
fn relative_program_is_rejected() {
    let err = Argv::try_from(argv(&["echo"])).unwrap_err().to_string();
    assert!(err.contains("must be absolute"), "{err}");
}

#[test]
fn rejection_keeps_the_program() {
    match Argv::try_from(argv(&["bin/sh", "-c", "true"])) {
        Err(ArgvError::NotAbsolute(p)) => assert_eq!(p, "bin/sh"),
        other => panic!("unexpected: {other:?}"),
    }
    assert_eq!(
        Argv::try_from(argv(&["./x"])).unwrap_err().to_string(),
        "program path must be absolute: ./x"
    );
}

#[test]
fn program_alone_has_no_arguments() {
    let start = Argv::try_from(argv(&["/bin/true"])).unwrap();
    let (program, args) = start.split();
    assert_eq!(program, "/bin/true");
    assert!(args.is_empty());
}

#[test]
fn absolute_paths_start_at_the_root() {
    assert!(path_is_absolute("/"));
    assert!(path_is_absolute("/usr/bin/env"));
    assert!(!path_is_absolute(""));
    assert!(!path_is_absolute("usr/bin"));
    assert!(!path_is_absolute(" /bin"));
}

#[test]
fn default_kind_is_simple() {
    assert_eq!(Kind::default(), Kind::Simple);
}

#[test]
fn a_cloned_command_is_the_same_command() {
    let start = Argv::try_from(argv(&["/bin/echo", "a", "b"])).unwrap();
    let copy = start.clone();
    let (p, a) = copy.split();
    assert_eq!(p, "/bin/echo");
    assert_eq!(a, ["a", "b"]);
}
