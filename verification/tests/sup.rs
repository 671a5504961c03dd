use rrc::execspec::{Argv, ExecSpec, Kind};
use rrc::service::{Service, ServiceName};
use rrc::state::{Flags, State};
use rrc::sup::{OneshotOutcome, ProbeOutcome, StartFailure, Supervisor};
use rrc::unit::Unit;

fn spec(kind: Kind, start: &[&str]) -> ExecSpec {
    let argv: Vec<String> = start.iter().map(|s| s.to_string()).collect();
    ExecSpec {
        kind,
        start: Argv::try_from(argv).unwrap(),
        stop: None,
        reload: None,
        stop_timeout: None,
        kill_timeout: None,
    }
}

fn oneshot(start: &[&str]) -> ExecSpec {
    spec(Kind::Oneshot, start)
}

fn simple(start: &[&str]) -> ExecSpec {
    spec(Kind::Simple, start)
}

fn sup_of(name: &str, exec: ExecSpec) -> (Supervisor, ServiceName) {
    let name = ServiceName::new(name).unwrap();
    let sup = Supervisor::new(vec![(name.clone(), exec)]);
    (sup, name)
}

fn sup_with(name: &str, start: &[&str]) -> (Supervisor, ServiceName) {
    sup_of(name, oneshot(start))
}

fn unit(name: &str) -> Unit {
    Unit {
        service: Service {
            name: ServiceName::new(name).unwrap(),
            desc: String::new(),
            provides: Vec::new(),
            deps: Vec::new(),
            runlevels: Vec::new(),
        },
        exec_spec: oneshot(&["/bin/echo"]),
    }
}

fn name(s: &str) -> ServiceName {
    ServiceName::new(s).unwrap()
}

#[test]
fn from_dir_registers_every_unit_as_stopped() {
    let sup = Supervisor::from_units(vec![unit("a"), unit("b")]);

    for n in ["a", "b"] {
        let status = sup.status(&name(n)).expect("unit should be known");
        assert_eq!(status.state, State::Stopped);
        assert!(status.flags.is_empty());
    }
}

#[test]
fn unknown_service_has_no_status() {
    let sup = Supervisor::from_units(Vec::new());

    assert!(sup.status(&name("ghost")).is_none());
}

#[test]
fn successful_oneshot_ends_started() {
    let (mut sup, name) = sup_with("ok", &["/bin/sh", "-c", "exit 0"]);

    let launch = sup.begin_start(&name).unwrap();
    assert_eq!(launch.kind, Kind::Oneshot);
    assert_eq!(sup.status(&name).unwrap().state, State::Starting);
    sup.complete_oneshot(&name, OneshotOutcome::Exited { success: true }).unwrap();

    let status = sup.status(&name).unwrap();
    assert_eq!(status.state, State::Started);
    assert!(!status.flags.contains(Flags::FAILED));
}

#[test]
fn failing_oneshot_ends_stopped_and_flagged() {
    let (mut sup, name) = sup_with("bad", &["/bin/sh", "-c", "exit 1"]);

    sup.begin_start(&name).unwrap();
    assert_eq!(
        sup.complete_oneshot(&name, OneshotOutcome::Exited { success: false }),
        Err(StartFailure::ExitedWithFailure)
    );

    let status = sup.status(&name).unwrap();
    assert_eq!(status.state, State::Stopped);
    assert!(status.flags.contains(Flags::FAILED));
}

#[test]
fn missing_binary_does_not_leave_the_service_starting() {
    let (mut sup, name) = sup_with("ghost", &["/nonexistent/binary"]);

    let launch = sup.begin_start(&name).unwrap();
    assert_eq!(launch.program, "/nonexistent/binary");
    assert!(sup.complete_oneshot(&name, OneshotOutcome::SpawnFailed).is_err());

    let status = sup.status(&name).unwrap();
    assert_eq!(status.state, State::Stopped);
    assert!(status.flags.contains(Flags::FAILED));
}

#[test]
fn start_all_runs_every_service() {
    let mut execs = Vec::new();
    for n in ["b", "a"] {
        execs.push((name(n), oneshot(&["/bin/sh", "-c", "exit 0"])));
    }
    let mut sup = Supervisor::new(execs);

    let order = sup.start_order();
    let order_text: Vec<&str> = order.iter().map(|n| n.as_str()).collect();
    assert_eq!(order_text, ["a", "b"]);
    for n in &order {
        sup.begin_start(n).unwrap();
        sup.complete_oneshot(n, OneshotOutcome::Exited { success: true }).unwrap();
    }

    for n in ["a", "b"] {
        let status = sup.status(&name(n)).unwrap();
        assert_eq!(status.state, State::Started);
    }
}

#[test]
fn simple_service_stays_started() {
    let (mut sup, name) = sup_of("daemon", simple(&["/bin/sleep", "3600"]));

    let launch = sup.begin_start(&name).unwrap();
    assert_eq!(launch.kind, Kind::Simple);
    assert_eq!(launch.program, "/bin/sleep");
    assert_eq!(launch.args, ["3600"]);
    sup.complete_simple(&name, ProbeOutcome::Running { pid: 4242 }).unwrap();

    assert_eq!(sup.status(&name).unwrap().state, State::Started);
    assert_eq!(sup.pid(&name), Some(4242), "a live process should be tracked");
}

#[test]
fn simple_that_dies_at_once_fails_to_start() {
    let (mut sup, name) = sup_of("flaky", simple(&["/bin/sh", "-c", "exit 1"]));

    sup.begin_start(&name).unwrap();
    assert_eq!(
        sup.complete_simple(&name, ProbeOutcome::ExitedImmediately),
        Err(StartFailure::ExitedImmediately)
    );

    let status = sup.status(&name).unwrap();
    assert_eq!(status.state, State::Stopped);
    assert!(status.flags.contains(Flags::FAILED));
    assert!(sup.pid(&name).is_none());
}

#[test]
fn a_service_dying_later_is_flagged_as_crashed() {
    let (mut sup, name) = sup_of("crasher", simple(&["/bin/sh", "-c", "sleep 0.3; exit 1"]));

    sup.begin_start(&name).unwrap();
    sup.complete_simple(&name, ProbeOutcome::Running { pid: 7 }).unwrap();
    assert_eq!(sup.status(&name).unwrap().state, State::Started);

    sup.on_exit(&name);

    let status = sup.status(&name).unwrap();
    assert_eq!(status.state, State::Stopped);
    assert!(status.flags.contains(Flags::CRASHED));
    assert!(sup.pid(&name).is_none());
}

#[test]
fn oneshot_is_started_without_a_live_process() {
    let (mut sup, name) = sup_of("work", oneshot(&["/bin/sh", "-c", "exit 0"]));

    sup.begin_start(&name).unwrap();
    sup.complete_oneshot(&name, OneshotOutcome::Exited { success: true }).unwrap();

    assert_eq!(sup.status(&name).unwrap().state, State::Started);
    assert!(sup.pid(&name).is_none(), "a oneshot leaves nothing running");
}

#[test]
fn unknown_service_cannot_be_started() {
    let (mut sup, _) = sup_with("known", &["/bin/true"]);
    let err = sup.begin_start(&name("nope")).unwrap_err();
    assert_eq!(err.to_string(), "unknown service nope");
    assert_eq!(sup.status(&name("known")).unwrap().state, State::Stopped);
}

#[test]
fn a_new_attempt_clears_the_previous_failure() {
    let (mut sup, name) = sup_with("retry", &["/bin/true"]);
    sup.begin_start(&name).unwrap();
    sup.complete_oneshot(&name, OneshotOutcome::SpawnFailed).unwrap_err();
    assert!(sup.status(&name).unwrap().flags.contains(Flags::FAILED));

    sup.begin_start(&name).unwrap();
    let status = sup.status(&name).unwrap();
    assert_eq!(status.state, State::Starting);
    assert!(!status.flags.contains(Flags::FAILED));
}

#[test]
fn probe_failures_name_their_cause() {
    let (mut sup, name) = sup_of("d", simple(&["/bin/x"]));
    sup.begin_start(&name).unwrap();
    assert_eq!(sup.complete_simple(&name, ProbeOutcome::NoPid), Err(StartFailure::PidUnavailable));
    sup.begin_start(&name).unwrap();
    assert_eq!(sup.complete_simple(&name, ProbeOutcome::SpawnFailed), Err(StartFailure::SpawnFailed));
    let status = sup.status(&name).unwrap();
    assert_eq!(status.state, State::Stopped);
    assert!(status.flags.contains(Flags::FAILED));
}

#[test]
fn only_a_service_at_rest_may_be_started() {
    let (mut sup, name) = sup_of("up", simple(&["/bin/x"]));
    sup.begin_start(&name).unwrap();
    sup.complete_simple(&name, ProbeOutcome::Running { pid: 1 }).unwrap();
    // Started -> Starting is not a transition: a caller must not begin a start now.
    let state = sup.status(&name).unwrap().state;
    assert_eq!(state, State::Started);
    assert!(state.transition(State::Starting).is_err());
}

#[test]
fn an_exit_during_a_start_is_not_a_crash() {
    let (mut sup, name) = sup_of("early", simple(&["/bin/x"]));
    sup.begin_start(&name).unwrap();
    sup.on_exit(&name);
    let status = sup.status(&name).unwrap();
    assert_eq!(status.state, State::Stopped);
    assert!(!status.flags.contains(Flags::CRASHED));
}

#[test]
fn exit_of_an_unknown_service_changes_nothing() {
    let (mut sup, known) = sup_with("k", &["/bin/true"]);
    sup.on_exit(&name("other"));
    assert_eq!(sup.status(&known).unwrap().state, State::Stopped);
    assert!(sup.status(&known).unwrap().flags.is_empty());
}

#[test]
fn a_oneshot_never_gets_a_pid() {
    let (mut sup, name) = sup_of("job", oneshot(&["/bin/true"]));
    sup.begin_start(&name).unwrap();
    assert_eq!(
        sup.complete_simple(&name, ProbeOutcome::Running { pid: 99 }),
        Err(StartFailure::WrongKind)
    );
    assert!(sup.pid(&name).is_none(), "a oneshot leaves nothing running");
    // the mismatched report changed nothing
    assert_eq!(sup.status(&name).unwrap().state, State::Starting);
}

#[test]
fn a_simple_service_does_not_take_a_oneshot_outcome() {
    let (mut sup, name) = sup_of("daemon", simple(&["/bin/sleep", "1"]));
    sup.begin_start(&name).unwrap();
    assert_eq!(
        sup.complete_oneshot(&name, OneshotOutcome::Exited { success: false }),
        Err(StartFailure::WrongKind)
    );
    let status = sup.status(&name).unwrap();
    assert_eq!(status.state, State::Starting);
    assert!(!status.flags.contains(Flags::FAILED));
}

#[test]
fn exits_in_sequence_leave_each_service_stopped() {
    let mut sup = Supervisor::new(vec![
        (name("a"), simple(&["/bin/a"])),
        (name("b"), simple(&["/bin/b"])),
        (name("c"), simple(&["/bin/c"])),
    ]);
    for (n, pid) in [("a", 1), ("b", 2), ("c", 3)] {
        sup.begin_start(&name(n)).unwrap();
        sup.complete_simple(&name(n), ProbeOutcome::Running { pid }).unwrap();
    }
    sup.on_exit(&name("b"));
    sup.on_exit(&name("a"));
    for n in ["a", "b"] {
        let status = sup.status(&name(n)).unwrap();
        assert_eq!(status.state, State::Stopped);
        assert!(status.flags.contains(Flags::CRASHED));
        assert!(sup.pid(&name(n)).is_none());
    }
    assert_eq!(sup.status(&name("c")).unwrap().state, State::Started);
    assert_eq!(sup.pid(&name("c")), Some(3));
}
