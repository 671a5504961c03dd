use rrc::config::{is_service_file, UnitSet};
use rrc::execspec::{Argv, ExecSpec, Kind};
use rrc::service::{Service, ServiceName};
use rrc::unit::Unit;

fn unit(name: &str) -> Unit {
    Unit {
        service: Service {
            name: ServiceName::new(name).unwrap(),
            desc: String::new(),
            provides: Vec::new(),
            deps: Vec::new(),
            runlevels: Vec::new(),
        },
        exec_spec: ExecSpec {
            kind: Kind::Oneshot,
            start: Argv::try_from(vec!["/bin/echo".to_string()]).unwrap(),
            stop: None,
            reload: None,
            stop_timeout: None,
            kill_timeout: None,
        },
    }
}

#[test]
fn duplicate_service_names_are_rejected() {
    let mut set = UnitSet::new();
    set.insert("dir/one.service".to_string(), unit("dup")).unwrap();
    let err = set
        .insert("dir/two.service".to_string(), unit("dup"))
        .err()
        .expect("expected the duplicate name to be rejected")
        .to_string();
    assert!(err.contains("duplicate service name `dup`"), "{err}");
}

#[test]
fn duplicate_message_names_both_files() {
    let mut set = UnitSet::new();
    set.insert("a/x.service".to_string(), unit("x")).unwrap();
    set.insert("a/y.service".to_string(), unit("y")).unwrap();
    let err = set.insert("b/x.service".to_string(), unit("x")).unwrap_err();
    assert_eq!(err.first, "a/x.service");
    assert_eq!(err.second, "b/x.service");
    assert_eq!(err.name.as_str(), "x");
    assert_eq!(err.to_string(), "duplicate service name `x`: a/x.service and b/x.service");
    // the refused unit was not added
    assert_eq!(set.into_units().len(), 2);
}

#[test]
fn distinct_service_names_load() {
    let mut set = UnitSet::new();
    set.insert("a.service".to_string(), unit("a")).unwrap();
    set.insert("b.service".to_string(), unit("b")).unwrap();
    let units = set.into_units();
    assert_eq!(units.len(), 2);
    assert_eq!(units[0].service.name.as_str(), "a");
    assert_eq!(units[1].service.name.as_str(), "b");
}

#[test]
fn service_files_are_recognised_by_extension() {
    assert!(is_service_file("a.service"));
    assert!(is_service_file("net.d.service"));
    assert!(!is_service_file(".service"));
    assert!(!is_service_file("service"));
    assert!(!is_service_file("a.service.bak"));
    assert!(!is_service_file("a.services"));
    assert!(!is_service_file("a.Service"));
    assert!(!is_service_file(""));
}
