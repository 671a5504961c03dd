use rrc::service::{ServiceName, MAX_SERVICE_NAME_LEN};

#[test]
fn valid_service_name() {
    let s = "lets_go_rusty";
    assert_eq!(s.to_string(), ServiceName::new(s).unwrap().as_str());
}

#[test]
fn service_name_longer_than_limit_is_rejected() {
    let s = "a".repeat(MAX_SERVICE_NAME_LEN + 1);
    assert_eq!(
        format!("invalid service name: {}", s),
        ServiceName::new(s.as_str()).unwrap_err().to_string()
    );
}

#[test]
fn service_name_at_limit_is_accepted() {
    let s = "a".repeat(MAX_SERVICE_NAME_LEN);
    assert!(ServiceName::new(s.as_str()).is_ok());
}

#[test]
fn service_name_contains_invalid_character() {
    let s = "lets_g#_rusty";
    assert_eq!(format!("invalid service name: {}", s), ServiceName::new(s).unwrap_err().to_string());
}

#[test]
fn empty_and_non_ascii_names_are_rejected() {
    assert!(ServiceName::new("").is_err());
    assert!(ServiceName::new("résumé").is_err());
    assert!(ServiceName::new("with space").is_err());
    assert!(ServiceName::new("a.b").is_err());
    assert_eq!(ServiceName::new("bad/name").unwrap_err().as_str(), "bad/name");
}

#[test]
fn every_allowed_byte_class_is_accepted() {
    for s in ["abc", "ABC", "019", "-", "_", "systemd-resolved", "Net_2"] {
        assert!(ServiceName::new(s).is_ok(), "{s}");
    }
}

#[test]
fn owned_names_are_checked_the_same_way() {
    let n = ServiceName::try_from("sshd".to_string()).unwrap();
    assert_eq!(n.clone().into_string(), "sshd");
    assert!(ServiceName::try_from("ss hd".to_string()).is_err());
}

#[test]
fn names_compare_by_text_and_order_by_bytes() {
    let a = ServiceName::new("a").unwrap();
    let b = ServiceName::new("b").unwrap();
    let ab = ServiceName::new("ab").unwrap();
    let upper = ServiceName::new("Z").unwrap();
    assert!(a.same_as(&ServiceName::new("a").unwrap()));
    assert!(!a.same_as(&b));
    assert!(a.le(&b) && !b.le(&a));
    assert!(a.le(&ab) && !ab.le(&a));
    assert!(a.le(&a));
    assert!(upper.le(&a));
}
