use agent_health_check::{HealthRegistry, Status};

#[test]
fn set_and_get() {
    let mut r = HealthRegistry::new();
    r.set("db", Status::Okay);
    assert_eq!(r.get("db"), Some(&Status::Okay));
}

#[test]
fn all_ok_true() {
    let mut r = HealthRegistry::new();
    r.set("a", Status::Okay);
    r.set("b", Status::Okay);
    assert!(r.all_ok());
}

#[test]
fn all_ok_false_with_degraded() {
    let mut r = HealthRegistry::new();
    r.set("a", Status::Okay);
    r.set("b", Status::Degraded("slow".into()));
    assert!(!r.all_ok());
}

#[test]
fn is_healthy_false_when_down() {
    let mut r = HealthRegistry::new();
    r.set("a", Status::Down("error".into()));
    assert!(!r.is_healthy());
}

#[test]
fn is_healthy_true_with_degraded() {
    let mut r = HealthRegistry::new();
    r.set("a", Status::Degraded("slow".into()));
    assert!(r.is_healthy());
}

#[test]
fn down_components_list() {
    let mut r = HealthRegistry::new();
    r.set("db", Status::Down("conn failed".into()));
    r.set("api", Status::Okay);
    assert_eq!(r.down_components(), vec!["db"]);
}

#[test]
fn degraded_components_list() {
    let mut r = HealthRegistry::new();
    r.set("cache", Status::Degraded("miss rate high".into()));
    r.set("api", Status::Okay);
    assert_eq!(r.degraded_components(), vec!["cache"]);
}

#[test]
fn all_ok_empty_registry() {
    let r = HealthRegistry::new();
    assert!(r.all_ok()); // vacuously true
}

#[test]
fn is_healthy_false_with_unknown() {
    let mut r = HealthRegistry::new();
    r.set("x", Status::Unknown);
    assert!(!r.is_healthy());
}

#[test]
fn status_display() {
    assert_eq!(Status::Okay.to_string(), "ok");
    assert!(Status::Degraded("slow".into()).to_string().contains("slow"));
    assert!(Status::Down("error".into()).to_string().contains("error"));
    assert_eq!(Status::Unknown.to_string(), "unknown");
}

#[test]
fn remove_component() {
    let mut r = HealthRegistry::new();
    r.set("x", Status::Okay);
    r.remove("x");
    assert!(r.get("x").is_none());
}

#[test]
fn reset_all_to_unknown() {
    let mut r = HealthRegistry::new();
    r.set("a", Status::Okay);
    r.set("b", Status::Okay);
    r.reset_all();
    assert_eq!(r.get("a"), Some(&Status::Unknown));
    assert_eq!(r.get("b"), Some(&Status::Unknown));
}

#[test]
fn len_and_empty() {
    let mut r = HealthRegistry::new();
    assert!(r.is_empty());
    r.set("x", Status::Okay);
    assert_eq!(r.len(), 1);
}

#[test]
fn components_sorted() {
    let mut r = HealthRegistry::new();
    r.set("z", Status::Okay);
    r.set("a", Status::Okay);
    r.set("m", Status::Okay);
    assert_eq!(r.components(), vec!["a", "m", "z"]);
}

#[test]
fn missing_key_none() {
    let r = HealthRegistry::new();
    assert_eq!(r.get("nope"), None);
}

#[test]
fn severity_ordering() {
    assert!(Status::Okay.severity() < Status::Unknown.severity());
    assert!(Status::Unknown.severity() < Status::Degraded("x".into()).severity());
    assert!(Status::Degraded("x".into()).severity() < Status::Down("x".into()).severity());
}

#[test]
fn is_unknown_predicate() {
    assert!(Status::Unknown.is_unknown());
    assert!(!Status::Okay.is_unknown());
}

#[test]
fn overall_empty_is_ok() {
    let r = HealthRegistry::new();
    assert_eq!(r.overall(), Status::Okay);
}

#[test]
fn overall_reports_worst() {
    let mut r = HealthRegistry::new();
    r.set("a", Status::Okay);
    r.set("b", Status::Degraded("slow".into()));
    r.set("c", Status::Down("offline".into()));
    assert_eq!(r.overall(), Status::Down("offline".into()));
}

#[test]
fn overall_unknown_beats_ok() {
    let mut r = HealthRegistry::new();
    r.set("a", Status::Okay);
    r.set("b", Status::Unknown);
    assert_eq!(r.overall(), Status::Unknown);
}

#[test]
fn summary_counts() {
    let mut r = HealthRegistry::new();
    r.set("a", Status::Okay);
    r.set("b", Status::Okay);
    r.set("c", Status::Degraded("slow".into()));
    r.set("d", Status::Down("offline".into()));
    r.set("e", Status::Unknown);
    let s = r.summary();
    assert_eq!(s.ok, 2);
    assert_eq!(s.degraded, 1);
    assert_eq!(s.down, 1);
    assert_eq!(s.unknown, 1);
    assert_eq!(s.total(), 5);
}

#[test]
fn summary_display() {
    let mut r = HealthRegistry::new();
    r.set("a", Status::Okay);
    assert_eq!(
        r.summary().to_string(),
        "1 ok, 0 degraded, 0 down, 0 unknown"
    );
}

#[test]
fn unknown_components_list() {
    let mut r = HealthRegistry::new();
    r.set("a", Status::Unknown);
    r.set("b", Status::Okay);
    r.set("c", Status::Unknown);
    assert_eq!(r.unknown_components(), vec!["a", "c"]);
}

#[test]
fn contains_component() {
    let mut r = HealthRegistry::new();
    r.set("a", Status::Okay);
    assert!(r.contains("a"));
    assert!(!r.contains("b"));
}

#[test]
fn iter_yields_all() {
    let mut r = HealthRegistry::new();
    r.set("a", Status::Okay);
    r.set("b", Status::Down("x".into()));
    let mut seen: Vec<&str> = r.iter().iter().map(|(n, _)| *n).collect();
    seen.sort();
    assert_eq!(seen, vec!["a", "b"]);
    assert_eq!(r.iter().len(), 2);
}

#[test]
fn set_overwrites_existing() {
    let mut r = HealthRegistry::new();
    r.set("a", Status::Okay);
    r.set("a", Status::Down("crashed".into()));
    assert_eq!(r.get("a"), Some(&Status::Down("crashed".into())));
    assert_eq!(r.len(), 1);
}
