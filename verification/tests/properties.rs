use agent_health_check::{HealthRegistry, Status, Summary};

#[test]
fn set_leaves_other_names_alone() {
    let mut r = HealthRegistry::new();
    r.set("a", Status::Okay);
    r.set("b", Status::Down("gone".into()));
    r.set("a", Status::Degraded("slow".into()));
    assert_eq!(r.get("b"), Some(&Status::Down("gone".into())));
    assert_eq!(r.get("a"), Some(&Status::Degraded("slow".into())));
    assert_eq!(r.len(), 2);
}

#[test]
fn set_new_name_adds_one() {
    let mut r = HealthRegistry::new();
    r.set("a", Status::Okay);
    assert_eq!(r.len(), 1);
    r.set("b", Status::Okay);
    assert_eq!(r.len(), 2);
    r.set("b", Status::Unknown);
    assert_eq!(r.len(), 2);
}

#[test]
fn remove_missing_is_noop() {
    let mut r = HealthRegistry::new();
    r.set("a", Status::Okay);
    r.remove("zzz");
    assert_eq!(r.len(), 1);
    assert_eq!(r.get("a"), Some(&Status::Okay));
    r.remove("a");
    assert!(r.is_empty());
    assert!(!r.contains("a"));
}

#[test]
fn reset_all_keeps_names() {
    let mut r = HealthRegistry::new();
    r.set("b", Status::Down("x".into()));
    r.set("a", Status::Degraded("y".into()));
    r.reset_all();
    assert_eq!(r.components(), vec!["a", "b"]);
    assert_eq!(r.unknown_components(), vec!["a", "b"]);
    assert!(!r.all_ok());
    assert!(!r.is_healthy());
    assert_eq!(r.overall(), Status::Unknown);
}

#[test]
fn reset_all_on_empty_registry() {
    let mut r = HealthRegistry::new();
    r.reset_all();
    assert!(r.is_empty());
    assert!(r.is_healthy());
    assert_eq!(r.overall(), Status::Okay);
}

#[test]
fn summary_total_equals_len() {
    let mut r = HealthRegistry::new();
    r.set("a", Status::Okay);
    r.set("b", Status::Unknown);
    r.set("c", Status::Degraded("d".into()));
    r.set("d", Status::Down("e".into()));
    r.set("e", Status::Down("f".into()));
    let s = r.summary();
    assert_eq!(s.total(), r.len());
    assert_eq!(s.down, r.down_components().len());
    assert_eq!(s.degraded, r.degraded_components().len());
    assert_eq!(s.unknown, r.unknown_components().len());
}

#[test]
fn all_ok_implies_healthy_and_overall_ok() {
    let mut r = HealthRegistry::new();
    r.set("x", Status::Okay);
    r.set("y", Status::Okay);
    assert!(r.all_ok());
    assert!(r.is_healthy());
    assert!(r.overall().is_ok());
    r.set("y", Status::Degraded("slow".into()));
    assert!(!r.all_ok());
    assert!(!r.overall().is_ok());
}

#[test]
fn overall_ties_go_to_first_name() {
    let mut r = HealthRegistry::new();
    r.set("b", Status::Down("late".into()));
    r.set("a", Status::Down("early".into()));
    r.set("c", Status::Degraded("slow".into()));
    assert_eq!(r.overall(), Status::Down("early".into()));
}

#[test]
fn names_follow_str_order() {
    let mut r = HealthRegistry::new();
    r.set("\u{c9}clair", Status::Okay);
    r.set("beta", Status::Okay);
    r.set("alpha", Status::Okay);
    r.set("Zeta", Status::Okay);
    r.set("al", Status::Okay);
    let mut expected = vec!["\u{c9}clair", "beta", "alpha", "Zeta", "al"];
    expected.sort();
    assert_eq!(r.components(), expected);
    assert_eq!(r.components(), vec!["Zeta", "al", "alpha", "beta", "\u{c9}clair"]);
}

#[test]
fn iter_pairs_names_with_statuses() {
    let mut r = HealthRegistry::new();
    r.set("b", Status::Down("x".into()));
    r.set("a", Status::Okay);
    let pairs = r.iter();
    assert_eq!(pairs.len(), 2);
    assert_eq!(pairs[0], ("a", &Status::Okay));
    assert_eq!(pairs[1], ("b", &Status::Down("x".into())));
}

#[test]
fn status_text_is_exact() {
    assert_eq!(Status::Degraded("slow".into()).to_string(), "degraded: slow");
    assert_eq!(Status::Down("error".into()).to_string(), "down: error");
    assert_eq!(Status::Down(String::new()).to_string(), "down: ");
}

#[test]
fn status_predicates_and_severity() {
    let d = Status::Degraded("x".into());
    let n = Status::Down("x".into());
    assert!(Status::Okay.is_ok());
    assert!(d.is_degraded() && !d.is_down() && !d.is_ok());
    assert!(n.is_down() && !n.is_unknown());
    assert_eq!(Status::Okay.severity(), 0);
    assert_eq!(Status::Unknown.severity(), 1);
    assert_eq!(d.severity(), 2);
    assert_eq!(n.severity(), 3);
    assert_eq!(n.clone(), n);
}

#[test]
fn summary_text_renders_multi_digit_counts() {
    let s = Summary { ok: 12, degraded: 0, down: 105, unknown: 7 };
    assert_eq!(s.to_string(), "12 ok, 0 degraded, 105 down, 7 unknown");
    assert_eq!(s.total(), 124);
}

#[test]
fn defaults_are_empty() {
    let s = Summary::default();
    assert_eq!(s, Summary { ok: 0, degraded: 0, down: 0, unknown: 0 });
    assert_eq!(s.total(), 0);
    let r = HealthRegistry::default();
    assert!(r.is_empty());
    assert!(r.components().is_empty());
}

#[test]
fn readme_usage() {
    let mut reg = HealthRegistry::new();
    reg.set("llm_provider", Status::Okay);
    reg.set("database", Status::Degraded("slow queries".into()));
    assert!(!reg.all_ok());
    assert!(reg.is_healthy());
    assert_eq!(reg.overall(), Status::Degraded("slow queries".into()));

    reg.set("vector_store", Status::Down("connection refused".into()));
    assert!(!reg.all_ok());
    assert!(!reg.is_healthy());
    assert_eq!(reg.down_components(), vec!["vector_store"]);
    assert_eq!(reg.degraded_components(), vec!["database"]);
    assert_eq!(reg.overall(), Status::Down("connection refused".into()));

    reg.set("vector_store", Status::Okay);
    assert!(reg.is_healthy());
    assert!(!reg.all_ok());
}
