use lau_agent_homeostasis::{Alert, StressAction, Urgency};

#[test]
fn urgency_display() {
    assert_eq!(Urgency::Low.to_string(), "low");
    assert_eq!(Urgency::Critical.to_string(), "critical");
}

#[test]
fn urgency_names_every_level() {
    assert_eq!(Urgency::Medium.to_string(), "medium");
    assert_eq!(Urgency::High.to_string(), "high");
}

#[test]
fn alert_new_starts_unacknowledged() {
    let a = Alert::new(
        "a1".to_string(),
        "m1".to_string(),
        "msg".to_string(),
        Urgency::Critical,
        12345,
    );
    assert_eq!(a.id, "a1");
    assert_eq!(a.metric, "m1");
    assert_eq!(a.message, "msg");
    assert_eq!(a.severity, Urgency::Critical);
    assert_eq!(a.timestamp, 12345);
    assert!(!a.acknowledged);
}

#[test]
fn stress_actions_are_distinct() {
    let all = [
        StressAction::Normal,
        StressAction::Accelerated,
        StressAction::Conservative,
        StressAction::Emergency,
    ];
    for (i, a) in all.iter().enumerate() {
        for (j, b) in all.iter().enumerate() {
            assert_eq!(i == j, a == b);
        }
    }
}
