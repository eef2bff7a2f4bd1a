use lau_agent_homeostasis::{AlertSystem, Finding, Urgency};

fn finding(metric: &str, severity: Urgency) -> Finding {
    Finding {
        metric: metric.to_string(),
        message: format!("{} deviated", metric),
        severity,
    }
}

// What the controller of the scenarios reports when its energy reads 60
// against a setpoint of 80 with tolerance 5.
fn energy_at_60() -> Finding {
    Finding {
        metric: "energy".to_string(),
        message: "energy deviated by 20.0000 (tolerance: 5.0000)".to_string(),
        severity: Urgency::High,
    }
}

#[test]
fn alert_acknowledge_nonexistent_id() {
    let mut alerts = AlertSystem::new(100);
    alerts.acknowledge("nonexistent"); // should not panic
    assert!(alerts.alerts.is_empty());
}

#[test]
fn alert_acknowledge() {
    let mut alerts = AlertSystem::new(100);
    alerts.check(vec![energy_at_60()], 1_000);
    let id = alerts.alerts[0].id.clone();
    alerts.acknowledge(&id);
    assert!(alerts.alerts[0].acknowledged);
}

#[test]
fn active_alerts_excludes_acknowledged() {
    let mut alerts = AlertSystem::new(100);
    alerts.check(vec![energy_at_60()], 1_000);
    let id = alerts.alerts[0].id.clone();
    alerts.acknowledge(&id);
    assert!(alerts.active_alerts().is_empty());
}

#[test]
fn alert_system_max_alerts() {
    let mut alerts = AlertSystem::new(2);
    alerts.check(vec![
        energy_at_60(),
        Finding {
            metric: "attention".to_string(),
            message: "attention deviated by 0.3000 (tolerance: 0.1000)".to_string(),
            severity: Urgency::High,
        },
        Finding {
            metric: "stress".to_string(),
            message: "stress deviated by 0.4000 (tolerance: 0.0500)".to_string(),
            severity: Urgency::Critical,
        },
    ], 1_000);
    assert!(alerts.alerts.len() <= 2);
}

#[test]
fn critical_alerts_filter() {
    let mut alerts = AlertSystem::new(100);
    alerts.check(vec![Finding {
        metric: "energy".to_string(),
        message: "energy deviated by 50.0000 (tolerance: 5.0000)".to_string(),
        severity: Urgency::Critical,
    }], 1_000);
    let critical = alerts.critical_alerts();
    assert!(!critical.is_empty() || !alerts.alerts.is_empty());
}

#[test]
fn critical_alerts_keep_high_and_critical_in_order() {
    let mut alerts = AlertSystem::new(100);
    alerts.check(vec![
        finding("energy", Urgency::Critical),
        finding("attention", Urgency::Low),
        finding("stress", Urgency::High),
        finding("budget", Urgency::Medium),
    ], 1_000);
    let critical: Vec<&str> = alerts.critical_alerts().iter().map(|a| a.metric.as_str()).collect();
    assert_eq!(critical, vec!["energy", "stress"]);
}

#[test]
fn alert_ids_count_up_from_zero() {
    let mut alerts = AlertSystem::new(100);
    alerts.check(vec![finding("energy", Urgency::High), finding("stress", Urgency::Low)], 1_000);
    alerts.check(vec![finding("attention", Urgency::Medium)], 1_000);
    let ids: Vec<&str> = alerts.alerts.iter().map(|a| a.id.as_str()).collect();
    assert_eq!(ids, vec!["alert-0", "alert-1", "alert-2"]);
    assert!(alerts.alerts.iter().all(|a| a.timestamp == 1_000 && !a.acknowledged));
}

#[test]
fn alert_ids_use_all_digits() {
    let mut alerts = AlertSystem::new(3);
    let batch: Vec<Finding> = (0..12).map(|_| finding("energy", Urgency::Low)).collect();
    alerts.check(batch, 1_000);
    let ids: Vec<&str> = alerts.alerts.iter().map(|a| a.id.as_str()).collect();
    assert_eq!(ids, vec!["alert-9", "alert-10", "alert-11"]);
}

#[test]
fn capacity_drops_oldest_first() {
    let mut alerts = AlertSystem::new(2);
    alerts.check(vec![finding("a", Urgency::Low)], 1_000);
    alerts.check(vec![finding("b", Urgency::Low), finding("c", Urgency::Low)], 1_000);
    let metrics: Vec<&str> = alerts.alerts.iter().map(|a| a.metric.as_str()).collect();
    assert_eq!(metrics, vec!["b", "c"]);
}

#[test]
fn zero_capacity_keeps_nothing() {
    let mut alerts = AlertSystem::new(0);
    alerts.check(vec![finding("a", Urgency::Critical)], 1_000);
    assert!(alerts.alerts.is_empty());
}

#[test]
fn check_carries_message_and_severity() {
    let mut alerts = AlertSystem::new(10);
    alerts.check(vec![finding("energy", Urgency::Medium)], 1_000);
    assert_eq!(alerts.alerts[0].metric, "energy");
    assert_eq!(alerts.alerts[0].message, "energy deviated");
    assert_eq!(alerts.alerts[0].severity, Urgency::Medium);
}

#[test]
fn acknowledge_marks_only_the_named_alert() {
    let mut alerts = AlertSystem::new(10);
    alerts.check(vec![finding("a", Urgency::Low), finding("b", Urgency::Low)], 1_000);
    alerts.acknowledge("alert-1");
    assert!(!alerts.alerts[0].acknowledged);
    assert!(alerts.alerts[1].acknowledged);
    let active: Vec<&str> = alerts.active_alerts().iter().map(|a| a.id.as_str()).collect();
    assert_eq!(active, vec!["alert-0"]);
}

#[test]
fn acknowledge_twice_is_acknowledge_once() {
    let mut alerts = AlertSystem::new(10);
    alerts.check(vec![finding("a", Urgency::Low)], 1_000);
    alerts.acknowledge("alert-0");
    alerts.acknowledge("alert-0");
    assert_eq!(alerts.alerts.len(), 1);
    assert!(alerts.alerts[0].acknowledged);
}

#[test]
fn alert_clears_when_resolved() {
    let mut alerts = AlertSystem::new(100);
    alerts.check(vec![energy_at_60()], 1_000);
    assert!(!alerts.alerts.is_empty());
    alerts.clear_resolved(&vec!["energy".to_string()]);
    assert!(alerts.alerts.is_empty());
}

#[test]
fn alert_stays_if_unresolved() {
    let mut alerts = AlertSystem::new(100);
    alerts.check(vec![energy_at_60()], 1_000);
    alerts.clear_resolved(&vec![]);
    assert!(!alerts.alerts.is_empty());
}

#[test]
fn clear_resolved_keeps_other_metrics_in_order() {
    let mut alerts = AlertSystem::new(100);
    alerts.check(vec![
        finding("a", Urgency::Low),
        finding("b", Urgency::Low),
        finding("c", Urgency::Low),
        finding("b", Urgency::High),
    ], 1_000);
    alerts.clear_resolved(&vec!["b".to_string(), "z".to_string()]);
    let ids: Vec<&str> = alerts.alerts.iter().map(|a| a.id.as_str()).collect();
    assert_eq!(ids, vec!["alert-0", "alert-2"]);
}

#[test]
fn raised_alerts_start_active() {
    let mut alerts = AlertSystem::new(10);
    alerts.check(vec![finding("a", Urgency::Low), finding("b", Urgency::High)], 1_000);
    assert_eq!(alerts.active_alerts().len(), 2);
}

// What the controller of the scenarios reports when its energy reads 30
// against a setpoint of 80 with tolerance 5.
fn energy_at_30() -> Finding {
    Finding {
        metric: "energy".to_string(),
        message: "energy deviated by 50.0000 (tolerance: 5.0000)".to_string(),
        severity: Urgency::Critical,
    }
}

#[test]
fn alert_fires_on_deviation() {
    let mut alerts = AlertSystem::new(100);
    alerts.check(vec![energy_at_60()], 1_000);
    assert!(!alerts.alerts.is_empty());
}

#[test]
fn no_alert_when_balanced() {
    // A balanced controller reports no deviating metric.
    let mut alerts = AlertSystem::new(100);
    alerts.check(vec![], 1_000);
    assert!(alerts.alerts.is_empty());
}

#[test]
fn alert_severity_increases_with_deviation() {
    let mut alerts = AlertSystem::new(100);
    alerts.check(vec![energy_at_30()], 1_000);
    assert!(alerts
        .alerts
        .iter()
        .any(|a| matches!(a.severity, Urgency::Critical | Urgency::High)));
}

#[test]
fn alerts_carry_the_time_of_their_check() {
    let mut alerts = AlertSystem::new(100);
    alerts.check(vec![finding("a", Urgency::Low)], 1_700_000_000_000);
    alerts.check(vec![finding("b", Urgency::Low), finding("c", Urgency::Low)], 1_700_000_000_500);
    let stamps: Vec<u64> = alerts.alerts.iter().map(|a| a.timestamp).collect();
    assert_eq!(stamps, vec![1_700_000_000_000, 1_700_000_000_500, 1_700_000_000_500]);
}

#[test]
fn accessors_show_the_book() {
    let mut alerts = AlertSystem::new(7);
    alerts.check(vec![finding("a", Urgency::Low)], 5);
    assert_eq!(alerts.max_alert_count(), 7);
    assert_eq!(alerts.alert_list().len(), 1);
    assert_eq!(alerts.alerts_issued(), 1);
}
