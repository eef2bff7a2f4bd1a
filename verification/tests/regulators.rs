use lau_agent_homeostasis::{ThresholdRegulator, Urgency, Zone};

// Readings are given by order keys; small integers order as the readings
// of the scenarios do.
fn zone(low: i64, high: i64, action: &str) -> Zone {
    Zone { low: Some(low), high: Some(high), action: action.to_string() }
}

fn three_zones() -> ThresholdRegulator {
    ThresholdRegulator::new(
        "energy".to_string(),
        vec![zone(0, 30, "conserve"), zone(30, 70, "normal"), zone(70, 100, "boost")],
    )
}

#[test]
fn threshold_picks_low_zone() {
    let tr = three_zones();
    let (action, urgency) = tr.regulate(Some(20));
    assert_eq!(action, "conserve");
    assert_eq!(urgency, Urgency::Medium);
}

#[test]
fn threshold_picks_mid_zone() {
    let tr = three_zones();
    let (action, _) = tr.regulate(Some(50));
    assert_eq!(action, "normal");
}

#[test]
fn threshold_picks_high_zone() {
    let tr = three_zones();
    let (action, _) = tr.regulate(Some(85));
    assert_eq!(action, "boost");
}

#[test]
fn threshold_unknown_zone() {
    let tr = ThresholdRegulator::new("energy".to_string(), vec![zone(0, 50, "low")]);
    let (action, urgency) = tr.regulate(Some(75));
    assert_eq!(action, "unknown_zone");
    assert_eq!(urgency, Urgency::Critical);
}

#[test]
fn threshold_zones_sorted() {
    let tr = ThresholdRegulator::new(
        "x".to_string(),
        vec![zone(50, 100, "high"), zone(0, 50, "low")],
    );
    assert_eq!(tr.zones[0].action, "low");
    assert_eq!(tr.zones[1].action, "high");
}

#[test]
fn threshold_regulator_metric_name() {
    let tr = ThresholdRegulator::new("cpu".to_string(), vec![zone(0, 100, "ok")]);
    assert_eq!(tr.metric_name(), "cpu");
}

#[test]
fn zone_bounds_include_low_exclude_high() {
    let tr = three_zones();
    assert_eq!(tr.regulate(Some(30)).0, "normal");
    assert_eq!(tr.regulate(Some(0)).0, "conserve");
    assert_eq!(tr.regulate(Some(100)).0, "unknown_zone");
}

#[test]
fn first_matching_zone_wins() {
    let tr = ThresholdRegulator::new(
        "x".to_string(),
        vec![zone(0, 100, "wide"), zone(10, 20, "narrow")],
    );
    assert_eq!(tr.regulate(Some(15)).0, "wide");
}

#[test]
fn equal_lower_bounds_keep_given_order() {
    let tr = ThresholdRegulator::new(
        "x".to_string(),
        vec![zone(5, 9, "second"), zone(0, 5, "first"), zone(5, 7, "third")],
    );
    let order: Vec<&str> = tr.zones.iter().map(|z| z.action.as_str()).collect();
    assert_eq!(order, vec!["first", "second", "third"]);
}

#[test]
fn unordered_readings_lie_in_no_zone() {
    let tr = three_zones();
    assert_eq!(tr.regulate(None).0, "unknown_zone");
    let odd = ThresholdRegulator::new(
        "x".to_string(),
        vec![Zone { low: None, high: Some(10), action: "nan".to_string() }, zone(0, 10, "ok")],
    );
    assert_eq!(odd.zones[0].action, "ok");
    assert_eq!(odd.regulate(Some(5)).0, "ok");
}

#[test]
fn regulated_zone_has_lowest_bound() {
    let tr = ThresholdRegulator::new(
        "x".to_string(),
        vec![zone(10, 20, "narrow"), zone(0, 100, "wide")],
    );
    assert_eq!(tr.regulate(Some(15)).0, "wide");
}
