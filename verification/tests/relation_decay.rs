use ternary_trust::{
    decay_toward_zero, forgive, forgiveness_due, TrustEvent, TrustRelation, TRUST_MAX, TRUST_MIN,
};

/// The amount a decay rate takes off a score: its magnitude times the rate, rounded.
fn delta_for(v: i32, rate: f64) -> i32 {
    (v.abs() as f64 * rate).round() as i32
}

/// One forgiveness step with the recommended configuration (rate 0.6,
/// threshold -50, cooldown 5).
fn forgive_recommended(trust: i32, steps: u32) -> (i32, u32) {
    let delta = if forgiveness_due(-50, 5, trust, steps) {
        delta_for(trust, 0.6)
    } else {
        0
    };
    forgive(-50, 5, trust, steps, delta)
}

#[test]
fn test_trust_relation_new() {
    let r = TrustRelation::new();
    assert_eq!(r.a_trusts_b, 0);
    assert_eq!(r.b_trusts_a, 0);
    assert_eq!((r.a_trusts_b as f64 + r.b_trusts_a as f64) / 2.0, 0.0);
}

#[test]
fn test_trust_relation_apply_events() {
    let mut r = TrustRelation::new();
    r.apply_event_a_to_b(TrustEvent::Cooperate(10));
    assert_eq!(r.a_trusts_b, 10);
    r.apply_event_a_to_b(TrustEvent::Betray(-30));
    assert_eq!(r.a_trusts_b, -20);
    r.apply_event_b_to_a(TrustEvent::Cooperate(15));
    assert_eq!(r.b_trusts_a, 15);
}

#[test]
fn test_trust_relation_clamped() {
    let mut r = TrustRelation::from_scores(95, -90);
    r.apply_event_a_to_b(TrustEvent::Cooperate(20)); // 95+20=115 -> clamped to 100
    assert_eq!(r.a_trusts_b, TRUST_MAX);
    r.apply_event_b_to_a(TrustEvent::Betray(-30)); // -90-30=-120 -> clamped to -100
    assert_eq!(r.b_trusts_a, TRUST_MIN);
}

#[test]
fn test_trust_relation_from_scores_clamps() {
    let r = TrustRelation::from_scores(500, -500);
    assert_eq!(r.a_trusts_b, 100);
    assert_eq!(r.b_trusts_a, -100);
    let d = TrustRelation::default();
    assert_eq!(d, TrustRelation::new());
}

#[test]
fn test_trust_relation_decay() {
    let mut r = TrustRelation::from_scores(100, -100);
    r.a_trusts_b = decay_toward_zero(r.a_trusts_b, delta_for(r.a_trusts_b, 0.1));
    r.b_trusts_a = decay_toward_zero(r.b_trusts_a, delta_for(r.b_trusts_a, 0.1));
    assert_eq!(r.a_trusts_b, 90); // 100 - 10
    assert_eq!(r.b_trusts_a, -90); // -100 + 10
}

#[test]
fn test_mutual_acquaintance() {
    let mut r = TrustRelation::from_scores(5, 5);
    assert!(r.is_mutual_acquaintance());
    r.a_trusts_b = -5;
    assert!(!r.is_mutual_acquaintance());
}

#[test]
fn test_relation_stages() {
    let r = TrustRelation::from_scores(60, -30);
    assert_eq!(r.stage_a_to_b(), ternary_trust::TrustStage::Companion);
    assert_eq!(r.stage_b_to_a(), ternary_trust::TrustStage::Stranger);
    let edge = TrustRelation::from_scores(0, 0);
    assert!(edge.is_mutual_acquaintance());
}

#[test]
fn test_trust_decay_steps() {
    let mut trust = 80;
    trust = decay_toward_zero(trust, delta_for(trust, 0.5));
    assert_eq!(trust, 40); // 80 - 40
    trust = decay_toward_zero(trust, delta_for(trust, 0.5));
    assert_eq!(trust, 20); // 40 - 20
    trust = decay_toward_zero(trust, delta_for(trust, 0.5));
    assert_eq!(trust, 10);
}

#[test]
fn test_trust_decay_to_zero() {
    let mut trust = 1;
    trust = decay_toward_zero(trust, delta_for(trust, 0.5));
    assert_eq!(trust, 0); // 1 - round(0.5) = 0
}

#[test]
fn test_trust_decay_negative() {
    let mut trust = -60;
    trust = decay_toward_zero(trust, delta_for(trust, 0.5));
    assert_eq!(trust, -30);
}

#[test]
fn test_decay_never_crosses_zero() {
    assert_eq!(decay_toward_zero(5, 9), 0);
    assert_eq!(decay_toward_zero(-5, 9), 0);
    assert_eq!(decay_toward_zero(0, 9), 0);
    assert_eq!(decay_toward_zero(7, 3), 4);
    assert_eq!(decay_toward_zero(-7, 3), -4);
}

#[test]
fn test_forgiveness_applies() {
    let (new_trust, steps) = forgive_recommended(-30, 10); // above cooldown
    assert!(new_trust > -30); // moved toward zero
    assert_eq!(steps, 0); // cooldown reset
    assert_eq!(new_trust, -12); // -30 + round(18)
}

#[test]
fn test_forgiveness_cooldown_blocks() {
    let (new_trust, _) = forgive_recommended(-30, 2); // below cooldown of 5
    assert_eq!(new_trust, -30); // unchanged
}

#[test]
fn test_forgiveness_threshold_blocks() {
    let (new_trust, _) = forgive_recommended(-60, 10); // below threshold
    assert_eq!(new_trust, -60);
}

#[test]
fn test_forgiveness_positive_ignored() {
    let (new_trust, _) = forgive_recommended(10, 10);
    assert_eq!(new_trust, 10); // positive trust not affected
}

#[test]
fn test_forgiveness_counter_advances_while_waiting() {
    assert_eq!(forgive_recommended(-30, 2), (-30, 3));
    assert_eq!(forgive_recommended(0, 7), (0, 8));
    assert!(forgiveness_due(-50, 5, -50, 5));
    assert!(!forgiveness_due(-50, 5, -51, 5));
    assert!(!forgiveness_due(-50, 5, -10, 4));
}

#[test]
fn test_trust_relation_extreme_impacts_clamp() {
    let mut r = TrustRelation::from_scores(100, -100);
    r.apply_event_a_to_b(TrustEvent::Cooperate(i32::MAX));
    assert_eq!(r.a_trusts_b, 100);
    r.apply_event_b_to_a(TrustEvent::Betray(i32::MIN));
    assert_eq!(r.b_trusts_a, -100);
    r.a_trusts_b = i32::MAX;
    r.apply_event_a_to_b(TrustEvent::Forgive(1));
    assert_eq!(r.a_trusts_b, 100);
    r.b_trusts_a = i32::MIN;
    r.apply_event_b_to_a(TrustEvent::Ignore(-1));
    assert_eq!(r.b_trusts_a, -100);
}
