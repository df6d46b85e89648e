use ternary_trust::{TrustEvent, TrustStage};

#[test]
fn test_trust_stage_stranger() {
    assert_eq!(TrustStage::from_trust(-50), TrustStage::Stranger);
    assert_eq!(TrustStage::from_trust(-100), TrustStage::Stranger);
    assert_eq!(TrustStage::from_trust(-21), TrustStage::Stranger);
}

#[test]
fn test_trust_stage_wary() {
    assert_eq!(TrustStage::from_trust(-20), TrustStage::Wary);
    assert_eq!(TrustStage::from_trust(-1), TrustStage::Wary);
}

#[test]
fn test_trust_stage_acquaintance() {
    assert_eq!(TrustStage::from_trust(0), TrustStage::Acquaintance);
    assert_eq!(TrustStage::from_trust(19), TrustStage::Acquaintance);
}

#[test]
fn test_trust_stage_friend() {
    assert_eq!(TrustStage::from_trust(20), TrustStage::Friend);
    assert_eq!(TrustStage::from_trust(49), TrustStage::Friend);
}

#[test]
fn test_trust_stage_companion() {
    assert_eq!(TrustStage::from_trust(50), TrustStage::Companion);
    assert_eq!(TrustStage::from_trust(100), TrustStage::Companion);
}

#[test]
fn test_trust_stage_display() {
    assert_eq!(TrustStage::Companion.to_string(), "Companion");
    assert_eq!(TrustStage::Stranger.display_name(), "Stranger");
}

#[test]
fn test_trust_stage_extremes() {
    assert_eq!(TrustStage::from_trust(i32::MIN), TrustStage::Stranger);
    assert_eq!(TrustStage::from_trust(i32::MAX), TrustStage::Companion);
}

#[test]
fn test_trust_stage_names_and_ordinals() {
    let all = [
        TrustStage::Stranger,
        TrustStage::Wary,
        TrustStage::Acquaintance,
        TrustStage::Friend,
        TrustStage::Companion,
    ];
    let names = ["Stranger", "Wary", "Acquaintance", "Friend", "Companion"];
    for (i, s) in all.iter().enumerate() {
        assert_eq!(s.ordinal() as usize, i);
        assert_eq!(s.display_name(), names[i]);
        assert_eq!(s.to_string(), names[i]);
    }
}

#[test]
fn test_stage_monotone_on_samples() {
    let mut prev = 0u8;
    for score in -120..=120 {
        let o = TrustStage::from_trust(score).ordinal();
        assert!(o >= prev);
        prev = o;
    }
}

#[test]
fn test_trust_event_impacts() {
    assert_eq!(TrustEvent::Cooperate(10).impact(), 10);
    assert_eq!(TrustEvent::Defect(-15).impact(), -15);
    assert_eq!(TrustEvent::Betray(-30).impact(), -30);
    assert!(TrustEvent::Forgive(8).is_positive());
    assert!(TrustEvent::Ignore(-5).is_negative());
}

#[test]
fn test_trust_event_default_impacts() {
    assert_eq!(TrustEvent::Cooperate(10).default_impact(), 10);
    assert_eq!(TrustEvent::Defect(-15).default_impact(), -15);
    assert_eq!(TrustEvent::Ignore(-5).default_impact(), -5);
    assert_eq!(TrustEvent::Forgive(8).default_impact(), 8);
    assert_eq!(TrustEvent::Betray(-30).default_impact(), -30);
}

#[test]
fn test_trust_event_impact_is_carried_value() {
    assert_eq!(TrustEvent::Betray(7).impact(), 7);
    assert_eq!(TrustEvent::Betray(7).default_impact(), -30);
    assert!(TrustEvent::Betray(7).is_positive());
    let zero = TrustEvent::Cooperate(0);
    assert!(!zero.is_positive());
    assert!(!zero.is_negative());
}

#[test]
fn test_trust_event_default() {
    assert_eq!(TrustEvent::default(), TrustEvent::Cooperate(10));
}
