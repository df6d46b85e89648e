use ternary_trust::{ReputationScore, TrustStage};

#[test]
fn test_reputation_min_max() {
    let rs = ReputationScore::new(&[-10, 25, 50, -5]);
    assert_eq!(rs.min(), -10);
    assert_eq!(rs.max(), 50);
}

#[test]
fn test_reputation_consensus() {
    let rs = ReputationScore::new(&[10, -5, 0, 20, -10]);
    // 3 non-negative out of 5
    let consensus = rs.non_negative_count() as f64 / rs.scores.len() as f64;
    assert!((consensus - 0.6).abs() < 0.001);
}

#[test]
fn test_reputation_stage() {
    let rs = ReputationScore::new(&[50, 60, 55]);
    assert_eq!(rs.stage(), TrustStage::Companion);
}

#[test]
fn test_reputation_empty() {
    let rs = ReputationScore::new(&[]);
    assert_eq!(rs.scores.len(), 0);
    assert_eq!(rs.min(), 0);
    assert_eq!(rs.max(), 0);
    assert_eq!(rs.stage(), TrustStage::Acquaintance);
}

#[test]
fn test_reputation_new_clamps() {
    let rs = ReputationScore::new(&[250, -250, 7]);
    assert_eq!(rs.scores, vec![100, -100, 7]);
}

#[test]
fn test_reputation_stage_rounding() {
    // average 19.5 rounds away from zero to 20: Friend
    let rs = ReputationScore::new(&[19, 20]);
    assert_eq!(rs.stage(), TrustStage::Friend);
    // average -0.5 rounds to -1: Wary
    let rs = ReputationScore::new(&[0, -1]);
    assert_eq!(rs.stage(), TrustStage::Wary);
    // average -20.4 rounds to -20: Wary; -20.5 rounds to -21: Stranger
    let rs = ReputationScore::new(&[-20, -20, -20, -20, -22]);
    assert_eq!(rs.stage(), TrustStage::Wary);
    let rs = ReputationScore::new(&[-20, -21]);
    assert_eq!(rs.stage(), TrustStage::Stranger);
}

#[test]
fn test_reputation_min_max_on_raw_scores() {
    let rs = ReputationScore { scores: vec![i32::MAX, i32::MIN, 3] };
    assert_eq!(rs.min(), i32::MIN);
    assert_eq!(rs.max(), i32::MAX);
    assert!(rs.min() <= rs.max());
    assert_eq!(rs.non_negative_count(), 2);
}

#[test]
fn test_reputation_total() {
    assert_eq!(ReputationScore::new(&[10, 20, 30]).total(), 60);
    assert_eq!(ReputationScore::new(&[]).total(), 0);
    let raw = ReputationScore { scores: vec![i32::MAX, i32::MAX, i32::MIN] };
    assert_eq!(raw.total(), 2 * i32::MAX as i128 + i32::MIN as i128);
}
