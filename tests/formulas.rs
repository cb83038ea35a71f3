use cybernetics_core::{
    analyze_distortion, calculate_axiological_integrity, calculate_control_leverage,
    calculate_distortion, calculate_feedback_multiplier, calculate_total_power, RelationType,
    DISTORTION_INFINITY, SCALE,
};

#[test]
fn test_feedback_multiplier() {
    let types = vec![RelationType::PositiveFeedback, RelationType::PositiveFeedback];
    let result = calculate_feedback_multiplier(&types);
    assert_eq!(result, 2_250_000); // 1.5 * 1.5
}

#[test]
fn feedback_multiplier_mixed() {
    let types = vec![
        RelationType::PositiveFeedback,
        RelationType::DirectControl,
        RelationType::PositiveFeedback,
        RelationType::Supply,
        RelationType::NegativeFeedback,
    ];
    assert_eq!(calculate_feedback_multiplier(&types), 1_575_000);
}

#[test]
fn feedback_multiplier_empty_is_one() {
    assert_eq!(calculate_feedback_multiplier(&[]), SCALE);
}

#[test]
fn test_control_leverage() {
    let leverage = calculate_control_leverage(10 * SCALE, 500_000, 800_000);
    assert_eq!(leverage, 4 * SCALE); // 10 * 0.5 * 0.8
}

#[test]
fn test_calculate_total_power() {
    let power = calculate_total_power(100 * SCALE, 800_000, 10 * SCALE);
    assert_eq!(power, 800 * SCALE);
}

#[test]
fn total_power_zero_factor_collapses() {
    assert_eq!(calculate_total_power(100 * SCALE, 0, 10 * SCALE), 0);
}

#[test]
fn total_power_saturates() {
    assert_eq!(calculate_total_power(i64::MAX, i64::MAX, SCALE), i64::MAX);
}

#[test]
fn test_axiological_integrity_full_agreement() {
    assert_eq!(calculate_axiological_integrity(SCALE, SCALE), SCALE);
}

#[test]
fn test_axiological_integrity_contradiction() {
    assert_eq!(calculate_axiological_integrity(SCALE, -SCALE), 0);
}

#[test]
fn test_axiological_integrity_neutral() {
    assert_eq!(calculate_axiological_integrity(SCALE, 0), SCALE / 2);
}

#[test]
fn test_distortion_neutral() {
    assert_eq!(calculate_distortion(100 * SCALE, 100 * SCALE), SCALE);
}

#[test]
fn test_distortion_propaganda() {
    assert_eq!(calculate_distortion(200 * SCALE, 100 * SCALE), 2 * SCALE);
}

#[test]
fn test_distortion_suppression() {
    assert_eq!(calculate_distortion(50 * SCALE, 100 * SCALE), SCALE / 2);
}

#[test]
fn distortion_of_nothing_is_one() {
    assert_eq!(calculate_distortion(0, 0), SCALE);
}

#[test]
fn distortion_from_nothing_is_infinite() {
    assert_eq!(calculate_distortion(5 * SCALE, 0), DISTORTION_INFINITY);
}

#[test]
fn distortion_negative_real() {
    assert_eq!(calculate_distortion(50 * SCALE, -100 * SCALE), -SCALE / 2);
}

#[test]
fn test_analyze_distortion() {
    let analysis = analyze_distortion(150 * SCALE, 100 * SCALE);
    assert_eq!(analysis.distortion_coefficient, 1_500_000);
    assert!(analysis.is_distorted);
    assert_eq!(analysis.distortion_type(), "propaganda");

    let analysis2 = analyze_distortion(100 * SCALE, 100 * SCALE);
    assert_eq!(analysis2.distortion_coefficient, SCALE);
    assert!(!analysis2.is_distorted);
    assert_eq!(analysis2.distortion_type(), "neutral");
}

#[test]
fn analyze_distortion_classifications() {
    let a = analyze_distortion(200 * SCALE, 100 * SCALE);
    assert_eq!(a.distortion_coefficient, 2 * SCALE);
    assert_eq!(a.distortion_type(), "propaganda");
    let b = analyze_distortion(50 * SCALE, 100 * SCALE);
    assert_eq!(b.distortion_coefficient, SCALE / 2);
    assert!(b.is_distorted);
    assert_eq!(b.distortion_type(), "suppression");
    let c = analyze_distortion(104 * SCALE, 100 * SCALE);
    assert!(!c.is_distorted);
    assert_eq!(c.distortion_type(), "neutral");
    let d = analyze_distortion(106 * SCALE, 100 * SCALE);
    assert!(d.is_distorted);
    assert_eq!(d.distortion_type, "propaganda");
}

#[test]
fn finite_distortion_stays_below_infinity() {
    assert_eq!(calculate_distortion(i64::MAX, 1), DISTORTION_INFINITY - 1);
    assert_eq!(calculate_distortion(-5 * SCALE, 0), DISTORTION_INFINITY);
}
