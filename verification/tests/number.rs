use ablation::config::AblationConfig;
use ablation::number::Double;
use ablation::number::Single;

fn double(x: f64) -> Double {
    Double { bits: x.to_bits() }
}

fn single(x: f32) -> Single {
    Single { bits: x.to_bits() }
}

#[test]
fn doubles_compare_as_numbers_do() {
    let values = [
        f64::NEG_INFINITY,
        f64::MIN,
        -2.5,
        -1.0,
        -f64::MIN_POSITIVE,
        -5e-324,
        -0.0,
        0.0,
        5e-324,
        f64::MIN_POSITIVE,
        0.05,
        0.8,
        1.0 - f64::EPSILON,
        1.0,
        2.5,
        f64::MAX,
        f64::INFINITY,
        f64::NAN,
        -f64::NAN,
    ];
    for &a in &values {
        for &b in &values {
            assert_eq!(double(a).is_less(double(b)), a < b, "{} < {}", a, b);
            assert_eq!(double(a).is_at_most(double(b)), a <= b, "{} <= {}", a, b);
        }
    }
}

#[test]
fn millionths_reach_a_threshold_as_their_quotient_does() {
    let thresholds: [f32; 22] = [
        0.85,
        0.5,
        0.9,
        0.1,
        0.3333333,
        0.99999994,
        1.0,
        1.0000001,
        0.0,
        -0.0,
        -1.0,
        1e-6,
        1.1e-6,
        1e-30,
        1e-45,
        1e30,
        4294.9673,
        5000.0,
        f32::MAX,
        f32::INFINITY,
        f32::NEG_INFINITY,
        f32::NAN,
    ];
    for &t in &thresholds {
        let mut micros: Vec<u32> = vec![0, 1, 2, 849_999, 850_000, 850_001, 999_999, 1_000_000, u32::MAX];
        let near = (t as f64 * 1e6) as u32;
        for d in 0..4u32 {
            micros.push(near.saturating_sub(d));
            micros.push(near.saturating_add(d));
        }
        for &m in &micros {
            let f = m as f64 / 1e6;
            assert_eq!(single(t).is_reached_by(m), f >= t as f64, "{} of {}", m, t);
        }
    }
}

#[test]
fn every_millionth_is_compared_with_the_default_threshold_exactly() {
    let t: f32 = 0.85;
    for m in 0..=1_000_000u32 {
        assert_eq!(single(t).is_reached_by(m), m as f64 / 1e6 >= t as f64);
    }
}

#[test]
fn the_default_settings_are_these() {
    let cfg = AblationConfig::default();
    assert_eq!(cfg.seed, 42);
    assert_eq!(cfg.learners, 8);
    assert_eq!(cfg.cards, 200);
    assert_eq!(cfg.days, 150);
    assert_eq!(cfg.probe_rate.bits, 0.5f32.to_bits());
    assert_eq!(cfg.probe_threshold.bits, 0.85f32.to_bits());
    assert_eq!(cfg.rote_fraction.bits, 0.4f64.to_bits());
    assert_eq!(cfg.heldback_every, 5);
}
