use rinnd::rng::{mix64, FastRng};
use rinnd::single::{max_abs, Single};

fn of(x: f32) -> Single {
    Single { bits: x.to_bits() }
}

#[test]
fn comparisons_agree_with_the_machine() {
    let samples = [
        0.0f32, -0.0, 1.0, -1.0, 1e-8, 9.9e-9, -9.9e-9, 3.5, f32::MAX, f32::MIN, f32::INFINITY,
        f32::NEG_INFINITY, f32::NAN, -f32::NAN, f32::MIN_POSITIVE, 1e-40, -1e-40,
    ];
    for &a in &samples {
        assert_eq!(of(a).abs().bits, a.abs().to_bits());
        assert_eq!(of(a).is_nan(), a.is_nan());
        assert_eq!(of(a).is_tie(), a.abs() < 1e-8);
        for &b in &samples {
            assert_eq!(of(a).lt(of(b)), a < b);
            assert_eq!(of(a).ge(of(b)), a >= b);
            assert_eq!(of(a).total_key().cmp(&of(b).total_key()), a.total_cmp(&b));
            let larger = of(a).abs().max(of(b).abs());
            let expected = a.abs().max(b.abs());
            assert!(larger.bits == expected.to_bits() || expected.is_nan());
        }
    }
    assert_eq!(Single::infinity(), of(f32::INFINITY));
    assert_eq!(Single::zero(), of(0.0));
}

#[test]
fn peak_passes_over_what_is_no_number() {
    assert_eq!(max_abs(&[]), of(0.0));
    assert_eq!(max_abs(&[of(0.5), of(-2.0), of(f32::NAN), of(1.0)]), of(2.0));
}

#[test]
fn generator_is_seeded_and_bounded() {
    // Reference values of the scrambling function.
    assert_eq!(mix64(0), 0xe220_a839_7b1d_cdaf);
    assert_eq!(mix64(0x61c8_8646_80b5_83eb), 0);
    let mut a = FastRng::new(42);
    let mut b = FastRng::new(42);
    assert_eq!(a.next_u64(), b.next_u64());
    assert_eq!(FastRng::new(0).next_u64(), 0xe220_a839_7b1d_cdaf);
    let mut seen = [false; 7];
    for _ in 0..200 {
        seen[a.next_index(7)] = true;
    }
    assert!(seen.iter().all(|&s| s));
    let heads = (0..200).filter(|_| a.next_bool()).count();
    assert!(heads > 50 && heads < 150);
}
