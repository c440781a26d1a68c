use ordered_float::OrderedFloat;
use sequencer::time_key::time_key;
use std::cmp::Ordering;

fn key(t: f32) -> u32 {
    time_key(t.to_bits())
}

#[test]
fn zero_and_signed_zero_share_a_key() {
    assert_eq!(key(0.0), 0x7f80_0000);
    assert_eq!(key(-0.0), 0x7f80_0000);
}

#[test]
fn exact_keys() {
    assert_eq!(key(1.0), 0xbf00_0000);
    assert_eq!(key(-1.0), 0x4000_0000);
    assert_eq!(key(f32::INFINITY), 0xff00_0000);
    assert_eq!(key(f32::NEG_INFINITY), 0);
    assert_eq!(key(f32::NAN), 0xff00_0001);
    assert_eq!(key(-f32::NAN), 0xff00_0001);
    assert_eq!(time_key(0x7fc0_1234), 0xff00_0001);
}

#[test]
fn nan_comes_after_infinity() {
    assert!(key(f32::NAN) > key(f32::INFINITY));
    assert!(key(f32::NAN) > key(f32::MAX));
}

#[test]
fn keys_order_as_ordered_floats() {
    let mut samples = vec![
        0.0f32, -0.0, 1.0, -1.0, 0.25, 0.5, 0.75, 1.5, 440.0, -440.0, 1e-45, -1e-45,
        f32::MIN_POSITIVE, f32::MAX, f32::MIN, f32::INFINITY, f32::NEG_INFINITY, f32::NAN,
        f32::EPSILON, 3.0e38, -3.0e38, 2.0 / 3.0, 100.0, 1000.0, 4000.0, 50.0,
    ];
    let mut x: u32 = 0x1234_5678;
    for _ in 0..2000 {
        x ^= x << 13;
        x ^= x >> 17;
        x ^= x << 5;
        samples.push(f32::from_bits(x));
    }
    for a in &samples {
        for b in samples.iter().take(200) {
            let by_float = OrderedFloat(*a).cmp(&OrderedFloat(*b));
            let by_key = key(*a).cmp(&key(*b));
            assert_eq!(by_float, by_key, "{} vs {}", a, b);
        }
    }
    assert_eq!(key(0.25).cmp(&key(0.5)), Ordering::Less);
}
