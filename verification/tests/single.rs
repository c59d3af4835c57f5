use atomica::single::single_share;

/// The share as the battle computes it in single precision.
fn native(pct: u32, size: u64) -> u128 {
    (pct as f32 / 100.0 * size as f32).round() as u128
}

#[test]
fn the_share_matches_single_precision_on_small_squads() {
    for pct in 0..=300u32 {
        for size in 0..=200u64 {
            assert_eq!(single_share(pct, size), native(pct, size), "{pct}% of {size}");
        }
    }
}

#[test]
fn the_share_keeps_the_single_precision_rounding() {
    // 53% of 50 is 26.5 exactly, but 0.53 is just under in single precision.
    assert_eq!(single_share(53, 50), 26);
    assert_eq!(single_share(50, 3), 2); // 1.5 rounds away from zero
    assert_eq!(single_share(25, 4), 1);
    assert_eq!(single_share(0, 9), 0);
}

#[test]
fn the_share_matches_single_precision_at_scale() {
    let pcts = [1u32, 7, 33, 53, 99, 100, 101, 12_345, 16_777_217, 1 << 30, u32::MAX];
    let sizes = [1u64, 3, 1000, 16_777_217, 123_456_789, 1 << 40, u64::MAX / 3, u64::MAX];
    for &p in &pcts {
        for &s in &sizes {
            assert_eq!(single_share(p, s), native(p, s), "{p}% of {s}");
        }
    }
}
