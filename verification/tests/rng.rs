use atomica::{RandomSource, ScriptedRng, SplitMix64};

#[test]
fn same_seed_same_stream() {
    let mut a = SplitMix64::new(42);
    let mut b = SplitMix64::new(42);
    for _ in 0..1000 {
        assert_eq!(a.next_u64(), b.next_u64());
    }
}

#[test]
fn scripted_d6_faces_come_back_exact() {
    let mut r = ScriptedRng::from_d6([1, 4, 6]);
    assert_eq!(r.d6(), 1);
    assert_eq!(r.d6(), 4);
    assert_eq!(r.d6(), 6);
}

#[test]
fn scripted_3d6_sums() {
    let mut r = ScriptedRng::from_d6([6, 6, 6]);
    assert_eq!(r.roll_3d6(), 18);
}

#[test]
fn splitmix_matches_the_reference_output() {
    // SplitMix64 seeded with 0 yields 0xE220A8397B1DCDAF first.
    let mut r = SplitMix64::new(0);
    assert_eq!(r.next_u64(), 0xE220_A839_7B1D_CDAF);
    assert_eq!(r.next_u64(), 0x6E78_9E6A_A1B9_65F4);
}

#[test]
fn scripted_faces_are_clamped_onto_the_die() {
    let mut r = ScriptedRng::from_d6([0, 9]);
    assert_eq!(r.d6(), 1);
    assert_eq!(r.d6(), 6);
    let mut r = ScriptedRng::from_d10([10, 3]);
    assert_eq!(r.roll_2d10(), 13);
}

#[test]
fn range_is_inclusive_and_degenerate_ranges_do_not_draw() {
    let mut r = ScriptedRng::new([7, 12]);
    assert_eq!(r.range(5, 5), 5); // no draw
    assert_eq!(r.range(9, 2), 9); // no draw
    assert_eq!(r.range(1, 6), 1 + 7 % 6);
    assert_eq!(r.range(-3, 3), -3 + 12 % 7);
}

#[test]
fn raw_scripted_values_come_back_in_order() {
    let mut r = ScriptedRng::new([3, 1, 4]);
    assert_eq!(r.next_u64(), 3);
    assert_eq!(r.next_u64(), 1);
    assert_eq!(r.next_u64(), 4);
}
