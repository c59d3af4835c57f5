use atomica::{Board, Hex, ScriptedRng, SeamOffset, SplitMix64};

#[test]
fn down_offset_pairs_the_natural_axial_diagonal() {
    let b = Board::new(SeamOffset::Down);
    let pairs = b.frontage_pairs(Hex::new(0, 0));
    assert!(pairs.contains(&Hex::new(1, 0)));
    assert!(pairs.contains(&Hex::new(1, -1)));
    // both are genuine grid neighbours (distance 1).
    assert!(pairs.iter().all(|h| h.distance(Hex::new(0, 0)) == 1));
}

#[test]
fn up_offset_pairs_the_other_diagonal() {
    let b = Board::new(SeamOffset::Up);
    let pairs = b.frontage_pairs(Hex::new(0, 0));
    assert!(pairs.contains(&Hex::new(1, 0)));
    assert!(pairs.contains(&Hex::new(1, 1)));
    // (1,1) is grid distance 2 — the seam stagger closes it.
    assert_eq!(Hex::new(0, 0).distance(Hex::new(1, 1)), 2);
}

#[test]
fn engagement_is_order_independent() {
    let b = Board::new(SeamOffset::Up);
    let (a, c) = (Hex::new(0, 0), Hex::new(1, 1));
    assert!(b.engages(a, c));
    assert!(b.engages(c, a));
    // a non-pair across two columns does not engage.
    assert!(!b.engages(a, Hex::new(2, 0)));
}

#[test]
fn roll_is_deterministic_per_rng() {
    let a = Board::roll(&mut SplitMix64::new(42)).offset;
    let b = Board::roll(&mut SplitMix64::new(42)).offset;
    assert_eq!(a, b);
}

#[test]
fn roll_reads_the_low_bit_of_the_draw() {
    assert_eq!(Board::roll(&mut ScriptedRng::new([6])).offset, SeamOffset::Down);
    assert_eq!(Board::roll(&mut ScriptedRng::new([7])).offset, SeamOffset::Up);
}

#[test]
fn the_default_board_is_the_natural_pairing() {
    assert_eq!(Board::default().offset, SeamOffset::Down);
    assert!(Board::default().engages(Hex::new(0, 0), Hex::new(1, -1)));
    assert!(!Board::default().engages(Hex::new(0, 0), Hex::new(1, 1)));
}
