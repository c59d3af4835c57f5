use atomica::hex::Hex;
use atomica::terrain::{in_zone, move_cost, pathable, Bounds, Ground, Terrain};

#[test]
fn an_open_board_is_all_passable_at_cost_one() {
    let t = Terrain::open_plane();
    assert!(t.passable(Hex::new(100, -50)));
    assert_eq!(t.move_cost(Hex::new(100, -50)), 1);
    assert_eq!(t.cover_tn(Hex::new(0, 0)), 0);
    assert!(!t.is_hazard(Hex::new(0, 0)));
}

#[test]
fn the_zone_edge_is_soft_friction_not_a_wall() {
    let t = Terrain::arena(8, 6);
    assert_eq!(t.move_cost(Hex::new(3, 3)), 1);
    assert!(t.passable(Hex::new(8, 0)));
    assert_eq!(t.move_cost(Hex::new(8, 0)), 2);
    assert_eq!(t.move_cost(Hex::new(10, 0)), 4);
    assert!(!t.pathable(Hex::new(20, 0)));
}

#[test]
fn blockers_cover_and_hazards_report_their_rules() {
    let t = Terrain::arena(8, 6)
        .set(Hex::new(3, 3), Ground::Blocked)
        .set(Hex::new(4, 2), Ground::Cover(3))
        .set(Hex::new(2, 4), Ground::Hazard);
    assert!(!t.passable(Hex::new(3, 3)));
    assert_eq!(t.cover_tn(Hex::new(4, 2)), 3);
    assert!(t.is_hazard(Hex::new(2, 4)));
    assert!(t.passable(Hex::new(4, 2)) && t.passable(Hex::new(2, 4)));
}

#[test]
fn setting_open_ground_clears_a_feature_and_the_last_placement_wins() {
    let t = Terrain::arena(8, 6)
        .set(Hex::new(1, 1), Ground::Blocked)
        .set(Hex::new(1, 1), Ground::Cover(2));
    assert_eq!(t.tile(Hex::new(1, 1)), Ground::Cover(2));
    let cleared = t.set(Hex::new(1, 1), Ground::Open);
    assert_eq!(cleared.tile(Hex::new(1, 1)), Ground::Open);
}

#[test]
fn fill_paints_only_inside_the_zone() {
    let wall = [Hex::new(2, 0), Hex::new(2, 1), Hex::new(9, 9)];
    let t = Terrain::arena(4, 4).fill(&wall, Ground::Blocked);
    assert!(!t.passable(Hex::new(2, 0)));
    assert!(!t.passable(Hex::new(2, 1)));
    assert!(t.passable(Hex::new(9, 9))); // outside the zone: ignored
    assert_eq!(t.zone(), Some(Bounds { min_q: 0, max_q: 3, min_r: 0, max_r: 3 }));
}

#[test]
fn zone_helpers_read_an_optional_zone() {
    let z = Some(Bounds::arena(8, 6));
    assert!(in_zone(z, Hex::new(3, 3)));
    assert!(!in_zone(z, Hex::new(8, 0)));
    assert!(in_zone(None, Hex::new(80, 0)));
    assert_eq!(move_cost(z, Hex::new(10, 0)), 4);
    assert!(pathable(z, Hex::new(10, 0)));
    assert!(!pathable(z, Hex::new(11, 0)));
    assert_eq!(Bounds::arena(8, 6).clamp(Hex::new(-3, 9)), Hex::new(0, 5));
    assert_eq!(Bounds::arena(8, 6).overshoot(Hex::new(-3, 9)), 4);
}
