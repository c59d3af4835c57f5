use atomica::Hex;

#[test]
fn distance_basics() {
    assert_eq!(Hex::new(0, 0).distance(Hex::new(0, 0)), 0);
    assert_eq!(Hex::new(0, 0).distance(Hex::new(3, 0)), 3);
    for n in Hex::new(0, 0).neighbors() {
        assert_eq!(Hex::new(0, 0).distance(n), 1);
    }
}

#[test]
fn step_reduces_distance() {
    let start = Hex::new(0, 0);
    let goal = Hex::new(4, -2);
    let next = start.step_toward(goal);
    assert!(next.distance(goal) < start.distance(goal));
}

#[test]
fn blast_footprint_matches_the_spec() {
    let c = Hex::new(2, -1);
    // footprint 1 = 7 hexes, footprint 2 = 19.
    assert_eq!(c.within(1).len(), 7);
    assert_eq!(c.within(2).len(), 19);
    // Everything is within range, and the centre is included.
    assert!(c.within(2).iter().all(|h| c.distance(*h) <= 2));
    assert!(c.within(1).contains(&c));
}

#[test]
fn ring_is_six_per_radius() {
    let c = Hex::new(-3, 1);
    assert_eq!(c.ring(0), vec![c]);
    assert_eq!(c.ring(1).len(), 6);
    assert_eq!(c.ring(2).len(), 12);
    // A ring sits at exactly its radius.
    assert!(c.ring(2).iter().all(|h| c.distance(*h) == 2));
}

#[test]
fn step_away_increases_distance() {
    let pos = Hex::new(0, 0);
    let threat = Hex::new(2, 0);
    let away = pos.step_away(threat);
    assert!(away.distance(threat) > pos.distance(threat)); // retreated
    assert_eq!(pos.distance(away), 1); // exactly one step
}

#[test]
fn step_flank_still_closes_in() {
    let pos = Hex::new(0, 0);
    let goal = Hex::new(4, 0);
    let flanked = pos.step_flank(goal);
    assert!(flanked.distance(goal) < pos.distance(goal)); // approaches
}

#[test]
fn beam_line_walks_straight() {
    let start = Hex::new(0, 0);
    let beam = start.line(0, 4); // footprint-1 beam, 4 long
    assert_eq!(beam.len(), 4);
    assert_eq!(beam[0], start);
    // Each step is one hex farther along.
    for (i, h) in beam.iter().enumerate() {
        assert_eq!(start.distance(*h), i as i32);
    }
}

#[test]
fn distance_is_symmetric_and_obeys_the_triangle_inequality() {
    let (a, b, c) = (Hex::new(-2, 5), Hex::new(3, -1), Hex::new(0, 7));
    assert_eq!(a.distance(b), b.distance(a));
    assert!(a.distance(c) <= a.distance(b) + b.distance(c));
    assert_eq!(a.distance(b), 6);
}

#[test]
fn neighbors_follow_the_axial_direction_order() {
    let n = Hex::new(1, 1).neighbors();
    assert_eq!(
        n,
        [
            Hex::new(2, 1),
            Hex::new(2, 0),
            Hex::new(1, 0),
            Hex::new(0, 1),
            Hex::new(0, 2),
            Hex::new(1, 2)
        ]
    );
}

#[test]
fn step_toward_stays_put_when_adjacent_and_takes_the_first_best_direction() {
    assert_eq!(Hex::new(0, 0).step_toward(Hex::new(1, 0)), Hex::new(0, 0));
    assert_eq!(Hex::new(0, 0).step_toward(Hex::new(0, 0)), Hex::new(0, 0));
    // Straight down the q axis: direction 0 is the first closer neighbour.
    assert_eq!(Hex::new(0, 0).step_toward(Hex::new(3, 0)), Hex::new(1, 0));
    // Toward (2, 2): (1, 0) and (0, 1) both close to distance 3; direction 0 wins the tie.
    assert_eq!(Hex::new(0, 0).step_toward(Hex::new(2, 2)), Hex::new(1, 0));
}

#[test]
fn direction_to_picks_the_closing_bearing() {
    assert_eq!(Hex::new(0, 0).direction_to(Hex::new(5, 0)), 0);
    assert_eq!(Hex::new(0, 0).direction_to(Hex::new(0, -4)), 2);
    assert_eq!(Hex::new(0, 0).direction_to(Hex::new(-3, 3)), 4);
}

#[test]
fn step_away_breaks_ties_toward_lower_coordinates() {
    // From the threat's own hex every neighbour is one away; the lowest q, then r, wins.
    assert_eq!(Hex::new(0, 0).step_away(Hex::new(0, 0)), Hex::new(-1, 0));
    assert_eq!(Hex::new(0, 0).step_away(Hex::new(2, 0)), Hex::new(-1, 0));
}

#[test]
fn step_flank_prefers_the_wide_approach() {
    // Toward (4, -2): the closing steps are (1, 0) and (1, -1); the wider row offset wins.
    assert_eq!(Hex::new(0, 0).step_flank(Hex::new(4, -2)), Hex::new(1, 0));
    // Toward (4, 0) only (1, 0) closes in.
    assert_eq!(Hex::new(0, 0).step_flank(Hex::new(4, 0)), Hex::new(1, 0));
    // On the goal, it holds.
    assert_eq!(Hex::new(2, 2).step_flank(Hex::new(2, 2)), Hex::new(2, 2));
}

#[test]
fn within_lists_columns_left_to_right_and_rows_top_down() {
    let c = Hex::new(0, 0);
    assert_eq!(
        c.within(1),
        vec![
            Hex::new(-1, 1),
            Hex::new(-1, 0),
            Hex::new(0, 1),
            Hex::new(0, 0),
            Hex::new(0, -1),
            Hex::new(1, 0),
            Hex::new(1, -1)
        ]
    );
    assert!(c.within(-1).is_empty());
    assert_eq!(c.within(0), vec![c]);
}

#[test]
fn ring_walks_from_the_corner() {
    assert_eq!(
        Hex::new(0, 0).ring(1),
        vec![
            Hex::new(-1, 1),
            Hex::new(0, 1),
            Hex::new(1, 0),
            Hex::new(1, -1),
            Hex::new(0, -1),
            Hex::new(-1, 0)
        ]
    );
    assert_eq!(Hex::new(4, 4).ring(-2), vec![Hex::new(4, 4)]);
}

#[test]
fn a_line_of_no_length_is_empty_and_direction_wraps() {
    assert!(Hex::new(0, 0).line(3, 0).is_empty());
    assert!(Hex::new(0, 0).line(3, -5).is_empty());
    assert_eq!(Hex::new(0, 0).line(8, 3), vec![Hex::new(0, 0), Hex::new(0, -1), Hex::new(0, -2)]);
}
