use atomica::chargen::{Contagion, Stat, Vector};
use atomica::combat::{Footprint, Outcome, Team};
use atomica::hack::HackResult;
use atomica::hex::Hex;
use atomica::profile::{MovementProfile, TargetingProfile};
use atomica::rng::ScriptedRng;
use atomica::board::{Board, SeamOffset};
use atomica::tactics::{
    advance, can_host, close_step, death_reach, fight_over, flow_field, footprint_targets,
    hack_contest, in_vector, jump_candidates, movement_step, nearest_ally, nearest_enemy, nearest_hackable_enemy,
    net_defense, occupied_by_other, outcome, reach, resist_of, seeks_objective, select_target,
    woven_order, Blast, Combatant,
};
use atomica::terrain::{Ground, Terrain};
use atomica::combat::EquipmentTags;
use atomica::tactics::{contagion_attempts, hack_in_range, to_hit, Source, ToHit};

/// A living, melee-armed unit with id `id` of `team` at `(q, 0)`, advancing on the nearest.
fn unit(id: u32, team: Team, q: i32) -> Combatant {
    Combatant {
        id,
        team,
        alive: true,
        pos: Hex::new(q, 0),
        speed: 1,
        movement: MovementProfile::Advance,
        targeting: TargetingProfile::Nearest,
        bands: vec![(1, 1)],
        integrity_key: 30,
        threat_key: 10,
        armor_key: 0,
        link: 0,
        has_hack: false,
        hacking: 0,
        firewall: 0,
        mesh_synergy: 0,
        immunity: 0,
        biological: true,
        initiative_key: 5,
        link_key: 0,
    }
}

#[test]
fn the_standard_result_follows_the_living() {
    let mut units = vec![unit(0, Team::A, 0), unit(1, Team::B, 3)];
    assert_eq!(outcome(&units), Outcome::Ongoing);
    assert!(!fight_over(&units, false));
    assert!(fight_over(&units, true)); // a withdrawal ends it
    units[1].alive = false;
    assert_eq!(outcome(&units), Outcome::Winner(Team::A));
    units[0].alive = false;
    assert_eq!(outcome(&units), Outcome::Draw);
    units[1].alive = true;
    assert_eq!(outcome(&units), Outcome::Winner(Team::B));
}

#[test]
fn nearest_picks_distance_then_id() {
    let units = vec![unit(0, Team::A, 0), unit(7, Team::B, 3), unit(4, Team::B, -3), unit(2, Team::A, 5)];
    assert_eq!(nearest_enemy(&units, 0), Some(2)); // a tie at 3: the lower id
    assert_eq!(nearest_ally(&units, 0), Some(3));
    assert_eq!(nearest_ally(&units, 3), Some(0));
    let alone = vec![unit(0, Team::A, 0)];
    assert_eq!(nearest_enemy(&alone, 0), None);
}

#[test]
fn targeting_lowest_integrity_finishes_the_wounded_here_too() {
    let mut a = unit(0, Team::A, 0);
    a.targeting = TargetingProfile::LowestIntegrity;
    let healthy = unit(1, Team::B, 2);
    let mut wounded = unit(2, Team::B, 4);
    wounded.integrity_key = 5;
    assert_eq!(select_target(&[a, healthy, wounded], 0, &[]), Some(2));
}

#[test]
fn targeting_backline_and_threat_and_armor() {
    let mut a = unit(0, Team::A, 0);
    a.targeting = TargetingProfile::Backline;
    let front = unit(1, Team::B, 2);
    let mut back = unit(2, Team::B, 6);
    back.armor_key = 9;
    let mut units = vec![a, front, back];
    assert_eq!(select_target(&units, 0, &[]), Some(2));
    units[0].targeting = TargetingProfile::Nearest;
    assert_eq!(select_target(&units, 0, &[]), Some(1));
    units[0].targeting = TargetingProfile::HighestThreat;
    units[2].threat_key = 40;
    assert_eq!(select_target(&units, 0, &[]), Some(2));
    units[0].targeting = TargetingProfile::WeakestArmor;
    assert_eq!(select_target(&units, 0, &[]), Some(1));
}

#[test]
fn an_unarmed_enemy_on_a_focus_is_left_for_the_hackers() {
    let a = unit(0, Team::A, 0);
    let mut node = unit(1, Team::B, 2);
    node.bands = vec![];
    let grunt = unit(2, Team::B, 5);
    let units = vec![a, node, grunt];
    assert_eq!(select_target(&units, 0, &[Hex::new(2, 0)]), Some(2));
    assert_eq!(select_target(&units, 0, &[]), Some(1)); // off-objective it is fair game
}

#[test]
fn blast_friendly_fires_everyone_in_the_radius_but_the_attacker() {
    let units = vec![unit(0, Team::A, 0), unit(1, Team::B, 3), unit(2, Team::B, 4), unit(3, Team::A, 2)];
    assert_eq!(footprint_targets(&units, 0, 1, Footprint::Blast(1), false), vec![1, 2, 3]);
    assert_eq!(footprint_targets(&units, 0, 1, Footprint::Blast(1), true), vec![1, 2]);
}

#[test]
fn beam_strikes_every_unit_along_the_line_here_too() {
    let mut off = unit(4, Team::B, 1);
    off.pos = Hex::new(1, 1);
    let units = vec![unit(0, Team::A, 0), unit(1, Team::B, 1), unit(2, Team::A, 2), unit(3, Team::B, 3), off];
    assert_eq!(footprint_targets(&units, 0, 1, Footprint::Beam(4), false), vec![1, 2, 3]);
    // A smart beam spares the ally in its path.
    assert_eq!(footprint_targets(&units, 0, 1, Footprint::Beam(4), true), vec![1, 3]);
    // A single strike takes only its target.
    assert_eq!(footprint_targets(&units, 0, 1, Footprint::Single, false), vec![1]);
}

#[test]
fn an_occupied_lane_boxes_the_unit_in_here_too() {
    let open = Terrain::open_plane();
    let units = vec![unit(0, Team::A, 0), unit(1, Team::A, 1), unit(2, Team::B, 2)];
    assert!(occupied_by_other(&units, 0, Hex::new(1, 0)));
    assert!(!occupied_by_other(&units, 1, Hex::new(1, 0)));
    assert_eq!(movement_step(&units, &open, 0, 2), Hex::new(0, 0));
    let clear = vec![unit(0, Team::A, 0), unit(2, Team::B, 2)];
    assert_eq!(movement_step(&clear, &open, 0, 1), Hex::new(1, 0));
}

#[test]
fn hold_stays_kite_retreats_and_a_skirmisher_closes() {
    let open = Terrain::open_plane();
    let mut holder = unit(0, Team::A, 0);
    holder.movement = MovementProfile::Hold;
    assert_eq!(movement_step(&[holder, unit(1, Team::B, 5)], &open, 0, 1), Hex::new(0, 0));

    let mut kiter = unit(0, Team::A, 3);
    kiter.movement = MovementProfile::Kite;
    kiter.bands = vec![(1, 3)];
    let crowded = vec![kiter.clone(), unit(1, Team::B, 4)];
    let step = movement_step(&crowded, &open, 0, 1);
    assert_eq!(step, Hex::new(2, 0)); // straight back, farthest from the threat
    kiter.pos = Hex::new(0, 0);
    let far = vec![kiter, unit(1, Team::B, 6)];
    assert!(movement_step(&far, &open, 0, 1).distance(Hex::new(6, 0)) < 6);
}

#[test]
fn disperse_moves_away_from_the_nearest_ally() {
    let open = Terrain::open_plane();
    let mut spreader = unit(0, Team::A, 0);
    spreader.movement = MovementProfile::Disperse;
    let units = vec![spreader, unit(1, Team::A, 1), unit(2, Team::B, 9)];
    assert_eq!(movement_step(&units, &open, 0, 2), Hex::new(-1, 0));
}

#[test]
fn flank_takes_the_wide_approach() {
    let open = Terrain::open_plane();
    let mut flanker = unit(0, Team::A, 0);
    flanker.movement = MovementProfile::Flank;
    let mut target = unit(1, Team::B, 4);
    target.pos = Hex::new(4, -2);
    assert_eq!(movement_step(&[flanker, target], &open, 0, 1), Hex::new(1, 0));
}

#[test]
fn advance_paths_around_a_wall_here_too() {
    let mut mover = unit(0, Team::A, 0);
    mover.pos = Hex::new(0, 1);
    let mut target = unit(1, Team::B, 2);
    target.pos = Hex::new(2, 1);
    let terrain = Terrain::arena(6, 4).set(Hex::new(1, 1), Ground::Blocked);
    let units = vec![mover, target];
    assert_eq!(movement_step(&units, &terrain, 0, 1), Hex::new(0, 2));
}

#[test]
fn the_flow_field_counts_steps_from_the_goal() {
    let terrain = Terrain::arena(6, 4).set(Hex::new(1, 1), Ground::Blocked);
    let units = vec![unit(0, Team::A, 0)];
    let field = flow_field(&units, &terrain, 0, Hex::new(2, 1));
    let at = |h: Hex| field.iter().find(|e| e.0 == h).map(|e| e.1);
    assert_eq!(at(Hex::new(2, 1)), Some(0));
    assert_eq!(at(Hex::new(1, 1)), None); // the wall
    assert_eq!(at(Hex::new(1, 2)), Some(1));
    assert_eq!(at(Hex::new(0, 1)), Some(3)); // around the wall
    assert_eq!(at(Hex::new(20, 0)), None); // far past the fringe
}

#[test]
fn zone_friction_pins_a_kiter_at_the_edge_here_too() {
    let mut kiter = unit(0, Team::A, 0);
    kiter.movement = MovementProfile::Kite;
    kiter.bands = vec![(1, 3)];
    let mut foe = unit(1, Team::B, 1);
    foe.movement = MovementProfile::Hold;
    let open = Terrain::open_plane();
    let units = vec![kiter, foe];
    assert!(movement_step(&units, &open, 0, 1).distance(Hex::new(1, 0)) > 1);
    let zone = Terrain::arena(6, 4);
    let flee = movement_step(&units, &zone, 0, 1);
    assert!(zone.move_cost(flee) > 1);
    let mut moving = units.clone();
    let path = advance(&mut moving, &zone, Board::new(SeamOffset::Down), 0, Some(1), None);
    assert!(path.is_empty());
    assert!(zone.in_zone(moving[0].pos));
}

#[test]
fn speed_zero_never_moves_here_too() {
    let mut rooted = unit(0, Team::A, 0);
    rooted.speed = 0;
    let mut units = vec![rooted, unit(1, Team::B, 4)];
    let path = advance(&mut units, &Terrain::open_plane(), Board::new(SeamOffset::Down), 0, Some(1), None);
    assert!(path.is_empty());
    assert_eq!(units[0].pos, Hex::new(0, 0));
}

#[test]
fn a_fast_unit_closes_to_standoff_and_stops() {
    let mut runner = unit(0, Team::A, 0);
    runner.speed = 5;
    let mut units = vec![runner, unit(1, Team::B, 3)];
    let path = advance(&mut units, &Terrain::open_plane(), Board::new(SeamOffset::Down), 0, Some(1), None);
    assert_eq!(path, vec![Hex::new(1, 0), Hex::new(2, 0)]);
    assert_eq!(units[0].pos, Hex::new(2, 0)); // adjacent: the blade reaches, so it halts
}

#[test]
fn a_player_unit_flows_to_a_reach_objective_here_too() {
    let mut mover = unit(0, Team::A, 0);
    mover.speed = 2;
    let mut foe = unit(1, Team::B, 7);
    foe.movement = MovementProfile::Hold;
    let mut units = vec![mover, foe];
    let goal = Hex::new(4, 0);
    let path = advance(&mut units, &Terrain::arena(8, 4), Board::new(SeamOffset::Down), 0, Some(1), Some(goal));
    assert!(!path.is_empty());
    assert!(units[0].pos.distance(goal) < 4); // closed on the objective hex
}

#[test]
fn the_seam_joins_a_staggered_front_into_melee() {
    let a = unit(0, Team::A, 0);
    let mut b = unit(1, Team::B, 1);
    b.pos = Hex::new(1, 1);
    let units = vec![a, b];
    assert_eq!(reach(Board::new(SeamOffset::Up), &units, 0, 1), 1);
    assert_eq!(reach(Board::new(SeamOffset::Down), &units, 0, 1), 2);
}

#[test]
fn seekers_are_the_nearest_share_fanned_across_the_foci() {
    let units = vec![unit(0, Team::A, 0), unit(1, Team::A, 3), unit(2, Team::A, 6), unit(3, Team::B, 9)];
    let foci = [Hex::new(4, 0)];
    // 25% of a squad of three rounds to one seeker: the unit nearest the focus.
    assert_eq!(seeks_objective(&units, 1, &foci, 25), Some(Hex::new(4, 0)));
    assert_eq!(seeks_objective(&units, 0, &foci, 25), None);
    assert_eq!(seeks_objective(&units, 3, &foci, 25), None); // the enemy never seeks
    // Two foci and every unit seeking: each focus claims its nearest free seeker in turn.
    let spots = [Hex::new(0, 1), Hex::new(6, 1)];
    assert_eq!(seeks_objective(&units, 0, &spots, 100), Some(Hex::new(0, 1)));
    assert_eq!(seeks_objective(&units, 2, &spots, 100), Some(Hex::new(6, 1)));
    assert_eq!(seeks_objective(&units, 1, &spots, 100), Some(Hex::new(0, 1)));
}

#[test]
fn woven_order_interleaves_physical_and_digital_by_speed_here_too() {
    let mut runner = unit(0, Team::A, 0);
    runner.initiative_key = 1;
    runner.link = 6;
    runner.link_key = 6;
    runner.has_hack = true;
    let mut bruiser = unit(1, Team::B, 1);
    bruiser.initiative_key = 5;
    assert_eq!(woven_order(&[runner, bruiser]), vec![(0, true), (1, false), (0, false)]);
    let plain = woven_order(&[unit(0, Team::A, 0), unit(1, Team::B, 1)]);
    assert_eq!(plain, vec![(0, false), (1, false)]);
}

#[test]
fn hacks_need_a_deck_a_link_and_a_surface() {
    let mut atk = unit(0, Team::A, 0);
    let tgt = unit(1, Team::B, 1);
    let mut rng = ScriptedRng::from_d10([]);
    assert_eq!(hack_contest(&[atk.clone(), tgt.clone()], 0, 1, &mut rng), Err(HackResult::NoHack));
    atk.has_hack = true;
    assert_eq!(hack_contest(&[atk.clone(), tgt.clone()], 0, 1, &mut rng), Err(HackResult::Offline));
    atk.link = 3;
    assert_eq!(hack_contest(&[atk, tgt], 0, 1, &mut rng), Err(HackResult::NoSurface));
}

#[test]
fn the_channel_is_the_weaker_endpoints_link_here_too() {
    let mut atk = unit(0, Team::A, 0);
    atk.has_hack = true;
    atk.link = 6;
    atk.hacking = 14;
    let mut tgt = unit(1, Team::B, 0);
    tgt.link = 2;
    let mut rng = ScriptedRng::from_d10([2, 3]);
    let outcome = hack_contest(&[atk, tgt], 0, 1, &mut rng).unwrap();
    assert_eq!(outcome.margin, 3); // rating (14 + 2) / 2 = 8, dice 5
    assert!(outcome.success);
}

#[test]
fn a_firewall_rolls_back_against_the_hack() {
    let mut atk = unit(0, Team::A, 0);
    atk.has_hack = true;
    atk.link = 4;
    atk.hacking = 12;
    let mut tgt = unit(1, Team::B, 0);
    tgt.link = 4;
    tgt.firewall = 10;
    // The runner rolls 5 (connects) but the firewall rolls 6 (repels).
    let mut rng = ScriptedRng::from_d10([2, 3, 3, 3]);
    let outcome = hack_contest(&[atk, tgt], 0, 1, &mut rng).unwrap();
    assert!(!outcome.success);
    assert_eq!(outcome.margin, 3);
}

#[test]
fn an_allied_runner_covers_its_node() {
    let node = unit(0, Team::B, 0);
    let mut guard = unit(1, Team::B, 2);
    guard.has_hack = true;
    guard.link = 3;
    guard.hacking = 9;
    let mut units = vec![node, guard, unit(2, Team::A, 5)];
    units[0].firewall = 4;
    assert_eq!(net_defense(&units, 0), 9);
    units[1].pos = Hex::new(6, 0); // out of its antenna reach
    assert_eq!(net_defense(&units, 0), 4);
}

#[test]
fn a_runner_dives_the_node_before_the_nearest_grunt() {
    let mut atk = unit(0, Team::A, 0);
    atk.link = 5;
    let mut grunt = unit(1, Team::B, 1);
    grunt.link = 2;
    let mut node = unit(2, Team::B, 3);
    node.link = 2;
    let mut far = unit(3, Team::B, 9);
    far.link = 2;
    let units = vec![atk, grunt, node, far];
    assert_eq!(nearest_hackable_enemy(&units, 0, &[]), Some(1));
    assert_eq!(nearest_hackable_enemy(&units, 0, &[Hex::new(3, 0)]), Some(2));
    assert_eq!(nearest_hackable_enemy(&units, 0, &[Hex::new(9, 0)]), Some(1)); // out of reach
}

#[test]
fn death_triggers_reach_by_kind() {
    let mut dead = unit(0, Team::A, 0);
    dead.alive = false;
    let units = vec![dead, unit(1, Team::A, 1), unit(2, Team::B, -1), unit(3, Team::B, 5)];
    assert_eq!(death_reach(&units, 0, Blast::Detonate, 1), vec![1, 2]);
    assert_eq!(death_reach(&units, 0, Blast::Spill, 1), vec![2]);
    assert_eq!(death_reach(&units, 0, Blast::Legacy, 1), vec![1]);
}

#[test]
fn contagions_need_a_host_and_a_vector() {
    let mut chrome = unit(0, Team::A, 0);
    chrome.biological = false;
    let mut netted = unit(1, Team::B, 3);
    netted.link = 2;
    netted.firewall = 6;
    netted.immunity = 1;
    let units = vec![chrome, netted];
    let plague = Contagion { virulence: 8, resist: Stat::Immunity, vector: Vector::Proximity(1) };
    let worm = Contagion { virulence: 8, resist: Stat::Firewall, vector: Vector::Net };
    assert!(!can_host(&units, 0, plague));
    assert!(can_host(&units, 1, plague));
    assert!(!can_host(&units, 0, worm));
    assert!(can_host(&units, 1, worm));
    assert!(!in_vector(&units, 0, 1, plague.vector));
    assert!(in_vector(&units, 0, 1, worm.vector));
    assert_eq!(resist_of(&units, 1, Stat::Firewall), 6);
    assert_eq!(resist_of(&units, 1, Stat::Immunity), 1);
}

#[test]
fn a_contagion_jumps_only_to_fresh_reachable_hosts() {
    // a plague carrier at 0; flesh at 1 (adjacent), chrome at -1, flesh at 4 (too far),
    // a dead unit at 1 and an already-infected unit at -1 (flesh).
    let mut chrome = unit(2, Team::B, -1);
    chrome.biological = false;
    let mut dead = unit(4, Team::B, 1);
    dead.alive = false;
    let units = vec![
        unit(0, Team::A, 0),
        unit(1, Team::B, 1),
        chrome,
        unit(3, Team::A, 4),
        dead,
        Combatant { pos: Hex::new(0, -1), ..unit(5, Team::A, 0) },
    ];
    let plague = Contagion { virulence: 8, resist: Stat::Immunity, vector: Vector::Proximity(1) };
    let none = vec![false; 6];
    assert_eq!(jump_candidates(&units, 0, plague, &none), vec![1, 5]);
    let mut carrying = none.clone();
    carrying[5] = true;
    assert_eq!(jump_candidates(&units, 0, plague, &carrying), vec![1]);
}

#[test]
fn a_closing_step_never_lands_on_a_unit() {
    let open = Terrain::open_plane();
    let units = vec![unit(0, Team::A, 0), unit(1, Team::B, 1)];
    // The enemy is adjacent: the step toward it cannot enter its hex.
    assert_eq!(close_step(&units, &open, 0, Hex::new(1, 0), false), Hex::new(0, 0));
}

#[test]
fn the_to_hit_numbers_sum_range_cover_and_speed() {
    // a ranged rifle at long range (5) into cover 2: penalty 4 + 2; aim 14 + 1 - 6; dodge 8 - 3
    let h = to_hit(EquipmentTags::ranged(), 5, 2, 14, 1, 8, 3);
    assert_eq!(h, Some(ToHit { aim: 9, penalty: 6, evade: 5 }));
    // an awkward weapon point-blank in the open
    let h = to_hit(EquipmentTags::awkward(), 1, 0, 12, 0, 6, 1);
    assert_eq!(h, Some(ToHit { aim: 10, penalty: 2, evade: 5 }));
    // numbers no roll can be made with
    assert_eq!(to_hit(EquipmentTags::none(), 1, 0, i32::MIN, 0, 6, 1), None);
}

#[test]
fn a_phase_tries_each_host_once_per_family_and_never_a_carrier() {
    let units = vec![unit(0, Team::A, 0), unit(1, Team::B, 1), unit(2, Team::A, 1), unit(3, Team::B, -1)];
    let plague = Contagion { virulence: 8, resist: Stat::Immunity, vector: Vector::Proximity(2) };
    let sources = vec![
        Source { carrier: 0, contagion: plague, family: Some(0) },
        Source { carrier: 1, contagion: plague, family: Some(0) },
        Source { carrier: 1, contagion: plague, family: None },
    ];
    // unit 3 already carries family 0
    let carried = vec![(0usize, 0u32), (1, 0), (3, 0)];
    let plan = contagion_attempts(&units, &sources, &carried);
    // source 0 tries unit 2 only; source 1 finds 2 already tried; the familyless source
    // tries everyone it reaches.
    assert_eq!(plan, vec![(0, 2), (2, 0), (2, 2), (2, 3)]);
}

#[test]
fn a_hack_in_range_keeps_its_numbers_inside_i32() {
    let mut runner = unit(0, Team::A, 0);
    runner.has_hack = true;
    runner.link = 4;
    runner.hacking = 15;
    let mut target = unit(1, Team::B, 3);
    target.link = 2;
    assert!(hack_in_range(&vec![runner.clone(), target.clone()], 0, 1));
    runner.hacking = i32::MAX;
    assert!(!hack_in_range(&vec![runner, target], 0, 1));
}
