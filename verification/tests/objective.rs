use atomica::{
    FoundAction, Goal, Hex, Hold, MarginLoss, Objective, ObjectiveKind, ObjectiveStatus,
    Objectives, Reach, Survive, Team, UnitView, WinFight, ActiveObjective,
};

/// A living unit of `team` standing at `(q, 0)`.
fn unit(team: Team, q: i32) -> UnitView {
    UnitView { alive: true, team, pos: Hex::new(q, 0) }
}

#[test]
fn winfight_tracks_the_standard_result() {
    let won = vec![unit(Team::A, 0)]; // only player alive ⇒ enemy wiped
    assert_eq!(WinFight.status(&won, 1, true), ObjectiveStatus::Achieved);
    let mut lost = vec![unit(Team::A, 0), unit(Team::B, 1)];
    lost[0].alive = false; // player wiped
    assert_eq!(WinFight.status(&lost, 1, true), ObjectiveStatus::Failed);
}

#[test]
fn winfight_fails_on_fight_end_without_victory() {
    let standoff = vec![unit(Team::A, 0), unit(Team::B, 1)];
    assert_eq!(WinFight.status(&standoff, 9, false), ObjectiveStatus::Pending);
    assert_eq!(WinFight.status(&standoff, 9, true), ObjectiveStatus::Failed);
}

#[test]
fn survive_objective_met_at_the_deadline() {
    let obj = Survive { rounds: 3 };
    let alive = vec![unit(Team::A, 0)];
    assert_eq!(obj.status(&alive, 0, false), ObjectiveStatus::Pending);
    assert_eq!(obj.status(&alive, 3, false), ObjectiveStatus::Achieved);
    let mut dead = vec![unit(Team::A, 0)];
    dead[0].alive = false;
    assert_eq!(obj.status(&dead, 1, false), ObjectiveStatus::Failed);
}

#[test]
fn hold_captures_by_round_or_by_clearing() {
    let hex = Hex::new(2, 0);
    let mut held = vec![unit(Team::A, 2), unit(Team::B, 5)];
    held[0].pos = hex;
    let mut early = Hold::new(hex, 3);
    early.tick(&held, 1);
    assert_eq!(early.status(&held, 1, false), ObjectiveStatus::Pending);
    let mut obj = Hold::new(hex, 3);
    obj.tick(&held, 3);
    assert_eq!(obj.status(&held, 3, false), ObjectiveStatus::Achieved);
    let mut cleared = held.clone();
    cleared[1].alive = false;
    let mut cobj = Hold::new(hex, 9);
    cobj.tick(&cleared, 1);
    assert_eq!(cobj.status(&cleared, 1, false), ObjectiveStatus::Achieved);
    let away = vec![unit(Team::A, 0), unit(Team::B, 5)];
    let mut aobj = Hold::new(hex, 3);
    aobj.tick(&away, 9);
    assert_eq!(aobj.status(&away, 9, true), ObjectiveStatus::Failed);
}

#[test]
fn hold_latches_so_the_holder_can_wander_off() {
    let hex = Hex::new(2, 0);
    let mut held = vec![unit(Team::A, 2), unit(Team::B, 5)];
    held[0].pos = hex;
    let mut obj = Hold::new(hex, 1);
    obj.tick(&held, 1);
    let mut away = held.clone();
    away[0].pos = Hex::new(5, 0);
    assert_eq!(obj.status(&away, 9, true), ObjectiveStatus::Achieved);
}

#[test]
fn hold_is_not_held_while_contested() {
    let hex = Hex::new(2, 0);
    let mut both = vec![unit(Team::A, 2), unit(Team::B, 2)];
    both[0].pos = hex;
    both[1].pos = hex;
    let mut obj = Hold::new(hex, 1);
    obj.tick(&both, 5);
    assert_eq!(obj.status(&both, 5, false), ObjectiveStatus::Pending);
}

#[test]
fn capture_hold_needs_cumulative_turns_of_control() {
    let hex = Hex::new(2, 0);
    let mut on = vec![unit(Team::A, 2), unit(Team::B, 5)];
    on[0].pos = hex;
    let mut obj = ObjectiveKind::CaptureHold(hex, 3).build();
    obj.tick(&on, 1);
    obj.tick(&on, 2);
    assert_eq!(obj.status(&on, 2, false), ObjectiveStatus::Pending);
    obj.tick(&on, 3);
    assert_eq!(obj.status(&on, 3, false), ObjectiveStatus::Achieved);
}

#[test]
fn the_flag_capture_is_sticky() {
    let hex = Hex::new(2, 0);
    let mut on = vec![unit(Team::A, 2), unit(Team::B, 5)];
    on[0].pos = hex;
    let mut obj = ObjectiveKind::Flag(hex, 2).build();
    obj.tick(&on, 1);
    let mut off = on.clone();
    off[0].pos = Hex::new(0, 0);
    off[1].alive = false;
    obj.tick(&off, 2);
    assert_eq!(obj.status(&off, 2, false), ObjectiveStatus::Achieved);
}

#[test]
fn search_sweeps_then_does_the_follow_up() {
    let spots = [Hex::new(2, 0), Hex::new(3, 0), Hex::new(4, 0)];
    let mut obj = ObjectiveKind::search(&spots, 1, FoundAction::Capture(1)).build();
    assert_eq!(obj.focus(), Some(spots[0]));
    let mut at0 = vec![unit(Team::A, 2), unit(Team::B, 7)];
    at0[0].pos = spots[0];
    obj.tick(&at0, 1);
    assert_eq!(obj.status(&at0, 1, false), ObjectiveStatus::Pending);
    assert_eq!(obj.focus(), Some(spots[1]));
    let mut at1 = at0.clone();
    at1[0].pos = spots[1];
    obj.tick(&at1, 2);
    assert_eq!(obj.focus(), Some(spots[1]));
    let mut held = at1.clone();
    held[1].alive = false;
    obj.tick(&held, 3);
    assert_eq!(obj.status(&held, 3, false), ObjectiveStatus::Achieved);
}

#[test]
fn search_lists_every_unswept_spot_so_seekers_fan_out() {
    let spots = [Hex::new(2, 0), Hex::new(3, 0), Hex::new(4, 0)];
    let mut obj = ObjectiveKind::search(&spots, 2, FoundAction::Flag(2)).build();
    assert_eq!(obj.foci(), spots.to_vec());
    let mut at0 = vec![unit(Team::A, 2), unit(Team::B, 7)];
    at0[0].pos = spots[0];
    obj.tick(&at0, 1);
    assert_eq!(obj.foci(), vec![spots[1], spots[2]]);
}

#[test]
fn extract_is_a_two_phase_grab_and_run() {
    let item = Hex::new(6, 0);
    let exit = Hex::new(0, 0);
    let mut obj = ObjectiveKind::Extract { item, exit }.build();
    assert_eq!(obj.focus(), Some(item));
    let mut at_item = vec![unit(Team::A, 6), unit(Team::B, 5)];
    at_item[0].pos = item;
    obj.tick(&at_item, 1);
    assert_eq!(obj.focus(), Some(exit));
    let mut at_exit = at_item.clone();
    at_exit[0].pos = exit;
    obj.tick(&at_exit, 2);
    assert_eq!(obj.status(&at_exit, 2, false), ObjectiveStatus::Achieved);
}

#[test]
fn margin_loss_is_a_close_defeat() {
    let obj = MarginLoss { max_enemy_survivors: 2 };
    let both = vec![unit(Team::A, 0), unit(Team::B, 1)];
    assert_eq!(obj.status(&both, 5, false), ObjectiveStatus::Pending);
    let mut close = vec![unit(Team::A, 0), unit(Team::B, 1), unit(Team::B, 2)];
    close[0].alive = false;
    assert_eq!(obj.status(&close, 9, true), ObjectiveStatus::Achieved);
    let mut blown = vec![unit(Team::A, 0), unit(Team::B, 1), unit(Team::B, 2), unit(Team::B, 3)];
    blown[0].alive = false;
    assert_eq!(obj.status(&blown, 9, true), ObjectiveStatus::Failed);
}

#[test]
fn objectives_sum_winnings_and_surface_unachieved() {
    let mut us = vec![unit(Team::A, 0)]; // no enemy ⇒ the fight is over and won
    us[0].pos = Hex::new(5, 0);
    let objs = Objectives::new(vec![
        Goal::new(ActiveObjective::WinFight(WinFight), 10, 5),
        Goal::new(ActiveObjective::Reach(Reach { hex: Hex::new(5, 0) }), 3, 0),
        Goal::new(ActiveObjective::Reach(Reach { hex: Hex::new(9, 9) }), 3, 0),
    ]);
    let fight_over = true;
    assert_eq!(objs.winnings(&us, 0, fight_over), 13);
    assert_eq!(objs.losses(&us, 0, fight_over), 0);
    assert_eq!(objs.unachieved(&us, 0, fight_over), vec![2]);
}

#[test]
fn losing_the_simple_objective_counts_as_a_loss() {
    let mut us = vec![unit(Team::A, 0), unit(Team::B, 1)];
    us[0].alive = false; // player wiped ⇒ the fight is over
    let objs = Objectives::new(vec![Goal::new(ActiveObjective::WinFight(WinFight), 10, 5)]);
    assert_eq!(objs.winnings(&us, 0, true), 0);
    assert_eq!(objs.losses(&us, 0, true), 5);
    assert!(objs.unachieved(&us, 0, true).is_empty());
}

#[test]
fn a_reach_objective_latches_nothing_and_reads_the_field() {
    let obj = Reach { hex: Hex::new(3, 0) };
    assert_eq!(obj.status(&[unit(Team::A, 3)], 0, false), ObjectiveStatus::Achieved);
    assert_eq!(obj.status(&[unit(Team::A, 2)], 0, false), ObjectiveStatus::Pending);
    assert_eq!(obj.focus(), Some(Hex::new(3, 0)));
}

#[test]
fn objectives_report_each_goal_in_order() {
    let us = vec![unit(Team::A, 0), unit(Team::B, 4)];
    let objs = Objectives::new(vec![
        Goal::new(ActiveObjective::WinFight(WinFight), 10, 5),
        Goal::new(ActiveObjective::Survive(Survive { rounds: 2 }), 1, 1),
    ]);
    assert_eq!(
        objs.report(&us, 2, false),
        vec![ObjectiveStatus::Pending, ObjectiveStatus::Achieved]
    );
    assert_eq!(objs.report(&us, 2, true), vec![ObjectiveStatus::Failed, ObjectiveStatus::Achieved]);
}
