use atomica::run::{casualties, deploy_hex, encounter_seed, run_seed, ENEMY_COLUMN};
use atomica::{GameOutcome, GameProgress, Hex, ObjectiveStatus, RunOutcome, RunProgress, Team};

fn names(v: &[&str]) -> Vec<String> {
    v.iter().map(|s| s.to_string()).collect()
}

#[test]
fn an_empty_roster_is_an_instant_loss_here_too() {
    assert_eq!(RunProgress::start(0, 1).outcome, RunOutcome::Lost);
    assert_eq!(RunProgress::start(2, 0).outcome, RunOutcome::Won);
    assert_eq!(RunProgress::start(2, 3).outcome, RunOutcome::Ongoing);
    assert_eq!(GameProgress::start(0, 2).outcome, GameOutcome::Lost);
    assert_eq!(GameProgress::start(1, 0).outcome, GameOutcome::Won);
}

#[test]
fn a_won_fight_with_a_failed_objective_loses_the_run() {
    let mut p = RunProgress::start(1, 2);
    p.record_encounter(1, ObjectiveStatus::Failed);
    assert_eq!(p.outcome, RunOutcome::Lost);
    assert_eq!(p.index, 0);
}

#[test]
fn clearing_every_encounter_wins_the_run() {
    let mut p = RunProgress::start(2, 2);
    p.record_encounter(2, ObjectiveStatus::Achieved);
    assert_eq!((p.index, p.outcome), (1, RunOutcome::Ongoing));
    p.record_encounter(1, ObjectiveStatus::Pending);
    assert_eq!((p.index, p.outcome), (2, RunOutcome::Won));
    let mut wiped = RunProgress::start(2, 2);
    wiped.record_encounter(0, ObjectiveStatus::Achieved);
    assert_eq!(wiped.outcome, RunOutcome::Lost);
}

#[test]
fn a_lost_run_ends_the_game() {
    let mut g = GameProgress::start(3, 2);
    g.record_run(RunOutcome::Won);
    assert_eq!((g.index, g.outcome), (1, GameOutcome::Ongoing));
    g.record_run(RunOutcome::Lost);
    assert_eq!((g.index, g.outcome), (1, GameOutcome::Lost));
}

#[test]
fn the_first_stage_plays_on_the_series_seed() {
    assert_eq!(encounter_seed(42, 0), 42);
    assert_eq!(run_seed(42, 0), 42);
    assert_eq!(encounter_seed(0, 1), 0x9E37_79B9_7F4A_7C15);
    assert_eq!(run_seed(0, 1), 0xD1B5_4A32_D192_ED03);
    assert_eq!(encounter_seed(7, 2), 7 ^ 0x9E37_79B9_7F4A_7C15u64.wrapping_mul(2));
}

#[test]
fn the_sides_deploy_on_opposing_columns() {
    assert_eq!(deploy_hex(Team::A, 2), Hex::new(0, 2));
    assert_eq!(deploy_hex(Team::B, 0), Hex::new(ENEMY_COLUMN, 0));
}

#[test]
fn casualty_bookkeeping_reconciles_here_too() {
    let roster = names(&["A", "B", "C"]);
    let alive = names(&["C", "A"]);
    let lost = casualties(&roster, &alive);
    assert_eq!(lost, names(&["B"]));
    assert_eq!(lost.len() + alive.len(), roster.len());
    assert_eq!(casualties(&roster, &vec![]), roster);
    assert!(casualties(&roster, &roster).is_empty());
}

#[test]
fn a_decided_series_records_nothing_more() {
    let mut p = RunProgress::start(1, 1);
    p.record_encounter(1, ObjectiveStatus::Achieved);
    assert_eq!(p.outcome, RunOutcome::Won);
    let before = p;
    p.record_encounter(0, ObjectiveStatus::Failed);
    assert_eq!(p, before);
    let mut g = GameProgress::start(0, 2);
    g.record_run(RunOutcome::Won);
    assert_eq!((g.index, g.outcome), (0, GameOutcome::Lost));
}
