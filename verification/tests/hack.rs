use atomica::{
    hack_rating, margin_stacks, resolve_versus, Hack, HackResult, Program, Programs, RollOutcome,
    ScriptedRng,
};

fn hack() -> Hack {
    Hack::new(2, 1, 5)
}

#[test]
fn rating_averages_skill_with_the_channel_floored() {
    assert_eq!(hack_rating(6, 4), 5);
    assert_eq!(hack_rating(6, 1), 3); // 3.5 → floor 3
    assert_eq!(hack_rating(9, 2), 5); // 5.5 → floor 5
    assert_eq!(hack_rating(0, 0), 0);
}

#[test]
fn margin_scales_the_stacks() {
    // Versus (resist as a modifier): target = rating 14 − ice 4 = 10; 2d10 = 7 ⇒ margin 3.
    let mut rng = ScriptedRng::from_d10([3, 4]);
    let o = resolve_versus(&mut rng, 14, 4);
    assert_eq!(o.margin, 3);
    assert_eq!(hack().stacks_for(&o), 2); // base 1 + 3/3
}

#[test]
fn deeper_margin_lands_more() {
    // Lower dice ⇒ deeper margin under target 15 (rating 15, no ice); 2d10 = 5 ⇒ margin 10.
    let mut rng = ScriptedRng::from_d10([2, 3]);
    let o = resolve_versus(&mut rng, 15, 0);
    assert_eq!(o.margin, 10);
    assert_eq!(hack().stacks_for(&o), 1 + 3); // base 1 + 10/3
}

#[test]
fn a_whiff_lands_nothing() {
    // target = 0 − 20; 2d10 = 6 misses (and isn't a 2–3 crit).
    let mut rng = ScriptedRng::from_d10([3, 3]);
    let o = resolve_versus(&mut rng, 0, 20);
    assert!(!o.success);
    assert_eq!(hack().stacks_for(&o), 0);
}

#[test]
fn a_crit_lands_despite_the_wall_and_adds_a_stack() {
    let mut rng = ScriptedRng::from_d10([1, 2]); // natural 3 → roll-under crit
    let o = resolve_versus(&mut rng, 0, 99); // hopeless target, but a crit lands
    assert!(o.crit && o.success);
    assert_eq!(hack().stacks_for(&o), 1 + 1); // base + crit bump (margin floored at 0)
}

#[test]
fn margin_stacks_floor_and_clip_at_zero() {
    assert_eq!(margin_stacks(-5), 0);
    assert_eq!(margin_stacks(0), 0);
    assert_eq!(margin_stacks(2), 0);
    assert_eq!(margin_stacks(3), 1);
    assert_eq!(margin_stacks(8), 2);
    assert_eq!(hack_rating(-3, 0), -2); // the average, floored
    assert_eq!(hack_rating(3, 4), 3);
}

#[test]
fn program_sets_hold_what_was_loaded_in_roster_order() {
    let set = Programs::just(Program::Worm).with(Program::Lockware).with(Program::Antivirus);
    assert!(set.has(Program::Worm) && set.has(Program::Lockware) && set.has(Program::Antivirus));
    assert!(!set.has(Program::Crash));
    assert_eq!(set.iter(), vec![Program::Lockware, Program::Worm, Program::Antivirus]);
    assert!(Programs::none().iter().is_empty());
    assert_eq!(Program::all().len(), 17);
    assert_eq!(Program::all()[15], Program::GhostSuite);
}

#[test]
fn only_a_rolled_success_counts_as_landed() {
    let win = RollOutcome { dice: 5, total: 5, margin: 4, success: true, crit: false, fumble: false };
    let miss = RollOutcome { success: false, ..win };
    assert!(HackResult::Rolled { outcome: win, stacks: 0 }.landed());
    assert!(!HackResult::Rolled { outcome: miss, stacks: 0 }.landed());
    assert!(!HackResult::NoHack.landed());
    assert!(!HackResult::Offline.landed());
    assert!(!HackResult::NoSurface.landed());
}
