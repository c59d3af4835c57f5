use atomica::{resolve_check, resolve_opposed, resolve_versus, ScriptedRng};

#[test]
fn roll_under_succeeds_at_or_below_target() {
    // 2d10 = 10 vs target 10 → made it exactly (margin 0).
    let mut rng = ScriptedRng::from_d10([5, 5]);
    let o = resolve_check(&mut rng, 10);
    assert_eq!(o.dice, 10);
    assert_eq!(o.margin, 0);
    assert!(o.success && !o.crit && !o.fumble);
    // 2d10 = 11 vs target 10 → missed by 1.
    let mut rng = ScriptedRng::from_d10([5, 6]);
    let o = resolve_check(&mut rng, 10);
    assert!(!o.success);
    assert_eq!(o.margin, -1);
}

#[test]
fn naturals_crit_low_and_fumble_high() {
    // Natural 3 crits even against an impossible (0) target...
    let mut rng = ScriptedRng::from_d10([1, 2]);
    let o = resolve_check(&mut rng, 0);
    assert!(o.dice == 3 && o.crit && o.success);
    // ...and a natural 19 fumbles even against a trivial (99) one.
    let mut rng = ScriptedRng::from_d10([10, 9]);
    let o = resolve_check(&mut rng, 99);
    assert!(o.dice == 19 && o.fumble && !o.success);
    // The 2d10 bands are 2–3 (crit) and 19–20 (fumble).
    let mut rng = ScriptedRng::from_d10([1, 1]); // 2
    assert!(resolve_check(&mut rng, 0).crit);
    let mut rng = ScriptedRng::from_d10([10, 10]); // 20
    assert!(resolve_check(&mut rng, 99).fumble);
}

#[test]
fn versus_folds_resist_in_as_a_modifier() {
    // rating 14, resist 4 ⇒ target 14 − 4 = 10; 2d10 = 7 makes it by 3.
    let mut rng = ScriptedRng::from_d10([3, 4]);
    let o = resolve_versus(&mut rng, 14, 4);
    assert_eq!(o.margin, 3);
    assert!(o.success);
    // A stiffer resist drops the target below the same roll → a miss.
    let mut rng = ScriptedRng::from_d10([3, 4]);
    assert!(!resolve_versus(&mut rng, 14, 10).success); // target 4, 7 > 4
}

#[test]
fn opposed_lands_only_when_the_attacker_beats_the_defense() {
    // Attacker rolls 8 ≤ 12 (hit); defender rolls 15 > 10 (fails to dodge) → lands.
    let mut rng = ScriptedRng::from_d10([4, 4, 7, 8]); // 8 then 15
    let o = resolve_opposed(&mut rng, 12, 10);
    assert!(o.attack.success && !o.defense.success && o.landed);
    // Same hit, but the defender rolls 7 ≤ 10 (dodges) → no blow.
    let mut rng = ScriptedRng::from_d10([4, 4, 3, 4]); // 8 then 7
    let o = resolve_opposed(&mut rng, 12, 10);
    assert!(o.attack.success && o.defense.success && !o.landed);
}

#[test]
fn an_easier_target_never_turns_a_success_into_a_failure() {
    for target in 0..25 {
        let mut a = ScriptedRng::from_d10([4, 5]);
        let mut b = ScriptedRng::from_d10([4, 5]);
        let hard = resolve_check(&mut a, target);
        let easy = resolve_check(&mut b, target + 1);
        assert!(!hard.success || easy.success);
        assert_eq!(hard.total, hard.dice);
    }
}

#[test]
fn an_attacker_miss_never_lands() {
    let mut rng = ScriptedRng::from_d10([9, 9, 10, 10]); // attacker 18 vs 12, defender fumbles
    let o = resolve_opposed(&mut rng, 12, 10);
    assert!(!o.attack.success && o.defense.fumble && !o.landed);
}
