use atomica::{Chassis, Skill, SkillTier, Skills, Stat};

#[test]
fn skill_tiers_run_untrained_to_elite() {
    assert_eq!(SkillTier::Untrained.modifier(), -3);
    assert_eq!(SkillTier::Competent.modifier(), 0); // competent = your raw stat
    assert_eq!(SkillTier::Elite.modifier(), 2);
    // ...and they're a monotone ladder.
    let ladder: Vec<i32> = [
        SkillTier::Untrained,
        SkillTier::Exposed,
        SkillTier::Beginner,
        SkillTier::Competent,
        SkillTier::Expert,
        SkillTier::Elite,
    ]
    .map(SkillTier::modifier)
    .to_vec();
    assert_eq!(ladder, vec![-3, -2, -1, 0, 1, 2]);
}

#[test]
fn each_skill_is_governed_by_an_attribute() {
    assert_eq!(Skill::Melee.governs(), Stat::Body);
    assert_eq!(Skill::Heavy.governs(), Stat::Body);
    assert_eq!(Skill::Gunnery.governs(), Stat::Dexterity);
    assert_eq!(Skill::Evade.governs(), Stat::Dexterity); // the opposed-defense skill
    assert_eq!(Skill::Hacking.governs(), Stat::Intellect);
    assert_eq!(Skill::Tech.governs(), Stat::Intellect);
}

#[test]
fn chassis_baseline_is_low_and_native() {
    let flesh = Chassis::Flesh.baseline_skills();
    assert_eq!(flesh.level(Skill::Melee), 2); // native, low
    assert_eq!(flesh.level(Skill::Hacking), 0); // not its domain
    assert_eq!(Chassis::Machine.baseline_skills().level(Skill::Gunnery), 2);
}

#[test]
fn skills_raise_from_the_floor() {
    let mut s = Chassis::Augmented.baseline_skills();
    assert_eq!(s.level(Skill::Hacking), 1);
    s.raise(Skill::Hacking, 3);
    assert_eq!(s.level(Skill::Hacking), 4);
}

#[test]
fn set_and_with_touch_only_their_skill() {
    let mut s = Skills::new();
    s.set(Skill::Tech, 3).set(Skill::Evade, -1);
    assert_eq!(s.level(Skill::Tech), 3);
    assert_eq!(s.level(Skill::Evade), -1);
    assert_eq!(s.level(Skill::Melee), 0);
    let t = s.with_tier(Skill::Medical, SkillTier::Expert).with(Skill::Tech, 5);
    assert_eq!(t.level(Skill::Medical), 1);
    assert_eq!(t.level(Skill::Tech), 5);
    assert_eq!(t.level(Skill::Evade), -1);
    assert_eq!(Skill::ALL.len(), Skill::COUNT);
}

#[test]
fn chassis_coverage_and_biology() {
    assert_eq!(Chassis::Flesh.coverage(), 100);
    assert_eq!(Chassis::Augmented.coverage(), 90);
    assert_eq!(Chassis::Machine.coverage(), 80);
    assert_eq!(Chassis::Vehicle.coverage(), 160);
    assert!(Chassis::Flesh.is_biological() && Chassis::Augmented.is_biological());
    assert!(!Chassis::Machine.is_biological() && !Chassis::Vehicle.is_biological());
    let aug = Chassis::Augmented.baseline_skills();
    assert_eq!((aug.level(Skill::Melee), aug.level(Skill::Hacking)), (1, 1));
    assert_eq!(Chassis::Vehicle.baseline_skills().level(Skill::Gunnery), 1);
}
