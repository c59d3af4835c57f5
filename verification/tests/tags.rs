use atomica::{
    knockout_gated, Condition, EquipmentTags, ObjectiveStatus, RollOutcome, Team,
    AWKWARD_ADJACENT, AWKWARD_POINT_BLANK, KNOCKOUT_MARGIN, RANGED_LONG_PENALTY,
    RANGED_MEDIUM_PENALTY,
};

#[test]
fn satisfied_until_fail_condition() {
    // Pending and Achieved are "satisfied"; only Failed is not.
    assert!(ObjectiveStatus::Pending.is_satisfied());
    assert!(ObjectiveStatus::Achieved.is_satisfied());
    assert!(!ObjectiveStatus::Failed.is_satisfied());
}

#[test]
fn the_knockout_gate_is_strict_by_default_but_widenable() {
    let crit = RollOutcome { dice: 18, total: 30, margin: 5, success: true, crit: true, fumble: false };
    let solid = RollOutcome { dice: 12, total: 24, margin: 12, success: true, crit: false, fumble: false };
    assert!(knockout_gated(&crit, KNOCKOUT_MARGIN)); // a crit knocks out regardless
    assert!(!knockout_gated(&solid, KNOCKOUT_MARGIN)); // strict: margin alone doesn't
    assert!(knockout_gated(&solid, 10)); // widened tier: a decisive margin does
}

#[test]
fn equipment_tags_are_a_set_of_const_flags() {
    let plain = EquipmentTags::none();
    assert!(!plain.has(EquipmentTags::smart()) && !plain.has(EquipmentTags::awkward()));
    // Equipment can carry several tags at once.
    let both = EquipmentTags::smart() | EquipmentTags::awkward();
    assert!(both.has(EquipmentTags::smart()) && both.has(EquipmentTags::awkward()));
    // `with` adds one without disturbing the rest.
    let added = EquipmentTags::smart().with(EquipmentTags::awkward());
    assert_eq!(added, both);
    assert!(!EquipmentTags::smart().has(EquipmentTags::awkward())); // distinct flags
}

#[test]
fn the_smart_and_digital_tags_carry_their_rules() {
    assert!(EquipmentTags::smart().spares_team()); // IFF: spares the team
    assert!(!EquipmentTags::none().spares_team());
    assert!(EquipmentTags::digital().breachable()); // a breach can trip it
    assert!(!EquipmentTags::none().breachable()); // inert physical: immune
}

#[test]
fn the_awkward_tag_adds_a_close_range_to_hit_rule() {
    let t = EquipmentTags::awkward();
    assert_eq!(t.to_hit_penalty(0), AWKWARD_POINT_BLANK); // same hex: -4
    assert_eq!(t.to_hit_penalty(1), AWKWARD_ADJACENT); // adjacent: clumsy (-2)
    assert_eq!(t.to_hit_penalty(2), 0); // at proper range: clean
    assert_eq!(t.to_hit_penalty(8), 0);
    assert_eq!(EquipmentTags::none().to_hit_penalty(1), 0); // no tag, no penalty
}

#[test]
fn the_ranged_tag_adds_a_distance_to_hit_rule() {
    let t = EquipmentTags::ranged();
    assert_eq!(t.to_hit_penalty(1), 0); // short range: clean
    assert_eq!(t.to_hit_penalty(2), 0);
    assert_eq!(t.to_hit_penalty(3), RANGED_MEDIUM_PENALTY); // medium: -2
    assert_eq!(t.to_hit_penalty(6), RANGED_LONG_PENALTY); // long: -4
    assert_eq!(EquipmentTags::none().to_hit_penalty(6), 0); // untagged: no penalty
}

#[test]
fn a_rifle_is_penalised_close_and_far_with_a_sweet_spot() {
    let rifle = EquipmentTags::awkward() | EquipmentTags::ranged();
    assert_eq!(rifle.to_hit_penalty(1), AWKWARD_ADJACENT); // jammed in close
    assert_eq!(rifle.to_hit_penalty(2), 0); // the sweet spot: clean
    assert_eq!(rifle.to_hit_penalty(4), RANGED_MEDIUM_PENALTY); // reaching out
    assert_eq!(rifle.to_hit_penalty(6), RANGED_LONG_PENALTY); // long shot
}

#[test]
fn volatile_is_its_own_flag() {
    let hot = EquipmentTags::volatile().with(EquipmentTags::digital());
    assert!(hot.has(EquipmentTags::volatile()) && hot.breachable());
    assert!(!hot.spares_team());
    assert_eq!(hot.to_hit_penalty(1), 0);
}

#[test]
fn teams_face_each_other() {
    assert_eq!(Team::A.enemy(), Team::B);
    assert_eq!(Team::B.enemy(), Team::A);
}

#[test]
fn wear_walks_down_the_condition_ladder() {
    assert_eq!(Condition::Online.degraded(), Condition::Degraded);
    assert_eq!(Condition::Degraded.degraded(), Condition::Offline);
    assert_eq!(Condition::Offline.degraded(), Condition::Destroyed);
    assert_eq!(Condition::Destroyed.degraded(), Condition::Destroyed); // terminal
    assert!(Condition::Online.is_active() && Condition::Degraded.is_active());
    assert!(!Condition::Offline.is_active() && !Condition::Destroyed.is_active());
}
