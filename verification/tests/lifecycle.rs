use atomica::chargen::{dispatch_gates, fired_hooks, gen_slot, last_marked, surviving, Armed, Lifecycle, Resist};
use atomica::{Event, Expiration, Gate, GenId, Priority, Remove, ScriptedRng, Tag, Wear};

fn timed(turns: u32) -> Lifecycle {
    Lifecycle { stacks: 1, expiration: Expiration::Duration(turns), decay: Wear::ByDuration }
}

#[test]
fn a_timed_clock_ticks_then_drops() {
    let l = timed(2);
    assert!(!l.is_expired());
    let l = l.wear(); // 2 -> 1
    assert_eq!(l.expiration, Expiration::Duration(1));
    assert!(!l.is_expired());
    let l = l.wear(); // 1 -> 0, worn off
    assert_eq!(l.expiration, Expiration::Duration(0));
    assert!(l.is_expired());
    // floored at zero
    assert_eq!(l.wear().expiration, Expiration::Duration(0));
}

#[test]
fn a_stack_decaying_clock_loses_a_stack_per_step() {
    let l = Lifecycle { stacks: 2, expiration: Expiration::Duration(0), decay: Wear::ByStacks };
    let one = Lifecycle { expiration: Expiration::Permanent, ..l }.wear();
    assert_eq!(one.stacks, 1);
    assert!(!one.is_expired());
    let none = one.wear();
    assert_eq!(none.stacks, 0);
    assert!(none.is_expired());
}

#[test]
fn gear_never_wears() {
    let gear = Lifecycle { stacks: 1, expiration: Expiration::Permanent, decay: Wear::Never };
    assert_eq!(gear.wear(), gear);
    assert!(!gear.wear().wear().is_expired());
}

#[test]
fn merging_adds_stacks_up_to_the_cap_and_keeps_the_longer_duration() {
    let live = Lifecycle { stacks: 3, expiration: Expiration::Duration(2), decay: Wear::ByDuration };
    let fresh = Lifecycle { stacks: 2, expiration: Expiration::Duration(5), decay: Wear::ByDuration };
    let m = live.merge(fresh, Some(4));
    assert_eq!(m.stacks, 4); // 3 + 2 capped at 4
    assert_eq!(m.expiration, Expiration::Duration(5));
    let m = live.merge(fresh, Some(10));
    assert_eq!(m.stacks, 5);
    // a refresh-only status keeps its stacks
    let m = live.merge(fresh, None);
    assert_eq!(m.stacks, 3);
    // a longer live copy is not shortened
    let m = Lifecycle { expiration: Expiration::Duration(9), ..live }.merge(fresh, None);
    assert_eq!(m.expiration, Expiration::Duration(9));
    // no overflow at the top of the range
    let big = Lifecycle { stacks: u32::MAX, ..live };
    assert_eq!(big.merge(big, Some(u32::MAX)).stacks, u32::MAX);
}

#[test]
fn a_later_lower_priority_install_slots_below_a_corruption() {
    // the hostile spoof installed first, the gear after: the gear sorts before it.
    let keys = vec![(Priority::corruption(), GenId(0))];
    assert_eq!(gen_slot(&keys, (Priority::gear(), GenId(1))), 0);
    // equal priorities keep install order: the later one goes after.
    let keys = vec![(Priority::gear(), GenId(0)), (Priority::buff(), GenId(1))];
    assert_eq!(gen_slot(&keys, (Priority::gear(), GenId(2))), 1);
    assert_eq!(gen_slot(&keys, (Priority::buff(), GenId(3))), 2);
    assert_eq!(gen_slot(&vec![], (Priority::buff(), GenId(0))), 0);
}

#[test]
fn the_last_marked_override_applies() {
    assert_eq!(last_marked(&vec![true, false, true, false]), Some(2));
    assert_eq!(last_marked(&vec![false, false]), None);
    assert_eq!(last_marked(&vec![]), None);
}

#[test]
fn a_gate_fires_only_on_a_passing_roll() {
    // power 5 + 2 stacks - Body 4 = target 3
    let gate = Gate { power: 5, resist: Resist::Body };
    let mut rng = ScriptedRng::from_d10([1, 2]); // 3 <= 3
    assert!(gate.passes(2, 9, 4, 9, &mut rng));
    let mut rng = ScriptedRng::from_d10([2, 2]); // 4 > 3
    assert!(!gate.passes(2, 9, 4, 9, &mut rng));
    // unresisted: target 5 + 2 = 7
    let open = Gate { power: 5, resist: Resist::Unresisted };
    let mut rng = ScriptedRng::from_d10([3, 4]);
    assert!(open.passes(2, 9, 9, 9, &mut rng));
}

#[test]
fn a_standing_ward_strips_by_tag_or_source_but_not_its_own() {
    let mods = vec![(GenId(0), Tag::Virus), (GenId(1), Tag::Buff), (GenId(2), Tag::Virus), (GenId(3), Tag::Gear)];
    // the antivirus (id 2, itself tagged Virus) strips every Virus modifier but its own
    let wards = vec![(GenId(2), Remove::Tag(Tag::Virus))];
    assert_eq!(surviving(&mods, &wards), vec![false, true, true, true]);
    // a dispel by source
    let wards = vec![(GenId(3), Remove::Source(GenId(1)))];
    assert_eq!(surviving(&mods, &wards), vec![true, false, true, true]);
    // order does not matter
    let a = vec![(GenId(2), Remove::Tag(Tag::Virus)), (GenId(3), Remove::Source(GenId(1)))];
    let b = vec![(GenId(3), Remove::Source(GenId(1))), (GenId(2), Remove::Tag(Tag::Virus))];
    assert_eq!(surviving(&mods, &a), surviving(&mods, &b));
    assert_eq!(surviving(&mods, &vec![]), vec![true; 4]);
}

#[test]
fn a_dispatch_rolls_each_active_gated_decorator_in_order() {
    let gate = Gate { power: 5, resist: Resist::Unresisted }; // target 5 + stacks
    let decs = vec![
        Armed { active: true, gate: None, stacks: 1 },        // always fires, no roll
        Armed { active: false, gate: Some(gate), stacks: 1 }, // inactive: no roll
        Armed { active: true, gate: Some(gate), stacks: 1 },  // rolls 3 + 4 = 7 > 6: misses
        Armed { active: true, gate: Some(gate), stacks: 2 },  // rolls 1 + 2 = 3 <= 7: fires
    ];
    let mut rng = ScriptedRng::from_d10([3, 4, 1, 2]);
    assert_eq!(dispatch_gates(&mut rng, &decs, 0, 0, 0), vec![true, false, false, true]);
    let hooks = vec![(0, Event::TickStart), (0, Event::OnHit), (2, Event::TickStart), (3, Event::TickStart)];
    assert_eq!(fired_hooks(&vec![true, false, false, true], &hooks, Event::TickStart), vec![0, 3]);
    assert_eq!(fired_hooks(&vec![true, false, false, true], &hooks, Event::OnHit), vec![1]);
}
