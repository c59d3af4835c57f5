//! The core contested-roll mechanic: **2d10 roll-*under* a target**.
//!
//! A check succeeds on `2d10 ≤ target`, where the target is the actor's effective skill
//! less any situational penalty — nothing is added to the dice. A natural 2–3 crits
//! (auto-success), a natural 19–20 fumbles (auto-failure). Attacks are **opposed**: the
//! attacker rolls to hit and the defender rolls an active defense ([`resolve_opposed`]);
//! static contests fold the defense in as a modifier ([`resolve_versus`]).
use vstd::prelude::*;
use crate::rng::{face, RandomSource};

verus! {

/// The result of a roll-under check.
#[derive(Clone, Copy, PartialEq, Eq, Debug, Structural)]
pub struct RollOutcome {
    /// The raw 2d10 (`2..=20`) — what crit / fumble key off.
    pub dice: i32,
    /// The raw dice again (roll-under adds nothing to the dice).
    pub total: i32,
    /// `target − dice`: positive is the degree of success, negative the shortfall.
    pub margin: i32,
    pub success: bool,
    pub crit: bool,
    pub fumble: bool,
}

/// The 2d10 total a source shows on its next two draws.
pub open spec fn dice_2d10<R: RandomSource>(r: R) -> int {
    face(r.peek(), 10) + face(r.advanced().peek(), 10)
}

/// Can the source make one 2d10 roll?
pub open spec fn can_roll<R: RandomSource>(r: R) -> bool {
    r.can_draw() && r.advanced().can_draw()
}

/// The source after one 2d10 roll.
pub open spec fn after_roll<R: RandomSource>(r: R) -> R {
    r.advanced().advanced()
}

/// The outcome of rolling `dice` under `target`: crit on 2–3, fumble on 19–20, otherwise
/// success exactly when the dice are at or under the target.
pub open spec fn outcome_of(dice: int, target: int) -> RollOutcome {
    RollOutcome {
        dice: dice as i32,
        total: dice as i32,
        margin: (target - dice) as i32,
        success: dice <= 3 || (dice < 19 && dice <= target),
        crit: dice <= 3,
        fumble: dice >= 19,
    }
}

/// Resolve a **roll-under** check: succeed on `2d10 ≤ target`; a natural 2–3 crits
/// (auto-succeed), a natural 19–20 fumbles (auto-fail); `margin = target − dice`.
pub fn resolve_check<R: RandomSource>(rng: &mut R, target: i32) -> (o: RollOutcome)
    requires
        can_roll(*old(rng)),
        target >= i32::MIN + 20,
    ensures
        o == outcome_of(dice_2d10(*old(rng)), target as int),
        *final(rng) == after_roll(*old(rng)),
{
    let dice = rng.roll_2d10();
    let crit = dice <= 3;
    let fumble = dice >= 19;
    let success = crit || (!fumble && dice <= target);
    RollOutcome { dice, total: dice, margin: target - dice, success, crit, fumble }
}

/// Resolve a roll-under check whose opposition is folded in as a **modifier**: roll
/// `2d10 ≤ rating − resist`.
pub fn resolve_versus<R: RandomSource>(rng: &mut R, rating: i32, resist: i32) -> (o: RollOutcome)
    requires
        can_roll(*old(rng)),
        i32::MIN + 20 <= rating - resist <= i32::MAX,
    ensures
        o == outcome_of(dice_2d10(*old(rng)), rating - resist),
        *final(rng) == after_roll(*old(rng)),
{
    resolve_check(rng, rating - resist)
}

/// The result of an opposed attack-vs-defense exchange.
#[derive(Clone, Copy, PartialEq, Eq, Debug, Structural)]
pub struct Opposed {
    /// The attacker's to-hit check.
    pub attack: RollOutcome,
    /// The defender's active-defense check.
    pub defense: RollOutcome,
    /// Did the blow land — attacker succeeded *and* defender failed?
    pub landed: bool,
}

/// Resolve an **opposed** exchange: the attacker rolls `2d10 ≤ attack` first, then the
/// defender rolls `2d10 ≤ defense`; the blow lands only if the attacker succeeds and the
/// defender fails.
pub fn resolve_opposed<R: RandomSource>(rng: &mut R, attack: i32, defense: i32) -> (o: Opposed)
    requires
        can_roll(*old(rng)),
        can_roll(after_roll(*old(rng))),
        attack >= i32::MIN + 20,
        defense >= i32::MIN + 20,
    ensures
        o.attack == outcome_of(dice_2d10(*old(rng)), attack as int),
        o.defense == outcome_of(dice_2d10(after_roll(*old(rng))), defense as int),
        o.landed == (o.attack.success && !o.defense.success),
        *final(rng) == after_roll(after_roll(*old(rng))),
{
    let attack = resolve_check(rng, attack);
    let defense = resolve_check(rng, defense);
    let landed = attack.success && !defense.success;
    Opposed { attack, defense, landed }
}

/// **Roll-under laws**: a crit always succeeds and a fumble always fails; otherwise a
/// roll succeeds exactly when its margin is non-negative, and a roll that succeeds
/// against a target also succeeds against any easier (higher) target.
pub proof fn lemma_roll_under(dice: int, target: int, easier: int)
    requires
        2 <= dice <= 20,
        target <= easier,
    ensures
        outcome_of(dice, target).crit ==> outcome_of(dice, target).success,
        outcome_of(dice, target).fumble ==> !outcome_of(dice, target).success,
        !outcome_of(dice, target).crit && !outcome_of(dice, target).fumble ==> (outcome_of(
            dice,
            target,
        ).success <==> target - dice >= 0),
        outcome_of(dice, target).success ==> outcome_of(dice, easier).success,
        !(outcome_of(dice, target).crit && outcome_of(dice, target).fumble),
{
}

} // verus!
