//! Behavior profiles — the scripted **movement** and **targeting** a unit follows each
//! activation. You program your units; the enemy hacks your script — these are code, so
//! the digital realm corrupts behavior, not just stats. The defaults (`Nearest` +
//! `Advance`) are the plain "attack the nearest, walk forward" baseline.
use vstd::prelude::*;

verus! {

/// How a unit chooses its target among living enemies.
#[derive(Clone, Copy, PartialEq, Eq, Debug, Default, Structural)]
pub enum TargetingProfile {
    /// Closest enemy — the default.
    #[default]
    Nearest,
    /// Lowest Integrity — finish off the wounded.
    LowestIntegrity,
    /// Biggest attack — strike the heaviest hitter.
    HighestThreat,
    /// Farthest enemy — reach past the front for the back ranks.
    Backline,
    /// Least armor (Barrier + Plating) — soft targets first.
    WeakestArmor,
}

/// How a unit positions itself each activation.
#[derive(Clone, Copy, PartialEq, Eq, Debug, Default, Structural)]
pub enum MovementProfile {
    /// Close on the target — the default.
    #[default]
    Advance,
    /// Stay put (defend / hold a line).
    Hold,
    /// Keep the weapon's standoff range from the nearest enemy.
    Kite,
    /// Approach the target from the side (lateral).
    Flank,
    /// Rush the nearest enemy, whoever the target is.
    Swarm,
    /// Spread out — move away from the nearest ally.
    Disperse,
}

/// A unit's **netrunning doctrine** — the digital analog of the physical profiles: whom a
/// runner dives and which program it leads with on a breach. Like the other profiles it
/// is a behavior override, so a hostile Spoof can corrupt it.
#[derive(Clone, Copy, PartialEq, Eq, Debug, Default, Structural)]
pub enum NetDoctrine {
    /// Neutralize chrome: dive the most-chromed enemy, lead with lock-down riders.
    #[default]
    Disabler,
    /// Digital damage: hunt heat-prone chrome, lead with the burns.
    Burner,
    /// Soften and spread: dive the biggest threat, lead with the openers.
    Saboteur,
    /// Hijack behavior: dive the biggest threat, lead with script corruptions.
    Controller,
    /// Hold the net: dive enemy runners first, lead with lock-down.
    Defender,
    /// Don't dive, screen: guard the most exposed covered ally instead of hacking.
    Sentinel,
}

} // verus!
