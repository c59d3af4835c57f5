//! The status pool's axes — a status is one value on each of nine (`effect · trigger · timing ·
//! decay · stacking · magnitude · behavior · targeting · resist`). These are the
//! integer-valued axes; a status definition picks one value on each.
use vstd::prelude::*;

verus! {

/// Axis: behavior — deterministic, or rolled each tick (`2d10 ≤ power (+ stacks) − resist`).
#[derive(Clone, Copy, Debug, PartialEq, Eq, Structural)]
pub enum Behavior {
    Deterministic,
    Stochastic { power: i32 },
}

/// Axis: resist — which defensive stat shifts a stochastic roll.
#[derive(Clone, Copy, Debug, PartialEq, Eq, Structural)]
pub enum Resist {
    /// No resist.
    Unresisted,
    Health,
    Firewall,
}

/// Axis: stacking — how a fresh application combines with an existing instance.
#[derive(Clone, Copy, Debug, PartialEq, Eq, Structural)]
pub enum Stacking {
    /// Keep one instance; refresh its duration.
    Refresh,
    /// Accumulate stacks up to a cap.
    Stack { max: u32 },
}

/// Axis: decay — how the status wears off.
#[derive(Clone, Copy, Debug, PartialEq, Eq, Structural)]
pub enum Decay {
    /// Lose one tick of duration per tick.
    Duration,
    /// Lose one stack per tick.
    Stacks,
}

/// Axis: trigger — what causes the effect to evaluate.
#[derive(Clone, Copy, Debug, PartialEq, Eq, Structural)]
pub enum Trigger {
    Tick,
    OnHit,
    OnDeath,
}

/// Axis: timing — when within a tick the effect resolves.
#[derive(Clone, Copy, Debug, PartialEq, Eq, Structural)]
pub enum Timing {
    TickStart,
    TickEnd,
}

/// Axis: targeting — who receives the status.
#[derive(Clone, Copy, Debug, PartialEq, Eq, Structural)]
pub enum Targeting {
    SelfOnly,
    Enemy,
    Ally,
    Area,
}

} // verus!
