//! Combat vocabulary shared across the engine: sides and unit ids, damage types and
//! penetration tiers, attack footprints, equipment tags with their to-hit rules, the
//! knockout gate of the breach ladder, and a battle's standard result.
use vstd::prelude::*;
use crate::roll::RollOutcome;

verus! {

/// Which side a unit fights for.
#[derive(Clone, Copy, PartialEq, Eq, Debug, Structural)]
pub enum Team {
    A,
    B,
}

impl Team {
    /// The opposing side.
    pub open spec fn other(self) -> Team {
        match self {
            Team::A => Team::B,
            Team::B => Team::A,
        }
    }

    pub fn enemy(self) -> (e: Team)
        ensures
            e == self.other(),
            e != self,
    {
        match self {
            Team::A => Team::B,
            Team::B => Team::A,
        }
    }
}

/// **The enemy relation is an involution**: a side's enemy's enemy is the side itself.
pub proof fn lemma_enemy_involution(t: Team)
    ensures
        t.other().other() == t,
        t.other() != t,
{
}

/// A stable unit identifier.
#[derive(Clone, Copy, PartialEq, Eq, PartialOrd, Ord, Hash, Debug, Structural)]
pub struct UnitId(pub u32);

/// The three-tier armor-matrix axis carried by an attack.
#[derive(Clone, Copy, PartialEq, Eq, Debug, Structural)]
pub enum DamageType {
    /// Anti-rigid: beats Plate, soaked by Padding.
    Bludgeoning,
    /// Universal penetrator: only Plate resists.
    Piercing,
    /// Anti-unarmored.
    Slashing,
}

/// Which defense layer an attack engages first.
#[derive(Clone, Copy, PartialEq, Eq, Debug, Structural)]
pub enum PenTier {
    /// Hits the Barrier/Shield layer first.
    External,
    /// Plating mitigates.
    Contact,
    /// Bypasses Barrier + Plating — straight to Integrity.
    Internal,
}

/// The area an attack covers. Physical AoE has friendly fire on — it hits every living
/// unit in the footprint, allies included; only the attacker is spared.
#[derive(Clone, Copy, PartialEq, Eq, Debug, Default, Structural)]
pub enum Footprint {
    /// Just the chosen target hex.
    #[default]
    Single,
    /// A disc of `radius` centred on the target hex (a grenade / blast).
    Blast(i32),
    /// A `length`-hex line from the attacker along the bearing to the target.
    Beam(i32),
}

/// To-hit TN an **awkward** weapon pays jammed adjacent.
pub const AWKWARD_ADJACENT: i32 = 2;
/// To-hit TN an **awkward** weapon pays point-blank (same hex).
pub const AWKWARD_POINT_BLANK: i32 = 4;
/// Distance from which a **ranged** weapon pays the medium-range penalty.
pub const RANGED_MEDIUM: i32 = 3;
/// Distance from which a **ranged** weapon pays the long-range penalty.
pub const RANGED_LONG: i32 = 5;
/// The medium-range to-hit penalty.
pub const RANGED_MEDIUM_PENALTY: i32 = 2;
/// The long-range to-hit penalty.
pub const RANGED_LONG_PENALTY: i32 = 4;

/// A **set of equipment tags** — boolean traits on a piece of equipment packed as a bitset
/// of flags, so equipment carries any combination in one field.
#[derive(Clone, Copy, PartialEq, Eq, Default, Debug, Structural)]
pub struct EquipmentTags(pub u32);

impl EquipmentTags {
    /// Does `self` contain every flag of `tag`?
    pub open spec fn holds(self, tag: EquipmentTags) -> bool {
        self.0 & tag.0 == tag.0
    }

    /// No tags.
    pub fn none() -> (t: EquipmentTags)
        ensures
            t.0 == 0,
    {
        EquipmentTags(0)
    }

    /// **IFF / smartgun** — its line of fire / blast spares the attacker's team.
    pub fn smart() -> (t: EquipmentTags)
        ensures
            t.0 == 1,
    {
        EquipmentTags(1)
    }

    /// **Awkward** — a long / unwieldy weapon is clumsy up close.
    pub fn awkward() -> (t: EquipmentTags)
        ensures
            t.0 == 2,
    {
        EquipmentTags(2)
    }

    /// **Ranged** — a projectile weapon's to-hit penalty grows with distance.
    pub fn ranged() -> (t: EquipmentTags)
        ensures
            t.0 == 4,
    {
        EquipmentTags(4)
    }

    /// **Digital** — networked chrome a breach can trip; absent ⇒ inert physical cyberware.
    pub fn digital() -> (t: EquipmentTags)
        ensures
            t.0 == 8,
    {
        EquipmentTags(8)
    }

    /// **Volatile** — powered chrome that runs hot, the subset an Overheat program cooks.
    pub fn volatile() -> (t: EquipmentTags)
        ensures
            t.0 == 16,
    {
        EquipmentTags(16)
    }

    /// Does this set contain every flag in `tag`?
    pub fn has(self, tag: EquipmentTags) -> (b: bool)
        ensures
            b == self.holds(tag),
    {
        self.0 & tag.0 == tag.0
    }

    /// This set with `tag` added.
    pub fn with(self, tag: EquipmentTags) -> (t: EquipmentTags)
        ensures
            t.0 == self.0 | tag.0,
    {
        EquipmentTags(self.0 | tag.0)
    }

    /// The to-hit TN the awkward rule adds at distance `dist`.
    pub open spec fn awkward_tn(dist: int) -> int {
        if dist <= 0 {
            AWKWARD_POINT_BLANK as int
        } else if dist == 1 {
            AWKWARD_ADJACENT as int
        } else {
            0
        }
    }

    /// The to-hit TN the ranged rule adds at distance `dist`.
    pub open spec fn ranged_tn(dist: int) -> int {
        if dist >= RANGED_LONG {
            RANGED_LONG_PENALTY as int
        } else if dist >= RANGED_MEDIUM {
            RANGED_MEDIUM_PENALTY as int
        } else {
            0
        }
    }

    /// The to-hit TN these tags add at distance `dist`: each range rule the set carries.
    pub open spec fn penalty_at(self, dist: int) -> int {
        (if self.holds(EquipmentTags(2)) {
            EquipmentTags::awkward_tn(dist)
        } else {
            0
        }) + (if self.holds(EquipmentTags(4)) {
            EquipmentTags::ranged_tn(dist)
        } else {
            0
        })
    }

    /// The **to-hit TN** these tags add at hex-distance `dist` — the sum of each range rule
    /// the set carries: `AWKWARD` bites up close, `RANGED` grows with distance.
    pub fn to_hit_penalty(self, dist: i32) -> (tn: i32)
        ensures
            tn == (if self.holds(EquipmentTags(2)) {
                EquipmentTags::awkward_tn(dist as int)
            } else {
                0
            }) + (if self.holds(EquipmentTags(4)) {
                EquipmentTags::ranged_tn(dist as int)
            } else {
                0
            }),
    {
        let mut tn: i32 = 0;
        if self.has(EquipmentTags::awkward()) {
            tn = tn + if dist <= 0 {
                AWKWARD_POINT_BLANK
            } else if dist == 1 {
                AWKWARD_ADJACENT
            } else {
                0
            };
        }
        if self.has(EquipmentTags::ranged()) {
            tn = tn + if dist >= RANGED_LONG {
                RANGED_LONG_PENALTY
            } else if dist >= RANGED_MEDIUM {
                RANGED_MEDIUM_PENALTY
            } else {
                0
            };
        }
        tn
    }

    /// `SMART`'s rule: does this equipment spare the attacker's team?
    pub fn spares_team(self) -> (b: bool)
        ensures
            b == self.holds(EquipmentTags(1)),
    {
        self.has(EquipmentTags::smart())
    }

    /// `DIGITAL`'s rule: can a breach (hack / worm / EMP) trip this equipment?
    pub fn breachable(self) -> (b: bool)
        ensures
            b == self.holds(EquipmentTags(8)),
    {
        self.has(EquipmentTags::digital())
    }
}

impl std::ops::BitOr for EquipmentTags {
    type Output = EquipmentTags;

    fn bitor(self, rhs: EquipmentTags) -> EquipmentTags {
        EquipmentTags(self.0 | rhs.0)
    }
}

impl vstd::std_specs::ops::BitOrSpecImpl for EquipmentTags {
    open spec fn obeys_bitor_spec() -> bool {
        true
    }

    open spec fn bitor_req(self, rhs: EquipmentTags) -> bool {
        true
    }

    open spec fn bitor_spec(self, rhs: EquipmentTags) -> EquipmentTags {
        EquipmentTags(self.0 | rhs.0)
    }
}

/// **Tags form a set**: adding a tag keeps every flag already held and holds the new one.
pub proof fn lemma_with_keeps_and_adds(t: EquipmentTags, u: EquipmentTags, v: EquipmentTags)
    ensures
        EquipmentTags(t.0 | u.0).holds(u),
        t.holds(v) ==> EquipmentTags(t.0 | u.0).holds(v),
        EquipmentTags(0).holds(v) <==> v.0 == 0,
{
    let x = t.0;
    let y = u.0;
    let z = v.0;
    assert((x | y) & y == y) by (bit_vector);
    assert(x & z == z ==> (x | y) & z == z) by (bit_vector);
    assert((0u32 & z == z) <==> z == 0) by (bit_vector);
}

/// **The rifle's sweet spot**: a weapon that is both awkward and ranged pays a penalty
/// at every distance except the middle band (2 hexes), where it is clean.
pub proof fn lemma_awkward_ranged_sweet_spot(dist: int)
    ensures
        (EquipmentTags::awkward_tn(dist) + EquipmentTags::ranged_tn(dist) == 0) <==> dist == 2,
{
}

/// Whether `outcome` is decisive enough for a knockout-class effect: a critical
/// success, or a margin of at least `tier`.
pub fn knockout_gated(outcome: &RollOutcome, tier: i32) -> (b: bool)
    ensures
        b == (outcome.crit || outcome.margin >= tier),
{
    outcome.crit || outcome.margin >= tier
}

/// The default knockout-gate width: strict — only a crit clears it.
pub const KNOCKOUT_MARGIN: i32 = 0x7fff_ffff;

/// Outcome of a resolved battle.
#[derive(Clone, Copy, PartialEq, Eq, Debug, Structural)]
pub enum Outcome {
    Ongoing,
    Winner(Team),
    /// Both sides wiped on the same tick, or the tick cap was reached.
    Draw,
}

} // verus!
