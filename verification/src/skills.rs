//! Skills & chassis — the per-character roll modifiers.
//!
//! Skills are tiers *on* a governing attribute: a unit's effective rating at a skill is
//! `governing attribute + skill tier` (untrained −3 … elite +2; competent 0). Every
//! [`Chassis`] ships a low baseline; growth and chips build from there.
use vstd::prelude::*;
use crate::chargen::Stat;

verus! {

/// A skill domain, each governed by a primary attribute ([`Skill::governs`]).
#[derive(Clone, Copy, PartialEq, Eq, Debug, Structural)]
pub enum Skill {
    /// Hand-to-hand (Body).
    Melee,
    /// Ranged firearms (Dexterity).
    Gunnery,
    /// Netrunning (Intellect).
    Hacking,
    /// Field medicine (Intellect).
    Medical,
    /// Active defense — the opposed dodge roll (Dexterity).
    Evade,
    /// Moving unseen (Dexterity).
    Stealth,
    /// Heavy / support weapons (Body).
    Heavy,
    /// Gadgets, repair, demolitions (Intellect).
    Tech,
}

impl Skill {
    /// Every skill, in declaration order.
    pub const ALL: [Skill; 8] = [
        Skill::Melee,
        Skill::Gunnery,
        Skill::Hacking,
        Skill::Medical,
        Skill::Evade,
        Skill::Stealth,
        Skill::Heavy,
        Skill::Tech,
    ];

    /// How many skills there are.
    pub const COUNT: usize = 8;

    /// The skill's slot in a [`Skills`] table (its declaration position).
    pub open spec fn slot(self) -> int {
        match self {
            Skill::Melee => 0,
            Skill::Gunnery => 1,
            Skill::Hacking => 2,
            Skill::Medical => 3,
            Skill::Evade => 4,
            Skill::Stealth => 5,
            Skill::Heavy => 6,
            Skill::Tech => 7,
        }
    }

    /// The skill's slot in a [`Skills`] table.
    pub fn index(self) -> (i: usize)
        ensures
            i == self.slot(),
            i < 8,
    {
        match self {
            Skill::Melee => 0,
            Skill::Gunnery => 1,
            Skill::Hacking => 2,
            Skill::Medical => 3,
            Skill::Evade => 4,
            Skill::Stealth => 5,
            Skill::Heavy => 6,
            Skill::Tech => 7,
        }
    }

    /// The governing primary attribute: effective rating = this attribute + the tier.
    pub open spec fn governing(self) -> Stat {
        match self {
            Skill::Melee | Skill::Heavy => Stat::Body,
            Skill::Gunnery | Skill::Stealth | Skill::Evade => Stat::Dexterity,
            Skill::Hacking | Skill::Medical | Skill::Tech => Stat::Intellect,
        }
    }

    /// The governing primary attribute of this skill.
    pub fn governs(self) -> (stat: Stat)
        ensures
            stat == self.governing(),
    {
        match self {
            Skill::Melee | Skill::Heavy => Stat::Body,
            Skill::Gunnery | Skill::Stealth | Skill::Evade => Stat::Dexterity,
            Skill::Hacking | Skill::Medical | Skill::Tech => Stat::Intellect,
        }
    }
}

/// A skill **proficiency tier**: a modifier on the governing attribute.
#[derive(Clone, Copy, PartialEq, Eq, Debug, Structural)]
pub enum SkillTier {
    Untrained,
    Exposed,
    Beginner,
    Competent,
    Expert,
    Elite,
}

impl SkillTier {
    /// The tier's rung, `0` (untrained) to `5` (elite).
    pub open spec fn rung(self) -> int {
        match self {
            SkillTier::Untrained => 0,
            SkillTier::Exposed => 1,
            SkillTier::Beginner => 2,
            SkillTier::Competent => 3,
            SkillTier::Expert => 4,
            SkillTier::Elite => 5,
        }
    }

    /// The modifier this tier adds to the governing attribute (−3 … +2): the rung less
    /// three, so competent is the raw attribute.
    pub fn modifier(self) -> (m: i32)
        ensures
            m == self.rung() - 3,
    {
        match self {
            SkillTier::Untrained => -3,
            SkillTier::Exposed => -2,
            SkillTier::Beginner => -1,
            SkillTier::Competent => 0,
            SkillTier::Expert => 1,
            SkillTier::Elite => 2,
        }
    }
}

/// **The tier ladder is monotone**: a higher proficiency tier never gives a lower modifier,
/// and each rung is worth exactly one point.
pub proof fn lemma_tier_ladder_is_monotone(a: SkillTier, b: SkillTier)
    ensures
        a.rung() <= b.rung() ==> a.rung() - 3 <= b.rung() - 3,
        b.rung() == a.rung() + 1 ==> b.rung() - 3 == a.rung() - 3 + 1,
        -3 <= a.rung() - 3 <= 2,
{
}

/// A unit's skill levels (one per [`Skill`]).
#[derive(Clone, Copy, Debug, Default, PartialEq, Eq)]
pub struct Skills {
    levels: [i32; 8],
}

impl Skills {
    /// The level held in skill `s`.
    pub closed spec fn at(self, s: Skill) -> int {
        self.levels@[s.slot()] as int
    }

    /// An empty table: every skill at level 0.
    pub fn new() -> (s: Skills)
        ensures
            forall|k: Skill| #[trigger] s.at(k) == 0,
    {
        let s = Skills { levels: [0, 0, 0, 0, 0, 0, 0, 0] };
        assert forall|k: Skill| #[trigger] s.at(k) == 0 by {
            assert(s.levels@[k.slot()] == 0);
        }
        s
    }

    /// The level held in skill `s`.
    pub fn level(&self, s: Skill) -> (l: i32)
        ensures
            l == self.at(s),
    {
        self.levels[s.index()]
    }

    /// Set skill `s` to `level` in place, returning the table for chaining.
    pub fn set(&mut self, s: Skill, level: i32) -> (this: &mut Self)
        ensures
            this.at(s) == level,
            forall|k: Skill| k != s ==> #[trigger] this.at(k) == old(self).at(k),
            *final(self) == *final(this),
    {
        self.levels[s.index()] = level;
        self
    }

    /// Builder-style set, for inline construction.
    pub fn with(self, s: Skill, level: i32) -> (out: Skills)
        ensures
            out.at(s) == level,
            forall|k: Skill| k != s ==> #[trigger] out.at(k) == self.at(k),
    {
        let mut out = self;
        out.levels[s.index()] = level;
        out
    }

    /// Builder: set a skill to a named proficiency tier (the stored value is the tier's
    /// modifier on the governing attribute).
    pub fn with_tier(self, s: Skill, tier: SkillTier) -> (out: Skills)
        ensures
            out.at(s) == tier.rung() - 3,
            forall|k: Skill| k != s ==> #[trigger] out.at(k) == self.at(k),
    {
        self.with(s, tier.modifier())
    }

    /// Raise a skill by `by` (growth).
    pub fn raise(&mut self, s: Skill, by: i32)
        requires
            i32::MIN <= old(self).at(s) + by <= i32::MAX,
        ensures
            final(self).at(s) == old(self).at(s) + by,
            forall|k: Skill| k != s ==> #[trigger] final(self).at(k) == old(self).at(k),
    {
        let i = s.index();
        self.levels[i] = self.levels[i] + by;
    }
}

/// The innate class. Sets, among other things, the low skill floor.
#[derive(Clone, Copy, PartialEq, Eq, Debug, Structural)]
pub enum Chassis {
    Flesh,
    Augmented,
    Machine,
    Vehicle,
}

impl Chassis {
    /// Is this a **biological** body — a valid host for a bio contagion?
    pub fn is_biological(self) -> (bio: bool)
        ensures
            bio <==> (self == Chassis::Flesh || self == Chassis::Augmented),
    {
        match self {
            Chassis::Flesh | Chassis::Augmented => true,
            _ => false,
        }
    }

    /// The chassis's **body coverage** — the slice of the `1..100`-style hit-location roll
    /// the meat occupies; each implant extends the domain on top. Bigger frames present more.
    pub fn coverage(self) -> (c: i32)
        ensures
            c == match self {
                Chassis::Flesh => 100i32,
                Chassis::Augmented => 90,
                Chassis::Machine => 80,
                Chassis::Vehicle => 160,
            },
    {
        match self {
            Chassis::Flesh => 100,
            Chassis::Augmented => 90,
            Chassis::Machine => 80,
            Chassis::Vehicle => 160,
        }
    }

    /// The native skill and level of this chassis's baseline.
    pub open spec fn native(self) -> Seq<(Skill, int)> {
        match self {
            Chassis::Flesh => seq![(Skill::Melee, 2)],
            Chassis::Augmented => seq![(Skill::Melee, 1), (Skill::Hacking, 1)],
            Chassis::Machine => seq![(Skill::Gunnery, 2)],
            Chassis::Vehicle => seq![(Skill::Gunnery, 1)],
        }
    }

    /// The **low** innate skill floor the chassis ships with: its native skills at their
    /// native levels, every other skill at 0.
    pub fn baseline_skills(self) -> (s: Skills)
        ensures
            forall|k: Skill| #[trigger] s.at(k) == if k == Skill::Melee {
                match self {
                    Chassis::Flesh => 2int,
                    Chassis::Augmented => 1,
                    _ => 0,
                }
            } else if k == Skill::Hacking {
                if self == Chassis::Augmented {
                    1int
                } else {
                    0
                }
            } else if k == Skill::Gunnery {
                match self {
                    Chassis::Machine => 2int,
                    Chassis::Vehicle => 1,
                    _ => 0,
                }
            } else {
                0
            },
    {
        match self {
            Chassis::Flesh => Skills::new().with(Skill::Melee, 2),
            Chassis::Augmented => Skills::new().with(Skill::Melee, 1).with(Skill::Hacking, 1),
            Chassis::Machine => Skills::new().with(Skill::Gunnery, 2),
            Chassis::Vehicle => Skills::new().with(Skill::Gunnery, 1),
        }
    }
}

} // verus!
