//! Engine-agnostic, deterministic battle rules for CHROME AND CODE: hex topology, the
//! seam board, seeded randomness, the roll-under contest, skills, netrunning ratings,
//! equipment tags, scored objectives and the run / campaign progression.

pub mod armor;
pub mod board;
pub mod chargen;
pub mod combat;
pub mod event;
pub mod hack;
pub mod hex;
pub mod implant;
pub mod objective;
pub mod profile;
pub mod rng;
pub mod roll;
pub mod run;
pub mod single;
pub mod skills;
pub mod status;
pub mod tactics;
pub mod terrain;

pub use armor::ArmorClass;
pub use board::{Board, SeamOffset};
pub use chargen::{
    Condition, Contagion, Event, Expiration, FactorKind, Gate, GenId, Override, Priority, Remove,
    Stat, Tag, Vector, Wear,
};
pub use combat::{
    knockout_gated, DamageType, EquipmentTags, Footprint, Outcome, PenTier, Team, UnitId,
    AWKWARD_ADJACENT, AWKWARD_POINT_BLANK, KNOCKOUT_MARGIN, RANGED_LONG, RANGED_LONG_PENALTY,
    RANGED_MEDIUM, RANGED_MEDIUM_PENALTY,
};
pub use event::BreachVector;
pub use hack::{hack_rating, margin_stacks, Hack, HackResult, Program, Programs};
pub use hex::Hex;
pub use implant::Pan;
pub use objective::{
    ActiveObjective, CaptureFlag, CaptureHold, Extract, FollowUp, FoundAction, Goal, Hold,
    MarginLoss, Objective, ObjectiveKind, ObjectiveStatus, Objectives, Reach, Search, Survive,
    TimeAttack, UnitView, WinFight, PLAYER,
};
pub use profile::{MovementProfile, NetDoctrine, TargetingProfile};
pub use rng::{RandomSource, ScriptedRng, SplitMix64};
pub use roll::{resolve_check, resolve_opposed, resolve_versus, Opposed, RollOutcome};
pub use run::{GameOutcome, GameProgress, RunOutcome, RunProgress};
pub use skills::{Chassis, Skill, SkillTier, Skills};
pub use status::{Behavior, Decay, Resist, Stacking, Targeting, Timing, Trigger};
pub use terrain::Bounds;
