//! Cyberware network modes.
use vstd::prelude::*;

verus! {

/// A unit's **Personal Area Network** mode — a loadout commitment, not an in-battle toggle.
///
/// - **Meshed** (default): cross-implant synergy and full throughput, but a breach can
///   cascade to every implant at once.
/// - **Segmented**: implants isolated, so a breach is contained, but no synergy.
#[derive(Clone, Copy, PartialEq, Eq, Debug, Default, Structural)]
pub enum Pan {
    #[default]
    Meshed,
    Segmented,
}

/// The most a meshed network's synergy adds.
pub const MESH_SYNERGY_CAP: i32 = 3;

impl Pan {
    /// The throughput bonus of a network with `active` implants online: a meshed one gains
    /// one per active implant beyond the first, capped at [`MESH_SYNERGY_CAP`]; a segmented
    /// one gains nothing.
    pub open spec fn synergy_of(self, active: int) -> int {
        if self == Pan::Meshed {
            if active <= 1 {
                0
            } else if active - 1 >= MESH_SYNERGY_CAP {
                MESH_SYNERGY_CAP as int
            } else {
                active - 1
            }
        } else {
            0
        }
    }

    /// The implants a breach trips, from the target's active digital implants in slot
    /// order: every one when the breach cascades across a meshed network, otherwise only
    /// the first.
    pub open spec fn tripped(self, digital: Seq<usize>, cascades: bool) -> Seq<usize> {
        if self == Pan::Meshed && cascades {
            digital
        } else if digital.len() == 0 {
            digital
        } else {
            seq![digital[0]]
        }
    }

    /// The network's synergy bonus.
    pub fn synergy(self, active: usize) -> (s: i32)
        ensures
            s == self.synergy_of(active as int),
    {
        match self {
            Pan::Meshed => if active <= 1 {
                0
            } else if active - 1 >= 3 {
                MESH_SYNERGY_CAP
            } else {
                (active - 1) as i32
            },
            Pan::Segmented => 0,
        }
    }

    /// The implants a breach trips.
    pub fn breach_slots(self, digital: &Vec<usize>, cascades: bool) -> (slots: Vec<usize>)
        ensures
            slots@ == self.tripped(digital@, cascades),
    {
        if self == Pan::Meshed && cascades {
            digital.clone()
        } else if digital.len() == 0 {
            Vec::new()
        } else {
            let mut v = Vec::new();
            v.push(digital[0]);
            v
        }
    }
}

/// **A segmented network contains every breach and earns no synergy**, while a cascading
/// breach of a meshed network trips every active digital implant: whatever the roll, a
/// segmented target loses at most one implant (the first, if it has any).
pub proof fn lemma_segmented_contains(digital: Seq<usize>, cascades: bool, active: int)
    ensures
        Pan::Segmented.tripped(digital, cascades).len() <= 1,
        digital.len() > 0 ==> Pan::Segmented.tripped(digital, cascades) == seq![digital[0]],
        Pan::Segmented.synergy_of(active) == 0,
        Pan::Meshed.tripped(digital, true) == digital,
        0 <= Pan::Meshed.synergy_of(active) <= MESH_SYNERGY_CAP,
{
}

} // verus!
