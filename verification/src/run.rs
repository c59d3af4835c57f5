//! The roguelike progression above a single battle.
//!
//! A **run** is a series of encounters fought as an attrition gauntlet (no rest within);
//! a **game** is a series of runs with rest between them. Both end on a wipe, and an
//! encounter is passed only if the army survived **and** its objective stayed satisfied —
//! so winning the fight but failing the mission still loses the run. Every battle's seed
//! is derived from the run / game seed, so the whole campaign replays identically.
use vstd::prelude::*;
use crate::hex::Hex;
use crate::objective::ObjectiveStatus;
use crate::combat::Team;

verus! {

/// Hard cap on ticks per battle (the sim's draw fallback).
pub const MAX_TICKS: u32 = 1000;

/// Depth column the enemy force deploys on (the player deploys on column 0).
pub const ENEMY_COLUMN: i32 = 6;

/// Where the run stands.
#[derive(Clone, Copy, PartialEq, Eq, Debug, Structural)]
pub enum RunOutcome {
    Ongoing,
    Won,
    Lost,
}

/// Where a game stands.
#[derive(Clone, Copy, PartialEq, Eq, Debug, Structural)]
pub enum GameOutcome {
    Ongoing,
    Won,
    Lost,
}

/// The bookkeeping of a series — a run through its encounters or a game through its runs:
/// how many stages it has, which is next, and how it stands.
#[derive(Clone, Copy, PartialEq, Eq, Debug, Structural)]
pub struct RunProgress {
    /// Index of the next unfought stage.
    pub index: usize,
    /// How many stages the series holds.
    pub stages: usize,
    pub outcome: RunOutcome,
}

impl RunProgress {
    /// The progress invariant: the index never passes the end; the series is won exactly
    /// when every stage is cleared, and still ongoing only while stages remain.
    pub open spec fn wf(self) -> bool {
        &&& self.index <= self.stages
        &&& (self.outcome == RunOutcome::Won <==> self.index == self.stages && self.outcome
            != RunOutcome::Lost)
        &&& (self.outcome == RunOutcome::Ongoing ==> self.index < self.stages)
    }

    /// Start a series with `roster` units against `stages` stages: an empty roster is an
    /// instant loss; no stages is an instant win.
    pub fn start(roster: usize, stages: usize) -> (p: RunProgress)
        ensures
            p.index == 0,
            p.stages == stages,
            p.outcome == if roster == 0 {
                RunOutcome::Lost
            } else if stages == 0 {
                RunOutcome::Won
            } else {
                RunOutcome::Ongoing
            },
            p.wf(),
    {
        let outcome = if roster == 0 {
            RunOutcome::Lost
        } else if stages == 0 {
            RunOutcome::Won
        } else {
            RunOutcome::Ongoing
        };
        RunProgress { index: 0, stages, outcome }
    }

    /// Record a fought encounter: pass it only if `survivors` remain **and** its objective
    /// is satisfied (not Failed) — then advance, winning after the last. Otherwise the run
    /// is lost. A run already decided stays as it is.
    pub fn record_encounter(&mut self, survivors: usize, objective: ObjectiveStatus)
        requires
            old(self).wf(),
        ensures
            final(self).wf(),
            final(self).stages == old(self).stages,
            old(self).outcome != RunOutcome::Ongoing ==> *final(self) == *old(self),
            old(self).outcome == RunOutcome::Ongoing && (survivors == 0 || objective == ObjectiveStatus::Failed) ==> *final(self) == (
            RunProgress { outcome: RunOutcome::Lost, ..*old(self) }),
            old(self).outcome == RunOutcome::Ongoing && survivors > 0 && objective != ObjectiveStatus::Failed ==> final(self).index
                == old(self).index + 1 && final(self).outcome == if old(self).index + 1
                == old(self).stages {
                RunOutcome::Won
            } else {
                RunOutcome::Ongoing
            },
    {
        if self.outcome != RunOutcome::Ongoing {
            return;
        }
        if survivors == 0 || !objective.is_satisfied() {
            self.outcome = RunOutcome::Lost;
        } else {
            self.index = self.index + 1;
            if self.index >= self.stages {
                self.outcome = RunOutcome::Won;
            }
        }
    }
}

/// The bookkeeping of a game: a series of runs with rest between them.
#[derive(Clone, Copy, PartialEq, Eq, Debug, Structural)]
pub struct GameProgress {
    /// Index of the next unplayed run.
    pub index: usize,
    /// How many runs the game holds.
    pub runs: usize,
    pub outcome: GameOutcome,
}

impl GameProgress {
    /// The progress invariant, as for a run.
    pub open spec fn wf(self) -> bool {
        &&& self.index <= self.runs
        &&& (self.outcome == GameOutcome::Won <==> self.index == self.runs && self.outcome
            != GameOutcome::Lost)
        &&& (self.outcome == GameOutcome::Ongoing ==> self.index < self.runs)
    }

    /// Start a game with `roster` units and `runs` runs: an empty roster is an instant
    /// loss; no runs is an instant win.
    pub fn start(roster: usize, runs: usize) -> (p: GameProgress)
        ensures
            p.index == 0,
            p.runs == runs,
            p.outcome == if roster == 0 {
                GameOutcome::Lost
            } else if runs == 0 {
                GameOutcome::Won
            } else {
                GameOutcome::Ongoing
            },
            p.wf(),
    {
        let outcome = if roster == 0 {
            GameOutcome::Lost
        } else if runs == 0 {
            GameOutcome::Won
        } else {
            GameOutcome::Ongoing
        };
        GameProgress { index: 0, runs, outcome }
    }

    /// Record a played run: a lost run (a wipe or a failed objective) ends the campaign;
    /// otherwise advance, winning after the last run. A game already decided stays as it is.
    pub fn record_run(&mut self, run: RunOutcome)
        requires
            old(self).wf(),
        ensures
            final(self).wf(),
            final(self).runs == old(self).runs,
            old(self).outcome != GameOutcome::Ongoing ==> *final(self) == *old(self),
            old(self).outcome == GameOutcome::Ongoing && run == RunOutcome::Lost ==> *final(self) == (GameProgress {
                outcome: GameOutcome::Lost,
                ..*old(self)
            }),
            old(self).outcome == GameOutcome::Ongoing && run != RunOutcome::Lost ==> final(self).index == old(self).index + 1
                && final(self).outcome == if old(self).index + 1 == old(self).runs {
                GameOutcome::Won
            } else {
                GameOutcome::Ongoing
            },
    {
        if self.outcome != GameOutcome::Ongoing {
            return;
        }
        if run == RunOutcome::Lost {
            self.outcome = GameOutcome::Lost;
        } else {
            self.index = self.index + 1;
            if self.index >= self.runs {
                self.outcome = GameOutcome::Won;
            }
        }
    }
}

/// The golden-ratio multiplier that spreads stage indices across seeds.
pub open spec fn encounter_mix() -> u64 {
    0x9E37_79B9_7F4A_7C15u64
}

/// The multiplier that spreads run indices across seeds.
pub open spec fn run_mix() -> u64 {
    0xD1B5_4A32_D192_ED03u64
}

/// The seed of encounter `index` of a run seeded `seed`: `seed ^ index·φ` (wrapping).
pub fn encounter_seed(seed: u64, index: usize) -> (s: u64)
    ensures
        s == seed ^ vstd::wrapping::u64_specs::wrapping_mul(index as u64, encounter_mix()),
{
    seed ^ (index as u64).wrapping_mul(0x9E37_79B9_7F4A_7C15)
}

/// The seed of run `index` of a game seeded `seed`.
pub fn run_seed(seed: u64, index: usize) -> (s: u64)
    ensures
        s == seed ^ vstd::wrapping::u64_specs::wrapping_mul(index as u64, run_mix()),
{
    seed ^ (index as u64).wrapping_mul(0xD1B5_4A32_D192_ED03)
}

/// The deploy hex of the `row`-th unit of `team`: the player on column 0, the enemy on
/// [`ENEMY_COLUMN`], one unit per row.
pub fn deploy_hex(team: Team, row: usize) -> (h: Hex)
    requires
        row <= i32::MAX,
    ensures
        h.r == row,
        h.q == match team {
            Team::A => 0i32,
            Team::B => ENEMY_COLUMN,
        },
{
    let q = match team {
        Team::A => 0,
        Team::B => ENEMY_COLUMN,
    };
    Hex::new(q, row as i32)
}

/// **The first battle of a series plays on the series' own seed**, and the seed is a pure
/// function of the series seed and the stage index — so a campaign replays identically.
pub proof fn lemma_first_stage_keeps_the_seed(seed: u64)
    ensures
        seed ^ vstd::wrapping::u64_specs::wrapping_mul(0u64, encounter_mix()) == seed,
        seed ^ vstd::wrapping::u64_specs::wrapping_mul(0u64, run_mix()) == seed,
{
    assert(vstd::wrapping::u64_specs::wrapping_mul(0u64, encounter_mix()) == 0);
    assert(vstd::wrapping::u64_specs::wrapping_mul(0u64, run_mix()) == 0);
    assert(seed ^ 0u64 == seed) by (bit_vector);
}

/// **A series ends once and stays ended**: a decided run is won exactly when every stage
/// was cleared; a run still ongoing always has a stage left to fight.
pub proof fn lemma_progress_is_consistent(p: RunProgress)
    requires
        p.wf(),
    ensures
        p.outcome == RunOutcome::Won ==> p.index == p.stages,
        p.outcome == RunOutcome::Ongoing ==> p.index < p.stages,
        p.index <= p.stages,
{
}

/// The names a battle cost the roster: every roster name, in roster order, that no survivor
/// carries (permadeath).
pub open spec fn lost(roster: Seq<Seq<char>>, alive: Set<Seq<char>>) -> Seq<Seq<char>>
    decreases roster.len(),
{
    if roster.len() == 0 {
        Seq::empty()
    } else {
        let rest = lost(roster.drop_last(), alive);
        if alive.contains(roster.last()) {
            rest
        } else {
            rest.push(roster.last())
        }
    }
}

/// The names of a list of units, as the contracts read them.
pub open spec fn names(v: Seq<String>) -> Seq<Seq<char>> {
    v.map_values(|s: String| s@)
}

/// The roster names lost in a battle, given the roster sent and the names that came back.
pub fn casualties(roster: &Vec<String>, survivors: &Vec<String>) -> (losses: Vec<String>)
    ensures
        names(losses@) == lost(names(roster@), names(survivors@).to_set()),
{
    let ghost alive = names(survivors@).to_set();
    let mut losses: Vec<String> = Vec::new();
    let mut i: usize = 0;
    while i < roster.len()
        invariant
            i <= roster.len(),
            alive == names(survivors@).to_set(),
            names(losses@) == lost(names(roster@).take(i as int), alive),
        decreases roster.len() - i,
    {
        let mut found = false;
        let mut k: usize = 0;
        while k < survivors.len()
            invariant
                k <= survivors.len(),
                i < roster.len(),
                found <==> exists|m: int| 0 <= m < k && (#[trigger] survivors@[m])@ == roster@[i as int]@,
            decreases survivors.len() - k,
        {
            if survivors[k] == roster[i] {
                found = true;
            }
            k = k + 1;
        }
        proof {
            let n = roster@[i as int]@;
            assert(names(roster@).take(i + 1).drop_last() =~= names(roster@).take(i as int));
            assert(names(roster@).take(i + 1).last() == n);
            if found {
                let m = choose|m: int| 0 <= m < survivors.len() && (#[trigger] survivors@[m])@ == n;
                assert(names(survivors@)[m] == n);
                assert(alive.contains(n));
            } else {
                if alive.contains(n) {
                    let m = choose|m: int| 0 <= m < names(survivors@).len() && names(survivors@)[m] == n;
                    assert(survivors@[m]@ == n);
                }
            }
        }
        if !found {
            let name = roster[i].clone();
            losses.push(name);
            proof {
                assert(names(losses@) =~= lost(names(roster@).take(i as int), alive).push(roster@[i as int]@));
            }
        }
        i = i + 1;
    }
    proof {
        assert(names(roster@).take(roster.len() as int) =~= names(roster@));
    }
    losses
}

/// Whether a name is lost depends only on whether it survived.
proof fn lemma_lost_reads_membership(roster: Seq<Seq<char>>, a: Set<Seq<char>>, b: Set<Seq<char>>)
    requires
        forall|k: int| 0 <= k < roster.len() ==> (a.contains(#[trigger] roster[k]) == b.contains(roster[k])),
    ensures
        lost(roster, a) == lost(roster, b),
    decreases roster.len(),
{
    if roster.len() > 0 {
        let rest = roster.drop_last();
        assert forall|k: int| 0 <= k < rest.len() implies (a.contains(#[trigger] rest[k]) == b.contains(rest[k])) by {
            assert(rest[k] == roster[k]);
        }
        lemma_lost_reads_membership(rest, a, b);
        assert(roster.last() == roster[roster.len() - 1]);
    }
}

/// The counting core: with distinct roster names, the lost and the surviving names add up
/// to the roster.
proof fn lemma_lost_count(roster: Seq<Seq<char>>, alive: Set<Seq<char>>)
    requires
        roster.no_duplicates(),
        alive.finite(),
        alive.subset_of(roster.to_set()),
    ensures
        lost(roster, alive).len() + alive.len() == roster.len(),
    decreases roster.len(),
{
    if roster.len() == 0 {
        assert(alive =~= Set::empty()) by {
            assert forall|n: Seq<char>| !alive.contains(n) by {
                if alive.contains(n) {
                    assert(roster.to_set().contains(n));
                }
            }
        }
    } else {
        let x = roster.last();
        let rest = roster.drop_last();
        assert(rest.no_duplicates()) by {
            assert forall|i: int, j: int| 0 <= i < rest.len() && 0 <= j < rest.len() && i != j implies rest[i] != rest[j] by {
                assert(rest[i] == roster[i] && rest[j] == roster[j]);
            }
        }
        assert(!rest.contains(x)) by {
            if rest.contains(x) {
                let k = choose|k: int| 0 <= k < rest.len() && rest[k] == x;
                assert(roster[k] == roster[roster.len() - 1]);
            }
        }
        if alive.contains(x) {
            let fewer = alive.remove(x);
            assert(fewer.subset_of(rest.to_set())) by {
                assert forall|n: Seq<char>| fewer.contains(n) implies rest.to_set().contains(n) by {
                    assert(roster.to_set().contains(n));
                    let k = choose|k: int| 0 <= k < roster.len() && roster[k] == n;
                    assert(k != roster.len() - 1);
                    assert(rest[k] == n);
                }
            }
            lemma_lost_count(rest, fewer);
            assert forall|k: int| 0 <= k < rest.len() implies (alive.contains(#[trigger] rest[k]) == fewer.contains(rest[k])) by {
                assert(rest[k] != x);
            }
            lemma_lost_reads_membership(rest, alive, fewer);
        } else {
            assert(alive.subset_of(rest.to_set())) by {
                assert forall|n: Seq<char>| alive.contains(n) implies rest.to_set().contains(n) by {
                    assert(roster.to_set().contains(n));
                    let k = choose|k: int| 0 <= k < roster.len() && roster[k] == n;
                    assert(k != roster.len() - 1);
                    assert(rest[k] == n);
                }
            }
            lemma_lost_count(rest, alive);
        }
    }
}

/// **Casualty bookkeeping reconciles**: when the roster's names are distinct and every
/// survivor is a distinct member of it, the survivors and the lost add up to the roster sent.
pub proof fn lemma_casualties_reconcile(roster: Seq<Seq<char>>, survivors: Seq<Seq<char>>)
    requires
        roster.no_duplicates(),
        survivors.no_duplicates(),
        forall|k: int| 0 <= k < survivors.len() ==> roster.contains(#[trigger] survivors[k]),
    ensures
        lost(roster, survivors.to_set()).len() + survivors.len() == roster.len(),
{
    survivors.unique_seq_to_set();
    assert(survivors.to_set().subset_of(roster.to_set())) by {
        assert forall|n: Seq<char>| survivors.to_set().contains(n) implies roster.to_set().contains(n) by {
            let k = choose|k: int| 0 <= k < survivors.len() && survivors[k] == n;
            assert(roster.contains(survivors[k]));
        }
    }
    lemma_lost_count(roster, survivors.to_set());
}

} // verus!
