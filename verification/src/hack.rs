//! Netrunning — the digital attack, resolved by the core 2d10 roll-under.
//!
//! A hack runs over the **connection** between attacker and target, whose bandwidth is the
//! weaker endpoint's Link (the channel). The attacker's rating averages its Hacking with
//! that channel: `2d10 ≤ avg(Hacking, channel) − Ice`. Zero Link on either end is a hard
//! gate (no surface / no presence). On a success the hack lands its payload, with stacks
//! scaling on the margin (degree of success).
use vstd::prelude::*;
use crate::roll::RollOutcome;

verus! {

/// How many margin points buy one extra payload stack.
pub const MARGIN_PER_STACK: i32 = 3;

/// The stacks bought by a margin: the non-negative part of the margin, floored by
/// [`MARGIN_PER_STACK`].
pub open spec fn stacks_of_margin(margin: int) -> int {
    if margin > 0 {
        margin / 3
    } else {
        0
    }
}

/// Extra stacks bought by the **degree of success** — the margin, floored by
/// [`MARGIN_PER_STACK`]. `0` at margin ≤ 0, so a marginal breach is a pure disable.
pub fn margin_stacks(margin: i32) -> (s: u32)
    ensures
        s == stacks_of_margin(margin as int),
{
    let m = if margin > 0 {
        margin
    } else {
        0
    };
    (m / MARGIN_PER_STACK) as u32
}

/// The attacker's effective hack rating: its Hacking averaged with the connection channel,
/// floored — `⌊(hacking + channel) / 2⌋`.
pub fn hack_rating(hacking: i32, channel: i32) -> (r: i32)
    requires
        i32::MIN <= hacking + channel <= i32::MAX,
    ensures
        r == (hacking + channel) / 2,
{
    let sum = hacking + channel;
    let half = sum / 2;
    if sum < 0 && half * 2 != sum {
        half - 1
    } else {
        half
    }
}

/// **A deeper margin never lands fewer stacks**, and every three points of margin buy
/// exactly one more.
pub proof fn lemma_margin_stacks_monotone(a: int, b: int)
    requires
        a <= b,
    ensures
        stacks_of_margin(a) <= stacks_of_margin(b),
        a >= 0 ==> stacks_of_margin(a + 3) == stacks_of_margin(a) + 1,
        stacks_of_margin(a) >= 0,
{
}

/// **The rating sits between its two inputs**: neither skill nor channel alone decides it.
pub proof fn lemma_rating_between(hacking: int, channel: int)
    ensures
        hacking <= channel ==> hacking <= (hacking + channel) / 2 + 1
            && (hacking + channel) / 2 <= channel,
        channel <= hacking ==> channel <= (hacking + channel) / 2 + 1
            && (hacking + channel) / 2 <= hacking,
{
}

/// A unit's **hack capability** — the digital action a deck grants.
#[derive(Clone, Copy, Debug, PartialEq, Eq, Structural)]
pub struct Hack {
    /// Nominal antenna reach on the deck spec (reach is read from Link in resolution).
    pub range: i32,
    /// Stacks a landed program lands at margin 0; the margin adds more.
    pub base_stacks: u32,
    /// Duration of a landed program's status.
    pub duration: u32,
}

impl Hack {
    /// The stacks a resolved outcome lands: base + margin-scaled bonus + one for a crit,
    /// or none on a failure.
    pub open spec fn stacks_landed(self, o: RollOutcome) -> int {
        if !o.success {
            0
        } else {
            self.base_stacks + stacks_of_margin(o.margin as int) + if o.crit {
                1int
            } else {
                0
            }
        }
    }

    pub fn new(range: i32, base_stacks: u32, duration: u32) -> (h: Hack)
        ensures
            h.range == range,
            h.base_stacks == base_stacks,
            h.duration == duration,
    {
        Hack { range, base_stacks, duration }
    }

    /// Stacks landed for a resolved `outcome`: base + a margin-scaled bonus + a crit bump,
    /// or `0` on failure. Margin floored at `0`, so a crit over the wall still lands base.
    pub fn stacks_for(&self, outcome: &RollOutcome) -> (s: u32)
        requires
            self.base_stacks + stacks_of_margin(outcome.margin as int) + 1 <= u32::MAX,
        ensures
            s == self.stacks_landed(*outcome),
    {
        if !outcome.success {
            return 0;
        }
        let crit: u32 = if outcome.crit {
            1
        } else {
            0
        };
        self.base_stacks + margin_stacks(outcome.margin) + crit
    }
}

/// A **netrunning program** — a deck-loadout slot, the runner's software.
///
/// Offensive riders run on a successful breach against the hacked target; breach
/// modifiers (Cascade / Logicbomb) reshape the breach; defensive programs (Honeypot /
/// Ghost / Antivirus) fire on their own seam.
#[derive(Clone, Copy, PartialEq, Eq, Debug, Structural)]
pub enum Program {
    /// The lockout drain — a deck's bread-and-butter payload (an Internal DoT).
    Lockware,
    /// Cooks a target's heat-prone chrome (an Internal DoT) on a solid breach.
    Overheat,
    /// A premium heavy burn, the runner's finisher, on any solid breach.
    Meltdown,
    /// A digital stun; crit-gated like every knockout.
    Crash,
    /// Slows the target's initiative on a solid breach.
    Lag,
    /// Pries the target open: incoming damage amped, on a solid breach.
    Breach,
    /// Corrupts targeting optics: a Dexterity debuff on a solid breach.
    Blind,
    /// Rots the target's Ice on a solid breach.
    Decrypt,
    /// Drains the target's Link on a solid breach.
    Leech,
    /// Deploys a contagious Ice-rot that rides the net.
    Worm,
    /// Breach modifier: a meshed target's breach trips every implant.
    Cascade,
    /// Breach modifier: force-fires tripped chrome's liabilities past the disable floor.
    Logicbomb,
    /// Corrupts the target's targeting script for several ticks.
    Spoof,
    /// Corrupts the target's movement routine briefly.
    Misfire,
    /// Defensive counter-ICE: a repelled intruder gets bitten back.
    Honeypot,
    /// Defensive stealth suite: the runner reads darker.
    GhostSuite,
    /// Defensive ward: strips worm corruption off its owner each tick.
    Antivirus,
}

impl Program {
    /// The program's position in [`Program::all`] — the resolution order.
    pub open spec fn slot(self) -> int {
        match self {
            Program::Lockware => 0,
            Program::Overheat => 1,
            Program::Meltdown => 2,
            Program::Crash => 3,
            Program::Lag => 4,
            Program::Breach => 5,
            Program::Blind => 6,
            Program::Decrypt => 7,
            Program::Leech => 8,
            Program::Worm => 9,
            Program::Cascade => 10,
            Program::Logicbomb => 11,
            Program::Spoof => 12,
            Program::Misfire => 13,
            Program::Honeypot => 14,
            Program::GhostSuite => 15,
            Program::Antivirus => 16,
        }
    }

    /// The program's position in the resolution order.
    pub fn index(self) -> (i: usize)
        ensures
            i == self.slot(),
            i < 17,
    {
        match self {
            Program::Lockware => 0,
            Program::Overheat => 1,
            Program::Meltdown => 2,
            Program::Crash => 3,
            Program::Lag => 4,
            Program::Breach => 5,
            Program::Blind => 6,
            Program::Decrypt => 7,
            Program::Leech => 8,
            Program::Worm => 9,
            Program::Cascade => 10,
            Program::Logicbomb => 11,
            Program::Spoof => 12,
            Program::Misfire => 13,
            Program::Honeypot => 14,
            Program::GhostSuite => 15,
            Program::Antivirus => 16,
        }
    }

    /// The program in resolution slot `i`.
    pub fn from_index(i: usize) -> (p: Program)
        requires
            i < 17,
        ensures
            p.slot() == i,
    {
        match i {
            0 => Program::Lockware,
            1 => Program::Overheat,
            2 => Program::Meltdown,
            3 => Program::Crash,
            4 => Program::Lag,
            5 => Program::Breach,
            6 => Program::Blind,
            7 => Program::Decrypt,
            8 => Program::Leech,
            9 => Program::Worm,
            10 => Program::Cascade,
            11 => Program::Logicbomb,
            12 => Program::Spoof,
            13 => Program::Misfire,
            14 => Program::Honeypot,
            15 => Program::GhostSuite,
            _ => Program::Antivirus,
        }
    }

    /// The full roster, in resolution order (offensive riders, then breach modifiers, then
    /// the defensive trio).
    pub fn all() -> (ps: Vec<Program>)
        ensures
            ps@.len() == 17,
            forall|i: int| 0 <= i < 17 ==> (#[trigger] ps@[i]).slot() == i,
    {
        let mut ps: Vec<Program> = Vec::new();
        let mut i: usize = 0;
        while i < 17
            invariant
                0 <= i <= 17,
                ps@.len() == i,
                forall|k: int| 0 <= k < i ==> (#[trigger] ps@[k]).slot() == k,
            decreases 17 - i,
        {
            ps.push(Program::from_index(i));
            i += 1;
        }
        ps
    }
}

/// A unit's **loaded program set** — its deck loadout, keyed by [`Program`].
#[derive(Clone, Copy, Debug, Default, PartialEq, Eq)]
pub struct Programs {
    loaded: [bool; 17],
}

impl Programs {
    /// Is `p` loaded in this set?
    pub closed spec fn holds(self, p: Program) -> bool {
        self.loaded@[p.slot()]
    }

    /// The empty loadout.
    pub fn none() -> (s: Programs)
        ensures
            forall|p: Program| !(#[trigger] s.holds(p)),
    {
        let s = Programs { loaded: [false; 17] };
        assert forall|p: Program| !(#[trigger] s.holds(p)) by {
            assert(s.loaded@[p.slot()] == false);
        }
        s
    }

    /// A set of one program.
    pub fn just(p: Program) -> (s: Programs)
        ensures
            forall|k: Program| #[trigger] s.holds(k) <==> k == p,
    {
        Programs::none().with(p)
    }

    /// This set with `p` loaded.
    pub fn with(self, p: Program) -> (s: Programs)
        ensures
            s.holds(p),
            forall|k: Program| k != p ==> #[trigger] s.holds(k) == self.holds(k),
    {
        let mut s = self;
        s.loaded[p.index()] = true;
        proof {
            assert forall|k: Program| k != p implies #[trigger] s.holds(k) == self.holds(k) by {
                assert(k.slot() != p.slot());
            }
        }
        s
    }

    /// Is `p` loaded?
    pub fn has(self, p: Program) -> (b: bool)
        ensures
            b == self.holds(p),
    {
        self.loaded[p.index()]
    }

    /// The loaded programs, in resolution order.
    pub fn iter(self) -> (out: Vec<Program>)
        ensures
            forall|p: Program| out@.contains(p) <==> self.holds(p),
            forall|i: int, j: int|
                0 <= i < j < out@.len() ==> (#[trigger] out@[i]).slot() < (#[trigger] out@[j]).slot(),
    {
        let all = Program::all();
        let mut out: Vec<Program> = Vec::new();
        let mut i: usize = 0;
        while i < 17
            invariant
                0 <= i <= 17,
                all@.len() == 17,
                forall|k: int| 0 <= k < 17 ==> (#[trigger] all@[k]).slot() == k,
                forall|p: Program| out@.contains(p) <==> (self.holds(p) && p.slot() < i),
                forall|a: int, b: int|
                    0 <= a < b < out@.len() ==> (#[trigger] out@[a]).slot() < (#[trigger] out@[b]).slot(),
                forall|a: int| 0 <= a < out@.len() ==> (#[trigger] out@[a]).slot() < i,
            decreases 17 - i,
        {
            let p = all[i];
            if self.has(p) {
                proof {
                    assert forall|q: Program| out@.push(p).contains(q) <==> (self.holds(q) && q.slot()
                        < i + 1) by {
                        if q == p {
                            assert(out@.push(p)[out@.len() as int] == p);
                        } else if out@.push(p).contains(q) {
                            let k = choose|k: int| 0 <= k < out@.push(p).len() && out@.push(p)[k] == q;
                            assert(out@[k] == q);
                        } else if self.holds(q) && q.slot() < i + 1 {
                            assert(q.slot() != i as int) by {
                                if q.slot() == i as int {
                                    assert(q == p);
                                }
                            }
                            assert(out@.contains(q));
                            let k = choose|k: int| 0 <= k < out@.len() && out@[k] == q;
                            assert(out@.push(p)[k] == q);
                        }
                    }
                }
                out.push(p);
            } else {
                proof {
                    assert forall|q: Program| out@.contains(q) <==> (self.holds(q) && q.slot() < i
                        + 1) by {
                        if q.slot() == i as int {
                            assert(q == p);
                        }
                    }
                }
            }
            i += 1;
        }
        out
    }
}

/// The result of resolving a hack.
#[derive(Clone, Copy, PartialEq, Eq, Debug, Structural)]
pub enum HackResult {
    /// The attacker carries no hack loadout — nothing to resolve.
    NoHack,
    /// Attacker has zero Link — it can't project onto the net (no roll).
    Offline,
    /// Target has zero Link — no surface to reach; immune (no roll).
    NoSurface,
    /// The contest was rolled. `stacks` is what landed (`0` ⇒ the hack whiffed).
    Rolled { outcome: RollOutcome, stacks: u32 },
}

impl HackResult {
    /// Did the hack succeed — breach the target? A success always at least disables a
    /// tripped implant; `stacks` may still be 0.
    pub fn landed(&self) -> (b: bool)
        ensures
            b == match *self {
                HackResult::Rolled { outcome, .. } => outcome.success,
                _ => false,
            },
    {
        match self {
            HackResult::Rolled { outcome, .. } => outcome.success,
            _ => false,
        }
    }
}

} // verus!
