//! Character-architecture vocabulary: decorator handles and priorities, the numeric stats,
//! modifier kinds, tags, lifecycles, event triggers, resist axes and the condition ladder
//! that gates an implant's benefit, plus contagion descriptors.
use vstd::prelude::*;
use crate::armor::ArmorClass;
use crate::profile::{MovementProfile, NetDoctrine, TargetingProfile};
use crate::rng::RandomSource;
use crate::roll::{after_roll, can_roll, dice_2d10, outcome_of, resolve_versus};

verus! {

/// A decorator's stable handle. A modifier's `source` links back to the decorator that
/// spawned it, so removing/expiring the decorator drops exactly its modifiers.
#[derive(Clone, Copy, PartialEq, Eq, Hash, Debug, Structural)]
pub struct GenId(pub u32);

/// Where a decorator sits in the priority-ordered gen. The gen is kept sorted ascending by
/// `(priority, install-order)`, so the highest-priority override wins (corruption outranks
/// gear) while numeric factors fold order-independently.
#[derive(Clone, Copy, PartialEq, Eq, PartialOrd, Ord, Hash, Debug, Structural)]
pub struct Priority(pub i32);

impl Priority {
    /// Worn / installed gear and implants — the baseline.
    pub fn gear() -> (p: Priority)
        ensures
            p == Priority(0),
    {
        Priority(0)
    }

    /// Transient buffs / debuffs — over gear.
    pub fn buff() -> (p: Priority)
        ensures
            p == Priority(10),
    {
        Priority(10)
    }

    /// Hostile overrides (spoof / Lockware) — outrank everything, so the enemy's hack of
    /// your script wins however your loadout happens to be ordered.
    pub fn corruption() -> (p: Priority)
        ensures
            p == Priority(100),
    {
        Priority(100)
    }
}

impl Default for Priority {
    fn default() -> (p: Priority)
        ensures
            p == Priority(0),
    {
        Priority(0)
    }
}

/// The numeric stats a factor can compose. Behavior (targeting / movement) is not numeric —
/// it composes via [`Override`].
#[derive(Clone, Copy, PartialEq, Eq, Debug, Structural)]
pub enum Stat {
    Link,
    Ice,
    Initiative,
    Plating,
    Barrier,
    Damage,
    /// Physical power and toughness — governs Melee/Heavy and is the unit's HP pool.
    Body,
    /// Agility and coordination — governs Gunnery/Stealth/Evade.
    Dexterity,
    /// Wits and training — governs Hacking/Medical/Tech.
    Intellect,
    /// Will and composure — the composure resist.
    Nerve,
    /// The digital target number — what hacks and digital contagions roll against.
    Firewall,
    /// The biological target number — what bio contagions roll against.
    Immunity,
    /// Extra Integrity capacity on top of what Body provides.
    MaxIntegrity,
}

/// How a factor combines with its peers — the bucket model: `Add` and `Increased` sum,
/// `More` multiplies.
#[derive(Clone, Copy, PartialEq, Eq, Debug, Structural)]
pub enum FactorKind {
    Add,
    Increased,
    More,
}

/// A non-numeric modifier on **behavior** — the highest-priority override wins.
#[derive(Clone, Copy, PartialEq, Eq, Debug, Structural)]
pub enum Override {
    Targeting(TargetingProfile),
    Movement(MovementProfile),
    /// The unit's netrunning doctrine — a Spoof can corrupt it.
    Doctrine(NetDoctrine),
    /// The unit's armor class for the mitigation matrix.
    Armor(ArmorClass),
}

/// A modifier's category, for matching on removal (a cleanse strips `Virus`-tagged).
#[derive(Clone, Copy, PartialEq, Eq, Debug, Structural)]
pub enum Tag {
    Gear,
    Weapon,
    Implant,
    Buff,
    Debuff,
    Virus,
    Worm,
    Spoof,
}

/// A decorator's lifecycle. On expiry the decorator is dropped with its modifiers.
#[derive(Clone, Copy, PartialEq, Eq, Debug, Structural)]
pub enum Expiration {
    /// Gear / augments — never expires on its own.
    Permanent,
    /// Lasts `n` more ticks (a buff / debuff).
    Duration(u32),
}

/// A selector for **removing** other components' modifiers — the counterplay substrate.
#[derive(Clone, Copy, PartialEq, Eq, Debug, Structural)]
pub enum Remove {
    /// Strip every modifier with this tag.
    Tag(Tag),
    /// Strip every modifier spawned by this decorator.
    Source(GenId),
}

/// A battle event a decorator's active face reacts to.
#[derive(Clone, Copy, PartialEq, Eq, Debug, Structural)]
pub enum Event {
    /// Start of the owner's activation — DoTs / contagion ticks fire here.
    TickStart,
    TickEnd,
    /// The owner was hit.
    OnHit,
    /// The owner died.
    OnDeath,
}

/// Which of the owner's resist stats a stochastic gate rolls against.
#[derive(Clone, Copy, PartialEq, Eq, Debug, Default, Structural)]
pub enum Resist {
    /// No resist.
    #[default]
    Unresisted,
    /// Digital — Worm / hack gates (the ICE wall).
    Ice,
    /// Biological — Virus / Poison / toxin gates roll against Body.
    Body,
    /// Behavioral — spoof / intimidation roll against Nerve.
    Nerve,
}

/// A stochastic gate: each tick the decorator rolls `2d10 ≤ power + stacks − resist` and
/// fires its hooks only on success.
#[derive(Clone, Copy, Debug, PartialEq, Eq, Structural)]
pub struct Gate {
    pub power: i32,
    pub resist: Resist,
}

impl Gate {
    /// The owner's resist target number this stochastic roll is made against: its Ice, Body or Nerve, or
    /// nothing when unresisted.
    pub open spec fn resist_tn(self, ice: i32, body: i32, nerve: i32) -> i32 {
        match self.resist {
            Resist::Unresisted => 0i32,
            Resist::Ice => ice,
            Resist::Body => body,
            Resist::Nerve => nerve,
        }
    }

    /// The roll-under target of a gate on a decorator carrying `stacks`:
    /// `power + stacks − resist`.
    pub open spec fn target(self, stacks: u32, ice: i32, body: i32, nerve: i32) -> int {
        self.power + stacks - self.resist_tn(ice, body, nerve)
    }

    /// Make this stochastic roll for a decorator carrying `stacks`, against the owner's resist stats:
    /// its hooks fire this tick only when `2d10 ≤ power + stacks − resist`.
    pub fn passes<R: RandomSource>(self, stacks: u32, ice: i32, body: i32, nerve: i32, rng: &mut R) -> (b: bool)
        requires
            can_roll(*old(rng)),
            stacks <= i32::MAX,
            self.power + stacks <= i32::MAX,
            i32::MIN + 20 <= self.target(stacks, ice, body, nerve) <= i32::MAX,
        ensures
            b == outcome_of(dice_2d10(*old(rng)), self.target(stacks, ice, body, nerve)).success,
            *final(rng) == after_roll(*old(rng)),
    {
        let tn = match self.resist {
            Resist::Unresisted => 0,
            Resist::Ice => ice,
            Resist::Body => body,
            Resist::Nerve => nerve,
        };
        let skill = self.power + stacks as i32;
        resolve_versus(rng, skill, tn).success
    }
}

/// A decorator as an event dispatch reads it: whether it is active, its stochastic roll if
/// it has one, and its stack count.
#[derive(Clone, Copy, Debug, PartialEq, Eq, Structural)]
pub struct Armed {
    pub active: bool,
    pub gate: Option<Gate>,
    pub stacks: u32,
}

/// Does decorator `a` fire this dispatch, and what is the source after it? An inactive one
/// never fires and rolls nothing; an ungated active one always fires; a gated one fires on
/// its roll (see [`Gate::passes`]).
pub open spec fn armed_fires<R: RandomSource>(rng: R, a: Armed, ice: i32, body: i32, nerve: i32) -> (bool, R) {
    if !a.active {
        (false, rng)
    } else {
        match a.gate {
            None => (true, rng),
            Some(g) => (outcome_of(dice_2d10(rng), g.target(a.stacks, ice, body, nerve)).success, after_roll(rng)),
        }
    }
}

/// Can decorator `a`'s roll, if it makes one, be made from `rng`?
pub open spec fn armed_rollable<R: RandomSource>(rng: R, a: Armed, ice: i32, body: i32, nerve: i32) -> bool {
    a.active && a.gate is Some ==> {
        let g = a.gate->0;
        &&& can_roll(rng)
        &&& a.stacks <= i32::MAX
        &&& g.power + a.stacks <= i32::MAX
        &&& i32::MIN + 20 <= g.target(a.stacks, ice, body, nerve) <= i32::MAX
    }
}

/// The first `k` decorators of a dispatch, in generator order: which fire, and the source
/// after their rolls.
pub open spec fn dispatch_fires<R: RandomSource>(rng: R, decs: Seq<Armed>, k: nat, ice: i32, body: i32, nerve: i32) -> (Seq<bool>, R)
    decreases k,
{
    if k == 0 {
        (Seq::empty(), rng)
    } else {
        let (before, r) = dispatch_fires(rng, decs, (k - 1) as nat, ice, body, nerve);
        let (b, r2) = armed_fires(r, decs[k - 1], ice, body, nerve);
        (before.push(b), r2)
    }
}

/// Can every roll of the first `k` decorators of a dispatch be made?
pub open spec fn dispatch_rollable<R: RandomSource>(rng: R, decs: Seq<Armed>, k: nat, ice: i32, body: i32, nerve: i32) -> bool
    decreases k,
{
    if k == 0 {
        true
    } else {
        dispatch_rollable(rng, decs, (k - 1) as nat, ice, body, nerve) && armed_rollable(
            dispatch_fires(rng, decs, (k - 1) as nat, ice, body, nerve).1,
            decs[k - 1],
            ice,
            body,
            nerve,
        )
    }
}

/// Which decorators fire for a dispatch, in generator order, rolling each active gated one
/// against the owner's resist stats (`ice`, `body`, `nerve`) in turn.
pub fn dispatch_gates<R: RandomSource>(rng: &mut R, decs: &Vec<Armed>, ice: i32, body: i32, nerve: i32) -> (fires: Vec<bool>)
    requires
        dispatch_rollable(*old(rng), decs@, decs@.len(), ice, body, nerve),
    ensures
        fires@ == dispatch_fires(*old(rng), decs@, decs@.len(), ice, body, nerve).0,
        *final(rng) == dispatch_fires(*old(rng), decs@, decs@.len(), ice, body, nerve).1,
{
    let ghost start = *rng;
    let mut fires: Vec<bool> = Vec::new();
    let mut k: usize = 0;
    while k < decs.len()
        invariant
            k <= decs.len(),
            dispatch_rollable(start, decs@, decs@.len(), ice, body, nerve),
            fires@ == dispatch_fires(start, decs@, k as nat, ice, body, nerve).0,
            *rng == dispatch_fires(start, decs@, k as nat, ice, body, nerve).1,
        decreases decs.len() - k,
    {
        proof {
            lemma_rollable_prefix(start, decs@, (k + 1) as nat, decs@.len(), ice, body, nerve);
        }
        let a = decs[k];
        let b = if !a.active {
            false
        } else {
            match a.gate {
                None => true,
                Some(g) => g.passes(a.stacks, ice, body, nerve, rng),
            }
        };
        fires.push(b);
        k = k + 1;
    }
    fires
}

/// A dispatch whose every roll can be made can make the rolls of any prefix.
proof fn lemma_rollable_prefix<R: RandomSource>(rng: R, decs: Seq<Armed>, k: nat, n: nat, ice: i32, body: i32, nerve: i32)
    requires
        k <= n,
        dispatch_rollable(rng, decs, n, ice, body, nerve),
    ensures
        dispatch_rollable(rng, decs, k, ice, body, nerve),
    decreases n - k,
{
    if k < n {
        lemma_rollable_prefix(rng, decs, (k + 1) as nat, n, ice, body, nerve);
    }
}

/// The hooks a dispatch of `event` fires, by index into `hooks` (each the index of its
/// decorator and the event it answers, in generator then hook order): those of firing
/// decorators that answer `event`, in order.
pub fn fired_hooks(fires: &Vec<bool>, hooks: &Vec<(usize, Event)>, event: Event) -> (v: Vec<usize>)
    ensures
        v@ == Seq::new(hooks@.len(), |h: int| h as usize).filter(
            |h: usize| hooks@[h as int].0 < fires@.len() && fires@[hooks@[h as int].0 as int] && hooks@[h as int].1 == event,
        ),
{
    let ghost pred = |h: usize| hooks@[h as int].0 < fires@.len() && fires@[hooks@[h as int].0 as int] && hooks@[h as int].1 == event;
    let mut v: Vec<usize> = Vec::new();
    let mut h: usize = 0;
    while h < hooks.len()
        invariant
            h <= hooks.len(),
            pred == (|h: usize| hooks@[h as int].0 < fires@.len() && fires@[hooks@[h as int].0 as int] && hooks@[h as int].1 == event),
            v@ == Seq::new(h as nat, |x: int| x as usize).filter(pred),
        decreases hooks.len() - h,
    {
        let (d, e) = hooks[h];
        let hit = d < fires.len() && fires[d] && e == event;
        proof {
            let s = Seq::new((h + 1) as nat, |x: int| x as usize);
            assert(s.drop_last() =~= Seq::new(h as nat, |x: int| x as usize));
            assert(s.last() == h);
            reveal(Seq::filter);
        }
        if hit {
            v.push(h);
        }
        h = h + 1;
    }
    proof {
        assert(Seq::new(hooks@.len(), |x: int| x as usize) =~= Seq::new(h as nat, |x: int| x as usize));
    }
    v
}

/// How a decorator wears off.
#[derive(Clone, Copy, PartialEq, Eq, Debug, Structural)]
pub enum Wear {
    /// Never (gear / implants).
    Never,
    /// Lose one tick of duration per decay step.
    ByDuration,
    /// Lose one stack per decay step; drop at zero.
    ByStacks,
}

/// A decorator's condition ladder: `Online → Degraded → Offline → Destroyed`. It gates the
/// decorator's benefit; Destroyed is terminal.
#[derive(Clone, Copy, PartialEq, Eq, Debug, Default, Structural)]
pub enum Condition {
    #[default]
    Online,
    Degraded,
    Offline,
    Destroyed,
}

impl Condition {
    /// Rank on the wear ladder: Online 0, Degraded 1, Offline 2, Destroyed 3.
    pub open spec fn rank(self) -> int {
        match self {
            Condition::Online => 0,
            Condition::Degraded => 1,
            Condition::Offline => 2,
            Condition::Destroyed => 3,
        }
    }

    /// Does it deliver (some of) its benefit now? (Online or Degraded.)
    pub fn is_active(self) -> (active: bool)
        ensures
            active <==> (self == Condition::Online || self == Condition::Degraded),
    {
        match self {
            Condition::Online | Condition::Degraded => true,
            _ => false,
        }
    }

    /// One step down the wear ladder (Destroyed is terminal).
    pub fn degraded(self) -> (next: Condition)
        ensures
            next == match self {
                Condition::Online => Condition::Degraded,
                Condition::Degraded => Condition::Offline,
                _ => Condition::Destroyed,
            },
    {
        match self {
            Condition::Online => Condition::Degraded,
            Condition::Degraded => Condition::Offline,
            Condition::Offline | Condition::Destroyed => Condition::Destroyed,
        }
    }
}

/// **Wear only goes down the ladder**: one step of wear moves exactly one rung down, except
/// at the terminal rung, which it keeps; so no number of wear steps brings a condition back.
pub proof fn lemma_wear_is_monotone(c: Condition)
    ensures
        c.rank() < 3 ==> match c {
            Condition::Online => Condition::Degraded,
            Condition::Degraded => Condition::Offline,
            _ => Condition::Destroyed,
        }.rank() == c.rank() + 1,
        c == Condition::Destroyed ==> match c {
            Condition::Online => Condition::Degraded,
            Condition::Degraded => Condition::Offline,
            _ => Condition::Destroyed,
        } == Condition::Destroyed,
{
}

/// A decorator's clock: how many stacks it carries, when it expires and how it wears.
#[derive(Clone, Copy, PartialEq, Eq, Debug, Structural)]
pub struct Lifecycle {
    pub stacks: u32,
    pub expiration: Expiration,
    pub decay: Wear,
}

impl Lifecycle {
    /// Worn off: its duration ran out, or a stack-decaying status lost its last stack.
    pub open spec fn worn_out(self) -> bool {
        self.expiration == Expiration::Duration(0) || (self.decay == Wear::ByStacks
            && self.stacks == 0)
    }

    /// One decay step: a duration loses a tick, a stack-decaying status loses a stack (both
    /// floored at zero); gear never wears.
    pub open spec fn worn(self) -> Lifecycle {
        match self.decay {
            Wear::Never => self,
            Wear::ByDuration => match self.expiration {
                Expiration::Duration(n) => Lifecycle {
                    expiration: Expiration::Duration(if n == 0 {
                        0u32
                    } else {
                        (n - 1) as u32
                    }),
                    ..self
                },
                Expiration::Permanent => self,
            },
            Wear::ByStacks => Lifecycle {
                stacks: if self.stacks == 0 {
                    0u32
                } else {
                    (self.stacks - 1) as u32
                },
                ..self
            },
        }
    }

    /// `k` decay steps.
    pub open spec fn worn_times(self, k: nat) -> Lifecycle
        decreases k,
    {
        if k == 0 {
            self
        } else {
            self.worn().worn_times((k - 1) as nat)
        }
    }

    /// A fresh application merged into a live copy: with a stack cap the stacks add up to
    /// the cap (without one they stay), and two timed copies keep the longer duration.
    pub open spec fn merged(self, incoming: Lifecycle, stack_cap: Option<u32>) -> Lifecycle {
        Lifecycle {
            stacks: match stack_cap {
                Some(max) => if self.stacks + incoming.stacks <= max {
                    (self.stacks + incoming.stacks) as u32
                } else {
                    max
                },
                None => self.stacks,
            },
            expiration: match (self.expiration, incoming.expiration) {
                (Expiration::Duration(a), Expiration::Duration(b)) => Expiration::Duration(
                    if a >= b {
                        a
                    } else {
                        b
                    },
                ),
                _ => self.expiration,
            },
            decay: self.decay,
        }
    }

    /// Has it worn off?
    pub fn is_expired(&self) -> (b: bool)
        ensures
            b == self.worn_out(),
    {
        match self.expiration {
            Expiration::Duration(0) => true,
            _ => self.decay == Wear::ByStacks && self.stacks == 0,
        }
    }

    /// One decay step.
    pub fn wear(self) -> (l: Lifecycle)
        ensures
            l == self.worn(),
    {
        match self.decay {
            Wear::Never => self,
            Wear::ByDuration => match self.expiration {
                Expiration::Duration(n) => Lifecycle {
                    expiration: Expiration::Duration(n.saturating_sub(1)),
                    ..self
                },
                Expiration::Permanent => self,
            },
            Wear::ByStacks => Lifecycle { stacks: self.stacks.saturating_sub(1), ..self },
        }
    }

    /// Merge a fresh application of the same status into this live copy.
    pub fn merge(self, incoming: Lifecycle, stack_cap: Option<u32>) -> (l: Lifecycle)
        ensures
            l == self.merged(incoming, stack_cap),
    {
        let stacks = match stack_cap {
            Some(max) => if incoming.stacks >= max || self.stacks >= max - incoming.stacks {
                max
            } else {
                self.stacks + incoming.stacks
            },
            None => self.stacks,
        };
        let expiration = match (self.expiration, incoming.expiration) {
            (Expiration::Duration(a), Expiration::Duration(b)) => Expiration::Duration(
                if a >= b {
                    a
                } else {
                    b
                },
            ),
            _ => self.expiration,
        };
        Lifecycle { stacks, expiration, decay: self.decay }
    }
}

/// **A timed status lasts exactly its duration**: one that wears by duration with `n` ticks
/// left is still live after fewer than `n` decay steps and worn off after exactly `n`.
pub proof fn lemma_duration_runs_out(l: Lifecycle, n: u32, k: nat)
    requires
        l.decay == Wear::ByDuration,
        l.expiration == Expiration::Duration(n),
        k <= n,
    ensures
        l.worn_times(k) == (Lifecycle { expiration: Expiration::Duration((n - k) as u32), ..l }),
        l.worn_times(k).worn_out() <==> k == n,
    decreases k,
{
    if k > 0 {
        let next = l.worn();
        assert(next == Lifecycle { expiration: Expiration::Duration((n - 1) as u32), ..l });
        lemma_duration_runs_out(next, (n - 1) as u32, (k - 1) as nat);
    }
}

/// **Gear never wears off**: a permanent, never-decaying decorator is unchanged by any
/// number of decay steps and never expires.
pub proof fn lemma_gear_never_expires(l: Lifecycle, k: nat)
    requires
        l.decay == Wear::Never,
        l.expiration == Expiration::Permanent,
    ensures
        l.worn_times(k) == l,
        !l.worn_times(k).worn_out(),
    decreases k,
{
    if k > 0 {
        lemma_gear_never_expires(l.worn(), (k - 1) as nat);
    }
}

/// **Re-applying a status never shortens it and never passes its cap**: the merged copy
/// keeps at least its own duration and the incoming one, and a capped stack count stays
/// at or under the cap once it was.
pub proof fn lemma_merge_refreshes(live: Lifecycle, incoming: Lifecycle, stack_cap: Option<u32>)
    ensures
        live.expiration is Duration && incoming.expiration is Duration ==> {
            let merged = live.merged(incoming, stack_cap).expiration;
            &&& merged is Duration
            &&& merged->0 >= live.expiration->0
            &&& merged->0 >= incoming.expiration->0
        },
        stack_cap matches Some(max) ==> live.merged(incoming, stack_cap).stacks <= max,
        stack_cap is None ==> live.merged(incoming, stack_cap).stacks == live.stacks,
        live.merged(incoming, stack_cap).decay == live.decay,
{
}

/// Where a decorator sits in the generator order: by priority, then by install order.
pub open spec fn gen_precedes(a: (Priority, GenId), b: (Priority, GenId)) -> bool {
    a.0.0 < b.0.0 || (a.0.0 == b.0.0 && a.1.0 < b.1.0)
}

/// The generators are sorted strictly ascending by `(priority, install order)`.
pub open spec fn in_gen_order(keys: Seq<(Priority, GenId)>) -> bool {
    forall|i: int, j: int| 0 <= i < j < keys.len() ==> gen_precedes(#[trigger] keys[i], #[trigger] keys[j])
}

/// Where a decorator keyed `key` is inserted: after every generator that precedes it, so
/// the order stays sorted and equal priorities keep their install order.
pub fn gen_slot(keys: &Vec<(Priority, GenId)>, key: (Priority, GenId)) -> (idx: usize)
    ensures
        idx <= keys.len(),
        forall|i: int| 0 <= i < idx ==> gen_precedes(#[trigger] keys@[i], key),
        idx < keys.len() ==> !gen_precedes(keys@[idx as int], key),
        in_gen_order(keys@) ==> forall|i: int|
            idx <= i < keys.len() ==> !gen_precedes(#[trigger] keys@[i], key),
{
    let mut idx: usize = 0;
    while idx < keys.len()
        invariant
            idx <= keys.len(),
            forall|i: int| 0 <= i < idx ==> gen_precedes(#[trigger] keys@[i], key),
        ensures
            idx <= keys.len(),
            forall|i: int| 0 <= i < idx ==> gen_precedes(#[trigger] keys@[i], key),
            idx == keys.len() || !gen_precedes(keys@[idx as int], key),
        decreases keys.len() - idx,
    {
        let k = keys[idx];
        if !(k.0.0 < key.0.0 || (k.0.0 == key.0.0 && k.1.0 < key.1.0)) {
            break;
        }
        idx = idx + 1;
    }
    proof {
        if in_gen_order(keys@) {
            assert forall|i: int| idx <= i < keys.len() implies !gen_precedes(
                #[trigger] keys@[i],
                key,
            ) by {
                if i > idx {
                    assert(gen_precedes(keys@[idx as int], keys@[i]));
                }
            }
        }
    }
    idx
}

/// **Installing keeps the generators sorted**: a decorator with a fresh install id, put at
/// its [`gen_slot`], leaves the order sorted by `(priority, install order)`.
pub proof fn lemma_install_keeps_gen_order(keys: Seq<(Priority, GenId)>, key: (Priority, GenId), idx: int)
    requires
        in_gen_order(keys),
        forall|i: int| 0 <= i < keys.len() ==> (#[trigger] keys[i]).1 != key.1,
        0 <= idx <= keys.len(),
        forall|i: int| 0 <= i < idx ==> gen_precedes(#[trigger] keys[i], key),
        forall|i: int| idx <= i < keys.len() ==> !gen_precedes(#[trigger] keys[i], key),
    ensures
        in_gen_order(keys.insert(idx, key)),
{
    let out = keys.insert(idx, key);
    assert forall|i: int, j: int| 0 <= i < j < out.len() implies gen_precedes(
        #[trigger] out[i],
        #[trigger] out[j],
    ) by {
        if j < idx {
            assert(out[i] == keys[i] && out[j] == keys[j]);
        } else if j == idx {
            assert(out[i] == keys[i]);
        } else if i > idx {
            assert(out[i] == keys[i - 1] && out[j] == keys[j - 1]);
        } else if i == idx {
            assert(out[j] == keys[j - 1]);
            assert(!gen_precedes(keys[j - 1], key));
            assert(keys[j - 1].1 != key.1);
        } else {
            assert(out[i] == keys[i] && out[j] == keys[j - 1]);
        }
    }
}

/// **Priority beats install order, and among equals the later install wins**: in a sorted
/// generator list a higher-priority decorator, or an equal-priority one installed later,
/// always sits after the other — so the last matching override is the one that applies.
pub proof fn lemma_later_in_gen_order_wins(keys: Seq<(Priority, GenId)>, i: int, j: int)
    requires
        in_gen_order(keys),
        0 <= i < keys.len(),
        0 <= j < keys.len(),
        gen_precedes(keys[i], keys[j]),
    ensures
        i < j,
{
    if j < i {
        assert(gen_precedes(keys[j], keys[i]));
    }
}

/// Does ward `ward`'s removal `r` strip a modifier spawned by `source` with `tag`? It
/// matches by tag or by spawner, and never strips the ward's own modifiers.
pub open spec fn strips(ward: GenId, r: Remove, source: GenId, tag: Tag) -> bool {
    source != ward && match r {
        Remove::Tag(t) => tag == t,
        Remove::Source(g) => source == g,
    }
}

/// A modifier (its spawner and tag) survives the standing wards when none of them strips it.
pub open spec fn survives(m: (GenId, Tag), wards: Seq<(GenId, Remove)>) -> bool {
    forall|w: int| 0 <= w < wards.len() ==> !strips(#[trigger] wards[w].0, wards[w].1, m.0, m.1)
}

/// Which composed modifiers (each by its spawner and tag) survive the standing wards (each
/// an active decorator's id and one of its removals).
pub fn surviving(mods: &Vec<(GenId, Tag)>, wards: &Vec<(GenId, Remove)>) -> (keep: Vec<bool>)
    ensures
        keep.len() == mods.len(),
        forall|i: int| 0 <= i < mods.len() ==> (#[trigger] keep@[i] <==> survives(mods@[i], wards@)),
{
    let mut keep: Vec<bool> = Vec::new();
    let mut i: usize = 0;
    while i < mods.len()
        invariant
            i <= mods.len(),
            keep.len() == i,
            forall|k: int| 0 <= k < i ==> (#[trigger] keep@[k] <==> survives(mods@[k], wards@)),
        decreases mods.len() - i,
    {
        let (source, tag) = mods[i];
        let mut alive = true;
        let mut w: usize = 0;
        while w < wards.len()
            invariant
                w <= wards.len(),
                i < mods.len(),
                (source, tag) == mods@[i as int],
                alive <==> forall|v: int| 0 <= v < w ==> !strips(#[trigger] wards@[v].0, wards@[v].1, source, tag),
            decreases wards.len() - w,
        {
            let (ward, r) = wards[w];
            let hit = source != ward && match r {
                Remove::Tag(t) => tag == t,
                Remove::Source(g) => source == g,
            };
            if hit {
                alive = false;
            }
            w = w + 1;
        }
        keep.push(alive);
        i = i + 1;
    }
    keep
}

/// **Standing wards cleanse regardless of order, and never their own**: whether a modifier
/// survives depends only on which wards stand, not on the order they were installed in,
/// and a ward's removal never strips the ward's own modifiers.
pub proof fn lemma_wards_are_order_independent(
    m: (GenId, Tag),
    a: Seq<(GenId, Remove)>,
    b: Seq<(GenId, Remove)>,
    r: Remove,
)
    ensures
        survives(m, a + b) == survives(m, b + a),
        survives(m, a + b) == (survives(m, a) && survives(m, b)),
        survives(m, seq![(m.0, r)]),
{
    assert(survives(m, a + b) == (survives(m, a) && survives(m, b))) by {
        if survives(m, a) && survives(m, b) {
            assert forall|w: int| 0 <= w < (a + b).len() implies !strips(
                #[trigger] (a + b)[w].0,
                (a + b)[w].1,
                m.0,
                m.1,
            ) by {
                if w < a.len() {
                    assert((a + b)[w] == a[w]);
                } else {
                    assert((a + b)[w] == b[w - a.len()]);
                }
            }
        }
        if survives(m, a + b) {
            assert forall|w: int| 0 <= w < a.len() implies !strips(#[trigger] a[w].0, a[w].1, m.0, m.1) by {
                assert((a + b)[w] == a[w]);
            }
            assert forall|w: int| 0 <= w < b.len() implies !strips(#[trigger] b[w].0, b[w].1, m.0, m.1) by {
                assert((a + b)[w + a.len()] == b[w]);
            }
        }
    }
    assert(survives(m, b + a) == (survives(m, b) && survives(m, a))) by {
        if survives(m, b) && survives(m, a) {
            assert forall|w: int| 0 <= w < (b + a).len() implies !strips(
                #[trigger] (b + a)[w].0,
                (b + a)[w].1,
                m.0,
                m.1,
            ) by {
                if w < b.len() {
                    assert((b + a)[w] == b[w]);
                } else {
                    assert((b + a)[w] == a[w - b.len()]);
                }
            }
        }
        if survives(m, b + a) {
            assert forall|w: int| 0 <= w < b.len() implies !strips(#[trigger] b[w].0, b[w].1, m.0, m.1) by {
                assert((b + a)[w] == b[w]);
            }
            assert forall|w: int| 0 <= w < a.len() implies !strips(#[trigger] a[w].0, a[w].1, m.0, m.1) by {
                assert((b + a)[w + b.len()] == a[w]);
            }
        }
    }
    assert(seq![(m.0, r)][0] == (m.0, r));
}

/// The last marked position — which generator's override applies, the list being in
/// generator order.
pub fn last_marked(marks: &Vec<bool>) -> (found: Option<usize>)
    ensures
        found matches Some(i) ==> i < marks.len() && marks@[i as int] && forall|j: int|
            i < j < marks.len() ==> !#[trigger] marks@[j],
        found is None ==> forall|j: int| 0 <= j < marks.len() ==> !#[trigger] marks@[j],
{
    let mut k: usize = marks.len();
    while k > 0
        invariant
            k <= marks.len(),
            forall|j: int| k <= j < marks.len() ==> !#[trigger] marks@[j],
        decreases k,
    {
        if marks[k - 1] {
            return Some(k - 1);
        }
        k = k - 1;
    }
    None
}

/// How a contagion reaches a victim each contagion phase.
#[derive(Clone, Copy, Debug, PartialEq, Eq, Structural)]
pub enum Vector {
    /// Biological spread — to any unit within `n` hexes.
    Proximity(i32),
    /// Digital spread — rides the net to any unit with a live surface (`Link > 0`).
    Net,
}

/// A contagion riding a decorator: each phase it tries to jump to fresh victims along its
/// vector, a contested roll of `virulence` vs the victim's `resist` stat.
#[derive(Clone, Copy, Debug, PartialEq, Eq, Structural)]
pub struct Contagion {
    /// The jump roll's attack rating (`2d10 ≤ virulence − resist`).
    pub virulence: i32,
    /// The victim stat that defends each jump.
    pub resist: Stat,
    /// How it reaches candidates.
    pub vector: Vector,
}

} // verus!
