//! Battlefield decisions: who a unit fights, where it steps, what an attack's footprint
//! strikes, and how the standard fight stands.
//!
//! The battle loop owns the full units (pools, statuses, loadouts); every decision here
//! reads a [`Combatant`] — the plain facts of a unit the rules look at — so the choices
//! themselves are exact functions of the field. Ties always break deterministically: by
//! unit id for target choice and by position for steps.
use vstd::prelude::*;
use crate::board::Board;
use crate::chargen::{Contagion, Stat, Vector};
use crate::combat::{EquipmentTags, Footprint, Outcome, Team};
use crate::hex::{
    dir_dq, dir_dr, hex_code, lemma_dist_is_max, lemma_distance_is_a_metric, lemma_distinct_hexes_in_box,
    lemma_in_play_fits, Hex,
};
use crate::terrain::{lemma_zone_fits, Ground, Terrain, FRINGE};
use crate::hack::{hack_rating, HackResult};
use crate::single::{rounded_share, single_share};
use crate::profile::{MovementProfile, TargetingProfile};
use crate::rng::RandomSource;
use crate::roll::{after_roll, can_roll, dice_2d10, outcome_of, resolve_check, resolve_opposed, RollOutcome};

verus! {

/// What the battle's decisions read of a unit.
#[derive(Clone, Debug)]
pub struct Combatant {
    /// Stable id — the deterministic tiebreak.
    pub id: u32,
    pub team: Team,
    pub alive: bool,
    pub pos: Hex,
    /// Movement budget per activation.
    pub speed: i32,
    pub movement: MovementProfile,
    pub targeting: TargetingProfile,
    /// The loadout's range bands, `(min, max)` in hexes, one per weapon.
    pub bands: Vec<(i32, i32)>,
    /// Order-preserving stand-in for the unit's current Integrity.
    pub integrity_key: i64,
    /// Order-preserving stand-in for the damage of its hardest-hitting weapon.
    pub threat_key: i64,
    /// Order-preserving stand-in for its Barrier + Plating.
    pub armor_key: i64,
    /// Net presence (bandwidth); `0` ⇒ off the net.
    pub link: i32,
    /// Does it carry a hack?
    pub has_hack: bool,
    /// Effective Hacking skill.
    pub hacking: i32,
    /// Effective Firewall.
    pub firewall: i32,
    /// Hacking throughput from a meshed implant network.
    pub mesh_synergy: i32,
    /// Effective Immunity.
    pub immunity: i32,
    /// A biological body (flesh or bioware), able to host a bio contagion?
    pub biological: bool,
    /// Order-preserving stand-in for the effective Initiative, on the same scale as
    /// `link_key`: they rank physical and digital activations on one track.
    pub initiative_key: i64,
    /// Order-preserving stand-in for the Link, on the scale of `initiative_key`.
    pub link_key: i64,
}

/// Lexicographic `a < b` on integer pairs (the order of Rust's pair keys).
pub open spec fn lex2_lt(a: (int, int), b: (int, int)) -> bool {
    a.0 < b.0 || (a.0 == b.0 && a.1 < b.1)
}

/// Every unit stands on a battlefield hex.
pub open spec fn field_ok(units: Seq<Combatant>) -> bool {
    forall|k: int| 0 <= k < units.len() ==> (#[trigger] units[k]).pos.in_play()
}

/// `j` is the **first** index in `0..n` passing `ok` whose `key` is least — what
/// `Iterator::min_by_key` picks.
pub open spec fn first_least(
    n: int,
    ok: spec_fn(int) -> bool,
    key: spec_fn(int) -> (int, int),
    j: int,
) -> bool {
    &&& 0 <= j < n
    &&& ok(j)
    &&& forall|k: int| 0 <= k < n && #[trigger] ok(k) ==> !lex2_lt(key(k), key(j))
    &&& forall|k: int| 0 <= k < j && #[trigger] ok(k) ==> lex2_lt(key(j), key(k))
}

/// `j` is the **last** index in `0..n` passing `ok` whose `key` is greatest — what
/// `Iterator::max_by_key` picks.
pub open spec fn last_greatest(
    n: int,
    ok: spec_fn(int) -> bool,
    key: spec_fn(int) -> (int, int),
    j: int,
) -> bool {
    &&& 0 <= j < n
    &&& ok(j)
    &&& forall|k: int| 0 <= k < n && #[trigger] ok(k) ==> !lex2_lt(key(j), key(k))
    &&& forall|k: int| j < k < n && #[trigger] ok(k) ==> lex2_lt(key(k), key(j))
}

/// No index in `0..n` passes `ok`.
pub open spec fn none_pass(n: int, ok: spec_fn(int) -> bool) -> bool {
    forall|k: int| 0 <= k < n ==> !#[trigger] ok(k)
}

/// Is a unit of `team` alive?
pub open spec fn side_alive(units: Seq<Combatant>, team: Team) -> bool {
    exists|k: int| 0 <= k < units.len() && #[trigger] units[k].alive && units[k].team == team
}

/// The standard fight result: a side wins once the other is wiped; both wiped is a draw.
pub open spec fn standing(units: Seq<Combatant>) -> Outcome {
    let a = side_alive(units, Team::A);
    let b = side_alive(units, Team::B);
    if a && !b {
        Outcome::Winner(Team::A)
    } else if !a && b {
        Outcome::Winner(Team::B)
    } else if !a && !b {
        Outcome::Draw
    } else {
        Outcome::Ongoing
    }
}

/// Is `j` a living enemy of unit `i`?
pub open spec fn rival(units: Seq<Combatant>, i: int, j: int) -> bool {
    j != i && units[j].alive && units[j].team == units[i].team.other()
}

/// Is `j` a living ally of unit `i` (not `i` itself)?
pub open spec fn comrade(units: Seq<Combatant>, i: int, j: int) -> bool {
    j != i && units[j].alive && units[j].team == units[i].team
}

/// A living enemy (`rivals`) or ally of `i`.
pub open spec fn kin(units: Seq<Combatant>, i: int, rivals: bool, j: int) -> bool {
    if rivals {
        rival(units, i, j)
    } else {
        comrade(units, i, j)
    }
}

/// The nearness key of `j` seen from `i`: distance, then id.
pub open spec fn near_key(units: Seq<Combatant>, i: int, j: int) -> (int, int) {
    (units[i].pos.dist(units[j].pos), units[j].id as int)
}

/// Is any living unit of `team` on the field?
fn side_alive_exec(units: &[Combatant], team: Team) -> (b: bool)
    ensures
        b == side_alive(units@, team),
{
    let mut k: usize = 0;
    while k < units.len()
        invariant
            0 <= k <= units@.len(),
            forall|m: int| 0 <= m < k ==> !(#[trigger] units@[m].alive && units@[m].team == team),
        decreases units@.len() - k,
    {
        if units[k].alive && units[k].team == team {
            return true;
        }
        k += 1;
    }
    false
}

/// The standard fight result — drives termination and the baseline win-the-fight goal.
pub fn outcome(units: &[Combatant]) -> (o: Outcome)
    ensures
        o == standing(units@),
{
    let a = side_alive_exec(units, Team::A);
    let b = side_alive_exec(units, Team::B);
    if a && !b {
        Outcome::Winner(Team::A)
    } else if !a && b {
        Outcome::Winner(Team::B)
    } else if !a && !b {
        Outcome::Draw
    } else {
        Outcome::Ongoing
    }
}

/// Has the battle ended — one army wiped, or the player withdrew?
pub fn fight_over(units: &[Combatant], withdrawn: bool) -> (b: bool)
    ensures
        b == (withdrawn || standing(units@) != Outcome::Ongoing),
{
    withdrawn || !matches!(outcome(units), Outcome::Ongoing)
}

/// Is hex `h` held by a **living** unit other than `i`? Occupied hexes block movement.
pub fn occupied_by_other(units: &[Combatant], i: usize, h: Hex) -> (b: bool)
    ensures
        b == exists|j: int|
            0 <= j < units@.len() && j != i && #[trigger] units@[j].alive && units@[j].pos == h,
{
    let mut j: usize = 0;
    while j < units.len()
        invariant
            0 <= j <= units@.len(),
            forall|m: int| 0 <= m < j && m != i ==> !(#[trigger] units@[m].alive && units@[m].pos == h),
        decreases units@.len() - j,
    {
        if j != i && units[j].alive && units[j].pos == h {
            return true;
        }
        j += 1;
    }
    false
}

/// The nearest living unit to `i` on the enemy side (`rivals`) or its own, `id` breaking
/// ties.
fn nearest_where(units: &[Combatant], i: usize, rivals: bool) -> (r: Option<usize>)
    requires
        i < units@.len(),
        field_ok(units@),
    ensures
        match r {
            Some(j) => first_least(
                units@.len() as int,
                |k: int| kin(units@, i as int, rivals, k),
                |k: int| near_key(units@, i as int, k),
                j as int,
            ),
            None => none_pass(units@.len() as int, |k: int| kin(units@, i as int, rivals, k)),
        },
{
    let ghost ok = |k: int| kin(units@, i as int, rivals, k);
    let ghost key = |k: int| near_key(units@, i as int, k);
    let me = units[i].pos;
    let want = if rivals {
        units[i].team.enemy()
    } else {
        units[i].team
    };
    let mut best: Option<usize> = None;
    let mut best_d: i32 = 0;
    let mut best_id: u32 = 0;
    let mut j: usize = 0;
    while j < units.len()
        invariant
            0 <= j <= units@.len(),
            i < units@.len(),
            field_ok(units@),
            me == units@[i as int].pos,
            want == if rivals { units@[i as int].team.other() } else { units@[i as int].team },
            forall|k: int| #![trigger ok(k)] 0 <= k < units@.len() ==> (ok(k) <==> (k != i && units@[k].alive && units@[k].team == want)),
            forall|k: int| #![trigger key(k)] 0 <= k < units@.len() ==> key(k) == (me.dist(units@[k].pos), units@[k].id as int),
            match best {
                Some(b) => {
                    &&& b < j
                    &&& ok(b as int)
                    &&& best_d == me.dist(units@[b as int].pos)
                    &&& best_id == units@[b as int].id
                    &&& forall|k: int| 0 <= k < j && #[trigger] ok(k) ==> !lex2_lt(key(k), key(b as int))
                    &&& forall|k: int| 0 <= k < b && #[trigger] ok(k) ==> lex2_lt(key(b as int), key(k))
                },
                None => forall|k: int| 0 <= k < j ==> !#[trigger] ok(k),
            },
        decreases units@.len() - j,
    {
        let u = &units[j];
        if j != i && u.alive && u.team == want {
            proof {
                lemma_in_play_fits(me, u.pos);
            }
            let d = me.distance(u.pos);
            let better = match best {
                None => true,
                Some(_) => d < best_d || (d == best_d && u.id < best_id),
            };
            if better {
                best = Some(j);
                best_d = d;
                best_id = u.id;
            }
        }
        j += 1;
    }
    best
}

/// The nearest living **enemy** of `i` (distance, then id).
pub fn nearest_enemy(units: &[Combatant], i: usize) -> (r: Option<usize>)
    requires
        i < units@.len(),
        field_ok(units@),
    ensures
        match r {
            Some(j) => first_least(
                units@.len() as int,
                |k: int| rival(units@, i as int, k),
                |k: int| near_key(units@, i as int, k),
                j as int,
            ),
            None => none_pass(units@.len() as int, |k: int| rival(units@, i as int, k)),
        },
{
    let r = nearest_where(units, i, true);
    proof {
        let ok = |k: int| kin(units@, i as int, true, k);
        assert(ok =~= (|k: int| rival(units@, i as int, k)));
    }
    r
}

/// The nearest living **ally** of `i`, itself excluded (distance, then id).
pub fn nearest_ally(units: &[Combatant], i: usize) -> (r: Option<usize>)
    requires
        i < units@.len(),
        field_ok(units@),
    ensures
        match r {
            Some(j) => first_least(
                units@.len() as int,
                |k: int| comrade(units@, i as int, k),
                |k: int| near_key(units@, i as int, k),
                j as int,
            ),
            None => none_pass(units@.len() as int, |k: int| comrade(units@, i as int, k)),
        },
{
    let r = nearest_where(units, i, false);
    proof {
        let ok = |k: int| kin(units@, i as int, false, k);
        assert(ok =~= (|k: int| comrade(units@, i as int, k)));
    }
    r
}

/// Lexicographic `a < b` on integer triples.
pub open spec fn lex3_lt(a: (int, int, int), b: (int, int, int)) -> bool {
    a.0 < b.0 || (a.0 == b.0 && lex2_lt((a.1, a.2), (b.1, b.2)))
}

/// `j` is the first index in `0..n` passing `ok` with the least triple `key`.
pub open spec fn first_least3(
    n: int,
    ok: spec_fn(int) -> bool,
    key: spec_fn(int) -> (int, int, int),
    j: int,
) -> bool {
    &&& 0 <= j < n
    &&& ok(j)
    &&& forall|k: int| 0 <= k < n && #[trigger] ok(k) ==> !lex3_lt(key(k), key(j))
    &&& forall|k: int| 0 <= k < j && #[trigger] ok(k) ==> lex3_lt(key(j), key(k))
}

/// The **engagement distance** between two hexes: the grid distance, except that a
/// front-line pair the seam joins reads as `1` (the stagger closes its half-hex gap).
pub open spec fn engagement(board: Board, a: Hex, b: Hex) -> int {
    if a.dist(b) > 1 && (board.pairs_with(a, b) || board.pairs_with(b, a)) {
        1
    } else {
        a.dist(b)
    }
}

/// The engagement distance between units `a` and `b` — what weapon bands are checked
/// against.
pub fn reach(board: Board, units: &[Combatant], a: usize, b: usize) -> (d: i32)
    requires
        a < units@.len(),
        b < units@.len(),
        field_ok(units@),
    ensures
        d == engagement(board, units@[a as int].pos, units@[b as int].pos),
{
    let pa = units[a].pos;
    let pb = units[b].pos;
    proof {
        lemma_in_play_fits(pa, pb);
    }
    let d = pa.distance(pb);
    if d > 1 && board.engages(pa, pb) {
        1
    } else {
        d
    }
}

/// Does some weapon band of `unit` cover distance `d`?
pub open spec fn covers(unit: Combatant, d: int) -> bool {
    exists|w: int| 0 <= w < unit.bands@.len() && #[trigger] unit.bands@[w].0 <= d && d <= unit.bands@[w].1
}

/// Does some weapon band of `unit` cover distance `d`? (A weapon reaches.)
pub fn armed_at(unit: &Combatant, d: i32) -> (b: bool)
    ensures
        b == covers(*unit, d as int),
{
    let mut w: usize = 0;
    while w < unit.bands.len()
        invariant
            0 <= w <= unit.bands@.len(),
            forall|x: int| 0 <= x < w ==> !(#[trigger] unit.bands@[x].0 <= d && d <= unit.bands@[x].1),
        decreases unit.bands@.len() - w,
    {
        if unit.bands[w].0 <= d && d <= unit.bands[w].1 {
            return true;
        }
        w += 1;
    }
    false
}

/// The longest reach in `unit`'s loadout — a skirmisher's standoff range; `1` unarmed.
pub open spec fn standoff(unit: Combatant) -> int
    decreases unit.bands@.len(),
{
    longest(unit.bands@)
}

/// The greatest band maximum of `bands`, `1` for none.
pub open spec fn longest(bands: Seq<(i32, i32)>) -> int
    decreases bands.len(),
{
    if bands.len() == 0 {
        1
    } else if bands.len() == 1 {
        bands[0].1 as int
    } else {
        let rest = longest(bands.drop_last());
        if bands.last().1 > rest {
            bands.last().1 as int
        } else {
            rest
        }
    }
}

/// The longest reach in `unit`'s loadout (`1` when unarmed).
pub fn max_weapon_range(unit: &Combatant) -> (r: i32)
    ensures
        r == standoff(*unit),
{
    if unit.bands.len() == 0 {
        return 1;
    }
    let mut best: i32 = unit.bands[0].1;
    let mut w: usize = 1;
    proof {
        assert(unit.bands@.take(1).drop_last() =~= Seq::<(i32, i32)>::empty());
        assert(longest(unit.bands@.take(1)) == best);
    }
    while w < unit.bands.len()
        invariant
            1 <= w <= unit.bands@.len(),
            best == longest(unit.bands@.take(w as int)),
        decreases unit.bands@.len() - w,
    {
        let m = unit.bands[w].1;
        proof {
            assert(unit.bands@.take(w + 1).drop_last() =~= unit.bands@.take(w as int));
        }
        if m > best {
            best = m;
        }
        w += 1;
    }
    proof {
        assert(unit.bands@.take(unit.bands@.len() as int) =~= unit.bands@);
    }
    best
}

/// Is `h` one of `hexes`?
pub fn holds_hex(hexes: &[Hex], h: Hex) -> (b: bool)
    ensures
        b == hexes@.contains(h),
{
    let mut k: usize = 0;
    while k < hexes.len()
        invariant
            0 <= k <= hexes@.len(),
            forall|m: int| 0 <= m < k ==> #[trigger] hexes@[m] != h,
        decreases hexes@.len() - k,
    {
        if hexes[k] == h {
            return true;
        }
        k += 1;
    }
    false
}

/// May `i` take `j` as its weapon target? A living enemy — except a **data node**: an
/// unarmed enemy standing on one of the objective `foci`, which is meant to be hacked,
/// not slagged.
pub open spec fn fair_game(units: Seq<Combatant>, foci: Seq<Hex>, i: int, j: int) -> bool {
    rival(units, i, j) && !(foci.contains(units[j].pos) && units[j].bands@.len() == 0)
}

/// The key `i`'s targeting profile ranks candidate `j` by (least first; `Backline`
/// takes the greatest).
pub open spec fn aim_key(units: Seq<Combatant>, i: int, j: int) -> (int, int) {
    match units[i].targeting {
        TargetingProfile::Nearest => (units[i].pos.dist(units[j].pos), units[j].id as int),
        TargetingProfile::Backline => (units[i].pos.dist(units[j].pos), -(units[j].id as int)),
        TargetingProfile::LowestIntegrity => (units[j].integrity_key as int, 0),
        TargetingProfile::HighestThreat => (-(units[j].threat_key as int), 0),
        TargetingProfile::WeakestArmor => (units[j].armor_key as int, 0),
    }
}

/// The target `i`'s profile picks: the farthest (last among equals) for `Backline`, the
/// least-keyed (first among equals) otherwise.
pub open spec fn aimed_at(units: Seq<Combatant>, foci: Seq<Hex>, i: int, j: int) -> bool {
    let ok = |k: int| fair_game(units, foci, i, k);
    let key = |k: int| aim_key(units, i, k);
    if units[i].targeting == TargetingProfile::Backline {
        last_greatest(units.len() as int, ok, key, j)
    } else {
        first_least(units.len() as int, ok, key, j)
    }
}

fn aim_key_exec(units: &[Combatant], i: usize, j: usize) -> (k: (i128, i128))
    requires
        i < units@.len(),
        j < units@.len(),
        field_ok(units@),
    ensures
        k.0 as int == aim_key(units@, i as int, j as int).0,
        k.1 as int == aim_key(units@, i as int, j as int).1,
{
    let me = &units[i];
    let u = &units[j];
    proof {
        lemma_in_play_fits(me.pos, u.pos);
    }
    match me.targeting {
        TargetingProfile::Nearest => (me.pos.distance(u.pos) as i128, u.id as i128),
        TargetingProfile::Backline => (me.pos.distance(u.pos) as i128, -(u.id as i128)),
        TargetingProfile::LowestIntegrity => (u.integrity_key as i128, 0),
        TargetingProfile::HighestThreat => (-(u.threat_key as i128), 0),
        TargetingProfile::WeakestArmor => (u.armor_key as i128, 0),
    }
}

/// Pick `i`'s weapon target among living enemies by its **targeting profile**, skipping
/// data nodes (unarmed enemies on an objective focus hex). `None` when no enemy qualifies.
pub fn select_target(units: &[Combatant], i: usize, foci: &[Hex]) -> (r: Option<usize>)
    requires
        i < units@.len(),
        field_ok(units@),
    ensures
        match r {
            Some(j) => aimed_at(units@, foci@, i as int, j as int),
            None => none_pass(units@.len() as int, |k: int| fair_game(units@, foci@, i as int, k)),
        },
{
    let ghost ok = |k: int| fair_game(units@, foci@, i as int, k);
    let ghost key = |k: int| aim_key(units@, i as int, k);
    let backline = units[i].targeting == TargetingProfile::Backline;
    let want = units[i].team.enemy();
    let mut best: Option<usize> = None;
    let mut bk: (i128, i128) = (0, 0);
    let mut j: usize = 0;
    while j < units.len()
        invariant
            0 <= j <= units@.len(),
            i < units@.len(),
            field_ok(units@),
            backline == (units@[i as int].targeting == TargetingProfile::Backline),
            want == units@[i as int].team.other(),
            ok == (|k: int| fair_game(units@, foci@, i as int, k)),
            key == (|k: int| aim_key(units@, i as int, k)),
            match best {
                Some(b) => {
                    &&& b < j
                    &&& ok(b as int)
                    &&& bk.0 as int == key(b as int).0
                    &&& bk.1 as int == key(b as int).1
                    &&& !backline ==> forall|k: int| 0 <= k < j && #[trigger] ok(k) ==> !lex2_lt(key(k), key(b as int))
                    &&& !backline ==> forall|k: int| 0 <= k < b && #[trigger] ok(k) ==> lex2_lt(key(b as int), key(k))
                    &&& backline ==> forall|k: int| 0 <= k < j && #[trigger] ok(k) ==> !lex2_lt(key(b as int), key(k))
                    &&& backline ==> forall|k: int| b < k < j && #[trigger] ok(k) ==> lex2_lt(key(k), key(b as int))
                },
                None => forall|k: int| 0 <= k < j ==> !#[trigger] ok(k),
            },
        decreases units@.len() - j,
    {
        let u = &units[j];
        let fair = j != i && u.alive && u.team == want && !(u.bands.len() == 0 && holds_hex(
            foci,
            u.pos,
        ));
        assert(fair == ok(j as int));
        if fair {
            let k = aim_key_exec(units, i, j);
            let better = match best {
                None => true,
                Some(_) => if backline {
                    k.0 > bk.0 || (k.0 == bk.0 && k.1 >= bk.1)
                } else {
                    k.0 < bk.0 || (k.0 == bk.0 && k.1 < bk.1)
                },
            };
            if better {
                best = Some(j);
                bk = k;
            }
        }
        j += 1;
    }
    best
}

/// The bearing from `from` toward `goal`: the first direction whose step is nearest.
pub open spec fn bearing(from: Hex, goal: Hex) -> int {
    choose|d: int| from.first_nearest_dir(goal, d)
}

/// Is `h` on the beam of `length` hexes cast from `from` along direction `d`, the
/// caster's own hex excluded?
pub open spec fn on_beam(from: Hex, d: int, length: int, h: Hex) -> bool {
    exists|s: int|
        1 <= s <= length && #[trigger] (from.q + dir_dq(d) * s) == h.q && h.r == from.r + dir_dr(d) * s
}

/// Does the attack's area (other than `Single`) cover hex `h`? A blast is the disc of
/// `radius` around the target; a beam is the line from the attacker along the bearing to
/// the target.
pub open spec fn in_area(units: Seq<Combatant>, attacker: int, target: int, fp: Footprint, h: Hex) -> bool {
    match fp {
        Footprint::Single => false,
        Footprint::Blast(radius) => units[target].pos.dist(h) <= radius,
        Footprint::Beam(length) => on_beam(
            units[attacker].pos,
            bearing(units[attacker].pos, units[target].pos),
            length as int,
            h,
        ),
    }
}

/// Is unit `j` struck by an area attack? Every living unit in the area but the attacker —
/// allies included (friendly fire) — unless a `smart` weapon spares the attacker's team.
pub open spec fn struck(
    units: Seq<Combatant>,
    attacker: int,
    target: int,
    fp: Footprint,
    smart: bool,
    j: int,
) -> bool {
    &&& j != attacker
    &&& units[j].alive
    &&& in_area(units, attacker, target, fp, units[j].pos)
    &&& !(smart && units[j].team == units[attacker].team)
}

/// The direction `d` is the bearing whenever it is the first nearest direction.
proof fn lemma_bearing_is_unique(from: Hex, goal: Hex, d: int)
    requires
        from.first_nearest_dir(goal, d),
    ensures
        bearing(from, goal) == d,
{
    let b = bearing(from, goal);
    assert(from.first_nearest_dir(goal, b));
    if b < d {
        assert(from.nbr(d).dist(goal) < from.nbr(b).dist(goal));
    } else if d < b {
        assert(from.nbr(b).dist(goal) < from.nbr(d).dist(goal));
    }
}

/// Is `h` on the beam cast from `from` in direction `d` (`0..6`), `length` long?
fn beam_covers(from: Hex, d: usize, length: i32, h: Hex) -> (b: bool)
    requires
        d < 6,
        from.in_play(),
        h.in_play(),
    ensures
        b == on_beam(from, d as int, length as int, h),
{
    let ns = from.neighbors();
    let n = ns[d];
    let dq = n.q - from.q;
    let dr = n.r - from.r;
    assert(dq == dir_dq(d as int) && dr == dir_dr(d as int));
    let s: i32 = if dq == 1 {
        h.q - from.q
    } else if dq == -1 {
        from.q - h.q
    } else if dr == 1 {
        h.r - from.r
    } else {
        from.r - h.r
    };
    let off_q: i32 = if dq == 1 {
        s
    } else if dq == -1 {
        -s
    } else {
        0
    };
    let off_r: i32 = if dr == 1 {
        s
    } else if dr == -1 {
        -s
    } else {
        0
    };
    assert(off_q == dq * s) by (nonlinear_arith)
        requires
            -1 <= dq <= 1,
            off_q == if dq == 1 {
                s as int
            } else if dq == -1 {
                -s
            } else {
                0
            },
    ;
    assert(off_r == dr * s) by (nonlinear_arith)
        requires
            -1 <= dr <= 1,
            off_r == if dr == 1 {
                s as int
            } else if dr == -1 {
                -s
            } else {
                0
            },
    ;
    let hit = 1 <= s && s <= length && h.q == from.q + off_q && h.r == from.r + off_r;
    proof {
        if hit {
            assert((from.q + dir_dq(d as int) * s) == h.q);
        } else {
            assert forall|t: int| 1 <= t <= length implies !(#[trigger] (from.q + dir_dq(d as int) * t) == h.q
                && h.r == from.r + dir_dr(d as int) * t) by {
                if (from.q + dir_dq(d as int) * t) == h.q && h.r == from.r + dir_dr(d as int) * t {
                    assert(t == s);
                }
            }
        }
    }
    hit
}

/// The units an attack strikes. `Single` strikes just the target; an area attack
/// (`Blast` / `Beam`) strikes every unit [`struck`] describes, in ascending index order.
pub fn footprint_targets(
    units: &[Combatant],
    attacker: usize,
    target: usize,
    fp: Footprint,
    smart: bool,
) -> (v: Vec<usize>)
    requires
        attacker < units@.len(),
        target < units@.len(),
        field_ok(units@),
    ensures
        fp is Single ==> v@ == seq![target],
        !(fp is Single) ==> forall|j: int|
            0 <= j < units@.len() ==> (v@.contains(j as usize) <==> struck(
                units@,
                attacker as int,
                target as int,
                fp,
                smart,
                j,
            )),
        !(fp is Single) ==> forall|k: int| 0 <= k < v@.len() ==> (#[trigger] v@[k]) < units@.len(),
        !(fp is Single) ==> forall|a: int, b: int|
            0 <= a < b < v@.len() ==> (#[trigger] v@[a]) < (#[trigger] v@[b]),
{
    if let Footprint::Single = fp {
        return vec![target];
    }
    let from = units[attacker].pos;
    let tpos = units[target].pos;
    proof {
        lemma_in_play_fits(from, tpos);
    }
    let dir = from.direction_to(tpos);
    proof {
        lemma_bearing_is_unique(from, tpos, dir as int);
    }
    let team = units[attacker].team;
    let mut v: Vec<usize> = Vec::new();
    let mut j: usize = 0;
    while j < units.len()
        invariant
            0 <= j <= units@.len(),
            attacker < units@.len(),
            target < units@.len(),
            field_ok(units@),
            !(fp is Single),
            from == units@[attacker as int].pos,
            tpos == units@[target as int].pos,
            team == units@[attacker as int].team,
            dir < 6,
            bearing(from, tpos) == dir,
            forall|m: int|
                0 <= m < j ==> (v@.contains(m as usize) <==> struck(
                    units@,
                    attacker as int,
                    target as int,
                    fp,
                    smart,
                    m,
                )),
            forall|k: int| 0 <= k < v@.len() ==> (#[trigger] v@[k]) < j,
            forall|a: int, b: int| 0 <= a < b < v@.len() ==> (#[trigger] v@[a]) < (#[trigger] v@[b]),
        decreases units@.len() - j,
    {
        let u = &units[j];
        let inside = match fp {
            Footprint::Single => false,
            Footprint::Blast(radius) => {
                proof {
                    lemma_in_play_fits(tpos, u.pos);
                }
                tpos.distance(u.pos) <= radius
            },
            Footprint::Beam(length) => beam_covers(from, dir, length, u.pos),
        };
        let hit = j != attacker && u.alive && inside && !(smart && u.team == team);
        let ghost old_v = v@;
        if hit {
            v.push(j);
        }
        proof {
            assert forall|m: int| 0 <= m < j + 1 implies (v@.contains(m as usize) <==> struck(
                units@,
                attacker as int,
                target as int,
                fp,
                smart,
                m,
            )) by {
                if m < j {
                    if hit {
                        assert(v@ == old_v.push(j));
                        if old_v.contains(m as usize) {
                            let x = choose|x: int| 0 <= x < old_v.len() && old_v[x] == m as usize;
                            assert(v@[x] == m as usize);
                        }
                        if v@.contains(m as usize) {
                            let x = choose|x: int| 0 <= x < v@.len() && v@[x] == m as usize;
                            assert(x < old_v.len());
                            assert(old_v[x] == m as usize);
                        }
                    }
                } else {
                    if hit {
                        assert(v@[v@.len() - 1] == j);
                    } else {
                        assert(!old_v.contains(j));
                    }
                }
            }
        }
        j += 1;
    }
    v
}

/// Is `j` an enemy of `i` that `i` can hack: alive, on the net (Link > 0), and within
/// `i`'s antenna reach (its Link)?
pub open spec fn hackable(units: Seq<Combatant>, i: int, j: int) -> bool {
    &&& rival(units, i, j)
    &&& units[j].link > 0
    &&& units[i].pos.dist(units[j].pos) <= if units[i].link > 0 {
        units[i].link as int
    } else {
        0
    }
}

/// A runner's target key: enemies on an objective focus (a data node) first, then
/// nearer, then lower id.
pub open spec fn dive_key(units: Seq<Combatant>, foci: Seq<Hex>, i: int, j: int) -> (int, int, int) {
    (
        if foci.contains(units[j].pos) {
            0
        } else {
            1
        },
        units[i].pos.dist(units[j].pos),
        units[j].id as int,
    )
}

/// The hack target of runner `i`: the hackable enemy that best fits [`dive_key`] — one
/// sitting on an objective focus before the nearest grunt.
pub fn nearest_hackable_enemy(units: &[Combatant], i: usize, foci: &[Hex]) -> (r: Option<usize>)
    requires
        i < units@.len(),
        field_ok(units@),
    ensures
        match r {
            Some(j) => first_least3(
                units@.len() as int,
                |k: int| hackable(units@, i as int, k),
                |k: int| dive_key(units@, foci@, i as int, k),
                j as int,
            ),
            None => none_pass(units@.len() as int, |k: int| hackable(units@, i as int, k)),
        },
{
    let ghost ok = |k: int| hackable(units@, i as int, k);
    let ghost key = |k: int| dive_key(units@, foci@, i as int, k);
    let me = units[i].pos;
    let range = if units[i].link > 0 {
        units[i].link
    } else {
        0
    };
    let want = units[i].team.enemy();
    let mut best: Option<usize> = None;
    let mut bk: (u8, i32, u32) = (0, 0, 0);
    let mut j: usize = 0;
    while j < units.len()
        invariant
            0 <= j <= units@.len(),
            i < units@.len(),
            field_ok(units@),
            me == units@[i as int].pos,
            range == if units@[i as int].link > 0 { units@[i as int].link } else { 0 },
            want == units@[i as int].team.other(),
            ok == (|k: int| hackable(units@, i as int, k)),
            key == (|k: int| dive_key(units@, foci@, i as int, k)),
            match best {
                Some(b) => {
                    &&& b < j
                    &&& ok(b as int)
                    &&& key(b as int) == (bk.0 as int, bk.1 as int, bk.2 as int)
                    &&& forall|k: int| 0 <= k < j && #[trigger] ok(k) ==> !lex3_lt(key(k), key(b as int))
                    &&& forall|k: int| 0 <= k < b && #[trigger] ok(k) ==> lex3_lt(key(b as int), key(k))
                },
                None => forall|k: int| 0 <= k < j ==> !#[trigger] ok(k),
            },
        decreases units@.len() - j,
    {
        let u = &units[j];
        proof {
            lemma_in_play_fits(me, u.pos);
        }
        let d = me.distance(u.pos);
        let fits = j != i && u.alive && u.team == want && u.link > 0 && d <= range;
        assert(fits == ok(j as int));
        if fits {
            let k: (u8, i32, u32) = (
                if holds_hex(foci, u.pos) {
                    0
                } else {
                    1
                },
                d,
                u.id,
            );
            assert(key(j as int) == (k.0 as int, k.1 as int, k.2 as int));
            let better = match best {
                None => true,
                Some(_) => k.0 < bk.0 || (k.0 == bk.0 && (k.1 < bk.1 || (k.1 == bk.1 && k.2 < bk.2))),
            };
            if better {
                best = Some(j);
                bk = k;
            }
        }
        j += 1;
    }
    best
}

/// Does living ally `k` cover `t` on the net — a runner on the net whose antenna reach
/// spans `t`?
pub open spec fn covers_net(units: Seq<Combatant>, t: int, k: int) -> bool {
    &&& k != t
    &&& units[k].team == units[t].team
    &&& units[k].alive
    &&& units[k].has_hack
    &&& units[k].link > 0
    &&& units[k].pos.dist(units[t].pos) <= units[k].link
}

/// The **net defense** of `t`: the best of its Firewall, its own Hacking when it is a
/// runner (it parries code with code), and the Hacking of every allied runner covering it.
pub open spec fn defends_with(units: Seq<Combatant>, t: int, d: int) -> bool {
    &&& d >= units[t].firewall
    &&& units[t].has_hack ==> d >= units[t].hacking
    &&& forall|k: int| 0 <= k < units.len() && #[trigger] covers_net(units, t, k) ==> d >= units[k].hacking
    &&& (d == units[t].firewall || (units[t].has_hack && d == units[t].hacking) || exists|k: int|
        0 <= k < units.len() && #[trigger] covers_net(units, t, k) && d == units[k].hacking)
}

/// The best net defense available to `target`'s side — what a hack is opposed by. `≤ 0`
/// is an undefended surface.
pub fn net_defense(units: &[Combatant], target: usize) -> (d: i32)
    requires
        target < units@.len(),
        field_ok(units@),
    ensures
        defends_with(units@, target as int, d as int),
{
    let t = &units[target];
    let mut d = t.firewall;
    if t.has_hack && t.hacking > d {
        d = t.hacking;
    }
    let mut k: usize = 0;
    while k < units.len()
        invariant
            0 <= k <= units@.len(),
            target < units@.len(),
            field_ok(units@),
            t == &units@[target as int],
            d >= t.firewall,
            t.has_hack ==> d >= t.hacking,
            forall|m: int| 0 <= m < k && #[trigger] covers_net(units@, target as int, m) ==> d >= units@[m].hacking,
            d == t.firewall || (t.has_hack && d == t.hacking) || exists|m: int|
                0 <= m < units@.len() && #[trigger] covers_net(units@, target as int, m) && d == units@[m].hacking,
        decreases units@.len() - k,
    {
        let a = &units[k];
        if k != target && a.team == t.team && a.alive && a.has_hack && a.link > 0 {
            proof {
                lemma_in_play_fits(a.pos, t.pos);
            }
            if a.pos.distance(t.pos) <= a.link && a.hacking > d {
                d = a.hacking;
                assert(covers_net(units@, target as int, k as int));
            }
        }
        k += 1;
    }
    d
}

/// Is a living unit other than `i` on `h`?
pub open spec fn taken(units: Seq<Combatant>, i: int, h: Hex) -> bool {
    exists|j: int| 0 <= j < units.len() && j != i && #[trigger] units[j].alive && units[j].pos == h
}

/// Can unit `i` route through `h`? Pathable ground that is passable and not held by
/// another living unit — or `i`'s own hex.
pub open spec fn enterable(t: Terrain, units: Seq<Combatant>, i: int, h: Hex) -> bool {
    t.pathable_at(h) && ((t.open_at(h) && !taken(units, i, h)) || h == units[i].pos)
}

/// Does `h` neighbour some hex of `s`?
pub open spec fn touches(s: Set<Hex>, h: Hex) -> bool {
    exists|d: int| 0 <= d < 6 && s.contains(#[trigger] h.nbr(d))
}

/// The hexes unit `i` can reach from `goal` in at most `k` steps through enterable
/// hexes (the goal itself always counts, occupied or not).
pub open spec fn layer(t: Terrain, units: Seq<Combatant>, i: int, goal: Hex, k: nat) -> Set<Hex>
    decreases k,
{
    if k == 0 {
        Set::empty().insert(goal)
    } else {
        let prev = layer(t, units, i, goal, (k - 1) as nat);
        prev.union(Set::new(|h: Hex| enterable(t, units, i, h) && touches(prev, h)))
    }
}

/// `h` is exactly `d` steps from `goal`: in layer `d` and not in an earlier one.
pub open spec fn flows(t: Terrain, units: Seq<Combatant>, i: int, goal: Hex, h: Hex, d: int) -> bool {
    &&& d >= 0
    &&& layer(t, units, i, goal, d as nat).contains(h)
    &&& (d == 0 || !layer(t, units, i, goal, (d - 1) as nat).contains(h))
}

/// Is `h` among the keys of the placements `seen`?
pub open spec fn has_key(seen: Seq<(Hex, usize)>, h: Hex) -> bool {
    exists|k: int| 0 <= k < seen.len() && (#[trigger] seen[k]).0 == h
}

/// Stepping out in direction `d` and back in the opposite direction returns home.
proof fn lemma_step_back(h: Hex, d: int)
    requires
        h.step_ok(),
        0 <= d < 6,
    ensures
        h.nbr(d).nbr((d + 3) % 6) == h,
{
}

/// Layers only grow.
proof fn lemma_layer_grows(t: Terrain, units: Seq<Combatant>, i: int, goal: Hex, k: nat, m: nat)
    requires
        k <= m,
    ensures
        layer(t, units, i, goal, k).subset_of(layer(t, units, i, goal, m)),
    decreases m - k,
{
    if k < m {
        lemma_layer_grows(t, units, i, goal, k, (m - 1) as nat);
    }
}

/// Once a layer adds nothing, no later layer does.
proof fn lemma_layer_settles(t: Terrain, units: Seq<Combatant>, i: int, goal: Hex, k: nat, m: nat)
    requires
        k <= m,
        layer(t, units, i, goal, k + 1) == layer(t, units, i, goal, k),
    ensures
        layer(t, units, i, goal, m) == layer(t, units, i, goal, k),
    decreases m - k,
{
    if k < m {
        lemma_layer_settles(t, units, i, goal, k, (m - 1) as nat);
        assert(layer(t, units, i, goal, m) =~= layer(t, units, i, goal, (m - 1) as nat).union(
            Set::new(|h: Hex| enterable(t, units, i, h) && touches(layer(t, units, i, goal, (m - 1) as nat), h)),
        ));
        if m - 1 > k {
            assert(layer(t, units, i, goal, (m - 1) as nat) == layer(t, units, i, goal, k));
        }
    }
}

/// Is `n` a neighbour of one of the first `f` frontier hexes, or of frontier hex `f` in a
/// direction below `d`?
pub open spec fn beside(frontier: Seq<Hex>, f: int, d: int, n: Hex) -> bool {
    exists|a: int, b: int|
        ((0 <= a < f && 0 <= b < 6) || (a == f && 0 <= b < d)) && #[trigger] frontier[a].nbr(b) == n
}

/// A layer's new hexes are exactly the enterable neighbours of the previous layer's new
/// hexes (its frontier) that are not already in it.
proof fn lemma_next_layer(t: Terrain, units: Seq<Combatant>, i: int, goal: Hex, depth: nat, frontier: Seq<Hex>)
    requires
        t.zone_spec() is Some,
        t.wf(),
        goal.in_play(),
        forall|h: Hex|
            #![trigger frontier.contains(h)]
            frontier.contains(h) <==> (layer(t, units, i, goal, depth).contains(h) && (depth == 0
                || !layer(t, units, i, goal, (depth - 1) as nat).contains(h))),
        forall|a: int| 0 <= a < frontier.len() ==> (#[trigger] frontier[a]).in_play(),
    ensures
        forall|n: Hex|
            #![trigger layer(t, units, i, goal, depth + 1).contains(n)]
            (layer(t, units, i, goal, depth + 1).contains(n) && !layer(t, units, i, goal, depth).contains(n))
                <==> (!layer(t, units, i, goal, depth).contains(n) && enterable(t, units, i, n) && beside(
                frontier,
                frontier.len() as int,
                0,
                n,
            )),
{
    let cur = layer(t, units, i, goal, depth);
    let nxt = layer(t, units, i, goal, depth + 1);
    assert(nxt == cur.union(Set::new(|h: Hex| enterable(t, units, i, h) && touches(cur, h))));
    assert forall|n: Hex| #![trigger nxt.contains(n)] (nxt.contains(n) && !cur.contains(n)) <==> (!cur.contains(n)
        && enterable(t, units, i, n) && beside(frontier, frontier.len() as int, 0, n)) by {
        if nxt.contains(n) && !cur.contains(n) {
            assert(enterable(t, units, i, n) && touches(cur, n));
            lemma_zone_fits(t, n);
            let d = choose|d: int| 0 <= d < 6 && cur.contains(#[trigger] n.nbr(d));
            let m = n.nbr(d);
            if depth > 0 && layer(t, units, i, goal, (depth - 1) as nat).contains(m) {
                let prev = layer(t, units, i, goal, (depth - 1) as nat);
                assert(cur == prev.union(Set::new(|h: Hex| enterable(t, units, i, h) && touches(prev, h))));
                assert(touches(prev, n));
                assert(cur.contains(n));
            }
            assert(frontier.contains(m));
            let a = choose|a: int| 0 <= a < frontier.len() && frontier[a] == m;
            lemma_step_back(n, d);
            assert(frontier[a].nbr((d + 3) % 6) == n);
        }
        if !cur.contains(n) && enterable(t, units, i, n) && beside(frontier, frontier.len() as int, 0, n) {
            let (a, b) = choose|a: int, b: int|
                ((0 <= a < frontier.len() && 0 <= b < 6) || (a == frontier.len() && 0 <= b < 0))
                    && #[trigger] frontier[a].nbr(b) == n;
            let m = frontier[a];
            assert(frontier.contains(m));
            lemma_in_play_fits(m, m);
            lemma_step_back(m, b);
            assert(n.nbr((b + 3) % 6) == m);
            assert(touches(cur, n));
        }
    }
}

/// Every battlefield-pathable hex of a zoned board lies within the fringe box.
proof fn lemma_pathable_in_box(t: Terrain, h: Hex)
    requires
        t.zone_spec() is Some,
        t.wf(),
        t.pathable_at(h),
        -0x0FFF_FFF1 <= h.q <= 0x0FFF_FFF1,
        -0x0FFF_FFF1 <= h.r <= 0x0FFF_FFF1,
    ensures
        t.zone_spec()->0.min_q - FRINGE <= h.q <= t.zone_spec()->0.max_q + FRINGE,
        t.zone_spec()->0.min_r - FRINGE <= h.r <= t.zone_spec()->0.max_r + FRINGE,
{
    let z = t.zone_spec()->0;
    lemma_dist_is_max(h, z.nearest(h));
}

/// Is `h` a key of `seen`?
fn seen_has(seen: &Vec<(Hex, usize)>, h: Hex) -> (b: bool)
    ensures
        b == has_key(seen@, h),
{
    let mut k: usize = 0;
    while k < seen.len()
        invariant
            0 <= k <= seen@.len(),
            forall|m: int| 0 <= m < k ==> (#[trigger] seen@[m]).0 != h,
        decreases seen@.len() - k,
    {
        if seen[k].0 == h {
            return true;
        }
        k += 1;
    }
    false
}

/// The **flow field** toward `goal` for unit `i` on a zoned board: every hex `i` can
/// route through from the goal (breadth-first over enterable hexes), each with its step
/// count. The goal seeds distance zero even when occupied — it is what is being approached.
pub fn flow_field(units: &[Combatant], t: &Terrain, i: usize, goal: Hex) -> (seen: Vec<(Hex, usize)>)
    requires
        i < units@.len(),
        t.zone_spec() is Some,
        t.wf(),
        goal.in_play(),
    ensures
        forall|k: int|
            0 <= k < seen@.len() ==> flows(*t, units@, i as int, goal, (#[trigger] seen@[k]).0, seen@[k].1 as int),
        forall|h: Hex, k: nat| #[trigger] layer(*t, units@, i as int, goal, k).contains(h) ==> has_key(seen@, h),
        forall|a: int, b: int| 0 <= a < b < seen@.len() ==> (#[trigger] seen@[a]).0 != (#[trigger] seen@[b]).0,
{
    let ghost z = t.zone_spec()->0;
    let ghost lo = Hex {
        q: if goal.q < z.min_q - FRINGE { goal.q } else { (z.min_q - FRINGE) as i32 },
        r: if goal.r < z.min_r - FRINGE { goal.r } else { (z.min_r - FRINGE) as i32 },
    };
    let ghost hi = Hex {
        q: if goal.q > z.max_q + FRINGE { goal.q } else { (z.max_q + FRINGE) as i32 },
        r: if goal.r > z.max_r + FRINGE { goal.r } else { (z.max_r + FRINGE) as i32 },
    };
    let ghost cap: int = hex_code(hi) - hex_code(lo) + 1;
    let ghost li = i as int;
    let mut seen: Vec<(Hex, usize)> = Vec::new();
    seen.push((goal, 0));
    let mut frontier: Vec<Hex> = Vec::new();
    frontier.push(goal);
    let mut depth: usize = 0;
    proof {
        assert(layer(*t, units@, li, goal, 0) == Set::empty().insert(goal));
        assert(has_key(seen@, goal)) by {
            assert(seen@[0].0 == goal);
        }
        assert(frontier@.contains(goal)) by {
            assert(frontier@[0] == goal);
        }
    }
    while frontier.len() > 0
        invariant
            i < units@.len(),
            li == i,
            t.zone_spec() is Some,
            t.wf(),
            z == t.zone_spec()->0,
            goal.in_play(),
            lo.q <= goal.q <= hi.q,
            lo.r <= goal.r <= hi.r,
            lo.q == if goal.q < z.min_q - FRINGE { goal.q as int } else { z.min_q - FRINGE },
            lo.r == if goal.r < z.min_r - FRINGE { goal.r as int } else { z.min_r - FRINGE },
            hi.q == if goal.q > z.max_q + FRINGE { goal.q as int } else { z.max_q + FRINGE },
            hi.r == if goal.r > z.max_r + FRINGE { goal.r as int } else { z.max_r + FRINGE },
            cap == hex_code(hi) - hex_code(lo) + 1,
            depth + frontier@.len() <= seen@.len(),
            seen@.len() <= cap,
            forall|h: Hex| #![trigger has_key(seen@, h)] has_key(seen@, h) <==> layer(*t, units@, li, goal, depth as nat).contains(h),
            forall|k: int|
                0 <= k < seen@.len() ==> flows(*t, units@, li, goal, (#[trigger] seen@[k]).0, seen@[k].1 as int),
            forall|a: int, b: int| 0 <= a < b < seen@.len() ==> (#[trigger] seen@[a]).0 != (#[trigger] seen@[b]).0,
            forall|k: int| 0 <= k < seen@.len() ==> lo.q <= (#[trigger] seen@[k]).0.q <= hi.q && lo.r <= seen@[k].0.r <= hi.r,
            forall|h: Hex|
                #![trigger frontier@.contains(h)]
                frontier@.contains(h) <==> (layer(*t, units@, li, goal, depth as nat).contains(h) && (depth == 0
                    || !layer(*t, units@, li, goal, (depth - 1) as nat).contains(h))),
            forall|a: int| 0 <= a < frontier@.len() ==> (#[trigger] frontier@[a]).in_play(),
            frontier@.len() == 0 ==> depth > 0 && layer(*t, units@, li, goal, depth as nat) == layer(
                *t,
                units@,
                li,
                goal,
                (depth - 1) as nat,
            ),
        decreases cap - seen@.len() + if frontier@.len() > 0 { 1int } else { 0int },
    {
        proof {
            lemma_next_layer(*t, units@, li, goal, depth as nat, frontier@);
        }
        let ghost cur = layer(*t, units@, li, goal, depth as nat);
        let ghost nxt = layer(*t, units@, li, goal, (depth + 1) as nat);
        let ghost seen_start = seen@.len();
        let mut next: Vec<Hex> = Vec::new();
        let mut f: usize = 0;
        while f < frontier.len()
            invariant
                i < units@.len(),
                li == i,
                t.zone_spec() is Some,
                t.wf(),
                z == t.zone_spec()->0,
                goal.in_play(),
                lo.q <= goal.q <= hi.q,
                lo.r <= goal.r <= hi.r,
                lo.q == if goal.q < z.min_q - FRINGE { goal.q as int } else { z.min_q - FRINGE },
                lo.r == if goal.r < z.min_r - FRINGE { goal.r as int } else { z.min_r - FRINGE },
                hi.q == if goal.q > z.max_q + FRINGE { goal.q as int } else { z.max_q + FRINGE },
                hi.r == if goal.r > z.max_r + FRINGE { goal.r as int } else { z.max_r + FRINGE },
                cap == hex_code(hi) - hex_code(lo) + 1,
                0 <= f <= frontier@.len(),
                frontier@.len() > 0,
                depth < seen@.len(),
                cur == layer(*t, units@, li, goal, depth as nat),
                nxt == layer(*t, units@, li, goal, (depth + 1) as nat),
                forall|n: Hex|
                    #![trigger nxt.contains(n)]
                    (nxt.contains(n) && !cur.contains(n)) <==> (!cur.contains(n) && enterable(*t, units@, li, n)
                        && beside(frontier@, frontier@.len() as int, 0, n)),
                forall|h: Hex|
                    #![trigger has_key(seen@, h)]
                    has_key(seen@, h) <==> (cur.contains(h) || (!cur.contains(h) && enterable(*t, units@, li, h)
                        && beside(frontier@, f as int, 0, h))),
                forall|h: Hex|
                    #![trigger next@.contains(h)]
                    next@.contains(h) <==> (!cur.contains(h) && enterable(*t, units@, li, h) && beside(
                        frontier@,
                        f as int,
                        0,
                        h,
                    )),
                seen@.len() == seen_start + next@.len(),
                seen_start >= depth + 1,
                forall|k: int|
                    0 <= k < seen@.len() ==> flows(*t, units@, li, goal, (#[trigger] seen@[k]).0, seen@[k].1 as int),
                forall|a: int, b: int| 0 <= a < b < seen@.len() ==> (#[trigger] seen@[a]).0 != (#[trigger] seen@[b]).0,
                forall|k: int|
                    0 <= k < seen@.len() ==> lo.q <= (#[trigger] seen@[k]).0.q <= hi.q && lo.r <= seen@[k].0.r <= hi.r,
                forall|a: int| 0 <= a < frontier@.len() ==> (#[trigger] frontier@[a]).in_play(),
                forall|a: int| 0 <= a < next@.len() ==> (#[trigger] next@[a]).in_play(),
                forall|h: Hex|
                    #![trigger frontier@.contains(h)]
                    frontier@.contains(h) <==> (cur.contains(h) && (depth == 0 || !layer(
                        *t,
                        units@,
                        li,
                        goal,
                        (depth - 1) as nat,
                    ).contains(h))),
            decreases frontier@.len() - f,
        {
            let here = frontier[f];
            proof {
                lemma_in_play_fits(here, here);
            }
            let ns = here.neighbors();
            let mut d: usize = 0;
            while d < 6
                invariant
                    i < units@.len(),
                    li == i,
                    t.zone_spec() is Some,
                    t.wf(),
                    z == t.zone_spec()->0,
                    goal.in_play(),
                    lo.q <= goal.q <= hi.q,
                    lo.r <= goal.r <= hi.r,
                    lo.q == if goal.q < z.min_q - FRINGE { goal.q as int } else { z.min_q - FRINGE },
                    lo.r == if goal.r < z.min_r - FRINGE { goal.r as int } else { z.min_r - FRINGE },
                    hi.q == if goal.q > z.max_q + FRINGE { goal.q as int } else { z.max_q + FRINGE },
                    hi.r == if goal.r > z.max_r + FRINGE { goal.r as int } else { z.max_r + FRINGE },
                    cap == hex_code(hi) - hex_code(lo) + 1,
                    0 <= f < frontier@.len(),
                    0 <= d <= 6,
                    here == frontier@[f as int],
                    here.in_play(),
                    forall|e: int| 0 <= e < 6 ==> #[trigger] ns@[e] == here.nbr(e),
                    depth < seen@.len(),
                    cur == layer(*t, units@, li, goal, depth as nat),
                    nxt == layer(*t, units@, li, goal, (depth + 1) as nat),
                    forall|n: Hex|
                        #![trigger nxt.contains(n)]
                        (nxt.contains(n) && !cur.contains(n)) <==> (!cur.contains(n) && enterable(*t, units@, li, n)
                            && beside(frontier@, frontier@.len() as int, 0, n)),
                    forall|h: Hex|
                        #![trigger has_key(seen@, h)]
                        has_key(seen@, h) <==> (cur.contains(h) || (!cur.contains(h) && enterable(
                            *t,
                            units@,
                            li,
                            h,
                        ) && beside(frontier@, f as int, d as int, h))),
                    forall|h: Hex|
                        #![trigger next@.contains(h)]
                        next@.contains(h) <==> (!cur.contains(h) && enterable(*t, units@, li, h) && beside(
                            frontier@,
                            f as int,
                            d as int,
                            h,
                        )),
                    seen@.len() == seen_start + next@.len(),
                    seen_start >= depth + 1,
                    forall|k: int|
                        0 <= k < seen@.len() ==> flows(*t, units@, li, goal, (#[trigger] seen@[k]).0, seen@[k].1 as int),
                    forall|a: int, b: int| 0 <= a < b < seen@.len() ==> (#[trigger] seen@[a]).0 != (#[trigger] seen@[b]).0,
                    forall|k: int|
                        0 <= k < seen@.len() ==> lo.q <= (#[trigger] seen@[k]).0.q <= hi.q && lo.r <= seen@[k].0.r <= hi.r,
                    forall|a: int| 0 <= a < next@.len() ==> (#[trigger] next@[a]).in_play(),
                decreases 6 - d,
            {
                let n = ns[d];
                proof {
                    lemma_zone_fits(*t, n);
                }
                let fresh = !seen_has(&seen, n);
                let enter = fresh && t.pathable(n) && ((t.passable(n) && !occupied_by_other(units, i, n))
                    || n == units[i].pos);
                proof {
                    assert(frontier@[f as int].nbr(d as int) == n);
                    assert(beside(frontier@, f as int, d + 1, n));
                    assert forall|h: Hex| beside(frontier@, f as int, d + 1, h) <==> (beside(frontier@, f as int, d as int, h) || h == n) by {
                        if beside(frontier@, f as int, d + 1, h) && h != n {
                            let (a, b) = choose|a: int, b: int|
                                ((0 <= a < f && 0 <= b < 6) || (a == f && 0 <= b < d + 1)) && #[trigger] frontier@[a].nbr(b) == h;
                            assert(b != d || a != f);
                            assert(beside(frontier@, f as int, d as int, h));
                        }
                        if beside(frontier@, f as int, d as int, h) {
                            let (a, b) = choose|a: int, b: int|
                                ((0 <= a < f && 0 <= b < 6) || (a == f && 0 <= b < d)) && #[trigger] frontier@[a].nbr(b) == h;
                            assert(frontier@[a].nbr(b) == h);
                        }
                    }
                    if fresh {
                        assert(!cur.contains(n));
                    }
                    if enter {
                        assert(enterable(*t, units@, li, n));
                        assert(beside(frontier@, frontier@.len() as int, 0, n)) by {
                            assert(frontier@[f as int].nbr(d as int) == n);
                        }
                        assert(nxt.contains(n));
                        lemma_pathable_in_box(*t, n);
                    }
                }
                if enter {
                    let len_now = seen.len();
                    let ghost before = seen@;
                    let ghost nbefore = next@;
                    seen.push((n, depth + 1));
                    next.push(n);
                    proof {
                        assert forall|h: Hex| #![trigger has_key(seen@, h)] has_key(seen@, h) <==> (has_key(before, h) || h == n) by {
                            if has_key(seen@, h) {
                                let k = choose|k: int| 0 <= k < seen@.len() && (#[trigger] seen@[k]).0 == h;
                                if k < before.len() {
                                    assert(before[k].0 == h);
                                }
                            }
                            if has_key(before, h) {
                                let k = choose|k: int| 0 <= k < before.len() && (#[trigger] before[k]).0 == h;
                                assert(seen@[k].0 == h);
                            }
                            if h == n {
                                assert(seen@[before.len() as int].0 == h);
                            }
                        }
                        assert forall|h: Hex| #![trigger next@.contains(h)] next@.contains(h) <==> (nbefore.contains(h) || h == n) by {
                            if next@.contains(h) {
                                let k = choose|k: int| 0 <= k < next@.len() && next@[k] == h;
                                if k < nbefore.len() {
                                    assert(nbefore[k] == h);
                                }
                            }
                            if nbefore.contains(h) {
                                let k = choose|k: int| 0 <= k < nbefore.len() && nbefore[k] == h;
                                assert(next@[k] == h);
                            }
                            if h == n {
                                assert(next@[nbefore.len() as int] == h);
                            }
                        }
                        assert forall|a: int, b: int| 0 <= a < b < seen@.len() implies (#[trigger] seen@[a]).0 != (#[trigger] seen@[b]).0 by {
                            if b == before.len() {
                                assert(has_key(before, seen@[a].0)) by {
                                    assert(before[a].0 == seen@[a].0);
                                }
                            }
                        }
                        assert(flows(*t, units@, li, goal, n, depth + 1));
                    }
                }
                d += 1;
            }
            proof {
                assert forall|h: Hex| beside(frontier@, f + 1, 0, h) <==> beside(frontier@, f as int, 6, h) by {
                    if beside(frontier@, f + 1, 0, h) {
                        let (a, b) = choose|a: int, b: int|
                            ((0 <= a < f + 1 && 0 <= b < 6) || (a == f + 1 && 0 <= b < 0)) && #[trigger] frontier@[a].nbr(b) == h;
                        assert(frontier@[a].nbr(b) == h);
                    }
                    if beside(frontier@, f as int, 6, h) {
                        let (a, b) = choose|a: int, b: int|
                            ((0 <= a < f && 0 <= b < 6) || (a == f && 0 <= b < 6)) && #[trigger] frontier@[a].nbr(b) == h;
                        assert(frontier@[a].nbr(b) == h);
                    }
                }
            }
            f += 1;
        }
        proof {
            assert forall|h: Hex| #![trigger has_key(seen@, h)] has_key(seen@, h) <==> nxt.contains(h) by {
                lemma_layer_grows(*t, units@, li, goal, depth as nat, (depth + 1) as nat);
            }
            assert forall|h: Hex|
                #![trigger next@.contains(h)]
                next@.contains(h) <==> (nxt.contains(h) && !cur.contains(h)) by {
                lemma_layer_grows(*t, units@, li, goal, depth as nat, (depth + 1) as nat);
            }
            let keys = seen@.map_values(|e: (Hex, usize)| e.0);
            assert(keys.no_duplicates()) by {
                assert forall|a: int, b: int| 0 <= a < keys.len() && 0 <= b < keys.len() && a != b implies keys[a] != keys[b] by {
                    if a < b {
                        assert(seen@[a].0 != seen@[b].0);
                    } else {
                        assert(seen@[b].0 != seen@[a].0);
                    }
                }
            }
            lemma_distinct_hexes_in_box(keys, lo, hi);
            if next@.len() == 0 {
                assert(nxt =~= cur) by {
                    lemma_layer_grows(*t, units@, li, goal, depth as nat, (depth + 1) as nat);
                    assert forall|h: Hex| nxt.contains(h) implies cur.contains(h) by {
                        if !cur.contains(h) {
                            assert(!next@.contains(h));
                        }
                    }
                }
            }
        }
        let len_now = seen.len();
        assert(depth < len_now);
        frontier = next;
        depth += 1;
    }
    proof {
        assert forall|h: Hex, k: nat| #[trigger] layer(*t, units@, li, goal, k).contains(h) implies has_key(seen@, h) by {
            if k <= depth {
                lemma_layer_grows(*t, units@, li, goal, k, depth as nat);
            } else {
                lemma_layer_settles(*t, units@, li, goal, (depth - 1) as nat, k);
            }
        }
    }
    seen
}

/// The step count from `goal` to `h` in the flow field, if `h` is reachable at all.
pub open spec fn flow_at(t: Terrain, units: Seq<Combatant>, i: int, goal: Hex, h: Hex) -> Option<int> {
    if exists|d: int| flows(t, units, i, goal, h, d) {
        Some(choose|d: int| flows(t, units, i, goal, h, d))
    } else {
        None
    }
}

/// A hex lies at one step count only.
proof fn lemma_flows_unique(t: Terrain, units: Seq<Combatant>, i: int, goal: Hex, h: Hex, d1: int, d2: int)
    requires
        flows(t, units, i, goal, h, d1),
        flows(t, units, i, goal, h, d2),
    ensures
        d1 == d2,
{
    if d1 < d2 {
        lemma_layer_grows(t, units, i, goal, d1 as nat, (d2 - 1) as nat);
    } else if d2 < d1 {
        lemma_layer_grows(t, units, i, goal, d2 as nat, (d1 - 1) as nat);
    }
}

/// The step count of `h` in a flow field built by [`flow_field`].
fn flow_lookup(
    field: &Vec<(Hex, usize)>,
    h: Hex,
    Ghost(t): Ghost<Terrain>,
    Ghost(units): Ghost<Seq<Combatant>>,
    Ghost(i): Ghost<int>,
    Ghost(goal): Ghost<Hex>,
) -> (r: Option<usize>)
    requires
        forall|k: int|
            0 <= k < field@.len() ==> flows(t, units, i, goal, (#[trigger] field@[k]).0, field@[k].1 as int),
        forall|x: Hex, k: nat| #[trigger] layer(t, units, i, goal, k).contains(x) ==> has_key(field@, x),
    ensures
        match r {
            Some(d) => flow_at(t, units, i, goal, h) == Some(d as int),
            None => flow_at(t, units, i, goal, h) is None,
        },
{
    let mut k: usize = 0;
    while k < field.len()
        invariant
            0 <= k <= field@.len(),
            forall|m: int| 0 <= m < k ==> (#[trigger] field@[m]).0 != h,
            forall|m: int|
                0 <= m < field@.len() ==> flows(t, units, i, goal, (#[trigger] field@[m]).0, field@[m].1 as int),
            forall|x: Hex, m: nat| #[trigger] layer(t, units, i, goal, m).contains(x) ==> has_key(field@, x),
        decreases field@.len() - k,
    {
        if field[k].0 == h {
            proof {
                let d = field@[k as int].1 as int;
                assert(field@[k as int].0 == h);
                assert(flows(t, units, i, goal, h, d));
                let c = choose|c: int| flows(t, units, i, goal, h, c);
                lemma_flows_unique(t, units, i, goal, h, c, d);
            }
            return Some(field[k].1);
        }
        k += 1;
    }
    proof {
        if exists|d: int| flows(t, units, i, goal, h, d) {
            let d = choose|d: int| flows(t, units, i, goal, h, d);
            assert(layer(t, units, i, goal, d as nat).contains(h));
            assert(has_key(field@, h));
        }
    }
    None
}

/// Lexicographic `a < b` on six-component keys.
pub open spec fn lex6_lt(a: (int, int, int, int, int, int), b: (int, int, int, int, int, int)) -> bool {
    a.0 < b.0 || (a.0 == b.0 && (a.1 < b.1 || (a.1 == b.1 && (a.2 < b.2 || (a.2 == b.2 && (a.3 < b.3
        || (a.3 == b.3 && (a.4 < b.4 || (a.4 == b.4 && a.5 < b.5)))))))))
}

/// Can unit `i` step onto `h`? Passable ground no other living unit holds.
pub open spec fn free(t: Terrain, units: Seq<Combatant>, i: int, h: Hex) -> bool {
    t.open_at(h) && !taken(units, i, h)
}

/// The ranking of a closing step onto `h`, least first: `progress` toward the goal, then
/// dodging hazards, then more cover, then (when flanking) a wider row offset from the
/// goal, then a stable positional key.
pub open spec fn close_key(t: Terrain, goal: Hex, flank: bool, progress: int, h: Hex) -> (int, int, int, int, int, int) {
    (
        progress,
        if t.ground(h) is Hazard { 1 } else { 0 },
        -(match t.ground(h) {
            Ground::Cover(tn) => tn as int,
            _ => 0,
        }),
        if flank { -crate::hex::abs(h.r - goal.r) } else { 0 },
        h.q as int,
        h.r as int,
    )
}

/// On the open plane a closing step picks, from staying put and the free neighbours, the
/// one nearest the goal (then by [`close_key`]).
pub open spec fn plane_step(t: Terrain, units: Seq<Combatant>, i: int, goal: Hex, flank: bool, next: Hex) -> bool {
    &&& plane_cand(t, units, i, next)
    &&& forall|h: Hex| #[trigger] plane_cand(t, units, i, h) ==> !lex6_lt(
        close_key(t, goal, flank, h.dist(goal), h),
        close_key(t, goal, flank, next.dist(goal), next),
    )
}

/// Is `h` a neighbour of unit `i`'s hex?
pub open spec fn adjacent(units: Seq<Combatant>, i: int, h: Hex) -> bool {
    exists|e: int| 0 <= e < 6 && #[trigger] units[i].pos.nbr(e) == h
}

/// A one-step move of unit `i` may stay put or take a free neighbour.
pub open spec fn plane_cand(t: Terrain, units: Seq<Combatant>, i: int, h: Hex) -> bool {
    h == units[i].pos || (free(t, units, i, h) && adjacent(units, i, h))
}

/// A routed step must take a free neighbour strictly fewer flow steps from the goal.
pub open spec fn routed_cand(t: Terrain, units: Seq<Combatant>, i: int, goal: Hex, h: Hex) -> bool {
    &&& free(t, units, i, h)
    &&& adjacent(units, i, h)
    &&& flow_at(t, units, i, goal, h) is Some
    &&& (flow_at(t, units, i, goal, units[i].pos) is None || flow_at(t, units, i, goal, h)->0 < flow_at(
        t,
        units,
        i,
        goal,
        units[i].pos,
    )->0)
}

/// The ranking of a routed step onto `h`.
pub open spec fn routed_key(t: Terrain, units: Seq<Combatant>, i: int, goal: Hex, flank: bool, h: Hex) -> (int, int, int, int, int, int) {
    close_key(t, goal, flank, flow_at(t, units, i, goal, h)->0, h)
}

/// On a zoned board a closing step follows the flow field: among free neighbours that are
/// strictly fewer steps from the goal than the unit's own hex, the one with the fewest
/// (then by [`close_key`]); none ⇒ stay.
pub open spec fn routed_step(t: Terrain, units: Seq<Combatant>, i: int, goal: Hex, flank: bool, next: Hex) -> bool {
    if exists|h: Hex| #[trigger] routed_cand(t, units, i, goal, h) {
        &&& routed_cand(t, units, i, goal, next)
        &&& forall|h: Hex| #[trigger] routed_cand(t, units, i, goal, h) ==> !lex6_lt(
            routed_key(t, units, i, goal, flank, h),
            routed_key(t, units, i, goal, flank, next),
        )
    } else {
        next == units[i].pos
    }
}

/// The closing step of unit `i` toward `goal`: greedy on the open plane, along the flow
/// field on a zoned board.
pub open spec fn closes(t: Terrain, units: Seq<Combatant>, i: int, goal: Hex, flank: bool, next: Hex) -> bool {
    if t.zone_spec() is None {
        plane_step(t, units, i, goal, flank, next)
    } else {
        routed_step(t, units, i, goal, flank, next)
    }
}

fn close_key_exec(t: &Terrain, goal: Hex, flank: bool, progress: i128, h: Hex) -> (k: (i128, i128, i128, i128, i128, i128))
    ensures
        (k.0 as int, k.1 as int, k.2 as int, k.3 as int, k.4 as int, k.5 as int) == close_key(*t, goal, flank, progress as int, h),
{
    let burn: i128 = if t.is_hazard(h) {
        1
    } else {
        0
    };
    let cover = -(t.cover_tn(h) as i128);
    let lateral: i128 = if flank {
        let dr = h.r as i128 - goal.r as i128;
        if dr < 0 {
            dr
        } else {
            -dr
        }
    } else {
        0
    };
    (progress, burn, cover, lateral, h.q as i128, h.r as i128)
}

/// Is `a` ranked strictly before `b`?
fn lex6_less(a: (i128, i128, i128, i128, i128, i128), b: (i128, i128, i128, i128, i128, i128)) -> (r: bool)
    ensures
        r == lex6_lt(
            (a.0 as int, a.1 as int, a.2 as int, a.3 as int, a.4 as int, a.5 as int),
            (b.0 as int, b.1 as int, b.2 as int, b.3 as int, b.4 as int, b.5 as int),
        ),
{
    a.0 < b.0 || (a.0 == b.0 && (a.1 < b.1 || (a.1 == b.1 && (a.2 < b.2 || (a.2 == b.2 && (a.3 < b.3
        || (a.3 == b.3 && (a.4 < b.4 || (a.4 == b.4 && a.5 < b.5)))))))))
}

/// The strict order on six-component keys is transitive and total.
proof fn lemma_lex6(a: (int, int, int, int, int, int), b: (int, int, int, int, int, int), c: (int, int, int, int, int, int))
    ensures
        lex6_lt(a, b) && lex6_lt(b, c) ==> lex6_lt(a, c),
        !lex6_lt(a, b) && !lex6_lt(b, a) ==> a == b,
        !lex6_lt(a, a),
{
}

/// A **closing step** from unit `i` toward `goal`, routing around blockers and shying
/// from hazards; `flank` prefers the wide approach. See [`closes`].
pub fn close_step(units: &[Combatant], t: &Terrain, i: usize, goal: Hex, flank: bool) -> (next: Hex)
    requires
        i < units@.len(),
        field_ok(units@),
        t.wf(),
        goal.in_play(),
    ensures
        closes(*t, units@, i as int, goal, flank, next),
{
    if t.zone().is_none() {
        plane_close(units, t, i, goal, flank)
    } else {
        routed_close(units, t, i, goal, flank)
    }
}

fn plane_close(units: &[Combatant], t: &Terrain, i: usize, goal: Hex, flank: bool) -> (next: Hex)
    requires
        i < units@.len(),
        field_ok(units@),
        goal.in_play(),
    ensures
        plane_step(*t, units@, i as int, goal, flank, next),
{
    let here = units[i].pos;
    proof {
        lemma_in_play_fits(here, goal);
    }
    let ns = here.neighbors();
    let ghost li = i as int;
    let ghost gu = units@;
    let mut best = here;
    let mut bk = close_key_exec(t, goal, flank, here.distance(goal) as i128, here);
    let mut e: usize = 0;
    while e < 6
        invariant
            0 <= e <= 6,
            i < units@.len(),
            li == i,
            gu == units@,
            here == units@[li].pos,
            here.in_play(),
            goal.in_play(),
            here.around_ok(goal),
            forall|x: int| 0 <= x < 6 ==> #[trigger] ns@[x] == here.nbr(x),
            plane_cand(*t, gu, li, best),
            (bk.0 as int, bk.1 as int, bk.2 as int, bk.3 as int, bk.4 as int, bk.5 as int) == close_key(*t, goal, flank, best.dist(goal), best),
            !lex6_lt(close_key(*t, goal, flank, here.dist(goal), here), close_key(*t, goal, flank, best.dist(goal), best)),
            forall|x: int|
                0 <= x < e && #[trigger] free(*t, gu, li, here.nbr(x)) ==> !lex6_lt(
                    close_key(*t, goal, flank, here.nbr(x).dist(goal), here.nbr(x)),
                    close_key(*t, goal, flank, best.dist(goal), best),
                ),
        decreases 6 - e,
    {
        let h = ns[e];
        if t.passable(h) && !occupied_by_other(units, i, h) {
            let k = close_key_exec(t, goal, flank, h.distance(goal) as i128, h);
            if lex6_less(k, bk) {
                proof {
                    let kb = close_key(*t, goal, flank, best.dist(goal), best);
                    let kh = close_key(*t, goal, flank, h.dist(goal), h);
                    assert forall|x: int|
                        0 <= x < e && #[trigger] free(*t, gu, li, here.nbr(x)) implies !lex6_lt(
                        close_key(*t, goal, flank, here.nbr(x).dist(goal), here.nbr(x)),
                        kh,
                    ) by {
                        lemma_lex6(close_key(*t, goal, flank, here.nbr(x).dist(goal), here.nbr(x)), kb, kh);
                        lemma_lex6(kh, kb, close_key(*t, goal, flank, here.nbr(x).dist(goal), here.nbr(x)));
                    }
                    lemma_lex6(close_key(*t, goal, flank, here.dist(goal), here), kb, kh);
                    lemma_lex6(kh, kb, close_key(*t, goal, flank, here.dist(goal), here));
                    assert(adjacent(gu, li, h)) by {
                        assert(here.nbr(e as int) == h);
                    }
                }
                best = h;
                bk = k;
            }
        }
        e += 1;
    }
    proof {
        assert forall|h: Hex| #[trigger] plane_cand(*t, gu, li, h) implies !lex6_lt(
            close_key(*t, goal, flank, h.dist(goal), h),
            close_key(*t, goal, flank, best.dist(goal), best),
        ) by {
            if h != here {
                let x = choose|x: int| 0 <= x < 6 && #[trigger] here.nbr(x) == h;
                assert(free(*t, gu, li, here.nbr(x)));
            }
        }
    }
    best
}

fn routed_close(units: &[Combatant], t: &Terrain, i: usize, goal: Hex, flank: bool) -> (next: Hex)
    requires
        i < units@.len(),
        field_ok(units@),
        t.wf(),
        t.zone_spec() is Some,
        goal.in_play(),
    ensures
        routed_step(*t, units@, i as int, goal, flank, next),
{
    let here = units[i].pos;
    proof {
        lemma_in_play_fits(here, goal);
    }
    let ns = here.neighbors();
    let field = flow_field(units, t, i, goal);
    let ghost gt = *t;
    let ghost gu = units@;
    let ghost li = i as int;
    let here_d = flow_lookup(&field, here, Ghost(gt), Ghost(gu), Ghost(li), Ghost(goal));
    let mut best: Option<(Hex, (i128, i128, i128, i128, i128, i128))> = None;
    let mut e: usize = 0;
    while e < 6
        invariant
            0 <= e <= 6,
            i < units@.len(),
            li == i,
            gt == *t,
            gu == units@,
            here == units@[li].pos,
            forall|x: int| 0 <= x < 6 ==> #[trigger] ns@[x] == here.nbr(x),
            forall|k: int|
                0 <= k < field@.len() ==> flows(gt, gu, li, goal, (#[trigger] field@[k]).0, field@[k].1 as int),
            forall|x: Hex, k: nat| #[trigger] layer(gt, gu, li, goal, k).contains(x) ==> has_key(field@, x),
            match here_d {
                Some(d) => flow_at(gt, gu, li, goal, here) == Some(d as int),
                None => flow_at(gt, gu, li, goal, here) is None,
            },
            match best {
                Some((b, bk)) => {
                    &&& routed_cand(gt, gu, li, goal, b)
                    &&& (bk.0 as int, bk.1 as int, bk.2 as int, bk.3 as int, bk.4 as int, bk.5 as int) == routed_key(gt, gu, li, goal, flank, b)
                    &&& forall|x: int|
                        0 <= x < e && #[trigger] routed_cand(gt, gu, li, goal, here.nbr(x)) ==> !lex6_lt(
                            routed_key(gt, gu, li, goal, flank, here.nbr(x)),
                            routed_key(gt, gu, li, goal, flank, b),
                        )
                },
                None => forall|x: int| 0 <= x < e ==> !#[trigger] routed_cand(gt, gu, li, goal, here.nbr(x)),
            },
        decreases 6 - e,
    {
        let h = ns[e];
        if t.passable(h) && !occupied_by_other(units, i, h) {
            let d = flow_lookup(&field, h, Ghost(gt), Ghost(gu), Ghost(li), Ghost(goal));
            if let Some(dh) = d {
                let closer = match here_d {
                    None => true,
                    Some(hd) => dh < hd,
                };
                if closer {
                    proof {
                        assert(adjacent(gu, li, h)) by {
                            assert(here.nbr(e as int) == h);
                        }
                        assert(routed_cand(gt, gu, li, goal, h));
                    }
                    let k = close_key_exec(t, goal, flank, dh as i128, h);
                    let take = match best {
                        None => true,
                        Some((_, bk)) => lex6_less(k, bk),
                    };
                    if take {
                        proof {
                            if let Some((b, bk)) = best {
                                let kb = routed_key(gt, gu, li, goal, flank, b);
                                let kh = routed_key(gt, gu, li, goal, flank, h);
                                assert forall|x: int|
                                    0 <= x < e && #[trigger] routed_cand(gt, gu, li, goal, here.nbr(x)) implies !lex6_lt(
                                    routed_key(gt, gu, li, goal, flank, here.nbr(x)),
                                    kh,
                                ) by {
                                    lemma_lex6(routed_key(gt, gu, li, goal, flank, here.nbr(x)), kb, kh);
                                }
                            }
                        }
                        best = Some((h, k));
                    }
                } else {
                    proof {
                        assert(!routed_cand(gt, gu, li, goal, h));
                    }
                }
            } else {
                proof {
                    assert(!routed_cand(gt, gu, li, goal, h));
                }
            }
        } else {
            proof {
                assert(!free(gt, gu, li, h));
            }
        }
        e += 1;
    }
    match best {
        Some((b, _)) => {
            proof {
                assert forall|h: Hex| #[trigger] routed_cand(gt, gu, li, goal, h) implies !lex6_lt(
                    routed_key(gt, gu, li, goal, flank, h),
                    routed_key(gt, gu, li, goal, flank, b),
                ) by {
                    let x = choose|x: int| 0 <= x < 6 && #[trigger] here.nbr(x) == h;
                    assert(routed_cand(gt, gu, li, goal, here.nbr(x)));
                }
            }
            b
        },
        None => {
            proof {
                assert forall|h: Hex| !#[trigger] routed_cand(gt, gu, li, goal, h) by {
                    if routed_cand(gt, gu, li, goal, h) {
                        let x = choose|x: int| 0 <= x < 6 && #[trigger] here.nbr(x) == h;
                        assert(routed_cand(gt, gu, li, goal, here.nbr(x)));
                    }
                }
            }
            here
        },
    }
}

/// The unit `first_least` picks is unique.
proof fn lemma_first_least_unique(
    n: int,
    ok: spec_fn(int) -> bool,
    key: spec_fn(int) -> (int, int),
    j1: int,
    j2: int,
)
    requires
        first_least(n, ok, key, j1),
        first_least(n, ok, key, j2),
    ensures
        j1 == j2,
{
    if j1 < j2 {
        assert(ok(j1));
        assert(lex2_lt(key(j2), key(j1)));
    } else if j2 < j1 {
        assert(ok(j2));
        assert(lex2_lt(key(j1), key(j2)));
    }
}

/// The nearest living enemy (`rivals`) or ally of `i`, as [`nearest_enemy`] and
/// [`nearest_ally`] find it.
pub open spec fn nearest_of(units: Seq<Combatant>, i: int, rivals: bool) -> Option<int> {
    let ok = |k: int| kin(units, i, rivals, k);
    let key = |k: int| near_key(units, i, k);
    if exists|j: int| first_least(units.len() as int, ok, key, j) {
        Some(choose|j: int| first_least(units.len() as int, ok, key, j))
    } else {
        None
    }
}

/// The ranking of a retreat step onto `h` away from `from`, greatest first: farther,
/// then off hazards, then lower `q`, then lower `r`.
pub open spec fn away_key(t: Terrain, from: Hex, h: Hex) -> (int, int, int, int) {
    (h.dist(from), if t.ground(h) is Hazard { -1 } else { 0 }, -(h.q as int), -(h.r as int))
}

/// Unit `i` backs away from `from`: of staying and its free neighbours, the step
/// [`away_key`] ranks greatest.
pub open spec fn backs_off(t: Terrain, units: Seq<Combatant>, i: int, from: Hex, next: Hex) -> bool {
    &&& plane_cand(t, units, i, next)
    &&& forall|h: Hex| #[trigger] plane_cand(t, units, i, h) ==> !crate::hex::lex4_lt(away_key(t, from, next), away_key(t, from, h))
}

/// The step unit `i`'s **movement profile** wants this activation, chasing `target`:
/// `Hold` stays; `Advance` / `Flank` close on the target; `Swarm` closes on the nearest
/// enemy; `Kite` holds its weapon's standoff range from the nearest enemy (closing when
/// out of range, backing off when crowded); `Disperse` moves away from the nearest ally.
pub open spec fn wanted_step(t: Terrain, units: Seq<Combatant>, i: int, target: int, next: Hex) -> bool {
    let here = units[i].pos;
    match units[i].movement {
        MovementProfile::Hold => next == here,
        MovementProfile::Advance => closes(t, units, i, units[target].pos, false, next),
        MovementProfile::Flank => closes(t, units, i, units[target].pos, true, next),
        MovementProfile::Swarm => match nearest_of(units, i, true) {
            Some(e) => closes(t, units, i, units[e].pos, false, next),
            None => next == here,
        },
        MovementProfile::Kite => match nearest_of(units, i, true) {
            Some(e) => {
                let ep = units[e].pos;
                let opt = standoff(units[i]);
                if here.dist(ep) > opt {
                    closes(t, units, i, ep, false, next)
                } else if here.dist(ep) < opt {
                    backs_off(t, units, i, ep, next)
                } else {
                    next == here
                }
            },
            None => next == here,
        },
        MovementProfile::Disperse => match nearest_of(units, i, false) {
            Some(a) => backs_off(t, units, i, units[a].pos, next),
            None => next == here,
        },
    }
}

/// The strict order on four-component keys composes with its complement.
proof fn lemma_lex4(a: (int, int, int, int), b: (int, int, int, int), c: (int, int, int, int))
    ensures
        !crate::hex::lex4_lt(a, b) && !crate::hex::lex4_lt(b, c) ==> !crate::hex::lex4_lt(a, c),
        !crate::hex::lex4_lt(a, b) && !crate::hex::lex4_lt(b, a) ==> a == b,
{
}

/// Unit `i` backs away from `from` (see [`backs_off`]).
fn back_off(units: &[Combatant], t: &Terrain, i: usize, from: Hex) -> (next: Hex)
    requires
        i < units@.len(),
        field_ok(units@),
        from.in_play(),
    ensures
        backs_off(*t, units@, i as int, from, next),
{
    let here = units[i].pos;
    proof {
        lemma_in_play_fits(here, from);
    }
    let ns = here.neighbors();
    let ghost gu = units@;
    let ghost li = i as int;
    let mut best = here;
    let mut bk: (i32, i32, i32, i32) = (
        here.distance(from),
        if t.is_hazard(here) {
            -1
        } else {
            0
        },
        -here.q,
        -here.r,
    );
    let mut e: usize = 0;
    while e < 6
        invariant
            0 <= e <= 6,
            i < units@.len(),
            li == i,
            gu == units@,
            here == units@[li].pos,
            here.in_play(),
            from.in_play(),
            here.around_ok(from),
            forall|x: int| 0 <= x < 6 ==> #[trigger] ns@[x] == here.nbr(x),
            plane_cand(*t, gu, li, best),
            (bk.0 as int, bk.1 as int, bk.2 as int, bk.3 as int) == away_key(*t, from, best),
            !crate::hex::lex4_lt(away_key(*t, from, best), away_key(*t, from, here)),
            forall|x: int|
                0 <= x < e && #[trigger] free(*t, gu, li, here.nbr(x)) ==> !crate::hex::lex4_lt(
                    away_key(*t, from, best),
                    away_key(*t, from, here.nbr(x)),
                ),
        decreases 6 - e,
    {
        let h = ns[e];
        if t.passable(h) && !occupied_by_other(units, i, h) {
            let k: (i32, i32, i32, i32) = (
                h.distance(from),
                if t.is_hazard(h) {
                    -1
                } else {
                    0
                },
                -h.q,
                -h.r,
            );
            let ahead = k.0 > bk.0 || (k.0 == bk.0 && (k.1 > bk.1 || (k.1 == bk.1 && (k.2 > bk.2 || (
            k.2 == bk.2 && k.3 >= bk.3)))));
            if ahead {
                proof {
                    assert(adjacent(gu, li, h)) by {
                        assert(here.nbr(e as int) == h);
                    }
                    let kb = away_key(*t, from, best);
                    let kh = away_key(*t, from, h);
                    assert(!crate::hex::lex4_lt(kh, kb));
                    assert forall|x: int|
                        0 <= x < e && #[trigger] free(*t, gu, li, here.nbr(x)) implies !crate::hex::lex4_lt(
                        kh,
                        away_key(*t, from, here.nbr(x)),
                    ) by {
                        lemma_lex4(kh, kb, away_key(*t, from, here.nbr(x)));
                    }
                    lemma_lex4(kh, kb, away_key(*t, from, here));
                }
                best = h;
                bk = k;
            } else {
                proof {
                    assert(crate::hex::lex4_lt(away_key(*t, from, h), away_key(*t, from, best)));
                }
            }
        }
        e += 1;
    }
    proof {
        assert forall|h: Hex| #[trigger] plane_cand(*t, gu, li, h) implies !crate::hex::lex4_lt(
            away_key(*t, from, best),
            away_key(*t, from, h),
        ) by {
            if h != here {
                let x = choose|x: int| 0 <= x < 6 && #[trigger] here.nbr(x) == h;
                assert(free(*t, gu, li, here.nbr(x)));
            }
        }
    }
    best
}

/// The nearest living enemy / ally as [`nearest_of`] describes it.
fn nearest_spec_exec(units: &[Combatant], i: usize, rivals: bool) -> (r: Option<usize>)
    requires
        i < units@.len(),
        field_ok(units@),
    ensures
        match r {
            Some(j) => nearest_of(units@, i as int, rivals) == Some(j as int) && j < units@.len(),
            None => nearest_of(units@, i as int, rivals) is None,
        },
{
    let r = nearest_where(units, i, rivals);
    proof {
        let ok = |k: int| kin(units@, i as int, rivals, k);
        let key = |k: int| near_key(units@, i as int, k);
        match r {
            Some(j) => {
                let c = choose|c: int| first_least(units@.len() as int, ok, key, c);
                lemma_first_least_unique(units@.len() as int, ok, key, c, j as int);
            },
            None => {
                if exists|j: int| first_least(units@.len() as int, ok, key, j) {
                    let c = choose|c: int| first_least(units@.len() as int, ok, key, c);
                    assert(ok(c));
                }
            },
        }
    }
    r
}

/// One step for unit `i` toward what its **movement profile** wants, chasing `target`,
/// routed only through passable, free hexes. Returns `i`'s own hex when it is at its goal
/// or boxed in. See [`wanted_step`].
pub fn movement_step(units: &[Combatant], t: &Terrain, i: usize, target: usize) -> (next: Hex)
    requires
        i < units@.len(),
        target < units@.len(),
        field_ok(units@),
        t.wf(),
    ensures
        wanted_step(*t, units@, i as int, target as int, next),
{
    let here = units[i].pos;
    match units[i].movement {
        MovementProfile::Hold => here,
        MovementProfile::Advance => close_step(units, t, i, units[target].pos, false),
        MovementProfile::Flank => close_step(units, t, i, units[target].pos, true),
        MovementProfile::Swarm => match nearest_spec_exec(units, i, true) {
            Some(e) => close_step(units, t, i, units[e].pos, false),
            None => here,
        },
        MovementProfile::Kite => match nearest_spec_exec(units, i, true) {
            Some(e) => {
                let ep = units[e].pos;
                let opt = max_weapon_range(&units[i]);
                proof {
                    lemma_in_play_fits(here, ep);
                }
                let d = here.distance(ep);
                if d > opt {
                    close_step(units, t, i, ep, false)
                } else if d < opt {
                    back_off(units, t, i, ep)
                } else {
                    here
                }
            },
            None => here,
        },
        MovementProfile::Disperse => match nearest_spec_exec(units, i, false) {
            Some(a) => back_off(units, t, i, units[a].pos),
            None => here,
        },
    }
}

/// A closing step is determined: at most one hex satisfies [`closes`].
pub proof fn lemma_closes_unique(t: Terrain, units: Seq<Combatant>, i: int, goal: Hex, flank: bool, n1: Hex, n2: Hex)
    requires
        closes(t, units, i, goal, flank, n1),
        closes(t, units, i, goal, flank, n2),
    ensures
        n1 == n2,
{
    if t.zone_spec() is None {
        assert(plane_cand(t, units, i, n2));
        assert(plane_cand(t, units, i, n1));
        lemma_lex6(close_key(t, goal, flank, n1.dist(goal), n1), close_key(t, goal, flank, n2.dist(goal), n2), close_key(t, goal, flank, n1.dist(goal), n1));
    } else if exists|h: Hex| #[trigger] routed_cand(t, units, i, goal, h) {
        assert(routed_cand(t, units, i, goal, n2));
        assert(routed_cand(t, units, i, goal, n1));
        lemma_lex6(routed_key(t, units, i, goal, flank, n1), routed_key(t, units, i, goal, flank, n2), routed_key(t, units, i, goal, flank, n1));
    }
}

/// A retreat step is determined.
proof fn lemma_backs_off_unique(t: Terrain, units: Seq<Combatant>, i: int, from: Hex, n1: Hex, n2: Hex)
    requires
        backs_off(t, units, i, from, n1),
        backs_off(t, units, i, from, n2),
    ensures
        n1 == n2,
{
    assert(plane_cand(t, units, i, n2));
    assert(plane_cand(t, units, i, n1));
    lemma_lex4(away_key(t, from, n1), away_key(t, from, n2), away_key(t, from, n1));
}

/// The step a movement profile wants is determined.
pub proof fn lemma_wanted_step_unique(t: Terrain, units: Seq<Combatant>, i: int, target: int, n1: Hex, n2: Hex)
    requires
        wanted_step(t, units, i, target, n1),
        wanted_step(t, units, i, target, n2),
    ensures
        n1 == n2,
{
    let here = units[i].pos;
    match units[i].movement {
        MovementProfile::Hold => {},
        MovementProfile::Advance => lemma_closes_unique(t, units, i, units[target].pos, false, n1, n2),
        MovementProfile::Flank => lemma_closes_unique(t, units, i, units[target].pos, true, n1, n2),
        MovementProfile::Swarm => {
            if let Some(e) = nearest_of(units, i, true) {
                lemma_closes_unique(t, units, i, units[e].pos, false, n1, n2);
            }
        },
        MovementProfile::Kite => {
            if let Some(e) = nearest_of(units, i, true) {
                let ep = units[e].pos;
                let opt = standoff(units[i]);
                if here.dist(ep) > opt {
                    lemma_closes_unique(t, units, i, ep, false, n1, n2);
                } else if here.dist(ep) < opt {
                    lemma_backs_off_unique(t, units, i, ep, n1, n2);
                }
            }
        },
        MovementProfile::Disperse => {
            if let Some(a) = nearest_of(units, i, false) {
                lemma_backs_off_unique(t, units, i, units[a].pos, n1, n2);
            }
        },
    }
}

/// Do the `Advance` / `Flank` / `Swarm` profiles drive this unit forward — and so halt at
/// standoff once a weapon reaches?
pub open spec fn closing(m: MovementProfile) -> bool {
    m is Advance || m is Flank || m is Swarm
}

/// Is `b` a neighbour of `a`?
pub open spec fn steps_to(a: Hex, b: Hex) -> bool {
    exists|e: int| 0 <= e < 6 && #[trigger] a.nbr(e) == b
}

/// The field after unit `i` steps onto `h`.
pub open spec fn moved_to(units: Seq<Combatant>, i: int, h: Hex) -> Seq<Combatant> {
    units.update(i, Combatant { pos: h, ..units[i] })
}

/// `h` lies within `room` hexes of the battlefield's edge on both axes.
pub open spec fn roomy(h: Hex, room: int) -> bool {
    -0x0FFF_FFF0 + room <= h.q <= 0x0FFF_FFF0 - room && -0x0FFF_FFF0 + room <= h.r <= 0x0FFF_FFF0 - room
}

/// The next step of unit `i`'s move, if it takes one: toward the `objective` hex when it
/// is seeking one (stopping on it), else per its movement profile chasing `enemy`
/// (a closing profile stops once a weapon reaches); with neither, it stays.
pub open spec fn next_move(
    t: Terrain,
    board: Board,
    units: Seq<Combatant>,
    i: int,
    enemy: Option<int>,
    objective: Option<Hex>,
) -> Option<Hex> {
    let here = units[i].pos;
    match objective {
        Some(goal) => if here == goal {
            None
        } else {
            Some(choose|n: Hex| closes(t, units, i, goal, false, n))
        },
        None => match enemy {
            Some(tg) => if closing(units[i].movement) && covers(units[i], engagement(board, here, units[tg].pos)) {
                None
            } else {
                Some(choose|n: Hex| wanted_step(t, units, i, tg, n))
            },
            None => None,
        },
    }
}

/// The hexes unit `i` walks through this activation on a movement `budget`: it keeps
/// stepping per [`next_move`] while the step goes somewhere and its cost
/// ([`crate::terrain::cost_to_enter`]) is affordable — the soft zone edge prices a unit out
/// of pushing far past it.
pub open spec fn trek(
    t: Terrain,
    board: Board,
    units: Seq<Combatant>,
    i: int,
    enemy: Option<int>,
    objective: Option<Hex>,
    budget: int,
) -> Seq<Hex>
    decreases budget,
{
    if budget < 0 {
        Seq::empty()
    } else {
        match next_move(t, board, units, i, enemy, objective) {
            None => Seq::empty(),
            Some(n) => {
                let cost = crate::terrain::cost_to_enter(t.zone_spec(), n);
                if n == units[i].pos || cost > budget || cost < 1 {
                    Seq::empty()
                } else {
                    seq![n] + trek(t, board, moved_to(units, i, n), i, enemy, objective, budget - cost)
                }
            },
        }
    }
}

/// A step stays put or moves to a neighbour.
proof fn lemma_step_is_local(t: Terrain, units: Seq<Combatant>, i: int, target: int, goal: Hex, n: Hex, wanted: bool)
    requires
        wanted ==> wanted_step(t, units, i, target, n),
        !wanted ==> closes(t, units, i, goal, false, n),
    ensures
        n == units[i].pos || (adjacent(units, i, n) && free(t, units, i, n)),
{
    if wanted {
        match units[i].movement {
            MovementProfile::Hold => {},
            MovementProfile::Advance => {},
            MovementProfile::Flank => {},
            MovementProfile::Swarm => {},
            MovementProfile::Kite => {},
            MovementProfile::Disperse => {},
        }
    }
}

/// Unit `i`'s **move** this activation on a budget of its speed: chase the `objective` hex
/// when seeking one, else follow the movement profile toward `enemy`, spending each
/// step's movement cost, until it arrives, a weapon reaches (closing profiles), it is
/// boxed in, or the next step is unaffordable. Returns the hexes entered, in order; the
/// unit ends on the last of them.
pub fn advance(
    units: &mut Vec<Combatant>,
    t: &Terrain,
    board: Board,
    i: usize,
    enemy: Option<usize>,
    objective: Option<Hex>,
) -> (path: Vec<Hex>)
    requires
        i < old(units)@.len(),
        field_ok(old(units)@),
        t.wf(),
        enemy matches Some(e) ==> e < old(units)@.len(),
        objective matches Some(g) ==> g.in_play(),
        roomy(old(units)@[i as int].pos, if old(units)@[i as int].speed > 0 { old(units)@[i as int].speed as int } else { 0 }),
    ensures
        path@ == trek(
            *t,
            board,
            old(units)@,
            i as int,
            match enemy {
                Some(e) => Some(e as int),
                None => None,
            },
            objective,
            if old(units)@[i as int].speed > 0 { old(units)@[i as int].speed as int } else { 0 },
        ),
        final(units)@ == if path@.len() == 0 {
            old(units)@
        } else {
            moved_to(old(units)@, i as int, path@.last())
        },
        forall|k: int| 0 <= k < path@.len() ==> free(*t, old(units)@, i as int, #[trigger] path@[k]),
        path@.len() > 0 ==> adjacent(old(units)@, i as int, path@[0]),
        forall|k: int| 0 < k < path@.len() ==> steps_to(path@[k - 1], #[trigger] path@[k]),
        path@.len() <= if old(units)@[i as int].speed > 0 { old(units)@[i as int].speed as int } else { 0 },
{
    let ghost orig = units@;
    let ghost en = match enemy {
        Some(e) => Some(e as int),
        None => None,
    };
    let ghost li = i as int;
    let mut budget: i32 = if units[i].speed > 0 {
        units[i].speed
    } else {
        0
    };
    let ghost b0 = budget as int;
    let closing_profile = matches!(units[i].movement, MovementProfile::Advance | MovementProfile::Flank | MovementProfile::Swarm);
    let mut path: Vec<Hex> = Vec::new();
    proof {
        assert(moved_to(orig, li, orig[li].pos) =~= orig);
    }
    loop
        invariant
            li == i,
            i < units@.len(),
            units@.len() == orig.len(),
            field_ok(units@),
            t.wf(),
            enemy matches Some(e) ==> e < units@.len(),
            en == match enemy {
                Some(e) => Some(e as int),
                None => None,
            },
            objective matches Some(g) ==> g.in_play(),
            closing_profile == closing(units@[li].movement),
            units@ == moved_to(orig, li, units@[li].pos),
            units@[li].movement == orig[li].movement,
            0 <= budget,
            roomy(units@[li].pos, budget as int),
            path@ + trek(*t, board, units@, li, en, objective, budget as int) == trek(*t, board, orig, li, en, objective, b0),
            path@.len() == 0 ==> units@ == orig,
            path@.len() > 0 ==> units@[li].pos == path@.last(),
            forall|k: int| 0 <= k < path@.len() ==> free(*t, orig, li, #[trigger] path@[k]),
            path@.len() > 0 ==> adjacent(orig, li, path@[0]),
            forall|k: int| 0 < k < path@.len() ==> steps_to(path@[k - 1], #[trigger] path@[k]),
            path@.len() + budget <= b0,
        ensures
            trek(*t, board, units@, li, en, objective, budget as int) == Seq::<Hex>::empty(),
            path@ + trek(*t, board, units@, li, en, objective, budget as int) == trek(*t, board, orig, li, en, objective, b0),
            path@.len() == 0 ==> units@ == orig,
            path@.len() > 0 ==> units@ == moved_to(orig, li, path@.last()),
            forall|k: int| 0 <= k < path@.len() ==> free(*t, orig, li, #[trigger] path@[k]),
            path@.len() > 0 ==> adjacent(orig, li, path@[0]),
            forall|k: int| 0 < k < path@.len() ==> steps_to(path@[k - 1], #[trigger] path@[k]),
            path@.len() <= b0,
        decreases budget,
    {
        let here = units[i].pos;
        let ghost before = units@;
        let next: Hex;
        match objective {
            Some(goal) => {
                if here == goal {
                    break;
                }
                next = close_step(units.as_slice(), t, i, goal, false);
                proof {
                    lemma_step_is_local(*t, before, li, 0, goal, next, false);
                    let c = choose|n: Hex| closes(*t, before, li, goal, false, n);
                    lemma_closes_unique(*t, before, li, goal, false, c, next);
                }
            },
            None => match enemy {
                Some(tg) => {
                    if closing_profile && armed_at(&units[i], reach(board, units.as_slice(), i, tg)) {
                        break;
                    }
                    next = movement_step(units.as_slice(), t, i, tg);
                    proof {
                        lemma_step_is_local(*t, before, li, tg as int, here, next, true);
                        let c = choose|n: Hex| wanted_step(*t, before, li, tg as int, n);
                        lemma_wanted_step_unique(*t, before, li, tg as int, c, next);
                    }
                },
                None => {
                    break;
                },
            },
        }
        assert(next_move(*t, board, before, li, en, objective) == Some(next));
        if next == here {
            break;
        }
        proof {
            assert(-0x0FFF_FFF1 <= next.q <= 0x0FFF_FFF1 && -0x0FFF_FFF1 <= next.r <= 0x0FFF_FFF1) by {
                if next != here {
                    let e = choose|e: int| 0 <= e < 6 && #[trigger] here.nbr(e) == next;
                }
            }
            lemma_zone_fits(*t, next);
            crate::terrain::lemma_friction_is_soft(t.zone_spec(), next);
        }
        let cost = t.move_cost(next);
        if cost > budget {
            break;
        }
        proof {
            assert(next.in_play()) by {
                if next != here {
                    let e = choose|e: int| 0 <= e < 6 && #[trigger] here.nbr(e) == next;
                }
            }
        }
        let ghost old_path = path@;
        proof {
            assert(free(*t, orig, li, next)) by {
                assert(free(*t, before, li, next));
                assert forall|j: int| 0 <= j < before.len() && j != li implies before[j] == orig[j] by {}
                if taken(orig, li, next) {
                    let j = choose|j: int| 0 <= j < orig.len() && j != li && #[trigger] orig[j].alive && orig[j].pos == next;
                    assert(before[j] == orig[j]);
                }
            }
            if old_path.len() == 0 {
                assert(adjacent(orig, li, next));
            } else {
                let e = choose|e: int| 0 <= e < 6 && #[trigger] here.nbr(e) == next;
                assert(old_path.last().nbr(e) == next);
            }
        }
        budget = budget - cost;
        let c = units.remove(i);
        units.insert(i, Combatant { pos: next, ..c });
        path.push(next);
        proof {
            assert(units@ =~= moved_to(before, li, next));
            assert(moved_to(before, li, next) =~= moved_to(orig, li, next));
            assert(trek(*t, board, before, li, en, objective, budget + cost) == seq![next] + trek(*t, board, units@, li, en, objective, budget as int));
            assert(path@ == old_path.push(next));
            assert forall|k: int| 0 < k < path@.len() implies steps_to(path@[k - 1], #[trigger] path@[k]) by {
                if k < old_path.len() {
                    assert(path@[k - 1] == old_path[k - 1] && path@[k] == old_path[k]);
                } else {
                    assert(path@[k - 1] == old_path.last());
                    let e = choose|e: int| 0 <= e < 6 && #[trigger] here.nbr(e) == next;
                    assert(path@[k - 1].nbr(e) == path@[k]);
                }
            }
            assert(old_path.push(next) + trek(*t, board, units@, li, en, objective, budget as int) =~= old_path + (seq![next] + trek(*t, board, units@, li, en, objective, budget as int)));
            assert(roomy(next, budget as int)) by {
                if next != here {
                    let e = choose|e: int| 0 <= e < 6 && #[trigger] here.nbr(e) == next;
                }
            }
            assert forall|k: int| 0 <= k < units@.len() implies (#[trigger] units@[k]).pos.in_play() by {
                if k != li {
                    assert(units@[k] == before[k]);
                }
            }
        }
    }
    proof {
        assert(path@ + Seq::<Hex>::empty() =~= path@);
    }
    path
}

/// The distance from `pos` to the nearest of the (non-empty) `foci`.
pub open spec fn focus_dist(pos: Hex, foci: Seq<Hex>) -> int
    decreases foci.len(),
{
    if foci.len() <= 1 {
        pos.dist(foci[0])
    } else {
        let rest = focus_dist(pos, foci.drop_last());
        let last = pos.dist(foci.last());
        if last < rest {
            last
        } else {
            rest
        }
    }
}

/// Is `j` a living member of the player's squad?
pub open spec fn squad(units: Seq<Combatant>, j: int) -> bool {
    units[j].alive && units[j].team == Team::A
}

/// How many of the first `n` units are living squad members.
pub open spec fn squad_count(units: Seq<Combatant>, n: int) -> int
    decreases n,
{
    if n <= 0 {
        0
    } else {
        squad_count(units, n - 1) + if squad(units, n - 1) {
            1int
        } else {
            0
        }
    }
}

/// The seeking order of squad member `j`: nearer any focus first, then lower id, then
/// lower index.
pub open spec fn seek_key(units: Seq<Combatant>, foci: Seq<Hex>, j: int) -> (int, int, int) {
    (focus_dist(units[j].pos, foci), units[j].id as int, j)
}

/// How many of the first `n` units are squad members ahead of `j` in the seeking order.
pub open spec fn ahead_of(units: Seq<Combatant>, foci: Seq<Hex>, n: int, j: int) -> int
    decreases n,
{
    if n <= 0 {
        0
    } else {
        ahead_of(units, foci, n - 1, j) + if squad(units, n - 1) && lex3_lt(
            seek_key(units, foci, n - 1),
            seek_key(units, foci, j),
        ) {
            1int
        } else {
            0
        }
    }
}

/// How many squad members peel off for the objective: `pct` percent of the live squad,
/// `round(pct / 100 × size)` in single precision (see [`rounded_share`]), taken as a
/// `usize` (saturating), at least one.
pub open spec fn quota(pct: int, size: int) -> int {
    let r = rounded_share(pct as nat, size as nat);
    let n = if r > usize::MAX {
        usize::MAX as int
    } else {
        r as int
    };
    if n < 1 {
        1
    } else {
        n
    }
}

/// Is `j` one of the objective's **seekers** — among the `quota` squad members nearest any
/// focus (id, then index, breaking ties)?
pub open spec fn seeker(units: Seq<Combatant>, foci: Seq<Hex>, pct: int, j: int) -> bool {
    squad(units, j) && ahead_of(units, foci, units.len() as int, j) < quota(pct, squad_count(units, units.len() as int))
}

/// The seekers among the first `n` units, in index order.
pub open spec fn seekers_upto(units: Seq<Combatant>, foci: Seq<Hex>, pct: int, n: int) -> Seq<int>
    decreases n,
{
    if n <= 0 {
        Seq::empty()
    } else if seeker(units, foci, pct, n - 1) {
        seekers_upto(units, foci, pct, n - 1).push(n - 1)
    } else {
        seekers_upto(units, foci, pct, n - 1)
    }
}

/// How a free seeker `j` ranks for claiming `focus`, least first: nearer the focus, then
/// lower id, then earlier in the seeking order.
pub open spec fn claim_key(units: Seq<Combatant>, foci: Seq<Hex>, focus: Hex, j: int) -> (int, int, int, int) {
    (units[j].pos.dist(focus), units[j].id as int, focus_dist(units[j].pos, foci), j)
}

/// Is `p` the position in `free` of the seeker that claims `focus`?
pub open spec fn claims(units: Seq<Combatant>, foci: Seq<Hex>, focus: Hex, free: Seq<int>, p: int) -> bool {
    &&& 0 <= p < free.len()
    &&& forall|q: int|
        0 <= q < free.len() ==> !crate::hex::lex4_lt(
            #[trigger] claim_key(units, foci, focus, free[q]),
            claim_key(units, foci, focus, free[p]),
        )
}

/// Fanning seekers out across the foci: in turn, each focus (cycling) claims its best free
/// seeker; the focus `i` is claimed by, if any.
pub open spec fn assign(units: Seq<Combatant>, foci: Seq<Hex>, free: Seq<int>, f: nat, i: int) -> Option<Hex>
    decreases free.len(),
{
    if free.len() == 0 || foci.len() == 0 {
        None
    } else {
        let focus = foci[(f % foci.len()) as int];
        let p = choose|p: int| claims(units, foci, focus, free, p);
        if 0 <= p < free.len() {
            if free[p] == i {
                Some(focus)
            } else {
                assign(units, foci, free.remove(p), f + 1, i)
            }
        } else {
            None
        }
    }
}

/// Where player unit `i` heads for the objective this activation, if it is one of the
/// seekers: the focus it is assigned in the fan-out. See [`seeker`] and [`assign`].
pub open spec fn seeking(units: Seq<Combatant>, foci: Seq<Hex>, pct: int, i: int) -> Option<Hex> {
    if units[i].team != Team::A || !seeker(units, foci, pct, i) {
        None
    } else {
        assign(units, foci, seekers_upto(units, foci, pct, units.len() as int), 0, i)
    }
}

/// What the seekers list holds: exactly the seekers below `n`, ascending.
proof fn lemma_seekers_upto(units: Seq<Combatant>, foci: Seq<Hex>, pct: int, n: int)
    ensures
        forall|j: int| seekers_upto(units, foci, pct, n).contains(j) <==> (0 <= j < n && seeker(units, foci, pct, j)),
        forall|x: int, y: int|
            0 <= x < y < seekers_upto(units, foci, pct, n).len() ==> (#[trigger] seekers_upto(units, foci, pct, n)[x]) < (
            #[trigger] seekers_upto(units, foci, pct, n)[y]),
        forall|x: int| 0 <= x < seekers_upto(units, foci, pct, n).len() ==> 0 <= #[trigger] seekers_upto(units, foci, pct, n)[x] < n,
        seekers_upto(units, foci, pct, n).len() <= if n > 0 { n } else { 0 },
    decreases n,
{
    if n > 0 {
        lemma_seekers_upto(units, foci, pct, n - 1);
        let prev = seekers_upto(units, foci, pct, n - 1);
        let cur = seekers_upto(units, foci, pct, n);
        assert forall|j: int| cur.contains(j) <==> (0 <= j < n && seeker(units, foci, pct, j)) by {
            if seeker(units, foci, pct, n - 1) {
                assert(cur == prev.push(n - 1));
                if cur.contains(j) {
                    let k = choose|k: int| 0 <= k < cur.len() && cur[k] == j;
                    if k < prev.len() {
                        assert(prev[k] == j);
                    }
                }
                if 0 <= j < n && seeker(units, foci, pct, j) {
                    if j < n - 1 {
                        let k = choose|k: int| 0 <= k < prev.len() && prev[k] == j;
                        assert(cur[k] == j);
                    } else {
                        assert(cur[prev.len() as int] == j);
                    }
                }
            }
        }
    }
}

/// Does `free` hold `i`?
fn seeker_flag(free: &Vec<usize>, i: usize) -> (b: bool)
    ensures
        b == free@.contains(i),
{
    let mut k: usize = 0;
    while k < free.len()
        invariant
            0 <= k <= free@.len(),
            forall|m: int| 0 <= m < k ==> #[trigger] free@[m] != i,
        decreases free@.len() - k,
    {
        if free[k] == i {
            return true;
        }
        k += 1;
    }
    false
}

/// A strictly smaller key stays below everything its predecessor was below.
proof fn lemma_lex4_strict(a: (int, int, int, int), b: (int, int, int, int), c: (int, int, int, int))
    ensures
        crate::hex::lex4_lt(a, b) && !crate::hex::lex4_lt(c, b) ==> !crate::hex::lex4_lt(c, a),
{
}

/// The distance from `pos` to the nearest focus.
fn focus_dist_exec(pos: Hex, foci: &[Hex]) -> (d: i32)
    requires
        foci@.len() > 0,
        pos.in_play(),
        forall|k: int| 0 <= k < foci@.len() ==> (#[trigger] foci@[k]).in_play(),
    ensures
        d == focus_dist(pos, foci@),
{
    proof {
        lemma_in_play_fits(pos, foci@[0]);
        assert(foci@.take(1).len() == 1);
        assert(foci@.take(1)[0] == foci@[0]);
    }
    let mut best = pos.distance(foci[0]);
    let mut k: usize = 1;
    while k < foci.len()
        invariant
            1 <= k <= foci@.len(),
            pos.in_play(),
            forall|m: int| 0 <= m < foci@.len() ==> (#[trigger] foci@[m]).in_play(),
            best == focus_dist(pos, foci@.take(k as int)),
        decreases foci@.len() - k,
    {
        proof {
            lemma_in_play_fits(pos, foci@[k as int]);
            assert(foci@.take(k + 1).drop_last() =~= foci@.take(k as int));
            assert(foci@.take(k + 1).last() == foci@[k as int]);
        }
        let d = pos.distance(foci[k]);
        if d < best {
            best = d;
        }
        k += 1;
    }
    proof {
        assert(foci@.take(foci@.len() as int) =~= foci@);
    }
    best
}

/// The objective hex player unit `i` seeks this activation, given the first unmet
/// positional goal's `foci` and seeker percent `pct`: `Some(focus)` when `i` is among the
/// seekers, with the focus it is assigned as the seekers fan out; `None` otherwise — it
/// keeps fighting. See [`seeking`].
pub fn seeks_objective(units: &[Combatant], i: usize, foci: &[Hex], pct: u32) -> (r: Option<Hex>)
    requires
        i < units@.len(),
        field_ok(units@),
        foci@.len() > 0,
        forall|k: int| 0 <= k < foci@.len() ==> (#[trigger] foci@[k]).in_play(),
    ensures
        r == seeking(units@, foci@, pct as int, i as int),
{
    if units[i].team != Team::A {
        return None;
    }
    let n = units.len();
    // Each unit's distance to the nearest focus.
    let mut near: Vec<i32> = Vec::new();
    let mut size: usize = 0;
    let mut j: usize = 0;
    while j < n
        invariant
            n == units@.len(),
            0 <= j <= n,
            field_ok(units@),
            foci@.len() > 0,
            forall|k: int| 0 <= k < foci@.len() ==> (#[trigger] foci@[k]).in_play(),
            near@.len() == j,
            forall|k: int| 0 <= k < j ==> #[trigger] near@[k] == focus_dist(units@[k].pos, foci@),
            size == squad_count(units@, j as int),
            size <= j,
        decreases n - j,
    {
        near.push(focus_dist_exec(units[j].pos, foci));
        if units[j].alive && units[j].team == Team::A {
            size += 1;
        }
        j += 1;
    }
    let share = single_share(pct, size as u64);
    let capped: u128 = if share > usize::MAX as u128 {
        usize::MAX as u128
    } else {
        share
    };
    let q: u128 = if capped < 1 {
        1
    } else {
        capped
    };
    assert(q as int == quota(pct as int, squad_count(units@, n as int)));
    // The seekers, in index order.
    let mut free: Vec<usize> = Vec::new();
    let mut a: usize = 0;
    while a < n
        invariant
            n == units@.len(),
            0 <= a <= n,
            near@.len() == n,
            forall|k: int| 0 <= k < n ==> #[trigger] near@[k] == focus_dist(units@[k].pos, foci@),
            q as int == quota(pct as int, squad_count(units@, n as int)),
            free@.len() <= a,
            forall|k: int| 0 <= k < free@.len() ==> (#[trigger] free@[k]) < a,
            free@.map_values(|x: usize| x as int) == seekers_upto(units@, foci@, pct as int, a as int),
        decreases n - a,
    {
        let mut ahead: usize = 0;
        let mut b: usize = 0;
        while b < n
            invariant
                n == units@.len(),
                0 <= a < n,
                0 <= b <= n,
                near@.len() == n,
                forall|k: int| 0 <= k < n ==> #[trigger] near@[k] == focus_dist(units@[k].pos, foci@),
                ahead == ahead_of(units@, foci@, b as int, a as int),
                ahead <= b,
            decreases n - b,
        {
            let ub = &units[b];
            let ua = &units[a];
            let before = ub.alive && ub.team == Team::A && (near[b] < near[a] || (near[b] == near[a] && (ub.id
                < ua.id || (ub.id == ua.id && b < a))));
            if before {
                ahead += 1;
            }
            b += 1;
        }
        let ghost old_free = free@;
        if units[a].alive && units[a].team == Team::A && (ahead as u128) < q {
            free.push(a);
            proof {
                assert(free@.map_values(|x: usize| x as int) =~= old_free.map_values(|x: usize| x as int).push(a as int));
            }
        }
        a += 1;
    }
    proof {
        assert(free@.map_values(|x: usize| x as int) == seekers_upto(units@, foci@, pct as int, n as int));
    }
    if !seeker_flag(&free, i) {
        proof {
            lemma_seekers_upto(units@, foci@, pct as int, n as int);
            if seeker(units@, foci@, pct as int, i as int) {
                assert(seekers_upto(units@, foci@, pct as int, n as int).contains(i as int));
                let k = choose|k: int| 0 <= k < seekers_upto(units@, foci@, pct as int, n as int).len() && seekers_upto(units@, foci@, pct as int, n as int)[k] == i as int;
                assert(free@[k] == i);
            }
        }
        return None;
    }
    proof {
        lemma_seekers_upto(units@, foci@, pct as int, n as int);
        let k = choose|k: int| 0 <= k < free@.len() && free@[k] == i;
        assert(seekers_upto(units@, foci@, pct as int, n as int)[k] == i as int);
    }
    proof {
        assert forall|x: int, y: int| 0 <= x < y < free@.len() implies (#[trigger] free@[x]) != (#[trigger] free@[y]) by {
            let ss = seekers_upto(units@, foci@, pct as int, n as int);
            assert(free@.map_values(|z: usize| z as int)[x] == free@[x] as int);
            assert(free@.map_values(|z: usize| z as int)[y] == free@[y] as int);
            assert(ss[x] < ss[y]);
        }
    }
    // Fan the seekers across the foci.
    let mut f: usize = 0;
    let ghost goal = seeking(units@, foci@, pct as int, i as int);
    while free.len() > 0
        invariant
            n == units@.len(),
            i < n,
            field_ok(units@),
            foci@.len() > 0,
            forall|k: int| 0 <= k < foci@.len() ==> (#[trigger] foci@[k]).in_play(),
            near@.len() == n,
            forall|k: int| 0 <= k < n ==> #[trigger] near@[k] == focus_dist(units@[k].pos, foci@),
            forall|k: int| 0 <= k < free@.len() ==> (#[trigger] free@[k]) < n,
            forall|x: int, y: int| 0 <= x < y < free@.len() ==> (#[trigger] free@[x]) != (#[trigger] free@[y]),
            f + free@.len() <= n,
            goal == seeking(units@, foci@, pct as int, i as int),
            goal == assign(units@, foci@, free@.map_values(|x: usize| x as int), f as nat, i as int),
        decreases free@.len(),
    {
        let focus = foci[f % foci.len()];
        let ghost frees = free@.map_values(|x: usize| x as int);
        let mut p: usize = 0;
        let mut pk: (i32, u32, i32, usize) = (0, 0, 0, 0);
        let mut c: usize = 0;
        while c < free.len()
            invariant
                n == units@.len(),
                field_ok(units@),
                forall|k: int| 0 <= k < foci@.len() ==> (#[trigger] foci@[k]).in_play(),
                foci@.len() > 0,
                focus == foci@[((f as nat) % foci@.len()) as int],
                near@.len() == n,
                forall|k: int| 0 <= k < n ==> #[trigger] near@[k] == focus_dist(units@[k].pos, foci@),
                forall|k: int| 0 <= k < free@.len() ==> (#[trigger] free@[k]) < n,
                frees == free@.map_values(|x: usize| x as int),
                0 <= c <= free@.len(),
                free@.len() > 0,
                p < free@.len(),
                c > 0 ==> p < c,
                c > 0 ==> (pk.0 as int, pk.1 as int, pk.2 as int, pk.3 as int) == claim_key(units@, foci@, focus, frees[p as int]),
                forall|x: int| 0 <= x < c ==> !crate::hex::lex4_lt(
                    #[trigger] claim_key(units@, foci@, focus, frees[x]),
                    claim_key(units@, foci@, focus, frees[p as int]),
                ),
            decreases free@.len() - c,
        {
            let j = free[c];
            let u = &units[j];
            proof {
                lemma_in_play_fits(u.pos, focus);
            }
            let k: (i32, u32, i32, usize) = (u.pos.distance(focus), u.id, near[j], j);
            let better = c == 0 || k.0 < pk.0 || (k.0 == pk.0 && (k.1 < pk.1 || (k.1 == pk.1 && (k.2 < pk.2 || (k.2 == pk.2 && k.3 < pk.3)))));
            if better {
                proof {
                    if c > 0 {
                        assert forall|x: int| 0 <= x < c implies !crate::hex::lex4_lt(
                            #[trigger] claim_key(units@, foci@, focus, frees[x]),
                            claim_key(units@, foci@, focus, frees[c as int]),
                        ) by {
                            lemma_lex4(claim_key(units@, foci@, focus, frees[x]), claim_key(units@, foci@, focus, frees[p as int]), claim_key(units@, foci@, focus, frees[c as int]));
                            lemma_lex4_strict(claim_key(units@, foci@, focus, frees[c as int]), claim_key(units@, foci@, focus, frees[p as int]), claim_key(units@, foci@, focus, frees[x]));
                        }
                    }
                }
                p = c;
                pk = k;
            }
            c += 1;
        }
        proof {
            assert(claims(units@, foci@, focus, frees, p as int));
            let cp = choose|cp: int| claims(units@, foci@, focus, frees, cp);
            lemma_lex4(claim_key(units@, foci@, focus, frees[cp]), claim_key(units@, foci@, focus, frees[p as int]), claim_key(units@, foci@, focus, frees[cp]));
            if cp != p as int {
                assert(frees[cp] == frees[p as int]);
                assert(free@[cp] != free@[p as int]);
            }
        }
        let j = free.remove(p);
        proof {
            assert(frees[p as int] == j as int);
        }
        if j == i {
            proof {
                assert(assign(units@, foci@, frees, f as nat, i as int) == Some(focus));
            }
            return Some(focus);
        }
        proof {
            assert(free@.map_values(|x: usize| x as int) =~= frees.remove(p as int));
            assert(assign(units@, foci@, frees, f as nat, i as int) == assign(units@, foci@, frees.remove(p as int), (f + 1) as nat, i as int));
        }
        f = f + 1;
    }
    None
}

/// Can unit `j` **host** contagion `c` — carry it and re-spread it? A digital strain
/// (Firewall-resisted) needs a live net surface, a bio strain (Immunity-resisted) a
/// biological body; any other strain takes anyone.
pub open spec fn hosts(unit: Combatant, c: Contagion) -> bool {
    match c.resist {
        Stat::Firewall => unit.link > 0,
        Stat::Immunity => unit.biological,
        _ => true,
    }
}

/// Can unit `j` host contagion `c`? (See [`hosts`].)
pub fn can_host(units: &[Combatant], j: usize, c: Contagion) -> (b: bool)
    requires
        j < units@.len(),
    ensures
        b == hosts(units@[j as int], c),
{
    match c.resist {
        Stat::Firewall => units[j].link > 0,
        Stat::Immunity => units[j].biological,
        _ => true,
    }
}

/// Does a contagion riding `vector` on carrier `i` reach unit `j`? Proximity spreads
/// within its radius; the net reaches anyone with a live surface.
pub open spec fn vector_reaches(units: Seq<Combatant>, i: int, j: int, vector: Vector) -> bool {
    match vector {
        Vector::Proximity(r) => units[i].pos.dist(units[j].pos) <= r,
        Vector::Net => units[j].link > 0,
    }
}

/// Can a contagion on carrier `i` reach unit `j` along `vector`?
pub fn in_vector(units: &[Combatant], i: usize, j: usize, vector: Vector) -> (b: bool)
    requires
        i < units@.len(),
        j < units@.len(),
        field_ok(units@),
    ensures
        b == vector_reaches(units@, i as int, j as int, vector),
{
    match vector {
        Vector::Proximity(r) => {
            proof {
                lemma_in_play_fits(units@[i as int].pos, units@[j as int].pos);
            }
            units[i].pos.distance(units[j].pos) <= r
        },
        Vector::Net => units[j].link > 0,
    }
}

/// The stat of unit `j` that defends a contagion jump: Firewall against a digital strain,
/// Immunity otherwise.
pub fn resist_of(units: &[Combatant], j: usize, resist: Stat) -> (tn: i32)
    requires
        j < units@.len(),
    ensures
        tn == match resist {
            Stat::Firewall => units@[j as int].firewall,
            _ => units@[j as int].immunity,
        },
{
    match resist {
        Stat::Firewall => units[j].firewall,
        _ => units[j].immunity,
    }
}

/// Can a contagion `c` on carrier `i` try to jump to unit `j` this phase? A live unit other
/// than the carrier that can host it, within its vector's reach, and not `excluded`
/// (already carrying it, or already tried this round).
pub open spec fn may_catch(units: Seq<Combatant>, i: int, j: int, c: Contagion, excluded: Seq<bool>) -> bool {
    &&& j != i
    &&& units[j].alive
    &&& hosts(units[j], c)
    &&& vector_reaches(units, i, j, c.vector)
    &&& !excluded[j]
}

/// The units a contagion on carrier `i` tries to jump to, ascending: see [`may_catch`].
pub fn jump_candidates(units: &[Combatant], i: usize, c: Contagion, excluded: &Vec<bool>) -> (v: Vec<usize>)
    requires
        i < units@.len(),
        excluded@.len() == units@.len(),
        field_ok(units@),
    ensures
        forall|t: int| 0 <= t < units@.len() ==> (v@.contains(t as usize) <==> may_catch(units@, i as int, t, c, excluded@)),
        forall|k: int| 0 <= k < v@.len() ==> (#[trigger] v@[k]) < units@.len(),
        forall|a: int, b: int| 0 <= a < b < v@.len() ==> (#[trigger] v@[a]) < (#[trigger] v@[b]),
{
    let mut v: Vec<usize> = Vec::new();
    let mut t: usize = 0;
    while t < units.len()
        invariant
            0 <= t <= units@.len(),
            i < units@.len(),
            excluded@.len() == units@.len(),
            field_ok(units@),
            forall|m: int| 0 <= m < t ==> (v@.contains(m as usize) <==> may_catch(units@, i as int, m, c, excluded@)),
            forall|k: int| 0 <= k < v@.len() ==> (#[trigger] v@[k]) < t,
            forall|a: int, b: int| 0 <= a < b < v@.len() ==> (#[trigger] v@[a]) < (#[trigger] v@[b]),
        decreases units@.len() - t,
    {
        let hit = t != i && units[t].alive && can_host(units, t, c) && in_vector(units, i, t, c.vector)
            && !excluded[t];
        let ghost old_v = v@;
        if hit {
            v.push(t);
        }
        proof {
            assert forall|m: int| 0 <= m < t + 1 implies (v@.contains(m as usize) <==> may_catch(units@, i as int, m, c, excluded@)) by {
                if hit {
                    assert(v@ == old_v.push(t));
                    if m < t {
                        if old_v.contains(m as usize) {
                            let x = choose|x: int| 0 <= x < old_v.len() && old_v[x] == m as usize;
                            assert(v@[x] == m as usize);
                        }
                        if v@.contains(m as usize) {
                            let x = choose|x: int| 0 <= x < v@.len() && v@[x] == m as usize;
                            assert(x < old_v.len());
                            assert(old_v[x] == m as usize);
                        }
                    } else {
                        assert(v@[v@.len() - 1] == t);
                    }
                } else if m == t {
                    assert(!old_v.contains(t));
                }
            }
        }
        t += 1;
    }
    v
}

/// A contagion riding a carrier at the start of a contagion phase: the carrier, its
/// contagion, and its family, if it has one (two contagions of one family never stack on a
/// host).
#[derive(Clone, Copy, PartialEq, Eq, Debug, Structural)]
pub struct Source {
    pub carrier: usize,
    pub contagion: Contagion,
    pub family: Option<u32>,
}

/// Is unit `j` barred from source `k`'s jump? Only a contagion with a family can be barred:
/// when `j` already carries that family, or an earlier source of the same family already
/// tried `j` this round.
pub open spec fn barred(
    sources: Seq<Source>,
    carried: Seq<(usize, u32)>,
    plan: Seq<(usize, usize)>,
    k: int,
    j: int,
) -> bool {
    match sources[k].family {
        Some(f) => carried.contains((j as usize, f)) || exists|p: int|
            0 <= p < plan.len() && (#[trigger] plan[p]).0 < k && plan[p].1 == j && sources[plan[p].0 as int].family
                == Some(f),
        None => false,
    }
}

/// Who is barred from source `k`'s jump, unit by unit.
pub open spec fn barred_units(
    n: int,
    sources: Seq<Source>,
    carried: Seq<(usize, u32)>,
    plan: Seq<(usize, usize)>,
    k: int,
) -> Seq<bool> {
    Seq::new(n as nat, |t: int| barred(sources, carried, plan, k, t))
}

/// `a` comes before `b` in the order the phase scans: by source, then by victim.
pub open spec fn scan_before(a: (usize, usize), b: (usize, usize)) -> bool {
    a.0 < b.0 || (a.0 == b.0 && a.1 < b.1)
}

/// `plan` is the contagion phase's jump attempts, `(source, victim)` in scan order: for each
/// source in turn, every unit its contagion may catch (see [`may_catch`]) unless
/// [`barred`] — all read off the state at the start of the phase, so a host infected this
/// round spreads nothing until the next.
pub open spec fn spread_plan(
    units: Seq<Combatant>,
    sources: Seq<Source>,
    carried: Seq<(usize, u32)>,
    plan: Seq<(usize, usize)>,
) -> bool {
    &&& forall|p: int| 0 <= p < plan.len() ==> (#[trigger] plan[p]).0 < sources.len() && plan[p].1 < units.len()
    &&& forall|a: int, b: int| 0 <= a < b < plan.len() ==> scan_before(#[trigger] plan[a], #[trigger] plan[b])
    &&& forall|k: int, j: int|
        0 <= k < sources.len() && 0 <= j < units.len() ==> (#[trigger] plan.contains((k as usize, j as usize))
            <==> may_catch(
            units,
            sources[k].carrier as int,
            j,
            sources[k].contagion,
            barred_units(units.len() as int, sources, carried, plan, k),
        ))
}

/// Does `carried` hold `(unit, family)`?
fn carries_family(carried: &Vec<(usize, u32)>, unit: usize, family: u32) -> (b: bool)
    ensures
        b == carried@.contains((unit, family)),
{
    let mut i: usize = 0;
    while i < carried.len()
        invariant
            i <= carried.len(),
            forall|m: int| 0 <= m < i ==> carried@[m] != (unit, family),
        decreases carried.len() - i,
    {
        if carried[i].0 == unit && carried[i].1 == family {
            assert(carried@[i as int] == (unit, family));
            return true;
        }
        i = i + 1;
    }
    false
}

/// Has a source of `family` already tried `unit` in `plan`?
fn tried_family(sources: &Vec<Source>, plan: &Vec<(usize, usize)>, unit: usize, family: u32) -> (b: bool)
    requires
        forall|p: int| 0 <= p < plan.len() ==> (#[trigger] plan@[p]).0 < sources.len(),
    ensures
        b == exists|p: int| 0 <= p < plan.len() && (#[trigger] plan@[p]).1 == unit && sources@[plan@[p].0 as int].family
            == Some(family),
{
    let mut i: usize = 0;
    while i < plan.len()
        invariant
            i <= plan.len(),
            forall|p: int| 0 <= p < plan.len() ==> (#[trigger] plan@[p]).0 < sources.len(),
            forall|p: int| 0 <= p < i ==> !((#[trigger] plan@[p]).1 == unit && sources@[plan@[p].0 as int].family == Some(family)),
        decreases plan.len() - i,
    {
        let (k, v) = plan[i];
        if v == unit && sources[k].family == Some(family) {
            assert(plan@[i as int].1 == unit);
            return true;
        }
        i = i + 1;
    }
    false
}

/// The contagion phase's jump attempts, `(source, victim)` in scan order — see
/// [`spread_plan`]: no host is tried for a family it already carries, and no host is
/// tried twice for one family in a round.
pub fn contagion_attempts(units: &[Combatant], sources: &Vec<Source>, carried: &Vec<(usize, u32)>) -> (plan: Vec<(usize, usize)>)
    requires
        field_ok(units@),
        forall|k: int| 0 <= k < sources.len() ==> (#[trigger] sources@[k]).carrier < units@.len(),
    ensures
        spread_plan(units@, sources@, carried@, plan@),
{
    let n = units.len();
    let mut plan: Vec<(usize, usize)> = Vec::new();
    let mut k: usize = 0;
    while k < sources.len()
        invariant
            k <= sources.len(),
            n == units@.len(),
            field_ok(units@),
            forall|m: int| 0 <= m < sources.len() ==> (#[trigger] sources@[m]).carrier < units@.len(),
            forall|p: int| 0 <= p < plan.len() ==> (#[trigger] plan@[p]).0 < k && plan@[p].1 < units@.len(),
            forall|a: int, b: int| 0 <= a < b < plan.len() ==> scan_before(#[trigger] plan@[a], #[trigger] plan@[b]),
            forall|m: int, j: int|
                0 <= m < k && 0 <= j < units@.len() ==> (#[trigger] plan@.contains((m as usize, j as usize))
                    <==> may_catch(
                    units@,
                    sources@[m].carrier as int,
                    j,
                    sources@[m].contagion,
                    barred_units(units@.len() as int, sources@, carried@, plan@, m),
                )),
        decreases sources.len() - k,
    {
        let src = sources[k];
        let mut excluded: Vec<bool> = Vec::new();
        let mut t: usize = 0;
        while t < n
            invariant
                t <= n,
                n == units@.len(),
                k < sources.len(),
                src == sources@[k as int],
                forall|p: int| 0 <= p < plan.len() ==> (#[trigger] plan@[p]).0 < k,
                excluded.len() == t,
                forall|u: int| 0 <= u < t ==> (#[trigger] excluded@[u]) == barred(sources@, carried@, plan@, k as int, u),
            decreases n - t,
        {
            let b = match src.family {
                Some(f) => carries_family(carried, t, f) || tried_family(sources, &plan, t, f),
                None => false,
            };
            proof {
                if let Some(f) = src.family {
                    if b && !carried@.contains((t, f)) {
                        let p = choose|p: int| 0 <= p < plan.len() && (#[trigger] plan@[p]).1 == t && sources@[plan@[p].0 as int].family
                            == Some(f);
                        assert(plan@[p].0 < k);
                    }
                }
            }
            excluded.push(b);
            t = t + 1;
        }
        assert(excluded@ =~= barred_units(n as int, sources@, carried@, plan@, k as int));
        let cands = jump_candidates(units, src.carrier, src.contagion, &excluded);
        let ghost old_plan = plan@;
        let mut c: usize = 0;
        while c < cands.len()
            invariant
                c <= cands.len(),
                k < sources.len(),
                plan@.len() == old_plan.len() + c,
                forall|p: int| 0 <= p < old_plan.len() ==> plan@[p] == old_plan[p],
                forall|q: int| 0 <= q < c ==> plan@[old_plan.len() + q] == (k, cands@[q]),
                forall|p: int| 0 <= p < old_plan.len() ==> (#[trigger] old_plan[p]).0 < k && old_plan[p].1 < units@.len(),
                forall|a: int, b: int| 0 <= a < b < old_plan.len() ==> scan_before(#[trigger] old_plan[a], #[trigger] old_plan[b]),
                forall|q: int| 0 <= q < cands@.len() ==> (#[trigger] cands@[q]) < units@.len(),
                forall|a: int, b: int| 0 <= a < b < cands@.len() ==> (#[trigger] cands@[a]) < (#[trigger] cands@[b]),
            decreases cands.len() - c,
        {
            plan.push((k, cands[c]));
            c = c + 1;
        }
        proof {
            let np = plan@;
            assert forall|p: int| 0 <= p < np.len() implies (#[trigger] np[p]).0 < k + 1 && np[p].1 < units@.len() by {
                if p >= old_plan.len() {
                    assert(np[p] == (k, cands@[p - old_plan.len()]));
                    assert(cands@[p - old_plan.len()] < units@.len());
                } else {
                    assert(np[p] == old_plan[p]);
                    assert(old_plan[p].0 < k);
                }
            }
            assert forall|a: int, b: int| 0 <= a < b < np.len() implies scan_before(#[trigger] np[a], #[trigger] np[b]) by {
                if b >= old_plan.len() {
                    assert(np[b] == (k, cands@[b - old_plan.len()]));
                    if a >= old_plan.len() {
                        assert(np[a] == (k, cands@[a - old_plan.len()]));
                        assert(cands@[a - old_plan.len()] < cands@[b - old_plan.len()]);
                    } else {
                        assert(np[a] == old_plan[a]);
                        assert(old_plan[a].0 < k);
                    }
                } else {
                    assert(np[a] == old_plan[a]);
                    assert(np[b] == old_plan[b]);
                    assert(scan_before(old_plan[a], old_plan[b]));
                }
            }
            // the prefix of earlier sources is unchanged, so every earlier bar reads the same
            assert forall|m: int| 0 <= m <= k implies barred_units(n as int, sources@, carried@, np, m)
                =~= barred_units(n as int, sources@, carried@, old_plan, m) by {
                assert forall|u: int| 0 <= u < n implies barred(sources@, carried@, np, m, u) == barred(
                    sources@,
                    carried@,
                    old_plan,
                    m,
                    u,
                ) by {
                    if let Some(f) = sources@[m].family {
                        if exists|p: int|
                            0 <= p < np.len() && (#[trigger] np[p]).0 < m && np[p].1 == u && sources@[np[p].0 as int].family
                                == Some(f) {
                            let p = choose|p: int|
                                0 <= p < np.len() && (#[trigger] np[p]).0 < m && np[p].1 == u && sources@[np[p].0 as int].family
                                    == Some(f);
                            if p >= old_plan.len() {
                                assert(np[p] == (k, cands@[p - old_plan.len()]));
                            }
                            assert(old_plan[p] == np[p]);
                        }
                        if exists|p: int|
                            0 <= p < old_plan.len() && (#[trigger] old_plan[p]).0 < m && old_plan[p].1 == u
                                && sources@[old_plan[p].0 as int].family == Some(f) {
                            let p = choose|p: int|
                                0 <= p < old_plan.len() && (#[trigger] old_plan[p]).0 < m && old_plan[p].1 == u
                                    && sources@[old_plan[p].0 as int].family == Some(f);
                            assert(np[p] == old_plan[p]);
                        }
                    }
                }
            }
            assert forall|m: int, j: int| 0 <= m < k + 1 && 0 <= j < units@.len() implies (#[trigger] np.contains(
                (m as usize, j as usize),
            ) <==> may_catch(
                units@,
                sources@[m].carrier as int,
                j,
                sources@[m].contagion,
                barred_units(units@.len() as int, sources@, carried@, np, m),
            )) by {
                if np.contains((m as usize, j as usize)) {
                    let p = choose|p: int| 0 <= p < np.len() && np[p] == (m as usize, j as usize);
                    if p >= old_plan.len() {
                        assert(np[p] == (k, cands@[p - old_plan.len()]));
                        assert(cands@.contains(j as usize));
                    } else {
                        assert(old_plan[p] == np[p]);
                        assert(old_plan.contains((m as usize, j as usize)));
                    }
                }
                if m < k {
                    if old_plan.contains((m as usize, j as usize)) {
                        let p = choose|p: int| 0 <= p < old_plan.len() && old_plan[p] == (m as usize, j as usize);
                        assert(np[p] == old_plan[p]);
                    }
                } else {
                    if cands@.contains(j as usize) {
                        let q = choose|q: int| 0 <= q < cands@.len() && cands@[q] == j as usize;
                        assert(np[old_plan.len() + q] == (k, cands@[q]));
                    }
                    if old_plan.contains((m as usize, j as usize)) {
                        let p = choose|p: int| 0 <= p < old_plan.len() && old_plan[p] == (m as usize, j as usize);
                        assert(old_plan[p].0 < k);
                    }
                }
            }
        }
        k = k + 1;
    }
    plan
}

/// **A contagion phase never re-infects and tries each host once per family**: in the
/// phase's attempts, no host is tried for a family it already carries, and no two sources
/// of one family try the same host in the same round.
pub proof fn lemma_spread_guards(
    units: Seq<Combatant>,
    sources: Seq<Source>,
    carried: Seq<(usize, u32)>,
    plan: Seq<(usize, usize)>,
)
    requires
        spread_plan(units, sources, carried, plan),
    ensures
        forall|p: int|
            0 <= p < plan.len() && (#[trigger] sources[plan[p].0 as int]).family is Some ==> !carried.contains(
                (plan[p].1, sources[plan[p].0 as int].family->0),
            ),
        forall|a: int, b: int|
            0 <= a < b < plan.len() && plan[a].1 == plan[b].1 && (#[trigger] sources[plan[a].0 as int]).family is Some
                ==> (#[trigger] sources[plan[b].0 as int]).family != sources[plan[a].0 as int].family,
{
    assert forall|p: int|
        0 <= p < plan.len() && (#[trigger] sources[plan[p].0 as int]).family is Some implies !carried.contains(
        (plan[p].1, sources[plan[p].0 as int].family->0),
    ) by {
        let k = plan[p].0 as int;
        let j = plan[p].1 as int;
        assert(plan.contains((k as usize, j as usize)));
        assert(barred_units(units.len() as int, sources, carried, plan, k)[j] == barred(sources, carried, plan, k, j));
    }
    assert forall|a: int, b: int|
        0 <= a < b < plan.len() && plan[a].1 == plan[b].1 && (#[trigger] sources[plan[a].0 as int]).family is Some
            implies (#[trigger] sources[plan[b].0 as int]).family != sources[plan[a].0 as int].family by {
        let k = plan[b].0 as int;
        let j = plan[b].1 as int;
        assert(scan_before(plan[a], plan[b]));
        if plan[a].0 == plan[b].0 {
            assert(plan[a].1 < plan[b].1);
        } else {
            assert(plan.contains((k as usize, j as usize)));
            assert(barred_units(units.len() as int, sources, carried, plan, k)[j] == barred(sources, carried, plan, k, j));
            if sources[k].family == sources[plan[a].0 as int].family {
                assert(plan[a].0 < k && plan[a].1 == j);
                assert(barred(sources, carried, plan, k, j));
            }
        }
    }
}

/// Who a dying unit's parting effect reaches, by kind.
#[derive(Clone, Copy, PartialEq, Eq, Debug, Structural)]
pub enum Blast {
    /// A corpse-bomb: every other living unit in the radius, friend or foe.
    Detonate,
    /// A data-spill: living **enemies** in the radius.
    Spill,
    /// A legacy: living **allies** in the radius, the dead unit excluded.
    Legacy,
}

/// Is unit `t` caught by dead unit `i`'s parting `kind` of `radius`?
pub open spec fn caught(units: Seq<Combatant>, i: int, kind: Blast, radius: int, t: int) -> bool {
    &&& units[t].alive
    &&& units[i].pos.dist(units[t].pos) <= radius
    &&& match kind {
        Blast::Detonate => t != i,
        Blast::Spill => units[t].team != units[i].team,
        Blast::Legacy => t != i && units[t].team == units[i].team,
    }
}

/// The units a dead unit's **death trigger** reaches, ascending: see [`caught`].
pub fn death_reach(units: &[Combatant], i: usize, kind: Blast, radius: i32) -> (v: Vec<usize>)
    requires
        i < units@.len(),
        field_ok(units@),
    ensures
        forall|t: int| 0 <= t < units@.len() ==> (v@.contains(t as usize) <==> caught(units@, i as int, kind, radius as int, t)),
        forall|k: int| 0 <= k < v@.len() ==> (#[trigger] v@[k]) < units@.len(),
        forall|a: int, b: int| 0 <= a < b < v@.len() ==> (#[trigger] v@[a]) < (#[trigger] v@[b]),
{
    let center = units[i].pos;
    let team = units[i].team;
    let mut v: Vec<usize> = Vec::new();
    let mut t: usize = 0;
    while t < units.len()
        invariant
            0 <= t <= units@.len(),
            i < units@.len(),
            field_ok(units@),
            center == units@[i as int].pos,
            team == units@[i as int].team,
            forall|m: int| 0 <= m < t ==> (v@.contains(m as usize) <==> caught(units@, i as int, kind, radius as int, m)),
            forall|k: int| 0 <= k < v@.len() ==> (#[trigger] v@[k]) < t,
            forall|a: int, b: int| 0 <= a < b < v@.len() ==> (#[trigger] v@[a]) < (#[trigger] v@[b]),
        decreases units@.len() - t,
    {
        let u = &units[t];
        proof {
            lemma_in_play_fits(center, u.pos);
        }
        let side = match kind {
            Blast::Detonate => t != i,
            Blast::Spill => u.team != team,
            Blast::Legacy => t != i && u.team == team,
        };
        let hit = u.alive && center.distance(u.pos) <= radius && side;
        let ghost old_v = v@;
        if hit {
            v.push(t);
        }
        proof {
            assert forall|m: int| 0 <= m < t + 1 implies (v@.contains(m as usize) <==> caught(units@, i as int, kind, radius as int, m)) by {
                if hit {
                    assert(v@ == old_v.push(t));
                    if m < t {
                        if old_v.contains(m as usize) {
                            let x = choose|x: int| 0 <= x < old_v.len() && old_v[x] == m as usize;
                            assert(v@[x] == m as usize);
                        }
                        if v@.contains(m as usize) {
                            let x = choose|x: int| 0 <= x < v@.len() && v@[x] == m as usize;
                            assert(x < old_v.len());
                            assert(old_v[x] == m as usize);
                        }
                    } else {
                        assert(v@[v@.len() - 1] == t);
                    }
                } else if m == t {
                    assert(!old_v.contains(t));
                }
            }
        }
        t += 1;
    }
    v
}

/// Can unit `j` project onto the net — a hack and a live Link?
pub open spec fn projects(unit: Combatant) -> bool {
    unit.has_hack && unit.link > 0
}

/// The activations of the first `n` units, in index order: each living unit's physical
/// activation, followed by its digital one when it projects onto the net.
pub open spec fn slots_upto(units: Seq<Combatant>, n: int) -> Seq<(int, bool)>
    decreases n,
{
    if n <= 0 {
        Seq::empty()
    } else {
        let prev = slots_upto(units, n - 1);
        let u = units[n - 1];
        if !u.alive {
            prev
        } else if projects(u) {
            prev.push((n - 1, false)).push((n - 1, true))
        } else {
            prev.push((n - 1, false))
        }
    }
}

/// The key an activation is ranked by on the woven track: Initiative for a physical one,
/// Link for a digital one.
pub open spec fn slot_key(units: Seq<Combatant>, s: (int, bool)) -> int {
    if s.1 {
        units[s.0].link_key as int
    } else {
        units[s.0].initiative_key as int
    }
}

/// Does activation `a` run before `b`? Higher key first, then lower id, then physical
/// before digital, then lower index.
pub open spec fn runs_before(units: Seq<Combatant>, a: (int, bool), b: (int, bool)) -> bool {
    let ka = slot_key(units, a);
    let kb = slot_key(units, b);
    let ia = units[a.0].id as int;
    let ib = units[b.0].id as int;
    ka > kb || (ka == kb && (ia < ib || (ia == ib && ((!a.1 && b.1) || (a.1 == b.1 && a.0 < b.0)))))
}

/// An exec activation as a spec pair.
pub open spec fn slot_view(s: (usize, bool)) -> (int, bool) {
    (s.0 as int, s.1)
}

/// Running order is a strict total order on activations.
proof fn lemma_runs_before(units: Seq<Combatant>, a: (int, bool), b: (int, bool), c: (int, bool))
    ensures
        !runs_before(units, a, a),
        runs_before(units, a, b) && runs_before(units, b, c) ==> runs_before(units, a, c),
        a != b ==> runs_before(units, a, b) || runs_before(units, b, a),
        runs_before(units, a, b) ==> !runs_before(units, b, a),
{
}

fn runs_before_exec(units: &[Combatant], a: (usize, bool), b: (usize, bool)) -> (r: bool)
    requires
        a.0 < units@.len(),
        b.0 < units@.len(),
    ensures
        r == runs_before(units@, slot_view(a), slot_view(b)),
{
    let ka = if a.1 {
        units[a.0].link_key
    } else {
        units[a.0].initiative_key
    };
    let kb = if b.1 {
        units[b.0].link_key
    } else {
        units[b.0].initiative_key
    };
    let ia = units[a.0].id;
    let ib = units[b.0].id;
    ka > kb || (ka == kb && (ia < ib || (ia == ib && ((!a.1 && b.1) || (a.1 == b.1 && a.0 < b.0)))))
}

/// The **woven activation order**: every living unit's physical activation (ranked by
/// Initiative) and, when it projects onto the net, its digital one (ranked by Link), on
/// one descending track — so a high-Link runner hacks before a sluggish bruiser swings.
/// The result lists exactly the activations of [`slots_upto`], sorted by [`runs_before`].
pub fn woven_order(units: &[Combatant]) -> (out: Vec<(usize, bool)>)
    ensures
        out@.len() == slots_upto(units@, units@.len() as int).len(),
        forall|k: int| 0 <= k < out@.len() ==> slots_upto(units@, units@.len() as int).contains(slot_view(#[trigger] out@[k])),
        forall|s: (int, bool)|
            #[trigger] slots_upto(units@, units@.len() as int).contains(s) ==> exists|k: int|
                0 <= k < out@.len() && slot_view(#[trigger] out@[k]) == s,
        forall|a: int, b: int| 0 <= a < b < out@.len() ==> runs_before(units@, slot_view(#[trigger] out@[a]), slot_view(#[trigger] out@[b])),
        forall|k: int| 0 <= k < out@.len() ==> (#[trigger] out@[k]).0 < units@.len(),
{
    let mut out: Vec<(usize, bool)> = Vec::new();
    let mut j: usize = 0;
    while j < units.len()
        invariant
            0 <= j <= units@.len(),
            out@.len() == slots_upto(units@, j as int).len(),
            forall|k: int| 0 <= k < out@.len() ==> (#[trigger] out@[k]).0 < j,
            forall|k: int| 0 <= k < out@.len() ==> slots_upto(units@, j as int).contains(slot_view(#[trigger] out@[k])),
            forall|s: (int, bool)|
                #[trigger] slots_upto(units@, j as int).contains(s) ==> exists|k: int|
                    0 <= k < out@.len() && slot_view(#[trigger] out@[k]) == s,
            forall|a: int, b: int| 0 <= a < b < out@.len() ==> runs_before(units@, slot_view(#[trigger] out@[a]), slot_view(#[trigger] out@[b])),
        decreases units@.len() - j,
    {
        let ghost prev = slots_upto(units@, j as int);
        let ghost start = out@;
        proof {
            lemma_slots_upto(units@, j as int);
            lemma_slots_upto(units@, j + 1);
        }
        let u = &units[j];
        if u.alive {
            insert_slot(units, &mut out, (j, false));
            if u.has_hack && u.link > 0 {
                let ghost mid = out@;
                proof {
                    assert forall|k: int| 0 <= k < mid.len() implies #[trigger] mid[k] != (j, true) by {
                        assert(mid.contains(mid[k]));
                        if mid[k] != (j, false) {
                            assert(start.contains(mid[k]));
                            let x = choose|x: int| 0 <= x < start.len() && start[x] == mid[k];
                        }
                    }
                }
                insert_slot(units, &mut out, (j, true));
                proof {
                    assert forall|x: (usize, bool)| out@.contains(x) <==> (start.contains(x) || x == (j, false) || x == (j, true)) by {
                    }
                }
            } else {
                proof {
                    assert forall|x: (usize, bool)| out@.contains(x) <==> (start.contains(x) || x == (j, false)) by {
                    }
                }
            }
        }
        proof {
            let next = slots_upto(units@, j + 1);
            assert forall|k: int| 0 <= k < out@.len() implies (#[trigger] out@[k]).0 < j + 1 && next.contains(slot_view(out@[k])) by {
                assert(out@.contains(out@[k]));
                if out@[k].0 != j {
                    assert(start.contains(out@[k]));
                    let x = choose|x: int| 0 <= x < start.len() && start[x] == out@[k];
                    assert(prev.contains(slot_view(start[x])));
                }
            }
            assert forall|s: (int, bool)| #[trigger] next.contains(s) implies exists|k: int|
                0 <= k < out@.len() && slot_view(#[trigger] out@[k]) == s by {
                let x: (usize, bool) = (s.0 as usize, s.1);
                if s.0 < j {
                    assert(prev.contains(s));
                    let k = choose|k: int| 0 <= k < start.len() && slot_view(#[trigger] start[k]) == s;
                    assert(start[k] == x);
                    assert(start.contains(x));
                } else {
                    assert(x == (j, false) || x == (j, true));
                }
                assert(out@.contains(x));
                let k = choose|k: int| 0 <= k < out@.len() && out@[k] == x;
                assert(slot_view(out@[k]) == s);
            }
            assert(out@.len() == next.len()) by {
                if units@[j as int].alive {
                    if projects(units@[j as int]) {
                        assert(next == prev.push((j as int, false)).push((j as int, true)));
                    } else {
                        assert(next == prev.push((j as int, false)));
                    }
                } else {
                    assert(next == prev);
                }
            }
        }
        j += 1;
    }
    out
}

/// What the activation list holds.
proof fn lemma_slots_upto(units: Seq<Combatant>, n: int)
    requires
        0 <= n <= units.len(),
    ensures
        forall|s: (int, bool)|
            #[trigger] slots_upto(units, n).contains(s) <==> (0 <= s.0 < n && units[s.0].alive && (!s.1 || projects(units[s.0]))),
        slots_upto(units, n).no_duplicates(),
    decreases n,
{
    if n > 0 {
        lemma_slots_upto(units, n - 1);
        let prev = slots_upto(units, n - 1);
        let cur = slots_upto(units, n);
        assert forall|s: (int, bool)| #[trigger] cur.contains(s) <==> (0 <= s.0 < n && units[s.0].alive && (!s.1 || projects(units[s.0]))) by {
            if cur.contains(s) {
                let k = choose|k: int| 0 <= k < cur.len() && cur[k] == s;
                if k < prev.len() {
                    assert(prev[k] == s);
                    assert(prev.contains(s));
                }
            }
            if 0 <= s.0 < n - 1 && units[s.0].alive && (!s.1 || projects(units[s.0])) {
                assert(prev.contains(s));
                let k = choose|k: int| 0 <= k < prev.len() && prev[k] == s;
                assert(cur[k] == s);
            }
            if s.0 == n - 1 && units[s.0].alive && (!s.1 || projects(units[s.0])) {
                if projects(units[n - 1]) {
                    if s.1 {
                        assert(cur[prev.len() as int + 1] == s);
                    } else {
                        assert(cur[prev.len() as int] == s);
                    }
                } else {
                    assert(cur[prev.len() as int] == s);
                }
            }
        }
        assert forall|a: int, b: int| 0 <= a < cur.len() && 0 <= b < cur.len() && a != b implies cur[a] != cur[b] by {
            if a < prev.len() && b < prev.len() {
                assert(prev[a] != prev[b]);
            } else if a < prev.len() {
                assert(prev.contains(prev[a]));
            } else if b < prev.len() {
                assert(prev.contains(prev[b]));
            }
        }
    }
}

/// Insert activation `s` into the sorted `out` at its running position.
fn insert_slot(units: &[Combatant], out: &mut Vec<(usize, bool)>, s: (usize, bool))
    requires
        s.0 < units@.len(),
        forall|k: int| 0 <= k < old(out)@.len() ==> (#[trigger] old(out)@[k]).0 < units@.len(),
        forall|k: int| 0 <= k < old(out)@.len() ==> #[trigger] old(out)@[k] != s,
        forall|a: int, b: int| 0 <= a < b < old(out)@.len() ==> runs_before(units@, slot_view(#[trigger] old(out)@[a]), slot_view(#[trigger] old(out)@[b])),
    ensures
        final(out)@.len() == old(out)@.len() + 1,
        forall|k: int| 0 <= k < final(out)@.len() ==> (#[trigger] final(out)@[k]).0 < units@.len(),
        forall|x: (usize, bool)| final(out)@.contains(x) <==> (old(out)@.contains(x) || x == s),
        forall|a: int, b: int| 0 <= a < b < final(out)@.len() ==> runs_before(units@, slot_view(#[trigger] final(out)@[a]), slot_view(#[trigger] final(out)@[b])),
{
    let mut pos: usize = 0;
    while pos < out.len() && !runs_before_exec(units, s, out[pos])
        invariant
            0 <= pos <= out@.len(),
            s.0 < units@.len(),
            forall|k: int| 0 <= k < out@.len() ==> (#[trigger] out@[k]).0 < units@.len(),
            forall|k: int| 0 <= k < pos ==> !runs_before(units@, slot_view(s), slot_view(#[trigger] out@[k])),
        decreases out@.len() - pos,
    {
        pos += 1;
    }
    let ghost before = out@;
    proof {
        assert forall|k: int| 0 <= k < pos implies runs_before(units@, slot_view(#[trigger] before[k]), slot_view(s)) by {
            lemma_runs_before(units@, slot_view(s), slot_view(before[k]), slot_view(s));
            assert(slot_view(s) != slot_view(before[k]));
        }
        assert forall|k: int| pos <= k < before.len() implies runs_before(units@, slot_view(s), slot_view(#[trigger] before[k])) by {
            if k > pos {
                lemma_runs_before(units@, slot_view(s), slot_view(before[pos as int]), slot_view(before[k]));
            }
        }
    }
    out.insert(pos, s);
    proof {
        assert(out@ == before.insert(pos as int, s));
        assert forall|x: (usize, bool)| out@.contains(x) <==> (before.contains(x) || x == s) by {
            if out@.contains(x) {
                let k = choose|k: int| 0 <= k < out@.len() && out@[k] == x;
                if k < pos {
                    assert(before[k] == x);
                } else if k > pos {
                    assert(before[k - 1] == x);
                }
            }
            if before.contains(x) {
                let k = choose|k: int| 0 <= k < before.len() && before[k] == x;
                if k < pos {
                    assert(out@[k] == x);
                } else {
                    assert(out@[k + 1] == x);
                }
            }
            if x == s {
                assert(out@[pos as int] == x);
            }
        }
        assert forall|a: int, b: int| 0 <= a < b < out@.len() implies runs_before(units@, slot_view(#[trigger] out@[a]), slot_view(#[trigger] out@[b])) by {
            if b < pos {
                assert(out@[a] == before[a] && out@[b] == before[b]);
            } else if b == pos {
                assert(out@[a] == before[a]);
            } else if a < pos {
                assert(out@[a] == before[a] && out@[b] == before[b - 1]);
                lemma_runs_before(units@, slot_view(before[a]), slot_view(s), slot_view(before[b - 1]));
            } else if a == pos {
                assert(out@[b] == before[b - 1]);
            } else {
                assert(out@[a] == before[a - 1] && out@[b] == before[b - 1]);
            }
        }
    }
}

/// A net defense is determined: at most one value satisfies [`defends_with`].
proof fn lemma_defense_unique(units: Seq<Combatant>, t: int, d1: int, d2: int)
    requires
        defends_with(units, t, d1),
        defends_with(units, t, d2),
    ensures
        d1 == d2,
{
    if d1 != units[t].firewall && !(units[t].has_hack && d1 == units[t].hacking) {
        let k = choose|k: int| 0 <= k < units.len() && #[trigger] covers_net(units, t, k) && d1 == units[k].hacking;
        assert(d2 >= units[k].hacking);
    }
    if d2 != units[t].firewall && !(units[t].has_hack && d2 == units[t].hacking) {
        let k = choose|k: int| 0 <= k < units.len() && #[trigger] covers_net(units, t, k) && d2 == units[k].hacking;
        assert(d1 >= units[k].hacking);
    }
}

/// The net defense of `t` (see [`defends_with`]).
pub open spec fn net_defense_of(units: Seq<Combatant>, t: int) -> int {
    choose|d: int| defends_with(units, t, d)
}

/// The hack rating of `a` against `t`: its Hacking averaged with the channel — the weaker
/// endpoint's Link — plus its meshed-network throughput.
pub open spec fn hack_power(units: Seq<Combatant>, a: int, t: int) -> int {
    let channel = if units[a].link < units[t].link {
        units[a].link as int
    } else {
        units[t].link as int
    };
    (units[a].hacking + channel) / 2 + units[a].mesh_synergy
}

/// The numbers of a hack from `a` on `t` stay inside `i32`.
pub open spec fn hack_fits(units: Seq<Combatant>, a: int, t: int) -> bool {
    &&& i32::MIN <= units[a].hacking + units[a].link <= i32::MAX
    &&& i32::MIN <= units[a].hacking + units[t].link <= i32::MAX
    &&& i32::MIN + 20 <= hack_power(units, a, t) <= i32::MAX
}

/// Do the numbers of a hack from `a` on `t` stay inside `i32`? (See [`hack_fits`].)
pub fn hack_in_range(units: &[Combatant], a: usize, t: usize) -> (b: bool)
    requires
        a < units@.len(),
        t < units@.len(),
    ensures
        b == hack_fits(units@, a as int, t as int),
{
    let h = units[a].hacking as i64;
    let la = units[a].link as i64;
    let lt = units[t].link as i64;
    let lo = i32::MIN as i64;
    let hi = i32::MAX as i64;
    if h + la < lo || h + la > hi || h + lt < lo || h + lt > hi {
        return false;
    }
    let channel = if la < lt {
        la
    } else {
        lt
    };
    let sum = h + channel;
    let mut half = sum / 2;
    if sum < 0 && half * 2 != sum {
        half = half - 1;
    }
    let power = half + units[a].mesh_synergy as i64;
    lo + 20 <= power && power <= hi
}

/// A hack from `a` on `t` **before its payload**: refused without a hack (`NoHack`), from
/// an attacker off the net (`Offline`) or onto a target with no surface (`NoSurface`);
/// otherwise an opposed roll of [`hack_power`] against the target's net defense — the
/// breach lands only if the runner connects **and** the defense fails — or, against an
/// undefended surface (defense ≤ 0), a plain check. The runner's own roll carries the
/// margin and crit either way.
pub open spec fn hack_roll<R: RandomSource>(units: Seq<Combatant>, a: int, t: int, rng: R) -> Result<RollOutcome, HackResult> {
    if !units[a].has_hack {
        Err(HackResult::NoHack)
    } else if units[a].link <= 0 {
        Err(HackResult::Offline)
    } else if units[t].link <= 0 {
        Err(HackResult::NoSurface)
    } else {
        let attack = outcome_of(dice_2d10(rng), hack_power(units, a, t));
        if net_defense_of(units, t) > 0 {
            let defense = outcome_of(dice_2d10(after_roll(rng)), net_defense_of(units, t));
            Ok(RollOutcome { success: attack.success && !defense.success, ..attack })
        } else {
            Ok(attack)
        }
    }
}

/// How many 2d10 rolls [`hack_roll`] makes.
pub open spec fn hack_rolls(units: Seq<Combatant>, a: int, t: int) -> int {
    if !units[a].has_hack || units[a].link <= 0 || units[t].link <= 0 {
        0
    } else if net_defense_of(units, t) > 0 {
        2
    } else {
        1
    }
}

/// Roll a hack from `attacker` onto `target` (see [`hack_roll`]); the caller lands the
/// payload on a success.
pub fn hack_contest<R: RandomSource>(units: &[Combatant], attacker: usize, target: usize, rng: &mut R) -> (r: Result<RollOutcome, HackResult>)
    requires
        attacker < units@.len(),
        target < units@.len(),
        field_ok(units@),
        units@[attacker as int].has_hack && units@[attacker as int].link > 0 && units@[target as int].link > 0
            ==> hack_fits(units@, attacker as int, target as int),
        can_roll(*old(rng)),
        hack_rolls(units@, attacker as int, target as int) == 2 ==> can_roll(after_roll(*old(rng))),
    ensures
        r == hack_roll(units@, attacker as int, target as int, *old(rng)),
        *final(rng) == if hack_rolls(units@, attacker as int, target as int) == 0 {
            *old(rng)
        } else if hack_rolls(units@, attacker as int, target as int) == 1 {
            after_roll(*old(rng))
        } else {
            after_roll(after_roll(*old(rng)))
        },
{
    let a = &units[attacker];
    let t = &units[target];
    if !a.has_hack {
        return Err(HackResult::NoHack);
    }
    if a.link <= 0 {
        return Err(HackResult::Offline);
    }
    if t.link <= 0 {
        return Err(HackResult::NoSurface);
    }
    let channel = if a.link < t.link {
        a.link
    } else {
        t.link
    };
    let rating = hack_rating(a.hacking, channel) + a.mesh_synergy;
    let defense = net_defense(units, target);
    proof {
        let c = choose|d: int| defends_with(units@, target as int, d);
        lemma_defense_unique(units@, target as int, c, defense as int);
    }
    if defense > 0 {
        let opposed = resolve_opposed(rng, rating, defense);
        Ok(RollOutcome { success: opposed.landed, ..opposed.attack })
    } else {
        Ok(resolve_check(rng, rating))
    }
}

/// **Closing never retreats**: on the open plane a closing step never ends farther from
/// the goal, and on a zoned board a routed step that moves lands strictly fewer flow
/// steps from the goal.
pub proof fn lemma_closing_never_retreats(t: Terrain, units: Seq<Combatant>, i: int, goal: Hex, flank: bool, next: Hex)
    requires
        closes(t, units, i, goal, flank, next),
    ensures
        t.zone_spec() is None ==> next.dist(goal) <= units[i].pos.dist(goal),
        t.zone_spec() is Some && next != units[i].pos ==> flow_at(t, units, i, goal, next) is Some && (flow_at(
            t,
            units,
            i,
            goal,
            units[i].pos,
        ) is None || flow_at(t, units, i, goal, next)->0 < flow_at(t, units, i, goal, units[i].pos)->0),
{
    if t.zone_spec() is None {
        assert(plane_cand(t, units, i, units[i].pos));
    } else if exists|h: Hex| #[trigger] routed_cand(t, units, i, goal, h) {
        assert(routed_cand(t, units, i, goal, next));
    }
}

/// **Backing off never closes**: a retreat step never ends nearer the threat.
pub proof fn lemma_backing_off_never_closes(t: Terrain, units: Seq<Combatant>, i: int, from: Hex, next: Hex)
    requires
        backs_off(t, units, i, from, next),
    ensures
        next.dist(from) >= units[i].pos.dist(from),
{
    assert(plane_cand(t, units, i, units[i].pos));
}

/// Does an attack connect? Against an undefended target (`evade ≤ 0`) a clean shot
/// (`penalty ≤ 0`) lands outright and a hard one on a roll-under of `aim`; against a
/// defender, only when the attacker connects **and** the dodge (a roll-under of `evade`)
/// fails.
pub open spec fn lands<R: RandomSource>(rng: R, aim: int, penalty: int, evade: int) -> bool {
    if evade <= 0 {
        penalty <= 0 || outcome_of(dice_2d10(rng), aim).success
    } else {
        outcome_of(dice_2d10(rng), aim).success && !outcome_of(dice_2d10(after_roll(rng)), evade).success
    }
}

/// How many 2d10 rolls deciding an attack takes.
pub open spec fn landing_rolls(penalty: int, evade: int) -> int {
    if evade <= 0 {
        if penalty <= 0 {
            0
        } else {
            1
        }
    } else {
        2
    }
}

/// The numbers an attack's to-hit contest rolls with.
#[derive(Clone, Copy, PartialEq, Eq, Debug, Structural)]
pub struct ToHit {
    /// The attacker's roll-under target: weapon skill plus accuracy, less the penalty.
    pub aim: i32,
    /// What range and cover take off the shot.
    pub penalty: i32,
    /// The defender's dodge target: its evasion, less the weapon's speed.
    pub evade: i32,
}

/// The to-hit numbers of a weapon with `tags` at engagement distance `dist`, against a
/// target in `cover` (the hex's cover TN): the penalty is the tags' range rules plus the
/// cover, the aim is `skill + accuracy − penalty`, and the dodge is `evasion − speed`. `None`
/// when those numbers leave the range a roll can be made with.
pub fn to_hit(
    tags: EquipmentTags,
    dist: i32,
    cover: i32,
    skill: i32,
    accuracy: i32,
    evasion: i32,
    speed: i32,
) -> (h: Option<ToHit>)
    ensures
        ({
            let penalty = tags.penalty_at(dist as int) + cover;
            let aim = skill + accuracy - penalty;
            let evade = evasion - speed;
            let fits = i32::MIN <= penalty <= i32::MAX && i32::MIN + 20 <= aim <= i32::MAX && i32::MIN
                <= evade <= i32::MAX;
            &&& fits ==> h == Some(ToHit { aim: aim as i32, penalty: penalty as i32, evade: evade as i32 })
            &&& !fits ==> h is None
        }),
{
    let band = tags.to_hit_penalty(dist) as i64;
    let penalty = band + cover as i64;
    let aim = skill as i64 + accuracy as i64 - penalty;
    let evade = evasion as i64 - speed as i64;
    let lo = i32::MIN as i64;
    let hi = i32::MAX as i64;
    if penalty < lo || penalty > hi || aim < lo + 20 || aim > hi || evade < lo || evade > hi {
        return None;
    }
    Some(ToHit { aim: aim as i32, penalty: penalty as i32, evade: evade as i32 })
}

/// Roll whether an attack connects (see [`lands`]).
pub fn attack_lands<R: RandomSource>(rng: &mut R, aim: i32, penalty: i32, evade: i32) -> (b: bool)
    requires
        aim >= i32::MIN + 20,
        landing_rolls(penalty as int, evade as int) >= 1 ==> can_roll(*old(rng)),
        landing_rolls(penalty as int, evade as int) == 2 ==> can_roll(after_roll(*old(rng))),
    ensures
        b == lands(*old(rng), aim as int, penalty as int, evade as int),
        *final(rng) == if landing_rolls(penalty as int, evade as int) == 0 {
            *old(rng)
        } else if landing_rolls(penalty as int, evade as int) == 1 {
            after_roll(*old(rng))
        } else {
            after_roll(after_roll(*old(rng)))
        },
{
    if evade <= 0 {
        penalty <= 0 || resolve_check(rng, aim).success
    } else {
        resolve_opposed(rng, aim, evade).landed
    }
}

/// The sum of the first `n` coverages.
pub open spec fn coverage_upto(covs: Seq<i32>, n: int) -> int
    decreases n,
{
    if n <= 0 {
        0
    } else {
        coverage_upto(covs, n - 1) + covs[n - 1]
    }
}

/// Where the table slice of implant `k` ends.
pub open spec fn slot_end(covs: Seq<i32>, k: int) -> int {
    coverage_upto(covs, k + 1)
}

/// Where a blow with hit-table `roll` lands, given the body's coverage and each live
/// implant's: the flesh (`None`) below `body`, else the first implant whose slice of the
/// table holds the roll (`Some(k)`), the last one if the roll runs past the table.
pub open spec fn landing_slot(roll: int, body: int, covs: Seq<i32>) -> Option<int> {
    if roll < body {
        None
    } else if exists|k: int| 0 <= k < covs.len() && roll < body + #[trigger] slot_end(covs, k) {
        Some(choose|k: int| 0 <= k < covs.len() && roll < body + #[trigger] slot_end(covs, k) && forall|m: int| 0 <= m < k ==> roll >= body + #[trigger] slot_end(covs, m))
    } else {
        Some(covs.len() - 1)
    }
}

/// The hit-table roll a source yields: its next draw modulo the table size (at least one).
pub open spec fn table_roll(draw: u64, body: int, covs: Seq<i32>) -> int {
    let total = body + coverage_upto(covs, covs.len() as int);
    (draw as int) % (if total > 1 { total } else { 1 })
}

/// Roll the **hit location** of a blow on a chromed target: the body and each live implant
/// (`covs`, non-empty) own a slice of the table proportional to their coverage. `None` is
/// the flesh; `Some(k)` is implant `k`. See [`landing_slot`].
pub fn strike_point<R: RandomSource>(rng: &mut R, body: i32, covs: &[i32]) -> (r: Option<usize>)
    requires
        old(rng).can_draw(),
        covs@.len() > 0,
        0 <= body,
        forall|k: int| 0 <= k < covs@.len() ==> 0 <= #[trigger] covs@[k],
        body + coverage_upto(covs@, covs@.len() as int) <= i32::MAX,
    ensures
        *final(rng) == old(rng).advanced(),
        match r {
            None => landing_slot(table_roll(old(rng).peek(), body as int, covs@), body as int, covs@) is None,
            Some(k) => landing_slot(table_roll(old(rng).peek(), body as int, covs@), body as int, covs@) == Some(k as int),
        },
{
    let mut total: i32 = body;
    let mut k: usize = 0;
    while k < covs.len()
        invariant
            0 <= k <= covs@.len(),
            0 <= body,
            forall|m: int| 0 <= m < covs@.len() ==> 0 <= #[trigger] covs@[m],
            body + coverage_upto(covs@, covs@.len() as int) <= i32::MAX,
            total == body + coverage_upto(covs@, k as int),
        decreases covs@.len() - k,
    {
        proof {
            lemma_coverage_grows(covs@, k + 1, covs@.len() as int);
        }
        total = total + covs[k];
        k += 1;
    }
    let size: u64 = if total > 1 {
        total as u64
    } else {
        1
    };
    let draw = rng.next_u64();
    let roll = (draw % size) as i32;
    assert(roll as int == table_roll(old(rng).peek(), body as int, covs@));
    if roll < body {
        return None;
    }
    let mut acc: i32 = body;
    let mut j: usize = 0;
    while j < covs.len()
        invariant
            0 <= j <= covs@.len(),
            0 <= body <= roll,
            forall|m: int| 0 <= m < covs@.len() ==> 0 <= #[trigger] covs@[m],
            body + coverage_upto(covs@, covs@.len() as int) <= i32::MAX,
            acc == body + coverage_upto(covs@, j as int),
            forall|m: int| 0 <= m < j ==> roll >= body + #[trigger] slot_end(covs@, m),
            *rng == old(rng).advanced(),
            roll as int == table_roll(old(rng).peek(), body as int, covs@),
        decreases covs@.len() - j,
    {
        proof {
            lemma_coverage_grows(covs@, j + 1, covs@.len() as int);
        }
        acc = acc + covs[j];
        if roll < acc {
            proof {
                assert(roll < body + slot_end(covs@, j as int));
                assert(0 <= j < covs@.len() && roll < body + slot_end(covs@, j as int) && forall|m: int| 0 <= m < j ==> roll >= body + #[trigger] slot_end(covs@, m));
                let c = choose|c: int| 0 <= c < covs@.len() && roll < body + #[trigger] slot_end(covs@, c) && forall|m: int| 0 <= m < c ==> roll >= body + #[trigger] slot_end(covs@, m);
                if c < j {
                    assert(roll >= body + slot_end(covs@, c));
                } else if c > j {
                    assert(roll >= body + slot_end(covs@, j as int));
                }
            }
            return Some(j);
        }
        j += 1;
    }
    Some(covs.len() - 1)
}

/// Coverage sums only grow.
proof fn lemma_coverage_grows(covs: Seq<i32>, a: int, b: int)
    requires
        0 <= a <= b <= covs.len(),
        forall|k: int| 0 <= k < covs.len() ==> 0 <= #[trigger] covs[k],
    ensures
        coverage_upto(covs, a) <= coverage_upto(covs, b),
        coverage_upto(covs, a) >= 0,
    decreases b - a,
{
    lemma_coverage_nonneg(covs, a);
    if a < b {
        lemma_coverage_grows(covs, a, b - 1);
    }
}

/// Coverage sums are never negative.
proof fn lemma_coverage_nonneg(covs: Seq<i32>, a: int)
    requires
        0 <= a <= covs.len(),
        forall|k: int| 0 <= k < covs.len() ==> 0 <= #[trigger] covs[k],
    ensures
        coverage_upto(covs, a) >= 0,
    decreases a,
{
    if a > 0 {
        lemma_coverage_nonneg(covs, a - 1);
    }
}

/// `e` is a living enemy of unit `i` nearer than every other living enemy: by distance,
/// then id, then index.
pub open spec fn nearest_living_enemy(units: Seq<Combatant>, i: int, e: int) -> bool {
    &&& 0 <= e < units.len()
    &&& e != i
    &&& units[e].alive
    &&& units[e].team != units[i].team
    &&& forall|k: int|
        0 <= k < units.len() && k != i && k != e && #[trigger] units[k].alive && units[k].team != units[i].team
            ==> {
            let de = units[i].pos.dist(units[e].pos);
            let dk = units[i].pos.dist(units[k].pos);
            de < dk || (de == dk && (units[e].id < units[k].id || (units[e].id == units[k].id && e < k)))
        }
}

/// The nearest living enemy is the one [`nearest_of`] finds.
proof fn lemma_nearest_is_found(units: Seq<Combatant>, i: int, e: int)
    requires
        0 <= i < units.len(),
        nearest_living_enemy(units, i, e),
    ensures
        nearest_of(units, i, true) == Some(e),
{
    let ok = |k: int| kin(units, i, true, k);
    let key = |k: int| near_key(units, i, k);
    assert(first_least(units.len() as int, ok, key, e)) by {
        assert forall|k: int| 0 <= k < units.len() && #[trigger] ok(k) implies !lex2_lt(key(k), key(e)) by {
            if k != e {
                assert(units[k].alive && units[k].team != units[i].team);
            }
        }
        assert forall|k: int| 0 <= k < e && #[trigger] ok(k) implies lex2_lt(key(e), key(k)) by {
            assert(units[k].alive && units[k].team != units[i].team);
        }
    }
    let c = choose|j: int| first_least(units.len() as int, ok, key, j);
    lemma_first_least_unique(units.len() as int, ok, key, c, e);
}

/// **A swarmer rushes the nearest enemy, whoever its target is**: the step a `Swarm`
/// unit takes closes on its nearest living enemy (distance, then id), whatever target it
/// was handed; with no enemy alive it stays put.
pub proof fn lemma_swarm_rushes_the_nearest(
    t: Terrain,
    units: Seq<Combatant>,
    i: int,
    target: int,
    other_target: int,
    next: Hex,
    other_next: Hex,
)
    requires
        0 <= i < units.len(),
        units[i].movement == MovementProfile::Swarm,
        wanted_step(t, units, i, target, next),
        wanted_step(t, units, i, other_target, other_next),
    ensures
        next == other_next,
        forall|e: int| nearest_living_enemy(units, i, e) ==> closes(t, units, i, #[trigger] units[e].pos, false, next),
        (forall|k: int| 0 <= k < units.len() && k != i ==> !(#[trigger] units[k].alive && units[k].team != units[i].team))
            ==> next == units[i].pos,
{
    match nearest_of(units, i, true) {
        Some(e) => lemma_closes_unique(t, units, i, units[e].pos, false, next, other_next),
        None => {},
    }
    assert forall|e: int| nearest_living_enemy(units, i, e) implies closes(t, units, i, #[trigger] units[e].pos, false, next) by {
        lemma_nearest_is_found(units, i, e);
    }
    if forall|k: int| 0 <= k < units.len() && k != i ==> !(#[trigger] units[k].alive && units[k].team != units[i].team) {
        let ok = |k: int| kin(units, i, true, k);
        let key = |k: int| near_key(units, i, k);
        if exists|j: int| first_least(units.len() as int, ok, key, j) {
            let j = choose|j: int| first_least(units.len() as int, ok, key, j);
            assert(ok(j));
            assert(units[j].alive && units[j].team != units[i].team);
        }
    }
}

/// **An armed enemy is fair game wherever it stands**: a `Nearest` unit whose nearest
/// living enemy carries a weapon targets that enemy, even on an objective hex — only an
/// unarmed node on a focus is spared — and whatever it does target is a living enemy, never
/// an unarmed node on a focus.
pub proof fn lemma_armed_enemies_are_fair_game(units: Seq<Combatant>, foci: Seq<Hex>, i: int, r: Option<int>)
    requires
        0 <= i < units.len(),
        match r {
            Some(j) => aimed_at(units, foci, i, j),
            None => none_pass(units.len() as int, |k: int| fair_game(units, foci, i, k)),
        },
    ensures
        r matches Some(j) ==> 0 <= j < units.len() && j != i && units[j].alive && units[j].team != units[i].team
            && !(foci.contains(units[j].pos) && units[j].bands@.len() == 0),
        units[i].targeting == TargetingProfile::Nearest ==> forall|e: int|
            nearest_living_enemy(units, i, e) && #[trigger] units[e].bands@.len() > 0 ==> r == Some(e),
{
    let ok = |k: int| fair_game(units, foci, i, k);
    let key = |k: int| aim_key(units, i, k);
    if let Some(j) = r {
        if units[i].targeting == TargetingProfile::Backline {
            assert(ok(j));
        } else {
            assert(ok(j));
        }
    }
    if units[i].targeting == TargetingProfile::Nearest {
        assert forall|e: int| nearest_living_enemy(units, i, e) && #[trigger] units[e].bands@.len() > 0 implies r == Some(e) by {
            assert(ok(e));
            assert(first_least(units.len() as int, ok, key, e)) by {
                assert forall|k: int| 0 <= k < units.len() && #[trigger] ok(k) implies !lex2_lt(key(k), key(e)) by {
                    if k != e {
                        assert(units[k].alive && units[k].team != units[i].team);
                    }
                }
                assert forall|k: int| 0 <= k < e && #[trigger] ok(k) implies lex2_lt(key(e), key(k)) by {
                    assert(units[k].alive && units[k].team != units[i].team);
                }
            }
            match r {
                Some(j) => lemma_first_least_unique(units.len() as int, ok, key, j, e),
                None => assert(!ok(e)),
            }
        }
    }
}

/// **A runner only dives a surface it can reach**: whatever hack target is picked is a
/// living enemy with a live net surface (Link above zero) within the runner's antenna reach
/// (its own Link); and a runner with such an enemy in reach always picks one.
pub proof fn lemma_dive_targets_have_a_surface(units: Seq<Combatant>, foci: Seq<Hex>, i: int, r: Option<int>)
    requires
        0 <= i < units.len(),
        match r {
            Some(j) => first_least3(
                units.len() as int,
                |k: int| hackable(units, i, k),
                |k: int| dive_key(units, foci, i, k),
                j,
            ),
            None => none_pass(units.len() as int, |k: int| hackable(units, i, k)),
        },
    ensures
        r matches Some(j) ==> {
            &&& 0 <= j < units.len()
            &&& j != i
            &&& units[j].alive
            &&& units[j].team != units[i].team
            &&& units[j].link > 0
            &&& units[i].pos.dist(units[j].pos) <= units[i].link || units[i].pos == units[j].pos
        },
        forall|k: int|
            0 <= k < units.len() && k != i && #[trigger] units[k].alive && units[k].team != units[i].team
                && units[k].link > 0 && units[i].link > 0 && units[i].pos.dist(units[k].pos) <= units[i].link
                ==> r is Some,
{
    let ok = |k: int| hackable(units, i, k);
    if let Some(j) = r {
        assert(ok(j));
        crate::hex::lemma_distance_is_a_metric(units[i].pos, units[j].pos, units[j].pos);
    }
    assert forall|k: int|
        0 <= k < units.len() && k != i && #[trigger] units[k].alive && units[k].team != units[i].team
            && units[k].link > 0 && units[i].link > 0 && units[i].pos.dist(units[k].pos) <= units[i].link
            implies r is Some by {
        if r is None {
            assert(ok(k));
        }
    }
}

/// **A dodged blow never lands**: against a defender (a dodge above zero) whose own
/// roll-under of its dodge succeeds, the attack misses, whatever the attacker rolled; and
/// it lands only when the attacker's roll connects.
pub proof fn lemma_a_dodge_stops_the_blow<R: RandomSource>(rng: R, aim: int, penalty: int, evade: int)
    ensures
        evade > 0 && outcome_of(dice_2d10(after_roll(rng)), evade).success ==> !lands(rng, aim, penalty, evade),
        evade > 0 && lands(rng, aim, penalty, evade) ==> outcome_of(dice_2d10(rng), aim).success,
        evade > 0 && outcome_of(dice_2d10(rng), aim).success && !outcome_of(dice_2d10(after_roll(rng)), evade).success
            ==> lands(rng, aim, penalty, evade),
        evade <= 0 && penalty <= 0 ==> lands(rng, aim, penalty, evade),
{
}

} // verus!
