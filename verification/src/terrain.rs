//! Board **zones** — the engagement area that turns the bare, unbounded hex grid into a
//! place with structure.
//!
//! A [`Bounds`] zone is free ground. Its edge is *soft*, not a wall: a unit may step
//! beyond it, but each hex outside costs escalating movement — `1 + distance past the
//! zone` — so a kiter bogs down in the fringe and a pursuer runs it down. With no zone the
//! board is an open plane, cost 1 everywhere.
use vstd::prelude::*;
use crate::hex::Hex;

verus! {

/// How far past the zone the engine still paths (friction bogs units down within a hex or
/// two of the edge, so a small fringe is plenty).
pub const FRINGE: i32 = 3;

/// A rectangular zone in axial coords — `[min_q, max_q] × [min_r, max_r]`, inclusive.
#[derive(Clone, Copy, PartialEq, Eq, Debug, Structural)]
pub struct Bounds {
    pub min_q: i32,
    pub max_q: i32,
    pub min_r: i32,
    pub max_r: i32,
}

/// `x` clamped into `[lo, hi]` (`lo` wins when the range is empty, as `max` then `min`
/// would not — the zone is assumed well-formed where it matters).
pub open spec fn clamp_to(x: int, lo: int, hi: int) -> int {
    if x < lo {
        lo
    } else if x > hi {
        hi
    } else {
        x
    }
}

impl Bounds {
    /// Is the zone non-empty (`min ≤ max` on both axes)?
    pub open spec fn wf(self) -> bool {
        self.min_q <= self.max_q && self.min_r <= self.max_r
    }

    /// Does the zone contain `h`?
    pub open spec fn covers(self, h: Hex) -> bool {
        self.min_q <= h.q <= self.max_q && self.min_r <= h.r <= self.max_r
    }

    /// The nearest in-zone hex to `h`, clamped per axis.
    pub open spec fn nearest(self, h: Hex) -> Hex {
        Hex {
            q: clamp_to(h.q as int, self.min_q as int, self.max_q as int) as i32,
            r: clamp_to(h.r as int, self.min_r as int, self.max_r as int) as i32,
        }
    }

    /// How far `h` lies outside the zone.
    pub open spec fn past(self, h: Hex) -> int {
        h.dist(self.nearest(h))
    }

    /// The overshoot distance of `h` is computable in `i32`.
    pub open spec fn past_ok(self, h: Hex) -> bool {
        self.wf() && h.dist_ok(self.nearest(h))
    }

    /// The `depth × frontage` arena zone: columns `0..depth`, rows `0..frontage` (a
    /// degenerate size still yields the single hex at the origin).
    pub fn arena(depth: i32, frontage: i32) -> (b: Bounds)
        requires
            depth > i32::MIN,
            frontage > i32::MIN,
        ensures
            b.min_q == 0,
            b.min_r == 0,
            b.max_q == if depth - 1 > 0 {
                depth - 1
            } else {
                0
            },
            b.max_r == if frontage - 1 > 0 {
                frontage - 1
            } else {
                0
            },
            b.wf(),
    {
        Bounds {
            min_q: 0,
            max_q: if depth - 1 > 0 {
                depth - 1
            } else {
                0
            },
            min_r: 0,
            max_r: if frontage - 1 > 0 {
                frontage - 1
            } else {
                0
            },
        }
    }

    /// Is `h` inside the zone (inclusive)?
    pub fn contains(self, h: Hex) -> (b: bool)
        ensures
            b == self.covers(h),
    {
        self.min_q <= h.q && h.q <= self.max_q && self.min_r <= h.r && h.r <= self.max_r
    }

    /// The nearest in-zone hex to `h` (clamped per axis) — `h` itself when already inside.
    pub fn clamp(self, h: Hex) -> (c: Hex)
        requires
            self.wf(),
        ensures
            c == self.nearest(h),
            self.covers(c),
            self.covers(h) ==> c == h,
    {
        let q = if h.q < self.min_q {
            self.min_q
        } else if h.q > self.max_q {
            self.max_q
        } else {
            h.q
        };
        let r = if h.r < self.min_r {
            self.min_r
        } else if h.r > self.max_r {
            self.max_r
        } else {
            h.r
        };
        Hex::new(q, r)
    }

    /// How far `h` lies **outside** the zone (0 when inside) — the friction distance.
    pub fn overshoot(self, h: Hex) -> (d: i32)
        requires
            self.past_ok(h),
        ensures
            d == self.past(h),
            d >= 0,
            d == 0 <==> self.covers(h),
    {
        let c = self.clamp(h);
        proof {
            crate::hex::lemma_distance_is_a_metric(h, c, c);
        }
        h.distance(c)
    }
}

/// The movement cost to enter `hex` under an optional zone: `1` inside the zone or on the
/// open plane, rising by `1` per hex of overshoot.
pub open spec fn cost_to_enter(zone: Option<Bounds>, hex: Hex) -> int {
    match zone {
        None => 1,
        Some(b) => 1 + b.past(hex),
    }
}

/// The zone computations for `hex` stay inside `i32`.
pub open spec fn zone_ok(zone: Option<Bounds>, hex: Hex) -> bool {
    match zone {
        None => true,
        Some(b) => b.past_ok(hex) && b.past(hex) < i32::MAX,
    }
}

/// Is `hex` inside the optional zone? (Always on the open plane.)
pub fn in_zone(zone: Option<Bounds>, hex: Hex) -> (b: bool)
    ensures
        b == match zone {
            None => true,
            Some(z) => z.covers(hex),
        },
{
    match zone {
        None => true,
        Some(b) => b.contains(hex),
    }
}

/// The **movement cost** to enter `hex`: `1` inside the zone (or on the open plane),
/// rising by `1` per hex of overshoot past the zone edge.
pub fn move_cost(zone: Option<Bounds>, hex: Hex) -> (c: i32)
    requires
        zone_ok(zone, hex),
    ensures
        c == cost_to_enter(zone, hex),
        c >= 1,
{
    match zone {
        None => 1,
        Some(b) => 1 + b.overshoot(hex),
    }
}

/// Is `hex` worth pathing through — inside the zone or within the thin fringe past it?
/// Bounds a flow-field search so it always terminates.
pub fn pathable(zone: Option<Bounds>, hex: Hex) -> (b: bool)
    requires
        zone_ok(zone, hex),
    ensures
        b == match zone {
            None => true,
            Some(z) => z.past(hex) <= FRINGE,
        },
{
    match zone {
        None => true,
        Some(b) => b.overshoot(hex) <= FRINGE,
    }
}

/// **The zone edge is soft friction**: entering costs exactly one inside the zone and
/// strictly more anywhere outside it, and an open plane charges one everywhere.
pub proof fn lemma_friction_is_soft(zone: Option<Bounds>, hex: Hex)
    requires
        zone is Some ==> zone->0.wf(),
    ensures
        zone is None ==> cost_to_enter(zone, hex) == 1,
        zone is Some ==> (cost_to_enter(zone, hex) == 1 <==> zone->0.covers(hex)),
        cost_to_enter(zone, hex) >= 1,
{
    if let Some(b) = zone {
        let c = b.nearest(hex);
        crate::hex::lemma_distance_is_a_metric(hex, c, c);
    }
}

/// What a board hex holds besides a unit, as the movement and attack rules read it.
#[derive(Clone, Copy, PartialEq, Eq, Debug, Default, Structural)]
pub enum Ground {
    /// Empty ground — passable, no modifier.
    #[default]
    Open,
    /// **Impassable** wall / rubble: movement routes around it.
    Blocked,
    /// **Cover** — passable; `+tn` to an attacker's to-hit target number.
    Cover(i32),
    /// **Hazard** — passable, but it damages whoever stands on it each tick; the AI avoids it.
    Hazard,
}

impl Ground {
    /// Can a unit move onto / through this ground?
    pub fn passable(self) -> (b: bool)
        ensures
            b == !(self is Blocked),
    {
        !matches!(self, Ground::Blocked)
    }

    /// The to-hit TN this ground adds to its occupant's defense (cover; 0 otherwise).
    pub fn cover_tn(self) -> (tn: i32)
        ensures
            tn == match self {
                Ground::Cover(t) => t,
                _ => 0,
            },
    {
        match self {
            Ground::Cover(tn) => tn,
            _ => 0,
        }
    }
}

/// The ground at `hex` in a sparse list of placements: the last placement there wins, and
/// an unlisted hex is open.
pub open spec fn ground_in(tiles: Seq<(Hex, Ground)>, hex: Hex) -> Ground
    decreases tiles.len(),
{
    if tiles.len() == 0 {
        Ground::Open
    } else if tiles.last().0 == hex {
        tiles.last().1
    } else {
        ground_in(tiles.drop_last(), hex)
    }
}

/// A battle's **board**: an optional engagement [`Bounds`] zone plus sparse ground. The
/// default is an open, unbounded plane — no zone, every hex open, move cost one.
#[derive(Clone, Debug, Default)]
pub struct Terrain {
    zone: Option<Bounds>,
    tiles: Vec<(Hex, Ground)>,
}

impl Terrain {
    /// The engagement zone (`None` = open plane).
    pub closed spec fn zone_spec(self) -> Option<Bounds> {
        self.zone
    }

    /// The ground at `hex`.
    pub closed spec fn ground(self, hex: Hex) -> Ground {
        ground_in(self.tiles@, hex)
    }

    /// Can a unit stand on `hex`?
    pub open spec fn open_at(self, hex: Hex) -> bool {
        !(self.ground(hex) is Blocked)
    }

    /// Is `hex` worth pathing through — in the zone or within the fringe past it?
    pub open spec fn pathable_at(self, hex: Hex) -> bool {
        match self.zone_spec() {
            None => true,
            Some(z) => z.past(hex) <= FRINGE,
        }
    }

    /// The zone and its fringe lie on the battlefield, so every zone computation near the
    /// battlefield fits `i32`.
    pub open spec fn wf(self) -> bool {
        match self.zone_spec() {
            None => true,
            Some(z) => z.wf() && -0x0FFF_FFF0 + FRINGE + 1 <= z.min_q && z.max_q <= 0x0FFF_FFF0
                - FRINGE - 1 && -0x0FFF_FFF0 + FRINGE + 1 <= z.min_r && z.max_r <= 0x0FFF_FFF0
                - FRINGE - 1,
        }
    }

    /// The open, unbounded plane.
    pub fn open_plane() -> (t: Terrain)
        ensures
            t.zone_spec() is None,
            forall|h: Hex| t.ground(h) == Ground::Open,
    {
        Terrain { zone: None, tiles: Vec::new() }
    }

    /// An **arena**: a `depth × frontage` engagement zone (columns `0..depth`, rows
    /// `0..frontage`) of open ground.
    pub fn arena(depth: i32, frontage: i32) -> (t: Terrain)
        requires
            depth > i32::MIN,
            frontage > i32::MIN,
        ensures
            t.zone_spec() == Some(
                Bounds {
                    min_q: 0,
                    max_q: if depth - 1 > 0 {
                        (depth - 1) as i32
                    } else {
                        0
                    },
                    min_r: 0,
                    max_r: if frontage - 1 > 0 {
                        (frontage - 1) as i32
                    } else {
                        0
                    },
                },
            ),
            forall|h: Hex| t.ground(h) == Ground::Open,
    {
        Terrain { zone: Some(Bounds::arena(depth, frontage)), tiles: Vec::new() }
    }

    /// The board's engagement zone, if any.
    pub fn zone(&self) -> (z: Option<Bounds>)
        ensures
            z == self.zone_spec(),
    {
        self.zone
    }

    /// Builder: place `ground` at `hex` (`Open` clears any feature there).
    pub fn set(self, hex: Hex, ground: Ground) -> (t: Terrain)
        ensures
            t.zone_spec() == self.zone_spec(),
            t.ground(hex) == ground,
            forall|h: Hex| h != hex ==> t.ground(h) == self.ground(h),
    {
        let mut t = self;
        t.tiles.push((hex, ground));
        proof {
            assert(t.tiles@.drop_last() =~= self.tiles@);
        }
        t
    }

    /// Builder: stamp the same `ground` across many hexes; hexes outside the zone are
    /// ignored, so a map can over-paint freely.
    pub fn fill(self, hexes: &[Hex], ground: Ground) -> (t: Terrain)
        ensures
            t.zone_spec() == self.zone_spec(),
            forall|h: Hex|
                #![trigger t.ground(h)]
                t.ground(h) == if hexes@.contains(h) && match self.zone_spec() {
                    None => true,
                    Some(z) => z.covers(h),
                } {
                    ground
                } else {
                    self.ground(h)
                },
    {
        let mut t = self;
        let mut k: usize = 0;
        while k < hexes.len()
            invariant
                0 <= k <= hexes@.len(),
                t.zone_spec() == self.zone_spec(),
                forall|h: Hex|
                    #![trigger t.ground(h)]
                    t.ground(h) == if hexes@.take(k as int).contains(h) && match self.zone_spec() {
                        None => true,
                        Some(z) => z.covers(h),
                    } {
                        ground
                    } else {
                        self.ground(h)
                    },
            decreases hexes@.len() - k,
        {
            let h = hexes[k];
            let ghost before = t;
            if in_zone(t.zone, h) {
                t = t.set(h, ground);
            }
            proof {
                assert(hexes@.take(k + 1) =~= hexes@.take(k as int).push(h));
                assert forall|x: Hex| #![trigger t.ground(x)] t.ground(x) == if hexes@.take(k + 1).contains(x) && match self.zone_spec() {
                    None => true,
                    Some(z) => z.covers(x),
                } {
                    ground
                } else {
                    self.ground(x)
                } by {
                    let pre = hexes@.take(k as int);
                    let post = hexes@.take(k + 1);
                    if pre.contains(x) {
                        let w = choose|w: int| 0 <= w < pre.len() && pre[w] == x;
                        assert(post[w] == x);
                    }
                    if x == h {
                        assert(post[k as int] == x);
                    }
                    if post.contains(x) {
                        let w = choose|w: int| 0 <= w < post.len() && post[w] == x;
                        if w < k {
                            assert(pre[w] == x);
                        }
                    }
                    assert(post.contains(x) <==> (pre.contains(x) || x == h));
                    assert(before.ground(x) == t.ground(x) || x == h);
                }
            }
            k += 1;
        }
        proof {
            assert(hexes@.take(hexes@.len() as int) =~= hexes@);
        }
        t
    }

    /// The ground at `hex` — open for any unlisted hex.
    pub fn tile(&self, hex: Hex) -> (g: Ground)
        ensures
            g == self.ground(hex),
    {
        let mut k: usize = self.tiles.len();
        proof {
            assert(self.tiles@.take(k as int) =~= self.tiles@);
        }
        while k > 0
            invariant
                0 <= k <= self.tiles@.len(),
                ground_in(self.tiles@, hex) == ground_in(self.tiles@.take(k as int), hex),
            decreases k,
        {
            let e = self.tiles[k - 1];
            proof {
                assert(self.tiles@.take(k as int).drop_last() =~= self.tiles@.take(k - 1));
                assert(self.tiles@.take(k as int).last() == e);
            }
            if e.0 == hex {
                return e.1;
            }
            k -= 1;
        }
        proof {
            assert(self.tiles@.take(0) =~= Seq::<(Hex, Ground)>::empty());
        }
        Ground::Open
    }

    /// Is `hex` inside the engagement zone? (Always on the open plane.)
    pub fn in_zone(&self, hex: Hex) -> (b: bool)
        ensures
            b == match self.zone_spec() {
                None => true,
                Some(z) => z.covers(hex),
            },
    {
        in_zone(self.zone, hex)
    }

    /// The **movement cost** to enter `hex`: `1` inside the zone (or on the open plane),
    /// rising by `1` per hex of overshoot past the zone edge.
    pub fn move_cost(&self, hex: Hex) -> (c: i32)
        requires
            zone_ok(self.zone_spec(), hex),
        ensures
            c == cost_to_enter(self.zone_spec(), hex),
    {
        move_cost(self.zone, hex)
    }

    /// Is `hex` worth pathing through — inside the zone or within the fringe past it?
    pub fn pathable(&self, hex: Hex) -> (b: bool)
        requires
            zone_ok(self.zone_spec(), hex),
        ensures
            b == self.pathable_at(hex),
    {
        pathable(self.zone, hex)
    }

    /// Can a unit stand on / move through `hex` — not a hard blocker? (The zone edge is
    /// soft, charged by the move cost, not refused here.)
    pub fn passable(&self, hex: Hex) -> (b: bool)
        ensures
            b == self.open_at(hex),
    {
        self.tile(hex).passable()
    }

    /// The cover TN a unit standing on `hex` gains.
    pub fn cover_tn(&self, hex: Hex) -> (tn: i32)
        ensures
            tn == match self.ground(hex) {
                Ground::Cover(t) => t,
                _ => 0,
            },
    {
        self.tile(hex).cover_tn()
    }

    /// Does `hex` damage its occupant each tick?
    pub fn is_hazard(&self, hex: Hex) -> (b: bool)
        ensures
            b == (self.ground(hex) is Hazard),
    {
        matches!(self.tile(hex), Ground::Hazard)
    }
}

/// On a well-formed board every zone computation for a battlefield hex fits `i32`.
pub proof fn lemma_zone_fits(t: Terrain, h: Hex)
    requires
        t.wf(),
        -0x0FFF_FFF1 <= h.q <= 0x0FFF_FFF1,
        -0x0FFF_FFF1 <= h.r <= 0x0FFF_FFF1,
    ensures
        zone_ok(t.zone_spec(), h),
        t.zone_spec() is Some && t.pathable_at(h) ==> h.in_play(),
{
    if let Some(z) = t.zone_spec() {
        let c = z.nearest(h);
        crate::hex::lemma_distance_is_a_metric(h, c, c);
        crate::hex::lemma_dist_is_max(h, c);
    }
}

} // verus!
