//! Flat-top hexagonal grid math, in axial coordinates.
//!
//! Columns are depth ranks (`q`), the long edge is frontage (`r`). Pixel placement
//! belongs to a front-end; this module is pure topology.
use vstd::prelude::*;

verus! {

/// An axial hex coordinate.
#[derive(Clone, Copy, PartialEq, Eq, Debug, Hash, Structural)]
pub struct Hex {
    /// Column / depth rank.
    pub q: i32,
    /// Row / frontage.
    pub r: i32,
}

/// Absolute value on mathematical integers.
pub open spec fn abs(x: int) -> int {
    if x < 0 {
        -x
    } else {
        x
    }
}

/// The `q` step of axial direction `d` (`0..6`): `(1,0) (1,-1) (0,-1) (-1,0) (-1,1) (0,1)`.
pub open spec fn dir_dq(d: int) -> int {
    if d == 0 || d == 1 {
        1
    } else if d == 3 || d == 4 {
        -1
    } else {
        0
    }
}

/// The `r` step of axial direction `d` (`0..6`).
pub open spec fn dir_dr(d: int) -> int {
    if d == 1 || d == 2 {
        -1
    } else if d == 4 || d == 5 {
        1
    } else {
        0
    }
}

/// Does `(q, r)` fit the `i32` coordinate range?
pub open spec fn fits(q: int, r: int) -> bool {
    i32::MIN <= q <= i32::MAX && i32::MIN <= r <= i32::MAX
}

/// Lexicographic `a < b` on integer triples (the order of Rust's tuple keys).
pub open spec fn lex_lt(a: (int, int, int), b: (int, int, int)) -> bool {
    a.0 < b.0 || (a.0 == b.0 && (a.1 < b.1 || (a.1 == b.1 && a.2 < b.2)))
}

/// Lexicographic `a < b` on integer quadruples.
pub open spec fn lex4_lt(a: (int, int, int, int), b: (int, int, int, int)) -> bool {
    a.0 < b.0 || (a.0 == b.0 && lex_lt((a.1, a.2, a.3), (b.1, b.2, b.3)))
}

/// The six axial step vectors, in order — shared by neighbours, rings and beams.
fn direction(d: usize) -> (v: (i32, i32))
    requires
        d < 6,
    ensures
        v.0 == dir_dq(d as int),
        v.1 == dir_dr(d as int),
{
    if d == 0 {
        (1, 0)
    } else if d == 1 {
        (1, -1)
    } else if d == 2 {
        (0, -1)
    } else if d == 3 {
        (-1, 0)
    } else if d == 4 {
        (-1, 1)
    } else {
        (0, 1)
    }
}

fn abs_i32(x: i32) -> (a: i32)
    requires
        x > i32::MIN,
    ensures
        a == abs(x as int),
{
    if x < 0 {
        -x
    } else {
        x
    }
}

fn lex_lt3(a: (i32, i32, i32), b: (i32, i32, i32)) -> (lt: bool)
    ensures
        lt == lex_lt((a.0 as int, a.1 as int, a.2 as int), (b.0 as int, b.1 as int, b.2 as int)),
{
    a.0 < b.0 || (a.0 == b.0 && (a.1 < b.1 || (a.1 == b.1 && a.2 < b.2)))
}

fn lex_lt4(a: (i32, i32, i32, i32), b: (i32, i32, i32, i32)) -> (lt: bool)
    ensures
        lt == lex4_lt(
            (a.0 as int, a.1 as int, a.2 as int, a.3 as int),
            (b.0 as int, b.1 as int, b.2 as int, b.3 as int),
        ),
{
    a.0 < b.0 || (a.0 == b.0 && lex_lt3((a.1, a.2, a.3), (b.1, b.2, b.3)))
}

impl Hex {
    /// The hex `(q + dq, r + dr)`.
    pub open spec fn offset(self, dq: int, dr: int) -> Hex {
        Hex { q: (self.q + dq) as i32, r: (self.r + dr) as i32 }
    }

    /// The neighbour in axial direction `d`.
    pub open spec fn nbr(self, d: int) -> Hex {
        self.offset(dir_dq(d), dir_dr(d))
    }

    /// Cube-coordinate distance: half the sum of the three cube-axis differences.
    pub open spec fn dist(self, other: Hex) -> int {
        (abs(self.q - other.q) + abs(self.r - other.r) + abs((self.q + self.r) - (other.q
            + other.r))) / 2
    }

    /// The distance computation between `self` and `other` stays inside `i32`.
    pub open spec fn dist_ok(self, other: Hex) -> bool {
        let dq = self.q - other.q;
        let dr = self.r - other.r;
        let ds = (self.q + self.r) - (other.q + other.r);
        &&& i32::MIN <= self.q + self.r <= i32::MAX
        &&& i32::MIN <= other.q + other.r <= i32::MAX
        &&& i32::MIN < dq <= i32::MAX
        &&& i32::MIN < dr <= i32::MAX
        &&& i32::MIN < ds <= i32::MAX
        &&& abs(dq) + abs(dr) + abs(ds) <= i32::MAX
    }

    /// All six neighbours of `self` are representable.
    pub open spec fn step_ok(self) -> bool {
        i32::MIN < self.q < i32::MAX && i32::MIN < self.r < i32::MAX
    }

    /// `self`, its neighbours and their distances to `goal` are all computable.
    pub open spec fn around_ok(self, goal: Hex) -> bool {
        &&& self.step_ok()
        &&& self.dist_ok(goal)
        &&& forall|d: int| 0 <= d < 6 ==> (#[trigger] self.nbr(d)).dist_ok(goal)
    }

    /// A battlefield coordinate: as far out as `i32` lets the distance between any two such
    /// hexes, or between their neighbours, be computed (its three axis differences summed).
    pub open spec fn in_play(self) -> bool {
        -0x0FFF_FFF0 <= self.q <= 0x0FFF_FFF0 && -0x0FFF_FFF0 <= self.r <= 0x0FFF_FFF0
    }

    /// Candidate `i` of a one-step move: `0` stays, `1..7` are the neighbours in order.
    pub open spec fn candidate(self, i: int) -> Hex {
        if i == 0 {
            self
        } else {
            self.nbr(i - 1)
        }
    }

    /// Scan order of a footprint listing: ascending column, then descending row.
    pub open spec fn scan_before(a: Hex, b: Hex) -> bool {
        a.q < b.q || (a.q == b.q && a.r > b.r)
    }

    /// Is `k` the **first** direction whose neighbour is nearest to `goal`?
    pub open spec fn first_nearest_dir(self, goal: Hex, k: int) -> bool {
        &&& 0 <= k < 6
        &&& forall|j: int| 0 <= j < 6 ==> self.nbr(k).dist(goal) <= #[trigger] self.nbr(j).dist(
            goal,
        )
        &&& forall|j: int| 0 <= j < k ==> self.nbr(k).dist(goal) < #[trigger] self.nbr(j).dist(
            goal,
        )
    }

    /// The retreat key: farther first, then lower `q`, then lower `r`.
    pub open spec fn away_key(h: Hex, threat: Hex) -> (int, int, int) {
        (h.dist(threat), -h.q, -h.r)
    }

    /// The flank key: nearer first, then wider frontage offset, then `q`, then `r`.
    pub open spec fn flank_key(h: Hex, goal: Hex) -> (int, int, int, int) {
        (h.dist(goal), -abs(h.r - goal.r), h.q as int, h.r as int)
    }

    pub fn new(q: i32, r: i32) -> (h: Hex)
        ensures
            h.q == q,
            h.r == r,
    {
        Hex { q, r }
    }

    /// Cube-coordinate distance between two hexes.
    pub fn distance(self, other: Hex) -> (d: i32)
        requires
            self.dist_ok(other),
        ensures
            d == self.dist(other),
    {
        let dq = self.q - other.q;
        let dr = self.r - other.r;
        let ds = (self.q + self.r) - (other.q + other.r);
        (abs_i32(dq) + abs_i32(dr) + abs_i32(ds)) / 2
    }

    /// The six adjacent hexes (degree-6 neighbourhood), in axial direction order.
    pub fn neighbors(self) -> (ns: [Hex; 6])
        requires
            self.step_ok(),
        ensures
            forall|d: int| 0 <= d < 6 ==> #[trigger] ns@[d] == self.nbr(d),
    {
        let ns = [
            Hex::new(self.q + 1, self.r),
            Hex::new(self.q + 1, self.r - 1),
            Hex::new(self.q, self.r - 1),
            Hex::new(self.q - 1, self.r),
            Hex::new(self.q - 1, self.r + 1),
            Hex::new(self.q, self.r + 1),
        ];
        assert(ns@[0] == self.nbr(0));
        assert(ns@[1] == self.nbr(1));
        assert(ns@[2] == self.nbr(2));
        assert(ns@[3] == self.nbr(3));
        assert(ns@[4] == self.nbr(4));
        assert(ns@[5] == self.nbr(5));
        ns
    }

    /// The `q` offset of ring corner `k` (side `k` of a radius-`n` ring starts there).
    pub open spec fn ring_corner_q(k: int, n: int) -> int {
        if k == 0 || k == 5 {
            -n
        } else if k == 1 || k == 4 {
            0
        } else {
            n
        }
    }

    /// The `r` offset of ring corner `k`.
    pub open spec fn ring_corner_r(k: int, n: int) -> int {
        if k == 0 || k == 1 {
            n
        } else if k == 2 || k == 5 {
            0
        } else {
            -n
        }
    }

    /// The `j`-th hex of side `k` of the radius-`n` ring around `self`.
    pub open spec fn ring_hex(self, n: int, k: int, j: int) -> Hex {
        self.offset(
            Hex::ring_corner_q(k, n) + dir_dq(k) * j,
            Hex::ring_corner_r(k, n) + dir_dr(k) * j,
        )
    }

    /// The ring of radius `n > 0` as a sequence: six sides of `n` hexes each.
    pub open spec fn ring_seq(self, n: int) -> Seq<Hex> {
        Seq::new((6 * n) as nat, |i: int| self.ring_hex(n, i / n, i % n))
    }

    /// A straight line of `length` hexes from `self` stepping in direction `dir` (taken
    /// mod 6) — the **beam spine**. `self` is the first hex.
    pub fn line(self, dir: usize, length: i32) -> (out: Vec<Hex>)
        requires
            length > 0 ==> fits(
                self.q + dir_dq(dir as int % 6) * (length - 1),
                self.r + dir_dr(dir as int % 6) * (length - 1),
            ),
        ensures
            out@.len() == if length > 0 {
                length as int
            } else {
                0
            },
            forall|i: int|
                0 <= i < out@.len() ==> #[trigger] out@[i] == self.offset(
                    dir_dq(dir as int % 6) * i,
                    dir_dr(dir as int % 6) * i,
                ),
            forall|i: int| 0 <= i < out@.len() ==> self.dist(#[trigger] out@[i]) == i,
    {
        let (dq, dr) = direction(dir % 6);
        let n = if length > 0 {
            length
        } else {
            0
        };
        let mut out: Vec<Hex> = Vec::new();
        let mut i: i32 = 0;
        while i < n
            invariant
                0 <= i <= n,
                n == if length > 0 {
                    length
                } else {
                    0
                },
                dq == dir_dq(dir as int % 6),
                dr == dir_dr(dir as int % 6),
                -1 <= dq <= 1,
                -1 <= dr <= 1,
                length > 0 ==> fits(self.q + dq * (length - 1), self.r + dr * (length - 1)),
                out@.len() == i,
                forall|k: int|
                    0 <= k < i ==> #[trigger] out@[k] == self.offset(dq * k, dr * k),
                forall|k: int| 0 <= k < i ==> self.dist(#[trigger] out@[k]) == k,
            decreases n - i,
        {
            proof {
                assert(-(length - 1) <= dq * i <= length - 1) by (nonlinear_arith)
                    requires
                        -1 <= dq <= 1,
                        0 <= i < length,
                ;
                assert(-(length - 1) <= dr * i <= length - 1) by (nonlinear_arith)
                    requires
                        -1 <= dr <= 1,
                        0 <= i < length,
                ;
                assert(dq * i == dq * (length - 1) || i32::MIN <= self.q + dq * i <= i32::MAX)
                    by (nonlinear_arith)
                    requires
                        -1 <= dq <= 1,
                        0 <= i < length,
                        i32::MIN <= self.q + dq * (length - 1) <= i32::MAX,
                        i32::MIN <= self.q <= i32::MAX,
                ;
                assert(i32::MIN <= self.r + dr * i <= i32::MAX) by (nonlinear_arith)
                    requires
                        -1 <= dr <= 1,
                        0 <= i < length,
                        i32::MIN <= self.r + dr * (length - 1) <= i32::MAX,
                        i32::MIN <= self.r <= i32::MAX,
                ;
                assert(i32::MIN <= self.q + dq * i <= i32::MAX) by (nonlinear_arith)
                    requires
                        -1 <= dq <= 1,
                        0 <= i < length,
                        i32::MIN <= self.q + dq * (length - 1) <= i32::MAX,
                        i32::MIN <= self.q <= i32::MAX,
                ;
                let d = dir as int % 6;
                lemma_unit_mul(dq as int, i as int);
                lemma_unit_mul(dr as int, i as int);
                assert(self.dist(self.offset(dq * i, dr * i)) == i) by {
                    if d == 0 {
                        assert(dq * i == i && dr * i == 0);
                    } else if d == 1 {
                        assert(dq * i == i && dr * i == -i);
                    } else if d == 2 {
                        assert(dq * i == 0 && dr * i == -i);
                    } else if d == 3 {
                        assert(dq * i == -i && dr * i == 0);
                    } else if d == 4 {
                        assert(dq * i == -i && dr * i == i);
                    } else {
                        assert(dq * i == 0 && dr * i == i);
                    }
                }
            }
            out.push(Hex::new(self.q + dq * i, self.r + dr * i));
            i += 1;
        }
        out
    }

    /// The hexes at *exactly* `radius` (the ring) — `6·radius` of them, walked side by
    /// side from the corner along direction 4 (`radius ≤ 0` gives just `self`).
    pub fn ring(self, radius: i32) -> (out: Vec<Hex>)
        requires
            radius > 0 ==> fits(self.q - radius, self.r - radius) && fits(
                self.q + radius,
                self.r + radius,
            ),
        ensures
            radius <= 0 ==> out@ == seq![self],
            radius > 0 ==> out@ == self.ring_seq(radius as int),
            radius > 0 ==> out@.len() == 6 * radius,
            radius > 0 ==> forall|i: int|
                0 <= i < out@.len() ==> self.dist(#[trigger] out@[i]) == radius,
    {
        if radius <= 0 {
            return vec![self];
        }
        let ghost n = radius as int;
        let mut out: Vec<Hex> = Vec::new();
        let (sq, sr) = direction(4);
        let mut hex = Hex::new(self.q + sq * radius, self.r + sr * radius);
        let mut k: usize = 0;
        while k < 6
            invariant
                0 <= k <= 6,
                n == radius,
                radius > 0,
                fits(self.q - radius, self.r - radius),
                fits(self.q + radius, self.r + radius),
                out@ == Seq::new((k * n) as nat, |i: int| self.ring_hex(n, i / n, i % n)),
                k < 6 ==> hex == self.ring_hex(n, k as int, 0),
            decreases 6 - k,
        {
            let (dq, dr) = direction(k);
            let mut j: i32 = 0;
            while j < radius
                invariant
                    0 <= k < 6,
                    0 <= j <= radius,
                    n == radius,
                    radius > 0,
                    fits(self.q - radius, self.r - radius),
                    fits(self.q + radius, self.r + radius),
                    dq == dir_dq(k as int),
                    dr == dir_dr(k as int),
                    out@ == Seq::new((k * n + j) as nat, |i: int| self.ring_hex(n, i / n, i % n)),
                    hex == self.ring_hex(n, k as int, j as int),
                decreases radius - j,
            {
                proof {
                    vstd::arithmetic::div_mod::lemma_fundamental_div_mod_converse(
                        k * n + j,
                        n,
                        k as int,
                        j as int,
                    );
                    assert(out@.push(hex) =~= Seq::new(
                        (k * n + j + 1) as nat,
                        |i: int| self.ring_hex(n, i / n, i % n),
                    ));
                }
                out.push(hex);
                hex = Hex::new(hex.q + dq, hex.r + dr);
                j += 1;
            }
            proof {
                assert(k * n + n == (k + 1) * n) by (nonlinear_arith);
                if k < 5 {
                    let kk = k as int;
                    lemma_unit_mul(dir_dq(kk), n);
                    lemma_unit_mul(dir_dr(kk), n);
                    assert(self.ring_hex(n, kk, n) == self.ring_hex(n, kk + 1, 0)) by {
                        if kk == 0 {
                            assert(dir_dq(kk) * n == n && dir_dr(kk) * n == 0);
                        } else if kk == 1 {
                            assert(dir_dq(kk) * n == n && dir_dr(kk) * n == -n);
                        } else if kk == 2 {
                            assert(dir_dq(kk) * n == 0 && dir_dr(kk) * n == -n);
                        } else if kk == 3 {
                            assert(dir_dq(kk) * n == -n && dir_dr(kk) * n == 0);
                        } else {
                            assert(dir_dq(kk) * n == -n && dir_dr(kk) * n == n);
                        }
                    }
                }
            }
            k += 1;
        }
        proof {
            assert forall|i: int| 0 <= i < out@.len() implies self.dist(#[trigger] out@[i])
                == radius by {
                let kk = i / n;
                let jj = i % n;
                vstd::arithmetic::div_mod::lemma_fundamental_div_mod(i, n);
                assert(0 <= jj < n);
                assert(0 <= kk < 6) by (nonlinear_arith)
                    requires
                        i == n * kk + jj,
                        0 <= jj < n,
                        0 <= i < 6 * n,
                        n > 0,
                ;
                lemma_ring_hex_at_radius(self, n, kk, jj);
            }
        }
        out
    }

    /// All hexes within `radius` of `self` (inclusive) — the **blast footprint**.
    /// Radius 1 covers 7 hexes, radius 2 covers 19 (`1 + 3·r·(r+1)`); listed column by
    /// column (ascending `q`), and down each column (descending `r`).
    pub fn within(self, radius: i32) -> (out: Vec<Hex>)
        requires
            radius != i32::MIN,
            radius >= 0 ==> 2 * radius <= i32::MAX && fits(self.q - radius, self.r - radius)
                && fits(self.q + radius, self.r + radius),
        ensures
            forall|h: Hex| out@.contains(h) <==> self.dist(h) <= radius,
            forall|i: int, j: int|
                0 <= i < j < out@.len() ==> Hex::scan_before(#[trigger] out@[i], #[trigger] out@[j]),
            radius >= 0 ==> out@.len() == 1 + 3 * radius * (radius + 1),
            radius < 0 ==> out@.len() == 0,
    {
        let mut out: Vec<Hex> = Vec::new();
        if radius < 0 {
            proof {
                assert forall|h: Hex| out@.contains(h) <==> self.dist(h) <= radius by {
                    lemma_distance_is_a_metric(self, h, h);
                }
            }
            return out;
        }
        let ghost n = radius as int;
        let mut dx: i32 = -radius;
        while dx <= radius
            invariant
                n == radius,
                radius >= 0,
                2 * radius <= i32::MAX,
                fits(self.q - radius, self.r - radius),
                fits(self.q + radius, self.r + radius),
                -n <= dx <= n + 1,
                forall|h: Hex|
                    out@.contains(h) <==> (self.dist(h) <= n && h.q - self.q < dx),
                forall|i: int| 0 <= i < out@.len() ==> (#[trigger] out@[i]).q - self.q < dx,
                forall|i: int, j: int|
                    0 <= i < j < out@.len() ==> Hex::scan_before(
                        #[trigger] out@[i],
                        #[trigger] out@[j],
                    ),
                out@.len() == within_count(n, dx as int),
            decreases n + 1 - dx,
        {
            let lo = if -radius > -dx - radius {
                -radius
            } else {
                -dx - radius
            };
            let hi = if radius < -dx + radius {
                radius
            } else {
                -dx + radius
            };
            let ghost base = out@.len();
            let mut dy = lo;
            while dy <= hi
                invariant
                    n == radius,
                    radius >= 0,
                    2 * radius <= i32::MAX,
                    fits(self.q - radius, self.r - radius),
                    fits(self.q + radius, self.r + radius),
                    -n <= dx <= n,
                    lo == row_lo(n, dx as int),
                    hi == row_hi(n, dx as int),
                    lo <= dy <= hi + 1,
                    forall|h: Hex|
                        out@.contains(h) <==> (self.dist(h) <= n && (h.q - self.q < dx || (h.q
                            - self.q == dx && h.r - self.r > -dx - dy))),
                    forall|i: int|
                        0 <= i < out@.len() ==> ((#[trigger] out@[i]).q - self.q < dx || (
                        out@[i].q - self.q == dx && out@[i].r - self.r > -dx - dy)),
                    forall|i: int, j: int|
                        0 <= i < j < out@.len() ==> Hex::scan_before(
                            #[trigger] out@[i],
                            #[trigger] out@[j],
                        ),
                    base == within_count(n, dx as int),
                    out@.len() == base + (dy - lo),
                decreases hi + 1 - dy,
            {
                let dz = -dx - dy;
                let h = Hex::new(self.q + dx, self.r + dz);
                proof {
                    let old_out = out@;
                    assert forall|g: Hex| old_out.push(h).contains(g) <==> (self.dist(g) <= n && (
                    g.q - self.q < dx || (g.q - self.q == dx && g.r - self.r > -dx - (dy + 1))))
                        by {
                        if g == h {
                            assert(old_out.push(h)[old_out.len() as int] == h);
                        }
                        if old_out.push(h).contains(g) && g != h {
                            let k = choose|k: int| 0 <= k < old_out.push(h).len() && old_out.push(h)[k] == g;
                            assert(old_out.contains(g)) by {
                                assert(old_out[k] == g);
                            }
                        }
                        if old_out.contains(g) {
                            let k = choose|k: int| 0 <= k < old_out.len() && old_out[k] == g;
                            assert(old_out.push(h)[k] == g);
                        }
                    }
                }
                out.push(h);
                dy += 1;
            }
            proof {
                assert forall|h: Hex| out@.contains(h) <==> (self.dist(h) <= n && h.q - self.q < dx
                    + 1) by {
                    if h.q - self.q == dx {
                        lemma_dist_is_max(self, h);
                    }
                }
            }
            dx += 1;
        }
        proof {
            lemma_within_count(n, n + 1);
            assert(2 * within_count(n, n + 1) == 2 * (1 + 3 * n * (n + 1))) by (nonlinear_arith)
                requires
                    2 * within_count(n, n + 1) == 2 * n * (n + 1) + n * (n - 1) + 2 * (n + 1) * (2
                        * n + 1) - (n + 1) * n,
            ;
            assert forall|h: Hex| out@.contains(h) <==> self.dist(h) <= radius by {
                lemma_dist_is_max(self, h);
            }
        }
        out
    }

    /// The neighbour that most reduces distance to `goal` (one step of a greedy path) —
    /// the first such in direction order. Returns `self` if already adjacent-or-on the goal.
    pub fn step_toward(self, goal: Hex) -> (next: Hex)
        requires
            self.around_ok(goal),
        ensures
            self.dist(goal) <= 1 ==> next == self,
            self.dist(goal) > 1 ==> exists|k: int|
                self.first_nearest_dir(goal, k) && next == #[trigger] self.nbr(k),
            self.dist(goal) > 1 ==> next.dist(goal) == self.dist(goal) - 1,
    {
        if self.distance(goal) <= 1 {
            return self;
        }
        let best = self.direction_to(goal);
        let ns = self.neighbors();
        proof {
            lemma_some_step_closes(self, goal);
            assert forall|d: int| 0 <= d < 6 implies self.nbr(d).dist(goal) >= self.dist(goal) - 1 by {
                lemma_step_moves_by_one(self, goal, d);
            }
            let w = choose|d: int| 0 <= d < 6 && #[trigger] self.nbr(d).dist(goal) == self.dist(goal) - 1;
            assert(self.nbr(w).dist(goal) == self.dist(goal) - 1);
        }
        ns[best]
    }

    /// The axial **direction index** (`0..6`) whose one-hex step best closes on `goal` —
    /// the bearing a beam fires along. Ties break to the lower index.
    pub fn direction_to(self, goal: Hex) -> (dir: usize)
        requires
            self.around_ok(goal),
        ensures
            self.first_nearest_dir(goal, dir as int),
    {
        let ns = self.neighbors();
        let mut best: usize = 0;
        let mut best_d = ns[0].distance(goal);
        let mut i: usize = 1;
        while i < 6
            invariant
                1 <= i <= 6,
                best < i,
                self.around_ok(goal),
                forall|d: int| 0 <= d < 6 ==> #[trigger] ns@[d] == self.nbr(d),
                best_d == self.nbr(best as int).dist(goal),
                forall|j: int| 0 <= j < i ==> best_d <= #[trigger] self.nbr(j).dist(goal),
                forall|j: int| 0 <= j < best ==> best_d < #[trigger] self.nbr(j).dist(goal),
            decreases 6 - i,
        {
            assert(ns@[i as int] == self.nbr(i as int));
            let d = ns[i].distance(goal);
            if d < best_d {
                best = i;
                best_d = d;
            }
            i += 1;
        }
        best
    }

    /// The neighbour (or `self`) that **maximises** distance from `threat` — one step of a
    /// retreat. Ties break toward lower `q`, then lower `r`, so it is deterministic.
    pub fn step_away(self, threat: Hex) -> (next: Hex)
        requires
            self.around_ok(threat),
            i32::MIN + 1 < self.q,
            i32::MIN + 1 < self.r,
        ensures
            exists|i: int| 0 <= i < 7 && next == #[trigger] self.candidate(i),
            forall|i: int|
                0 <= i < 7 ==> !lex_lt(
                    Hex::away_key(next, threat),
                    #[trigger] Hex::away_key(self.candidate(i), threat),
                ),
            next.dist(threat) == self.dist(threat) + 1,
            self.dist(next) == 1,
    {
        let ns = self.neighbors();
        let mut best = self;
        let mut best_key = (self.distance(threat), -self.q, -self.r);
        let mut i: usize = 0;
        proof {
            assert(self.candidate(0) == self);
        }
        while i < 6
            invariant
                0 <= i <= 6,
                self.around_ok(threat),
                i32::MIN + 1 < self.q,
                i32::MIN + 1 < self.r,
                forall|d: int| 0 <= d < 6 ==> #[trigger] ns@[d] == self.nbr(d),
                exists|k: int| 0 <= k <= i && best == #[trigger] self.candidate(k),
                best_key == (best.dist(threat) as i32, -best.q as i32, -best.r as i32),
                best_key.0 == best.dist(threat),
                best_key.1 == -best.q,
                best_key.2 == -best.r,
                forall|k: int|
                    0 <= k <= i ==> !lex_lt(
                        Hex::away_key(best, threat),
                        #[trigger] Hex::away_key(self.candidate(k), threat),
                    ),
            decreases 6 - i,
        {
            let h = ns[i];
            assert(h == self.candidate(i + 1));
            let key = (h.distance(threat), -h.q, -h.r);
            if !lex_lt3(key, best_key) {
                best = h;
                best_key = key;
            }
            i += 1;
        }
        proof {
            lemma_some_step_retreats(self, threat);
            let w = choose|d: int| 0 <= d < 6 && #[trigger] self.nbr(d).dist(threat) == self.dist(threat) + 1;
            assert(self.candidate(w + 1) == self.nbr(w));
            assert(!lex_lt(Hex::away_key(best, threat), Hex::away_key(self.candidate(w + 1), threat)));
            let k = choose|k: int| 0 <= k <= 6 && best == #[trigger] self.candidate(k);
            if k > 0 {
                lemma_step_moves_by_one(self, threat, k - 1);
                lemma_neighbors_are_adjacent(self);
                assert(self.dist(self.nbr(k - 1)) == 1);
            }
        }
        best
    }

    /// A **flanking** step toward `goal`: close the distance, but break ties toward the
    /// greatest frontage (row) offset — approach from the side.
    pub fn step_flank(self, goal: Hex) -> (next: Hex)
        requires
            self.around_ok(goal),
            forall|i: int|
                0 <= i < 7 ==> i32::MIN < (#[trigger] self.candidate(i)).r - goal.r <= i32::MAX,
        ensures
            exists|i: int| 0 <= i < 7 && next == #[trigger] self.candidate(i),
            forall|i: int|
                0 <= i < 7 ==> !lex4_lt(
                    #[trigger] Hex::flank_key(self.candidate(i), goal),
                    Hex::flank_key(next, goal),
                ),
            self == goal ==> next == self,
            self != goal ==> next.dist(goal) == self.dist(goal) - 1,
    {
        let ns = self.neighbors();
        assert(self.candidate(0) == self);
        let mut best = self;
        let mut best_key = (self.distance(goal), -abs_i32(self.r - goal.r), self.q, self.r);
        let mut i: usize = 0;
        while i < 6
            invariant
                0 <= i <= 6,
                self.around_ok(goal),
                forall|j: int|
                    0 <= j < 7 ==> i32::MIN < (#[trigger] self.candidate(j)).r - goal.r
                        <= i32::MAX,
                forall|d: int| 0 <= d < 6 ==> #[trigger] ns@[d] == self.nbr(d),
                exists|k: int| 0 <= k <= i && best == #[trigger] self.candidate(k),
                best_key.0 == best.dist(goal),
                best_key.1 == -abs(best.r - goal.r),
                best_key.2 == best.q,
                best_key.3 == best.r,
                forall|k: int|
                    0 <= k <= i ==> !lex4_lt(
                        #[trigger] Hex::flank_key(self.candidate(k), goal),
                        Hex::flank_key(best, goal),
                    ),
            decreases 6 - i,
        {
            let h = ns[i];
            assert(h == self.candidate(i + 1));
            let key = (h.distance(goal), -abs_i32(h.r - goal.r), h.q, h.r);
            if lex_lt4(key, best_key) {
                best = h;
                best_key = key;
            }
            i += 1;
        }
        proof {
            lemma_distance_is_a_metric(self, goal, goal);
            lemma_neighbors_are_adjacent(self);
            let k = choose|k: int| 0 <= k <= 6 && best == #[trigger] self.candidate(k);
            if self == goal {
                assert forall|d: int| 0 <= d < 6 implies (#[trigger] self.nbr(d)).dist(goal) == 1 by {
                    lemma_distance_is_a_metric(self.nbr(d), self, self);
                }
                if k > 0 {
                    assert(self.nbr(k - 1).dist(goal) == 1);
                    assert(lex4_lt(Hex::flank_key(self.candidate(0), goal), Hex::flank_key(best, goal)));
                }
            } else {
                lemma_some_step_closes(self, goal);
                let w = choose|d: int| 0 <= d < 6 && #[trigger] self.nbr(d).dist(goal) == self.dist(goal) - 1;
                assert(self.candidate(w + 1) == self.nbr(w));
                assert(!lex4_lt(Hex::flank_key(self.candidate(w + 1), goal), Hex::flank_key(best, goal)));
                if k > 0 {
                    lemma_step_moves_by_one(self, goal, k - 1);
                }
            }
        }
        best
    }
}


/// The cube distance is the largest of the three cube-axis differences.
pub proof fn lemma_dist_is_max(a: Hex, b: Hex)
    ensures
        ({
            let x = abs(a.q - b.q);
            let y = abs(a.r - b.r);
            let z = abs((a.q + a.r) - (b.q + b.r));
            a.dist(b) == if x >= y && x >= z {
                x
            } else if y >= z {
                y
            } else {
                z
            }
        }),
{
}

/// **Distance is a metric** on the hex grid: zero exactly on the same hex, symmetric,
/// and it obeys the triangle inequality.
pub proof fn lemma_distance_is_a_metric(a: Hex, b: Hex, c: Hex)
    ensures
        a.dist(a) == 0,
        a.dist(b) >= 0,
        a.dist(b) == b.dist(a),
        a.dist(b) == 0 <==> a == b,
        a.dist(c) <= a.dist(b) + b.dist(c),
{
    lemma_dist_is_max(a, b);
    lemma_dist_is_max(b, a);
    lemma_dist_is_max(b, c);
    lemma_dist_is_max(a, c);
}

/// Every neighbour sits at distance exactly one, and the six are distinct.
pub proof fn lemma_neighbors_are_adjacent(h: Hex)
    requires
        h.step_ok(),
    ensures
        forall|d: int| 0 <= d < 6 ==> #[trigger] h.dist(h.nbr(d)) == 1,
        forall|d: int, e: int| 0 <= d < 6 && 0 <= e < 6 && d != e ==> h.nbr(d) != h.nbr(e),
{
}

/// A step changes the distance to any hex by at most one.
proof fn lemma_step_moves_by_one(h: Hex, g: Hex, d: int)
    requires
        h.step_ok(),
        0 <= d < 6,
    ensures
        h.dist(g) - 1 <= h.nbr(d).dist(g) <= h.dist(g) + 1,
{
    lemma_distance_is_a_metric(h, h.nbr(d), g);
    lemma_distance_is_a_metric(h.nbr(d), h, g);
}

/// Away from the goal there is always a neighbour one hex nearer.
proof fn lemma_some_step_closes(h: Hex, g: Hex)
    requires
        h.step_ok(),
        h != g,
    ensures
        exists|d: int| 0 <= d < 6 && #[trigger] h.nbr(d).dist(g) == h.dist(g) - 1,
{
    let x = g.q - h.q;
    let z = g.r - h.r;
    let d: int = if x > 0 && z >= 0 {
        0
    } else if x > 0 && x + z >= 0 {
        1
    } else if x >= 0 && z < 0 {
        2
    } else if x < 0 && z <= 0 {
        3
    } else if x < 0 && x + z <= 0 {
        4
    } else {
        5
    };
    assert(h.nbr(d).dist(g) == h.dist(g) - 1);
}

/// Lowest row offset of footprint column `x` (radius `n`).
pub open spec fn row_lo(n: int, x: int) -> int {
    if -n > -x - n {
        -n
    } else {
        -x - n
    }
}

/// Highest row offset of footprint column `x` (radius `n`).
pub open spec fn row_hi(n: int, x: int) -> int {
    if n < -x + n {
        n
    } else {
        -x + n
    }
}

/// How many hexes the radius-`n` footprint holds in the columns left of `x`.
pub open spec fn within_count(n: int, x: int) -> int
    decreases x + n,
{
    if x <= -n {
        0
    } else {
        within_count(n, x - 1) + (row_hi(n, x - 1) - row_lo(n, x - 1) + 1)
    }
}

/// Twice the footprint column count, in closed form.
pub proof fn lemma_within_count(n: int, x: int)
    requires
        0 <= n,
        -n <= x <= n + 1,
    ensures
        2 * within_count(n, x) == if x <= 0 {
            2 * (x + n) * (n + 1) + (x + n) * (x + n - 1)
        } else {
            2 * n * (n + 1) + n * (n - 1) + 2 * x * (2 * n + 1) - x * (x - 1)
        },
    decreases x + n,
{
    if x == -n {
        assert(2 * (x + n) * (n + 1) + (x + n) * (x + n - 1) == 0) by (nonlinear_arith)
            requires
                x + n == 0,
        ;
    } else {
        lemma_within_count(n, x - 1);
        assert(within_count(n, x) == within_count(n, x - 1) + (row_hi(n, x - 1) - row_lo(n, x - 1)
            + 1));
        if x - 1 < 0 {
            assert(row_hi(n, x - 1) - row_lo(n, x - 1) + 1 == 2 * n + x);
        } else {
            assert(row_hi(n, x - 1) - row_lo(n, x - 1) + 1 == 2 * n - x + 2);
        }
        let m = x + n;
        if x <= 0 {
            assert(2 * (m - 1) * (n + 1) + (m - 1) * (m - 2) + 2 * (2 * n + x) == 2 * m * (n + 1)
                + m * (m - 1)) by (nonlinear_arith)
                requires
                    m == x + n,
            ;
        } else if x == 1 {
            assert(2 * n * (n + 1) + n * (n - 1) + 2 * (2 * n - x + 2) == 2 * n * (n + 1) + n * (n
                - 1) + 2 * x * (2 * n + 1) - x * (x - 1)) by (nonlinear_arith)
                requires
                    x == 1,
            ;
        } else {
            assert(2 * (x - 1) * (2 * n + 1) - (x - 1) * (x - 2) + 2 * (2 * n - x + 2) == 2 * x * (
            2 * n + 1) - x * (x - 1)) by (nonlinear_arith);
        }
    }
}

/// Multiplying by a unit step (`-1`, `0` or `1`).
pub proof fn lemma_unit_mul(a: int, x: int)
    requires
        -1 <= a <= 1,
    ensures
        a * x == if a == 1 {
            x
        } else if a == -1 {
            -x
        } else {
            0
        },
{
    if a == 1 {
    } else if a == -1 {
        assert(a * x == -x) by (nonlinear_arith)
            requires
                a == -1,
        ;
    } else {
    }
}

/// Every hex of a ring sits at exactly the ring's radius.
pub proof fn lemma_ring_hex_at_radius(h: Hex, n: int, k: int, j: int)
    requires
        n > 0,
        0 <= k < 6,
        0 <= j < n,
        fits(h.q - n, h.r - n),
        fits(h.q + n, h.r + n),
    ensures
        h.dist(h.ring_hex(n, k, j)) == n,
{
    if k == 0 {
    } else if k == 1 {
    } else if k == 2 {
    } else if k == 3 {
    } else if k == 4 {
    } else {
    }
}

/// There is always a neighbour one hex farther away.
proof fn lemma_some_step_retreats(h: Hex, g: Hex)
    requires
        h.step_ok(),
    ensures
        exists|d: int| 0 <= d < 6 && #[trigger] h.nbr(d).dist(g) == h.dist(g) + 1,
{
    let x = g.q - h.q;
    let z = g.r - h.r;
    if x > 0 && z >= 0 {
        assert(h.nbr(3).dist(g) == h.dist(g) + 1);
    } else if x > 0 && x + z >= 0 {
        assert(h.nbr(4).dist(g) == h.dist(g) + 1);
    } else if x >= 0 && z < 0 {
        assert(h.nbr(5).dist(g) == h.dist(g) + 1);
    } else if x < 0 && z <= 0 {
        assert(h.nbr(0).dist(g) == h.dist(g) + 1);
    } else if x < 0 && x + z <= 0 {
        assert(h.nbr(1).dist(g) == h.dist(g) + 1);
    } else {
        assert(h.nbr(2).dist(g) == h.dist(g) + 1);
    }
}

/// Between battlefield hexes every distance, neighbour and neighbour distance fits `i32`.
pub proof fn lemma_in_play_fits(a: Hex, b: Hex)
    requires
        a.in_play(),
        b.in_play(),
    ensures
        a.dist_ok(b),
        a.step_ok(),
        a.around_ok(b),
        forall|d: int| 0 <= d < 6 ==> (#[trigger] a.nbr(d)).around_ok(b),
        forall|d: int| 0 <= d < 6 ==> (#[trigger] a.nbr(d)).dist_ok(b.nbr(d)),
{
}

/// An integer code for a hex, injective over the whole `i32` plane and increasing in
/// `(q, r)` order.
pub open spec fn hex_code(h: Hex) -> int {
    h.q * 0x1_0000_0000 + h.r
}

/// Distinct hexes inside the box `[lo.q, hi.q] × [lo.r, hi.r]` are at most as many as the
/// codes between the corners.
pub proof fn lemma_distinct_hexes_in_box(keys: Seq<Hex>, lo: Hex, hi: Hex)
    requires
        keys.no_duplicates(),
        lo.q <= hi.q,
        lo.r <= hi.r,
        forall|k: int|
            0 <= k < keys.len() ==> lo.q <= (#[trigger] keys[k]).q <= hi.q && lo.r <= keys[k].r
                <= hi.r,
    ensures
        keys.len() <= hex_code(hi) - hex_code(lo) + 1,
{
    let f = |h: Hex| hex_code(h);
    assert(vstd::relations::injective(f)) by {
        assert forall|a: Hex, b: Hex| #[trigger] f(a) == #[trigger] f(b) implies a == b by {
            if a.q < b.q {
                assert(f(a) < f(b));
            } else if a.q > b.q {
                assert(f(a) > f(b));
            }
        }
    }
    keys.lemma_no_duplicates_injective(f);
    let ints = keys.map_values(f);
    ints.unique_seq_to_set();
    let range = vstd::set_lib::set_int_range(hex_code(lo), hex_code(hi) + 1);
    assert(ints.to_set().subset_of(range)) by {
        assert forall|x: int| ints.to_set().contains(x) implies range.contains(x) by {
            let k = choose|k: int| 0 <= k < ints.len() && ints[k] == x;
            assert(ints[k] == hex_code(keys[k]));
        }
    }
    vstd::set_lib::lemma_int_range(hex_code(lo), hex_code(hi) + 1);
    vstd::set_lib::lemma_len_subset(ints.to_set(), range);
}

} // verus!
