//! Board geometry — the two-board **seam**.
//!
//! Columns (`q`) are depth ranks, forward runs `+q` toward the enemy, and the long edge (`r`)
//! is frontage. The two armies meet at a seam where one board is staggered ±½ hex along
//! the frontage — rolled at start, settable by item. On the single shared integer grid the
//! stagger is realised as *which of the two forward neighbours* a front hex engages: `Down`
//! pairs `(q+1, r-1)` (the natural axial pairing), `Up` pairs `(q+1, r+1)`. So each front
//! hex engages two enemy front hexes, and `Up` turns a raw distance-2 pair into a melee
//! engagement.
use vstd::prelude::*;
use crate::hex::Hex;
use crate::rng::RandomSource;

verus! {

/// The half-hex stagger at the seam — which diagonal a front hex pairs to.
#[derive(Clone, Copy, PartialEq, Eq, Debug, Default, Structural)]
pub enum SeamOffset {
    /// Second forward neighbour is `(q+1, r-1)` — the natural axial pairing.
    #[default]
    Down,
    /// Second forward neighbour is `(q+1, r+1)` — the board shifted half a hex up.
    Up,
}

impl SeamOffset {
    /// The `r`-delta of the staggered forward neighbour.
    pub open spec fn dr(self) -> int {
        match self {
            SeamOffset::Down => -1,
            SeamOffset::Up => 1,
        }
    }

    /// The `r`-delta of the staggered forward neighbour.
    fn delta(self) -> (d: i32)
        ensures
            d == self.dr(),
    {
        match self {
            SeamOffset::Down => -1,
            SeamOffset::Up => 1,
        }
    }
}

/// The battle board: just the seam stagger (the shared grid holds positions).
#[derive(Clone, Copy, Debug, Default, PartialEq, Eq, Structural)]
pub struct Board {
    pub offset: SeamOffset,
}

impl Board {
    /// The two forward pairs of `from` under this board's offset.
    pub open spec fn pairs(self, from: Hex) -> (Hex, Hex) {
        (
            Hex { q: (from.q + 1) as i32, r: from.r },
            Hex { q: (from.q + 1) as i32, r: (from.r + self.offset.dr()) as i32 },
        )
    }

    /// Is `b` one of `a`'s two forward pairs?
    pub open spec fn pairs_with(self, a: Hex, b: Hex) -> bool {
        b == self.pairs(a).0 || b == self.pairs(a).1
    }

    /// Do `a` and `b` engage across the seam — is either a forward pair of the other?
    pub open spec fn engaged(self, a: Hex, b: Hex) -> bool {
        self.pairs_with(a, b) || self.pairs_with(b, a)
    }

    /// Can the forward pairs of `from` be written down?
    pub open spec fn pairs_ok(from: Hex) -> bool {
        from.q < i32::MAX && i32::MIN < from.r < i32::MAX
    }

    pub fn new(offset: SeamOffset) -> (b: Board)
        ensures
            b.offset == offset,
    {
        Board { offset }
    }

    /// Roll the seam offset at start — `Down` when the draw's low bit is clear, `Up` when
    /// it is set.
    pub fn roll<R: RandomSource>(rng: &mut R) -> (b: Board)
        requires
            old(rng).can_draw(),
        ensures
            b.offset == if old(rng).peek() & 1 == 0 {
                SeamOffset::Down
            } else {
                SeamOffset::Up
            },
            *final(rng) == old(rng).advanced(),
    {
        let offset = if rng.next_u64() & 1 == 0 {
            SeamOffset::Down
        } else {
            SeamOffset::Up
        };
        Board { offset }
    }

    /// The two enemy front hexes a hex at `from` engages across the seam — its two forward
    /// (`+q`) neighbours under the offset.
    pub fn frontage_pairs(self, from: Hex) -> (pairs: [Hex; 2])
        requires
            Board::pairs_ok(from),
        ensures
            pairs@[0] == self.pairs(from).0,
            pairs@[1] == self.pairs(from).1,
    {
        [Hex::new(from.q + 1, from.r), Hex::new(from.q + 1, from.r + self.offset.delta())]
    }

    /// Do `a` and `b` **engage across the seam** — are they forward pairs, one column
    /// apart, paired by the offset? Order-independent.
    pub fn engages(self, a: Hex, b: Hex) -> (e: bool)
        requires
            Board::pairs_ok(a),
            Board::pairs_ok(b),
        ensures
            e == self.engaged(a, b),
    {
        let pa = self.frontage_pairs(a);
        let pb = self.frontage_pairs(b);
        pa[0] == b || pa[1] == b || pb[0] == a || pb[1] == a
    }
}

/// **Engagement is symmetric**, and engaged hexes are always one column apart: whichever
/// order the two are asked in, they engage or not alike, and across the seam `Down` pairs
/// are grid neighbours while the `Up` diagonal is a raw distance-2 pair the seam closes.
pub proof fn lemma_engagement_is_symmetric(board: Board, a: Hex, b: Hex)
    requires
        Board::pairs_ok(a),
        Board::pairs_ok(b),
    ensures
        board.engaged(a, b) == board.engaged(b, a),
        board.engaged(a, b) ==> (a.q - b.q == 1 || b.q - a.q == 1),
        board.pairs_with(a, b) ==> b.q == a.q + 1,
        board.pairs_with(a, b) && board.offset == SeamOffset::Down ==> a.dist(b) == 1,
        board.pairs_with(a, b) && board.offset == SeamOffset::Up ==> (a.dist(b) == 1 || (
        a.dist(b) == 2 && b.r == a.r + 1)),
        !board.engaged(a, b) ==> !board.pairs_with(a, b) && !board.pairs_with(b, a),
{
}

} // verus!
