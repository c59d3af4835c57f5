//! Deterministic PRNG and the [`RandomSource`] seam.
//!
//! The simulation depends on the `RandomSource` **trait**, never a concrete RNG, so tests
//! inject a [`ScriptedRng`] and force every roll. Production uses [`SplitMix64`] — small,
//! fast, and reproducible across native and wasm.
//!
//! A source is modelled by the value it will yield next ([`RandomSource::peek`]) and the
//! source it becomes after yielding it ([`RandomSource::advanced`]); every derived draw
//! (range, dice) is stated over that stream.
use vstd::prelude::*;

verus! {

/// The randomness seam. Implementors supply [`RandomSource::next_u64`]; the higher-level
/// integer draws (ranges, dice) derive from it with shared defaults.
pub trait RandomSource: Sized {
    /// Can the source yield one more value?
    spec fn can_draw(&self) -> bool;

    /// The value the source yields next.
    spec fn peek(&self) -> u64;

    /// The source after yielding its next value.
    spec fn advanced(&self) -> Self;

    /// The single required primitive.
    fn next_u64(&mut self) -> (v: u64)
        requires
            old(self).can_draw(),
        ensures
            v == old(self).peek(),
            *final(self) == old(self).advanced(),
    ;

    /// Inclusive integer in `[lo, hi]`: `lo + draw mod (hi − lo + 1)`. Returns `lo`
    /// without drawing if `hi <= lo`.
    fn range(&mut self, lo: i32, hi: i32) -> (v: i32)
        requires
            hi > lo ==> old(self).can_draw() && hi - lo + 1 <= i32::MAX,
        ensures
            hi <= lo ==> v == lo && *final(self) == *old(self),
            hi > lo ==> v == lo + old(self).peek() % ((hi - lo + 1) as u64) && *final(self)
                == old(self).advanced(),
    {
        if hi <= lo {
            return lo;
        }
        let span = (hi - lo + 1) as u64;
        let x = self.next_u64();
        lo + (x % span) as i32
    }

    /// A single d6, `1..=6`.
    fn d6(&mut self) -> (v: i32)
        requires
            old(self).can_draw(),
        ensures
            v == face(old(self).peek(), 6),
            *final(self) == old(self).advanced(),
    {
        (self.next_u64() % 6) as i32 + 1
    }

    /// A single d10, `1..=10`.
    fn d10(&mut self) -> (v: i32)
        requires
            old(self).can_draw(),
        ensures
            v == face(old(self).peek(), 10),
            *final(self) == old(self).advanced(),
    {
        (self.next_u64() % 10) as i32 + 1
    }

    /// **3d6** (`3..=18`) — a tight bell curve: three successive d6 faces.
    fn roll_3d6(&mut self) -> (v: i32)
        requires
            old(self).can_draw(),
            old(self).advanced().can_draw(),
            old(self).advanced().advanced().can_draw(),
        ensures
            v == face(old(self).peek(), 6) + face(old(self).advanced().peek(), 6) + face(
                old(self).advanced().advanced().peek(),
                6,
            ),
            *final(self) == old(self).advanced().advanced().advanced(),
    {
        let a = self.d6();
        let b = self.d6();
        let c = self.d6();
        a + b + c
    }

    /// **2d10** (`2..=20`) — the core contest's dice: two successive d10 faces.
    fn roll_2d10(&mut self) -> (v: i32)
        requires
            old(self).can_draw(),
            old(self).advanced().can_draw(),
        ensures
            v == face(old(self).peek(), 10) + face(old(self).advanced().peek(), 10),
            *final(self) == old(self).advanced().advanced(),
    {
        let a = self.d10();
        let b = self.d10();
        a + b
    }
}

/// The die face a raw draw `x` shows on an `n`-sided die: `x mod n + 1`.
pub open spec fn face(x: u64, n: int) -> int {
    (x % (n as u64)) as int + 1
}

/// The SplitMix64 increment.
pub open spec fn splitmix_gamma() -> u64 {
    0x9E37_79B9_7F4A_7C15u64
}

/// The SplitMix64 output finalizer applied to an advanced state.
pub open spec fn splitmix_mix(z: u64) -> u64 {
    let z1 = vstd::wrapping::u64_specs::wrapping_mul(z ^ (z >> 30u64), 0xBF58_476D_1CE4_E5B9u64);
    let z2 = vstd::wrapping::u64_specs::wrapping_mul(z1 ^ (z1 >> 27u64), 0x94D0_49BB_1331_11EBu64);
    z2 ^ (z2 >> 31u64)
}

/// Production RNG (SplitMix64): dependency-free, reproducible across platforms.
#[derive(Clone, Debug)]
pub struct SplitMix64 {
    state: u64,
}

impl SplitMix64 {
    /// The generator's current state word.
    pub closed spec fn state(self) -> u64 {
        self.state
    }

    /// A generator seeded with `seed` (its state starts at the seed).
    pub fn new(seed: u64) -> (g: SplitMix64)
        ensures
            g.state() == seed,
    {
        SplitMix64 { state: seed }
    }

    /// **Same seed, same stream**: two generators in the same state yield the same value
    /// and move to the same state — so a seeded battle replays identically.
    pub proof fn lemma_same_state_same_stream(a: SplitMix64, b: SplitMix64)
        requires
            a.state() == b.state(),
        ensures
            a == b,
            a.peek() == b.peek(),
            a.advanced() == b.advanced(),
            a.can_draw(),
            a.peek() == splitmix_mix(
                vstd::wrapping::u64_specs::wrapping_add(a.state(), splitmix_gamma()),
            ),
            a.advanced().state() == vstd::wrapping::u64_specs::wrapping_add(
                a.state(),
                splitmix_gamma(),
            ),
    {
    }
}

impl RandomSource for SplitMix64 {
    closed spec fn can_draw(&self) -> bool {
        true
    }

    closed spec fn peek(&self) -> u64 {
        splitmix_mix(vstd::wrapping::u64_specs::wrapping_add(self.state, splitmix_gamma()))
    }

    closed spec fn advanced(&self) -> Self {
        SplitMix64 {
            state: vstd::wrapping::u64_specs::wrapping_add(self.state, splitmix_gamma()),
        }
    }

    fn next_u64(&mut self) -> (v: u64) {
        self.state = self.state.wrapping_add(0x9E37_79B9_7F4A_7C15);
        let mut z = self.state;
        z = (z ^ (z >> 30)).wrapping_mul(0xBF58_476D_1CE4_E5B9);
        z = (z ^ (z >> 27)).wrapping_mul(0x94D0_49BB_1331_11EB);
        z ^ (z >> 31)
    }
}

/// A scripted RNG for tests: yields a queued sequence so every roll is asserted, not hoped
/// for. Drawing past the script is outside its contract.
#[derive(Clone, Debug)]
pub struct ScriptedRng {
    values: Vec<u64>,
    pos: usize,
}

/// The raw draw that makes a `sides`-sided die show face `f` (clamped into `1..=sides`).
pub open spec fn face_draw(f: int, sides: int) -> u64 {
    ((if f < 1 {
        1
    } else if f > sides {
        sides
    } else {
        f
    }) - 1) as u64
}

impl ScriptedRng {
    /// The draws still queued, oldest first.
    pub closed spec fn queued(self) -> Seq<u64> {
        if self.pos <= self.values@.len() {
            self.values@.subrange(self.pos as int, self.values@.len() as int)
        } else {
            Seq::empty()
        }
    }

    /// Queue raw `u64` draws.
    pub fn new<const N: usize>(values: [u64; N]) -> (r: ScriptedRng)
        ensures
            r.queued() == values@,
    {
        let mut v: Vec<u64> = Vec::new();
        let mut i: usize = 0;
        while i < N
            invariant
                0 <= i <= N,
                N == values@.len(),
                v@ == values@.subrange(0, i as int),
            decreases N - i,
        {
            v.push(values[i]);
            i += 1;
            assert(v@ =~= values@.subrange(0, i as int));
        }
        assert(v@ =~= values@);
        let r = ScriptedRng { values: v, pos: 0 };
        assert(r.queued() =~= values@);
        r
    }

    /// Queue d6 **faces** directly — e.g. `from_d6([6, 6, 6])` forces 3d6 = 18.
    pub fn from_d6<const N: usize>(faces: [i32; N]) -> (r: ScriptedRng)
        ensures
            r.queued().len() == N,
            forall|i: int| 0 <= i < N ==> r.queued()[i] == face_draw(#[trigger] faces@[i] as int, 6),
    {
        ScriptedRng::from_faces(faces, 6)
    }

    /// Queue d10 **faces** directly — e.g. `from_d10([5, 5])` forces 2d10 = 10.
    pub fn from_d10<const N: usize>(faces: [i32; N]) -> (r: ScriptedRng)
        ensures
            r.queued().len() == N,
            forall|i: int|
                0 <= i < N ==> r.queued()[i] == face_draw(#[trigger] faces@[i] as int, 10),
    {
        ScriptedRng::from_faces(faces, 10)
    }

    fn from_faces<const N: usize>(faces: [i32; N], sides: i32) -> (r: ScriptedRng)
        requires
            1 <= sides,
        ensures
            r.queued().len() == N,
            forall|i: int|
                0 <= i < N ==> r.queued()[i] == face_draw(#[trigger] faces@[i] as int, sides as int),
    {
        let mut v: Vec<u64> = Vec::new();
        let mut i: usize = 0;
        while i < N
            invariant
                0 <= i <= N,
                N == faces@.len(),
                1 <= sides,
                v@.len() == i,
                forall|k: int| 0 <= k < i ==> v@[k] == face_draw(#[trigger] faces@[k] as int, sides as int),
            decreases N - i,
        {
            let f = faces[i];
            let c = if f < 1 {
                1
            } else if f > sides {
                sides
            } else {
                f
            };
            v.push((c - 1) as u64);
            i += 1;
        }
        let r = ScriptedRng { values: v, pos: 0 };
        assert(r.queued() =~= v@);
        r
    }
}

impl RandomSource for ScriptedRng {
    closed spec fn can_draw(&self) -> bool {
        self.pos < self.values@.len()
    }

    closed spec fn peek(&self) -> u64 {
        self.values@[self.pos as int]
    }

    closed spec fn advanced(&self) -> Self {
        ScriptedRng { values: self.values, pos: (self.pos + 1) as usize }
    }

    fn next_u64(&mut self) -> (v: u64) {
        let n = self.values.len();
        let v = self.values[self.pos];
        assert(self.pos < n);
        self.pos = self.pos + 1;
        v
    }
}

impl ScriptedRng {
    /// A scripted source yields exactly its queue, in order: it can draw while values
    /// remain, shows the oldest next, and drops it on drawing.
    pub proof fn lemma_yields_queue_in_order(r: ScriptedRng)
        ensures
            r.can_draw() <==> r.queued().len() > 0,
            r.can_draw() ==> r.peek() == r.queued()[0],
            r.can_draw() ==> r.advanced().queued() == r.queued().drop_first(),
    {
        if r.can_draw() {
            assert(r.values@.len() == r.values.len());
            assert(r.advanced().pos == r.pos + 1);
            assert(r.advanced().queued() =~= r.queued().drop_first());
        }
    }
}

} // verus!
