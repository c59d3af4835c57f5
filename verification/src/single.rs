//! Single-precision (IEEE 754 binary32) arithmetic, carried out on whole numbers.
//!
//! A positive binary32 value is a 24-bit significand times a power of two; every
//! operation rounds its exact result to the nearest such value, ties to the even
//! significand. The seeker quota of an objective is computed that way — "that percent of
//! the live squad", `round(pct / 100 × size)` in single precision — and this module
//! computes it exactly, without any floating-point value.
use vstd::prelude::*;
use vstd::arithmetic::power2::{
    lemma2_to64, lemma2_to64_rest, lemma_pow2_adds, lemma_pow2_pos, lemma_pow2_strictly_increases, pow2,
};

verus! {

/// The bits it takes to write `x`.
pub open spec fn bit_len(x: nat) -> nat
    decreases x,
{
    if x == 0 {
        0
    } else {
        1 + bit_len(x / 2)
    }
}

/// `n / d` rounded to the nearest whole number, a tie going to the even one — binary32's
/// rounding.
pub open spec fn div_even(n: nat, d: nat) -> nat {
    let q = n / d;
    let r = n % d;
    if 2 * r > d || (2 * r == d && q % 2 == 1) {
        q + 1
    } else {
        q
    }
}

/// How many low bits of `x` fall outside a 24-bit significand.
pub open spec fn excess(x: nat) -> nat {
    if bit_len(x) > 24 {
        (bit_len(x) - 24) as nat
    } else {
        0
    }
}

/// The significand of the binary32 nearest the whole number `x`; its exponent is
/// [`excess`]`(x)`.
pub open spec fn significand(x: nat) -> nat {
    div_even(x, pow2(excess(x)))
}

/// The shift that gives a quotient by 100 of the significand `m` its 24 significant bits:
/// the least `t` with `m · 2^t ≥ 100 · 2^23`.
pub open spec fn lift(m: nat) -> nat {
    let t0: nat = if bit_len(m) >= 30 {
        0
    } else {
        (30 - bit_len(m)) as nat
    };
    if m * pow2(t0) >= 0x3200_0000 {
        t0
    } else {
        t0 + 1
    }
}

/// `pct / 100 × size` in binary32 — `pct` and `size` converted, divided by 100, then
/// multiplied, each step rounded — as a significand and an exponent.
pub open spec fn share(pct: nat, size: nat) -> (nat, int) {
    let ma = significand(pct);
    let t = lift(ma);
    let mb = div_even(ma * pow2(t), 100);
    let m = mb * significand(size);
    (significand(m), excess(pct) - t + excess(size) + excess(m))
}

/// The value `m · 2^e` rounded to a whole number, halves away from zero.
pub open spec fn round_half_away(m: nat, e: int) -> nat {
    if e >= 0 {
        m * pow2(e as nat)
    } else {
        (m + pow2((-e - 1) as nat)) / pow2((-e) as nat)
    }
}

/// `round(pct / 100 × size)` in binary32.
pub open spec fn rounded_share(pct: nat, size: nat) -> nat {
    round_half_away(share(pct, size).0, share(pct, size).1)
}

proof fn lemma_bit_len_bounds(x: nat)
    ensures
        x < pow2(bit_len(x)),
    decreases x,
{
    lemma2_to64();
    if x > 0 {
        lemma_bit_len_bounds(x / 2);
        lemma_pow2_adds(bit_len(x / 2), 1);
    }
}

proof fn lemma_bit_len_below(x: nat, k: nat)
    requires
        x < pow2(k),
    ensures
        bit_len(x) <= k,
    decreases k,
{
    lemma2_to64();
    if x > 0 {
        if k == 0 {
        } else {
            lemma_pow2_adds((k - 1) as nat, 1);
            lemma_bit_len_below(x / 2, (k - 1) as nat);
        }
    }
}

/// A significand never passes `2^24`.
proof fn lemma_significand_bound(x: nat)
    ensures
        significand(x) <= 0x100_0000,
{
    lemma2_to64();
    lemma_bit_len_bounds(x);
    let e = excess(x);
    let d = pow2(e);
    lemma_pow2_pos(e);
    if bit_len(x) > 24 {
        lemma_pow2_adds(24, e);
        assert(x < 0x100_0000 * d);
    } else {
        if bit_len(x) < 24 {
            lemma_pow2_strictly_increases(bit_len(x), 24);
        }
        assert(d == 1);
        assert(x < 0x100_0000 * d);
    }
    assert(x / d < 0x100_0000) by (nonlinear_arith)
        requires
            x < 0x100_0000 * d,
            d > 0,
    ;
}

/// `2^k`.
fn pow2_exec(k: u32) -> (p: u128)
    requires
        k <= 120,
    ensures
        p == pow2(k as nat),
{
    proof {
        lemma2_to64();
        lemma2_to64_rest();
        lemma_pow2_adds(64, 56);
    }
    let mut p: u128 = 1;
    let mut i: u32 = 0;
    while i < k
        invariant
            i <= k <= 120,
            p == pow2(i as nat),
            pow2(120) == 0x100_0000_0000_0000_0000_0000_0000_0000u128,
        decreases k - i,
    {
        proof {
            lemma2_to64();
            lemma_pow2_adds(i as nat, 1);
            lemma_pow2_strictly_increases(i as nat, 120);
        }
        p = p * 2;
        i = i + 1;
    }
    p
}

/// The bits it takes to write `x`.
fn bit_len_exec(x: u128) -> (b: u32)
    ensures
        b == bit_len(x as nat),
        b <= 128,
{
    proof {
        lemma_u128_len(x);
    }
    let mut y = x;
    let mut b: u32 = 0;
    while y > 0
        invariant
            bit_len(x as nat) == b + bit_len(y as nat),
            bit_len(x as nat) <= 128,
        decreases y,
    {
        y = y / 2;
        b = b + 1;
    }
    b
}

proof fn lemma_u128_len(y: u128)
    ensures
        bit_len(y as nat) <= 128,
{
    lemma2_to64();
    lemma2_to64_rest();
    lemma_pow2_adds(64, 64);
    lemma_bit_len_below(y as nat, 128);
}

/// `n / d` rounded to nearest, ties to even.
fn div_even_exec(n: u128, d: u128) -> (r: u128)
    requires
        d > 0,
    ensures
        r == div_even(n as nat, d as nat),
{
    let q = n / d;
    let rem = n % d;
    if rem > d - rem || (rem == d - rem && q % 2 == 1) {
        assert(d >= 2);
        assert(q <= n / 2) by (nonlinear_arith)
            requires
                q == n / d,
                d >= 2,
        ;
        q + 1
    } else {
        q
    }
}

/// The low bits of `x` outside a 24-bit significand.
fn excess_exec(x: u128) -> (e: u32)
    ensures
        e == excess(x as nat),
        e <= 104,
{
    let b = bit_len_exec(x);
    if b > 24 {
        b - 24
    } else {
        0
    }
}

/// The significand of the binary32 nearest `x`.
fn significand_exec(x: u128) -> (m: u128)
    ensures
        m == significand(x as nat),
        m <= 0x100_0000,
{
    let e = excess_exec(x);
    let d = pow2_exec(e);
    proof {
        lemma_pow2_pos(e as nat);
        lemma_significand_bound(x as nat);
    }
    div_even_exec(x, d)
}

/// `round(pct / 100 × size)` in binary32 (see [`rounded_share`]).
pub fn single_share(pct: u32, size: u64) -> (r: u128)
    ensures
        r == rounded_share(pct as nat, size as nat),
{
    proof {
        lemma2_to64();
    }
    let ma = significand_exec(pct as u128);
    let ea = excess_exec(pct as u128);
    proof {
        lemma_bit_len_below(pct as nat, 32);
    }
    assert(ea <= 8);
    let bl = bit_len_exec(ma);
    proof {
        lemma_bit_len_below(ma as nat, 25);
    }
    let t0: u32 = if bl >= 30 {
        0
    } else {
        30 - bl
    };
    let p0 = pow2_exec(t0);
    proof {
        if t0 < 30 {
            lemma_pow2_strictly_increases(t0 as nat, 30);
        }
    }
    assert(ma * p0 <= 0x100_0000 * 0x4000_0000) by (nonlinear_arith)
        requires
            ma <= 0x100_0000,
            p0 <= 0x4000_0000,
    ;
    let t: u32 = if ma * p0 >= 0x3200_0000 {
        t0
    } else {
        t0 + 1
    };
    let pt = pow2_exec(t);
    proof {
        if t < 31 {
            lemma_pow2_strictly_increases(t as nat, 31);
        }
    }
    assert(ma * pt <= 0x100_0000 * 0x8000_0000) by (nonlinear_arith)
        requires
            ma <= 0x100_0000,
            pt <= 0x8000_0000,
    ;
    let mb = div_even_exec(ma * pt, 100);
    assert(mb <= 0x2_0000_0000_0000) by (nonlinear_arith)
        requires
            mb <= (ma * pt) / 100 + 1,
            ma * pt <= 0x100_0000 * 0x8000_0000,
    ;
    let ms = significand_exec(size as u128);
    let es = excess_exec(size as u128);
    proof {
        lemma2_to64_rest();
        lemma_bit_len_below(size as nat, 64);
    }
    assert(es <= 40);
    assert(mb * ms <= 0x2_0000_0000_0000 * 0x100_0000) by (nonlinear_arith)
        requires
            mb <= 0x2_0000_0000_0000,
            ms <= 0x100_0000,
    ;
    let m = mb * ms;
    let mp = significand_exec(m);
    let em = excess_exec(m);
    proof {
        lemma_pow2_adds(64, 10);
        lemma_bit_len_below(m as nat, 74);
    }
    assert(em <= 50);
    let e: i64 = ea as i64 - t as i64 + es as i64 + em as i64;
    if e >= 0 {
        let p = pow2_exec(e as u32);
        proof {
            if e < 98 {
                lemma_pow2_strictly_increases(e as nat, 98);
            }
            lemma_pow2_adds(64, 34);
        }
        assert(mp * p <= 0x100_0000 * 0x4_0000_0000_0000_0000_0000_0000) by (nonlinear_arith)
            requires
                mp <= 0x100_0000,
                p <= 0x4_0000_0000_0000_0000_0000_0000,
        ;
        mp * p
    } else {
        let k = (-e) as u32;
        let half = pow2_exec(k - 1);
        let whole = pow2_exec(k);
        proof {
            lemma_pow2_pos(k as nat);
            lemma_pow2_strictly_increases((k - 1) as nat, 32);
        }
        (mp + half) / whole
    }
}

} // verus!
