//! Jump consistent hashing (Lamping and Veach): maps a key onto one of
//! `num_buckets` buckets with no memory and minimal movement when a bucket is
//! added.
//!
//! Each step of the walk computes `floor((b + 1) * (2^31 / ((key >> 33) + 1)))`
//! in IEEE-754 double precision. The arithmetic here reproduces its
//! roundings (of `b + 1` past `2^53`, of the quotient and of the product; to
//! nearest, ties to even, 53 significant bits) exactly in integers, so every
//! bucket agrees with a double-precision implementation.

use vstd::prelude::*;
use vstd::arithmetic::power2::{
    pow2, lemma_pow2_pos, lemma_pow2_unfold, lemma_pow2_adds, lemma_pow2_strictly_increases,
};
use vstd::arithmetic::div_mod::{
    lemma_div_is_ordered, lemma_fundamental_div_mod, lemma_div_multiples_vanish,
    lemma_mod_bound, lemma_div_by_multiple, lemma_div_is_ordered_by_denominator,
};
use vstd::arithmetic::mul::{lemma_mul_inequality, lemma_mul_is_commutative, lemma_mul_is_associative};
use crate::ConsistentHashError;

verus! {

/// Number of binary digits of `x` (0 for 0).
pub open spec fn bit_len(x: nat) -> nat
    decreases x,
{
    if x == 0 {
        0
    } else {
        1 + bit_len(x / 2)
    }
}

/// Number of low bits dropped when `x` is rounded to 53 significant bits.
pub open spec fn round_shift(x: nat) -> nat {
    if bit_len(x) <= 53 {
        0
    } else {
        (bit_len(x) - 53) as nat
    }
}

/// Mantissa of `x` rounded to 53 significant bits, to nearest with ties to
/// even: the rounded value is `round_mant(x, sticky) * 2^round_shift(x)`.
/// `sticky` says that the exact value being rounded lies strictly between `x`
/// and `x + 1`.
pub open spec fn round_mant(x: nat, sticky: bool) -> nat {
    let k = round_shift(x);
    let p = pow2(k);
    let m = x / p;
    let low = x % p;
    if k == 0 {
        m
    } else if 2 * low > p || (2 * low == p && (sticky || m % 2 == 1)) {
        m + 1
    } else {
        m
    }
}

/// `2^31 / d` rounded to a double is `quot_mant(d) * 2^quot_shift(d) / 2^84`.
pub open spec fn quot_mant(d: nat) -> nat {
    round_mant(pow2(115) / d, pow2(115) % d != 0)
}

pub open spec fn quot_shift(d: nat) -> nat {
    round_shift(pow2(115) / d)
}

/// `floor(m * 2^k * fl(2^31 / d))` with the product rounded to a double,
/// capped at `i64::MAX` as a saturating float-to-integer conversion does.
/// `m * 2^k` is a double: `m` has at most 53 significant bits.
pub open spec fn scaled_floor_at(m: nat, k: nat, d: nat) -> nat {
    let p = m * quot_mant(d);
    let e = round_shift(p) + quot_shift(d) + k;
    let mp = round_mant(p, false);
    let v = if e >= 84 {
        mp * pow2((e - 84) as nat)
    } else {
        mp / pow2((84 - e) as nat)
    };
    if v > i64::MAX {
        i64::MAX as nat
    } else {
        v
    }
}

/// `floor(b1 * fl(2^31 / d))` for a `b1` that a double holds exactly.
pub open spec fn scaled_floor(b1: nat, d: nat) -> nat {
    scaled_floor_at(b1, 0, d)
}

/// The linear congruential step applied to the key before each jump.
pub open spec fn lcg(key: u64) -> u64 {
    key.wrapping_mul(2862933555777941757).wrapping_add(1)
}

/// The next candidate bucket after bucket `b`, for the already stepped key.
/// Above `2^53`, `b + 1` is first rounded to the nearest double.
pub open spec fn jump_step(b: int, key: u64) -> int {
    let b1 = (b + 1) as nat;
    let d = (key as nat / pow2(33)) + 1;
    if b1 <= pow2(53) {
        scaled_floor(b1, d) as int
    } else {
        scaled_floor_at(round_mant(b1, false), round_shift(b1), d) as int
    }
}

/// The walk from bucket `b`: the last candidate below `n`.
pub open spec fn jump_walk(b: int, key: u64, n: int) -> int
    decreases n - b,
{
    let next = lcg(key);
    let j = jump_step(b, next);
    if b < j && j < n {
        jump_walk(j, next, n)
    } else {
        b
    }
}

/// The bucket of `key` among `n` buckets.
pub open spec fn jump_spec(key: u64, n: int) -> int {
    jump_walk(0, key, n)
}

/// The walk from bucket `b` as the double-precision loop runs it, for at
/// most `steps` more steps: while the candidate is below `n` it becomes the
/// bucket, even where it is not above the current one.
pub open spec fn jump_walk_steps(b: int, key: u64, n: int, steps: nat) -> int
    decreases steps,
{
    if steps == 0 {
        b
    } else {
        let next = lcg(key);
        let j = jump_step(b, next);
        if j < n {
            jump_walk_steps(j, next, n, (steps - 1) as nat)
        } else {
            b
        }
    }
}

/// The bucket of `key` among `n` buckets past `2^53`, where steps may stay
/// or go back: the walk cut off after `u64::MAX` steps.
pub open spec fn jump_spec_long(key: u64, n: int) -> int {
    jump_walk_steps(0, key, n, u64::MAX as nat)
}

// ---------------------------------------------------------------------------
// Lemmas on bit lengths and rounding
// ---------------------------------------------------------------------------

proof fn lemma_pow2_0_1()
    ensures
        pow2(0) == 1,
        pow2(1) == 2,
{
    lemma_pow2_unfold(1);
    reveal(vstd::arithmetic::power::pow);
    vstd::arithmetic::power2::lemma_pow2(0);
}

proof fn lemma_bit_len_bounds(x: nat)
    requires
        x > 0,
    ensures
        bit_len(x) >= 1,
        pow2((bit_len(x) - 1) as nat) <= x < pow2(bit_len(x)),
    decreases x,
{
    lemma_pow2_0_1();
    if x == 1 {
        assert(bit_len(0) == 0);
        assert(bit_len(1) == 1);
    } else {
        let h = x / 2;
        lemma_bit_len_bounds(h);
        let l = bit_len(h);
        assert(bit_len(x) == l + 1);
        lemma_pow2_unfold(l + 1);
        if l >= 1 {
            lemma_pow2_unfold(l);
        }
        assert(pow2(((l + 1) - 1) as nat) == pow2(l));
        assert(pow2((l - 1) as nat) * 2 <= x) by {
            assert(l - 1 >= 0);
            if l == 1 {
                assert(pow2(0) == 1);
            } else {
                assert(pow2(l) == 2 * pow2((l - 1) as nat));
            }
        }
        assert(pow2(l) <= x) by {
            if l == 1 {
                assert(pow2(1) == 2);
            } else {
                assert(pow2(l) == 2 * pow2((l - 1) as nat));
            }
        }
    }
}

proof fn lemma_bit_len_at_least(x: nat, e: nat)
    requires
        pow2(e) <= x,
    ensures
        bit_len(x) >= e + 1,
{
    lemma_pow2_pos(e);
    lemma_bit_len_bounds(x);
    if bit_len(x) <= e {
        if bit_len(x) < e {
            lemma_pow2_strictly_increases(bit_len(x), e);
        }
    }
}

proof fn lemma_bit_len_at_most(x: nat, e: nat)
    requires
        x < pow2(e),
    ensures
        bit_len(x) <= e,
{
    if x > 0 {
        lemma_bit_len_bounds(x);
        if bit_len(x) > e {
            if (bit_len(x) - 1) as nat > e {
                lemma_pow2_strictly_increases(e, (bit_len(x) - 1) as nat);
            }
        }
    }
}

/// A multiple of `p` that is at most `x` is at most `x` rounded down to a
/// multiple of `p`.
proof fn lemma_floor_multiple(x: nat, a: nat, p: nat)
    requires
        p > 0,
        a % p == 0,
        a <= x,
    ensures
        a <= (x / p) * p,
{
    lemma_fundamental_div_mod(a as int, p as int);
    lemma_div_is_ordered(a as int, x as int, p as int);
    lemma_mul_inequality((a / p) as int, (x / p) as int, p as int);
    lemma_mul_is_commutative((a / p) as int, p as int);
}

proof fn lemma_round_mant_bound(x: nat, sticky: bool)
    ensures
        round_mant(x, sticky) <= pow2(53),
        round_mant(x, sticky) * pow2(round_shift(x)) >= x / pow2(round_shift(x)) * pow2(
            round_shift(x),
        ),
{
    let k = round_shift(x);
    lemma_pow2_pos(k);
    lemma_pow2_0_1();
    if x == 0 {
        assert(bit_len(0) == 0);
        assert(x / pow2(k) == 0) by {
            assert(k == 0);
        }
    } else {
        lemma_bit_len_bounds(x);
        let l = bit_len(x);
        if l <= 53 {
            assert(k == 0);
            if l < 53 {
                lemma_pow2_strictly_increases(l, 53);
            }
            assert(x / 1 == x);
        } else {
            assert(l == 53 + k);
            lemma_pow2_adds(53, k);
            // x < 2^53 * 2^k  ==>  x / 2^k < 2^53
            assert(x / pow2(k) < pow2(53)) by {
                lemma_fundamental_div_mod(x as int, pow2(k) as int);
                lemma_mod_bound(x as int, pow2(k) as int);
                if x / pow2(k) >= pow2(53) {
                    lemma_mul_inequality(pow2(53) as int, (x / pow2(k)) as int, pow2(k) as int);
                }
            }
        }
    }
    assert(round_mant(x, sticky) >= x / pow2(k));
    lemma_mul_inequality((x / pow2(k)) as int, round_mant(x, sticky) as int, pow2(k) as int);
}

/// Rounding never falls below a value of at most 53 significant bits that
/// lies at or below the rounded number.
proof fn lemma_round_at_least(x: nat, a: nat, e: nat, sticky: bool)
    requires
        a <= pow2(53),
        a * pow2(e) <= x,
    ensures
        round_mant(x, sticky) * pow2(round_shift(x)) >= a * pow2(e),
{
    let k = round_shift(x);
    lemma_pow2_pos(k);
    lemma_pow2_pos(e);
    lemma_round_mant_bound(x, sticky);
    let m = x / pow2(k);
    if k == 0 {
        lemma_pow2_0_1();
        assert(m == x);
        assert(m * pow2(k) == x);
    } else if e >= k {
        let c = (a * pow2((e - k) as nat)) as nat;
        lemma_pow2_adds((e - k) as nat, k);
        assert(a * pow2(e) == c * pow2(k)) by {
            lemma_mul_is_associative(a as int, pow2((e - k) as nat) as int, pow2(k) as int);
        }
        vstd::arithmetic::div_mod::lemma_mod_multiples_basic(c as int, pow2(k) as int);
        lemma_floor_multiple(x, (c * pow2(k)) as nat, pow2(k));
    } else {
        lemma_bit_len_bounds(x);
        let l = bit_len(x);
        assert(l == 53 + k);
        lemma_pow2_adds(52, k);
        assert(pow2((l - 1) as nat) == pow2(52) * pow2(k));
        lemma_pow2_adds(53, (k - 1) as nat);
        assert(53 + (k - 1) == 52 + k);
        assert(pow2(53) * pow2((k - 1) as nat) == pow2(52) * pow2(k));
        if e < (k - 1) as nat {
            lemma_pow2_strictly_increases(e, (k - 1) as nat);
        }
        assert(pow2(e) <= pow2((k - 1) as nat));
        assert(a * pow2(e) <= pow2(53) * pow2((k - 1) as nat)) by (nonlinear_arith)
            requires
                a <= pow2(53),
                pow2(e) <= pow2((k - 1) as nat),
        ;
        let t = (pow2(52) * pow2(k)) as nat;
        vstd::arithmetic::div_mod::lemma_mod_multiples_basic(pow2(52) as int, pow2(k) as int);
        lemma_floor_multiple(x, t, pow2(k));
    }
}

/// Each jump moves strictly forward while the bucket count fits the 53-bit
/// mantissa of a double.
pub proof fn lemma_jump_step_advances(b: int, key: u64)
    requires
        0 <= b,
        b + 1 <= pow2(53),
    ensures
        jump_step(b, key) >= b + 1,
{
    let bb = (b + 1) as nat;
    let d = (key as nat / pow2(33)) + 1;
    lemma_pow2_pos(33);
    lemma_pow2_pos(31);
    lemma_pow2_pos(84);
    vstd::arithmetic::power2::lemma2_to64();
    assert(key as nat / pow2(33) < pow2(31)) by {
        lemma_pow2_adds(33, 31);
        vstd::arithmetic::power2::lemma2_to64_rest();
        assert(pow2(64) == 0x1_0000_0000_0000_0000);
        lemma_fundamental_div_mod(key as int, pow2(33) as int);
        lemma_mod_bound(key as int, pow2(33) as int);
        if key as nat / pow2(33) >= pow2(31) {
            lemma_mul_inequality(pow2(31) as int, (key as nat / pow2(33)) as int, pow2(33) as int);
            lemma_mul_is_commutative(pow2(31) as int, pow2(33) as int);
        }
    }
    assert(1 <= d <= pow2(31));
    let x = pow2(115) / d;
    // 2^115 / d >= 2^84
    lemma_pow2_adds(84, 31);
    assert(pow2(84) <= x) by {
        lemma_mul_inequality(d as int, pow2(31) as int, pow2(84) as int);
        lemma_mul_is_commutative(d as int, pow2(84) as int);
        lemma_mul_is_commutative(pow2(31) as int, pow2(84) as int);
        lemma_div_is_ordered((pow2(84) * d) as int, pow2(115) as int, d as int);
        lemma_div_multiples_vanish(pow2(84) as int, d as int);
        lemma_mul_is_commutative(d as int, pow2(84) as int);
    }
    assert(x <= pow2(115)) by {
        lemma_div_is_ordered_by_denominator(pow2(115) as int, 1, d as int);
    }
    lemma_bit_len_at_least(x, 84);
    lemma_pow2_strictly_increases(115, 116);
    lemma_bit_len_at_most(x, 116);
    let kq = quot_shift(d);
    assert(32 <= kq <= 63);
    let mq = quot_mant(d);
    // fl(2^31 / d) >= 1
    lemma_pow2_0_1();
    lemma_round_at_least(x, 1, 84, pow2(115) % d != 0);
    assert(mq * pow2(kq) >= pow2(84));
    let r = (84 - kq) as nat;
    lemma_pow2_adds(r, kq);
    lemma_pow2_pos(r);
    lemma_pow2_pos(kq);
    assert(mq >= pow2(r)) by (nonlinear_arith)
        requires
            mq * pow2(kq) >= pow2(r) * pow2(kq),
            pow2(kq) > 0,
    ;
    let p = bb * mq;
    assert(bb * pow2(r) <= p) by {
        lemma_mul_inequality(pow2(r) as int, mq as int, bb as int);
        lemma_mul_is_commutative(pow2(r) as int, bb as int);
        lemma_mul_is_commutative(mq as int, bb as int);
    }
    lemma_round_at_least(p, bb, r, false);
    let kp = round_shift(p);
    let mp = round_mant(p, false);
    let e = kp + kq;
    // mp * 2^(kp + kq) >= bb * 2^84
    assert(mp * pow2(e) >= bb * pow2(84)) by {
        lemma_pow2_adds(kp, kq);
        lemma_mul_inequality((bb * pow2(r)) as int, (mp * pow2(kp)) as int, pow2(kq) as int);
        lemma_mul_is_associative(mp as int, pow2(kp) as int, pow2(kq) as int);
        lemma_mul_is_associative(bb as int, pow2(r) as int, pow2(kq) as int);
    }
    let v: nat = if e >= 84 {
        mp * pow2((e - 84) as nat)
    } else {
        mp / pow2((84 - e) as nat)
    };
    if e >= 84 {
        let s = (e - 84) as nat;
        lemma_pow2_adds(s, 84);
        assert(mp * pow2(e) == (mp * pow2(s)) * pow2(84)) by {
            lemma_mul_is_associative(mp as int, pow2(s) as int, pow2(84) as int);
        }
        assert(v >= bb) by (nonlinear_arith)
            requires
                v * pow2(84) >= bb * pow2(84),
                pow2(84) > 0,
        ;
    } else {
        let s = (84 - e) as nat;
        lemma_pow2_adds(e, s);
        lemma_pow2_pos(s);
        lemma_pow2_pos(e);
        // mp * 2^e >= bb * 2^e * 2^s  ==>  mp >= bb * 2^s
        assert(bb * pow2(84) == (bb * pow2(s)) * pow2(e)) by {
            lemma_mul_is_commutative(pow2(e) as int, pow2(s) as int);
            lemma_mul_is_associative(bb as int, pow2(s) as int, pow2(e) as int);
        }
        assert(mp >= bb * pow2(s)) by (nonlinear_arith)
            requires
                mp * pow2(e) >= (bb * pow2(s)) * pow2(e),
                pow2(e) > 0,
        ;
        lemma_div_is_ordered((bb * pow2(s)) as int, mp as int, pow2(s) as int);
        lemma_div_by_multiple(bb as int, pow2(s) as int);
        assert(v >= bb);
    }
    assert(v >= bb);
    lemma_pow2_values();
    assert(bb <= i64::MAX);
    assert(scaled_floor(bb, d) == (if v > i64::MAX { i64::MAX as nat } else { v }));
}

// ---------------------------------------------------------------------------
// Integer arithmetic that reproduces the double-precision step
// ---------------------------------------------------------------------------

fn pow2_u128(e: u32) -> (r: u128)
    requires
        e <= 126,
    ensures
        r == pow2(e as nat),
{
    let mut r: u128 = 1;
    let mut i: u32 = 0;
    proof {
        lemma_pow2_0_1();
    }
    while i < e
        invariant
            i <= e <= 126,
            r == pow2(i as nat),
        decreases e - i,
    {
        proof {
            lemma_pow2_unfold((i + 1) as nat);
            lemma_pow2_strictly_increases((i + 1) as nat, 127);
            lemma_pow2_adds(64, 63);
            vstd::arithmetic::power2::lemma2_to64();
            vstd::arithmetic::power2::lemma2_to64_rest();
            assert(pow2(127) <= u128::MAX) by {
                assert(pow2(64) * pow2(63) <= u128::MAX) by (nonlinear_arith)
                    requires
                        pow2(64) == 0x1_0000_0000_0000_0000,
                        pow2(63) == 0x8000_0000_0000_0000,
                ;
            }
        }
        r = r * 2;
        i = i + 1;
    }
    r
}

fn bit_len_u128(x: u128) -> (l: u32)
    ensures
        l as nat == bit_len(x as nat),
        l <= 128,
{
    let mut y: u128 = x;
    let mut l: u32 = 0;
    proof {
        lemma_bit_len_le_128(x);
    }
    while y > 0
        invariant
            bit_len(x as nat) == l + bit_len(y as nat),
            l + bit_len(y as nat) <= 128,
        decreases y,
    {
        y = y / 2;
        l = l + 1;
    }
    l
}

proof fn lemma_bit_len_le_128(x: u128)
    ensures
        bit_len(x as nat) <= 128,
{
    vstd::arithmetic::power2::lemma2_to64();
    lemma_pow2_adds(64, 64);
    assert(x < pow2(128)) by (nonlinear_arith)
        requires
            pow2(128) == pow2(64) * pow2(64),
            pow2(64) == 0x1_0000_0000_0000_0000,
            x <= u128::MAX,
    ;
    lemma_bit_len_at_most(x as nat, 128);
}

proof fn lemma_pow2_values()
    ensures
        pow2(31) == 0x8000_0000,
        pow2(33) == 0x2_0000_0000,
        pow2(53) == 0x20_0000_0000_0000,
        pow2(115) == 0x8_0000_0000_0000_0000_0000_0000_0000,
        pow2(120) == 0x100_0000_0000_0000_0000_0000_0000_0000,
{
    vstd::arithmetic::power2::lemma2_to64();
    vstd::arithmetic::power2::lemma2_to64_rest();
    lemma_pow2_adds(64, 51);
    lemma_pow2_adds(64, 56);
}

/// Rounds `x` (plus a fraction when `sticky`) to 53 significant bits.
fn round53(x: u128, sticky: bool) -> (res: (u128, u32))
    requires
        x < pow2(120),
    ensures
        res.0 == round_mant(x as nat, sticky),
        res.1 == round_shift(x as nat),
        res.0 <= pow2(53),
{
    proof {
        lemma_pow2_values();
        lemma_bit_len_at_most(x as nat, 120);
        lemma_round_mant_bound(x as nat, sticky);
    }
    let l = bit_len_u128(x);
    let k: u32 = if l <= 53 {
        0
    } else {
        l - 53
    };
    let p = pow2_u128(k);
    proof {
        lemma_pow2_pos(k as nat);
        lemma_pow2_strictly_increases(k as nat, 120);
        vstd::arithmetic::div_mod::lemma_div_nonincreasing(x as int, p as int);
    }
    let m = x / p;
    let low = x % p;
    let up = if k == 0 {
        false
    } else {
        2 * low > p || (2 * low == p && (sticky || m % 2 == 1))
    };
    let mant = if up {
        m + 1
    } else {
        m
    };
    (mant, k)
}

/// `floor(b1 * 2^k * fl(2^31 / d))` in double precision, saturated at
/// `i64::MAX`.
fn scaled_floor_exec(b1: u64, k: u32, d: u64) -> (v: u64)
    requires
        b1 <= pow2(53),
        k <= 11,
        1 <= d <= pow2(31),
    ensures
        v == scaled_floor_at(b1 as nat, k as nat, d as nat),
        v <= i64::MAX,
{
    proof {
        lemma_pow2_values();
    }
    let top = pow2_u128(115);
    let x = top / (d as u128);
    let rem = top % (d as u128);
    proof {
        vstd::arithmetic::div_mod::lemma_div_nonincreasing(top as int, d as int);
        lemma_pow2_strictly_increases(115, 116);
        lemma_bit_len_at_most(x as nat, 116);
    }
    let (mq, kq) = round53(x, rem != 0);
    assert((b1 as int) * (mq as int) <= 0x400_0000_0000_0000_0000_0000_0000) by (nonlinear_arith)
        requires
            b1 <= 0x20_0000_0000_0000,
            mq <= 0x20_0000_0000_0000,
            b1 >= 0,
            mq >= 0,
    ;
    let p: u128 = (b1 as u128) * mq;
    proof {
        vstd::arithmetic::power2::lemma2_to64();
        lemma_pow2_adds(64, 43);
        vstd::arithmetic::power2::lemma2_to64_rest();
        assert(pow2(107) == 0x800_0000_0000_0000_0000_0000_0000);
        lemma_bit_len_at_most(p as nat, 107);
    }
    let (mp, kp) = round53(p, false);
    let e: u32 = kp + kq + k;
    let v: u128 = if e >= 84 {
        let f = pow2_u128(e - 84);
        proof {
            lemma_pow2_pos((e - 84) as nat);
            if e - 84 < 44 {
                lemma_pow2_strictly_increases((e - 84) as nat, 44);
            }
        }
        assert((mp as int) * (f as int) <= 0x2_0000_0000_0000_0000_0000_0000) by (nonlinear_arith)
            requires
                mp <= 0x20_0000_0000_0000,
                f <= 0x1000_0000_0000,
                mp >= 0,
                f >= 0,
        ;
        mp * f
    } else {
        let f = pow2_u128(84 - e);
        proof {
            lemma_pow2_pos((84 - e) as nat);
        }
        mp / f
    };
    if v > (i64::MAX as u128) {
        i64::MAX as u64
    } else {
        v as u64
    }
}

fn next_key(k: u64) -> (r: u64)
    ensures
        r == lcg(k),
{
    k.wrapping_mul(2862933555777941757).wrapping_add(1)
}

fn step_divisor(k: u64) -> (d: u64)
    ensures
        d == k as nat / pow2(33) + 1,
        1 <= d <= pow2(31),
{
    proof {
        lemma_pow2_values();
        vstd::bits::lemma_u64_shr_is_div(k, 33);
    }
    assert(k >> 33 <= 0x7fff_ffff) by (bit_vector);
    (k >> 33) + 1
}

/// The candidate after bucket `b` for the stepped key `next`.
fn step_exec(b: u64, next: u64) -> (j: u64)
    requires
        b + 1 <= pow2(63),
    ensures
        j == jump_step(b as int, next),
        j <= i64::MAX,
{
    let d = step_divisor(next);
    proof {
        lemma_pow2_values();
        vstd::arithmetic::power2::lemma2_to64();
        vstd::arithmetic::power2::lemma2_to64_rest();
    }
    if b + 1 <= 0x20_0000_0000_0000 {
        scaled_floor_exec(b + 1, 0, d)
    } else {
        proof {
            lemma_pow2_strictly_increases(63, 120);
            lemma_pow2_strictly_increases(63, 64);
            lemma_bit_len_at_most((b + 1) as nat, 64);
            lemma_round_mant_bound((b + 1) as nat, false);
        }
        let (m, k) = round53((b + 1) as u128, false);
        scaled_floor_exec(m as u64, k, d)
    }
}

/// The walk shared by both bucket widths; `n` fits the 53-bit mantissa.
fn jump_walk_exec(key: u64, n: u64) -> (r: u64)
    requires
        1 <= n <= pow2(53),
    ensures
        r == jump_spec(key, n as int),
        r < n,
{
    let mut b: u64 = 0;
    let mut k: u64 = key;
    loop
        invariant
            1 <= n <= pow2(53),
            b < n,
            jump_walk(b as int, k, n as int) == jump_spec(key, n as int),
        decreases n - b,
    {
        let next = next_key(k);
        proof {
            lemma_jump_step_advances(b as int, next);
            lemma_pow2_values();
            vstd::arithmetic::power2::lemma2_to64_rest();
        }
        let j = step_exec(b, next);
        if j < n {
            b = j;
            k = next;
        } else {
            return b;
        }
    }
}

/// The walk for more than `2^53` and fewer than `2^63` buckets, cut off
/// after `u64::MAX` steps.
fn jump_walk_long_exec(key: u64, n: u64) -> (r: u64)
    requires
        pow2(53) < n < pow2(63),
    ensures
        r == jump_spec_long(key, n as int),
        r < n,
{
    let mut b: u64 = 0;
    let mut k: u64 = key;
    let mut steps: u64 = 0;
    while steps < u64::MAX
        invariant
            pow2(53) < n < pow2(63),
            b < n,
            jump_walk_steps(b as int, k, n as int, (u64::MAX - steps) as nat) == jump_spec_long(key, n as int),
        decreases u64::MAX - steps,
    {
        let next = next_key(k);
        let j = step_exec(b, next);
        if j < n {
            b = j;
            k = next;
            steps = steps + 1;
        } else {
            return b;
        }
    }
    b
}

/// Maps `key` to a bucket in `0..num_buckets`; `EmptyRing` when there are no
/// buckets.
pub fn jump_consistent_hash(key: u64, num_buckets: u32) -> (r: core::result::Result<
    u32,
    ConsistentHashError,
>)
    ensures
        num_buckets == 0 <==> r matches Err(ConsistentHashError::EmptyRing),
        num_buckets > 0 ==> (r matches Ok(b) && b == jump_spec(key, num_buckets as int) && b < num_buckets),
{
    if num_buckets == 0 {
        return Err(ConsistentHashError::EmptyRing);
    }
    proof {
        vstd::arithmetic::power2::lemma2_to64();
        lemma_pow2_strictly_increases(32, 53);
    }
    let b = jump_walk_exec(key, num_buckets as u64);
    Ok(b as u32)
}

/// The 64-bit variant of [`jump_consistent_hash`]. Up to `2^53` buckets every
/// `b + 1` is a double and each step moves to a larger bucket. Past it the
/// double nearest `b + 1` can lie at or below `b`, so a step can stay or go
/// back; the walk is then cut off after `u64::MAX` steps. From `2^63` on the
/// count is negative as an `i64`, the walk never starts, and the answer is
/// bucket `-1` read as `u64`, that is `u64::MAX`.
pub fn jump_consistent_hash_u64(key: u64, num_buckets: u64) -> (r: core::result::Result<
    u64,
    ConsistentHashError,
>)
    ensures
        num_buckets == 0 <==> r matches Err(ConsistentHashError::EmptyRing),
        0 < num_buckets <= pow2(53) ==> (r matches Ok(b) && b == jump_spec(key, num_buckets as int) && b < num_buckets),
        pow2(53) < num_buckets < pow2(63) ==> (r matches Ok(b) && b == jump_spec_long(key, num_buckets as int) && b
            < num_buckets),
        num_buckets >= pow2(63) ==> r == Ok::<u64, ConsistentHashError>(u64::MAX),
{
    proof {
        lemma_pow2_values();
        vstd::arithmetic::power2::lemma2_to64();
        vstd::arithmetic::power2::lemma2_to64_rest();
    }
    if num_buckets == 0 {
        return Err(ConsistentHashError::EmptyRing);
    }
    if num_buckets <= 0x20_0000_0000_0000 {
        Ok(jump_walk_exec(key, num_buckets))
    } else if num_buckets < 0x8000_0000_0000_0000 {
        Ok(jump_walk_long_exec(key, num_buckets))
    } else {
        Ok(u64::MAX)
    }
}

/// Namespace for the jump hash functions.
pub struct JumpHash;

impl JumpHash {
    pub fn hash(key: u64, num_buckets: u32) -> (r: core::result::Result<u32, ConsistentHashError>)
        ensures
            num_buckets == 0 <==> r matches Err(ConsistentHashError::EmptyRing),
            num_buckets > 0 ==> (r matches Ok(b) && b == jump_spec(key, num_buckets as int) && b < num_buckets),
    {
        jump_consistent_hash(key, num_buckets)
    }

    pub fn hash_u64(key: u64, num_buckets: u64) -> (r: core::result::Result<
        u64,
        ConsistentHashError,
    >)
        ensures
            num_buckets == 0 <==> r matches Err(ConsistentHashError::EmptyRing),
            0 < num_buckets <= pow2(53) ==> (r matches Ok(b) && b == jump_spec(key, num_buckets as int) && b
                < num_buckets),
            pow2(53) < num_buckets < pow2(63) ==> (r matches Ok(b) && b == jump_spec_long(key, num_buckets as int)
                && b < num_buckets),
            num_buckets >= pow2(63) ==> r == Ok::<u64, ConsistentHashError>(u64::MAX),
    {
        jump_consistent_hash_u64(key, num_buckets)
    }
}

// ---------------------------------------------------------------------------
// Laws
// ---------------------------------------------------------------------------

proof fn lemma_walk_grow(b: int, key: u64, n: int)
    requires
        0 <= b < n,
        n + 1 <= pow2(53),
    ensures
        jump_walk(b, key, n + 1) == jump_walk(b, key, n) || jump_walk(b, key, n + 1) == n,
    decreases n - b,
{
    let next = lcg(key);
    let j = jump_step(b, next);
    lemma_jump_step_advances(b, next);
    if j < n {
        lemma_walk_grow(j, next, n);
    } else if j == n {
        let next2 = lcg(next);
        lemma_jump_step_advances(n, next2);
        assert(jump_walk(n, next, n + 1) == n);
    }
}

/// Adding a bucket moves a key only onto the new bucket: with `n + 1` buckets
/// a key lands where it was with `n`, or on bucket `n`.
pub proof fn lemma_jump_add_bucket(key: u64, n: int)
    requires
        1 <= n,
        n + 1 <= pow2(53),
    ensures
        jump_spec(key, n + 1) == jump_spec(key, n) || jump_spec(key, n + 1) == n,
{
    lemma_walk_grow(0, key, n);
}

} // verus!
