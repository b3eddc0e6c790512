//! IEEE 754 binary64 values handled through their bit patterns.
//!
//! A finite value with bit pattern `b` is
//! `(-1)^sign * significand(b) * 2^scale(b)`.
use vstd::arithmetic::div_mod::*;
use vstd::arithmetic::mul::*;
use vstd::arithmetic::power2::*;
use vstd::prelude::*;

verus! {

/// One unit of the exponent field: 2^52.
pub const FRAC_UNIT: u64 = 0x10_0000_0000_0000;

/// Lowest bit of the sign field: 2^63.
pub const SIGN_UNIT: u64 = 0x8000_0000_0000_0000;

/// Largest value of the exponent field, used by infinities and NaNs.
pub const EXP_SPECIAL: u64 = 2047;

/// Offset between the exponent field and the power of two of the lowest
/// significand bit.
pub const EXP_OFFSET: u64 = 1075;

pub open spec fn sign_bit(b: u64) -> bool {
    b as nat / SIGN_UNIT as nat == 1
}

pub open spec fn exp_field(b: u64) -> nat {
    (b as nat / FRAC_UNIT as nat) % 2048
}

pub open spec fn frac_field(b: u64) -> nat {
    b as nat % FRAC_UNIT as nat
}

pub open spec fn is_nan(b: u64) -> bool {
    exp_field(b) == EXP_SPECIAL && frac_field(b) != 0
}

pub open spec fn is_infinite(b: u64) -> bool {
    exp_field(b) == EXP_SPECIAL && frac_field(b) == 0
}

pub open spec fn is_zero(b: u64) -> bool {
    exp_field(b) == 0 && frac_field(b) == 0
}

/// The value compares below `0.0`.
pub open spec fn is_negative(b: u64) -> bool {
    sign_bit(b) && !is_nan(b) && !is_zero(b)
}

/// Magnitude of a finite value, up to the factor `2^scale(b)`.
pub open spec fn significand(b: u64) -> nat {
    if exp_field(b) == 0 {
        frac_field(b)
    } else {
        frac_field(b) + FRAC_UNIT as nat
    }
}

/// Power of two of the lowest significand bit.
pub open spec fn scale(b: u64) -> int {
    if exp_field(b) == 0 {
        1 - EXP_OFFSET
    } else {
        exp_field(b) - EXP_OFFSET
    }
}

/// `2^t` for any integer `t`, as a numerator over a denominator: `m * 2^t` is
/// `m * pow2_num(t) / pow2_den(t)`.
pub open spec fn pow2_num(t: int) -> nat {
    if t >= 0 {
        pow2(t as nat)
    } else {
        1
    }
}

pub open spec fn pow2_den(t: int) -> nat {
    if t >= 0 {
        1
    } else {
        pow2((-t) as nat)
    }
}

/// `m * 2^t` equals `v`.
pub open spec fn scaled_eq(m: nat, t: int, v: nat) -> bool {
    m * pow2_num(t) == v * pow2_den(t)
}

/// `m * 2^t` exceeds `v`.
pub open spec fn scaled_gt(m: nat, t: int, v: nat) -> bool {
    m * pow2_num(t) > v * pow2_den(t)
}

/// `m * 2^t`, rounded down.
pub open spec fn scaled_floor(m: nat, t: int) -> nat {
    (m * pow2_num(t)) / pow2_den(t)
}

/// Number of binary digits of `n`.
pub open spec fn bit_len(n: nat) -> nat
    decreases n,
{
    if n == 0 {
        0
    } else {
        1 + bit_len(n / 2)
    }
}

/// Rounds `q + r / d` (with `r < d`) to an integer, to nearest, ties to even.
pub open spec fn round_half_even(q: nat, r: nat, d: nat) -> nat {
    if 2 * r > d || (2 * r == d && q % 2 == 1) {
        q + 1
    } else {
        q
    }
}

/// `n` rounded to 53 significant bits, to nearest, ties to even: the value
/// that converting `n` to binary64 gives.
pub open spec fn round53(n: nat) -> nat {
    if bit_len(n) <= 53 {
        n
    } else {
        let s = (bit_len(n) - 53) as nat;
        round_half_even(n / pow2(s), n % pow2(s), pow2(s)) * pow2(s)
    }
}

/// `r` is the bit pattern of the binary64 nearest to `n / 2^e`: zero for
/// zero, else a positive normal number whose value times `2^e` is
/// `round53(n)`.
pub open spec fn is_nearest_scaled(r: u64, n: nat, e: nat) -> bool {
    if n == 0 {
        r == 0
    } else {
        !sign_bit(r) && 0 < exp_field(r) < EXP_SPECIAL && scaled_eq(
            significand(r),
            scale(r) + e,
            round53(n),
        )
    }
}

/// `2^k` as a machine integer.
pub fn pow2_u64(k: u64) -> (r: u64)
    requires
        k < 64,
    ensures
        r as nat == pow2(k as nat),
{
    proof {
        lemma2_to64();
    }
    let mut r: u64 = 1;
    let mut i: u64 = 0;
    while i < k
        invariant
            i <= k < 64,
            r as nat == pow2(i as nat),
        decreases k - i,
    {
        proof {
            lemma_pow2_unfold((i + 1) as nat);
            lemma_pow2_strictly_increases((i + 1) as nat, 64);
            lemma2_to64_rest();
        }
        r = r * 2;
        i = i + 1;
    }
    r
}

/// Splits a bit pattern into its sign, exponent and fraction fields.
pub fn fields(b: u64) -> (r: (bool, u64, u64))
    ensures
        r.0 == sign_bit(b),
        r.1 == exp_field(b),
        r.2 == frac_field(b),
{
    (b / SIGN_UNIT == 1, (b / FRAC_UNIT) % 2048, b % FRAC_UNIT)
}

/// `m * 2^t` rounded down and clamped to `u64::MAX`, together with whether
/// `m * 2^t` exceeds `u64::MAX`.
pub fn scale_clamped(m: u64, t: i64) -> (r: (u64, bool))
    requires
        m < 2 * FRAC_UNIT,
        t >= 12 ==> m >= FRAC_UNIT,
    ensures
        r.0 == if scaled_floor(m as nat, t as int) > u64::MAX {
            u64::MAX as nat
        } else {
            scaled_floor(m as nat, t as int)
        },
        r.1 == scaled_gt(m as nat, t as int, u64::MAX as nat),
        r.1 ==> r.0 == u64::MAX,
{
    proof {
        lemma2_to64();
        lemma2_to64_rest();
    }
    if t >= 12 {
        proof {
            let k = (t - 12) as nat;
            lemma_pow2_adds(12, k);
            lemma_pow2_pos(k);
            assert(m * pow2_num(t as int) == (m * pow2(12)) * pow2(k)) by (nonlinear_arith)
                requires
                    pow2_num(t as int) == pow2(12) * pow2(k),
            ;
            assert(m * pow2(12) >= pow2(64)) by (nonlinear_arith)
                requires
                    m >= 0x10_0000_0000_0000int,
                    pow2(12) == 4096,
                    pow2(64) == 0x1_0000_0000_0000_0000int,
            ;
            lemma_mul_increases(pow2(k) as int, (m * pow2(12)) as int);
            assert(pow2_den(t as int) == 1);
        }
        assert(scaled_floor(m as nat, t as int) >= pow2(64));
        (u64::MAX, true)
    } else if t >= 0 {
        let f = pow2_u64(t as u64);
        proof {
            if t < 11 {
                lemma_pow2_strictly_increases(t as nat, 11);
            }
            assert(m * f < pow2(64)) by (nonlinear_arith)
                requires
                    m < 0x20_0000_0000_0000int,
                    f <= 2048,
                    pow2(64) == 0x1_0000_0000_0000_0000int,
            ;
        }
        assert(scaled_floor(m as nat, t as int) == m * f);
        (m * f, false)
    } else if t > -64 {
        let d = pow2_u64((-t) as u64);
        proof {
            lemma_pow2_pos((-t) as nat);
            assert(m <= u64::MAX * d) by (nonlinear_arith)
                requires
                    m < pow2(64),
                    pow2(64) == 0x1_0000_0000_0000_0000int,
                    d >= 1,
            ;
        }
        assert(scaled_floor(m as nat, t as int) == m / d);
        (m / d, false)
    } else {
        proof {
            let k = (-t) as nat;
            lemma_pow2_strictly_increases(53, k);
            lemma_basic_div(m as int, pow2(k) as int);
            assert(m * pow2_num(t as int) == m);
            assert(m <= u64::MAX * pow2(k)) by (nonlinear_arith)
                requires
                    m < pow2(64),
                    pow2(64) == 0x1_0000_0000_0000_0000int,
                    pow2(k) >= 1,
            ;
        }
        assert(scaled_floor(m as nat, t as int) == 0);
        (0, false)
    }
}

/// The binary64 nearest to a positive integer `n`, as a significand in
/// `[2^52, 2^53)` and the power of two `p` of its top bit: its value is
/// `sig * 2^(p - 52)`.
pub fn nearest(n: u64) -> (r: (u64, u64))
    requires
        n > 0,
    ensures
        FRAC_UNIT <= r.0 < 2 * FRAC_UNIT,
        r.1 <= 64,
        scaled_eq(r.0 as nat, r.1 - 52, round53(n as nat)),
        round53(n as nat) <= pow2(64),
{
    proof {
        lemma2_to64();
        lemma2_to64_rest();
    }
    let mut p: u64 = 63;
    while n < pow2_u64(p)
        invariant
            0 < n,
            p < 64,
            n < pow2((p + 1) as nat),
        decreases p,
    {
        proof {
            lemma2_to64();
        }
        p = p - 1;
    }
    proof {
        lemma_bit_len(n as nat, p as nat);
    }
    if p <= 52 {
        let f = pow2_u64(52 - p);
        proof {
            lemma_pow2_adds(p as nat, (52 - p) as nat);
            lemma_pow2_adds((p + 1) as nat, (52 - p) as nat);
            lemma_mul_inequality(pow2(p as nat) as int, n as int, f as int);
            lemma_mul_strict_inequality(n as int, pow2((p + 1) as nat) as int, f as int);
            lemma_pow2_pos((52 - p) as nat);
        }
        let sig = n * f;
        assert(round53(n as nat) == n);
        assert(scaled_eq(sig as nat, p - 52, n as nat)) by {
            if p == 52 {
                assert(pow2(0) == 1);
            }
        }
        (sig, p)
    } else {
        let s = p - 52;
        let d = pow2_u64(s);
        let q = n / d;
        let rem = n % d;
        proof {
            lemma_pow2_adds(52, s as nat);
            lemma_pow2_adds(53, s as nat);
            lemma_pow2_pos(s as nat);
            lemma_fundamental_div_mod(n as int, d as int);
            assert(FRAC_UNIT <= q < 2 * FRAC_UNIT) by (nonlinear_arith)
                requires
                    n == q * d + rem,
                    0 <= rem < d,
                    0x10_0000_0000_0000int * d <= n < 0x20_0000_0000_0000int * d,
                    FRAC_UNIT == 0x10_0000_0000_0000int,
            ;
            if s < 11 {
                lemma_pow2_strictly_increases(s as nat, 11);
            }
        }
        let q1 = if 2 * rem > d || (2 * rem == d && q % 2 == 1) {
            q + 1
        } else {
            q
        };
        assert(round53(n as nat) == q1 * d);
        assert(q1 * d <= pow2(64)) by (nonlinear_arith)
            requires
                q1 <= 0x20_0000_0000_0000int,
                d <= 2048,
                pow2(64) == 0x1_0000_0000_0000_0000int,
        ;
        if q1 == 2 * FRAC_UNIT {
            proof {
                lemma_pow2_unfold((s + 1) as nat);
                assert(FRAC_UNIT * pow2((s + 1) as nat) == q1 * d) by (nonlinear_arith)
                    requires
                        pow2((s + 1) as nat) == 2 * d,
                        q1 == 2 * FRAC_UNIT,
                ;
            }
            (FRAC_UNIT, p + 1)
        } else {
            assert(scaled_eq(q1 as nat, p - 52, round53(n as nat)));
            (q1, p)
        }
    }
}

/// `round53(n)`: the integer value of the binary64 nearest to `n`.
pub fn round53_exec(n: u64) -> (r: u128)
    ensures
        r == round53(n as nat),
        r <= pow2(64),
{
    proof {
        lemma2_to64();
        lemma2_to64_rest();
    }
    if n == 0 {
        assert(bit_len(0) == 0);
        0
    } else {
        let (sig, p) = nearest(n);
        if p >= 52 {
            let f = pow2_u64(p - 52);
            assert(pow2_num(p - 52) == f && pow2_den(p - 52) == 1);
            assert(sig as nat * f as nat == round53(n as nat)) by (nonlinear_arith)
                requires
                    sig * pow2_num(p - 52) == round53(n as nat) * pow2_den(p - 52),
                    pow2_num(p - 52) == f,
                    pow2_den(p - 52) == 1,
            ;
            (sig as u128) * (f as u128)
        } else {
            let d = pow2_u64(52 - p);
            assert(pow2_num(p - 52) == 1 && pow2_den(p - 52) == d);
            assert(sig == round53(n as nat) * d) by (nonlinear_arith)
                requires
                    sig * pow2_num(p - 52) == round53(n as nat) * pow2_den(p - 52),
                    pow2_num(p - 52) == 1,
                    pow2_den(p - 52) == d,
            ;
            proof {
                lemma_pow2_pos((52 - p) as nat);
                lemma_mul_is_commutative(round53(n as nat) as int, d as int);
                lemma_div_multiples_vanish(round53(n as nat) as int, d as int);
            }
            assert(sig / d == round53(n as nat));
            (sig / d) as u128
        }
    }
}

/// Bit pattern of the binary64 nearest to `n / 2^e`.
pub fn to_bits_scaled(n: u64, e: u64) -> (r: u64)
    requires
        e <= 40,
    ensures
        is_nearest_scaled(r, n as nat, e as nat),
{
    if n == 0 {
        0
    } else {
        let (sig, p) = nearest(n);
        let biased = p + (EXP_OFFSET - 52) - e;
        let r = biased * FRAC_UNIT + (sig - FRAC_UNIT);
        proof {
            lemma_fundamental_div_mod_converse(
                r as int,
                FRAC_UNIT as int,
                biased as int,
                (sig - FRAC_UNIT) as int,
            );
            lemma_small_mod(biased as nat, 2048);
            lemma_basic_div(r as int, SIGN_UNIT as int);
        }
        r
    }
}

proof fn lemma_bit_len(n: nat, p: nat)
    requires
        pow2(p) <= n < pow2(p + 1),
    ensures
        bit_len(n) == p + 1,
    decreases p,
{
    lemma_pow2_unfold(p + 1);
    if p > 0 {
        lemma_pow2_unfold(p);
        assert(pow2((p - 1) as nat) <= n / 2 < pow2(p));
        lemma_bit_len(n / 2, (p - 1) as nat);
    } else {
        lemma2_to64();
        assert(n == 1);
        assert(bit_len(0) == 0);
        assert(bit_len(1) == 1 + bit_len(0));
    }
}

proof fn lemma_bit_len_bound(n: nat, m: nat)
    requires
        n < pow2(m),
    ensures
        bit_len(n) <= m,
    decreases n,
{
    if n > 0 {
        lemma2_to64();
        if m == 0 {
            assert(false);
        } else {
            lemma_pow2_unfold(m);
            lemma_bit_len_bound(n / 2, (m - 1) as nat);
        }
    }
}

/// An integer with at most 53 significant bits is its own rounding.
proof fn lemma_round53_exact(m: nat, t: nat)
    requires
        m < pow2(53),
    ensures
        round53(m * pow2(t)) == m * pow2(t),
{
    let k = m * pow2(t);
    lemma_pow2_adds(53, t);
    lemma_pow2_pos(t);
    lemma_mul_strict_inequality(m as int, pow2(53) as int, pow2(t) as int);
    lemma_bit_len_bound(k, 53 + t);
    if bit_len(k) > 53 {
        let s = (bit_len(k) - 53) as nat;
        let u = (t - s) as nat;
        lemma_pow2_adds(u, s);
        lemma_pow2_pos(s);
        assert(k == (m * pow2(u)) * pow2(s)) by (nonlinear_arith)
            requires
                k == m * pow2(t),
                pow2(t) == pow2(u) * pow2(s),
        ;
        lemma_fundamental_div_mod_converse(k as int, pow2(s) as int, (m * pow2(u)) as int, 0);
    }
}

/// `m * 2^(x - c) == v` means `m * 2^x == v * 2^c`.
proof fn lemma_scaled_eq_shift(m: nat, x: nat, c: nat, v: nat)
    requires
        scaled_eq(m, x - c, v),
    ensures
        m * pow2(x) == v * pow2(c),
{
    if x >= c {
        let t = (x - c) as nat;
        lemma_pow2_adds(t, c);
        assert(m * pow2(x) == v * pow2(c)) by (nonlinear_arith)
            requires
                m * pow2(t) == v,
                pow2(x) == pow2(t) * pow2(c),
        ;
    } else {
        let t = (c - x) as nat;
        lemma_pow2_adds(t, x);
        assert(m * pow2(x) == v * pow2(c)) by (nonlinear_arith)
            requires
                m == v * pow2(t),
                pow2(c) == pow2(t) * pow2(x),
        ;
    }
}

/// A bit pattern with a clear sign bit is its exponent and fraction fields.
proof fn lemma_positive_fields(b: u64)
    requires
        !sign_bit(b),
    ensures
        b == exp_field(b) * FRAC_UNIT + frac_field(b),
{
    lemma_fundamental_div_mod(b as int, FRAC_UNIT as int);
    lemma_small_mod((b as nat / FRAC_UNIT as nat), 2048);
}

proof fn lemma_significand_bounds(b: u64)
    ensures
        significand(b) < pow2(53),
        exp_field(b) > 0 ==> pow2(52) <= significand(b),
        exp_field(b) == 0 ==> significand(b) < pow2(52),
{
    lemma2_to64();
    lemma2_to64_rest();
}

/// The whole part of a non-negative finite binary64 times `2^e`, when it is
/// below `2^64`, is exactly representable: `round53` leaves it unchanged.
pub proof fn lemma_floor_is_exact(value: u64, e: nat)
    requires
        !sign_bit(value),
        scaled_floor(significand(value), scale(value) + e) < pow2(64),
    ensures
        round53(scaled_floor(significand(value), scale(value) + e)) == scaled_floor(
            significand(value),
            scale(value) + e,
        ),
{
    let m = significand(value);
    let t = scale(value) + e;
    let k = scaled_floor(m, t);
    lemma_significand_bounds(value);
    if t >= 0 {
        assert(pow2_den(t) == 1 && pow2_num(t) == pow2(t as nat));
        assert(k == m * pow2(t as nat)) by (nonlinear_arith)
            requires
                k == (m * pow2_num(t)) / pow2_den(t),
                pow2_den(t) == 1,
                pow2_num(t) == pow2(t as nat),
        ;
        lemma_round53_exact(m, t as nat);
    } else {
        lemma_pow2_pos((-t) as nat);
        assert(pow2_num(t) == 1);
        assert(m * 1 == m);
        lemma_div_is_ordered_by_denominator(m as int, 1, pow2((-t) as nat) as int);
        assert(k <= m);
        lemma_bit_len_bound(k, 53);
    }
}

/// At most one bit pattern is the binary64 nearest to `n / 2^e`.
pub proof fn lemma_nearest_unique(r1: u64, r2: u64, n: nat, e: nat)
    requires
        e <= 40,
        is_nearest_scaled(r1, n, e),
        is_nearest_scaled(r2, n, e),
    ensures
        r1 == r2,
{
    if n > 0 {
        let c = (EXP_OFFSET - e) as nat;
        let x1 = exp_field(r1);
        let x2 = exp_field(r2);
        let m1 = significand(r1);
        let m2 = significand(r2);
        let v = round53(n);
        lemma_scaled_eq_shift(m1, x1, c, v);
        lemma_scaled_eq_shift(m2, x2, c, v);
        lemma2_to64();
        lemma2_to64_rest();
        lemma_significand_bounds(r1);
        lemma_significand_bounds(r2);
        if x1 != x2 {
            let (lo, hi, mlo, mhi) = if x1 < x2 {
                (x1, x2, m1, m2)
            } else {
                (x2, x1, m2, m1)
            };
            lemma_pow2_unfold(lo + 1);
            if lo + 1 < hi {
                lemma_pow2_strictly_increases(lo + 1, hi);
            }
            lemma_pow2_pos(lo);
            lemma_mul_strict_inequality(mlo as int, pow2(53) as int, pow2(lo) as int);
            lemma_mul_inequality(pow2(52) as int, mhi as int, pow2(hi) as int);
            lemma_mul_inequality(pow2(lo + 1) as int, pow2(hi) as int, pow2(52) as int);
            assert(pow2(53) * pow2(lo) == pow2(52) * pow2(lo + 1)) by (nonlinear_arith)
                requires
                    pow2(lo + 1) == 2 * pow2(lo),
                    pow2(53) == 2 * pow2(52),
            ;
            assert(false);
        }
        lemma_pow2_pos(x1);
        assert(pow2(x1) * m1 == pow2(x1) * m2) by (nonlinear_arith)
            requires
                m1 * pow2(x1) == v * pow2(c),
                m2 * pow2(x2) == v * pow2(c),
                x1 == x2,
        ;
        lemma_mul_equality_converse(pow2(x1) as int, m1 as int, m2 as int);
        lemma_positive_fields(r1);
        lemma_positive_fields(r2);
    } else {
    }
}

/// A non-negative binary64 whose value `m * 2^t` is a whole number `k`
/// below `2^64` is the binary64 nearest to `k / 2^e`, where `t` is its scale
/// plus `e`.
pub proof fn lemma_whole_is_nearest(value: u64, e: nat, k: nat)
    requires
        e <= 40,
        !sign_bit(value),
        exp_field(value) < EXP_SPECIAL,
        scaled_eq(significand(value), scale(value) + e, k),
        k < pow2(64),
    ensures
        is_nearest_scaled(value, k, e),
{
    lemma2_to64();
    let m = significand(value);
    let t = scale(value) + e;
    lemma_positive_fields(value);
    lemma_significand_bounds(value);
    lemma_pow2_pos(if t >= 0 { t as nat } else { (-t) as nat });
    assert(pow2_num(t) > 0 && pow2_den(t) > 0);
    if k == 0 {
        assert(m * pow2_num(t) == 0);
        lemma_mul_nonzero(m as int, pow2_num(t) as int);
        assert(m == 0);
    } else {
        if exp_field(value) == 0 {
            lemma_pow2_strictly_increases(53, (-t) as nat);
            assert(pow2_num(t) == 1);
            assert(m >= k * pow2_den(t)) by (nonlinear_arith)
                requires
                    m * pow2_num(t) == k * pow2_den(t),
                    pow2_num(t) == 1,
            ;
            assert(k * pow2_den(t) >= pow2_den(t)) by (nonlinear_arith)
                requires
                    k >= 1,
            ;
            assert(false);
        }
        if t >= 0 {
            assert(pow2_den(t) == 1);
            assert(m * pow2(t as nat) == k) by (nonlinear_arith)
                requires
                    m * pow2_num(t) == k * pow2_den(t),
                    pow2_den(t) == 1,
                    pow2_num(t) == pow2(t as nat),
            ;
            lemma_round53_exact(m, t as nat);
        } else {
            assert(pow2_num(t) == 1);
            assert(m >= k) by (nonlinear_arith)
                requires
                    m * pow2_num(t) == k * pow2_den(t),
                    pow2_num(t) == 1,
                    pow2_den(t) >= 1,
            ;
            lemma_bit_len_bound(k, 53);
        }
    }
}

} // verus!
