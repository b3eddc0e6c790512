//! A byte count with conversions from and to binary units.
//!
//! Fractional quantities are IEEE 754 binary64 numbers, passed and returned
//! as their bit patterns (`f64::to_bits` / `f64::from_bits`).
use crate::binary64::{
    fields, is_infinite, lemma_floor_is_exact, lemma_nearest_unique, lemma_whole_is_nearest, scaled_eq, is_nan, is_nearest_scaled, is_negative, pow2_den, pow2_num, pow2_u64,
    round53, round53_exec, round_half_even, scale, scale_clamped, scaled_floor, scaled_gt,
    sign_bit, significand, to_bits_scaled, EXP_OFFSET, EXP_SPECIAL, FRAC_UNIT,
};
use vstd::prelude::*;

verus! {

/// A binary unit of size: 1024^n bytes.
#[derive(Clone, Copy, Debug, PartialEq, Eq, Structural)]
pub enum Unit {
    Kilobytes,
    Megabytes,
    Gigabytes,
    Terabytes,
}

impl Unit {
    /// Power of two of the unit in bytes.
    pub open spec fn spec_exponent(self) -> nat {
        match self {
            Unit::Kilobytes => 10,
            Unit::Megabytes => 20,
            Unit::Gigabytes => 30,
            Unit::Terabytes => 40,
        }
    }

    pub fn exponent(self) -> (r: u64)
        ensures
            r == self.spec_exponent(),
    {
        match self {
            Unit::Kilobytes => 10,
            Unit::Megabytes => 20,
            Unit::Gigabytes => 30,
            Unit::Terabytes => 40,
        }
    }
}

/// How a quantity given in a unit was corrected to fit a byte count.
#[derive(Clone, Copy, Debug, PartialEq, Eq, Structural)]
pub enum Correction {
    /// The quantity was negative; the size is 0.
    Negative,
    /// The quantity was above the largest byte count; the size is `u64::MAX`.
    TooLarge,
}

/// Bytes held by a size built from the binary64 `v` in a unit of `2^e`
/// bytes: `v * 2^e` clamped into `[0, u64::MAX]`, then rounded down. NaN
/// gives 0.
pub open spec fn unit_bytes(v: u64, e: nat) -> nat {
    if is_nan(v) || sign_bit(v) {
        0
    } else if is_infinite(v) {
        u64::MAX as nat
    } else if scaled_floor(significand(v), scale(v) + e) > u64::MAX {
        u64::MAX as nat
    } else {
        scaled_floor(significand(v), scale(v) + e)
    }
}

/// The correction reported for the binary64 `v` in a unit of `2^e` bytes:
/// a negative quantity, or one whose byte value exceeds the largest byte
/// count, `u64::MAX`.
pub open spec fn unit_correction(v: u64, e: nat) -> Option<Correction> {
    if is_negative(v) {
        Some(Correction::Negative)
    } else if !is_nan(v) && !sign_bit(v) && (is_infinite(v) || scaled_gt(
        significand(v),
        scale(v) + e,
        u64::MAX as nat,
    )) {
        Some(Correction::TooLarge)
    } else {
        None
    }
}

/// Power of two of the unit a size of `n` bytes is shown in: the largest
/// of terabytes, gigabytes, megabytes, kilobytes and bytes that `n` reaches.
pub open spec fn display_exponent(n: nat) -> nat {
    if n >= 0x100_0000_0000 {
        40
    } else if n >= 0x4000_0000 {
        30
    } else if n >= 0x10_0000 {
        20
    } else if n >= 0x400 {
        10
    } else {
        0
    }
}

pub open spec fn unit_suffix(e: nat) -> Seq<char> {
    if e == 40 {
        seq!['T', 'B']
    } else if e == 30 {
        seq!['G', 'B']
    } else if e == 20 {
        seq!['M', 'B']
    } else if e == 10 {
        seq!['K', 'B']
    } else {
        seq!['B']
    }
}

/// `n / 2^e` as a binary64 (`round53(n) / 2^e`), in thousandths, rounded to
/// nearest with ties to even.
pub open spec fn thousandths(n: nat, e: nat) -> nat {
    let a = round53(n) * 1000;
    let d = vstd::arithmetic::power2::pow2(e);
    round_half_even(a / d, a % d, d)
}

pub open spec fn digit_char(d: nat) -> char {
    if d == 0 {
        '0'
    } else if d == 1 {
        '1'
    } else if d == 2 {
        '2'
    } else if d == 3 {
        '3'
    } else if d == 4 {
        '4'
    } else if d == 5 {
        '5'
    } else if d == 6 {
        '6'
    } else if d == 7 {
        '7'
    } else if d == 8 {
        '8'
    } else {
        '9'
    }
}

/// Decimal digits of `n`, without leading zeros.
pub open spec fn decimal(n: nat) -> Seq<char>
    decreases n,
{
    if n < 10 {
        seq![digit_char(n)]
    } else {
        decimal(n / 10).push(digit_char(n % 10))
    }
}

/// The fraction `f / 1000` as a decimal point and three digits, with
/// trailing zeros removed, and the point too when no digit is left.
pub open spec fn fraction_text(f: nat) -> Seq<char> {
    if f == 0 {
        seq![]
    } else if f % 100 == 0 {
        seq!['.', digit_char(f / 100)]
    } else if f % 10 == 0 {
        seq!['.', digit_char(f / 100), digit_char(f / 10 % 10)]
    } else {
        seq!['.', digit_char(f / 100), digit_char(f / 10 % 10), digit_char(f % 10)]
    }
}

/// A size of `n` bytes shown in its largest unit, with at most three
/// decimals and the unit's abbreviation: `42B`, `42KB`, `5.004TB`.
pub open spec fn display_text(n: nat) -> Seq<char> {
    let e = display_exponent(n);
    let t = thousandths(n, e);
    decimal(t / 1000) + fraction_text(t % 1000) + unit_suffix(e)
}

fn digit_str(d: u128) -> (r: &'static str)
    requires
        d < 10,
    ensures
        r@ == seq![digit_char(d as nat)],
{
    let r = if d == 0 {
        "0"
    } else if d == 1 {
        "1"
    } else if d == 2 {
        "2"
    } else if d == 3 {
        "3"
    } else if d == 4 {
        "4"
    } else if d == 5 {
        "5"
    } else if d == 6 {
        "6"
    } else if d == 7 {
        "7"
    } else if d == 8 {
        "8"
    } else {
        "9"
    };
    proof {
        reveal_strlit("0");
        reveal_strlit("1");
        reveal_strlit("2");
        reveal_strlit("3");
        reveal_strlit("4");
        reveal_strlit("5");
        reveal_strlit("6");
        reveal_strlit("7");
        reveal_strlit("8");
        reveal_strlit("9");
    }
    r
}

fn push_decimal(s: &mut String, n: u128)
    ensures
        final(s)@ == old(s)@ + decimal(n as nat),
    decreases n,
{
    if n >= 10 {
        push_decimal(s, n / 10);
    }
    s.append(digit_str(n % 10));
    assert(final(s)@ =~= old(s)@ + decimal(n as nat));
}

fn thousandths_exec(n: u64, e: u64) -> (r: u128)
    requires
        e <= 40,
    ensures
        r == thousandths(n as nat, e as nat),
{
    proof {
        vstd::arithmetic::power2::lemma2_to64();
        vstd::arithmetic::power2::lemma2_to64_rest();
        vstd::arithmetic::power2::lemma_pow2_pos(e as nat);
    }
    let a = round53_exec(n) * 1000;
    let d = pow2_u64(e) as u128;
    let q = a / d;
    let rem = a % d;
    if 2 * rem > d || (2 * rem == d && q % 2 == 1) {
        q + 1
    } else {
        q
    }
}

fn push_fraction(s: &mut String, f: u128)
    requires
        f < 1000,
    ensures
        final(s)@ == old(s)@ + fraction_text(f as nat),
{
    if f != 0 {
        let point = ".";
        proof {
            reveal_strlit(".");
        }
        s.append(point);
        s.append(digit_str(f / 100));
        if f % 100 != 0 {
            s.append(digit_str(f / 10 % 10));
            if f % 10 != 0 {
                s.append(digit_str(f % 10));
            }
        }
    }
    assert(final(s)@ =~= old(s)@ + fraction_text(f as nat));
}

fn suffix_str(e: u64) -> (r: &'static str)
    ensures
        r@ == unit_suffix(e as nat),
{
    let r = if e == 40 {
        "TB"
    } else if e == 30 {
        "GB"
    } else if e == 20 {
        "MB"
    } else if e == 10 {
        "KB"
    } else {
        "B"
    };
    proof {
        reveal_strlit("TB");
        reveal_strlit("GB");
        reveal_strlit("MB");
        reveal_strlit("KB");
        reveal_strlit("B");
    }
    r
}

/// Size in bytes.
#[derive(Clone, Copy, Debug)]
pub struct Size(u64);

impl View for Size {
    type V = nat;

    closed spec fn view(&self) -> nat {
        self.0 as nat
    }
}

impl Size {
    pub closed spec fn spec_bytes(bytes: u64) -> Size {
        Size(bytes)
    }

    pub closed spec fn spec_as_bytes(self) -> u64 {
        self.0
    }

    /// Builds a size from a byte count.
    pub fn bytes(bytes: u64) -> (r: Size)
        ensures
            r == Size::spec_bytes(bytes),
            r@ == bytes,
    {
        Size(bytes)
    }

    /// The size in bytes.
    pub fn as_bytes(&self) -> (r: u64)
        ensures
            r == self.spec_as_bytes(),
            r == self@,
    {
        self.0
    }

    /// Builds a size from the binary64 quantity `value` (its bit pattern) in
    /// `unit`, and reports whether the quantity had to be corrected.
    pub fn from_unit_checked(unit: Unit, value: u64) -> (r: (Size, Option<Correction>))
        ensures
            r.0@ == unit_bytes(value, unit.spec_exponent()),
            r.1 == unit_correction(value, unit.spec_exponent()),
            r.1 == Some(Correction::Negative) ==> r.0@ == 0,
            r.1 == Some(Correction::TooLarge) ==> r.0@ == u64::MAX,
    {
        let e = unit.exponent();
        let (sign, exp, frac) = fields(value);
        if exp == EXP_SPECIAL {
            if frac != 0 {
                (Size(0), None)
            } else if sign {
                (Size(0), Some(Correction::Negative))
            } else {
                (Size(u64::MAX), Some(Correction::TooLarge))
            }
        } else if sign {
            if exp == 0 && frac == 0 {
                (Size(0), None)
            } else {
                (Size(0), Some(Correction::Negative))
            }
        } else {
            let m = if exp == 0 {
                frac
            } else {
                frac + FRAC_UNIT
            };
            let t: i64 = if exp == 0 {
                1 - (EXP_OFFSET as i64) + (e as i64)
            } else {
                (exp as i64) - (EXP_OFFSET as i64) + (e as i64)
            };
            let (b, over) = scale_clamped(m, t);
            (Size(b), if over {
                Some(Correction::TooLarge)
            } else {
                None
            })
        }
    }

    /// Builds a size from the binary64 quantity `value` (its bit pattern) in
    /// `unit`; a negative quantity gives 0 and one too large gives
    /// `u64::MAX`.
    pub fn from_unit(unit: Unit, value: u64) -> (r: Size)
        ensures
            r@ == unit_bytes(value, unit.spec_exponent()),
    {
        Size::from_unit_checked(unit, value).0
    }

    /// The size in `unit`, as the bit pattern of the nearest binary64.
    pub fn as_unit(&self, unit: Unit) -> (r: u64)
        ensures
            is_nearest_scaled(r, self@, unit.spec_exponent()),
    {
        to_bits_scaled(self.0, unit.exponent())
    }

    /// The sum of two sizes, or `None` when it exceeds `u64::MAX` bytes.
    pub fn checked_add(self, rhs: Size) -> (r: Option<Size>)
        ensures
            self@ + rhs@ > u64::MAX <==> r is None,
            r matches Some(s) ==> s@ == self@ + rhs@,
    {
        if self.0 > u64::MAX - rhs.0 {
            None
        } else {
            Some(Size(self.0 + rhs.0))
        }
    }

    /// The sum of two sizes held at `u64::MAX` bytes; `+` gives it.
    pub closed spec fn spec_saturating_add(self, rhs: Size) -> Size {
        if self.0 + rhs.0 > u64::MAX {
            Size(u64::MAX)
        } else {
            Size((self.0 + rhs.0) as u64)
        }
    }

    /// The sum of two sizes, held at `u64::MAX` bytes when it is larger.
    pub fn saturating_add(self, rhs: Size) -> (r: Size)
        ensures
            r == self.spec_saturating_add(rhs),
            r@ == if self@ + rhs@ > u64::MAX {
                u64::MAX as nat
            } else {
                self@ + rhs@
            },
    {
        if self.0 > u64::MAX - rhs.0 {
            Size(u64::MAX)
        } else {
            Size(self.0 + rhs.0)
        }
    }

    /// Builds a size from a binary64 quantity of kilobytes (its bit pattern).
    pub fn kilobytes(value: u64) -> (r: Size)
        ensures
            r@ == unit_bytes(value, 10),
    {
        Size::from_unit(Unit::Kilobytes, value)
    }

    /// Builds a size from a binary64 quantity of megabytes (its bit pattern).
    pub fn megabytes(value: u64) -> (r: Size)
        ensures
            r@ == unit_bytes(value, 20),
    {
        Size::from_unit(Unit::Megabytes, value)
    }

    /// Builds a size from a binary64 quantity of gigabytes (its bit pattern).
    pub fn gigabytes(value: u64) -> (r: Size)
        ensures
            r@ == unit_bytes(value, 30),
    {
        Size::from_unit(Unit::Gigabytes, value)
    }

    /// Builds a size from a binary64 quantity of terabytes (its bit pattern).
    pub fn terabytes(value: u64) -> (r: Size)
        ensures
            r@ == unit_bytes(value, 40),
    {
        Size::from_unit(Unit::Terabytes, value)
    }

    /// The size in kilobytes, as the bit pattern of the nearest binary64.
    pub fn as_kilobytes(&self) -> (r: u64)
        ensures
            is_nearest_scaled(r, self@, 10),
    {
        self.as_unit(Unit::Kilobytes)
    }

    /// The size in megabytes, as the bit pattern of the nearest binary64.
    pub fn as_megabytes(&self) -> (r: u64)
        ensures
            is_nearest_scaled(r, self@, 20),
    {
        self.as_unit(Unit::Megabytes)
    }

    /// The size in gigabytes, as the bit pattern of the nearest binary64.
    pub fn as_gigabytes(&self) -> (r: u64)
        ensures
            is_nearest_scaled(r, self@, 30),
    {
        self.as_unit(Unit::Gigabytes)
    }

    /// The size in terabytes, as the bit pattern of the nearest binary64.
    pub fn as_terabytes(&self) -> (r: u64)
        ensures
            is_nearest_scaled(r, self@, 40),
    {
        self.as_unit(Unit::Terabytes)
    }

    /// The size in its largest unit, with at most three decimals:
    /// `42B`, `42KB`, `5.004TB`.
    pub fn to_string(&self) -> (r: String)
        ensures
            r@ == display_text(self@),
    {
        let n = self.0;
        let e: u64 = if n >= 0x100_0000_0000 {
            40
        } else if n >= 0x4000_0000 {
            30
        } else if n >= 0x10_0000 {
            20
        } else if n >= 0x400 {
            10
        } else {
            0
        };
        let t = thousandths_exec(n, e);
        let mut s = String::new();
        push_decimal(&mut s, t / 1000);
        push_fraction(&mut s, t % 1000);
        s.append(suffix_str(e));
        assert(s@ =~= display_text(self@));
        s
    }
}

/// A size built from a byte count holds exactly that count.
pub proof fn lemma_bytes_round_trip(b: u64)
    ensures
        Size::spec_bytes(b).spec_as_bytes() == b,
{
}

/// A negative quantity, in any unit, gives a size of 0 bytes and is
/// reported as corrected.
pub proof fn lemma_negative_quantity(value: u64, unit: Unit)
    requires
        is_negative(value),
    ensures
        unit_bytes(value, unit.spec_exponent()) == 0,
        unit_correction(value, unit.spec_exponent()) == Some(Correction::Negative),
{
}

/// A non-negative quantity whose byte value exceeds the largest byte count
/// gives a size of `u64::MAX` bytes and is reported as corrected.
pub proof fn lemma_too_large_quantity(value: u64, unit: Unit)
    requires
        !sign_bit(value),
        !is_nan(value),
        is_infinite(value) || scaled_gt(
            significand(value),
            scale(value) + unit.spec_exponent(),
            u64::MAX as nat,
        ),
    ensures
        unit_bytes(value, unit.spec_exponent()) == u64::MAX,
        unit_correction(value, unit.spec_exponent()) == Some(Correction::TooLarge),
{
    if !is_infinite(value) {
        let m = significand(value);
        let t = scale(value) + unit.spec_exponent();
        let num = pow2_num(t);
        let den = pow2_den(t);
        vstd::arithmetic::power2::lemma2_to64();
        vstd::arithmetic::power2::lemma_pow2_pos(if t >= 0 { 0 } else { (-t) as nat });
        assert(den > 0);
        vstd::arithmetic::div_mod::lemma_div_is_ordered(
            (u64::MAX * den) as int,
            (m * num) as int,
            den as int,
        );
        vstd::arithmetic::div_mod::lemma_div_multiples_vanish(
            u64::MAX as int,
            den as int,
        );
        vstd::arithmetic::mul::lemma_mul_is_commutative(
            u64::MAX as int,
            den as int,
        );
    }
}

/// A non-negative quantity that is a whole number of bytes, at most
/// `u64::MAX`, comes back unchanged when the size built from it is read in
/// the same unit: the only binary64 nearest to the size in that unit is the
/// quantity itself.
pub proof fn lemma_unit_round_trip(value: u64, unit: Unit)
    requires
        !sign_bit(value),
        !is_nan(value),
        !is_infinite(value),
        scaled_eq(
            significand(value),
            scale(value) + unit.spec_exponent(),
            scaled_floor(significand(value), scale(value) + unit.spec_exponent()),
        ),
        scaled_floor(significand(value), scale(value) + unit.spec_exponent()) <= u64::MAX,
    ensures
        forall|r: u64|
            is_nearest_scaled(r, unit_bytes(value, unit.spec_exponent()), unit.spec_exponent())
                <==> r == value,
{
    let e = unit.spec_exponent();
    let k = unit_bytes(value, e);
    vstd::arithmetic::power2::lemma2_to64();
    lemma_whole_is_nearest(value, e, k);
    assert forall|r: u64| is_nearest_scaled(r, k, e) implies r == value by {
        lemma_nearest_unique(r, value, k, e);
    }
}

/// Reading a size built from a non-negative quantity `v` back in the same
/// unit gives `v` rounded down to a whole number of bytes: the result's
/// value times `2^e` is `k = floor(v * 2^e)`, where `k <= v * 2^e < k + 1`.
/// So the result is below `v` by less than `2^-e`.
pub proof fn lemma_unit_read_back(value: u64, unit: Unit)
    requires
        !sign_bit(value),
        !is_nan(value),
        !is_infinite(value),
        scaled_floor(significand(value), scale(value) + unit.spec_exponent()) <= u64::MAX,
    ensures
        ({
            let m = significand(value);
            let t = scale(value) + unit.spec_exponent();
            let k = scaled_floor(m, t);
            &&& k * pow2_den(t) <= m * pow2_num(t) < (k + 1) * pow2_den(t)
            &&& forall|r: u64|
                is_nearest_scaled(r, unit_bytes(value, unit.spec_exponent()), unit.spec_exponent())
                    ==> scaled_eq(significand(r), scale(r) + unit.spec_exponent(), k)
        }),
{
    let e = unit.spec_exponent();
    let m = significand(value);
    let t = scale(value) + e;
    let k = scaled_floor(m, t);
    let x = m * pow2_num(t);
    let d = pow2_den(t);
    vstd::arithmetic::power2::lemma2_to64();
    vstd::arithmetic::power2::lemma_pow2_pos(if t >= 0 { 0 } else { (-t) as nat });
    assert(d > 0);
    vstd::arithmetic::div_mod::lemma_fundamental_div_mod(x as int, d as int);
    assert(k * d <= x < (k + 1) * d) by (nonlinear_arith)
        requires
            x == d * k + x % d,
            0 <= x % d < d,
    ;
    assert(unit_bytes(value, e) == k);
    lemma_floor_is_exact(value, e);
    assert forall|r: u64| is_nearest_scaled(r, k, e) implies scaled_eq(
        significand(r),
        scale(r) + e,
        k,
    ) by {
        if k == 0 {
            assert(r == 0);
            assert(significand(r) == 0);
        }
    }
}

/// `a + b` holds the sum of the byte counts, or `u64::MAX` bytes when that
/// sum is larger.
pub proof fn lemma_saturating_add_bytes(a: Size, b: Size)
    ensures
        a.spec_saturating_add(b)@ == if a@ + b@ > u64::MAX {
            u64::MAX as nat
        } else {
            a@ + b@
        },
{
}

/// `+` on sizes saturates at `u64::MAX` bytes; `checked_add` reports the
/// overflow instead.
impl core::ops::Add for Size {
    type Output = Size;

    fn add(self, rhs: Size) -> (r: Size) {
        self.saturating_add(rhs)
    }
}

impl vstd::std_specs::ops::AddSpecImpl for Size {
    open spec fn obeys_add_spec() -> bool {
        true
    }

    open spec fn add_req(self, rhs: Size) -> bool {
        true
    }

    open spec fn add_spec(self, rhs: Size) -> Size {
        self.spec_saturating_add(rhs)
    }
}

} // verus!
