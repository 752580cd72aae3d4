//! Fixed-point decimal numbers: a signed 96-bit mantissa and a base-10 scale
//! of at most 28 digits, the value being `mantissa / 10^scale`, and a sign bit
//! that a zero keeps too (`-0` is equal to `0` but prints with its sign).
//!
//! Arithmetic is carried out by `rust_decimal`; a [`Dec`] holds the plain
//! parts of such a value. Rounding results are named (see the `decimal_checked_*`
//! functions); the few facts that the arithmetic guarantees exactly are stated
//! on the operations themselves.
use vstd::prelude::*;
use crate::text::decimal_digits;

verus! {

/// Largest mantissa magnitude a decimal can carry: `2^96 - 1`.
pub const MAX_MANTISSA: i128 = 79228162514264337593543950335i128;

/// Largest number of digits after the decimal point.
pub const MAX_SCALE: u32 = 28u32;

/// `10^n`.
pub open spec fn pow10(n: nat) -> int
    decreases n,
{
    if n == 0 {
        1
    } else {
        10 * pow10((n - 1) as nat)
    }
}

pub proof fn lemma_pow10_positive(n: nat)
    ensures
        pow10(n) >= 1,
    decreases n,
{
    if n > 0 {
        lemma_pow10_positive((n - 1) as nat);
    }
}

/// The parts `(mantissa, scale)` describe a representable decimal.
pub open spec fn parts_in_range(mantissa: int, scale: int) -> bool {
    &&& -MAX_MANTISSA <= mantissa <= MAX_MANTISSA
    &&& 0 <= scale <= MAX_SCALE
}

/// Name for `rust_decimal::Decimal::checked_add` on the decimals with the given parts
/// (mantissa, scale, sign bit): the parts of the sum, or `None` where the sum overflows.
pub uninterp spec fn decimal_checked_add(a_mantissa: i128, a_scale: u32, a_negative: bool, b_mantissa: i128, b_scale: u32, b_negative: bool) -> Option<(i128, u32, bool)>;

/// Name for `rust_decimal::Decimal::checked_sub` on the decimals with the given parts.
pub uninterp spec fn decimal_checked_sub(a_mantissa: i128, a_scale: u32, a_negative: bool, b_mantissa: i128, b_scale: u32, b_negative: bool) -> Option<(i128, u32, bool)>;

/// Name for `rust_decimal::Decimal::checked_mul` on the decimals with the given parts.
pub uninterp spec fn decimal_checked_mul(a_mantissa: i128, a_scale: u32, a_negative: bool, b_mantissa: i128, b_scale: u32, b_negative: bool) -> Option<(i128, u32, bool)>;

/// Name for `rust_decimal::Decimal::checked_div` on the decimals with the given parts
/// (`None` on overflow and on a zero divisor).
pub uninterp spec fn decimal_checked_div(a_mantissa: i128, a_scale: u32, a_negative: bool, b_mantissa: i128, b_scale: u32, b_negative: bool) -> Option<(i128, u32, bool)>;

/// The sign bit agrees with the mantissa: set below zero, clear above it, and
/// either way for a zero.
pub open spec fn sign_agrees(mantissa: int, negative: bool) -> bool {
    &&& mantissa < 0 ==> negative
    &&& mantissa > 0 ==> !negative
}

/// A decimal number `mantissa / 10^scale`, with its sign bit.
#[derive(Clone, Copy, Debug)]
pub struct Dec {
    mantissa: i128,
    scale: u32,
    negative: bool,
}

impl Dec {
    #[verifier::type_invariant]
    spec fn well_formed(self) -> bool {
        parts_in_range(self.mantissa as int, self.scale as int) && sign_agrees(self.mantissa as int, self.negative)
    }

    /// The parts are in range and the sign bit agrees with the mantissa (true
    /// of every exec value).
    pub open spec fn valid(self) -> bool {
        parts_in_range(self.mant(), self.scl()) && sign_agrees(self.mant(), self.sign_neg())
    }

    /// The sign bit: set for values below zero and for `-0`.
    pub closed spec fn sign_neg(self) -> bool {
        self.negative
    }

    /// The mantissa.
    pub closed spec fn mant(self) -> int {
        self.mantissa as int
    }

    /// The scale: number of digits after the decimal point.
    pub closed spec fn scl(self) -> int {
        self.scale as int
    }

    /// The decimal with the given parts; a zero is `+0`.
    pub closed spec fn of(mantissa: i128, scale: u32) -> Dec {
        Dec { mantissa, scale, negative: mantissa < 0 }
    }

    /// The decimal with the given parts and sign bit.
    pub closed spec fn of_signed(mantissa: i128, scale: u32, negative: bool) -> Dec {
        Dec { mantissa, scale, negative }
    }

    /// Lifts the parts returned by an arithmetic operation.
    pub open spec fn of_parts(r: Option<(i128, u32, bool)>) -> Option<Dec> {
        match r {
            Some((m, s, n)) => Some(Dec::of_signed(m, s, n)),
            None => None,
        }
    }

    pub open spec fn spec_zero() -> Dec {
        Dec::of(0, 0)
    }

    pub open spec fn spec_one() -> Dec {
        Dec::of(1, 0)
    }

    /// `-self`: the mantissa negated and the sign bit flipped (so `-0` and `0`
    /// swap).
    pub open spec fn spec_neg(self) -> Dec {
        Dec::of_signed((-self.mant()) as i128, self.scl() as u32, !self.sign_neg())
    }

    /// `|self|`, with the sign bit clear.
    pub open spec fn spec_abs(self) -> Dec {
        if self.mant() < 0 {
            Dec::of((-self.mant()) as i128, self.scl() as u32)
        } else {
            Dec::of(self.mant() as i128, self.scl() as u32)
        }
    }

    /// `other` is `-self` up to the sign of a zero: opposite mantissas, same scale.
    pub open spec fn mirrors(self, other: Dec) -> bool {
        other.mant() == -self.mant() && other.scl() == self.scl()
    }

    /// What adding the negations of `a` and some `b` gives, where `a + b` gave `r`:
    /// the negation of `r`, except that a sum of a value other than zero that
    /// cancels is `+0` either way.
    pub open spec fn sum_of_negations(a: Dec, r: Option<Dec>) -> Option<Dec> {
        if a.mant() != 0 && (r matches Some(d) && d.mant() == 0) {
            r
        } else {
            Dec::neg_opt(r)
        }
    }

    /// `mirrors` lifted to optional results (both missing, or both present and
    /// mirrored).
    pub open spec fn mirrors_opt(a: Option<Dec>, b: Option<Dec>) -> bool {
        match (a, b) {
            (Some(x), Some(y)) => x.mirrors(y),
            (None, None) => true,
            _ => false,
        }
    }

    /// Negation lifted to optional results.
    pub open spec fn neg_opt(r: Option<Dec>) -> Option<Dec> {
        match r {
            Some(d) => Some(d.spec_neg()),
            None => None,
        }
    }

    /// Numeric order: `self < other`.
    pub open spec fn num_lt(self, other: Dec) -> bool {
        self.mant() * pow10(other.scl() as nat) < other.mant() * pow10(self.scl() as nat)
    }

    /// Numeric order: `self <= other`.
    pub open spec fn num_le(self, other: Dec) -> bool {
        self.mant() * pow10(other.scl() as nat) <= other.mant() * pow10(self.scl() as nat)
    }

    /// Numeric equality (`1.0 == 1.00`).
    pub open spec fn num_eq(self, other: Dec) -> bool {
        self.mant() * pow10(other.scl() as nat) == other.mant() * pow10(self.scl() as nat)
    }

    pub open spec fn spec_add(self, other: Dec) -> Option<Dec> {
        Dec::of_parts(decimal_checked_add(self.mant() as i128, self.scl() as u32, self.sign_neg(), other.mant() as i128, other.scl() as u32, other.sign_neg()))
    }

    pub open spec fn spec_sub(self, other: Dec) -> Option<Dec> {
        Dec::of_parts(decimal_checked_sub(self.mant() as i128, self.scl() as u32, self.sign_neg(), other.mant() as i128, other.scl() as u32, other.sign_neg()))
    }

    pub open spec fn spec_mul(self, other: Dec) -> Option<Dec> {
        Dec::of_parts(decimal_checked_mul(self.mant() as i128, self.scl() as u32, self.sign_neg(), other.mant() as i128, other.scl() as u32, other.sign_neg()))
    }

    pub open spec fn spec_div(self, other: Dec) -> Option<Dec> {
        Dec::of_parts(decimal_checked_div(self.mant() as i128, self.scl() as u32, self.sign_neg(), other.mant() as i128, other.scl() as u32, other.sign_neg()))
    }

    /// The integer `n` as a decimal of scale 0.
    pub open spec fn spec_from_int(n: int) -> Dec {
        Dec::of(n as i128, 0)
    }
}

/// Facts on the parts of a decimal.
pub broadcast proof fn lemma_of_parts(m: i128, s: u32)
    ensures
        #[trigger] Dec::of(m, s).mant() == m,
        Dec::of(m, s).scl() == s,
        Dec::of(m, s).sign_neg() == (m < 0),
{
}

/// Facts on the parts of a decimal with a given sign bit.
pub broadcast proof fn lemma_of_signed_parts(m: i128, s: u32, n: bool)
    ensures
        #[trigger] Dec::of_signed(m, s, n).mant() == m,
        Dec::of_signed(m, s, n).scl() == s,
        Dec::of_signed(m, s, n).sign_neg() == n,
{
}

/// A decimal is determined by its parts and sign bit.
pub broadcast proof fn lemma_parts_determine(a: Dec)
    ensures
        #[trigger] Dec::of_signed(a.mant() as i128, a.scl() as u32, a.sign_neg()) == a,
{
}

/// Parts of any decimal fit the machine types.
pub broadcast proof fn lemma_parts_typed(a: Dec)
    ensures
        i128::MIN <= #[trigger] a.mant() <= i128::MAX,
        0 <= #[trigger] a.scl() <= u32::MAX,
{
}

// ---------------------------------------------------------------------------
// Calls into rust_decimal. Each takes decimals whose parts are in range (as
// every `Dec` value is) and converts them one for one.
// ---------------------------------------------------------------------------

/// Calls `rust_decimal::Decimal::checked_add`. The sum is the named result; besides,
/// adding a zero (of either sign) gives back the other operand unchanged, sign
/// bit included; adding a value other than zero to its exact negation gives `+0`
/// at the common scale; negating both operands negates the sum up to the sign of
/// a zero (the addition works on magnitudes and signs symmetrically, and a sum
/// that cancels is `+0` either way); a zero of the other sign passes the
/// negated operand through likewise, and a zero right operand of either sign
/// leaves the negated left operand as it is; and
/// operands of one sign add up to a sum of that sign or zero. Adding a value
/// that is not negative to an integer (scale 0) gives at least that integer:
/// the exact sum is only ever rounded to nearest at a scale of 0 or more, and
/// the integer lies on every such grid.
#[verifier::external_body]
fn raw_checked_add(a: Dec, b: Dec) -> (r: Option<Dec>)
    requires
        a.valid(),
        b.valid(),
    ensures
        r == Dec::of_parts(decimal_checked_add(a.mant() as i128, a.scl() as u32, a.sign_neg(), b.mant() as i128, b.scl() as u32, b.sign_neg())),
        a.mant() == 0 ==> r == Some(b),
        a.mant() != 0 && b.mant() == 0 ==> r == Some(a),
        a.mant() != 0 && a.scl() == b.scl() && a.mant() == -b.mant() ==> r == Some(Dec::of(0, a.scl() as u32)),
        a.spec_neg().spec_add(b.spec_neg()) == Dec::sum_of_negations(a, r),
        a.mant() == 0 ==> a.spec_add(b.spec_neg()) == Dec::neg_opt(r),
        a.mant() == 0 ==> a.spec_neg().spec_add(b) == r,
        a.mant() != 0 && b.mant() == 0 ==> a.spec_neg().spec_add(b) == Dec::neg_opt(r),
        a.mant() >= 0 && b.mant() >= 0 ==> (r matches Some(d) ==> d.mant() >= 0),
        a.mant() <= 0 && b.mant() <= 0 ==> (r matches Some(d) ==> d.mant() <= 0),
        a.scl() == 0 && b.mant() >= 0 ==> (r matches Some(d) ==> a.num_le(d)),
{
    let mut x = rust_decimal::Decimal::from_i128_with_scale(a.mantissa, a.scale);
    x.set_sign_negative(a.negative);
    let mut y = rust_decimal::Decimal::from_i128_with_scale(b.mantissa, b.scale);
    y.set_sign_negative(b.negative);
    match x.checked_add(y) {
        Some(d) => Some(Dec { mantissa: d.mantissa(), scale: d.scale(), negative: d.is_sign_negative() }),
        None => None,
    }
}

/// Calls `rust_decimal::Decimal::checked_sub`. The difference is the named result; its
/// sign is that of the exact difference (the result is only ever rounded when its
/// magnitude exceeds 96 bits at the current scale, so it never rounds to zero).
/// Taking a value that is not negative from an integer (scale 0) gives at most
/// that integer, for the same reason as in `raw_checked_add`.
#[verifier::external_body]
fn raw_checked_sub(a: Dec, b: Dec) -> (r: Option<Dec>)
    requires
        a.valid(),
        b.valid(),
    ensures
        r == Dec::of_parts(decimal_checked_sub(a.mant() as i128, a.scl() as u32, a.sign_neg(), b.mant() as i128, b.scl() as u32, b.sign_neg())),
        r matches Some(d) ==> ((d.mant() > 0 <==> b.num_lt(a)) && (d.mant() < 0 <==> a.num_lt(b))),
        a.scl() == 0 && b.mant() >= 0 ==> (r matches Some(d) ==> d.num_le(a)),
{
    let mut x = rust_decimal::Decimal::from_i128_with_scale(a.mantissa, a.scale);
    x.set_sign_negative(a.negative);
    let mut y = rust_decimal::Decimal::from_i128_with_scale(b.mantissa, b.scale);
    y.set_sign_negative(b.negative);
    match x.checked_sub(y) {
        Some(d) => Some(Dec { mantissa: d.mantissa(), scale: d.scale(), negative: d.is_sign_negative() }),
        None => None,
    }
}

/// Calls `rust_decimal::Decimal::checked_mul`. The product is the named result; a zero
/// operand gives zero (scale 0), and a non-zero product carries the sign of the
/// exact product. Scaling a value `a >= 0` by a factor in `[0, 1]` gives at most
/// `a`, and by a factor of at least 1 at least `a`: the exact product is rounded
/// to nearest (halves to even) at the largest scale, at most 28, at which the
/// result fits in 96 bits. For a factor in `[0, 1]` that scale is never coarser
/// than `a`'s, since `a` itself fits there; for a factor of at least 1 a coarser
/// scale is only taken when the product is too large for `a`'s scale, and it
/// then rounds to a value above `a`.
#[verifier::external_body]
fn raw_checked_mul(a: Dec, b: Dec) -> (r: Option<Dec>)
    requires
        a.valid(),
        b.valid(),
    ensures
        r == Dec::of_parts(decimal_checked_mul(a.mant() as i128, a.scl() as u32, a.sign_neg(), b.mant() as i128, b.scl() as u32, b.sign_neg())),
        (a.mant() == 0 || b.mant() == 0) ==> r == Some(Dec::spec_zero()),
        r matches Some(d) ==> (d.mant() == 0 || ((d.mant() > 0) == (a.mant() * b.mant() > 0))),
        a.mant() >= 0 && b.mant() >= 0 && b.num_le(Dec::spec_one()) ==> (r matches Some(d) ==> d.num_le(a)),
        a.mant() >= 0 && Dec::spec_one().num_le(b) ==> (r matches Some(d) ==> a.num_le(d)),
{
    let mut x = rust_decimal::Decimal::from_i128_with_scale(a.mantissa, a.scale);
    x.set_sign_negative(a.negative);
    let mut y = rust_decimal::Decimal::from_i128_with_scale(b.mantissa, b.scale);
    y.set_sign_negative(b.negative);
    match x.checked_mul(y) {
        Some(d) => Some(Dec { mantissa: d.mantissa(), scale: d.scale(), negative: d.is_sign_negative() }),
        None => None,
    }
}

/// Calls `rust_decimal::Decimal::checked_div`. The quotient is the named result; a zero
/// divisor gives `None`, a zero dividend gives zero (scale 0), and a non-zero
/// quotient carries the sign of the exact quotient.
#[verifier::external_body]
fn raw_checked_div(a: Dec, b: Dec) -> (r: Option<Dec>)
    requires
        a.valid(),
        b.valid(),
    ensures
        r == Dec::of_parts(decimal_checked_div(a.mant() as i128, a.scl() as u32, a.sign_neg(), b.mant() as i128, b.scl() as u32, b.sign_neg())),
        b.mant() == 0 ==> r is None,
        (a.mant() == 0 && b.mant() != 0) ==> r == Some(Dec::spec_zero()),
        r matches Some(d) ==> (d.mant() == 0 || ((d.mant() > 0) == (a.mant() * b.mant() > 0))),
{
    let mut x = rust_decimal::Decimal::from_i128_with_scale(a.mantissa, a.scale);
    x.set_sign_negative(a.negative);
    let mut y = rust_decimal::Decimal::from_i128_with_scale(b.mantissa, b.scale);
    y.set_sign_negative(b.negative);
    match x.checked_div(y) {
        Some(d) => Some(Dec { mantissa: d.mantissa(), scale: d.scale(), negative: d.is_sign_negative() }),
        None => None,
    }
}

/// Calls `<rust_decimal::Decimal as PartialOrd>::lt`, which orders decimals by value.
#[verifier::external_body]
fn raw_lt(a: Dec, b: Dec) -> (r: bool)
    requires
        a.valid(),
        b.valid(),
    ensures
        r == a.num_lt(b),
{
    rust_decimal::Decimal::from_i128_with_scale(a.mantissa, a.scale) < rust_decimal::Decimal::from_i128_with_scale(b.mantissa, b.scale)
}

/// Calls `<rust_decimal::Decimal as PartialEq>::eq`, which compares decimals by value.
#[verifier::external_body]
fn raw_eq(a: Dec, b: Dec) -> (r: bool)
    requires
        a.valid(),
        b.valid(),
    ensures
        r == a.num_eq(b),
{
    rust_decimal::Decimal::from_i128_with_scale(a.mantissa, a.scale) == rust_decimal::Decimal::from_i128_with_scale(b.mantissa, b.scale)
}

impl Dec {
    /// The decimal `mantissa / 10^scale`.
    pub fn new(mantissa: i128, scale: u32) -> (r: Dec)
        requires
            parts_in_range(mantissa as int, scale as int),
        ensures
            r == Dec::of(mantissa, scale),
            r.valid(),
    {
        Dec { mantissa, scale, negative: mantissa < 0 }
    }

    /// The decimal `mantissa / 10^scale`, or `None` when the parts are out of range.
    pub fn try_new(mantissa: i128, scale: u32) -> (r: Option<Dec>)
        ensures
            r == (if parts_in_range(mantissa as int, scale as int) {
                Some(Dec::of(mantissa, scale))
            } else {
                None
            }),
    {
        if -MAX_MANTISSA <= mantissa && mantissa <= MAX_MANTISSA && scale <= MAX_SCALE {
            Some(Dec { mantissa, scale, negative: mantissa < 0 })
        } else {
            None
        }
    }

    pub fn mantissa(&self) -> (r: i128)
        ensures
            r == self.mant(),
            -MAX_MANTISSA <= r <= MAX_MANTISSA,
    {
        proof {
            use_type_invariant(self);
        }
        self.mantissa
    }

    pub fn scale(&self) -> (r: u32)
        ensures
            r == self.scl(),
            r <= MAX_SCALE,
    {
        proof {
            use_type_invariant(self);
        }
        self.scale
    }

    pub fn zero() -> (r: Dec)
        ensures
            r == Dec::spec_zero(),
            r.valid(),
    {
        Dec { mantissa: 0, scale: 0, negative: false }
    }

    pub fn one() -> (r: Dec)
        ensures
            r == Dec::spec_one(),
            r.valid(),
    {
        Dec { mantissa: 1, scale: 0, negative: false }
    }

    /// The integer `n` as a decimal of scale 0 (exactly what `Decimal::from` gives).
    pub fn from_i64(n: i64) -> (r: Dec)
        ensures
            r == Dec::spec_from_int(n as int),
            r.valid(),
    {
        Dec { mantissa: n as i128, scale: 0, negative: n < 0 }
    }

    /// The integer `n` as a decimal of scale 0.
    pub fn from_u32(n: u32) -> (r: Dec)
        ensures
            r == Dec::spec_from_int(n as int),
            r.valid(),
    {
        Dec { mantissa: n as i128, scale: 0, negative: n < 0 }
    }

    /// `-self`: the mantissa negated, the scale kept, the sign bit flipped
    /// (as `Neg`, which turns `0` into `-0` and back).
    pub fn neg(self) -> (r: Dec)
        ensures
            r == self.spec_neg(),
            r.valid(),
            r.spec_neg() == self,
    {
        proof {
            use_type_invariant(&self);
        }
        Dec { mantissa: -self.mantissa, scale: self.scale, negative: !self.negative }
    }

    /// `|self|`.
    pub fn abs(self) -> (r: Dec)
        ensures
            r == self.spec_abs(),
            r.valid(),
    {
        proof {
            use_type_invariant(&self);
        }
        if self.mantissa < 0 {
            Dec { mantissa: -self.mantissa, scale: self.scale, negative: false }
        } else {
            Dec { mantissa: self.mantissa, scale: self.scale, negative: false }
        }
    }

    /// Whether the value is below zero.
    pub fn is_negative(&self) -> (r: bool)
        ensures
            r == (self.mant() < 0),
    {
        self.mantissa < 0
    }

    /// Whether the sign bit is set: below zero, or `-0`.
    pub fn is_sign_negative(&self) -> (r: bool)
        ensures
            r == self.sign_neg(),
    {
        self.negative
    }

    /// The decimal with the given parts and sign bit.
    pub fn with_sign(mantissa: i128, scale: u32, negative: bool) -> (r: Dec)
        requires
            parts_in_range(mantissa as int, scale as int),
            sign_agrees(mantissa as int, negative),
        ensures
            r == Dec::of_signed(mantissa, scale, negative),
            r.valid(),
    {
        Dec { mantissa, scale, negative }
    }

    /// Whether the value is zero.
    pub fn is_zero(&self) -> (r: bool)
        ensures
            r == (self.mant() == 0),
    {
        self.mantissa == 0
    }

    pub fn lt(&self, other: &Dec) -> (r: bool)
        ensures
            r == self.num_lt(*other),
    {
        proof {
            use_type_invariant(self);
            use_type_invariant(other);
        }
        raw_lt(*self, *other)
    }

    pub fn le(&self, other: &Dec) -> (r: bool)
        ensures
            r == self.num_le(*other),
    {
        proof {
            use_type_invariant(self);
            use_type_invariant(other);
        }
        !raw_lt(*other, *self)
    }

    pub fn gt(&self, other: &Dec) -> (r: bool)
        ensures
            r == other.num_lt(*self),
    {
        other.lt(self)
    }

    pub fn ge(&self, other: &Dec) -> (r: bool)
        ensures
            r == other.num_le(*self),
    {
        other.le(self)
    }

    /// Numeric equality.
    pub fn eq_value(&self, other: &Dec) -> (r: bool)
        ensures
            r == self.num_eq(*other),
    {
        proof {
            use_type_invariant(self);
            use_type_invariant(other);
        }
        raw_eq(*self, *other)
    }

    pub fn checked_add(self, other: Dec) -> (r: Option<Dec>)
        ensures
            r matches Some(d) ==> d.valid(),
            r == self.spec_add(other),
            self.mant() == 0 ==> r == Some(other),
            self.mant() != 0 && other.mant() == 0 ==> r == Some(self),
            self.mant() != 0 && self.scl() == other.scl() && self.mant() == -other.mant() ==> r == Some(Dec::of(0, self.scl() as u32)),
            self.spec_neg().spec_add(other.spec_neg()) == Dec::sum_of_negations(self, r),
            self.mant() == 0 ==> self.spec_add(other.spec_neg()) == Dec::neg_opt(r),
            self.mant() == 0 ==> self.spec_neg().spec_add(other) == r,
            self.mant() != 0 && other.mant() == 0 ==> self.spec_neg().spec_add(other) == Dec::neg_opt(r),
            self.mant() >= 0 && other.mant() >= 0 ==> (r matches Some(d) ==> d.mant() >= 0),
            self.mant() <= 0 && other.mant() <= 0 ==> (r matches Some(d) ==> d.mant() <= 0),
            self.scl() == 0 && other.mant() >= 0 ==> (r matches Some(d) ==> self.num_le(d)),
    {
        proof {
            use_type_invariant(&self);
            use_type_invariant(&other);
        }
        let r = raw_checked_add(self, other);
        proof {
            if let Some(d) = r {
                use_type_invariant(&d);
            }
        }
        r
    }

    pub fn checked_sub(self, other: Dec) -> (r: Option<Dec>)
        ensures
            r matches Some(d) ==> d.valid(),
            r == self.spec_sub(other),
            r matches Some(d) ==> ((d.mant() > 0 <==> other.num_lt(self)) && (d.mant() < 0 <==> self.num_lt(other))),
            self.scl() == 0 && other.mant() >= 0 ==> (r matches Some(d) ==> d.num_le(self)),
    {
        proof {
            use_type_invariant(&self);
            use_type_invariant(&other);
        }
        let r = raw_checked_sub(self, other);
        proof {
            if let Some(d) = r {
                use_type_invariant(&d);
            }
        }
        r
    }

    pub fn checked_mul(self, other: Dec) -> (r: Option<Dec>)
        ensures
            r matches Some(d) ==> d.valid(),
            r == self.spec_mul(other),
            (self.mant() == 0 || other.mant() == 0) ==> r == Some(Dec::spec_zero()),
            r matches Some(d) ==> (d.mant() == 0 || ((d.mant() > 0) == (self.mant() * other.mant() > 0))),
            self.mant() >= 0 && other.mant() >= 0 && other.num_le(Dec::spec_one()) ==> (r matches Some(d) ==> d.num_le(self)),
            self.mant() >= 0 && Dec::spec_one().num_le(other) ==> (r matches Some(d) ==> self.num_le(d)),
    {
        proof {
            use_type_invariant(&self);
            use_type_invariant(&other);
        }
        let r = raw_checked_mul(self, other);
        proof {
            if let Some(d) = r {
                use_type_invariant(&d);
            }
        }
        r
    }

    pub fn checked_div(self, other: Dec) -> (r: Option<Dec>)
        ensures
            r matches Some(d) ==> d.valid(),
            r == self.spec_div(other),
            other.mant() == 0 ==> r is None,
            (self.mant() == 0 && other.mant() != 0) ==> r == Some(Dec::spec_zero()),
            r matches Some(d) ==> (d.mant() == 0 || ((d.mant() > 0) == (self.mant() * other.mant() > 0))),
    {
        proof {
            use_type_invariant(&self);
            use_type_invariant(&other);
        }
        let r = raw_checked_div(self, other);
        proof {
            if let Some(d) = r {
                use_type_invariant(&d);
            }
        }
        r
    }
}

/// `n` written with at least `width` digits, zeros in front.
pub open spec fn zero_padded(n: nat, width: nat) -> Seq<char> {
    let d = decimal_digits(n);
    if d.len() >= width {
        d
    } else {
        zeros((width - d.len()) as nat) + d
    }
}

/// `n` zero characters.
pub open spec fn zeros(n: nat) -> Seq<char> {
    Seq::new(n, |i: int| '0')
}

/// Parts with trailing zeros of the fraction stripped, and zero as `(0, 0)`.
pub open spec fn normalized_parts(m: int, s: nat) -> (int, nat)
    decreases s,
{
    if m == 0 {
        (0, 0)
    } else if s > 0 && m % 10 == 0 {
        normalized_parts(m / 10, (s - 1) as nat)
    } else {
        (m, s)
    }
}

impl Dec {
    /// `|mantissa|`.
    pub open spec fn magnitude(self) -> nat {
        if self.mant() < 0 {
            (-self.mant()) as nat
        } else {
            self.mant() as nat
        }
    }

    /// `-` when the sign bit is set (below zero, or `-0`), nothing otherwise.
    pub open spec fn sign_text(self) -> Seq<char> {
        if self.sign_neg() {
            "-"@
        } else {
            Seq::empty()
        }
    }

    /// Digits before the decimal point (`"0"` when there are none).
    pub open spec fn int_digits(self) -> Seq<char> {
        decimal_digits(self.magnitude() / (pow10(self.scl() as nat) as nat))
    }

    /// The `scale` digits after the decimal point.
    pub open spec fn frac_digits(self) -> Seq<char> {
        if self.scl() == 0 {
            Seq::empty()
        } else {
            zero_padded(self.magnitude() % (pow10(self.scl() as nat) as nat), self.scl() as nat)
        }
    }

    /// The decimal written out in full: sign, integer digits, and when the
    /// scale is not zero a point and `scale` digits (`3.100`, `-0.05`, `12`).
    pub open spec fn spec_text(self) -> Seq<char> {
        self.sign_text() + self.int_digits() + if self.scl() > 0 {
            "."@ + self.frac_digits()
        } else {
            Seq::empty()
        }
    }

    /// The decimal written with exactly `p` digits after the point, cut (not
    /// rounded) or padded with zeros; no point when `p` is zero.
    pub open spec fn spec_text_prec(self, p: nat) -> Seq<char> {
        self.sign_text() + self.int_digits() + if p > 0 {
            "."@ + (self.frac_digits() + zeros(p)).take(p as int)
        } else {
            Seq::empty()
        }
    }

    /// Rounded to `dp` digits after the point, halves to the even neighbour;
    /// unchanged when the scale is already at most `dp`. A zero keeps its sign
    /// bit; a value that rounds to zero gives `+0`.
    pub open spec fn spec_round_dp(self, dp: u32) -> Dec {
        if self.scl() <= dp {
            self
        } else if self.mant() == 0 {
            Dec::of_signed(0, dp, self.sign_neg())
        } else {
            let unit = pow10((self.scl() - dp) as nat);
            let q: int = self.magnitude() as int / unit;
            let rem: int = self.magnitude() as int % unit;
            let up = rem > unit / 2 || (rem == unit / 2 && q % 2 == 1);
            let mag: int = if up { q + 1 } else { q };
            Dec::of((if self.mant() < 0 { -mag } else { mag }) as i128, dp)
        }
    }

    /// Same value with the trailing zeros of the fraction stripped.
    pub open spec fn spec_normalize(self) -> Dec {
        let (m, s) = normalized_parts(self.mant(), self.scl() as nat);
        Dec::of(m as i128, s as u32)
    }

    /// Calls `<rust_decimal::Decimal as Display>::fmt` (through `to_string`):
    /// sign, integer digits, then the point and `scale` fraction digits.
    #[verifier::external_body]
    pub(crate) fn to_text(&self) -> (r: String)
        ensures
            r@ == self.spec_text(),
    {
        let mut x = rust_decimal::Decimal::from_i128_with_scale(self.mantissa, self.scale);
        x.set_sign_negative(self.negative);
        x.to_string()
    }

    /// Calls `<rust_decimal::Decimal as Display>::fmt` with a precision of `p`
    /// (`format!("{:.p$}")`), which cuts or zero-pads the fraction to `p` digits.
    /// The text is built in a buffer of 32 characters, which panics when it
    /// overflows: with at most one fraction digit every decimal fits (a sign,
    /// 29 integer digits, the point and the digit), so `p` is held to that.
    #[verifier::external_body]
    pub(crate) fn to_text_prec(&self, p: u32) -> (r: String)
        requires
            p <= 1,
        ensures
            r@ == self.spec_text_prec(p as nat),
    {
        let mut x = rust_decimal::Decimal::from_i128_with_scale(self.mantissa, self.scale);
        x.set_sign_negative(self.negative);
        format!("{:.*}", p as usize, x)
    }

    /// Calls `rust_decimal::Decimal::round_dp` (banker's rounding to `dp` places).
    #[verifier::external_body]
    pub(crate) fn round_dp(&self, dp: u32) -> (r: Dec)
        ensures
            r == self.spec_round_dp(dp),
            r.valid(),
    {
        let mut x = rust_decimal::Decimal::from_i128_with_scale(self.mantissa, self.scale);
        x.set_sign_negative(self.negative);
        let d = x.round_dp(dp);
        Dec { mantissa: d.mantissa(), scale: d.scale(), negative: d.is_sign_negative() }
    }

    /// Calls `rust_decimal::Decimal::normalize`, which strips trailing zeros of
    /// the fraction and turns zero (`-0` too) into `0` at scale 0.
    #[verifier::external_body]
    pub(crate) fn normalize(&self) -> (r: Dec)
        ensures
            r == self.spec_normalize(),
            r.valid(),
    {
        let mut x = rust_decimal::Decimal::from_i128_with_scale(self.mantissa, self.scale);
        x.set_sign_negative(self.negative);
        let d = x.normalize();
        Dec { mantissa: d.mantissa(), scale: d.scale(), negative: d.is_sign_negative() }
    }
}

impl PartialEq for Dec {
    fn eq(&self, other: &Dec) -> (r: bool) {
        self.eq_value(other)
    }
}

impl vstd::std_specs::cmp::PartialEqSpecImpl for Dec {
    open spec fn obeys_eq_spec() -> bool {
        true
    }

    open spec fn eq_spec(&self, other: &Dec) -> bool {
        self.num_eq(*other)
    }
}

/// Numeric order is transitive.
pub proof fn lemma_num_le_trans(a: Dec, b: Dec, c: Dec)
    requires
        a.num_le(b),
        b.num_le(c),
    ensures
        a.num_le(c),
{
    let pa = pow10(a.scl() as nat);
    let pb = pow10(b.scl() as nat);
    let pc = pow10(c.scl() as nat);
    lemma_pow10_positive(a.scl() as nat);
    lemma_pow10_positive(b.scl() as nat);
    lemma_pow10_positive(c.scl() as nat);
    let (am, bm, cm) = (a.mant(), b.mant(), c.mant());
    assert(am * pc <= cm * pa) by (nonlinear_arith)
        requires
            am * pb <= bm * pa,
            bm * pc <= cm * pb,
            pa >= 1,
            pb >= 1,
            pc >= 1,
    {
        assert(am * pb * pc <= bm * pa * pc);
        assert(bm * pc * pa <= cm * pb * pa);
        assert(am * pc * pb <= cm * pa * pb);
    }
}

/// Negating twice gives the decimal back.
pub broadcast proof fn lemma_neg_involutive(a: Dec)
    requires
        a.valid(),
    ensures
        #[trigger] a.spec_neg().spec_neg() == a,
{
}

pub broadcast group group_dec_parts {
    lemma_of_parts,
    lemma_of_signed_parts,
    lemma_parts_determine,
    lemma_parts_typed,
    lemma_neg_involutive,
}

} // verus!
