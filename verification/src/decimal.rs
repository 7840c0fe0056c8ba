//! Decimal numbers of arbitrary precision: an integer of any size and a
//! scale, standing for `unscaled / 10^scale`.
//!
//! A [`Decimal`] holds its integer as two's-complement bytes, least
//! significant first. Sums, differences, products and quotients are
//! computed by `bigdecimal`; everything else is computed here.

use vstd::prelude::*;
use vstd::arithmetic::power::{pow, lemma_pow0, lemma_pow_adds, lemma_pow_positive};
use bigdecimal::BigDecimal;
use bigdecimal::num_bigint::BigInt;

verus! {

/// The largest scale, and the largest negated scale, that the arithmetic
/// takes as an operand.
pub const SCALE_LIMIT: i64 = 0x7fff_ffff;

/// The number that `bytes` spell in base 256, least significant first.
pub open spec fn unsigned_le(bytes: Seq<u8>) -> nat
    decreases bytes.len(),
{
    if bytes.len() == 0 {
        0
    } else {
        (unsigned_le(bytes.drop_last()) + bytes.last() * pow(256, (bytes.len() - 1) as nat)) as nat
    }
}

/// The integer that `bytes` spell in two's complement, least significant
/// byte first. No bytes at all spell zero.
pub open spec fn signed_le(bytes: Seq<u8>) -> int {
    if bytes.len() > 0 && bytes.last() >= 128 {
        unsigned_le(bytes) - pow(256, bytes.len())
    } else {
        unsigned_le(bytes) as int
    }
}

/// Ten to the power `exponent`, for an exponent that is not negative.
pub open spec fn pow10(exponent: int) -> int {
    pow(10, exponent as nat)
}

/// The larger of two scales.
pub open spec fn max_scale(a: int, b: int) -> int {
    if a >= b {
        a
    } else {
        b
    }
}

/// A decimal as mathematical values: it stands for
/// `unscaled / 10^scale`.
pub struct DecimalView {
    /// The digits, as one integer.
    pub unscaled: int,
    /// How many of the digits stand behind the decimal point.
    pub scale: int,
}

/// What `bigdecimal` returns as the quotient of two decimals: the
/// numerator over the denominator, cut to the number of digits that
/// `bigdecimal` was built to keep.
pub uninterp spec fn decimal_quotient(numerator: DecimalView, denominator: DecimalView) -> DecimalView;

impl DecimalView {
    /// The whole number `value`.
    pub open spec fn whole(value: int) -> DecimalView {
        DecimalView { unscaled: value, scale: 0 }
    }

    /// The scale is one that the arithmetic takes.
    pub open spec fn in_range(self) -> bool {
        -SCALE_LIMIT <= self.scale <= SCALE_LIMIT
    }

    /// The digits of this decimal at the scale `scale`, which is not
    /// smaller than its own.
    pub open spec fn aligned(self, scale: int) -> int {
        self.unscaled * pow10(scale - self.scale)
    }

    /// The exact sum, at the larger of the two scales.
    pub open spec fn plus(self, other: DecimalView) -> DecimalView {
        let scale = max_scale(self.scale, other.scale);
        DecimalView { unscaled: self.aligned(scale) + other.aligned(scale), scale }
    }

    /// The exact difference, at the larger of the two scales.
    pub open spec fn minus(self, other: DecimalView) -> DecimalView {
        let scale = max_scale(self.scale, other.scale);
        DecimalView { unscaled: self.aligned(scale) - other.aligned(scale), scale }
    }

    /// The exact product, at the sum of the two scales.
    pub open spec fn times(self, other: DecimalView) -> DecimalView {
        DecimalView {
            unscaled: self.unscaled * other.unscaled,
            scale: self.scale + other.scale,
        }
    }

    /// The sum, where both scales are in range.
    pub open spec fn checked_plus(self, other: DecimalView) -> Option<DecimalView> {
        if self.in_range() && other.in_range() {
            Some(self.plus(other))
        } else {
            None
        }
    }

    /// The difference, where both scales are in range.
    pub open spec fn checked_minus(self, other: DecimalView) -> Option<DecimalView> {
        if self.in_range() && other.in_range() {
            Some(self.minus(other))
        } else {
            None
        }
    }

    /// The product, where both scales are in range.
    pub open spec fn checked_times(self, other: DecimalView) -> Option<DecimalView> {
        if self.in_range() && other.in_range() {
            Some(self.times(other))
        } else {
            None
        }
    }

    /// The quotient as `bigdecimal` returns it: the numerator as it is
    /// where the denominator is the whole number 1, and else the cut
    /// quotient.
    pub open spec fn over(self, other: DecimalView) -> DecimalView {
        if other == DecimalView::whole(1) {
            self
        } else {
            decimal_quotient(self, other)
        }
    }

    /// The quotient, where both scales are in range and `other` is not
    /// zero.
    pub open spec fn checked_over(self, other: DecimalView) -> Option<DecimalView> {
        if self.in_range() && other.in_range() && other.unscaled != 0 {
            Some(self.over(other))
        } else {
            None
        }
    }
}

/// Two decimals stand for the same number: their digits agree at the
/// larger of the two scales.
pub open spec fn same_value(a: DecimalView, b: DecimalView) -> bool {
    a.aligned(max_scale(a.scale, b.scale)) == b.aligned(max_scale(a.scale, b.scale))
}

/// Lifting a decimal further multiplies its digits by the power of ten
/// between the two scales.
pub proof fn lemma_aligned_further(v: DecimalView, near: int, far: int)
    requires
        v.scale <= near <= far,
    ensures
        v.aligned(far) == v.aligned(near) * pow10(far - near),
{
    lemma_pow_adds(10, (near - v.scale) as nat, (far - near) as nat);
    let p = pow10(near - v.scale);
    let q = pow10(far - near);
    assert(v.unscaled * (p * q) == (v.unscaled * p) * q) by (nonlinear_arith);
}

/// Decimals that agree at one scale agree at every scale that holds
/// both.
pub proof fn lemma_same_value_at(a: DecimalView, b: DecimalView, scale: int)
    requires
        a.scale <= scale,
        b.scale <= scale,
    ensures
        same_value(a, b) <==> a.aligned(scale) == b.aligned(scale),
{
    let near = max_scale(a.scale, b.scale);
    lemma_aligned_further(a, near, scale);
    lemma_aligned_further(b, near, scale);
    let q = pow10(scale - near);
    lemma_pow_positive(10, (scale - near) as nat);
    let x = a.aligned(near);
    let y = b.aligned(near);
    assert(x * q == y * q ==> x == y) by (nonlinear_arith)
        requires
            q > 0,
    ;
}

/// The digits of a sum are the sum of the digits, at any scale that holds
/// both terms.
pub proof fn lemma_plus_aligned(a: DecimalView, b: DecimalView, scale: int)
    requires
        a.scale <= scale,
        b.scale <= scale,
    ensures
        a.plus(b).scale <= scale,
        a.plus(b).aligned(scale) == a.aligned(scale) + b.aligned(scale),
{
    let near = max_scale(a.scale, b.scale);
    lemma_aligned_further(a, near, scale);
    lemma_aligned_further(b, near, scale);
    lemma_pow0(10);
    let q = pow10(scale - near);
    let x = a.aligned(near);
    let y = b.aligned(near);
    assert(a.plus(b).aligned(scale) == (x + y) * q);
    assert((x + y) * q == x * q + y * q) by (nonlinear_arith);
}

/// The digits of a difference are the difference of the digits, at any
/// scale that holds both terms.
pub proof fn lemma_minus_aligned(a: DecimalView, b: DecimalView, scale: int)
    requires
        a.scale <= scale,
        b.scale <= scale,
    ensures
        a.minus(b).scale <= scale,
        a.minus(b).aligned(scale) == a.aligned(scale) - b.aligned(scale),
{
    let near = max_scale(a.scale, b.scale);
    lemma_aligned_further(a, near, scale);
    lemma_aligned_further(b, near, scale);
    let q = pow10(scale - near);
    let x = a.aligned(near);
    let y = b.aligned(near);
    assert(a.minus(b).aligned(scale) == (x - y) * q);
    assert((x - y) * q == x * q - y * q) by (nonlinear_arith);
}

/// The digits of a product are the product of the digits, at the sum of
/// any two scales that hold the factors.
pub proof fn lemma_times_aligned(a: DecimalView, b: DecimalView, a_scale: int, b_scale: int)
    requires
        a.scale <= a_scale,
        b.scale <= b_scale,
    ensures
        a.times(b).scale <= a_scale + b_scale,
        a.times(b).aligned(a_scale + b_scale) == a.aligned(a_scale) * b.aligned(b_scale),
{
    lemma_pow_adds(10, (a_scale - a.scale) as nat, (b_scale - b.scale) as nat);
    let p = pow10(a_scale - a.scale);
    let q = pow10(b_scale - b.scale);
    assert((a.unscaled * b.unscaled) * (p * q) == (a.unscaled * p) * (b.unscaled * q))
        by (nonlinear_arith);
}

/// One byte more multiplies the weight by 256.
proof fn lemma_pow256_step(n: nat)
    ensures
        pow(256, n + 1) == 256 * pow(256, n),
        pow(256, n) > 0,
{
    reveal(pow);
    lemma_pow_positive(256, n);
}

/// Bytes spell a number below 256 to the power of their count.
pub proof fn lemma_unsigned_le_bound(bytes: Seq<u8>)
    ensures
        unsigned_le(bytes) < pow(256, bytes.len()),
    decreases bytes.len(),
{
    if bytes.len() == 0 {
        reveal(pow);
    } else {
        let n = (bytes.len() - 1) as nat;
        lemma_unsigned_le_bound(bytes.drop_last());
        lemma_pow256_step(n);
        let w = pow(256, n);
        let b = bytes.last() as int;
        assert(b * w <= 255 * w) by (nonlinear_arith)
            requires
                b <= 255,
                w > 0,
        ;
        assert(b * w >= 0) by (nonlinear_arith)
            requires
                b >= 0,
                w > 0,
        ;
    }
}

/// Bytes that are all zero spell zero.
pub proof fn lemma_zero_bytes(bytes: Seq<u8>)
    requires
        forall|i: int| 0 <= i < bytes.len() ==> bytes[i] == 0,
    ensures
        unsigned_le(bytes) == 0,
        signed_le(bytes) == 0,
    decreases bytes.len(),
{
    if bytes.len() > 0 {
        lemma_zero_bytes(bytes.drop_last());
        assert(0 * pow(256, (bytes.len() - 1) as nat) == 0);
    }
}

/// Bytes with a byte that is not zero spell a number that is not zero.
pub proof fn lemma_nonzero_byte(bytes: Seq<u8>, at: int)
    requires
        0 <= at < bytes.len(),
        bytes[at] != 0,
    ensures
        unsigned_le(bytes) > 0,
        signed_le(bytes) != 0,
    decreases bytes.len(),
{
    let n = (bytes.len() - 1) as nat;
    let w = pow(256, n);
    let b = bytes.last() as int;
    lemma_pow256_step(n);
    assert(b * w >= 0) by (nonlinear_arith)
        requires
            b >= 0,
            w > 0,
    ;
    if at == bytes.len() - 1 {
        assert(b * w > 0) by (nonlinear_arith)
            requires
                b > 0,
                w > 0,
        ;
    } else {
        lemma_nonzero_byte(bytes.drop_last(), at);
    }
    lemma_unsigned_le_bound(bytes);
}

/// A decimal number of arbitrary precision.
#[derive(Clone, Debug)]
pub struct Decimal {
    /// The digits as one integer, in two's complement, least significant
    /// byte first.
    pub bytes: Vec<u8>,
    /// How many of the digits stand behind the decimal point.
    pub scale: i64,
}

impl View for Decimal {
    type V = DecimalView;

    open spec fn view(&self) -> DecimalView {
        DecimalView { unscaled: signed_le(self.bytes@), scale: self.scale as int }
    }
}

/// The view of a decimal that may be missing.
pub open spec fn opt_view(d: Option<Decimal>) -> Option<DecimalView> {
    match d {
        Some(d) => Some(d@),
        None => None,
    }
}

/// `+=` of `bigdecimal::BigDecimal` with a borrowed right-hand side: the
/// left-hand side becomes the exact sum, held at the larger of the two
/// scales, the operand with the smaller scale being multiplied by the
/// power of ten that lifts it there.
#[verifier::external_body]
fn outside_sum(a: &Decimal, b: &Decimal) -> (sum: Decimal)
    requires
        a@.in_range(),
        b@.in_range(),
    ensures
        sum@ == a@.plus(b@),
{
    let mut x = BigDecimal::new(BigInt::from_signed_bytes_le(&a.bytes), a.scale);
    x += &BigDecimal::new(BigInt::from_signed_bytes_le(&b.bytes), b.scale);
    let (digits, scale) = x.into_bigint_and_exponent();
    Decimal { bytes: digits.to_signed_bytes_le(), scale }
}

/// `-` of two borrowed `bigdecimal::BigDecimal`: the exact difference,
/// held at the larger of the two scales, the operand with the smaller
/// scale being multiplied by the power of ten that lifts it there.
#[verifier::external_body]
fn outside_difference(a: &Decimal, b: &Decimal) -> (difference: Decimal)
    requires
        a@.in_range(),
        b@.in_range(),
    ensures
        difference@ == a@.minus(b@),
{
    let x = BigDecimal::new(BigInt::from_signed_bytes_le(&a.bytes), a.scale);
    let y = BigDecimal::new(BigInt::from_signed_bytes_le(&b.bytes), b.scale);
    let (digits, scale) = (&x - &y).into_bigint_and_exponent();
    Decimal { bytes: digits.to_signed_bytes_le(), scale }
}

/// `*=` of `bigdecimal::BigDecimal` with a borrowed right-hand side: the
/// left-hand side becomes the exact product, its integer the product of
/// the two integers and its scale the sum of the two scales.
#[verifier::external_body]
fn outside_product(a: &Decimal, b: &Decimal) -> (product: Decimal)
    requires
        a@.in_range(),
        b@.in_range(),
    ensures
        product@ == a@.times(b@),
{
    let mut x = BigDecimal::new(BigInt::from_signed_bytes_le(&a.bytes), a.scale);
    x *= &BigDecimal::new(BigInt::from_signed_bytes_le(&b.bytes), b.scale);
    let (digits, scale) = x.into_bigint_and_exponent();
    Decimal { bytes: digits.to_signed_bytes_le(), scale }
}

/// `/` of two `bigdecimal::BigDecimal`, which panics on a zero divisor.
/// A divisor that is the integer 1 at scale 0 hands the dividend back as
/// it is. Any other gives the quotient cut to the number of digits that
/// `bigdecimal` was built to keep: a function of the integers and scales
/// of the two operands, which is named here and not spelled out.
#[verifier::external_body]
fn outside_quotient(a: &Decimal, b: &Decimal) -> (quotient: Decimal)
    requires
        a@.in_range(),
        b@.in_range(),
        b@.unscaled != 0,
    ensures
        quotient@ == if b@ == DecimalView::whole(1) {
            a@
        } else {
            decimal_quotient(a@, b@)
        },
{
    let x = BigDecimal::new(BigInt::from_signed_bytes_le(&a.bytes), a.scale);
    let y = BigDecimal::new(BigInt::from_signed_bytes_le(&b.bytes), b.scale);
    let (digits, scale) = (x / y).into_bigint_and_exponent();
    Decimal { bytes: digits.to_signed_bytes_le(), scale }
}

impl Decimal {
    /// The whole number `value`, at scale 0.
    pub fn from_u64(value: u64) -> (d: Decimal)
        ensures
            d@ == DecimalView::whole(value as int),
    {
        let mut bytes: Vec<u8> = Vec::new();
        let mut rest: u64 = value;
        proof {
            reveal(pow);
        }
        while rest > 0
            invariant
                value == unsigned_le(bytes@) + rest * pow(256, bytes@.len()),
            decreases rest,
        {
            let ghost before = bytes@;
            let low: u8 = (rest % 256) as u8;
            proof {
                lemma_pow256_step(before.len());
                let w = pow(256, before.len());
                assert(before.push(low).drop_last() =~= before);
                assert(rest * w == low * w + (rest / 256) * (256 * w)) by (nonlinear_arith)
                    requires
                        rest == low + 256 * (rest / 256),
                ;
                assert(low * w >= 0) by (nonlinear_arith)
                    requires
                        low >= 0,
                        w > 0,
                ;
            }
            bytes.push(low);
            rest = rest / 256;
        }
        proof {
            assert(bytes@.push(0u8).drop_last() =~= bytes@);
            assert(0 * pow(256, bytes@.len()) == 0);
        }
        bytes.push(0);
        Decimal { bytes, scale: 0 }
    }

    /// Whether this decimal is zero.
    pub fn is_zero(&self) -> (zero: bool)
        ensures
            zero == (self@.unscaled == 0),
    {
        let mut i: usize = 0;
        while i < self.bytes.len()
            invariant
                i <= self.bytes@.len(),
                forall|j: int| 0 <= j < i ==> self.bytes@[j] == 0,
            decreases self.bytes@.len() - i,
        {
            if self.bytes[i] != 0 {
                proof {
                    lemma_nonzero_byte(self.bytes@, i as int);
                }
                return false;
            }
            i += 1;
        }
        proof {
            lemma_zero_bytes(self.bytes@);
        }
        true
    }

    /// Whether the scale is one that the arithmetic takes.
    pub fn in_range(&self) -> (ok: bool)
        ensures
            ok == self@.in_range(),
    {
        -SCALE_LIMIT <= self.scale && self.scale <= SCALE_LIMIT
    }

    /// The exact sum of two decimals, or `None` where a scale is out of
    /// range.
    pub fn checked_add(&self, other: &Decimal) -> (sum: Option<Decimal>)
        ensures
            opt_view(sum) == self@.checked_plus(other@),
    {
        if self.in_range() && other.in_range() {
            Some(outside_sum(self, other))
        } else {
            None
        }
    }

    /// The exact difference of two decimals, or `None` where a scale is
    /// out of range.
    pub fn checked_sub(&self, other: &Decimal) -> (difference: Option<Decimal>)
        ensures
            opt_view(difference) == self@.checked_minus(other@),
    {
        if self.in_range() && other.in_range() {
            Some(outside_difference(self, other))
        } else {
            None
        }
    }

    /// The exact product of two decimals, or `None` where a scale is out
    /// of range.
    pub fn checked_mul(&self, other: &Decimal) -> (product: Option<Decimal>)
        ensures
            opt_view(product) == self@.checked_times(other@),
    {
        if self.in_range() && other.in_range() {
            Some(outside_product(self, other))
        } else {
            None
        }
    }

    /// The quotient of two decimals as `bigdecimal` cuts it, or `None`
    /// where a scale is out of range or the divisor is zero.
    pub fn checked_div(&self, other: &Decimal) -> (quotient: Option<Decimal>)
        ensures
            opt_view(quotient) == self@.checked_over(other@),
    {
        if self.in_range() && other.in_range() && !other.is_zero() {
            Some(outside_quotient(self, other))
        } else {
            None
        }
    }
}

} // verus!
