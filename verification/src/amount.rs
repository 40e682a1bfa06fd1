//! Exact decimal amounts: an integer mantissa together with a power-of-ten
//! scale, the representation that `rust_decimal` uses. Every amount stands
//! for the rational `mantissa / 10^scale`; contracts state it as an integer
//! count of `10^-28` units, the finest granularity the representation allows.

use rust_decimal::Decimal;
use vstd::prelude::*;

verus! {

/// The largest mantissa a decimal can carry: `2^96 - 1`.
pub const MAX_MANTISSA: i128 = 79228162514264337593543950335;

/// The largest scale a decimal can carry.
pub const MAX_SCALE: u32 = 28;

/// An exact decimal quantity, `mantissa / 10^scale`.
#[derive(Clone, Copy, Debug)]
pub struct Amount {
    pub mantissa: i128,
    pub scale: u32,
}

/// `10^n`.
pub open spec fn pow10(n: nat) -> int
    decreases n,
{
    if n == 0 {
        1
    } else {
        10 * pow10((n - 1) as nat)
    }
}

/// How many `10^-28` units one step of the mantissa is worth at scale `s`.
pub open spec fn unit_of(s: u32) -> int {
    if s <= 28 {
        pow10((28 - s) as nat)
    } else {
        1
    }
}

/// A representable amount: scale and mantissa within the decimal range.
pub open spec fn amt_wf(a: Amount) -> bool {
    &&& a.scale <= 28
    &&& -MAX_MANTISSA <= a.mantissa <= MAX_MANTISSA
}

/// The value of an amount, in `10^-28` units.
pub open spec fn amt_val(a: Amount) -> int {
    a.mantissa * unit_of(a.scale)
}

/// The larger of two scales.
pub open spec fn scale_max(a: u32, b: u32) -> u32 {
    if a >= b {
        a
    } else {
        b
    }
}

/// The largest value (in `10^-28` units) representable at scale `s`.
pub open spec fn unit_bound(s: u32) -> int {
    MAX_MANTISSA * unit_of(s)
}

/// Whether a value (in `10^-28` units) is representable at scale `s`.
pub open spec fn within_bound(v: int, s: u32) -> bool {
    -unit_bound(s) <= v <= unit_bound(s)
}

/// Whether the sum of two amounts is exactly representable at the larger of
/// their scales, both operands included.
pub open spec fn sum_exact(a: Amount, b: Amount) -> bool {
    let s = scale_max(a.scale, b.scale);
    &&& within_bound(amt_val(a), s)
    &&& within_bound(amt_val(b), s)
    &&& within_bound(amt_val(a) + amt_val(b), s)
}

/// Whether the difference of two amounts is exactly representable at the
/// larger of their scales, both operands included.
pub open spec fn diff_exact(a: Amount, b: Amount) -> bool {
    let s = scale_max(a.scale, b.scale);
    &&& within_bound(amt_val(a), s)
    &&& within_bound(amt_val(b), s)
    &&& within_bound(amt_val(a) - amt_val(b), s)
}

pub proof fn lemma_pow10_pos(n: nat)
    ensures
        pow10(n) >= 1,
    decreases n,
{
    if n > 0 {
        lemma_pow10_pos((n - 1) as nat);
    }
}

pub proof fn lemma_pow10_adds(a: nat, b: nat)
    ensures
        pow10(a + b) == pow10(a) * pow10(b),
    decreases a,
{
    if a == 0 {
        assert(pow10(0 + b) == 1 * pow10(b));
    } else {
        lemma_pow10_adds((a - 1) as nat, b);
        assert(pow10(((a - 1) + b) as nat + 1) == 10 * pow10(((a - 1) + b) as nat));
        assert(10 * (pow10((a - 1) as nat) * pow10(b)) == (10 * pow10((a - 1) as nat)) * pow10(b))
            by (nonlinear_arith);
    }
}

pub proof fn lemma_pow10_mono(a: nat, b: nat)
    requires
        a <= b,
    ensures
        pow10(a) <= pow10(b),
    decreases b,
{
    if a < b {
        lemma_pow10_mono(a, (b - 1) as nat);
        lemma_pow10_pos((b - 1) as nat);
    }
}

/// Multiplying by a positive factor keeps order and equality.
pub proof fn lemma_mul_cancel(x: int, y: int, p: int)
    requires
        p > 0,
    ensures
        (x * p == y * p) <==> (x == y),
        (x * p <= y * p) <==> (x <= y),
        (x * p < y * p) <==> (x < y),
{
    assert(((x * p == y * p) <==> (x == y)) && ((x * p <= y * p) <==> (x <= y)) && ((x * p < y * p)
        <==> (x < y))) by (nonlinear_arith)
        requires
            p > 0,
    ;
}

/// A coarser scale admits at least the values a finer one does.
pub proof fn lemma_unit_bound_antitone(s: u32, t: u32)
    requires
        s <= t <= 28,
    ensures
        unit_bound(t) <= unit_bound(s),
{
    lemma_pow10_mono((28 - t) as nat, (28 - s) as nat);
    assert(MAX_MANTISSA * pow10((28 - t) as nat) <= MAX_MANTISSA * pow10((28 - s) as nat))
        by (nonlinear_arith)
        requires
            pow10((28 - t) as nat) <= pow10((28 - s) as nat),
    ;
}

pub proof fn lemma_unit_bound_pos(s: u32)
    ensures
        unit_bound(s) >= MAX_MANTISSA,
{
    if s <= 28 {
        lemma_pow10_pos((28 - s) as nat);
    }
    assert(unit_of(s) >= 1 ==> MAX_MANTISSA * unit_of(s) >= MAX_MANTISSA) by (nonlinear_arith);
}

/// A value within the bound of a scale is within the bound of any finer one.
pub proof fn lemma_amt_val_bounded(a: Amount)
    requires
        amt_wf(a),
    ensures
        -unit_bound(a.scale) <= amt_val(a) <= unit_bound(a.scale),
{
    lemma_pow10_pos((28 - a.scale) as nat);
    assert(-MAX_MANTISSA * unit_of(a.scale) <= a.mantissa * unit_of(a.scale) <= MAX_MANTISSA
        * unit_of(a.scale)) by (nonlinear_arith)
        requires
            unit_of(a.scale) > 0,
            -MAX_MANTISSA <= a.mantissa <= MAX_MANTISSA,
    ;
}

impl Amount {
    /// An amount of `mantissa / 10^scale`, as `rust_decimal::Decimal::new`
    /// reads its arguments.
    pub fn new(mantissa: i64, scale: u32) -> (a: Amount)
        requires
            scale <= 28,
        ensures
            a.mantissa == mantissa as i128,
            a.scale == scale,
            amt_wf(a),
    {
        Amount { mantissa: mantissa as i128, scale }
    }

    /// Whether this amount is strictly positive.
    pub fn is_positive(&self) -> (r: bool)
        requires
            amt_wf(*self),
        ensures
            r == (amt_val(*self) > 0),
    {
        proof {
            lemma_pow10_pos((28 - self.scale) as nat);
            lemma_mul_cancel(0, self.mantissa as int, unit_of(self.scale));
        }
        self.mantissa > 0
    }
}

/// Relies on `rust_decimal::Decimal::checked_add`: when both operands and
/// their sum are representable at the larger of the two scales, the sum is
/// exact and is returned at that scale, or at a finer one when an operand
/// is zero and the other is handed back as it stands. The operands are
/// built with `Decimal::from_i128_with_scale`, which is total on
/// representable mantissa/scale pairs.
#[verifier::external_body]
pub(crate) fn dec_add(a: Amount, b: Amount) -> (r: Amount)
    requires
        amt_wf(a),
        amt_wf(b),
        sum_exact(a, b),
    ensures
        amt_wf(r),
        r.scale <= scale_max(a.scale, b.scale),
        amt_val(r) == amt_val(a) + amt_val(b),
{
    let x = Decimal::from_i128_with_scale(a.mantissa, a.scale);
    let y = Decimal::from_i128_with_scale(b.mantissa, b.scale);
    let z = x.checked_add(y).unwrap();
    Amount { mantissa: z.mantissa(), scale: z.scale() }
}

/// Relies on `rust_decimal::Decimal::checked_sub`: when both operands and
/// their difference are representable at the larger of the two scales, the
/// difference is exact, under the same scale promise as the sum.
#[verifier::external_body]
pub(crate) fn dec_sub(a: Amount, b: Amount) -> (r: Amount)
    requires
        amt_wf(a),
        amt_wf(b),
        diff_exact(a, b),
    ensures
        amt_wf(r),
        r.scale <= scale_max(a.scale, b.scale),
        amt_val(r) == amt_val(a) - amt_val(b),
{
    let x = Decimal::from_i128_with_scale(a.mantissa, a.scale);
    let y = Decimal::from_i128_with_scale(b.mantissa, b.scale);
    let z = x.checked_sub(y).unwrap();
    Amount { mantissa: z.mantissa(), scale: z.scale() }
}

/// Relies on `Ord for rust_decimal::Decimal`: comparison is exact on values
/// for every pair of representable decimals, built as in the sum above.
#[verifier::external_body]
pub(crate) fn dec_lt(a: &Amount, b: &Amount) -> (r: bool)
    requires
        amt_wf(*a),
        amt_wf(*b),
    ensures
        r == (amt_val(*a) < amt_val(*b)),
{
    let x = Decimal::from_i128_with_scale(a.mantissa, a.scale);
    let y = Decimal::from_i128_with_scale(b.mantissa, b.scale);
    x < y
}

/// An amount's value read at a coarser scale: the mantissa rescaled to
/// `s`, times the unit of `s`.
pub proof fn lemma_val_at_scale(a: Amount, s: u32)
    requires
        amt_wf(a),
        a.scale <= s <= 28,
    ensures
        amt_val(a) == (a.mantissa * pow10((s - a.scale) as nat)) * pow10((28 - s) as nat),
{
    let d = (s - a.scale) as nat;
    let fine = (28 - s) as nat;
    lemma_pow10_adds(d, fine);
    assert(a.mantissa * (pow10(d) * pow10(fine)) == (a.mantissa * pow10(d)) * pow10(fine))
        by (nonlinear_arith);
}

/// Rescales a mantissa upward by `d` decimal digits, or reports that the
/// result leaves the representable mantissa range.
pub(crate) fn rescale_up(m: i128, d: u32) -> (r: Option<i128>)
    requires
        -MAX_MANTISSA <= m <= MAX_MANTISSA,
        d <= 28,
    ensures
        match r {
            Some(x) => x == m * pow10(d as nat) && -MAX_MANTISSA <= x <= MAX_MANTISSA,
            None => m * pow10(d as nat) > MAX_MANTISSA || m * pow10(d as nat) < -MAX_MANTISSA,
        },
{
    let mut acc: i128 = m;
    let mut i: u32 = 0;
    while i < d
        invariant
            0 <= i <= d <= 28,
            -MAX_MANTISSA <= acc <= MAX_MANTISSA,
            acc == m * pow10(i as nat),
        decreases d - i,
    {
        let next: i128 = acc * 10;
        assert(next == m * pow10((i + 1) as nat)) by {
            assert((m * pow10(i as nat)) * 10 == m * (10 * pow10(i as nat))) by (nonlinear_arith);
        }
        if next > MAX_MANTISSA || next < -MAX_MANTISSA {
            proof {
                let rest = ((d - i) - 1) as nat;
                lemma_pow10_adds((i + 1) as nat, rest);
                lemma_pow10_pos(rest);
                assert(m * pow10(d as nat) == next * pow10(rest)) by {
                    assert((m * pow10((i + 1) as nat)) * pow10(rest) == m * (pow10((i + 1) as nat)
                        * pow10(rest))) by (nonlinear_arith);
                }
                assert(next > MAX_MANTISSA ==> next * pow10(rest) > MAX_MANTISSA)
                    by (nonlinear_arith)
                    requires
                        pow10(rest) >= 1,
                ;
                assert(next < -MAX_MANTISSA ==> next * pow10(rest) < -MAX_MANTISSA)
                    by (nonlinear_arith)
                    requires
                        pow10(rest) >= 1,
                ;
            }
            return None;
        }
        acc = next;
        i = i + 1;
    }
    Some(acc)
}

impl PartialEq for Amount {
    /// Two amounts are equal when they stand for the same value, whatever
    /// their scales; `100.00` equals `100.0`.
    fn eq(&self, other: &Amount) -> (r: bool) {
        if self.scale <= MAX_SCALE && other.scale <= MAX_SCALE && -MAX_MANTISSA <= self.mantissa
            && self.mantissa <= MAX_MANTISSA && -MAX_MANTISSA <= other.mantissa && other.mantissa
            <= MAX_MANTISSA {
            if self.scale == other.scale {
                proof {
                    lemma_pow10_pos((28 - self.scale) as nat);
                    lemma_mul_cancel(self.mantissa as int, other.mantissa as int, unit_of(self.scale));
                }
                self.mantissa == other.mantissa
            } else if self.scale < other.scale {
                proof {
                    lemma_eq_across_scales(*self, *other);
                }
                match rescale_up(self.mantissa, other.scale - self.scale) {
                    Some(x) => x == other.mantissa,
                    None => false,
                }
            } else {
                proof {
                    lemma_eq_across_scales(*other, *self);
                }
                match rescale_up(other.mantissa, self.scale - other.scale) {
                    Some(x) => x == self.mantissa,
                    None => false,
                }
            }
        } else {
            self.mantissa == other.mantissa && self.scale == other.scale
        }
    }
}

impl vstd::std_specs::cmp::PartialEqSpecImpl for Amount {
    open spec fn obeys_eq_spec() -> bool {
        true
    }

    open spec fn eq_spec(&self, other: &Amount) -> bool {
        if amt_wf(*self) && amt_wf(*other) {
            amt_val(*self) == amt_val(*other)
        } else {
            self.mantissa == other.mantissa && self.scale == other.scale
        }
    }
}

/// With `a` the finer-scaled of two representable amounts, value equality is
/// mantissa equality after rescaling `a`'s mantissa to `b`'s scale.
proof fn lemma_eq_across_scales(a: Amount, b: Amount)
    requires
        amt_wf(a),
        amt_wf(b),
        a.scale < b.scale,
    ensures
        amt_val(a) == amt_val(b) <==> m_rescaled(a, b.scale) == b.mantissa,
        m_rescaled(a, b.scale) > MAX_MANTISSA ==> amt_val(a) != amt_val(b),
        m_rescaled(a, b.scale) < -MAX_MANTISSA ==> amt_val(a) != amt_val(b),
{
    let d = (b.scale - a.scale) as nat;
    let fine = (28 - b.scale) as nat;
    lemma_pow10_adds(d, fine);
    lemma_pow10_pos(fine);
    lemma_pow10_pos(d);
    assert(amt_val(a) == m_rescaled(a, b.scale) * pow10(fine)) by {
        assert(a.mantissa * (pow10(d) * pow10(fine)) == (a.mantissa * pow10(d)) * pow10(fine))
            by (nonlinear_arith);
    }
    lemma_mul_cancel(m_rescaled(a, b.scale), b.mantissa as int, pow10(fine));
}

/// `a`'s mantissa brought to the coarser scale `s`.
spec fn m_rescaled(a: Amount, s: u32) -> int
    recommends
        a.scale <= s <= 28,
{
    a.mantissa * pow10((s - a.scale) as nat)
}

} // verus!
