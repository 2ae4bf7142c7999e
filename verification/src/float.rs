//! The software float: an IEEE-754-like binary floating-point value whose
//! bit pattern lives in a `BUint`. Classification, sign and ordering are pure
//! functions of that pattern; no native floating point is involved.
use vstd::prelude::*;
use vstd::arithmetic::power2::*;
use core::cmp::Ordering;
use crate::buint::BUint;
use crate::bint::BInt;
use crate::value::{bit_field, nth_bit};

verus! {

/// The class of a floating-point value.
#[derive(Clone, Copy, Debug, PartialEq, Eq, Structural)]
pub enum FpCategory {
    /// Exponent all ones, mantissa nonzero.
    Nan,
    /// Exponent all ones, mantissa zero.
    Infinite,
    /// Exponent and mantissa both zero; the sign does not matter.
    Zero,
    /// Exponent zero, mantissa nonzero.
    Subnormal,
    /// Every other pattern.
    Normal,
}

/// A software binary floating-point value: a bit pattern of
/// `64 * width` bits, split from the top into one sign bit, an exponent
/// field, and `mantissa_bits` mantissa bits.
#[derive(Clone, Debug)]
pub struct Float {
    pub bits: BUint,
    pub mantissa_bits: usize,
}

impl Float {
    /// Number of digits of the bit pattern.
    pub open spec fn width(self) -> nat {
        self.bits.width()
    }

    /// Total number of bits.
    pub open spec fn total_bits(self) -> nat {
        64 * self.width()
    }

    /// Number of mantissa bits.
    pub open spec fn mb(self) -> nat {
        self.mantissa_bits as nat
    }

    /// Number of exponent bits: what is left after the sign and the mantissa.
    pub open spec fn exp_bits(self) -> nat {
        (self.total_bits() - 1 - self.mb()) as nat
    }

    /// A well-formed format: at least one mantissa bit, and room for the sign
    /// bit and at least one exponent bit. The machine also has to be able to
    /// count the bits.
    pub open spec fn wf(self) -> bool {
        &&& self.width() >= 1
        &&& 1 <= self.mb()
        &&& self.mb() + 2 <= self.total_bits()
        &&& self.total_bits() <= usize::MAX
    }

    /// Two values share one format: same width and same mantissa split.
    pub open spec fn compatible(self, other: Float) -> bool {
        self.width() == other.width() && self.mantissa_bits == other.mantissa_bits
    }

    /// The mantissa field: the low `mb` bits.
    pub open spec fn mantissa_field(self) -> nat {
        bit_field(self.bits.val(), 0, self.mb())
    }

    /// The exponent field: `exp_bits` bits above the mantissa.
    pub open spec fn exp_field(self) -> nat {
        bit_field(self.bits.val(), self.mb(), self.exp_bits())
    }

    /// The sign bit, at the very top.
    pub open spec fn sign_spec(self) -> bool {
        self.bits.val() >= pow2((self.total_bits() - 1) as nat)
    }

    /// The exponent field is all ones.
    pub open spec fn exp_all_ones(self) -> bool {
        self.exp_field() == pow2(self.exp_bits()) - 1
    }

    /// Zero: exponent and mantissa both zero, either sign.
    pub open spec fn is_zero_spec(self) -> bool {
        self.exp_field() == 0 && self.mantissa_field() == 0
    }

    /// Infinite: exponent all ones, mantissa zero, either sign.
    pub open spec fn is_infinite_spec(self) -> bool {
        self.exp_all_ones() && self.mantissa_field() == 0
    }

    /// NaN: exponent all ones and mantissa nonzero.
    pub open spec fn is_nan_spec(self) -> bool {
        self.exp_all_ones() && self.mantissa_field() != 0
    }

    /// Finite: the exponent field is not all ones.
    pub open spec fn is_finite_spec(self) -> bool {
        !self.exp_all_ones()
    }

    /// Subnormal: exponent zero, mantissa nonzero.
    pub open spec fn is_subnormal_spec(self) -> bool {
        self.exp_field() == 0 && self.mantissa_field() != 0
    }

    /// The top mantissa bit, which marks a NaN as quiet.
    pub open spec fn quiet_bit(self) -> bool {
        nth_bit(self.bits.val(), (self.mb() - 1) as nat)
    }

    /// The classification of the bit pattern.
    pub open spec fn classify_spec(self) -> FpCategory {
        if self.is_zero_spec() {
            FpCategory::Zero
        } else if self.is_infinite_spec() {
            FpCategory::Infinite
        } else if self.exp_field() == 0 {
            FpCategory::Subnormal
        } else if self.exp_all_ones() {
            FpCategory::Nan
        } else {
            FpCategory::Normal
        }
    }

    /// The key of the total order over bit patterns: non-negative patterns
    /// order by value, negative patterns in reverse, below all others.
    pub open spec fn total_key(self) -> int {
        if self.sign_spec() {
            -(self.bits.val() as int)
        } else {
            self.bits.val() as int
        }
    }

    /// Float equality: false on any NaN; both zeros are equal regardless of
    /// sign; otherwise the bit patterns must match.
    pub open spec fn eq_spec(self, other: Float) -> bool {
        &&& !self.is_nan_spec()
        &&& !other.is_nan_spec()
        &&& ((self.is_zero_spec() && other.is_zero_spec()) || self.bits.val() == other.bits.val())
    }

    /// Float ordering: undefined on any NaN, equal on two zeros, otherwise
    /// the total order of the patterns.
    pub open spec fn partial_cmp_spec(self, other: Float) -> Option<Ordering> {
        if self.is_nan_spec() || other.is_nan_spec() {
            None
        } else if self.is_zero_spec() && other.is_zero_spec() {
            Some(Ordering::Equal)
        } else if self.total_key() < other.total_key() {
            Some(Ordering::Less)
        } else if self.total_key() == other.total_key() {
            Some(Ordering::Equal)
        } else {
            Some(Ordering::Greater)
        }
    }

    /// Strictly below, under `partial_cmp_spec`.
    pub open spec fn lt_spec(self, other: Float) -> bool {
        self.partial_cmp_spec(other) == Some(Ordering::Less)
    }

    /// Strictly above, under `partial_cmp_spec`.
    pub open spec fn gt_spec(self, other: Float) -> bool {
        self.partial_cmp_spec(other) == Some(Ordering::Greater)
    }

    /// Below or equal, under `partial_cmp_spec`.
    pub open spec fn le_spec(self, other: Float) -> bool {
        self.partial_cmp_spec(other) == Some(Ordering::Less) || self.partial_cmp_spec(other)
            == Some(Ordering::Equal)
    }

    /// What `max` returns: the other operand when one is NaN — the check on
    /// `self` comes first, so two NaN operands yield `other` — else the
    /// larger, preferring `self` on a tie.
    pub open spec fn max_spec(self, other: Float) -> Float {
        if self.is_nan_spec() {
            other
        } else if other.is_nan_spec() {
            self
        } else if self.lt_spec(other) {
            other
        } else {
            self
        }
    }

    /// What `min` returns: the other operand when one is NaN — the check on
    /// `self` comes first, so two NaN operands yield `other` — else the
    /// smaller, preferring `self` on a tie.
    pub open spec fn min_spec(self, other: Float) -> Float {
        if self.is_nan_spec() {
            other
        } else if other.is_nan_spec() {
            self
        } else if self.gt_spec(other) {
            other
        } else {
            self
        }
    }

    /// What `maximum` returns: NaN wins, else the total order decides.
    pub open spec fn maximum_spec(self, other: Float) -> Float {
        if self.is_nan_spec() {
            self
        } else if other.is_nan_spec() {
            other
        } else if self.total_key() < other.total_key() {
            other
        } else {
            self
        }
    }

    /// What `minimum` returns: NaN wins, else the total order decides.
    pub open spec fn minimum_spec(self, other: Float) -> Float {
        if self.is_nan_spec() {
            self
        } else if other.is_nan_spec() {
            other
        } else if self.total_key() > other.total_key() {
            other
        } else {
            self
        }
    }

    /// What `clamp` returns once the bounds are ordered.
    pub open spec fn clamp_spec(self, lo: Float, hi: Float) -> Float {
        if self.lt_spec(lo) {
            lo
        } else if self.gt_spec(hi) {
            hi
        } else {
            self
        }
    }

    /// Wraps a bit pattern in the given format.
    pub fn from_bits(bits: BUint, mantissa_bits: usize) -> (r: Float)
        requires
            bits.width() >= 1,
            1 <= mantissa_bits,
            mantissa_bits as nat + 2 <= 64 * bits.width(),
            64 * bits.width() <= usize::MAX,
        ensures
            r.wf(),
            r.bits == bits,
            r.mantissa_bits == mantissa_bits,
    {
        Float { bits, mantissa_bits }
    }

    /// The raw bit pattern.
    pub fn to_bits(&self) -> (r: BUint)
        ensures
            r.digits@ == self.bits.digits@,
            r.val() == self.bits.val(),
    {
        self.bits.duplicate()
    }

    /// Total bit count, as a machine integer.
    fn total(&self) -> (r: usize)
        requires
            self.wf(),
        ensures
            r == self.total_bits(),
    {
        64 * self.bits.digits.len()
    }

    /// The exponent field is zero.
    fn exp_field_zero(&self) -> (r: bool)
        requires
            self.wf(),
        ensures
            r <==> self.exp_field() == 0,
    {
        let t = self.total();
        self.bits.bits_clear_in(self.mantissa_bits, t - 1)
    }

    /// The exponent field is all ones.
    fn exp_field_ones(&self) -> (r: bool)
        requires
            self.wf(),
        ensures
            r <==> self.exp_all_ones(),
    {
        let t = self.total();
        self.bits.bits_set_in(self.mantissa_bits, t - 1)
    }

    /// The mantissa field is zero.
    fn mantissa_zero(&self) -> (r: bool)
        requires
            self.wf(),
        ensures
            r <==> self.mantissa_field() == 0,
    {
        self.bits.bits_clear_in(0, self.mantissa_bits)
    }

    /// Whether the sign bit is clear.
    pub fn is_sign_positive(&self) -> (r: bool)
        requires
            self.wf(),
        ensures
            r == !self.sign_spec(),
    {
        !self.is_sign_negative()
    }

    /// Whether the sign bit is set. NaNs and zeros carry signs like any other
    /// pattern.
    pub fn is_sign_negative(&self) -> (r: bool)
        requires
            self.wf(),
        ensures
            r == self.sign_spec(),
    {
        let i = BInt::from_bits(self.bits.duplicate());
        i.is_negative()
    }

    /// Whether the value is finite: the exponent field is not all ones.
    pub fn is_finite(&self) -> (r: bool)
        requires
            self.wf(),
        ensures
            r == self.is_finite_spec(),
    {
        !self.exp_field_ones()
    }

    /// Whether the value is an infinity of either sign.
    pub fn is_infinite(&self) -> (r: bool)
        requires
            self.wf(),
        ensures
            r == self.is_infinite_spec(),
    {
        self.exp_field_ones() && self.mantissa_zero()
    }

    /// Whether the value is a NaN: exponent all ones, mantissa nonzero.
    pub fn is_nan(&self) -> (r: bool)
        requires
            self.wf(),
        ensures
            r == self.is_nan_spec(),
    {
        self.exp_field_ones() && !self.mantissa_zero()
    }

    /// Whether the exponent is all ones and the top mantissa bit is set: the
    /// quiet-NaN mask is fully present.
    pub fn is_quiet_nan(&self) -> (r: bool)
        requires
            self.wf(),
        ensures
            r <==> (self.exp_all_ones() && self.quiet_bit()),
    {
        self.exp_field_ones() && self.bits.get_bit(self.mantissa_bits - 1)
    }

    /// Whether the value is a signalling NaN: a NaN whose top mantissa bit
    /// is clear. Infinities have the exponent all ones and the quiet bit
    /// clear too, but are no NaN and so are excluded.
    pub fn is_signalling_nan(&self) -> (r: bool)
        requires
            self.wf(),
        ensures
            r <==> (self.is_nan_spec() && !self.quiet_bit()),
    {
        self.exp_field_ones() && !self.mantissa_zero() && !self.bits.get_bit(
            self.mantissa_bits - 1,
        )
    }

    /// Whether the value equals the canonical quiet NaN under float equality.
    /// Float equality holds of no NaN operand, the canonical quiet NaN
    /// included, so no pattern satisfies this; the operation is kept for
    /// surface compatibility.
    pub fn is_quiet_indefinite_nan(&self) -> (r: bool)
        requires
            self.wf(),
        ensures
            !r,
    {
        false
    }

    /// Whether the value is subnormal: exponent zero, mantissa nonzero.
    pub fn is_subnormal(&self) -> (r: bool)
        requires
            self.wf(),
        ensures
            r == self.is_subnormal_spec(),
    {
        self.exp_field_zero() && !self.mantissa_zero()
    }

    /// Whether the value is normal: neither zero, subnormal, infinite nor
    /// NaN.
    pub fn is_normal(&self) -> (r: bool)
        requires
            self.wf(),
        ensures
            r <==> self.classify_spec() == FpCategory::Normal,
    {
        proof {
            self.lemma_exp_fields_distinct();
        }
        !self.exp_field_zero() && !self.exp_field_ones()
    }

    /// Whether the value is a zero of either sign.
    pub fn is_zero(&self) -> (r: bool)
        requires
            self.wf(),
        ensures
            r == self.is_zero_spec(),
    {
        self.mantissa_zero() && self.exp_field_zero()
    }

    /// The exponent field cannot be both zero and all ones: there is at least
    /// one exponent bit.
    proof fn lemma_exp_fields_distinct(self)
        requires
            self.wf(),
        ensures
            pow2(self.exp_bits()) - 1 != 0,
    {
        lemma_pow2_strictly_increases(0, self.exp_bits());
        lemma2_to64();
    }

    /// Classifies the bit pattern: zero, infinite, subnormal, NaN or normal.
    pub fn classify(&self) -> (r: FpCategory)
        requires
            self.wf(),
        ensures
            r == self.classify_spec(),
    {
        proof {
            self.lemma_exp_fields_distinct();
        }
        let mz = self.mantissa_zero();
        let ez = self.exp_field_zero();
        let eo = self.exp_field_ones();
        if ez && mz {
            FpCategory::Zero
        } else if eo && mz {
            FpCategory::Infinite
        } else if ez {
            FpCategory::Subnormal
        } else if eo {
            FpCategory::Nan
        } else {
            FpCategory::Normal
        }
    }

    /// Total ordering over all bit patterns, NaNs included: the pattern read
    /// as a signed integer, with the order of two negative patterns reversed.
    pub fn total_cmp(&self, other: &Float) -> (r: Ordering)
        requires
            self.wf(),
            other.wf(),
            self.width() == other.width(),
        ensures
            (r == Ordering::Less <==> self.total_key() < other.total_key()),
            (r == Ordering::Equal <==> self.total_key() == other.total_key()),
            (r == Ordering::Greater <==> self.total_key() > other.total_key()),
    {
        let li = BInt::from_bits(self.bits.duplicate());
        let ri = BInt::from_bits(other.bits.duplicate());
        proof {
            crate::value::lemma_val_seq_bound(self.bits.digits@);
            crate::value::lemma_val_seq_bound(other.bits.digits@);
            li.lemma_sign_weight();
            ri.lemma_sign_weight();
        }
        let ln = li.is_negative();
        let rn = ri.is_negative();
        let c = li.cmp(&ri);
        if ln && rn {
            match c {
                Ordering::Less => Ordering::Greater,
                Ordering::Greater => Ordering::Less,
                Ordering::Equal => Ordering::Equal,
            }
        } else {
            c
        }
    }

    /// Float equality: any NaN operand makes it false; both zeros are equal
    /// regardless of sign; otherwise the bit patterns must match.
    pub fn eq(&self, other: &Float) -> (r: bool)
        requires
            self.wf(),
            other.wf(),
            self.compatible(*other),
        ensures
            r == self.eq_spec(*other),
    {
        if self.is_nan() || other.is_nan() {
            false
        } else if self.is_zero() && other.is_zero() {
            true
        } else {
            match self.bits.cmp(&other.bits) {
                Ordering::Equal => true,
                _ => false,
            }
        }
    }

    /// Float ordering: no answer on any NaN operand; both zeros compare
    /// equal; otherwise the total order of the patterns.
    pub fn partial_cmp(&self, other: &Float) -> (r: Option<Ordering>)
        requires
            self.wf(),
            other.wf(),
            self.compatible(*other),
        ensures
            r == self.partial_cmp_spec(*other),
    {
        if self.is_nan() || other.is_nan() {
            return None;
        }
        if self.is_zero() && other.is_zero() {
            return Some(Ordering::Equal);
        }
        Some(self.total_cmp(other))
    }

    /// The larger of two values, returning the other operand when one is NaN.
    pub fn max(self, other: Float) -> (r: Float)
        requires
            self.wf(),
            other.wf(),
            self.compatible(other),
        ensures
            r == self.max_spec(other),
    {
        if self.is_nan() {
            return other;
        }
        if other.is_nan() {
            return self;
        }
        let less = match self.partial_cmp(&other) {
            Some(Ordering::Less) => true,
            _ => false,
        };
        if less {
            other
        } else {
            self
        }
    }

    /// The smaller of two values, returning the other operand when one is
    /// NaN.
    pub fn min(self, other: Float) -> (r: Float)
        requires
            self.wf(),
            other.wf(),
            self.compatible(other),
        ensures
            r == self.min_spec(other),
    {
        if self.is_nan() {
            return other;
        }
        if other.is_nan() {
            return self;
        }
        let greater = match self.partial_cmp(&other) {
            Some(Ordering::Greater) => true,
            _ => false,
        };
        if greater {
            other
        } else {
            self
        }
    }

    /// The larger of two values under the total order: a NaN operand wins
    /// instead of vanishing.
    pub fn maximum(self, other: Float) -> (r: Float)
        requires
            self.wf(),
            other.wf(),
            self.compatible(other),
        ensures
            r == self.maximum_spec(other),
    {
        if self.is_nan() {
            return self;
        }
        if other.is_nan() {
            return other;
        }
        match self.total_cmp(&other) {
            Ordering::Less => other,
            _ => self,
        }
    }

    /// The smaller of two values under the total order: a NaN operand wins
    /// instead of vanishing.
    pub fn minimum(self, other: Float) -> (r: Float)
        requires
            self.wf(),
            other.wf(),
            self.compatible(other),
        ensures
            r == self.minimum_spec(other),
    {
        if self.is_nan() {
            return self;
        }
        if other.is_nan() {
            return other;
        }
        match self.total_cmp(&other) {
            Ordering::Greater => other,
            _ => self,
        }
    }

    /// Restricts the value to the inclusive range `[lo, hi]`. Unordered
    /// bounds — NaN among them — are a programmer error, ruled out here
    /// rather than detected at run time. A NaN input passes through.
    pub fn clamp(self, lo: Float, hi: Float) -> (r: Float)
        requires
            self.wf(),
            lo.wf(),
            hi.wf(),
            self.compatible(lo),
            self.compatible(hi),
            lo.le_spec(hi),
        ensures
            r == self.clamp_spec(lo, hi),
    {
        let below = match self.partial_cmp(&lo) {
            Some(Ordering::Less) => true,
            _ => false,
        };
        if below {
            return lo;
        }
        let above = match self.partial_cmp(&hi) {
            Some(Ordering::Greater) => true,
            _ => false,
        };
        if above {
            return hi;
        }
        self
    }
}

/// Ordering totality for floats: `eq` and `partial_cmp` report no relation
/// whenever either operand is a NaN, and always report one otherwise, while
/// the total order's key compares every pair of bit patterns, NaNs included.
pub proof fn lemma_float_ordering_totality(a: Float, b: Float)
    requires
        a.wf(),
        b.wf(),
        a.compatible(b),
    ensures
        (a.is_nan_spec() || b.is_nan_spec()) ==> (a.partial_cmp_spec(b) is None && !a.eq_spec(b)),
        !(a.is_nan_spec() || b.is_nan_spec()) ==> a.partial_cmp_spec(b) is Some,
        a.total_key() < b.total_key() || a.total_key() == b.total_key() || a.total_key()
            > b.total_key(),
{
}

} // verus!
