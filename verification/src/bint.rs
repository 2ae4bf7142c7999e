//! The signed engine: a two's-complement interpretation of the unsigned
//! digit storage, adding sign tests, sign-aware comparison and the negation
//! family.
use vstd::prelude::*;
use vstd::arithmetic::power2::*;
use vstd::arithmetic::div_mod::*;
use core::cmp::Ordering;
use crate::buint::BUint;
use crate::value::{val_seq, lemma_val_seq_bound, lemma_val_seq_split};

verus! {

/// A fixed-width signed integer in two's complement: the same digit storage
/// as `BUint`, read with the most significant bit as the sign.
#[derive(Clone, Debug, PartialEq, Eq, Hash)]
pub struct BInt {
    pub bits: BUint,
}

impl BInt {
    /// Number of digits.
    pub open spec fn width(self) -> nat {
        self.bits.width()
    }

    /// A signed value needs at least one digit for its sign bit.
    pub open spec fn wf(self) -> bool {
        self.width() >= 1
    }

    /// The weight of the sign bit: half the modulus.
    pub open spec fn sign_weight(self) -> nat {
        pow2((64 * self.width() - 1) as nat)
    }

    /// The sign: the most significant bit of the bit pattern.
    pub open spec fn is_negative_spec(self) -> bool {
        self.bits.val() >= self.sign_weight()
    }

    /// The two's-complement value: the bit pattern's value, reduced by the
    /// modulus when the sign bit is set.
    pub open spec fn ival(self) -> int {
        if self.is_negative_spec() {
            self.bits.val() - self.bits.modulus()
        } else {
            self.bits.val() as int
        }
    }

    /// Wraps a bit pattern.
    pub fn from_bits(bits: BUint) -> (r: BInt)
        ensures
            r.bits == bits,
    {
        BInt { bits }
    }

    /// The raw bit pattern.
    pub fn to_bits(self) -> (r: BUint)
        ensures
            r == self.bits,
    {
        self.bits
    }

    /// Twice the sign weight is the modulus.
    pub proof fn lemma_sign_weight(self)
        requires
            self.wf(),
        ensures
            self.bits.modulus() == 2 * self.sign_weight(),
            self.sign_weight() >= 1,
    {
        lemma_pow2_adds((64 * self.width() - 1) as nat, 1);
        lemma2_to64();
        lemma_pow2_pos((64 * self.width() - 1) as nat);
        assert(pow2((64 * self.width() - 1) as nat) * 2 == 2 * pow2(
            (64 * self.width() - 1) as nat,
        ));
    }

    /// The zero value of the given width.
    pub fn zero(width: usize) -> (r: BInt)
        requires
            width >= 1,
        ensures
            r.wf(),
            r.width() == width,
            r.ival() == 0,
    {
        let bits = BUint::zero(width);
        proof {
            lemma_pow2_pos((64 * width - 1) as nat);
        }
        BInt { bits }
    }

    /// The most negative value: sign bit set, everything else zero.
    pub fn min_value(width: usize) -> (r: BInt)
        requires
            width >= 1,
        ensures
            r.wf(),
            r.width() == width,
            r.ival() == -(pow2((64 * width - 1) as nat) as int),
    {
        let mut bits = BUint::zero(width);
        let ghost before = bits.digits@;
        bits.digits.set(width - 1, 0x8000_0000_0000_0000);
        let r = BInt { bits };
        proof {
            let s = r.bits.digits@;
            let w = width as int;
            lemma_val_seq_split(s, w - 1);
            assert(s.take(w - 1) =~= before.take(w - 1));
            lemma_val_seq_split(before, w - 1);
            crate::value::lemma_val_seq_zero(before);
            crate::value::lemma_val_seq_zero(before.take(w - 1));
            assert(val_seq(s.take(w - 1)) == 0);
            assert(s.skip(w - 1)[0] == 0x8000_0000_0000_0000u64);
            assert(s.skip(w - 1).skip(1) =~= Seq::<u64>::empty());
            assert(val_seq(Seq::<u64>::empty()) == 0);
            assert(val_seq(s.skip(w - 1)) == s.skip(w - 1)[0] as nat + pow2(64)
                * val_seq(s.skip(w - 1).skip(1)));
            assert(val_seq(s.skip(w - 1)) == 0x8000_0000_0000_0000);
            lemma2_to64();
            lemma2_to64_rest();
            lemma_pow2_adds((64 * (width - 1)) as nat, 63);
            assert(64 * (width - 1) as nat + 63 == 64 * width - 1) by (nonlinear_arith)
                requires
                    width >= 1,
            ;
            let p = pow2((64 * (width - 1)) as nat) as int;
            assert(p * 0x8000_0000_0000_0000 == pow2((64 * width - 1) as nat));
            r.lemma_sign_weight();
        }
        r
    }

    /// The most positive value: sign bit clear, everything else set.
    pub fn max_value(width: usize) -> (r: BInt)
        requires
            width >= 1,
        ensures
            r.wf(),
            r.width() == width,
            r.ival() == pow2((64 * width - 1) as nat) - 1,
    {
        let mut bits = BUint::max_value(width);
        let ghost before = bits.digits@;
        bits.digits.set(width - 1, 0x7FFF_FFFF_FFFF_FFFF);
        let r = BInt { bits };
        proof {
            let s = r.bits.digits@;
            let w = width as int;
            lemma_val_seq_split(s, w - 1);
            assert(s.take(w - 1) =~= before.take(w - 1));
            lemma_val_seq_split(before, w - 1);
            lemma_val_seq_bound(before.take(w - 1));
            assert(s.skip(w - 1)[0] == 0x7FFF_FFFF_FFFF_FFFFu64);
            assert(s.skip(w - 1).skip(1) =~= Seq::<u64>::empty());
            assert(val_seq(Seq::<u64>::empty()) == 0);
            assert(val_seq(s.skip(w - 1)) == s.skip(w - 1)[0] as nat + pow2(64)
                * val_seq(s.skip(w - 1).skip(1)));
            assert(val_seq(s.skip(w - 1)) == 0x7FFF_FFFF_FFFF_FFFF);
            assert(before.skip(w - 1).skip(1) =~= Seq::<u64>::empty());
            assert(val_seq(Seq::<u64>::empty()) == 0);
            assert(val_seq(before.skip(w - 1)) == before.skip(w - 1)[0] as nat + pow2(64)
                * val_seq(before.skip(w - 1).skip(1)));
            lemma2_to64();
            lemma2_to64_rest();
            let p = pow2((64 * (width - 1)) as nat) as int;
            lemma_pow2_pos((64 * (width - 1)) as nat);
            lemma_pow2_adds((64 * (width - 1)) as nat, 63);
            lemma_pow2_adds((64 * (width - 1)) as nat, 64);
            assert(64 * (width - 1) as nat + 63 == 64 * width - 1) by (nonlinear_arith)
                requires
                    width >= 1,
            ;
            assert(64 * (width - 1) as nat + 64 == 64 * width) by (nonlinear_arith)
                requires
                    width >= 1,
            ;
            // the old value was the width's maximum; clearing the sign bit
            // lowers it by exactly the sign weight
            assert(p * 0x8000_0000_0000_0000 == pow2((64 * width - 1) as nat));
            assert(p * 0x1_0000_0000_0000_0000 == pow2((64 * width) as nat));
            // the top digit of the width's maximum must be the digit maximum
            let lo_b = val_seq(before.take(w - 1)) as int;
            let d_top = before.skip(w - 1)[0] as int;
            assert(val_seq(before) == pow2((64 * width) as nat) - 1);
            assert(lo_b == p - 1 && d_top == 0xFFFF_FFFF_FFFF_FFFF) by (nonlinear_arith)
                requires
                    lo_b + p * d_top == p * 0x1_0000_0000_0000_0000 - 1,
                    0 <= lo_b < p,
                    0 <= d_top < 0x1_0000_0000_0000_0000,
            ;
            assert(val_seq(s) == lo_b + p * 0x7FFF_FFFF_FFFF_FFFF);
            assert(p * 0x7FFF_FFFF_FFFF_FFFF == p * 0x8000_0000_0000_0000 - p)
                by (nonlinear_arith);
            r.lemma_sign_weight();
        }
        r
    }

    /// Whether the value is negative: the top bit of the top digit.
    pub fn is_negative(&self) -> (r: bool)
        requires
            self.wf(),
        ensures
            r == self.is_negative_spec(),
    {
        let n = self.bits.digits.len();
        let d = self.bits.digits[n - 1];
        proof {
            let s = self.bits.digits@;
            let w = n as int;
            lemma_val_seq_split(s, w - 1);
            lemma_val_seq_bound(s.take(w - 1));
            assert(s.skip(w - 1)[0] == d);
            assert(s.skip(w - 1).skip(1) =~= Seq::<u64>::empty());
            assert(val_seq(Seq::<u64>::empty()) == 0);
            assert(val_seq(s.skip(w - 1)) == s.skip(w - 1)[0] as nat + pow2(64)
                * val_seq(s.skip(w - 1).skip(1)));
            assert(val_seq(s.skip(w - 1)) == d);
            lemma2_to64();
            lemma2_to64_rest();
            let p = pow2((64 * (n - 1)) as nat) as int;
            lemma_pow2_pos((64 * (n - 1)) as nat);
            lemma_pow2_adds((64 * (n - 1)) as nat, 63);
            assert(64 * (n - 1) as nat + 63 == 64 * n - 1) by (nonlinear_arith)
                requires
                    n >= 1,
            ;
            let lo = val_seq(s.take(w - 1)) as int;
            assert(val_seq(s) == lo + p * d);
            if d >= 0x8000_0000_0000_0000 {
                assert(p * d >= p * 0x8000_0000_0000_0000) by (nonlinear_arith)
                    requires
                        d >= 0x8000_0000_0000_0000,
                        p >= 1,
                ;
            } else {
                assert(lo + p * d < p * 0x8000_0000_0000_0000) by (nonlinear_arith)
                    requires
                        d <= 0x8000_0000_0000_0000 - 1,
                        p >= 1,
                        lo < p,
                        0 <= lo,
                ;
            }
        }
        d >= 0x8000_0000_0000_0000
    }

    /// Sign-aware three-way comparison: a negative value is below any
    /// non-negative one; values of one sign compare as their bit patterns.
    pub fn cmp(&self, other: &BInt) -> (r: Ordering)
        requires
            self.wf(),
            other.wf(),
            self.width() == other.width(),
        ensures
            (r == Ordering::Less <==> self.ival() < other.ival()),
            (r == Ordering::Equal <==> self.ival() == other.ival()),
            (r == Ordering::Greater <==> self.ival() > other.ival()),
    {
        proof {
            lemma_val_seq_bound(self.bits.digits@);
            lemma_val_seq_bound(other.bits.digits@);
        }
        let sn = self.is_negative();
        let on = other.is_negative();
        if sn != on {
            if sn {
                Ordering::Less
            } else {
                Ordering::Greater
            }
        } else {
            self.bits.cmp(&other.bits)
        }
    }

    /// Two's-complement negation, wrapping on the one unrepresentable case:
    /// the negation of the minimum is the minimum itself.
    pub fn wrapping_neg(&self) -> (r: BInt)
        requires
            self.wf(),
        ensures
            r.wf(),
            r.width() == self.width(),
            r.ival() == if self.ival() == -(self.sign_weight() as int) {
                self.ival()
            } else {
                -self.ival()
            },
            r.bits.val() == if self.bits.val() == 0 {
                0nat
            } else {
                (self.bits.modulus() - self.bits.val()) as nat
            },
    {
        let n = self.bits.digits.len();
        let flipped = self.bits.not();
        let one = BUint::from_digit(1, n);
        let sum = flipped.wrapping_add(&one);
        let r = BInt { bits: sum };
        proof {
            self.lemma_sign_weight();
            let m = self.bits.modulus() as int;
            let v = self.bits.val() as int;
            lemma_val_seq_bound(self.bits.digits@);
            if v == 0 {
                lemma_mod_self_0(m);
                assert(r.bits.val() == 0);
            } else {
                lemma_small_mod((m - v) as nat, m as nat);
                assert(r.bits.val() == m - v);
            }
        }
        r
    }

    /// Negation reporting the overflow case: the flag is set exactly when the
    /// value is the minimum, whose negation does not fit.
    pub fn overflowing_neg(&self) -> (r: (BInt, bool))
        requires
            self.wf(),
        ensures
            r.0.wf(),
            r.0.width() == self.width(),
            r.1 <==> self.ival() == -(self.sign_weight() as int),
            r.0.ival() == if r.1 {
                self.ival()
            } else {
                -self.ival()
            },
    {
        proof {
            self.lemma_sign_weight();
            lemma_val_seq_bound(self.bits.digits@);
        }
        let neg = self.wrapping_neg();
        let sn = self.is_negative();
        let rn = neg.is_negative();
        proof {
            self.lemma_sign_weight();
            neg.lemma_sign_weight();
            let h = self.sign_weight() as int;
            let v = self.bits.val() as int;
            if v == 0 {
                assert(!sn);
            } else {
                assert(neg.bits.val() == 2 * h - v);
                assert((sn && rn) <==> v == h);
            }
        }
        (neg, sn && rn)
    }

    /// Negation that returns no value for the minimum.
    pub fn checked_neg(&self) -> (r: Option<BInt>)
        requires
            self.wf(),
        ensures
            r is Some <==> self.ival() != -(self.sign_weight() as int),
            r is Some ==> (r->Some_0.ival() == -self.ival() && r->Some_0.width() == self.width()
                && r->Some_0.wf()),
    {
        let (neg, overflow) = self.overflowing_neg();
        if overflow {
            None
        } else {
            Some(neg)
        }
    }

    /// Negation that clamps the minimum's negation to the maximum.
    pub fn saturating_neg(&self) -> (r: BInt)
        requires
            self.wf(),
        ensures
            r.wf(),
            r.width() == self.width(),
            r.ival() == if self.ival() == -(self.sign_weight() as int) {
                self.sign_weight() - 1
            } else {
                -self.ival()
            },
    {
        let (neg, overflow) = self.overflowing_neg();
        if overflow {
            BInt::max_value(self.bits.digits.len())
        } else {
            neg
        }
    }

    /// Plain negation. Negating the minimum is a programmer error, ruled out
    /// here rather than detected at run time.
    pub fn neg(&self) -> (r: BInt)
        requires
            self.wf(),
            self.ival() != -(self.sign_weight() as int),
        ensures
            r.wf(),
            r.width() == self.width(),
            r.ival() == -self.ival(),
    {
        self.wrapping_neg()
    }
}

/// The absolute value of an integer.
pub open spec fn iabs(a: int) -> int {
    if a >= 0 {
        a
    } else {
        -a
    }
}

/// Signed division rounding toward zero: native fixed-width semantics.
pub open spec fn tdiv(a: int, b: int) -> int {
    if (a < 0) == (b < 0) {
        iabs(a) / iabs(b)
    } else {
        -(iabs(a) / iabs(b))
    }
}

/// Signed remainder of division toward zero: it carries the dividend's sign.
pub open spec fn trem(a: int, b: int) -> int {
    if a >= 0 {
        iabs(a) % iabs(b)
    } else {
        -(iabs(a) % iabs(b))
    }
}

impl BInt {
    /// The magnitude of the value, as an unsigned integer of the same width.
    /// The minimum's magnitude fits there with room to spare.
    pub fn unsigned_abs(&self) -> (r: BUint)
        requires
            self.wf(),
        ensures
            r.width() == self.width(),
            r.val() as int == iabs(self.ival()),
    {
        proof {
            self.lemma_sign_weight();
            lemma_val_seq_bound(self.bits.digits@);
        }
        if self.is_negative() {
            let r = self.wrapping_neg();
            proof {
                assert(self.bits.val() >= 1);
                assert(r.bits.val() as int == self.bits.modulus() - self.bits.val());
            }
            r.bits
        } else {
            self.bits.duplicate()
        }
    }

    /// Signed division and remainder, rounding toward zero: the divisor must
    /// be nonzero and the one overflowing pair — the minimum divided by
    /// minus one — is a programmer error, both ruled out here rather than
    /// detected at run time.
    pub fn div_rem(&self, rhs: &BInt) -> (r: (BInt, BInt))
        requires
            self.wf(),
            rhs.wf(),
            self.width() == rhs.width(),
            rhs.ival() != 0,
            !(self.ival() == -(self.sign_weight() as int) && rhs.ival() == -1),
        ensures
            r.0.wf(),
            r.1.wf(),
            r.0.width() == self.width(),
            r.1.width() == self.width(),
            r.0.ival() == tdiv(self.ival(), rhs.ival()),
            r.1.ival() == trem(self.ival(), rhs.ival()),
    {
        proof {
            self.lemma_sign_weight();
            rhs.lemma_sign_weight();
            lemma_val_seq_bound(self.bits.digits@);
            lemma_val_seq_bound(rhs.bits.digits@);
        }
        let sa = self.is_negative();
        let sb = rhs.is_negative();
        let ua = self.unsigned_abs();
        let ub = rhs.unsigned_abs();
        let (q, rem) = ua.div_rem(&ub);
        let ghost h = self.sign_weight() as int;
        let ghost ai = self.ival();
        let ghost bi = rhs.ival();
        proof {
            lemma_fundamental_div_mod_converse(
                ua.val() as int,
                ub.val() as int,
                q.val() as int,
                rem.val() as int,
            );
            assert(q.val() == iabs(ai) / iabs(bi));
            assert(rem.val() == iabs(ai) % iabs(bi));
            assert(iabs(ai) <= h);
            // the quotient's magnitude fits the signed range, except in the
            // excluded minimum-by-minus-one case
            assert(q.val() <= h) by {
                lemma_div_is_ordered(q.val() as int, iabs(ai), 1);
                lemma_div_nonincreasing(iabs(ai), iabs(bi));
            }
            if sa == sb {
                assert(q.val() < h) by {
                    if iabs(bi) >= 2 {
                        lemma_div_is_ordered(iabs(ai), h, 2);
                        lemma_div_is_ordered_by_denominator(iabs(ai), 2, iabs(bi));
                        lemma_div_decreases(h, 2);
                    } else {
                        assert(iabs(bi) == 1);
                        assert(bi == 1 || bi == -1);
                        if bi == -1 {
                            assert(sa && sb);
                            assert(ai != -h);
                            assert(iabs(ai) < h);
                        } else {
                            assert(!sb);
                            assert(!sa);
                            assert(iabs(ai) < h);
                        }
                        lemma_div_basics(iabs(ai));
                    }
                }
            }
            assert(rem.val() < h || (rem.val() <= iabs(bi) && iabs(bi) <= h));
            assert(rem.val() < h) by {
                if rem.val() >= h {
                    assert(iabs(bi) > h);
                }
            }
        }
        let qi = if sa != sb {
            BInt::from_bits(q).wrapping_neg()
        } else {
            BInt::from_bits(q)
        };
        let ri = if sa {
            BInt::from_bits(rem).wrapping_neg()
        } else {
            BInt::from_bits(rem)
        };
        proof {
            qi.lemma_sign_weight();
            ri.lemma_sign_weight();
        }
        (qi, ri)
    }

    /// Signed division rounding toward zero; the divisor must be nonzero and
    /// the minimum cannot be divided by minus one.
    pub fn div(&self, rhs: &BInt) -> (r: BInt)
        requires
            self.wf(),
            rhs.wf(),
            self.width() == rhs.width(),
            rhs.ival() != 0,
            !(self.ival() == -(self.sign_weight() as int) && rhs.ival() == -1),
        ensures
            r.wf(),
            r.width() == self.width(),
            r.ival() == tdiv(self.ival(), rhs.ival()),
    {
        let (q, _) = self.div_rem(rhs);
        q
    }

    /// Signed remainder; the divisor must be nonzero and the minimum cannot
    /// be divided by minus one.
    pub fn rem(&self, rhs: &BInt) -> (r: BInt)
        requires
            self.wf(),
            rhs.wf(),
            self.width() == rhs.width(),
            rhs.ival() != 0,
            !(self.ival() == -(self.sign_weight() as int) && rhs.ival() == -1),
        ensures
            r.wf(),
            r.width() == self.width(),
            r.ival() == trem(self.ival(), rhs.ival()),
    {
        let (_, rem) = self.div_rem(rhs);
        rem
    }

    /// Signed division that returns no value on a zero divisor or on the one
    /// overflowing pair, the minimum divided by minus one.
    pub fn checked_div(&self, rhs: &BInt) -> (r: Option<BInt>)
        requires
            self.wf(),
            rhs.wf(),
            self.width() == rhs.width(),
        ensures
            r is Some <==> (rhs.ival() != 0 && !(self.ival() == -(self.sign_weight() as int)
                && rhs.ival() == -1)),
            r is Some ==> (r->Some_0.ival() == tdiv(self.ival(), rhs.ival())
                && r->Some_0.width() == self.width() && r->Some_0.wf()),
    {
        proof {
            self.lemma_sign_weight();
            rhs.lemma_sign_weight();
            lemma_val_seq_bound(rhs.bits.digits@);
        }
        if rhs.bits.is_zero() {
            return None;
        }
        let (_, self_is_min) = self.overflowing_neg();
        let all_ones = BUint::max_value(self.bits.digits.len());
        let rhs_is_minus_one = match rhs.bits.cmp(&all_ones) {
            core::cmp::Ordering::Equal => true,
            _ => false,
        };
        if self_is_min && rhs_is_minus_one {
            return None;
        }
        Some(self.div(rhs))
    }

    /// Signed remainder that returns no value on a zero divisor or on the
    /// minimum divided by minus one.
    pub fn checked_rem(&self, rhs: &BInt) -> (r: Option<BInt>)
        requires
            self.wf(),
            rhs.wf(),
            self.width() == rhs.width(),
        ensures
            r is Some <==> (rhs.ival() != 0 && !(self.ival() == -(self.sign_weight() as int)
                && rhs.ival() == -1)),
            r is Some ==> (r->Some_0.ival() == trem(self.ival(), rhs.ival())
                && r->Some_0.width() == self.width() && r->Some_0.wf()),
    {
        proof {
            self.lemma_sign_weight();
            rhs.lemma_sign_weight();
            lemma_val_seq_bound(rhs.bits.digits@);
        }
        if rhs.bits.is_zero() {
            return None;
        }
        let (_, self_is_min) = self.overflowing_neg();
        let all_ones = BUint::max_value(self.bits.digits.len());
        let rhs_is_minus_one = match rhs.bits.cmp(&all_ones) {
            core::cmp::Ordering::Equal => true,
            _ => false,
        };
        if self_is_min && rhs_is_minus_one {
            return None;
        }
        Some(self.rem(rhs))
    }

    /// A value from a native 64-bit signed integer, sign-extended across all
    /// digits.
    pub fn from_i64(v: i64, width: usize) -> (r: BInt)
        requires
            width >= 1,
        ensures
            r.wf(),
            r.width() == width,
            r.ival() == v,
    {
        proof {
            lemma2_to64();
            lemma2_to64_rest();
            assert(pow2(63) <= pow2((64 * width - 1) as nat)) by {
                if 63 < 64 * width - 1 {
                    lemma_pow2_strictly_increases(63, (64 * width - 1) as nat);
                }
            }
        }
        if v >= 0 {
            let b = BInt::from_bits(BUint::from_digit(v as u64, width));
            proof {
                b.lemma_sign_weight();
            }
            b
        } else if v == i64::MIN {
            let b = BInt::from_bits(BUint::from_digit(0x8000_0000_0000_0000u64, width));
            proof {
                b.lemma_sign_weight();
            }
            b.wrapping_neg()
        } else {
            let b = BInt::from_bits(BUint::from_digit((-v) as u64, width));
            proof {
                b.lemma_sign_weight();
            }
            b.wrapping_neg()
        }
    }

    /// A value from a native 128-bit signed integer, sign-extended across
    /// all digits.
    pub fn from_i128(v: i128, width: usize) -> (r: BInt)
        requires
            width >= 2,
        ensures
            r.wf(),
            r.width() == width,
            r.ival() == v,
    {
        proof {
            lemma2_to64();
            lemma2_to64_rest();
            lemma_pow2_adds(64, 63);
            assert(pow2(127) == 0x8000_0000_0000_0000_0000_0000_0000_0000);
            assert(pow2(127) <= pow2((64 * width - 1) as nat)) by {
                if 127 < 64 * width - 1 {
                    lemma_pow2_strictly_increases(127, (64 * width - 1) as nat);
                }
            }
        }
        if v >= 0 {
            let b = BInt::from_bits(BUint::from_u128(v as u128, width));
            proof {
                b.lemma_sign_weight();
            }
            b
        } else if v == i128::MIN {
            let b = BInt::from_bits(
                BUint::from_u128(0x8000_0000_0000_0000_0000_0000_0000_0000u128, width),
            );
            proof {
                b.lemma_sign_weight();
            }
            b.wrapping_neg()
        } else {
            let b = BInt::from_bits(BUint::from_u128((-v) as u128, width));
            proof {
                b.lemma_sign_weight();
            }
            b.wrapping_neg()
        }
    }

    /// Narrowing to a native 128-bit signed integer: succeeds exactly when
    /// the value is within its range.
    pub fn try_into_i128(&self) -> (r: Result<i128, crate::errors::TryFromIntError>)
        requires
            self.wf(),
        ensures
            r is Ok <==> (-(pow2(127) as int) <= self.ival() < pow2(127)),
            r is Ok ==> r->Ok_0 == self.ival(),
    {
        proof {
            self.lemma_sign_weight();
            lemma_val_seq_bound(self.bits.digits@);
            lemma_pow2_adds(64, 63);
            lemma2_to64();
            lemma2_to64_rest();
            assert(pow2(127) == 0x8000_0000_0000_0000_0000_0000_0000_0000);
            lemma_pow2_strictly_increases(127, 128);
        }
        if self.is_negative() {
            let mag = self.unsigned_abs();
            match mag.try_into_u128() {
                Ok(m) => {
                    if m == 0x8000_0000_0000_0000_0000_0000_0000_0000u128 {
                        Ok(i128::MIN)
                    } else if m < 0x8000_0000_0000_0000_0000_0000_0000_0000u128 {
                        Ok(-(m as i128))
                    } else {
                        Err(crate::errors::TryFromIntError)
                    }
                },
                Err(_) => Err(crate::errors::TryFromIntError),
            }
        } else {
            match self.bits.try_into_u128() {
                Ok(m) => {
                    if m < 0x8000_0000_0000_0000_0000_0000_0000_0000u128 {
                        Ok(m as i128)
                    } else {
                        Err(crate::errors::TryFromIntError)
                    }
                },
                Err(_) => Err(crate::errors::TryFromIntError),
            }
        }
    }

    /// The value as a string in the given radix: a minus sign for negative
    /// values, then the magnitude's digits.
    pub fn to_str_radix(&self, radix: u32) -> (r: String)
        requires
            self.wf(),
            2 <= radix <= 36,
        ensures
            r@ == if self.ival() < 0 {
                seq!['-'].add(
                    crate::radix::ascii_chars_of(iabs(self.ival()) as nat, radix as nat),
                )
            } else {
                crate::radix::ascii_chars_of(iabs(self.ival()) as nat, radix as nat)
            },
    {
        proof {
            self.lemma_sign_weight();
            lemma_val_seq_bound(self.bits.digits@);
        }
        let neg = self.is_negative();
        let mag = self.unsigned_abs();
        let digits = mag.to_str_radix(radix);
        if neg {
            let mut out = <String as vstd::string::StringExecFns>::from_str("-");
            <String as vstd::string::StringExecFns>::append(&mut out, digits.as_str());
            proof {
                reveal_strlit("-");
                assert(out@ =~= seq!['-'].add(
                    crate::radix::ascii_chars_of(iabs(self.ival()) as nat, radix as nat),
                ));
            }
            out
        } else {
            digits
        }
    }
}

} // verus!
