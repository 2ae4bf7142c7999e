//! The unsigned engine: a fixed-width integer stored as little-endian 64-bit
//! digits, with comparison, bitwise operations and the overflow-policy
//! families of arithmetic operations.
use vstd::prelude::*;
use vstd::pervasive::VecAdditionalExecFns;
use vstd::arithmetic::power2::*;
use vstd::arithmetic::mul::*;
use vstd::arithmetic::div_mod::*;
use core::cmp::Ordering;
use crate::digit;
use crate::value::{val_seq, nth_bit, lemma_val_seq_injective, lemma_val_seq_push, lemma_val_seq_zero, lemma_val_seq_cmp_at, lemma_val_seq_take_succ, lemma_val_seq_bound, lemma_val_seq_bit, lemma_top_bits_step, lemma_val_seq_split, bit_field, lemma_field_zero_iff_bits, lemma_field_ones_iff_bits};

verus! {

/// A fixed-width unsigned integer: exactly `width` little-endian 64-bit
/// digits, `digits[0]` least significant. The digit count is chosen at
/// construction and never changes; arithmetic is modulo `pow2(64 * width)`.
#[derive(Clone, Debug, PartialEq, Eq, Hash)]
pub struct BUint {
    pub digits: Vec<u64>,
}

impl BUint {
    /// Number of digits.
    pub open spec fn width(self) -> nat {
        self.digits@.len()
    }

    /// The numeric value: the digits read in base `pow2(64)`.
    pub open spec fn val(self) -> nat {
        val_seq(self.digits@)
    }

    /// One more than the largest value representable at this width.
    pub open spec fn modulus(self) -> nat {
        pow2(64 * self.width())
    }

    /// Both operands carry the same digit count.
    pub open spec fn same_width(self, other: BUint) -> bool {
        self.width() == other.width()
    }

    /// The zero value of the given width.
    pub fn zero(width: usize) -> (r: BUint)
        ensures
            r.width() == width,
            r.val() == 0,
    {
        let mut digits: Vec<u64> = Vec::new();
        let mut i: usize = 0;
        while i < width
            invariant
                i <= width,
                digits@.len() == i,
                val_seq(digits@) == 0,
            decreases width - i,
        {
            proof {
                lemma_val_seq_push(digits@, 0);
            }
            digits.push(0);
            i += 1;
        }
        BUint { digits }
    }

    /// The largest value of the given width: every digit at its maximum.
    pub fn max_value(width: usize) -> (r: BUint)
        ensures
            r.width() == width,
            r.val() == pow2(64 * width as nat) - 1,
    {
        proof {
            lemma2_to64();
        }
        let mut digits: Vec<u64> = Vec::new();
        let mut i: usize = 0;
        while i < width
            invariant
                i <= width,
                digits@.len() == i,
                val_seq(digits@) == pow2(64 * i as nat) - 1,
            decreases width - i,
        {
            proof {
                lemma2_to64();
                lemma_val_seq_push(digits@, 0xFFFF_FFFF_FFFF_FFFFu64);
                lemma_pow2_adds(64 * i as nat, 64);
                lemma_pow2_pos(64 * i as nat);
                let p = pow2(64 * i as nat) as int;
                assert(pow2(64 * (i + 1) as nat) == p * 0x1_0000_0000_0000_0000);
                assert(0xFFFF_FFFF_FFFF_FFFF * p == p * 0x1_0000_0000_0000_0000 - p)
                    by (nonlinear_arith);
            }
            digits.push(0xFFFF_FFFF_FFFF_FFFF);
            i += 1;
        }
        BUint { digits }
    }

    /// A value from a single digit, zero-extended to the given width.
    pub fn from_digit(d: u64, width: usize) -> (r: BUint)
        requires
            width >= 1,
        ensures
            r.width() == width,
            r.val() == d,
    {
        let mut digits: Vec<u64> = Vec::new();
        proof {
            lemma_val_seq_push(digits@, d);
            lemma2_to64();
        }
        digits.push(d);
        proof {
            assert(val_seq(digits@) == 0 + d * pow2(0));
            assert(d * pow2(0) == d * 1) by (nonlinear_arith)
                requires
                    pow2(0) == 1,
            ;
        }
        let mut i: usize = 1;
        while i < width
            invariant
                1 <= i <= width,
                digits@.len() == i,
                val_seq(digits@) == d,
            decreases width - i,
        {
            proof {
                lemma_val_seq_push(digits@, 0);
            }
            digits.push(0);
            i += 1;
        }
        BUint { digits }
    }

    /// Whether the value is zero.
    pub fn is_zero(&self) -> (r: bool)
        ensures
            r <==> self.val() == 0,
    {
        let n = self.digits.len();
        let mut i: usize = 0;
        while i < n
            invariant
                i <= n,
                n == self.digits@.len(),
                forall|j: int| 0 <= j < i ==> self.digits@[j] == 0,
            decreases n - i,
        {
            if self.digits[i] != 0 {
                proof {
                    lemma_val_seq_zero(self.digits@);
                }
                return false;
            }
            i += 1;
        }
        proof {
            lemma_val_seq_zero(self.digits@);
        }
        true
    }

    /// Digit-wise equality at every index: equal exactly when the digit
    /// sequences match, which at one width means the values match.
    pub fn eq(&self, other: &BUint) -> (r: bool)
        ensures
            r <==> self.digits@ == other.digits@,
            self.same_width(*other) ==> (r <==> self.val() == other.val()),
    {
        let n = self.digits.len();
        if n != other.digits.len() {
            proof {
                assert(self.digits@ != other.digits@);
            }
            return false;
        }
        let mut i: usize = 0;
        while i < n
            invariant
                i <= n,
                n == self.digits@.len(),
                n == other.digits@.len(),
                forall|j: int| 0 <= j < i ==> self.digits@[j] == other.digits@[j],
            decreases n - i,
        {
            if self.digits[i] != other.digits[i] {
                proof {
                    assert(self.digits@[i as int] != other.digits@[i as int]);
                    if self.same_width(*other) && self.val() == other.val() {
                        lemma_val_seq_injective(self.digits@, other.digits@);
                    }
                }
                return false;
            }
            i += 1;
        }
        proof {
            assert(self.digits@ =~= other.digits@);
        }
        true
    }

    /// Three-way comparison, most significant digit first; the first
    /// differing digit decides.
    pub fn cmp(&self, other: &BUint) -> (r: Ordering)
        requires
            self.same_width(*other),
        ensures
            (r == Ordering::Less <==> self.val() < other.val()),
            (r == Ordering::Equal <==> self.val() == other.val()),
            (r == Ordering::Greater <==> self.val() > other.val()),
    {
        let n = self.digits.len();
        let mut i: usize = n;
        while i > 0
            invariant
                i <= n,
                n == self.digits@.len(),
                n == other.digits@.len(),
                forall|j: int| i <= j < n ==> self.digits@[j] == other.digits@[j],
            decreases i,
        {
            i -= 1;
            let a = self.digits[i];
            let b = other.digits[i];
            if a > b {
                proof {
                    lemma_val_seq_cmp_at(self.digits@, other.digits@, i as int);
                }
                return Ordering::Greater;
            }
            if a < b {
                proof {
                    lemma_val_seq_cmp_at(other.digits@, self.digits@, i as int);
                }
                return Ordering::Less;
            }
        }
        proof {
            assert(self.digits@ =~= other.digits@);
        }
        Ordering::Equal
    }

    /// The larger of the two values; on a tie, `other` is returned.
    pub fn max(self, other: BUint) -> (r: BUint)
        requires
            self.same_width(other),
        ensures
            r.val() == if self.val() >= other.val() {
                self.val()
            } else {
                other.val()
            },
            r == self || r == other,
            r.width() == self.width(),
    {
        match self.cmp(&other) {
            Ordering::Less | Ordering::Equal => other,
            _ => self,
        }
    }

    /// The smaller of the two values; on a tie, `self` is returned.
    pub fn min(self, other: BUint) -> (r: BUint)
        requires
            self.same_width(other),
        ensures
            r.val() == if self.val() <= other.val() {
                self.val()
            } else {
                other.val()
            },
            r == self || r == other,
            r.width() == self.width(),
    {
        match self.cmp(&other) {
            Ordering::Less | Ordering::Equal => self,
            _ => other,
        }
    }

    /// Restricts the value to the inclusive range `[lo, hi]`. The bounds must
    /// be ordered: calling with `lo > hi` is a programmer error, ruled out here
    /// rather than detected at run time.
    pub fn clamp(self, lo: BUint, hi: BUint) -> (r: BUint)
        requires
            self.same_width(lo),
            self.same_width(hi),
            lo.val() <= hi.val(),
        ensures
            r.val() == if self.val() < lo.val() {
                lo.val()
            } else if self.val() > hi.val() {
                hi.val()
            } else {
                self.val()
            },
            r.width() == self.width(),
    {
        if let Ordering::Less = self.cmp(&lo) {
            lo
        } else if let Ordering::Greater = self.cmp(&hi) {
            hi
        } else {
            self
        }
    }

    /// Digit-wise AND.
    pub fn bitand(&self, rhs: &BUint) -> (r: BUint)
        requires
            self.same_width(*rhs),
        ensures
            r.width() == self.width(),
            forall|j: int|
                0 <= j < r.width() ==> r.digits@[j] == (self.digits@[j] & rhs.digits@[j]),
    {
        let n = self.digits.len();
        let mut digits: Vec<u64> = Vec::new();
        let mut i: usize = 0;
        while i < n
            invariant
                i <= n,
                n == self.digits@.len(),
                n == rhs.digits@.len(),
                digits@.len() == i,
                forall|j: int| 0 <= j < i ==> digits@[j] == (self.digits@[j] & rhs.digits@[j]),
            decreases n - i,
        {
            digits.push(self.digits[i] & rhs.digits[i]);
            i += 1;
        }
        BUint { digits }
    }

    /// Digit-wise OR.
    pub fn bitor(&self, rhs: &BUint) -> (r: BUint)
        requires
            self.same_width(*rhs),
        ensures
            r.width() == self.width(),
            forall|j: int|
                0 <= j < r.width() ==> r.digits@[j] == (self.digits@[j] | rhs.digits@[j]),
    {
        let n = self.digits.len();
        let mut digits: Vec<u64> = Vec::new();
        let mut i: usize = 0;
        while i < n
            invariant
                i <= n,
                n == self.digits@.len(),
                n == rhs.digits@.len(),
                digits@.len() == i,
                forall|j: int| 0 <= j < i ==> digits@[j] == (self.digits@[j] | rhs.digits@[j]),
            decreases n - i,
        {
            digits.push(self.digits[i] | rhs.digits[i]);
            i += 1;
        }
        BUint { digits }
    }

    /// Digit-wise XOR.
    pub fn bitxor(&self, rhs: &BUint) -> (r: BUint)
        requires
            self.same_width(*rhs),
        ensures
            r.width() == self.width(),
            forall|j: int|
                0 <= j < r.width() ==> r.digits@[j] == (self.digits@[j] ^ rhs.digits@[j]),
    {
        let n = self.digits.len();
        let mut digits: Vec<u64> = Vec::new();
        let mut i: usize = 0;
        while i < n
            invariant
                i <= n,
                n == self.digits@.len(),
                n == rhs.digits@.len(),
                digits@.len() == i,
                forall|j: int| 0 <= j < i ==> digits@[j] == (self.digits@[j] ^ rhs.digits@[j]),
            decreases n - i,
        {
            digits.push(self.digits[i] ^ rhs.digits[i]);
            i += 1;
        }
        BUint { digits }
    }

    /// Digit-wise NOT; the result is the distance to the width's maximum.
    pub fn not(&self) -> (r: BUint)
        ensures
            r.width() == self.width(),
            r.val() == self.modulus() - 1 - self.val(),
            forall|j: int| 0 <= j < r.width() ==> r.digits@[j] == !self.digits@[j],
    {
        let n = self.digits.len();
        let mut digits: Vec<u64> = Vec::new();
        proof {
            lemma2_to64();
            assert(self.digits@.take(0) =~= Seq::<u64>::empty());
        }
        let mut i: usize = 0;
        while i < n
            invariant
                i <= n,
                n == self.digits@.len(),
                digits@.len() == i,
                forall|j: int| 0 <= j < i ==> digits@[j] == !self.digits@[j],
                val_seq(digits@) == pow2(64 * i as nat) - 1 - val_seq(self.digits@.take(i as int)),
            decreases n - i,
        {
            let d = self.digits[i];
            proof {
                lemma2_to64();
                assert((!d) == 0xFFFF_FFFF_FFFF_FFFFu64 - d) by (bit_vector);
                lemma_val_seq_push(digits@, !d);
                lemma_val_seq_take_succ(self.digits@, i as int);
                lemma_pow2_adds(64 * i as nat, 64);
                let p = pow2(64 * i as nat) as int;
                assert((0xFFFF_FFFF_FFFF_FFFF - d) * p == p * 0x1_0000_0000_0000_0000 - d * p - p)
                    by (nonlinear_arith);
            }
            digits.push(!d);
            i += 1;
        }
        proof {
            assert(self.digits@.take(n as int) =~= self.digits@);
        }
        BUint { digits }
    }

    /// Addition reporting overflow: the result is the truncated sum and the
    /// flag says whether a carry left the top digit.
    pub fn overflowing_add(&self, rhs: &BUint) -> (r: (BUint, bool))
        requires
            self.same_width(*rhs),
        ensures
            r.0.width() == self.width(),
            r.0.val() + (if r.1 {
                self.modulus()
            } else {
                0nat
            }) == self.val() + rhs.val(),
            r.1 == add_overflows(self.val(), rhs.val(), self.modulus()),
    {
        let n = self.digits.len();
        let mut digits: Vec<u64> = Vec::new();
        let mut carry: bool = false;
        let mut i: usize = 0;
        while i < n
            invariant
                i <= n,
                n == self.digits@.len(),
                n == rhs.digits@.len(),
                digits@.len() == i,
                val_seq(digits@) + (if carry {
                    pow2(64 * i as nat)
                } else {
                    0nat
                }) == val_seq(self.digits@.take(i as int)) + val_seq(rhs.digits@.take(i as int)),
            decreases n - i,
        {
            let (d, c) = digit::carrying_add(self.digits[i], rhs.digits[i], carry);
            proof {
                lemma_val_seq_push(digits@, d);
                lemma_val_seq_take_succ(self.digits@, i as int);
                lemma_val_seq_take_succ(rhs.digits@, i as int);
                lemma_pow2_adds(64 * i as nat, 64);
                let p = pow2(64 * i as nat) as int;
                let b = pow2(64) as int;
                let pnext = pow2(64 * (i + 1) as nat) as int;
                let a0 = self.digits@[i as int] as int;
                let b0 = rhs.digits@[i as int] as int;
                let ci = if carry {
                    1int
                } else {
                    0int
                };
                let co = if c {
                    1int
                } else {
                    0int
                };
                assert(pnext == p * b);
                assert(d + co * b == a0 + b0 + ci);
                assert(d * p + co * pnext == a0 * p + b0 * p + ci * p) by (nonlinear_arith)
                    requires
                        d + co * b == a0 + b0 + ci,
                        pnext == p * b,
                ;
                assert((if carry {
                    pow2(64 * i as nat) as int
                } else {
                    0int
                }) == ci * p);
                assert((if c {
                    pow2(64 * (i + 1) as nat) as int
                } else {
                    0int
                }) == co * pnext);
            }
            digits.push(d);
            carry = c;
            i += 1;
        }
        proof {
            assert(self.digits@.take(n as int) =~= self.digits@);
            assert(rhs.digits@.take(n as int) =~= rhs.digits@);
            lemma_val_seq_bound(digits@);
        }
        (BUint { digits }, carry)
    }

    /// Addition that returns no value when the sum overflows the width.
    pub fn checked_add(&self, rhs: &BUint) -> (r: Option<BUint>)
        requires
            self.same_width(*rhs),
        ensures
            r is Some <==> !add_overflows(self.val(), rhs.val(), self.modulus()),
            r is Some ==> (r->Some_0.val() == self.val() + rhs.val() && r->Some_0.width()
                == self.width()),
    {
        let (sum, carry) = self.overflowing_add(rhs);
        if carry {
            None
        } else {
            Some(sum)
        }
    }

    /// Addition modulo `pow2(64 * width)`: overflow is silently discarded.
    pub fn wrapping_add(&self, rhs: &BUint) -> (r: BUint)
        requires
            self.same_width(*rhs),
        ensures
            r.width() == self.width(),
            r.val() == wrapped_sum(self.val(), rhs.val(), self.modulus()),
    {
        let (sum, carry) = self.overflowing_add(rhs);
        proof {
            lemma_pow2_pos(64 * self.width());
            lemma_val_seq_bound(self.digits@);
            lemma_val_seq_bound(rhs.digits@);
            let m = self.modulus() as int;
            let s = self.val() + rhs.val();
            if carry {
                lemma_mod_sub_multiples_vanish(s as int, m);
                lemma_small_mod((s - m) as nat, m as nat);
            } else {
                lemma_small_mod(s as nat, m as nat);
            }
        }
        sum
    }

    /// Addition that clamps to the width's maximum on overflow.
    pub fn saturating_add(&self, rhs: &BUint) -> (r: BUint)
        requires
            self.same_width(*rhs),
        ensures
            r.width() == self.width(),
            r.val() == if add_overflows(self.val(), rhs.val(), self.modulus()) {
                (self.modulus() - 1) as nat
            } else {
                self.val() + rhs.val()
            },
    {
        let (sum, carry) = self.overflowing_add(rhs);
        if carry {
            BUint::max_value(self.digits.len())
        } else {
            sum
        }
    }

    /// Plain addition. Overflow is a programmer error here, matching native
    /// fixed-width overflow semantics; callers must stay within the width.
    pub fn add(&self, rhs: &BUint) -> (r: BUint)
        requires
            self.same_width(*rhs),
            self.val() + rhs.val() < self.modulus(),
        ensures
            r.width() == self.width(),
            r.val() == self.val() + rhs.val(),
    {
        let (sum, _) = self.overflowing_add(rhs);
        sum
    }

    /// Subtraction reporting underflow: the result is the wrapped difference
    /// and the flag says whether a borrow left the top digit.
    pub fn overflowing_sub(&self, rhs: &BUint) -> (r: (BUint, bool))
        requires
            self.same_width(*rhs),
        ensures
            r.0.width() == self.width(),
            r.0.val() == self.val() - rhs.val() + (if r.1 {
                self.modulus() as int
            } else {
                0int
            }),
            r.1 == sub_underflows(self.val(), rhs.val()),
    {
        let n = self.digits.len();
        let mut digits: Vec<u64> = Vec::new();
        let mut borrow: bool = false;
        let mut i: usize = 0;
        while i < n
            invariant
                i <= n,
                n == self.digits@.len(),
                n == rhs.digits@.len(),
                digits@.len() == i,
                val_seq(digits@) - (if borrow {
                    pow2(64 * i as nat) as int
                } else {
                    0int
                }) == val_seq(self.digits@.take(i as int)) - val_seq(rhs.digits@.take(i as int)),
            decreases n - i,
        {
            let (d, b) = digit::borrowing_sub(self.digits[i], rhs.digits[i], borrow);
            proof {
                lemma_val_seq_push(digits@, d);
                lemma_val_seq_take_succ(self.digits@, i as int);
                lemma_val_seq_take_succ(rhs.digits@, i as int);
                lemma_pow2_adds(64 * i as nat, 64);
                let p = pow2(64 * i as nat) as int;
                let bb = pow2(64) as int;
                let pnext = pow2(64 * (i + 1) as nat) as int;
                let a0 = self.digits@[i as int] as int;
                let b0 = rhs.digits@[i as int] as int;
                let ci = if borrow {
                    1int
                } else {
                    0int
                };
                let co = if b {
                    1int
                } else {
                    0int
                };
                assert(pnext == p * bb);
                assert(d - co * bb == a0 - b0 - ci);
                assert(d * p - co * pnext == a0 * p - b0 * p - ci * p) by (nonlinear_arith)
                    requires
                        d - co * bb == a0 - b0 - ci,
                        pnext == p * bb,
                ;
                assert((if borrow {
                    pow2(64 * i as nat) as int
                } else {
                    0int
                }) == ci * p);
                assert((if b {
                    pow2(64 * (i + 1) as nat) as int
                } else {
                    0int
                }) == co * pnext);
            }
            digits.push(d);
            borrow = b;
            i += 1;
        }
        proof {
            assert(self.digits@.take(n as int) =~= self.digits@);
            assert(rhs.digits@.take(n as int) =~= rhs.digits@);
            lemma_val_seq_bound(digits@);
            lemma_val_seq_bound(self.digits@);
            lemma_val_seq_bound(rhs.digits@);
        }
        (BUint { digits }, borrow)
    }

    /// Subtraction that returns no value when the difference would be negative.
    pub fn checked_sub(&self, rhs: &BUint) -> (r: Option<BUint>)
        requires
            self.same_width(*rhs),
        ensures
            r is Some <==> !sub_underflows(self.val(), rhs.val()),
            r is Some ==> (r->Some_0.val() == self.val() - rhs.val() && r->Some_0.width()
                == self.width()),
    {
        let (diff, borrow) = self.overflowing_sub(rhs);
        if borrow {
            None
        } else {
            Some(diff)
        }
    }

    /// Subtraction modulo `pow2(64 * width)`: underflow wraps around.
    pub fn wrapping_sub(&self, rhs: &BUint) -> (r: BUint)
        requires
            self.same_width(*rhs),
        ensures
            r.width() == self.width(),
            r.val() == ((self.val() - rhs.val()) % (self.modulus() as int)),
    {
        let (diff, borrow) = self.overflowing_sub(rhs);
        proof {
            lemma_pow2_pos(64 * self.width());
            lemma_val_seq_bound(self.digits@);
            lemma_val_seq_bound(rhs.digits@);
            let m = self.modulus() as int;
            let s = self.val() - rhs.val();
            if borrow {
                lemma_mod_add_multiples_vanish(s, m);
                lemma_small_mod((s + m) as nat, m as nat);
            } else {
                lemma_small_mod(s as nat, m as nat);
            }
        }
        diff
    }

    /// Subtraction that clamps to zero on underflow.
    pub fn saturating_sub(&self, rhs: &BUint) -> (r: BUint)
        requires
            self.same_width(*rhs),
        ensures
            r.width() == self.width(),
            r.val() == if sub_underflows(self.val(), rhs.val()) {
                0nat
            } else {
                (self.val() - rhs.val()) as nat
            },
    {
        let (diff, borrow) = self.overflowing_sub(rhs);
        if borrow {
            BUint::zero(self.digits.len())
        } else {
            diff
        }
    }

    /// Plain subtraction. Underflow is a programmer error here; callers must
    /// keep the minuend at least as large as the subtrahend.
    pub fn sub(&self, rhs: &BUint) -> (r: BUint)
        requires
            self.same_width(*rhs),
            self.val() >= rhs.val(),
        ensures
            r.width() == self.width(),
            r.val() == self.val() - rhs.val(),
    {
        let (diff, _) = self.overflowing_sub(rhs);
        diff
    }
    /// A copy of the value: same digits, same width.
    pub fn duplicate(&self) -> (r: BUint)
        ensures
            r.digits@ == self.digits@,
            r.width() == self.width(),
            r.val() == self.val(),
    {
        let n = self.digits.len();
        let mut digits: Vec<u64> = Vec::new();
        let mut i: usize = 0;
        while i < n
            invariant
                i <= n,
                n == self.digits@.len(),
                digits@.len() == i,
                forall|j: int| 0 <= j < i ==> digits@[j] == self.digits@[j],
            decreases n - i,
        {
            digits.push(self.digits[i]);
            i += 1;
        }
        proof {
            assert(digits@ =~= self.digits@);
        }
        BUint { digits }
    }

    /// Multiplies the whole value by the digit `m` and adds the digit `a`,
    /// propagating the carry across all digits; the returned digit is the
    /// carry out of the top digit (zero exactly when nothing was truncated).
    pub fn mul_digit_add_digit(&self, m: u64, a: u64) -> (r: (BUint, u64))
        ensures
            r.0.width() == self.width(),
            r.0.val() + r.1 * self.modulus() == self.val() * m + a,
    {
        let n = self.digits.len();
        let mut digits: Vec<u64> = Vec::new();
        let mut carry: u64 = a;
        let mut i: usize = 0;
        proof {
            lemma2_to64();
            assert(self.digits@.take(0) =~= Seq::<u64>::empty());
            assert(carry * pow2(0) == carry * 1) by (nonlinear_arith)
                requires
                    pow2(0) == 1,
            ;
            assert(val_seq(Seq::<u64>::empty()) * m == 0) by (nonlinear_arith);
        }
        while i < n
            invariant
                i <= n,
                n == self.digits@.len(),
                digits@.len() == i,
                val_seq(digits@) + carry * pow2(64 * i as nat) == val_seq(
                    self.digits@.take(i as int),
                ) * m + a,
            decreases n - i,
        {
            let d = self.digits[i];
            let (lo, hi) = digit::carrying_mul(d, m, carry, 0);
            proof {
                lemma_val_seq_push(digits@, lo);
                lemma_val_seq_take_succ(self.digits@, i as int);
                lemma_pow2_adds(64 * i as nat, 64);
                let p = pow2(64 * i as nat) as int;
                let b = pow2(64) as int;
                let vt = val_seq(self.digits@.take(i as int)) as int;
                assert(lo + b * hi == d * m + carry);
                assert((d * m + carry - b * hi) * p + hi * (p * b) == (d * p) * m + carry * p)
                    by (nonlinear_arith);
                assert((vt + d * p) * m == vt * m + (d * p) * m) by (nonlinear_arith);
            }
            digits.push(lo);
            carry = hi;
            i += 1;
        }
        proof {
            assert(self.digits@.take(n as int) =~= self.digits@);
        }
        (BUint { digits }, carry)
    }

    /// Long division by a single nonzero digit: returns the quotient and the
    /// remainder digit, with `quotient * d + remainder == self` and the
    /// remainder below the divisor.
    pub fn div_rem_digit(&self, d: u64) -> (r: (BUint, u64))
        requires
            d >= 1,
        ensures
            r.0.width() == self.width(),
            r.0.val() * d + r.1 == self.val(),
            r.1 < d,
    {
        let n = self.digits.len();
        let mut quot: Vec<u64> = BUint::zero(n).digits;
        let mut rem: u64 = 0;
        let mut i: usize = n;
        proof {
            assert(quot@.skip(n as int) =~= Seq::<u64>::empty());
            assert(self.digits@.skip(n as int) =~= Seq::<u64>::empty());
            assert(val_seq(Seq::<u64>::empty()) * d == 0) by (nonlinear_arith);
        }
        while i > 0
            invariant
                i <= n,
                n == self.digits@.len(),
                quot@.len() == n,
                rem < d,
                val_seq(quot@.skip(i as int)) * d + rem == val_seq(self.digits@.skip(i as int)),
            decreases i,
        {
            i -= 1;
            proof {
                lemma2_to64();
            }
            let cur: u128 = rem as u128 * 0x1_0000_0000_0000_0000u128 + self.digits[i] as u128;
            proof {
                lemma_multiply_divide_lt(cur as int, d as int, 0x1_0000_0000_0000_0000);
                lemma_mod_division_less_than_divisor(cur as int, d as int);
                lemma_div_pos_is_pos(cur as int, d as int);
                assert(cur < d as int * 0x1_0000_0000_0000_0000) by (nonlinear_arith)
                    requires
                        rem < d,
                        cur == rem as int * 0x1_0000_0000_0000_0000 + self.digits@[i as int],
                        self.digits@[i as int] < 0x1_0000_0000_0000_0000,
                ;
            }
            let qd: u64 = (cur / (d as u128)) as u64;
            let rem2: u64 = (cur % (d as u128)) as u64;
            proof {
                let b = pow2(64) as int;
                let nq = quot@.update(i as int, qd);
                let vq = val_seq(quot@.skip(i as int + 1)) as int;
                let vs1 = val_seq(self.digits@.skip(i as int + 1)) as int;
                let s_i = self.digits@[i as int] as int;
                lemma_fundamental_div_mod(cur as int, d as int);
                assert(qd * d + rem2 == cur) by (nonlinear_arith)
                    requires
                        cur as int == d * (cur as int / d as int) + cur as int % d as int,
                        qd == cur as int / d as int,
                        rem2 == cur as int % d as int,
                ;
                assert(nq.skip(i as int + 1) =~= quot@.skip(i as int + 1));
                assert(nq.skip(i as int)[0] == qd);
                assert(nq.skip(i as int).skip(1) =~= quot@.skip(i as int + 1));
                assert(val_seq(nq.skip(i as int)) == qd + b * vq);
                assert(self.digits@.skip(i as int)[0] == self.digits@[i as int]);
                assert(self.digits@.skip(i as int).skip(1) =~= self.digits@.skip(i as int + 1));
                assert(val_seq(self.digits@.skip(i as int)) == s_i + b * vs1);
                assert(val_seq(nq.skip(i as int)) * d + rem2 == val_seq(
                    self.digits@.skip(i as int),
                )) by (nonlinear_arith)
                    requires
                        val_seq(nq.skip(i as int)) == qd + b * vq,
                        qd * d + rem2 == cur,
                        cur == rem * b + s_i,
                        vq * d + rem == vs1,
                        val_seq(self.digits@.skip(i as int)) == s_i + b * vs1,
                ;
            }
            quot.set(i, qd);
            rem = rem2;
        }
        proof {
            assert(quot@.skip(0) =~= quot@);
            assert(self.digits@.skip(0) =~= self.digits@);
        }
        (BUint { digits: quot }, rem)
    }
    /// Reads bit `k` of the value (bit 0 is least significant).
    pub fn get_bit(&self, k: usize) -> (r: bool)
        requires
            k < 64 * self.width(),
        ensures
            r == nth_bit(self.val(), k as nat),
    {
        let j = k / 64;
        let t: u64 = (k % 64) as u64;
        proof {
            lemma_val_seq_bit(self.digits@, k as nat);
            assert(j == k as nat / 64 && t == k as nat % 64) by {
                lemma_fundamental_div_mod(k as int, 64);
                lemma_mod_division_less_than_divisor(k as int, 64);
            }
            assert(j < self.digits@.len()) by {
                if j >= self.digits@.len() {
                    assert(64 * j >= 64 * self.digits@.len()) by (nonlinear_arith)
                        requires
                            j >= self.digits@.len(),
                    ;
                    lemma_fundamental_div_mod(k as int, 64);
                    lemma_mod_division_less_than_divisor(k as int, 64);
                }
            }
        }
        let d = self.digits[j];
        proof {
            vstd::bits::lemma_u64_shr_is_div(d, t);
            assert(((d >> t) & 1) == (d >> t) % 2) by (bit_vector);
        }
        ((d >> t) & 1) == 1
    }

    /// Reads the bit at position `64 * j + t` of the value: bit `t` of
    /// digit `j`.
    fn get_bit_in_digit(&self, j: usize, t: usize) -> (r: bool)
        requires
            j < self.width(),
            t < 64,
        ensures
            r == nth_bit(self.val(), 64 * j as nat + t as nat),
    {
        proof {
            assert(64 * j as nat + t < 64 * self.digits@.len()) by (nonlinear_arith)
                requires
                    j < self.digits@.len(),
                    t < 64,
            ;
            lemma_val_seq_bit(self.digits@, 64 * j as nat + t as nat);
            lemma_div_multiples_vanish_fancy(j as int, t as int, 64);
            lemma_mod_multiples_vanish(j as int, t as int, 64);
            lemma_small_mod(t as nat, 64);
        }
        let d = self.digits[j];
        let tt: u64 = t as u64;
        proof {
            vstd::bits::lemma_u64_shr_is_div(d, tt);
            assert(((d >> tt) & 1) == (d >> tt) % 2) by (bit_vector);
        }
        ((d >> tt) & 1) == 1
    }

    /// Long division: quotient and remainder against a nonzero divisor of the
    /// same width. The quotient rounds toward zero and
    /// `quotient * divisor + remainder == self` with the remainder below the
    /// divisor. Division by zero is a programmer error, ruled out here rather
    /// than detected at run time.
    pub fn div_rem(&self, rhs: &BUint) -> (r: (BUint, BUint))
        requires
            self.same_width(*rhs),
            rhs.val() > 0,
        ensures
            r.0.width() == self.width(),
            r.1.width() == self.width(),
            r.0.val() * rhs.val() + r.1.val() == self.val(),
            r.1.val() < rhs.val(),
    {
        let n = self.digits.len();
        let mut quot = BUint::zero(n);
        let mut rem = BUint::zero(n);
        proof {
            if n == 0 {
                assert(rhs.val() == 0);
            }
            lemma_pow2_pos(64 * n as nat);
            lemma_val_seq_bound(self.digits@);
            lemma_basic_div(self.val() as int, pow2(64 * n as nat) as int);
            assert(0 * rhs.val() == 0) by (nonlinear_arith);
        }
        let one = BUint::from_digit(1, n);
        let mut j: usize = 0;
        while j < n
            invariant
                j <= n,
                n >= 1,
                n == self.digits@.len(),
                n == rhs.digits@.len(),
                rhs.val() > 0,
                quot.width() == n,
                rem.width() == n,
                one.val() == 1,
                one.width() == n,
                rem.val() < rhs.val(),
                quot.val() * rhs.val() + rem.val() == self.val() / pow2(64 * (n - j) as nat),
            decreases n - j,
        {
            let dj = n - 1 - j;
            let mut t: usize = 64;
            proof {
                assert(64 * (n - j) as nat == 64 * dj as nat + 64) by (nonlinear_arith)
                    requires
                        j < n,
                        dj == n - 1 - j,
                ;
            }
            while t > 0
                invariant
                    t <= 64,
                    j < n,
                    dj == n - 1 - j,
                    n == self.digits@.len(),
                    n == rhs.digits@.len(),
                    rhs.val() > 0,
                    quot.width() == n,
                    rem.width() == n,
                    one.val() == 1,
                    one.width() == n,
                    rem.val() < rhs.val(),
                    quot.val() * rhs.val() + rem.val() == self.val() / pow2(
                        64 * dj as nat + t as nat,
                    ),
                decreases t,
            {
                t -= 1;
                let ghost k = 64 * dj as nat + t as nat;
                let ghost m = quot.modulus();
                let ghost b = rhs.val();
                let ghost q0 = quot.val();
                let ghost atop_old = self.val() / pow2(k + 1);
                let ghost atop = self.val() / pow2(k);
                proof {
                    lemma_top_bits_step(self.val(), k);
                    lemma_pow2_pos(k);
                    lemma_div_nonincreasing(self.val() as int, pow2(k) as int);
                    lemma_val_seq_bound(self.digits@);
                    lemma_val_seq_bound(rhs.digits@);
                    assert(atop < m);
                    assert(b < m);
                }
                let bit = self.get_bit_in_digit(dj, t);
                let ghost v = 2 * rem.val() + (if bit {
                    1nat
                } else {
                    0nat
                });
                proof {
                    assert(atop == 2 * atop_old + (if bit {
                        1nat
                    } else {
                        0nat
                    }));
                    assert((2 * q0) * b + v == atop) by (nonlinear_arith)
                        requires
                            q0 * b + rem.val() == atop_old,
                            atop == 2 * atop_old + (if bit {
                                1nat
                            } else {
                                0nat
                            }),
                            v == 2 * rem.val() + (if bit {
                                1nat
                            } else {
                                0nat
                            }),
                    ;
                }
                let (rem2, ov) = rem.overflowing_add(&rem);
                let (rem3, ov2) = if bit {
                    rem2.overflowing_add(&one)
                } else {
                    (rem2, false)
                };
                let v_big = ov || ov2;
                proof {
                    assert(rem3.val() + (if v_big {
                        m
                    } else {
                        0nat
                    }) == v);
                    assert(v < 2 * b);
                }
                let subtract = v_big || {
                    match rem3.cmp(rhs) {
                        Ordering::Less => false,
                        _ => true,
                    }
                };
                proof {
                    assert(subtract <==> v >= b);
                }
                if subtract {
                    let new_rem = rem3.wrapping_sub(rhs);
                    proof {
                        let mi = m as int;
                        if v_big {
                            lemma_mod_add_multiples_vanish(rem3.val() as int - b, mi);
                            lemma_small_mod((rem3.val() + m - b) as nat, m);
                        } else {
                            lemma_small_mod((rem3.val() - b) as nat, m);
                        }
                        assert(new_rem.val() == v - b);
                        assert((2 * q0 + 1) * b + (v - b) == atop) by (nonlinear_arith)
                            requires
                                (2 * q0) * b + v == atop,
                                v >= b,
                        ;
                        assert(2 * q0 + 1 <= atop) by (nonlinear_arith)
                            requires
                                (2 * q0 + 1) * b + (v - b) == atop,
                                b >= 1,
                                v >= b,
                                q0 >= 0,
                        ;
                    }
                    let doubled = quot.add(&quot);
                    quot = doubled.add(&one);
                    rem = new_rem;
                } else {
                    proof {
                        assert(rem3.val() == v);
                        assert(2 * q0 <= atop) by (nonlinear_arith)
                            requires
                                (2 * q0) * b + v == atop,
                                b >= 1,
                                v >= 0,
                                q0 >= 0,
                        ;
                    }
                    quot = quot.add(&quot);
                    rem = rem3;
                }
            }
            j += 1;
            proof {
                assert(64 * dj as nat + 0 == 64 * (n - j) as nat) by (nonlinear_arith)
                    requires
                        dj == n - j,
                ;
            }
        }
        proof {
            lemma2_to64();
            assert(self.val() / pow2(0) == self.val()) by {
                lemma_div_basics(self.val() as int);
            }
            assert(64 * (n - n) as nat == 0) by (nonlinear_arith);
        }
        (quot, rem)
    }
}

impl BUint {
    /// Division rounding toward zero. Division by zero is a programmer
    /// error, ruled out here rather than detected at run time.
    pub fn div(&self, rhs: &BUint) -> (r: BUint)
        requires
            self.same_width(*rhs),
            rhs.val() > 0,
        ensures
            r.width() == self.width(),
            r.val() == self.val() / rhs.val(),
    {
        let (q, rem) = self.div_rem(rhs);
        proof {
            lemma_fundamental_div_mod_converse(
                self.val() as int,
                rhs.val() as int,
                q.val() as int,
                rem.val() as int,
            );
        }
        q
    }

    /// Remainder of division rounding toward zero; a zero divisor is a
    /// programmer error, ruled out here rather than detected at run time.
    pub fn rem(&self, rhs: &BUint) -> (r: BUint)
        requires
            self.same_width(*rhs),
            rhs.val() > 0,
        ensures
            r.width() == self.width(),
            r.val() == self.val() % rhs.val(),
    {
        let (q, rem) = self.div_rem(rhs);
        proof {
            lemma_fundamental_div_mod_converse(
                self.val() as int,
                rhs.val() as int,
                q.val() as int,
                rem.val() as int,
            );
        }
        rem
    }

    /// Division that returns no value on a zero divisor. Unsigned division
    /// cannot overflow, so this is the only failure.
    pub fn checked_div(&self, rhs: &BUint) -> (r: Option<BUint>)
        requires
            self.same_width(*rhs),
        ensures
            r is Some <==> rhs.val() > 0,
            r is Some ==> (r->Some_0.val() == self.val() / rhs.val() && r->Some_0.width()
                == self.width()),
    {
        if rhs.is_zero() {
            None
        } else {
            Some(self.div(rhs))
        }
    }

    /// Remainder that returns no value on a zero divisor.
    pub fn checked_rem(&self, rhs: &BUint) -> (r: Option<BUint>)
        requires
            self.same_width(*rhs),
        ensures
            r is Some <==> rhs.val() > 0,
            r is Some ==> (r->Some_0.val() == self.val() % rhs.val() && r->Some_0.width()
                == self.width()),
    {
        if rhs.is_zero() {
            None
        } else {
            Some(self.rem(rhs))
        }
    }

    /// Unsigned division never wraps: the wrapping variant equals plain
    /// division, kept so the family is complete.
    pub fn wrapping_div(&self, rhs: &BUint) -> (r: BUint)
        requires
            self.same_width(*rhs),
            rhs.val() > 0,
        ensures
            r.width() == self.width(),
            r.val() == self.val() / rhs.val(),
    {
        self.div(rhs)
    }

    /// Unsigned remainder never wraps: the wrapping variant equals the plain
    /// remainder, kept so the family is complete.
    pub fn wrapping_rem(&self, rhs: &BUint) -> (r: BUint)
        requires
            self.same_width(*rhs),
            rhs.val() > 0,
        ensures
            r.width() == self.width(),
            r.val() == self.val() % rhs.val(),
    {
        self.rem(rhs)
    }

    /// Division by a single nonzero digit.
    pub fn div_digit(&self, rhs: u64) -> (r: BUint)
        requires
            rhs >= 1,
        ensures
            r.width() == self.width(),
            r.val() == self.val() / rhs as nat,
    {
        let (q, rem) = self.div_rem_digit(rhs);
        proof {
            lemma_fundamental_div_mod_converse(
                self.val() as int,
                rhs as int,
                q.val() as int,
                rem as int,
            );
        }
        q
    }

    /// Remainder of division by a single nonzero digit.
    pub fn rem_digit(&self, rhs: u64) -> (r: u64)
        requires
            rhs >= 1,
        ensures
            r == self.val() % rhs as nat,
    {
        let (q, rem) = self.div_rem_digit(rhs);
        proof {
            lemma_fundamental_div_mod_converse(
                self.val() as int,
                rhs as int,
                q.val() as int,
                rem as int,
            );
        }
        rem
    }

    /// Adds a single digit, wrapping at the width.
    pub fn add_digit(&self, rhs: u64) -> (r: BUint)
        requires
            self.width() >= 1,
        ensures
            r.width() == self.width(),
            r.val() == wrapped_sum(self.val(), rhs as nat, self.modulus()),
    {
        let d = BUint::from_digit(rhs, self.digits.len());
        self.wrapping_add(&d)
    }

    /// A value from a native 128-bit integer, in two digits plus zeros.
    pub fn from_u128(v: u128, width: usize) -> (r: BUint)
        requires
            width >= 2,
        ensures
            r.width() == width,
            r.val() == v,
    {
        proof {
            lemma2_to64();
        }
        let lo: u64 = (v % 0x1_0000_0000_0000_0000u128) as u64;
        let hi: u64 = (v / 0x1_0000_0000_0000_0000u128) as u64;
        proof {
            lemma_fundamental_div_mod(v as int, 0x1_0000_0000_0000_0000);
        }
        let mut digits: Vec<u64> = Vec::new();
        proof {
            lemma_val_seq_push(digits@, lo);
        }
        digits.push(lo);
        proof {
            assert(val_seq(digits@) == 0 + lo * pow2(0));
            assert(lo * pow2(0) == lo * 1) by (nonlinear_arith)
                requires
                    pow2(0) == 1,
            ;
            lemma_val_seq_push(digits@, hi);
        }
        digits.push(hi);
        proof {
            assert(val_seq(digits@) == lo + hi * pow2(64));
        }
        let mut i: usize = 2;
        while i < width
            invariant
                2 <= i <= width,
                digits@.len() == i,
                val_seq(digits@) == v,
            decreases width - i,
        {
            proof {
                lemma_val_seq_push(digits@, 0);
            }
            digits.push(0);
            i += 1;
        }
        BUint { digits }
    }

    /// Narrowing to a native 64-bit integer: succeeds exactly when the value
    /// fits.
    pub fn try_into_u64(&self) -> (r: Result<u64, crate::errors::TryFromIntError>)
        ensures
            r is Ok <==> self.val() < pow2(64),
            r is Ok ==> r->Ok_0 == self.val(),
    {
        proof {
            lemma2_to64();
            lemma_val_seq_bound(self.digits@);
            if self.digits@.len() >= 1 {
                lemma_val_seq_split(self.digits@, 1);
                lemma_val_seq_zero(self.digits@.skip(1));
                lemma_val_seq_bound(self.digits@.take(1));
                assert(self.digits@.take(1).len() == 1);
                let hi = val_seq(self.digits@.skip(1)) as int;
                let p = pow2(64) as int;
                if hi >= 1 {
                    assert(p * hi >= p) by (nonlinear_arith)
                        requires
                            hi >= 1,
                            p >= 0,
                    ;
                }
                assert(self.digits@.take(1)[0] == self.digits@[0]);
                assert(val_seq(self.digits@.take(1)) == self.digits@[0] as nat + pow2(64)
                    * val_seq(self.digits@.take(1).skip(1)));
                assert(self.digits@.take(1).skip(1) =~= Seq::<u64>::empty());
            }
        }
        let n = self.digits.len();
        if n == 0 {
            return Ok(0);
        }
        let mut i: usize = 1;
        while i < n
            invariant
                1 <= i <= n,
                n == self.digits@.len(),
                forall|j: int| 1 <= j < i ==> self.digits@[j] == 0,
            decreases n - i,
        {
            if self.digits[i] != 0 {
                proof {
                    lemma_val_seq_split(self.digits@, 1);
                    lemma_val_seq_zero(self.digits@.skip(1));
                    let hi = val_seq(self.digits@.skip(1)) as int;
                    let p = pow2(64) as int;
                    assert(self.digits@.skip(1)[i - 1] != 0);
                    assert(hi != 0);
                    assert(p * hi >= p) by (nonlinear_arith)
                        requires
                            hi >= 1,
                            p >= 0,
                    ;
                }
                return Err(crate::errors::TryFromIntError);
            }
            i += 1;
        }
        proof {
            lemma_val_seq_split(self.digits@, 1);
            lemma_val_seq_zero(self.digits@.skip(1));
            assert(forall|j: int|
                0 <= j < self.digits@.skip(1).len() ==> self.digits@.skip(1)[j] == 0);
        }
        Ok(self.digits[0])
    }

    /// Narrowing to a native 128-bit integer: succeeds exactly when the value
    /// fits.
    pub fn try_into_u128(&self) -> (r: Result<u128, crate::errors::TryFromIntError>)
        ensures
            r is Ok <==> self.val() < pow2(128),
            r is Ok ==> r->Ok_0 == self.val(),
    {
        proof {
            lemma2_to64();
            lemma_pow2_adds(64, 64);
            lemma_val_seq_bound(self.digits@);
            if self.digits@.len() >= 2 {
                lemma_val_seq_split(self.digits@, 2);
                lemma_val_seq_zero(self.digits@.skip(2));
                lemma_val_seq_bound(self.digits@.take(2));
                assert(self.digits@.take(2).len() == 2);
                let hi = val_seq(self.digits@.skip(2)) as int;
                let p = pow2(128) as int;
                if hi >= 1 {
                    assert(p * hi >= p) by (nonlinear_arith)
                        requires
                            hi >= 1,
                            p >= 0,
                    ;
                }
                let t = self.digits@.take(2);
                assert(t[0] == self.digits@[0]);
                assert(t.skip(1)[0] == self.digits@[1]);
                assert(t.skip(1).skip(1) =~= Seq::<u64>::empty());
                assert(val_seq(Seq::<u64>::empty()) == 0);
                assert(val_seq(t.skip(1)) == t.skip(1)[0] as nat + pow2(64) * val_seq(
                    t.skip(1).skip(1),
                ));
                assert(val_seq(t) == t[0] as nat + pow2(64) * val_seq(t.skip(1)));
            } else if self.digits@.len() == 1 {
                lemma_pow2_strictly_increases(64, 128);
            } else {
                lemma_pow2_pos(128);
            }
        }
        let n = self.digits.len();
        if n == 0 {
            return Ok(0);
        }
        if n == 1 {
            return Ok(self.digits[0] as u128);
        }
        let mut i: usize = 2;
        while i < n
            invariant
                2 <= i <= n,
                n == self.digits@.len(),
                forall|j: int| 2 <= j < i ==> self.digits@[j] == 0,
            decreases n - i,
        {
            if self.digits[i] != 0 {
                proof {
                    lemma_val_seq_split(self.digits@, 2);
                    lemma_val_seq_zero(self.digits@.skip(2));
                    let hi = val_seq(self.digits@.skip(2)) as int;
                    let p = pow2(128) as int;
                    assert(self.digits@.skip(2)[i - 2] != 0);
                    assert(hi != 0);
                    assert(p * hi >= p) by (nonlinear_arith)
                        requires
                            hi >= 1,
                            p >= 0,
                    ;
                }
                return Err(crate::errors::TryFromIntError);
            }
            i += 1;
        }
        proof {
            lemma_val_seq_split(self.digits@, 2);
            lemma_val_seq_zero(self.digits@.skip(2));
            assert(forall|j: int|
                0 <= j < self.digits@.skip(2).len() ==> self.digits@.skip(2)[j] == 0);
        }
        Ok(self.digits[0] as u128 + self.digits[1] as u128 * 0x1_0000_0000_0000_0000u128)
    }

    /// Reinterprets the value at another width: zero-extends when widening,
    /// truncates modulo the new width when narrowing.
    #[verifier::rlimit(30)]
    pub fn resize(&self, new_width: usize) -> (r: BUint)
        ensures
            r.width() == new_width,
            r.val() == self.val() % pow2(64 * new_width as nat),
    {
        let n = self.digits.len();
        let mut digits: Vec<u64> = Vec::new();
        let mut i: usize = 0;
        let keep = if new_width < n {
            new_width
        } else {
            n
        };
        while i < keep
            invariant
                i <= keep,
                keep <= n,
                n == self.digits@.len(),
                digits@.len() == i,
                forall|j: int| 0 <= j < i ==> digits@[j] == self.digits@[j],
            decreases keep - i,
        {
            digits.push(self.digits[i]);
            i += 1;
        }
        while i < new_width
            invariant
                keep <= i <= new_width || (i == keep && keep <= new_width),
                digits@.len() == i,
                forall|j: int| 0 <= j < keep ==> digits@[j] == self.digits@[j],
                forall|j: int| keep <= j < i ==> digits@[j] == 0,
                keep <= n,
                n == self.digits@.len(),
            decreases new_width - i,
        {
            digits.push(0);
            i += 1;
        }
        let r = BUint { digits };
        proof {
            lemma_pow2_pos(64 * new_width as nat);
            if new_width < n {
                assert(r.digits@ =~= self.digits@.take(new_width as int));
                lemma_val_seq_split(self.digits@, new_width as int);
                lemma_val_seq_bound(r.digits@);
                let p = pow2(64 * new_width as nat) as int;
                let hi = val_seq(self.digits@.skip(new_width as int)) as int;
                assert(self.val() == r.val() + p * hi);
                lemma_mod_multiples_vanish(hi, r.val() as int, p);
                assert((p * hi + r.val()) % p == r.val() as int % p);
                lemma_small_mod(r.val(), p as nat);
                assert(r.val() as int % p == r.val());
                assert(self.val() as int == p * hi + r.val());
                assert(self.val() as int % p == r.val());
            } else {
                assert(r.digits@.take(n as int) =~= self.digits@);
                assert(forall|j: int| n <= j < r.digits@.len() ==> r.digits@[j] == 0);
                lemma_val_seq_split(r.digits@, n as int);
                lemma_val_seq_zero(r.digits@.skip(n as int));
                assert(val_seq(r.digits@.skip(n as int)) == 0);
                lemma_val_seq_bound(r.digits@);
                lemma_small_mod(r.val(), pow2(64 * new_width as nat));
            }
        }
        r
    }
}

impl BUint {
    /// Whether every bit in positions `lo..hi` is clear: the bit field there
    /// is zero.
    pub fn bits_clear_in(&self, lo: usize, hi: usize) -> (r: bool)
        requires
            lo <= hi,
            hi <= 64 * self.width(),
        ensures
            r <==> bit_field(self.val(), lo as nat, (hi - lo) as nat) == 0,
    {
        proof {
            lemma_field_zero_iff_bits(self.val(), lo as nat, (hi - lo) as nat);
        }
        let mut k: usize = lo;
        while k < hi
            invariant
                lo <= k <= hi,
                hi <= 64 * self.width(),
                forall|j: nat| lo <= j < k ==> !nth_bit(self.val(), j),
            decreases hi - k,
        {
            if self.get_bit(k) {
                proof {
                    lemma_field_zero_iff_bits(self.val(), lo as nat, (hi - lo) as nat);
                }
                return false;
            }
            k += 1;
        }
        true
    }

    /// Whether every bit in positions `lo..hi` is set: the bit field there is
    /// all ones.
    pub fn bits_set_in(&self, lo: usize, hi: usize) -> (r: bool)
        requires
            lo <= hi,
            hi <= 64 * self.width(),
        ensures
            r <==> bit_field(self.val(), lo as nat, (hi - lo) as nat) == pow2((hi - lo) as nat) - 1,
    {
        proof {
            lemma_field_ones_iff_bits(self.val(), lo as nat, (hi - lo) as nat);
        }
        let mut k: usize = lo;
        while k < hi
            invariant
                lo <= k <= hi,
                hi <= 64 * self.width(),
                forall|j: nat| lo <= j < k ==> nth_bit(self.val(), j),
            decreases hi - k,
        {
            if !self.get_bit(k) {
                proof {
                    lemma_field_ones_iff_bits(self.val(), lo as nat, (hi - lo) as nat);
                }
                return false;
            }
            k += 1;
        }
        true
    }
}

impl BUint {
    /// Shifts left by whole digits: the low `k` digits become zero and the
    /// top `k` digits fall off.
    fn shift_digits_left(&self, k: usize) -> (r: BUint)
        requires
            k <= self.width(),
        ensures
            r.width() == self.width(),
            r.val() == ((self.val() * pow2(64 * k as nat)) as int) % (self.modulus() as int),
    {
        let n = self.digits.len();
        let mut digits: Vec<u64> = Vec::new();
        let mut i: usize = 0;
        while i < k
            invariant
                i <= k,
                digits@.len() == i,
                forall|j: int| 0 <= j < i ==> digits@[j] == 0,
            decreases k - i,
        {
            digits.push(0);
            i += 1;
        }
        let mut j: usize = 0;
        while j < n - k
            invariant
                k <= n,
                n == self.digits@.len(),
                j <= n - k,
                digits@.len() == k + j,
                forall|x: int| 0 <= x < k ==> digits@[x] == 0,
                forall|x: int| 0 <= x < j ==> digits@[k + x] == self.digits@[x],
            decreases n - k - j,
        {
            digits.push(self.digits[j]);
            j += 1;
        }
        let r = BUint { digits };
        proof {
            let w = n as int;
            let kk = k as int;
            let a = pow2(64 * k as nat) as int;
            let m = self.modulus() as int;
            let nn = pow2(64 * (n - k) as nat) as int;
            lemma_pow2_adds(64 * k as nat, 64 * (n - k) as nat);
            assert(64 * k as nat + 64 * (n - k) as nat == 64 * n as nat) by (nonlinear_arith)
                requires
                    k <= n,
            ;
            assert(m == a * nn);
            lemma_pow2_pos(64 * k as nat);
            lemma_pow2_pos(64 * (n - k) as nat);
            // the result splits into k zero digits and the kept low digits
            lemma_val_seq_split(r.digits@, kk);
            lemma_val_seq_zero(r.digits@.take(kk));
            assert(r.digits@.skip(kk) =~= self.digits@.take(w - kk));
            assert(r.val() == a * val_seq(self.digits@.take(w - kk)));
            // the kept digits are the value reduced at the narrower width
            lemma_val_seq_split(self.digits@, w - kk);
            lemma_val_seq_bound(self.digits@.take(w - kk));
            let lo = val_seq(self.digits@.take(w - kk)) as int;
            let hi = val_seq(self.digits@.skip(w - kk)) as int;
            assert(self.val() == lo + nn * hi);
            // multiplying by the shift weight turns the dropped part into
            // whole multiples of the modulus
            assert((lo + nn * hi) * a == a * lo + m * hi) by (nonlinear_arith)
                requires
                    m == a * nn,
            ;
            assert(a * lo < m) by (nonlinear_arith)
                requires
                    lo < nn,
                    a >= 1,
                    nn >= 1,
                    m == a * nn,
                    lo >= 0,
            ;
            assert(a * lo >= 0) by (nonlinear_arith)
                requires
                    a >= 0,
                    lo >= 0,
            ;
            lemma_mod_multiples_vanish(hi, a * lo, m);
            lemma_small_mod((a * lo) as nat, m as nat);
            assert((self.val() * a) % m == a * lo);
            assert(a * lo == lo * a) by (nonlinear_arith);
        }
        r
    }

    /// Shifts right by whole digits: the low `k` digits fall off and the top
    /// `k` digits become zero.
    fn shift_digits_right(&self, k: usize) -> (r: BUint)
        requires
            k <= self.width(),
        ensures
            r.width() == self.width(),
            r.val() == self.val() / pow2(64 * k as nat),
    {
        let n = self.digits.len();
        let mut digits: Vec<u64> = Vec::new();
        let mut i: usize = k;
        while i < n
            invariant
                k <= i <= n,
                n == self.digits@.len(),
                digits@.len() == i - k,
                forall|x: int| 0 <= x < i - k ==> digits@[x] == self.digits@[k + x],
            decreases n - i,
        {
            digits.push(self.digits[i]);
            i += 1;
        }
        let mut j: usize = n - k;
        while j < n
            invariant
                k <= n,
                n - k <= j <= n,
                n == self.digits@.len(),
                digits@.len() == j,
                forall|x: int| 0 <= x < n - k ==> digits@[x] == self.digits@[k + x],
                forall|x: int| n - k <= x < j ==> digits@[x] == 0,
            decreases n - j,
        {
            let ghost old_d = digits@;
            digits.push(0);
            proof {
                assert forall|x: int| n - k <= x < j + 1 implies digits@[x] == 0 by {
                    if x < j {
                        assert(digits@[x] == old_d[x]);
                    }
                }
            }
            j += 1;
        }
        let r = BUint { digits };
        proof {
            let w = n as int;
            let kk = k as int;
            lemma_pow2_pos(64 * k as nat);
            lemma_val_seq_split(r.digits@, w - kk);
            lemma_val_seq_zero(r.digits@.skip(w - kk));
            assert(val_seq(r.digits@.skip(w - kk)) == 0);
            assert(r.digits@.take(w - kk) =~= self.digits@.skip(kk));
            assert(r.val() == val_seq(self.digits@.skip(kk)) + pow2(64 * (n - k) as nat) * 0);
            lemma_val_seq_split(self.digits@, kk);
            lemma_val_seq_bound(self.digits@.take(kk));
            assert(self.digits@.take(kk).len() == kk);
            lemma_div_multiples_vanish_fancy(
                val_seq(self.digits@.skip(kk)) as int,
                val_seq(self.digits@.take(kk)) as int,
                pow2(64 * k as nat) as int,
            );
        }
        r
    }

    /// Left shift modulo the bit width: the shift amount is reduced modulo
    /// the total number of bits, and bits pushed past the top are discarded.
    pub fn wrapping_shl(&self, n: u32) -> (r: BUint)
        requires
            self.width() >= 1,
            64 * self.width() <= usize::MAX,
        ensures
            r.width() == self.width(),
            r.val() == ((self.val() * pow2(n as nat % (64 * self.width()))) as int) % (
            self.modulus() as int),
    {
        let total = 64 * self.digits.len();
        let sh = (n as usize) % total;
        let k = sh / 64;
        let t: u64 = (sh % 64) as u64;
        proof {
            lemma_fundamental_div_mod(sh as int, 64);
            lemma_mod_division_less_than_divisor(sh as int, 64);
            assert(k <= self.width()) by (nonlinear_arith)
                requires
                    sh < 64 * self.width(),
                    sh == 64 * k + t,
                    t >= 0,
            ;
            lemma2_to64();
            lemma2_to64_rest();
            lemma_pow2_strictly_increases(t as nat, 64);
        }
        let a = self.shift_digits_left(k);
        let factor: u64 = 1u64 << t;
        proof {
            vstd::bits::lemma_u64_shl_is_mul(1u64, t);
            lemma_mul_basics(pow2(t as nat) as int);
        }
        let (b, carry) = a.mul_digit_add_digit(factor, 0);
        proof {
            let m = self.modulus() as int;
            let v = self.val() as int;
            let pa = pow2(64 * k as nat) as int;
            let pt = pow2(t as nat) as int;
            lemma_pow2_pos(64 * self.width());
            lemma_val_seq_bound(b.digits@);
            lemma_fundamental_div_mod_converse(
                a.val() * pt,
                m,
                carry as int,
                b.val() as int,
            );
            assert(b.val() == (a.val() * pt) % m);
            lemma_mul_mod_noop_left(v * pa, pt, m);
            assert((v * pa) * pt == v * (pa * pt)) by (nonlinear_arith);
            lemma_pow2_adds(64 * k as nat, t as nat);
            assert(64 * k as nat + t as nat == sh as nat);
        }
        b
    }

    /// Right shift modulo the bit width: the shift amount is reduced modulo
    /// the total number of bits, and bits pushed past the bottom are
    /// discarded.
    pub fn wrapping_shr(&self, n: u32) -> (r: BUint)
        requires
            self.width() >= 1,
            64 * self.width() <= usize::MAX,
        ensures
            r.width() == self.width(),
            r.val() == self.val() / pow2(n as nat % (64 * self.width())),
    {
        let total = 64 * self.digits.len();
        let sh = (n as usize) % total;
        let k = sh / 64;
        let t: u64 = (sh % 64) as u64;
        proof {
            lemma_fundamental_div_mod(sh as int, 64);
            lemma_mod_division_less_than_divisor(sh as int, 64);
            assert(k <= self.width()) by (nonlinear_arith)
                requires
                    sh < 64 * self.width(),
                    sh == 64 * k + t,
                    t >= 0,
            ;
            lemma2_to64();
            lemma2_to64_rest();
            lemma_pow2_strictly_increases(t as nat, 64);
        }
        let a = self.shift_digits_right(k);
        let factor: u64 = 1u64 << t;
        proof {
            vstd::bits::lemma_u64_shl_is_mul(1u64, t);
            lemma_mul_basics(pow2(t as nat) as int);
            lemma_pow2_pos(t as nat);
        }
        let (q, _rem) = a.div_rem_digit(factor);
        proof {
            lemma_fundamental_div_mod_converse(
                a.val() as int,
                factor as int,
                q.val() as int,
                _rem as int,
            );
            lemma_pow2_pos(64 * k as nat);
            lemma_div_denominator(
                self.val() as int,
                pow2(64 * k as nat) as int,
                pow2(t as nat) as int,
            );
            lemma_pow2_adds(64 * k as nat, t as nat);
            assert(64 * k as nat + t as nat == sh as nat);
        }
        q
    }

    /// Left shift that reports whether the shift amount was reduced: the flag
    /// is set exactly when the amount reaches the bit width.
    pub fn overflowing_shl(&self, n: u32) -> (r: (BUint, bool))
        requires
            self.width() >= 1,
            64 * self.width() <= usize::MAX,
        ensures
            r.0.width() == self.width(),
            r.0.val() == ((self.val() * pow2(n as nat % (64 * self.width()))) as int) % (
            self.modulus() as int),
            r.1 <==> n >= 64 * self.width(),
    {
        let total = 64 * self.digits.len();
        let big = (n as usize) >= total;
        (self.wrapping_shl(n), big)
    }

    /// Right shift that reports whether the shift amount was reduced.
    pub fn overflowing_shr(&self, n: u32) -> (r: (BUint, bool))
        requires
            self.width() >= 1,
            64 * self.width() <= usize::MAX,
        ensures
            r.0.width() == self.width(),
            r.0.val() == self.val() / pow2(n as nat % (64 * self.width())),
            r.1 <==> n >= 64 * self.width(),
    {
        let total = 64 * self.digits.len();
        let big = (n as usize) >= total;
        (self.wrapping_shr(n), big)
    }

    /// Left shift that returns no value when the amount reaches the bit
    /// width; otherwise every discarded bit really left the top.
    pub fn checked_shl(&self, n: u32) -> (r: Option<BUint>)
        requires
            self.width() >= 1,
            64 * self.width() <= usize::MAX,
        ensures
            r is Some <==> n < 64 * self.width(),
            r is Some ==> r->Some_0.width() == self.width(),
            r is Some ==> r->Some_0.val() == ((self.val() * pow2(n as nat)) as int) % (
            self.modulus() as int),
    {
        let total = 64 * self.digits.len();
        if (n as usize) >= total {
            None
        } else {
            proof {
                lemma_small_mod(n as nat, (64 * self.width()) as nat);
            }
            Some(self.wrapping_shl(n))
        }
    }

    /// Right shift that returns no value when the amount reaches the bit
    /// width.
    pub fn checked_shr(&self, n: u32) -> (r: Option<BUint>)
        requires
            self.width() >= 1,
            64 * self.width() <= usize::MAX,
        ensures
            r is Some <==> n < 64 * self.width(),
            r is Some ==> r->Some_0.width() == self.width(),
            r is Some ==> r->Some_0.val() == self.val() / pow2(n as nat),
    {
        let total = 64 * self.digits.len();
        if (n as usize) >= total {
            None
        } else {
            proof {
                lemma_small_mod(n as nat, (64 * self.width()) as nat);
            }
            Some(self.wrapping_shr(n))
        }
    }
}

impl BUint {
    /// The exact double-width product: no digit of either factor is lost.
    fn widening_mul(&self, rhs: &BUint) -> (r: BUint)
        requires
            self.same_width(*rhs),
            self.width() >= 1,
            128 * self.width() <= usize::MAX,
        ensures
            r.width() == 2 * self.width(),
            r.val() == self.val() * rhs.val(),
    {
        let n = self.digits.len();
        let wide = self.resize(2 * n);
        let mut acc = BUint::zero(2 * n);
        let ghost m2 = pow2((128 * n) as nat);
        proof {
            lemma_val_seq_bound(self.digits@);
            lemma_val_seq_bound(rhs.digits@);
            assert(64 * (2 * n) as nat == 128 * n as nat) by (nonlinear_arith);
            assert(pow2(64 * n as nat) <= pow2((128 * n) as nat)) by {
                if (64 * n as nat) < (128 * n as nat) {
                    lemma_pow2_strictly_increases(64 * n as nat, (128 * n) as nat);
                }
            }
            lemma_small_mod(self.val(), pow2((128 * n) as nat));
            assert(rhs.digits@.take(0) =~= Seq::<u64>::empty());
            assert(self.val() * 0 == 0) by (nonlinear_arith);
        }
        let mut i: usize = 0;
        while i < n
            invariant
                i <= n,
                n >= 1,
                n == self.digits@.len(),
                n == rhs.digits@.len(),
                128 * n <= usize::MAX,
                wide.width() == 2 * n,
                wide.val() == self.val(),
                acc.width() == 2 * n,
                acc.val() == self.val() * val_seq(rhs.digits@.take(i as int)),
            decreases n - i,
        {
            let ghost m2 = pow2((128 * n) as nat);
            let ghost mn = pow2((64 * n) as nat);
            let ghost b64 = pow2(64);
            let d = rhs.digits[i];
            proof {
                lemma2_to64();
                lemma_val_seq_bound(self.digits@);
                lemma_val_seq_bound(rhs.digits@);
                lemma_val_seq_bound(rhs.digits@.take(i as int));
                assert(64 * (2 * n) as nat == 128 * n as nat) by (nonlinear_arith);
                lemma_pow2_adds((64 * n) as nat, 64);
                lemma_pow2_adds((64 * n) as nat, (64 * n) as nat);
                assert(64 * n as nat + 64 * n as nat == 128 * n as nat) by (nonlinear_arith);
                assert(64 * n as nat + 64 == 64 * (n + 1) as nat) by (nonlinear_arith);
                // one digit row stays below the double width
                assert(wide.val() * d + 0 < mn * b64) by (nonlinear_arith)
                    requires
                        wide.val() < mn,
                        d < b64,
                        mn >= 1,
                        b64 >= 1,
                ;
                assert(mn * b64 <= m2) by {
                    if (64 * n as nat + 64) < (128 * n as nat) {
                        lemma_pow2_strictly_increases(
                            (64 * n as nat + 64) as nat,
                            (128 * n) as nat,
                        );
                    }
                }
            }
            let (row, row_carry) = wide.mul_digit_add_digit(d, 0);
            proof {
                lemma_val_seq_bound(row.digits@);
                assert(64 * (2 * n) as nat == 128 * n as nat) by (nonlinear_arith);
                assert(wide.modulus() == m2);
                assert(row.val() + row_carry * m2 == wide.val() * d);
                assert(row_carry == 0) by {
                    if row_carry >= 1 {
                        assert(row_carry * m2 >= m2) by (nonlinear_arith)
                            requires
                                row_carry >= 1,
                                m2 >= 0,
                        ;
                        assert(row.val() + row_carry * m2 >= m2);
                        assert(wide.val() * d < m2);
                        assert(false);
                    }
                }
                assert(row_carry * m2 == 0) by (nonlinear_arith)
                    requires
                        row_carry == 0,
                ;
                assert(row.val() == wide.val() * d);
            }
            let shifted = row.shift_digits_left(i);
            proof {
                let mi = pow2((64 * i) as nat);
                lemma_pow2_adds((64 * (n + 1)) as nat, (64 * i) as nat);
                // shifting the row inside the double width loses nothing
                assert(row.val() * mi < m2) by {
                    assert(row.val() < pow2((64 * (n + 1)) as nat)) by {
                        assert(row.val() < mn * b64);
                        lemma_pow2_adds((64 * n) as nat, 64);
                        assert(64 * n as nat + 64 == 64 * (n + 1) as nat) by (nonlinear_arith);
                    }
                    assert(row.val() * mi < pow2((64 * (n + 1)) as nat) * mi)
                        by (nonlinear_arith)
                        requires
                            row.val() < pow2((64 * (n + 1)) as nat),
                            mi >= 1,
                    ;
                    lemma_pow2_pos((64 * i) as nat);
                    assert(64 * (n + 1) as nat + 64 * i as nat <= 128 * n as nat)
                        by (nonlinear_arith)
                        requires
                            i < n,
                            n >= 1,
                    ;
                    assert(pow2((64 * (n + 1)) as nat) * mi <= m2) by {
                        lemma_pow2_adds((64 * (n + 1)) as nat, (64 * i) as nat);
                        if (64 * (n + 1) as nat + 64 * i as nat) < (128 * n as nat) {
                            lemma_pow2_strictly_increases(
                                (64 * (n + 1) as nat + 64 * i as nat) as nat,
                                (128 * n) as nat,
                            );
                        }
                    }
                }
                lemma_pow2_pos((64 * i) as nat);
                lemma_pow2_pos((128 * n) as nat);
                lemma_small_mod((row.val() * pow2((64 * i) as nat)) as nat, m2);
                assert(64 * (2 * n) as nat == 128 * n as nat) by (nonlinear_arith);
                assert(shifted.val() == row.val() * pow2((64 * i) as nat));
            }
            proof {
                // the accumulated total stays below the double width
                let vt = val_seq(rhs.digits@.take(i as int)) as int;
                lemma_val_seq_take_succ(rhs.digits@, i as int);
                let vt1 = val_seq(rhs.digits@.take(i as int + 1)) as int;
                assert(vt1 == vt + d * pow2((64 * i) as nat));
                assert(self.val() * vt1 == self.val() * vt + (self.val() * d) * pow2(
                    (64 * i) as nat,
                )) by (nonlinear_arith)
                    requires
                        vt1 == vt + d * pow2((64 * i) as nat),
                ;
                assert(shifted.val() == (self.val() * d) * pow2((64 * i) as nat))
                    by (nonlinear_arith)
                    requires
                        shifted.val() == row.val() * pow2((64 * i) as nat),
                        row.val() == self.val() * d,
                ;
                lemma_val_seq_bound(rhs.digits@.take(i as int + 1));
                assert(rhs.digits@.take(i as int + 1).len() == i + 1);
                assert(vt1 < mn) by {
                    assert(vt1 < pow2((64 * (i + 1)) as nat));
                    if (64 * (i + 1) as nat) < (64 * n as nat) {
                        lemma_pow2_strictly_increases(
                            (64 * (i + 1)) as nat,
                            (64 * n) as nat,
                        );
                    } else {
                        assert(64 * (i + 1) as nat == 64 * n as nat) by (nonlinear_arith)
                            requires
                                i + 1 == n,
                        ;
                    }
                }
                assert(self.val() * vt1 < m2) by (nonlinear_arith)
                    requires
                        self.val() < mn,
                        vt1 < mn,
                        m2 == mn * mn,
                        vt1 >= 0,
                ;
                lemma_pow2_adds((64 * n) as nat, (64 * n) as nat);
                assert(64 * n as nat + 64 * n as nat == 128 * n as nat) by (nonlinear_arith);
            }
            let next = acc.add(&shifted);
            acc = next;
            i += 1;
        }
        proof {
            assert(rhs.digits@.take(n as int) =~= rhs.digits@);
        }
        acc
    }

    /// Multiplication reporting overflow: the truncated product and a flag
    /// that is set exactly when digits above the width were lost.
    pub fn overflowing_mul(&self, rhs: &BUint) -> (r: (BUint, bool))
        requires
            self.same_width(*rhs),
            self.width() >= 1,
            128 * self.width() <= usize::MAX,
        ensures
            r.0.width() == self.width(),
            r.0.val() == ((self.val() * rhs.val()) as int) % (self.modulus() as int),
            r.1 == mul_overflows(self.val(), rhs.val(), self.modulus()),
    {
        let n = self.digits.len();
        let product = self.widening_mul(rhs);
        let truncated = product.resize(n);
        let high_clear = product.bits_clear_in(64 * n, 128 * n);
        proof {
            let m = pow2((64 * n) as nat) as int;
            let p = product.val() as int;
            lemma_pow2_pos((64 * n) as nat);
            lemma_pow2_pos((128 * n) as nat);
            lemma_val_seq_bound(product.digits@);
            assert(64 * (2 * n) as nat == 128 * n as nat) by (nonlinear_arith);
            lemma_pow2_adds((64 * n) as nat, (64 * n) as nat);
            assert(64 * n as nat + 64 * n as nat == 128 * n as nat) by (nonlinear_arith);
            // the high half is zero exactly when the product fits the width
            assert(bit_field(product.val(), (64 * n) as nat, (64 * n) as nat) == (p / m) % m);
            lemma_multiply_divide_lt(p, m, m);
            lemma_small_mod((p / m) as nat, m as nat);
            assert((p / m) % m == p / m);
            if p < m {
                lemma_basic_div(p, m);
            } else {
                lemma_div_non_zero(p, m);
            }
        }
        (truncated, !high_clear)
    }

    /// Multiplication that returns no value when the product overflows the
    /// width.
    pub fn checked_mul(&self, rhs: &BUint) -> (r: Option<BUint>)
        requires
            self.same_width(*rhs),
            self.width() >= 1,
            128 * self.width() <= usize::MAX,
        ensures
            r is Some <==> !mul_overflows(self.val(), rhs.val(), self.modulus()),
            r is Some ==> (r->Some_0.val() == self.val() * rhs.val() && r->Some_0.width()
                == self.width()),
    {
        let (p, overflow) = self.overflowing_mul(rhs);
        if overflow {
            None
        } else {
            proof {
                lemma_pow2_pos(64 * self.width());
                lemma_small_mod((self.val() * rhs.val()) as nat, self.modulus());
            }
            Some(p)
        }
    }

    /// Multiplication modulo `pow2(64 * width)`: overflow is silently
    /// discarded.
    pub fn wrapping_mul(&self, rhs: &BUint) -> (r: BUint)
        requires
            self.same_width(*rhs),
            self.width() >= 1,
            128 * self.width() <= usize::MAX,
        ensures
            r.width() == self.width(),
            r.val() == ((self.val() * rhs.val()) as int) % (self.modulus() as int),
    {
        let (p, _) = self.overflowing_mul(rhs);
        p
    }

    /// Multiplication that clamps to the width's maximum on overflow.
    pub fn saturating_mul(&self, rhs: &BUint) -> (r: BUint)
        requires
            self.same_width(*rhs),
            self.width() >= 1,
            128 * self.width() <= usize::MAX,
        ensures
            r.width() == self.width(),
            r.val() == if mul_overflows(self.val(), rhs.val(), self.modulus()) {
                (self.modulus() - 1) as nat
            } else {
                self.val() * rhs.val()
            },
    {
        let (p, overflow) = self.overflowing_mul(rhs);
        if overflow {
            BUint::max_value(self.digits.len())
        } else {
            proof {
                lemma_pow2_pos(64 * self.width());
                lemma_small_mod((self.val() * rhs.val()) as nat, self.modulus());
            }
            p
        }
    }

    /// Plain multiplication. Overflow is a programmer error here; callers
    /// must keep the product within the width.
    pub fn mul(&self, rhs: &BUint) -> (r: BUint)
        requires
            self.same_width(*rhs),
            self.width() >= 1,
            128 * self.width() <= usize::MAX,
            self.val() * rhs.val() < self.modulus(),
        ensures
            r.width() == self.width(),
            r.val() == self.val() * rhs.val(),
    {
        proof {
            lemma_pow2_pos(64 * self.width());
            lemma_small_mod((self.val() * rhs.val()) as nat, self.modulus());
        }
        let (p, _) = self.overflowing_mul(rhs);
        p
    }
}

/// The product of `x` and `y` does not fit below the modulus `m`.
pub open spec fn mul_overflows(x: nat, y: nat, m: nat) -> bool {
    x * y >= m
}

/// The sum of `x` and `y` does not fit below the modulus `m`.
pub open spec fn add_overflows(x: nat, y: nat, m: nat) -> bool {
    x + y >= m
}

/// The sum of `x` and `y` truncated modulo `m`.
pub open spec fn wrapped_sum(x: nat, y: nat, m: nat) -> nat {
    (((x + y) as int) % (m as int)) as nat
}

/// The difference `x - y` would be negative.
pub open spec fn sub_underflows(x: nat, y: nat) -> bool {
    x < y
}

/// Overflow family consistency for addition: the checked variant returns no
/// value exactly when the overflowing variant reports truncation; when that
/// happens the wrapping variant returns the sum reduced by exactly one
/// modulus, and otherwise it returns the exact sum. Together with the
/// contracts of `checked_add`, `overflowing_add`, `wrapping_add` and
/// `saturating_add`, this ties the four policies to one mathematical sum.
pub proof fn lemma_add_family_consistency(x: nat, y: nat, m: nat)
    requires
        m >= 1,
        x < m,
        y < m,
    ensures
        add_overflows(x, y, m) ==> wrapped_sum(x, y, m) == x + y - m,
        !add_overflows(x, y, m) ==> wrapped_sum(x, y, m) == x + y,
        wrapped_sum(x, y, m) == x + y <==> !add_overflows(x, y, m),
{
    let s = x + y;
    if s >= m {
        lemma_mod_sub_multiples_vanish(s as int, m as int);
        lemma_small_mod((s - m) as nat, m);
    } else {
        lemma_small_mod(s, m);
    }
}

/// Overflow family consistency for multiplication: as for addition, the
/// checked variant returns no value exactly when the overflowing variant
/// reports truncation; the wrapping variant returns the product reduced
/// modulo the width, which is the exact product precisely when no overflow
/// happened. Together with the contracts of `checked_mul`, `overflowing_mul`,
/// `wrapping_mul` and `saturating_mul`, this ties the four policies to one
/// mathematical product.
pub proof fn lemma_mul_family_consistency(x: nat, y: nat, m: nat)
    requires
        m >= 1,
    ensures
        !mul_overflows(x, y, m) ==> ((x * y) as int) % (m as int) == x * y,
        mul_overflows(x, y, m) ==> ((x * y) as int) % (m as int) < x * y,
{
    lemma_mul_nonnegative(x as int, y as int);
    if x * y < m {
        lemma_small_mod(x * y, m);
    } else {
        lemma_mod_bound((x * y) as int, m as int);
    }
}

/// Ordering totality: for any two values, unsigned or signed, exactly one
/// of less-than, equal and greater-than holds. Together with the contracts
/// of the unsigned and the signed `cmp` — each returns `Less`, `Equal` or
/// `Greater` exactly when the corresponding relation holds on the values —
/// exactly one ordering is ever reported.
pub proof fn lemma_ordering_totality(x: int, y: int)
    ensures
        x < y || x == y || x > y,
        !(x < y && x == y),
        !(x == y && x > y),
        !(x < y && x > y),
{
}

/// Cross-validation with the native 64-bit width: at one digit, the engine's
/// wrapping sum, difference and product equal the native `u64` wrapping
/// operations, and overflow happens exactly when the native checked
/// operation fails. Together with the contracts of `from_digit`,
/// `wrapping_add`, `wrapping_sub`, `wrapping_mul`, `overflowing_add`,
/// `div_rem` and `cmp`, each width-one result is bit-identical to the native
/// 64-bit result; division needs no clause of its own, since both sides are
/// the quotient and remainder of the same natural numbers.
pub proof fn lemma_native_u64_agreement(x: u64, y: u64)
    ensures
        wrapped_sum(x as nat, y as nat, pow2(64)) == vstd::wrapping::u64_specs::wrapping_add(x, y),
        (((x as int - y as int) % (pow2(64) as int)) as nat)
            == vstd::wrapping::u64_specs::wrapping_sub(x, y),
        add_overflows(x as nat, y as nat, pow2(64)) <==> x as nat + y as nat > u64::MAX,
        sub_underflows(x as nat, y as nat) <==> x < y,
        (((x as nat * y as nat) as int) % (pow2(64) as int)) as nat
            == vstd::wrapping::u64_specs::wrapping_mul(x, y),
        mul_overflows(x as nat, y as nat, pow2(64)) <==> x as nat * y as nat > u64::MAX,
{
    lemma2_to64();
    let m = pow2(64) as int;
    let sum = x as int + y as int;
    if sum >= m {
        lemma_mod_sub_multiples_vanish(sum, m);
        lemma_small_mod((sum - m) as nat, m as nat);
    } else {
        lemma_small_mod(sum as nat, m as nat);
    }
    let diff = x as int - y as int;
    if diff >= 0 {
        lemma_small_mod(diff as nat, m as nat);
    } else {
        lemma_mod_add_multiples_vanish(diff, m);
        lemma_small_mod((diff + m) as nat, m as nat);
    }
}

/// Cross-validation with the native 128-bit width: at two digits, the
/// engine's wrapping sum, difference and product equal the native `u128`
/// wrapping operations. Together with the contracts of `from_u128`,
/// `wrapping_add`, `wrapping_sub`, `wrapping_mul`, `overflowing_add`,
/// `div_rem` and `cmp`, each width-two result is bit-identical to the native
/// 128-bit result.
pub proof fn lemma_native_u128_agreement(x: u128, y: u128)
    ensures
        wrapped_sum(x as nat, y as nat, pow2(128)) == vstd::wrapping::u128_specs::wrapping_add(
            x,
            y,
        ),
        (((x as int - y as int) % (pow2(128) as int)) as nat)
            == vstd::wrapping::u128_specs::wrapping_sub(x, y),
        add_overflows(x as nat, y as nat, pow2(128)) <==> x as nat + y as nat > u128::MAX,
        (((x as nat * y as nat) as int) % (pow2(128) as int)) as nat
            == vstd::wrapping::u128_specs::wrapping_mul(x, y),
        mul_overflows(x as nat, y as nat, pow2(128)) <==> x as nat * y as nat > u128::MAX,
{
    lemma2_to64();
    lemma_pow2_adds(64, 64);
    assert(pow2(128) == 0x1_0000_0000_0000_0000_0000_0000_0000_0000);
    let m = pow2(128) as int;
    let sum = x as int + y as int;
    if sum >= m {
        lemma_mod_sub_multiples_vanish(sum, m);
        lemma_small_mod((sum - m) as nat, m as nat);
    } else {
        lemma_small_mod(sum as nat, m as nat);
    }
    let diff = x as int - y as int;
    if diff >= 0 {
        lemma_small_mod(diff as nat, m as nat);
    } else {
        lemma_mod_add_multiples_vanish(diff, m);
        lemma_small_mod((diff + m) as nat, m as nat);
    }
}

} // verus!
