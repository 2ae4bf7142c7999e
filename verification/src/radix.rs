//! Radix conversion: between a `BUint` and digit sequences in any base from
//! 2 to 256, and between a `BUint` and strings in any base from 2 to 36.
use vstd::prelude::*;
use vstd::arithmetic::power2::*;
use vstd::arithmetic::mul::*;
use vstd::arithmetic::div_mod::*;
use vstd::arithmetic::power::pow;
use crate::buint::BUint;
use vstd::string::StringSliceAdditionalSpecFns;
use crate::value::{
    be_radix_val, le_radix_val, le_canonical, fixed_le_digits, digits_below,
    lemma_le_canonical_correct, lemma_le_canonical_chunk, lemma_be_is_reversed_le,
    lemma_be_radix_prefix_le, lemma_val_seq_bound,
};

verus! {

/// The little-endian digits that formatting a value in radix `r` produces:
/// the canonical digits, except that zero is written as one zero digit.
pub open spec fn le_digits_of(v: nat, r: nat) -> Seq<u8> {
    if v == 0 {
        seq![0u8]
    } else {
        le_canonical(v, r)
    }
}

/// The big-endian digits that formatting a value in radix `r` produces.
pub open spec fn be_digits_of(v: nat, r: nat) -> Seq<u8> {
    le_digits_of(v, r).reverse()
}

/// Floor of the base-two logarithm: the result satisfies
/// `pow2(r) <= a < pow2(r + 1)`.
pub fn ilog2(a: u32) -> (r: u8)
    requires
        a >= 1,
    ensures
        pow2(r as nat) <= a < pow2(r as nat + 1),
        r < 32,
{
    proof {
        lemma2_to64();
    }
    let mut x: u32 = a;
    let mut r: u8 = 0;
    while x >= 2
        invariant
            a >= 1,
            r < 32,
            1 <= x,
            x == a as nat / pow2(r as nat),
            pow2(r as nat) <= a,
        decreases x,
    {
        proof {
            lemma2_to64();
            lemma_pow2_adds(r as nat, 1);
            lemma_pow2_pos(r as nat);
            lemma_div_denominator(a as int, pow2(r as nat) as int, 2);
            assert(a as nat >= pow2(r as nat) * (a as nat / pow2(r as nat))) by {
                lemma_fundamental_div_mod(a as int, pow2(r as nat) as int);
                lemma_mod_division_less_than_divisor(a as int, pow2(r as nat) as int);
            }
            assert(pow2(r as nat + 1) <= a) by (nonlinear_arith)
                requires
                    x >= 2,
                    x == a as nat / pow2(r as nat),
                    pow2(r as nat + 1) == pow2(r as nat) * 2,
                    pow2(r as nat) >= 1,
                    a as nat >= pow2(r as nat) * (a as nat / pow2(r as nat)),
            ;
            assert(r < 31) by {
                if r >= 31 {
                    assert(pow2(32) <= pow2(r as nat + 1)) by {
                        if r as nat + 1 > 32 {
                            lemma_pow2_strictly_increases(32, r as nat + 1);
                        }
                    }
                }
            }
        }
        x = x / 2;
        r = r + 1;
    }
    proof {
        lemma_pow2_pos(r as nat);
        lemma_fundamental_div_mod(a as int, pow2(r as nat) as int);
        lemma_mod_division_less_than_divisor(a as int, pow2(r as nat) as int);
        lemma_pow2_adds(r as nat, 1);
        let p = pow2(r as nat) as int;
        let q = (a as nat / pow2(r as nat)) as int;
        let md = a as int % p;
        assert(a < pow2(r as nat + 1)) by (nonlinear_arith)
            requires
                q == 1,
                a as int == p * q + md,
                md < p,
                pow2(r as nat + 1) == p * 2,
        ;
    }
    r
}

/// Division rounding up: the exact quotient when `b` divides `a`, one more
/// otherwise.
pub fn div_ceil(a: u32, b: u32) -> (r: u32)
    requires
        b >= 1,
    ensures
        r == if a as nat % b as nat == 0 {
            a as nat / b as nat
        } else {
            a as nat / b as nat + 1
        },
{
    proof {
        lemma_div_nonincreasing(a as int, b as int);
        lemma_div_pos_is_pos(a as int, b as int);
    }
    if a % b == 0 {
        a / b
    } else {
        proof {
            assert(b >= 2) by {
                if b == 1 {
                    lemma_mod_multiples_basic(a as int, 1);
                    lemma_mul_basics(a as int);
                }
            }
            lemma_div_is_ordered_by_denominator(a as int, 2, b as int);
        }
        a / b + 1
    }
}

/// The largest power of the radix that fits below the cap: the memoized
/// "big base" that lets one full-width pass consume several radix digits.
fn radix_base_below(radix: u32, cap: u64) -> (r: (u64, usize))
    requires
        2 <= radix <= 256,
        cap >= 256,
    ensures
        r.0 == pow(radix as int, r.1 as nat),
        1 <= r.1,
        2 <= r.0 <= cap,
        r.0 as int * radix as int > cap,
{
    let rd = radix as u64;
    let mut base: u64 = rd;
    let mut power: usize = 1;
    proof {
        vstd::arithmetic::power::lemma_pow1(radix as int);
        lemma2_to64();
    }
    while base <= cap / rd
        invariant
            2 <= radix <= 256,
            cap >= 256,
            rd == radix,
            1 <= power,
            base == pow(radix as int, power as nat),
            2 <= base <= cap,
            pow2(power as nat) <= base,
            power < 64,
        decreases cap - base,
    {
        proof {
            lemma_fundamental_div_mod(cap as int, rd as int);
            lemma_mod_division_less_than_divisor(cap as int, rd as int);
            let qc = cap as int / rd as int;
            assert(base * rd <= cap) by (nonlinear_arith)
                requires
                    base <= qc,
                    cap as int == rd * qc + cap as int % rd as int,
                    cap as int % rd as int >= 0,
                    rd >= 2,
                    base >= 0,
            ;
            assert(base * rd >= 2 * base) by (nonlinear_arith)
                requires
                    rd >= 2,
                    base >= 1,
            ;
            vstd::arithmetic::power::lemma_pow_adds(radix as int, power as nat, 1);
            vstd::arithmetic::power::lemma_pow1(radix as int);
            lemma_pow2_adds(power as nat, 1);
            lemma2_to64();
            // the base at least doubles every round, so the exponent stays
            // far below the machine word
            assert(pow2((power + 1) as nat) <= base * rd) by (nonlinear_arith)
                requires
                    pow2((power + 1) as nat) == pow2(power as nat) * 2,
                    pow2(power as nat) <= base,
                    base * rd >= 2 * base,
            ;
            assert(power + 1 < 64) by {
                if power + 1 >= 64 {
                    assert(pow2(64) <= pow2((power + 1) as nat)) by {
                        if 64 < power + 1 {
                            lemma_pow2_strictly_increases(64, (power + 1) as nat);
                        }
                    }
                }
            }
        }
        base = base * rd;
        power = power + 1;
    }
    proof {
        lemma_fundamental_div_mod(cap as int, rd as int);
        lemma_mod_division_less_than_divisor(cap as int, rd as int);
        let qc = cap as int / rd as int;
        assert(base * rd > cap) by (nonlinear_arith)
            requires
                base >= qc + 1,
                cap as int == rd * qc + cap as int % rd as int,
                (cap as int % rd as int) < rd as int,
                rd >= 2,
        ;
    }
    (base, power)
}

/// The largest power of the radix that fits in one digit.
fn radix_base(radix: u32) -> (r: (u64, usize))
    requires
        2 <= radix <= 256,
    ensures
        r.0 == pow(radix as int, r.1 as nat),
        1 <= r.1,
        2 <= r.0,
        r.0 as int * radix as int > u64::MAX,
{
    radix_base_below(radix, 0xFFFF_FFFF_FFFF_FFFF)
}

/// The largest power of the radix that fits in half a digit, so one
/// division's remainder stays single-digit-safe.
fn radix_base_half(radix: u32) -> (r: (u64, usize))
    requires
        2 <= radix <= 256,
    ensures
        r.0 == pow(radix as int, r.1 as nat),
        1 <= r.1,
        2 <= r.0 <= 0xFFFF_FFFF,
{
    radix_base_below(radix, 0xFFFF_FFFF)
}

/// Horner evaluation of one big-endian chunk of digits into a single machine
/// digit; the chunk must be short enough for its value to fit.
fn chunk_value(buf: &[u8], start: usize, end: usize, radix: u32) -> (r: u64)
    requires
        start <= end <= buf@.len(),
        2 <= radix <= 256,
        forall|j: int| start <= j < end ==> buf@[j] < radix,
        pow(radix as int, (end - start) as nat) <= 0x1_0000_0000_0000_0000,
    ensures
        r == be_radix_val(buf@.subrange(start as int, end as int), radix as nat),
        r < pow(radix as int, (end - start) as nat),
{
    let rd = radix as u64;
    let mut c: u64 = 0;
    let mut j: usize = start;
    proof {
        assert(buf@.subrange(start as int, start as int) =~= Seq::<u8>::empty());
        vstd::arithmetic::power::lemma_pow0(radix as int);
    }
    while j < end
        invariant
            start <= j <= end,
            end <= buf@.len(),
            2 <= radix <= 256,
            rd == radix,
            forall|x: int| start <= x < end ==> buf@[x] < radix,
            pow(radix as int, (end - start) as nat) <= 0x1_0000_0000_0000_0000,
            c == be_radix_val(buf@.subrange(start as int, j as int), radix as nat),
            c < pow(radix as int, (j - start) as nat),
        decreases end - j,
    {
        proof {
            assert(buf@.subrange(start as int, j + 1).drop_last() =~= buf@.subrange(
                start as int,
                j as int,
            ));
            assert(buf@.subrange(start as int, j + 1).last() == buf@[j as int]);
            let pj = pow(radix as int, (j - start) as nat);
            vstd::arithmetic::power::lemma_pow_positive(radix as int, (j - start) as nat);
            vstd::arithmetic::power::lemma_pow_adds(radix as int, (j - start) as nat, 1);
            vstd::arithmetic::power::lemma_pow1(radix as int);
            assert(c * rd + buf@[j as int] < pj * radix) by (nonlinear_arith)
                requires
                    c < pj,
                    buf@[j as int] < radix,
                    rd == radix,
                    radix >= 2,
                    pj >= 1,
                    c >= 0,
            ;
            assert(pow(radix as int, (j + 1 - start) as nat) <= pow(
                radix as int,
                (end - start) as nat,
            )) by {
                vstd::arithmetic::power::lemma_pow_increases(
                    radix as nat,
                    (j + 1 - start) as nat,
                    (end - start) as nat,
                );
            }
        }
        c = c * rd + buf[j] as u64;
        j += 1;
    }
    c
}

/// Reverses a byte sequence.
fn reversed(buf: &[u8]) -> (r: Vec<u8>)
    ensures
        r@ == buf@.reverse(),
{
    let n = buf.len();
    let mut out: Vec<u8> = Vec::new();
    let mut i: usize = n;
    while i > 0
        invariant
            i <= n,
            n == buf@.len(),
            out@.len() == n - i,
            forall|j: int| 0 <= j < n - i ==> out@[j] == buf@[n - 1 - j],
        decreases i,
    {
        i -= 1;
        out.push(buf[i]);
    }
    proof {
        assert(out@ =~= buf@.reverse());
    }
    out
}

/// Horner evaluation of big-endian digits into a fixed-width accumulator,
/// batched: a leading partial chunk and then full chunks of `power` digits,
/// each folded into one machine digit and absorbed by a single full-width
/// multiply-accumulate by the big base. Returns no value exactly when the
/// represented number does not fit.
fn be_digits_to_buint(buf: &[u8], radix: u32, width: usize) -> (r: Option<BUint>)
    requires
        2 <= radix <= 256,
        width >= 1,
        digits_below(buf@, radix as nat),
    ensures
        r is Some <==> be_radix_val(buf@, radix as nat) < pow2(64 * width as nat),
        r is Some ==> r->Some_0.val() == be_radix_val(buf@, radix as nat),
        r is Some ==> r->Some_0.width() == width,
{
    let n = buf.len();
    if n == 0 {
        proof {
            lemma_pow2_pos(64 * width as nat);
        }
        return Some(BUint::zero(width));
    }
    let (base, power) = radix_base(radix);
    let rem0 = n % power;
    let first_len: usize = if rem0 == 0 {
        power
    } else {
        rem0
    };
    proof {
        lemma_fundamental_div_mod(n as int, power as int);
        lemma_mod_division_less_than_divisor(n as int, power as int);
        if rem0 == 0 {
            // a nonzero multiple of the chunk length is at least one chunk
            let qn = n as int / power as int;
            assert(qn >= 1) by {
                if qn <= 0 {
                    assert(power as int * qn <= 0) by (nonlinear_arith)
                        requires
                            qn <= 0,
                            power >= 1,
                    ;
                }
            }
            assert(n >= power) by (nonlinear_arith)
                requires
                    n as int == power as int * (n as int / power as int),
                    n as int / power as int >= 1,
                    power >= 1,
            ;
        }
        assert(pow(radix as int, first_len as nat) <= 0x1_0000_0000_0000_0000) by {
            if first_len < power {
                vstd::arithmetic::power::lemma_pow_increases(
                    radix as nat,
                    first_len as nat,
                    power as nat,
                );
            }
        }
    }
    let head = chunk_value(buf, 0, first_len, radix);
    let mut out = BUint::from_digit(head, width);
    let mut i: usize = first_len;
    proof {
        assert(buf@.subrange(0, first_len as int) =~= buf@.take(first_len as int));
        lemma2_to64();
        assert(pow2(64) <= pow2(64 * width as nat)) by {
            if 64 < 64 * width as nat {
                lemma_pow2_strictly_increases(64, 64 * width as nat);
            } else {
                assert(64 * width as nat == 64) by (nonlinear_arith)
                    requires
                        width >= 1,
                        !(64 < 64 * width),
                ;
            }
        }
        // the part of the input beyond the head is whole chunks
        if rem0 == 0 {
            assert((n - first_len) as int == (n as int / power as int - 1) * power as int)
                by (nonlinear_arith)
                requires
                    n as int == power as int * (n as int / power as int),
                    first_len == power,
            ;
            lemma_mod_multiples_basic(n as int / power as int - 1, power as int);
        } else {
            assert((n - first_len) as int == (n as int / power as int) * power as int)
                by (nonlinear_arith)
                requires
                    n as int == power as int * (n as int / power as int) + rem0,
                    first_len == rem0,
            ;
            lemma_mod_multiples_basic(n as int / power as int, power as int);
        }
    }
    while i < n
        invariant
            i <= n,
            n == buf@.len(),
            2 <= radix <= 256,
            width >= 1,
            digits_below(buf@, radix as nat),
            base == pow(radix as int, power as nat),
            1 <= power,
            2 <= base,
            pow(radix as int, power as nat) <= 0x1_0000_0000_0000_0000,
            (n - i) as int % power as int == 0,
            out.width() == width,
            out.val() == be_radix_val(buf@.take(i as int), radix as nat),
        decreases n - i,
    {
        proof {
            // at least one whole chunk remains
            lemma_fundamental_div_mod((n - i) as int, power as int);
            let q = (n - i) as int / power as int;
            assert(q >= 1) by {
                if q <= 0 {
                    assert(power as int * q <= 0) by (nonlinear_arith)
                        requires
                            q <= 0,
                            power >= 1,
                    ;
                }
            }
            assert(n - i >= power) by (nonlinear_arith)
                requires
                    (n - i) as int == power as int * ((n - i) as int / power as int),
                    (n - i) as int / power as int >= 1,
                    power >= 1,
            ;
        }
        let end = i + power;
        let chunk = chunk_value(buf, i, end, radix);
        let (next, carry) = out.mul_digit_add_digit(base, chunk);
        proof {
            assert(buf@.take(i as int).add(buf@.subrange(i as int, end as int)) =~= buf@.take(
                end as int,
            ));
            crate::value::lemma_be_radix_concat(
                buf@.take(i as int),
                buf@.subrange(i as int, end as int),
                radix as nat,
            );
            assert(be_radix_val(buf@.take(end as int), radix as nat) == out.val() * base + chunk);
            lemma_val_seq_bound(next.digits@);
        }
        if carry != 0 {
            proof {
                let m = pow2(64 * width as nat) as int;
                assert(carry as int * m >= m) by (nonlinear_arith)
                    requires
                        carry >= 1,
                        m >= 0,
                ;
                lemma_be_radix_prefix_le(buf@, radix as nat, end as int);
            }
            return None;
        }
        proof {
            assert(next.val() + 0 * next.modulus() == out.val() * base + chunk);
            // the leftover after this chunk is still whole chunks
            lemma_fundamental_div_mod((n - i) as int, power as int);
            assert((n - end) as int == ((n - i) as int / power as int - 1) * power as int)
                by (nonlinear_arith)
                requires
                    (n - i) as int == power as int * ((n - i) as int / power as int),
                    end == i + power,
            ;
            lemma_mod_multiples_basic((n - i) as int / power as int - 1, power as int);
        }
        out = next;
        i = end;
    }
    proof {
        assert(buf@.take(n as int) =~= buf@);
        lemma_val_seq_bound(out.digits@);
    }
    Some(out)
}

impl BUint {
    /// Converts a slice of big-endian digits in the given radix to an integer
    /// of the given width. Each byte is one digit of base `radix`; the result
    /// is no value when a digit is at or above the radix, or when the number
    /// does not fit the width. An empty slice is zero.
    pub fn from_radix_be(buf: &[u8], radix: u32, width: usize) -> (r: Option<BUint>)
        requires
            2 <= radix <= 256,
            width >= 1,
        ensures
            r is Some <==> (digits_below(buf@, radix as nat) && be_radix_val(buf@, radix as nat)
                < pow2(64 * width as nat)),
            r is Some ==> r->Some_0.val() == be_radix_val(buf@, radix as nat),
            r is Some ==> r->Some_0.width() == width,
    {
        let n = buf.len();
        let mut i: usize = 0;
        while i < n
            invariant
                i <= n,
                n == buf@.len(),
                radix <= 256,
                forall|j: int| 0 <= j < i ==> buf@[j] < radix,
            decreases n - i,
        {
            if radix < 256 && buf[i] as u32 >= radix {
                return None;
            }
            i += 1;
        }
        be_digits_to_buint(buf, radix, width)
    }

    /// Converts a slice of little-endian digits in the given radix to an
    /// integer of the given width; otherwise as `from_radix_be`.
    pub fn from_radix_le(buf: &[u8], radix: u32, width: usize) -> (r: Option<BUint>)
        requires
            2 <= radix <= 256,
            width >= 1,
        ensures
            r is Some <==> (digits_below(buf@, radix as nat) && le_radix_val(buf@, radix as nat)
                < pow2(64 * width as nat)),
            r is Some ==> r->Some_0.val() == le_radix_val(buf@, radix as nat),
            r is Some ==> r->Some_0.width() == width,
    {
        let rev = reversed(buf);
        proof {
            lemma_be_is_reversed_le(buf@, radix as nat);
            assert(digits_below(buf@, radix as nat) <==> digits_below(
                rev@,
                radix as nat,
            )) by {
                assert(forall|j: int|
                    0 <= j < buf@.len() ==> rev@[buf@.len() - 1 - j] == buf@[j]);
                assert(forall|j: int|
                    0 <= j < rev@.len() ==> buf@[rev@.len() - 1 - j] == rev@[j]);
            }
        }
        BUint::from_radix_be(rev.as_slice(), radix, width)
    }

    /// The value as little-endian digits in the given radix: the canonical
    /// digits of the value, least significant first, with no trailing zero
    /// digit; zero is one zero digit.
    pub fn to_radix_le(&self, radix: u32) -> (r: Vec<u8>)
        requires
            2 <= radix <= 256,
        ensures
            r@ == le_digits_of(self.val(), radix as nat),
    {
        let mut cur = self.duplicate();
        let mut out: Vec<u8> = Vec::new();
        if cur.is_zero() {
            let mut z: Vec<u8> = Vec::new();
            z.push(0);
            proof {
                assert(z@ =~= le_digits_of(self.val(), radix as nat));
            }
            return z;
        }
        let rd = radix as u64;
        // a radix power of about half a digit: dividing by it keeps every
        // remainder single-digit-safe, and each division yields `power`
        // output digits at once
        let (base, power) = radix_base_half(radix);
        proof {
            assert(out@ + le_canonical(cur.val(), radix as nat) =~= le_canonical(
                self.val(),
                radix as nat,
            ));
            lemma2_to64();
        }
        let mut fit = cur.try_into_u64();
        while fit.is_err()
            invariant
                2 <= radix <= 256,
                rd == radix,
                self.val() > 0,
                base == pow(radix as int, power as nat),
                1 <= power,
                2 <= base <= 0xFFFF_FFFF,
                cur.width() == self.width(),
                fit is Ok <==> cur.val() < pow2(64),
                fit is Ok ==> fit->Ok_0 == cur.val(),
                out@ + le_canonical(cur.val(), radix as nat) == le_canonical(
                    self.val(),
                    radix as nat,
                ),
            decreases cur.val(),
        {
            let (q, rem) = cur.div_rem_digit(base);
            proof {
                lemma2_to64();
                // the quotient is nonzero: the value needs more than one
                // digit, the divisor fits in half of one
                assert(q.val() >= 1) by (nonlinear_arith)
                    requires
                        q.val() * base + rem == cur.val(),
                        cur.val() >= 0x1_0000_0000_0000_0000,
                        rem < base,
                        base <= 0xFFFF_FFFF,
                ;
                lemma_le_canonical_chunk(q.val(), rem as nat, radix as nat, power as nat);
                assert((q.val() * pow(radix as int, power as nat) + rem) as nat == cur.val());
                // the quotient strictly shrinks
                assert(q.val() < cur.val()) by (nonlinear_arith)
                    requires
                        q.val() * base + rem == cur.val(),
                        base >= 2,
                        q.val() >= 1,
                        rem >= 0,
                ;
            }
            // emit exactly `power` digits of the remainder, low digit first
            let ghost out_before = out@;
            let ghost rem0 = rem;
            let mut d: u64 = rem;
            let mut k: usize = 0;
            proof {
                assert(out_before + fixed_le_digits(rem0 as nat, radix as nat, power as nat)
                    =~= out@ + fixed_le_digits(d as nat, radix as nat, (power - k) as nat));
                vstd::arithmetic::power::lemma_pow_positive(radix as int, power as nat);
            }
            while k < power
                invariant
                    k <= power,
                    2 <= radix <= 256,
                    rd == radix,
                    base == pow(radix as int, power as nat),
                    d < pow(radix as int, (power - k) as nat),
                    out_before + fixed_le_digits(rem0 as nat, radix as nat, power as nat) == out@
                        + fixed_le_digits(d as nat, radix as nat, (power - k) as nat),
                decreases power - k,
            {
                proof {
                    let l = (power - k) as nat;
                    let p1 = pow(radix as int, (l - 1) as nat);
                    vstd::arithmetic::power::lemma_pow_positive(radix as int, (l - 1) as nat);
                    assert(pow(radix as int, l) == radix * p1) by {
                        vstd::arithmetic::power::lemma_pow_adds(radix as int, (l - 1) as nat, 1);
                        vstd::arithmetic::power::lemma_pow1(radix as int);
                        lemma_mul_is_commutative(p1, radix as int);
                    }
                    assert(fixed_le_digits(d as nat, radix as nat, l) == seq![
                        #[verifier::truncate] ((d as nat % radix as nat) as u8),
                    ].add(fixed_le_digits(d as nat / radix as nat, radix as nat, (l - 1) as nat)));
                    lemma_fundamental_div_mod(d as int, rd as int);
                    lemma_mod_division_less_than_divisor(d as int, rd as int);
                    assert((d as nat / radix as nat) < p1) by {
                        assert(d < radix as int * p1);
                        lemma_multiply_divide_lt(d as int, radix as int, p1);
                    }
                    assert(out@.push((d % rd) as u8) + fixed_le_digits(
                        d as nat / radix as nat,
                        radix as nat,
                        (l - 1) as nat,
                    ) =~= out@ + fixed_le_digits(d as nat, radix as nat, l));
                }
                out.push((d % rd) as u8);
                d = d / rd;
                k += 1;
            }
            proof {
                assert(fixed_le_digits(d as nat, radix as nat, 0) =~= Seq::<u8>::empty());
                assert(out@ + fixed_le_digits(d as nat, radix as nat, 0) =~= out@);
                assert(out@ =~= out_before + fixed_le_digits(
                    rem0 as nat,
                    radix as nat,
                    power as nat,
                ));
                assert(out@ + le_canonical(q.val(), radix as nat) =~= out_before + (
                fixed_le_digits(rem0 as nat, radix as nat, power as nat).add(
                    le_canonical(q.val(), radix as nat),
                )));
            }
            cur = q;
            fit = cur.try_into_u64();
        }
        // the value now fits one digit: drain it a digit at a time
        let mut d: u64 = match fit {
            Ok(d) => d,
            Err(_) => 0,
        };
        proof {
            assert(d == cur.val());
        }
        while d != 0
            invariant
                2 <= radix <= 256,
                rd == radix,
                self.val() > 0,
                out@ + le_canonical(d as nat, radix as nat) == le_canonical(
                    self.val(),
                    radix as nat,
                ),
            decreases d,
        {
            proof {
                lemma_fundamental_div_mod(d as int, rd as int);
                lemma_mod_division_less_than_divisor(d as int, rd as int);
                lemma_div_decreases(d as int, rd as int);
                assert(le_canonical(d as nat, radix as nat) == seq![
                    #[verifier::truncate] ((d as nat % radix as nat) as u8),
                ].add(le_canonical(d as nat / radix as nat, radix as nat)));
                assert(out@.push((d % rd) as u8) + le_canonical(
                    d as nat / radix as nat,
                    radix as nat,
                ) =~= out@ + seq![(d % rd) as u8].add(
                    le_canonical(d as nat / radix as nat, radix as nat),
                ));
            }
            out.push((d % rd) as u8);
            d = d / rd;
        }
        proof {
            assert(le_canonical(0, radix as nat) =~= Seq::<u8>::empty());
            assert(out@ + le_canonical(0, radix as nat) =~= out@);
        }
        out
    }

    /// The value as big-endian digits in the given radix: most significant
    /// first, no leading zero digit; zero is one zero digit.
    pub fn to_radix_be(&self, radix: u32) -> (r: Vec<u8>)
        requires
            2 <= radix <= 256,
        ensures
            r@ == be_digits_of(self.val(), radix as nat),
    {
        let le = self.to_radix_le(radix);
        reversed(le.as_slice())
    }
}

/// The digit value of an ASCII byte: `0`-`9` map to 0-9, `a`-`z` and `A`-`Z`
/// map to 10-35; any other byte maps to 255, above every supported radix.
pub open spec fn byte_digit_value(b: u8) -> u8 {
    if 48 <= b <= 57 {
        (b - 48) as u8
    } else if 97 <= b <= 122 {
        (b - 97 + 10) as u8
    } else if 65 <= b <= 90 {
        (b - 65 + 10) as u8
    } else {
        255u8
    }
}

/// The ASCII byte that formatting writes for a digit value below 36:
/// `0`-`9`, then lowercase `a`-`z`.
pub open spec fn digit_ascii(d: u8) -> u8
    recommends
        d < 36,
{
    if d < 10 {
        (d + 48) as u8
    } else {
        (d + 87) as u8
    }
}

/// The input bytes with one leading plus sign removed.
pub open spec fn stripped_plus(b: Seq<u8>) -> Seq<u8> {
    if b.len() > 0 && b[0] == 43 {
        b.skip(1)
    } else {
        b
    }
}

/// The digit values of a byte sequence, byte by byte.
pub open spec fn digit_values(b: Seq<u8>) -> Seq<u8> {
    b.map_values(|x: u8| byte_digit_value(x))
}

/// The characters that formatting a value in radix `r` produces.
pub open spec fn ascii_chars_of(v: nat, r: nat) -> Seq<char> {
    be_digits_of(v, r).map_values(|d: u8| digit_ascii(d) as char)
}

/// Formatting is injectively readable: the ASCII byte of a digit below 36
/// maps back to that digit, and is never a plus sign.
pub proof fn lemma_digit_ascii_inverse(d: u8)
    requires
        d < 36,
    ensures
        byte_digit_value(digit_ascii(d)) == d,
        48 <= digit_ascii(d) <= 122,
        digit_ascii(d) != 43,
{
}

/// Maps an ASCII byte to its digit value.
fn byte_to_digit(byte: u8) -> (d: u8)
    ensures
        d == byte_digit_value(byte),
{
    if 48 <= byte && byte <= 57 {
        byte - 48
    } else if 97 <= byte && byte <= 122 {
        byte - 97 + 10
    } else if 65 <= byte && byte <= 90 {
        byte - 65 + 10
    } else {
        255
    }
}

/// Relies on `String::from_utf8`: bytes below 128 are valid UTF-8, and each
/// such byte decodes to the single character with the same code.
#[verifier::external_body]
fn ascii_bytes_to_string(bytes: Vec<u8>) -> (r: String)
    requires
        forall|i: int| 0 <= i < bytes@.len() ==> bytes@[i] < 128,
    ensures
        r@.len() == bytes@.len(),
        forall|i: int| 0 <= i < r@.len() ==> r@[i] == (bytes@[i] as char),
{
    match String::from_utf8(bytes) {
        Ok(s) => s,
        Err(_) => String::new(),
    }
}

/// The shared parser over raw bytes: an optional leading plus sign, then at
/// least one digit of the given radix, evaluated big-endian first.
fn parse_digit_bytes(bytes: &[u8], radix: u32, width: usize) -> (r: Result<
    BUint,
    crate::errors::ParseIntError,
>)
    requires
        2 <= radix <= 36,
        width >= 1,
    ensures
        parse_result_matches(r, bytes@, radix as nat, width as nat),
{
    let n = bytes.len();
    let off: usize = if n > 0 && bytes[0] == 43 {
        1
    } else {
        0
    };
    proof {
        if off == 1 {
            assert(stripped_plus(bytes@) =~= bytes@.skip(1));
        } else {
            assert(stripped_plus(bytes@) =~= bytes@);
        }
    }
    if n == off {
        return Err(crate::errors::ParseIntError { kind: crate::errors::IntErrorKind::Empty });
    }
    let ghost b = stripped_plus(bytes@);
    let mut ds: Vec<u8> = Vec::new();
    let mut i: usize = off;
    while i < n
        invariant
            off <= i <= n,
            n == bytes@.len(),
            2 <= radix <= 36,
            b == stripped_plus(bytes@),
            b.len() == n - off,
            forall|j: int| 0 <= j < b.len() ==> b[j] == bytes@[off + j],
            ds@.len() == i - off,
            forall|j: int| 0 <= j < i - off ==> ds@[j] == byte_digit_value(b[j]),
            forall|j: int| 0 <= j < i - off ==> ds@[j] < radix,
        decreases n - i,
    {
        let d = byte_to_digit(bytes[i]);
        if d as u32 >= radix {
            proof {
                assert(digit_values(b)[i - off] == byte_digit_value(b[i - off]));
            }
            return Err(
                crate::errors::ParseIntError { kind: crate::errors::IntErrorKind::InvalidDigit },
            );
        }
        ds.push(d);
        i += 1;
    }
    proof {
        assert(ds@ =~= digit_values(b));
    }
    match be_digits_to_buint(ds.as_slice(), radix, width) {
        Some(v) => Ok(v),
        None => Err(
            crate::errors::ParseIntError { kind: crate::errors::IntErrorKind::PosOverflow },
        ),
    }
}

/// What parsing the byte sequence `raw` in radix `r` at the given width must
/// return: the error kind is determined by the input, and success carries the
/// big-endian value of the digits after an optional leading plus sign.
pub open spec fn parse_result_matches(
    r: Result<BUint, crate::errors::ParseIntError>,
    raw: Seq<u8>,
    radix: nat,
    width: nat,
) -> bool {
    let b = stripped_plus(raw);
    let ds = digit_values(b);
    &&& (r == Result::<BUint, crate::errors::ParseIntError>::Err(
        crate::errors::ParseIntError { kind: crate::errors::IntErrorKind::Empty },
    ) <==> b.len() == 0)
    &&& (r == Result::<BUint, crate::errors::ParseIntError>::Err(
        crate::errors::ParseIntError { kind: crate::errors::IntErrorKind::InvalidDigit },
    ) <==> b.len() > 0 && !digits_below(ds, radix))
    &&& (r == Result::<BUint, crate::errors::ParseIntError>::Err(
        crate::errors::ParseIntError { kind: crate::errors::IntErrorKind::PosOverflow },
    ) <==> b.len() > 0 && digits_below(ds, radix) && be_radix_val(ds, radix) >= pow2(64 * width))
    &&& (r is Ok <==> b.len() > 0 && digits_below(ds, radix) && be_radix_val(ds, radix) < pow2(
        64 * width,
    ))
    &&& (r is Ok ==> r->Ok_0.val() == be_radix_val(ds, radix) && r->Ok_0.width() == width)
}

impl BUint {
    /// Converts a string slice in the given base to an integer of the given
    /// width. The string is an optional `+` sign followed by digits `0`-`9`,
    /// `a`-`z`, `A`-`Z` (case-insensitive, values below the radix). The
    /// contract speaks of the string's UTF-8 bytes.
    pub fn from_str_radix(src: &str, radix: u32, width: usize) -> (r: Result<
        BUint,
        crate::errors::ParseIntError,
    >)
        requires
            2 <= radix <= 36,
            width >= 1,
        ensures
            parse_result_matches(r, src.spec_bytes(), radix as nat, width as nat),
    {
        parse_digit_bytes(src.as_bytes(), radix, width)
    }

    /// Decimal parsing: `from_str_radix` specialized to base ten.
    pub fn from_str(src: &str, width: usize) -> (r: Result<
        BUint,
        crate::errors::ParseIntError,
    >)
        requires
            width >= 1,
        ensures
            parse_result_matches(r, src.spec_bytes(), 10, width as nat),
    {
        BUint::from_str_radix(src, 10, width)
    }

    /// Converts an ASCII byte slice in the given base to an integer, with no
    /// value on any parse failure. Equivalent to `from_str_radix` on the
    /// string these bytes spell: a byte sequence that is not valid UTF-8
    /// holds a byte above 127, which is no digit for any radix up to 36.
    pub fn parse_bytes(buf: &[u8], radix: u32, width: usize) -> (r: Option<BUint>)
        requires
            2 <= radix <= 36,
            width >= 1,
        ensures
            ({
                let ds = digit_values(stripped_plus(buf@));
                &&& (r is Some <==> stripped_plus(buf@).len() > 0 && digits_below(
                    ds,
                    radix as nat,
                ) && be_radix_val(ds, radix as nat) < pow2(64 * width as nat))
                &&& (r is Some ==> r->Some_0.val() == be_radix_val(ds, radix as nat)
                    && r->Some_0.width() == width)
            }),
    {
        match parse_digit_bytes(buf, radix, width) {
            Ok(v) => Some(v),
            Err(_) => None,
        }
    }

    /// The value as a string in the given radix, using digits `0`-`9` then
    /// lowercase `a`-`z`, most significant digit first.
    pub fn to_str_radix(&self, radix: u32) -> (r: String)
        requires
            2 <= radix <= 36,
        ensures
            r@ == ascii_chars_of(self.val(), radix as nat),
    {
        let digits = self.to_radix_be(radix);
        let n = digits.len();
        let mut bytes: Vec<u8> = Vec::new();
        let mut i: usize = 0;
        proof {
            lemma_be_radix_round_trip(self.val(), radix as nat);
        }
        while i < n
            invariant
                i <= n,
                n == digits@.len(),
                digits_below(digits@, radix as nat),
                radix <= 36,
                bytes@.len() == i,
                forall|j: int| 0 <= j < i ==> bytes@[j] == digit_ascii(digits@[j]),
                forall|j: int| 0 <= j < i ==> bytes@[j] < 128,
            decreases n - i,
        {
            let d = digits[i];
            let c: u8 = if d < 10 {
                d + 48
            } else {
                d + 87
            };
            bytes.push(c);
            i += 1;
        }
        let out = ascii_bytes_to_string(bytes);
        proof {
            assert(out@ =~= ascii_chars_of(self.val(), radix as nat));
        }
        out
    }
}

/// Round-trip law, little-endian digits: formatting any value in any
/// supported radix yields digits that are all below the radix and that parse
/// back to exactly the same value. Together with the contracts of
/// `to_radix_le` and `from_radix_le`, this says
/// `from_radix_le(v.to_radix_le(r), r)` returns the value of `v`.
pub proof fn lemma_le_radix_round_trip(v: nat, r: nat)
    requires
        2 <= r <= 256,
    ensures
        digits_below(le_digits_of(v, r), r),
        le_radix_val(le_digits_of(v, r), r) == v,
{
    lemma_le_canonical_correct(v, r);
    if v == 0 {
        let s = seq![0u8];
        assert(s.skip(1) =~= Seq::<u8>::empty());
        assert(le_radix_val(s, r) == 0 + r * le_radix_val(s.skip(1), r));
    }
}

/// Round-trip law, big-endian digits: as `lemma_le_radix_round_trip`, for
/// `to_radix_be` and `from_radix_be`.
pub proof fn lemma_be_radix_round_trip(v: nat, r: nat)
    requires
        2 <= r <= 256,
    ensures
        digits_below(be_digits_of(v, r), r),
        be_radix_val(be_digits_of(v, r), r) == v,
{
    lemma_le_radix_round_trip(v, r);
    lemma_be_is_reversed_le(le_digits_of(v, r), r);
    let le = le_digits_of(v, r);
    assert forall|i: int| 0 <= i < be_digits_of(v, r).len() implies be_digits_of(v, r)[i]
        < r by {
        assert(be_digits_of(v, r)[i] == le[le.len() - 1 - i]);
    }
}

/// Round-trip law for strings: formatting any value in any radix from 2 to
/// 36 yields characters whose UTF-8 bytes carry no leading plus sign, are all
/// valid digits of that radix, and parse back to exactly the same value.
/// Together with the contracts of `to_str_radix` and `from_str_radix`, this
/// says `from_str_radix(&v.to_str_radix(r), r, w)` returns the value of `v`.
pub proof fn lemma_str_radix_round_trip(v: nat, r: nat)
    requires
        2 <= r <= 36,
    ensures
        ({
            let b = vstd::utf8::encode_utf8(ascii_chars_of(v, r));
            &&& stripped_plus(b) == b
            &&& b.len() > 0
            &&& digits_below(digit_values(b), r)
            &&& be_radix_val(digit_values(b), r) == v
        }),
{
    lemma_be_radix_round_trip(v, r);
    let digits = be_digits_of(v, r);
    let chars = ascii_chars_of(v, r);
    assert(chars.len() == digits.len());
    assert forall|i: int| 0 <= i < chars.len() implies ('\0' <= #[trigger] chars[i]
        <= '\u{7f}') by {
        lemma_digit_ascii_inverse(digits[i]);
        assert(chars[i] == digit_ascii(digits[i]) as char);
    }
    assert(vstd::utf8::is_ascii_chars(chars));
    vstd::utf8::is_ascii_chars_encode_utf8(chars);
    let b = vstd::utf8::encode_utf8(chars);
    assert(b.len() == chars.len());
    assert forall|i: int| 0 <= i < b.len() implies b[i] == digit_ascii(digits[i]) by {
        assert(chars[i] as u8 == b[i]);
        lemma_digit_ascii_inverse(digits[i]);
        assert(chars[i] == digit_ascii(digits[i]) as char);
    }
    assert(digits.len() > 0) by {
        if v != 0 {
            lemma_le_canonical_correct(v, r);
        }
    }
    assert(b[0] != 43) by {
        lemma_digit_ascii_inverse(digits[0]);
    }
    assert(stripped_plus(b) == b);
    assert(digit_values(b) =~= digits) by {
        assert forall|i: int| 0 <= i < b.len() implies digit_values(b)[i] == digits[i] by {
            lemma_digit_ascii_inverse(digits[i]);
        }
    }
}

} // verus!
