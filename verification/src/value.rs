//! The mathematical model: the value of a little-endian digit sequence, the
//! value of a radix-digit sequence, and the canonical radix representation of
//! a natural number, with the lemmas that relate them.
use vstd::prelude::*;
use vstd::arithmetic::power2::*;
use vstd::arithmetic::mul::*;
use vstd::arithmetic::power::pow;

verus! {

/// Value of a little-endian sequence of 64-bit digits: `s[0]` is least significant.
pub open spec fn val_seq(s: Seq<u64>) -> nat
    decreases s.len(),
{
    if s.len() == 0 {
        0
    } else {
        s[0] as nat + pow2(64) * val_seq(s.skip(1))
    }
}

/// Value of a little-endian sequence of radix-`r` digits: `s[0]` is least significant.
pub open spec fn le_radix_val(s: Seq<u8>, r: nat) -> nat
    decreases s.len(),
{
    if s.len() == 0 {
        0
    } else {
        s[0] as nat + r * le_radix_val(s.skip(1), r)
    }
}

/// Value of a big-endian sequence of radix-`r` digits: `s[0]` is most significant.
pub open spec fn be_radix_val(s: Seq<u8>, r: nat) -> nat
    decreases s.len(),
{
    if s.len() == 0 {
        0
    } else {
        be_radix_val(s.drop_last(), r) * r + s.last() as nat
    }
}

/// The canonical little-endian radix-`r` digits of `v`: empty for zero,
/// otherwise least-significant digit first with no trailing zero digit.
pub open spec fn le_canonical(v: nat, r: nat) -> Seq<u8>
    decreases v,
    when 2 <= r <= 256
    via le_canonical_decreases
{
    if v == 0 {
        Seq::empty()
    } else {
        seq![#[verifier::truncate] ((v % r) as u8)].add(le_canonical(v / r, r))
    }
}

#[via_fn]
proof fn le_canonical_decreases(v: nat, r: nat) {
    if v != 0 {
        vstd::arithmetic::div_mod::lemma_div_decreases(v as int, r as int);
    }
}

/// All digits of `s` are below the radix `r`.
pub open spec fn digits_below(s: Seq<u8>, r: nat) -> bool {
    forall|i: int| 0 <= i < s.len() ==> s[i] < r
}

/// The canonical digits of `v` in radix `r` evaluate back to `v`, lie below
/// the radix, and carry no trailing zero digit. This is the round-trip law
/// for radix conversion, stated at the level of natural numbers.
pub proof fn lemma_le_canonical_correct(v: nat, r: nat)
    requires
        2 <= r <= 256,
    ensures
        le_radix_val(le_canonical(v, r), r) == v,
        digits_below(le_canonical(v, r), r),
        le_canonical(v, r).len() > 0 ==> le_canonical(v, r).last() != 0,
        le_canonical(v, r).len() == 0 <==> v == 0,
    decreases v,
{
    if v != 0 {
        vstd::arithmetic::div_mod::lemma_div_decreases(v as int, r as int);
        vstd::arithmetic::div_mod::lemma_mod_division_less_than_divisor(v as int, r as int);
        vstd::arithmetic::div_mod::lemma_fundamental_div_mod(v as int, r as int);
        vstd::arithmetic::div_mod::lemma_div_pos_is_pos(v as int, r as int);
        lemma_le_canonical_correct(v / r, r);
        let d = #[verifier::truncate] ((v % r) as u8);
        let s = le_canonical(v, r);
        let t = le_canonical(v / r, r);
        assert(s == seq![d].add(t));
        assert(s[0] == d);
        assert(s.skip(1) =~= t);
        assert(le_radix_val(s, r) == d as nat + r * le_radix_val(t, r));
        assert(r * (v / r) == (v / r) * r) by {
            lemma_mul_is_commutative(r as int, (v / r) as int);
        }
        if v / r == 0 {
            assert(s =~= seq![d]);
            vstd::arithmetic::div_mod::lemma_small_div_converse(v as int, r as int);
            assert(v < r);
            vstd::arithmetic::div_mod::lemma_small_mod(v, r);
            assert(d == v);
        } else {
            assert(s.last() == t.last());
        }
    }
}

/// A big-endian digit sequence read in reverse has the little-endian value.
pub proof fn lemma_be_is_reversed_le(s: Seq<u8>, r: nat)
    ensures
        be_radix_val(s.reverse(), r) == le_radix_val(s, r),
    decreases s.len(),
{
    if s.len() > 0 {
        lemma_be_is_reversed_le(s.skip(1), r);
        assert(s.reverse().drop_last() =~= s.skip(1).reverse());
        assert(s.reverse().last() == s[0]);
        assert(r * le_radix_val(s.skip(1), r) == le_radix_val(s.skip(1), r) * r) by {
            lemma_mul_is_commutative(r as int, le_radix_val(s.skip(1), r) as int);
        }
    }
}

/// A big-endian prefix never evaluates above the whole sequence.
pub proof fn lemma_be_radix_prefix_le(s: Seq<u8>, r: nat, i: int)
    requires
        r >= 1,
        0 <= i <= s.len(),
    ensures
        be_radix_val(s.take(i), r) <= be_radix_val(s, r),
    decreases s.len() - i,
{
    if i == s.len() {
        assert(s.take(i) =~= s);
    } else {
        lemma_be_radix_prefix_le(s, r, i + 1);
        assert(s.take(i + 1).drop_last() =~= s.take(i));
        assert(s.take(i + 1).last() == s[i]);
        let a = be_radix_val(s.take(i), r) as int;
        assert(be_radix_val(s.take(i + 1), r) == a * r + s[i]);
        assert(a * r >= a * 1) by {
            lemma_mul_inequality(1, r as int, a);
            lemma_mul_is_commutative(1, a);
            lemma_mul_is_commutative(r as int, a);
        }
        assert(a * 1 == a) by {
            lemma_mul_basics(a);
        }
    }
}

/// Exactly `l` little-endian radix-`r` digits of `x`, low digit first,
/// padded with zero digits at the top.
pub open spec fn fixed_le_digits(x: nat, r: nat, l: nat) -> Seq<u8>
    decreases l,
{
    if l == 0 {
        Seq::empty()
    } else {
        seq![#[verifier::truncate] ((x % r) as u8)].add(fixed_le_digits(x / r, r, (l - 1) as nat))
    }
}

/// Concatenating big-endian digit groups: the left group is weighted by the
/// radix raised to the right group's length.
pub proof fn lemma_be_radix_concat(a: Seq<u8>, b: Seq<u8>, r: nat)
    requires
        r >= 1,
    ensures
        be_radix_val(a.add(b), r) == be_radix_val(a, r) * pow(r as int, b.len()) + be_radix_val(
            b,
            r,
        ),
    decreases b.len(),
{
    if b.len() == 0 {
        assert(a.add(b) =~= a);
        vstd::arithmetic::power::lemma_pow0(r as int);
        assert(be_radix_val(a, r) * 1 == be_radix_val(a, r)) by {
            lemma_mul_basics(be_radix_val(a, r) as int);
        }
    } else {
        lemma_be_radix_concat(a, b.drop_last(), r);
        assert(a.add(b).drop_last() =~= a.add(b.drop_last()));
        assert(a.add(b).last() == b.last());
        let x = be_radix_val(a, r) as int;
        let y = be_radix_val(b.drop_last(), r) as int;
        let p1 = pow(r as int, (b.len() - 1) as nat);
        vstd::arithmetic::power::lemma_pow_positive(r as int, (b.len() - 1) as nat);
        assert(pow(r as int, b.len()) == r * p1) by {
            vstd::arithmetic::power::lemma_pow_adds(r as int, (b.len() - 1) as nat, 1);
            vstd::arithmetic::power::lemma_pow1(r as int);
            lemma_mul_is_commutative(p1, r as int);
        }
        assert((x * p1 + y) * r == x * (r * p1) + y * r) by (nonlinear_arith);
        assert(x * (r * p1) == x * pow(r as int, b.len())) by (nonlinear_arith)
            requires
                pow(r as int, b.len()) == r * p1,
        ;
    }
}

/// Splitting the canonical digits at a chunk boundary: for a nonzero
/// quotient, the canonical digits of `q * r^l + rem` are exactly the `l`
/// fixed-width digits of `rem` followed by the canonical digits of `q`.
pub proof fn lemma_le_canonical_chunk(q: nat, rem: nat, r: nat, l: nat)
    requires
        2 <= r <= 256,
        q >= 1,
        rem < pow(r as int, l),
    ensures
        le_canonical((q * pow(r as int, l) + rem) as nat, r) == fixed_le_digits(rem, r, l).add(
            le_canonical(q, r),
        ),
    decreases l,
{
    vstd::arithmetic::power::lemma_pow_positive(r as int, l);
    let p = pow(r as int, l);
    if l == 0 {
        vstd::arithmetic::power::lemma_pow0(r as int);
        assert(q * 1 == q) by {
            lemma_mul_basics(q as int);
        }
        assert(rem == 0);
        assert(fixed_le_digits(rem, r, 0).add(le_canonical(q, r)) =~= le_canonical(q, r));
    } else {
        let p1 = pow(r as int, (l - 1) as nat);
        vstd::arithmetic::power::lemma_pow_positive(r as int, (l - 1) as nat);
        assert(p == r * p1) by {
            vstd::arithmetic::power::lemma_pow_adds(r as int, (l - 1) as nat, 1);
            vstd::arithmetic::power::lemma_pow1(r as int);
            lemma_mul_is_commutative(p1, r as int);
        }
        let v = q * p + rem;
        assert(v >= 1) by (nonlinear_arith)
            requires
                q >= 1,
                p >= 1,
                rem >= 0,
                v == q * p + rem,
        ;
        vstd::arithmetic::div_mod::lemma_fundamental_div_mod(rem as int, r as int);
        vstd::arithmetic::div_mod::lemma_mod_division_less_than_divisor(rem as int, r as int);
        let rq = (rem / r) as int;
        let rr = (rem % r) as int;
        assert(v == r * (q * p1 + rq) + rr) by (nonlinear_arith)
            requires
                p == r * p1,
                rem == r * rq + rr,
                v == q * p + rem,
        ;
        vstd::arithmetic::div_mod::lemma_fundamental_div_mod_converse(
            v as int,
            r as int,
            q * p1 + rq,
            rr,
        );
        assert(v as int / r as int == q * p1 + rq);
        assert(v as int % r as int == rr);
        // the low digit agrees on both sides
        assert(le_canonical(v as nat, r) == seq![
            #[verifier::truncate] (((v as nat) % r) as u8),
        ].add(le_canonical((v as nat) / r, r)));
        assert(fixed_le_digits(rem, r, l) == seq![#[verifier::truncate] ((rem % r) as u8)].add(
            fixed_le_digits(rem / r, r, (l - 1) as nat),
        ));
        // the rest recurses one digit down
        assert(rem / r < p1) by {
            vstd::arithmetic::div_mod::lemma_multiply_divide_lt(rem as int, r as int, p1);
        }
        lemma_le_canonical_chunk(q, rem / r, r, (l - 1) as nat);
        assert((q * p1 + rq) as nat == (q * pow(r as int, (l - 1) as nat) + rem / r) as nat);
        let low = seq![#[verifier::truncate] ((rem % r) as u8)];
        assert(low.add(fixed_le_digits(rem / r, r, (l - 1) as nat).add(le_canonical(q, r))) =~= (
        low.add(fixed_le_digits(rem / r, r, (l - 1) as nat))).add(le_canonical(q, r)));
    }
}

/// Appending one more digit to a little-endian prefix adds it at weight `pow2(64 * i)`.
pub proof fn lemma_val_seq_take_succ(s: Seq<u64>, i: int)
    requires
        0 <= i < s.len(),
    ensures
        val_seq(s.take(i + 1)) == val_seq(s.take(i)) + s[i] * pow2(64 * i as nat),
    decreases i,
{
    if i == 0 {
        assert(s.take(1) =~= seq![s[0]]);
        assert(s.take(1).skip(1) =~= Seq::<u64>::empty());
        assert(s.take(0) =~= Seq::<u64>::empty());
        lemma_pow2_unfold(1);
        assert(pow2(0) == 1) by {
            lemma2_to64();
        }
        assert(val_seq(Seq::<u64>::empty()) == 0);
        assert(s.take(1)[0] == s[0]);
        assert(val_seq(s.take(1)) == s[0] as nat + pow2(64) * val_seq(s.take(1).skip(1)));
        assert(val_seq(s.take(1)) == s[0]);
        assert(s[0] * pow2(0) == s[0]) by {
            lemma_mul_basics(s[0] as int);
        }
    } else {
        let t = s.skip(1);
        lemma_val_seq_take_succ(t, i - 1);
        assert(s.take(i + 1).skip(1) =~= t.take(i));
        assert(s.take(i).skip(1) =~= t.take(i - 1));
        assert(s.take(i + 1)[0] == s[0]);
        assert(s.take(i)[0] == s[0]);
        assert(val_seq(s.take(i + 1)) == s[0] + pow2(64) * val_seq(t.take(i)));
        assert(val_seq(s.take(i)) == s[0] + pow2(64) * val_seq(t.take(i - 1)));
        assert(t[i - 1] == s[i]);
        let a = val_seq(t.take(i - 1)) as int;
        let d = s[i] as int;
        let p = pow2(64 * (i - 1) as nat) as int;
        let b = pow2(64) as int;
        assert(val_seq(t.take(i)) == a + d * p);
        assert(b * (a + d * p) == b * a + d * (b * p)) by (nonlinear_arith);
        assert(pow2(64) * pow2(64 * (i - 1) as nat) == pow2(64 * i as nat)) by {
            lemma_pow2_adds(64, 64 * (i - 1) as nat);
        }
    }
}

/// The value of a digit sequence is below `pow2(64 * len)`.
pub proof fn lemma_val_seq_bound(s: Seq<u64>)
    ensures
        val_seq(s) < pow2(64 * s.len()),
    decreases s.len(),
{
    if s.len() == 0 {
        assert(pow2(0) == 1) by {
            lemma2_to64();
        }
    } else {
        let t = s.skip(1);
        lemma_val_seq_bound(t);
        let b = pow2(64) as int;
        let p = pow2(64 * t.len()) as int;
        assert(b * p == pow2(64 * s.len())) by {
            lemma_pow2_adds(64, 64 * t.len());
        }
        assert(s[0] < b) by {
            lemma2_to64();
        }
        assert(val_seq(t) <= p - 1);
        assert(b * val_seq(t) <= b * (p - 1)) by {
            lemma_mul_inequality(val_seq(t) as int, p - 1, b);
            lemma_mul_is_commutative(val_seq(t) as int, b);
            lemma_mul_is_commutative(p - 1, b);
        }
        assert(b * (p - 1) == b * p - b) by (nonlinear_arith);
    }
}

/// Pushing a digit onto a little-endian sequence adds it at the top weight.
pub proof fn lemma_val_seq_push(s: Seq<u64>, d: u64)
    ensures
        val_seq(s.push(d)) == val_seq(s) + d * pow2(64 * s.len()),
{
    let t = s.push(d);
    assert(t.take(s.len() as int) =~= s);
    assert(t.take(s.len() as int + 1) =~= t);
    lemma_val_seq_take_succ(t, s.len() as int);
}

/// A digit sequence has value zero exactly when every digit is zero.
pub proof fn lemma_val_seq_zero(s: Seq<u64>)
    ensures
        (val_seq(s) == 0) <==> (forall|i: int| 0 <= i < s.len() ==> s[i] == 0),
    decreases s.len(),
{
    if s.len() > 0 {
        let t = s.skip(1);
        lemma_val_seq_zero(t);
        lemma_pow2_pos(64);
        if val_seq(s) == 0 {
            assert(pow2(64) * val_seq(t) == 0);
            assert(val_seq(t) == 0) by {
                if val_seq(t) > 0 {
                    lemma_mul_strictly_positive(pow2(64) as int, val_seq(t) as int);
                }
            }
            assert forall|i: int| 0 <= i < s.len() implies s[i] == 0 by {
                if i > 0 {
                    assert(t[i - 1] == 0);
                }
            }
        } else {
            if forall|i: int| 0 <= i < s.len() ==> s[i] == 0 {
                assert forall|i: int| 0 <= i < t.len() implies t[i] == 0 by {
                    assert(s[i + 1] == 0);
                }
                assert(val_seq(t) == 0);
                assert(s[0] == 0);
                assert(pow2(64) * 0 == 0);
            }
        }
    }
}

/// A digit sequence splits at any index `i` into its low prefix and its
/// high suffix weighted by `pow2(64 * i)`.
pub proof fn lemma_val_seq_split(s: Seq<u64>, i: int)
    requires
        0 <= i <= s.len(),
    ensures
        val_seq(s) == val_seq(s.take(i)) + pow2(64 * i as nat) * val_seq(s.skip(i)),
    decreases i,
{
    if i == 0 {
        assert(s.take(0) =~= Seq::<u64>::empty());
        assert(s.skip(0) =~= s);
        assert(pow2(0) == 1) by {
            lemma2_to64();
        }
        assert(pow2(0) * val_seq(s) == val_seq(s)) by {
            lemma_mul_basics(val_seq(s) as int);
        }
    } else {
        lemma_val_seq_split(s, i - 1);
        lemma_val_seq_take_succ(s, i - 1);
        let p = pow2(64 * (i - 1) as nat) as int;
        let b = pow2(64) as int;
        let d = s[i - 1] as int;
        let hi = val_seq(s.skip(i)) as int;
        assert(s.skip(i - 1)[0] == s[i - 1]);
        assert(s.skip(i - 1).skip(1) =~= s.skip(i));
        assert(val_seq(s.skip(i - 1)) == d + b * hi);
        assert(pow2(64 * i as nat) == p * b) by {
            lemma_pow2_adds(64 * (i - 1) as nat, 64);
        }
        assert(p * (d + b * hi) == p * d + (p * b) * hi) by (nonlinear_arith);
        assert(p * d == d * p) by {
            lemma_mul_is_commutative(p, d);
        }
    }
}

/// Two equal-length digit sequences that agree above index `i`, where the
/// first is larger, order their values accordingly.
pub proof fn lemma_val_seq_cmp_at(a: Seq<u64>, b: Seq<u64>, i: int)
    requires
        a.len() == b.len(),
        0 <= i < a.len(),
        forall|j: int| i < j < a.len() ==> a[j] == b[j],
        a[i] > b[i],
    ensures
        val_seq(a) > val_seq(b),
{
    lemma_val_seq_split(a, i);
    lemma_val_seq_split(b, i);
    let p = pow2(64 * i as nat) as int;
    let bb = pow2(64) as int;
    assert(a.skip(i)[0] == a[i]);
    assert(b.skip(i)[0] == b[i]);
    assert(a.skip(i).skip(1) =~= b.skip(i).skip(1));
    assert(val_seq(a.skip(i)) == a[i] + bb * val_seq(a.skip(i).skip(1)));
    assert(val_seq(b.skip(i)) == b[i] + bb * val_seq(b.skip(i).skip(1)));
    assert(val_seq(a.skip(i)) >= val_seq(b.skip(i)) + 1);
    lemma_val_seq_bound(a.take(i));
    lemma_val_seq_bound(b.take(i));
    assert(a.take(i).len() == i);
    assert(b.take(i).len() == i);
    let lo_a = val_seq(a.take(i)) as int;
    let lo_b = val_seq(b.take(i)) as int;
    let hi_a = val_seq(a.skip(i)) as int;
    let hi_b = val_seq(b.skip(i)) as int;
    assert(lo_a < p);
    assert(lo_b < p);
    assert(p * hi_a >= p * (hi_b + 1)) by {
        lemma_pow2_pos(64 * i as nat);
        lemma_mul_inequality(hi_b + 1, hi_a, p);
        lemma_mul_is_commutative(hi_b + 1, p);
        lemma_mul_is_commutative(hi_a, p);
    }
    assert(p * (hi_b + 1) == p * hi_b + p) by (nonlinear_arith);
}

/// Bit `k` of the natural number `v`.
pub open spec fn nth_bit(v: nat, k: nat) -> bool {
    (v / pow2(k)) % 2 == 1
}

/// Dividing out one more binary digit: the top bits down to position `k` are
/// twice the top bits down to `k + 1`, plus bit `k`.
pub proof fn lemma_top_bits_step(x: nat, k: nat)
    ensures
        x / pow2(k) == 2 * (x / pow2(k + 1)) + (if nth_bit(x, k) {
            1nat
        } else {
            0nat
        }),
{
    lemma_pow2_adds(k, 1);
    lemma_pow2_pos(k);
    lemma2_to64();
    let y = (x / pow2(k)) as int;
    vstd::arithmetic::div_mod::lemma_div_denominator(x as int, pow2(k) as int, 2);
    vstd::arithmetic::div_mod::lemma_fundamental_div_mod(y, 2);
    vstd::arithmetic::div_mod::lemma_mod_division_less_than_divisor(y, 2);
}

/// Bit `k` of a digit sequence's value is bit `k % 64` of digit `k / 64`.
pub proof fn lemma_val_seq_bit(s: Seq<u64>, k: nat)
    requires
        k < 64 * s.len(),
    ensures
        nth_bit(val_seq(s), k) == nth_bit(s[(k / 64) as int] as nat, k % 64),
{
    let j = (k / 64) as int;
    let t = k % 64;
    vstd::arithmetic::div_mod::lemma_fundamental_div_mod(k as int, 64);
    vstd::arithmetic::div_mod::lemma_mod_division_less_than_divisor(k as int, 64);
    assert(k == 64 * j + t);
    assert(0 <= j < s.len()) by {
        if j >= s.len() {
            assert(64 * j >= 64 * s.len()) by (nonlinear_arith)
                requires
                    j >= s.len(),
            ;
        }
    }
    lemma_val_seq_split(s, j);
    let lo = val_seq(s.take(j)) as int;
    let hi = val_seq(s.skip(j)) as int;
    let pj = pow2((64 * j) as nat) as int;
    let v = val_seq(s) as int;
    assert(v == lo + pj * hi);
    lemma_val_seq_bound(s.take(j));
    assert(s.take(j).len() == j);
    lemma_pow2_pos((64 * j) as nat);
    // divide out the whole digits below j
    assert(v / pj == hi) by {
        vstd::arithmetic::div_mod::lemma_div_multiples_vanish_fancy(hi, lo, pj);
    }
    // then divide out t more bits
    lemma_pow2_adds((64 * j) as nat, t);
    lemma_pow2_pos(t);
    let pt = pow2(t) as int;
    vstd::arithmetic::div_mod::lemma_div_denominator(v, pj, pt);
    assert(v / pow2(k) as int == hi / pt);
    // the suffix splits into its first digit and the rest
    let d = s[j] as int;
    let rest = val_seq(s.skip(j).skip(1)) as int;
    assert(s.skip(j)[0] == s[j]);
    assert(hi == d + pow2(64) * rest);
    // split the digit at bit t
    lemma_pow2_adds(t, (64 - t) as nat);
    lemma_pow2_pos(t);
    lemma_pow2_pos((64 - t) as nat);
    let pu = pow2((64 - t) as nat) as int;
    vstd::arithmetic::div_mod::lemma_fundamental_div_mod(d, pt);
    vstd::arithmetic::div_mod::lemma_mod_division_less_than_divisor(d, pt);
    let dq = d / pt;
    let dr = d % pt;
    assert(hi == pt * dq + dr + (pt * pu) * rest);
    assert(pt * dq + dr + (pt * pu) * rest == pt * (dq + pu * rest) + dr) by (nonlinear_arith);
    assert(hi / pt == dq + pu * rest) by {
        vstd::arithmetic::div_mod::lemma_div_multiples_vanish_fancy(dq + pu * rest, dr, pt);
    }
    // bit t of the digit is the parity after dividing by pow2(t);
    // the rest contributes an even amount since 64 - t >= 1
    assert(pu * rest % 2 == 0) by {
        lemma_pow2_adds(1, (64 - t - 1) as nat);
        lemma2_to64();
        assert(pu == 2 * pow2((64 - t - 1) as nat));
        assert((2 * pow2((64 - t - 1) as nat)) * rest == 2 * (pow2((64 - t - 1) as nat) * rest))
            by (nonlinear_arith);
        vstd::arithmetic::div_mod::lemma_mod_multiples_basic(
            pow2((64 - t - 1) as nat) as int * rest,
            2,
        );
    }
    assert((dq + pu * rest) % 2 == dq % 2) by {
        vstd::arithmetic::div_mod::lemma_add_mod_noop(dq, pu * rest, 2);
        vstd::arithmetic::div_mod::lemma_mod_twice(dq, 2);
    }
}

/// The bit field of width `w` starting at bit `lo` of `v`.
pub open spec fn bit_field(v: nat, lo: nat, w: nat) -> nat {
    (v / pow2(lo)) % pow2(w)
}

/// Bit `lo + j` of `v` is bit `j` of the part of `v` above `lo`.
proof fn lemma_nth_bit_shift(v: nat, lo: nat, j: nat)
    ensures
        nth_bit(v, lo + j) == ((v / pow2(lo) / pow2(j)) % 2 == 1),
{
    lemma_pow2_adds(lo, j);
    lemma_pow2_pos(lo);
    lemma_pow2_pos(j);
    vstd::arithmetic::div_mod::lemma_div_denominator(v as int, pow2(lo) as int, pow2(j) as int);
}

/// A bit field is zero exactly when every one of its bits is clear.
pub proof fn lemma_field_zero_iff_bits(v: nat, lo: nat, w: nat)
    ensures
        bit_field(v, lo, w) == 0 <==> (forall|k: nat| lo <= k < lo + w ==> !nth_bit(v, k)),
    decreases w,
{
    lemma_pow2_pos(lo);
    let x = v / pow2(lo);
    if w == 0 {
        lemma2_to64();
        vstd::arithmetic::div_mod::lemma_mod_multiples_basic(x as int, 1);
        lemma_mul_basics(x as int);
    } else {
        lemma_field_zero_iff_bits(v, lo, (w - 1) as nat);
        let p = pow2((w - 1) as nat) as int;
        lemma_pow2_pos((w - 1) as nat);
        lemma_pow2_adds((w - 1) as nat, 1);
        lemma2_to64();
        vstd::arithmetic::div_mod::lemma_breakdown(x as int, p, 2);
        lemma_nth_bit_shift(v, lo, (w - 1) as nat);
        let t = (x as int / p) % 2;
        let f1 = x as int % p;
        vstd::arithmetic::div_mod::lemma_mod_division_less_than_divisor(x as int, p);
        vstd::arithmetic::div_mod::lemma_mod_division_less_than_divisor(x as int / p, 2);
        vstd::arithmetic::div_mod::lemma_mod_bound(x as int / p, 2);
        assert(x as int % (p * 2) == p * t + f1);
        assert(pow2(w) == p * 2);
        if t == 0 {
            assert(p * t == 0) by (nonlinear_arith)
                requires
                    t == 0,
            ;
        } else {
            assert(p * t >= p) by (nonlinear_arith)
                requires
                    t >= 1,
                    p >= 1,
            ;
        }
        assert(bit_field(v, lo, w) == 0 <==> (t == 0 && f1 == 0));
        assert(nth_bit(v, lo + (w - 1) as nat) <==> t == 1);
        if bit_field(v, lo, w) == 0 {
            assert forall|k: nat| lo <= k < lo + w implies !nth_bit(v, k) by {
                if k < lo + w - 1 {
                    assert(bit_field(v, lo, (w - 1) as nat) == 0);
                } else {
                    assert(k == lo + (w - 1) as nat);
                }
            }
        } else {
            if forall|k: nat| lo <= k < lo + w ==> !nth_bit(v, k) {
                assert(!nth_bit(v, lo + (w - 1) as nat));
                assert(forall|k: nat| lo <= k < lo + (w - 1) ==> !nth_bit(v, k));
                assert(bit_field(v, lo, (w - 1) as nat) == 0);
                assert(false);
            }
        }
    }
}

/// A bit field holds its largest value exactly when every one of its bits is
/// set.
pub proof fn lemma_field_ones_iff_bits(v: nat, lo: nat, w: nat)
    ensures
        bit_field(v, lo, w) == pow2(w) - 1 <==> (forall|k: nat| lo <= k < lo + w ==> nth_bit(v, k)),
    decreases w,
{
    lemma_pow2_pos(lo);
    let x = v / pow2(lo);
    if w == 0 {
        lemma2_to64();
        vstd::arithmetic::div_mod::lemma_mod_multiples_basic(x as int, 1);
        lemma_mul_basics(x as int);
    } else {
        lemma_field_ones_iff_bits(v, lo, (w - 1) as nat);
        let p = pow2((w - 1) as nat) as int;
        lemma_pow2_pos((w - 1) as nat);
        lemma_pow2_adds((w - 1) as nat, 1);
        lemma2_to64();
        vstd::arithmetic::div_mod::lemma_breakdown(x as int, p, 2);
        lemma_nth_bit_shift(v, lo, (w - 1) as nat);
        let t = (x as int / p) % 2;
        let f1 = x as int % p;
        vstd::arithmetic::div_mod::lemma_mod_division_less_than_divisor(x as int, p);
        vstd::arithmetic::div_mod::lemma_mod_bound(x as int / p, 2);
        assert(x as int % (p * 2) == p * t + f1);
        assert(pow2(w) == p * 2);
        assert(p * 2 - 1 == p * 1 + (p - 1)) by (nonlinear_arith);
        if t == 0 {
            assert(p * t == 0) by (nonlinear_arith)
                requires
                    t == 0,
            ;
        } else {
            assert(p * t == p) by (nonlinear_arith)
                requires
                    t == 1,
            ;
        }
        assert(bit_field(v, lo, w) == pow2(w) - 1 <==> (t == 1 && f1 == p - 1));
        assert(nth_bit(v, lo + (w - 1) as nat) <==> t == 1);
        if bit_field(v, lo, w) == pow2(w) - 1 {
            assert forall|k: nat| lo <= k < lo + w implies nth_bit(v, k) by {
                if k < lo + w - 1 {
                    assert(bit_field(v, lo, (w - 1) as nat) == pow2((w - 1) as nat) - 1);
                } else {
                    assert(k == lo + (w - 1) as nat);
                }
            }
        } else {
            if forall|k: nat| lo <= k < lo + w ==> nth_bit(v, k) {
                assert(nth_bit(v, lo + (w - 1) as nat));
                assert(forall|k: nat| lo <= k < lo + (w - 1) ==> nth_bit(v, k));
                assert(bit_field(v, lo, (w - 1) as nat) == pow2((w - 1) as nat) - 1);
                assert(false);
            }
        }
    }
}

/// Equal-length digit sequences with equal values are equal digit by digit.
pub proof fn lemma_val_seq_injective(a: Seq<u64>, b: Seq<u64>)
    requires
        a.len() == b.len(),
        val_seq(a) == val_seq(b),
    ensures
        a =~= b,
    decreases a.len(),
{
    if a.len() > 0 {
        let i = a.len() - 1;
        if a[i] != b[i] {
            if a[i] > b[i] {
                lemma_val_seq_cmp_at(a, b, i);
            } else {
                lemma_val_seq_cmp_at(b, a, i);
            }
        }
        assert(a[i] == b[i]);
        lemma_val_seq_split(a, i);
        lemma_val_seq_split(b, i);
        assert(a.skip(i) =~= b.skip(i));
        lemma_val_seq_injective(a.take(i), b.take(i));
        assert forall|j: int| 0 <= j < a.len() implies a[j] == b[j] by {
            if j < i {
                assert(a.take(i)[j] == b.take(i)[j]);
            }
        }
    }
}

} // verus!
