//! Carrying primitives on single 64-bit digits. Each captures the full
//! double-width result, so no carry is lost before it is returned.
use vstd::prelude::*;
use vstd::arithmetic::power2::*;
use vstd::arithmetic::mul::*;
use vstd::arithmetic::div_mod::*;

verus! {

/// Adds two digits and a carry bit; returns the low digit and the carry out.
pub fn carrying_add(a: u64, b: u64, carry: bool) -> (r: (u64, bool))
    ensures
        r.0 as nat + (if r.1 {
            pow2(64)
        } else {
            0nat
        }) == a as nat + b as nat + (if carry {
            1nat
        } else {
            0nat
        }),
{
    proof {
        lemma2_to64();
    }
    let t: u128 = a as u128 + b as u128 + (if carry {
        1u128
    } else {
        0u128
    });
    let lo: u64 = (t % 0x1_0000_0000_0000_0000u128) as u64;
    let hi: bool = t >= 0x1_0000_0000_0000_0000u128;
    proof {
        lemma_fundamental_div_mod(t as int, 0x1_0000_0000_0000_0000);
        assert(t / 0x1_0000_0000_0000_0000 == if hi {
            1int
        } else {
            0int
        });
    }
    (lo, hi)
}

/// Subtracts a digit and a borrow bit from `a`; returns the low digit and the
/// borrow out.
pub fn borrowing_sub(a: u64, b: u64, borrow: bool) -> (r: (u64, bool))
    ensures
        r.0 as int - (if r.1 {
            pow2(64) as int
        } else {
            0int
        }) == a as int - b as int - (if borrow {
            1int
        } else {
            0int
        }),
{
    proof {
        lemma2_to64();
    }
    let t: i128 = a as i128 - b as i128 - (if borrow {
        1i128
    } else {
        0i128
    });
    if t >= 0 {
        (t as u64, false)
    } else {
        ((t + 0x1_0000_0000_0000_0000i128) as u64, true)
    }
}

/// Multiplies two digits and adds an accumulator digit and a carry digit;
/// returns the low and high digits of the full double-width result.
pub fn carrying_mul(a: u64, b: u64, acc: u64, carry: u64) -> (r: (u64, u64))
    ensures
        r.0 as nat + pow2(64) * r.1 as nat == a as nat * b as nat + acc as nat + carry as nat,
{
    proof {
        lemma2_to64();
        lemma_mul_upper_bound(a as int, 0xFFFF_FFFF_FFFF_FFFF, b as int, 0xFFFF_FFFF_FFFF_FFFF);
    }
    let t: u128 = a as u128 * b as u128 + acc as u128 + carry as u128;
    let lo: u64 = (t % 0x1_0000_0000_0000_0000u128) as u64;
    let hi: u64 = (t / 0x1_0000_0000_0000_0000u128) as u64;
    proof {
        lemma_fundamental_div_mod(t as int, 0x1_0000_0000_0000_0000);
    }
    (lo, hi)
}

} // verus!
