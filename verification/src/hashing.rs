//! A 64-bit hash of a node identifier's digit sequence.
//!
//! The sketch needs a uniformly distributed 64-bit hash of each inserted
//! identifier.  This module absorbs the identifier's base-2^64 digits with
//! the 64-bit FNV-1a step and then applies a 64-bit avalanche finisher, so
//! that the low index bits are well mixed too.  The whole computation is
//! executable and is specified exactly by the spec functions below.

use vstd::prelude::*;

verus! {

/// Offset basis of the 64-bit FNV-1a hash.
pub const FNV_OFFSET: u64 = 0xcbf29ce484222325;

/// Prime multiplier of the 64-bit FNV-1a hash.
pub const FNV_PRIME: u64 = 0x100000001b3;

/// First multiplier of the avalanche finisher.
pub const MIX_MUL_A: u64 = 0xff51afd7ed558ccd;

/// Second multiplier of the avalanche finisher.
pub const MIX_MUL_B: u64 = 0xc4ceb9fe1a85ec53;

/// Product of two 64-bit words, truncated to the low 64 bits.
pub open spec fn wrap_mul(a: u64, b: u64) -> u64 {
    (a * b) as u64
}

/// One FNV-1a step: fold one byte into the state.
pub open spec fn fnv_step(h: u64, byte: u8) -> u64 {
    wrap_mul(h ^ (byte as u64), FNV_PRIME)
}

/// Fold the low `k` bytes of one digit into the state, least significant
/// byte first.
pub open spec fn fnv_digit(h: u64, digit: u64, k: int) -> u64
    decreases k,
{
    if k <= 0 {
        h
    } else {
        fnv_step(fnv_digit(h, digit, k - 1), (digit >> (8 * (k - 1))) as u8)
    }
}

/// Fold the first `i` digits of the sequence into the state.
pub open spec fn fnv_digits(s: Seq<u64>, i: int) -> u64
    decreases i,
{
    if i <= 0 {
        FNV_OFFSET
    } else {
        fnv_digit(fnv_digits(s, i - 1), s[i - 1], 8)
    }
}

/// The avalanche finisher: xor-shifts and multiplies so that every input
/// bit influences every output bit.
pub open spec fn mix64(h: u64) -> u64 {
    let h1 = h ^ (h >> 33);
    let h2 = wrap_mul(h1, MIX_MUL_A);
    let h3 = h2 ^ (h2 >> 33);
    let h4 = wrap_mul(h3, MIX_MUL_B);
    h4 ^ (h4 >> 33)
}

/// The hash of a digit sequence: FNV-1a over the bytes of the digits,
/// then the avalanche finisher.
pub open spec fn hash_of(s: Seq<u64>) -> u64 {
    mix64(fnv_digits(s, s.len() as int))
}

/// Multiply two 64-bit words, keeping the low 64 bits of the product.
fn wrap_mul_exec(a: u64, b: u64) -> (r: u64)
    ensures
        r == wrap_mul(a, b),
{
    proof {
        assert((a as int) * (b as int) <= (u64::MAX as int) * (u64::MAX as int))
            by (nonlinear_arith)
            requires
                a <= u64::MAX,
                b <= u64::MAX,
        ;
    }
    ((a as u128) * (b as u128)) as u64
}

/// The avalanche finisher, executably.
fn mix64_exec(h: u64) -> (r: u64)
    ensures
        r == mix64(h),
{
    let h1 = h ^ (h >> 33);
    let h2 = wrap_mul_exec(h1, MIX_MUL_A);
    let h3 = h2 ^ (h2 >> 33);
    let h4 = wrap_mul_exec(h3, MIX_MUL_B);
    h4 ^ (h4 >> 33)
}

/// The 64-bit hash of a digit sequence, least significant digit first.
pub fn hash_digits(digits: &Vec<u64>) -> (r: u64)
    ensures
        r == hash_of(digits@),
{
    let mut h: u64 = FNV_OFFSET;
    let n = digits.len();
    let mut i: usize = 0;
    while i < n
        invariant
            i <= n,
            n == digits@.len(),
            h == fnv_digits(digits@, i as int),
        decreases n - i,
    {
        let digit = digits[i];
        let mut k: usize = 0;
        while k < 8
            invariant
                k <= 8,
                h == fnv_digit(fnv_digits(digits@, i as int), digit, k as int),
        decreases 8 - k,
        {
            let byte = (digit >> (8 * k as u32)) as u8;
            h = wrap_mul_exec(h ^ (byte as u64), FNV_PRIME);
            k = k + 1;
        }
        proof {
            assert(h == fnv_digits(digits@, i + 1));
        }
        i = i + 1;
    }
    mix64_exec(h)
}

} // verus!
