//! The cardinality sketch: a register array with bias-correction support.
//!
//! A sketch of precision `p` holds `m = 2^p` byte registers.  Inserting an
//! identifier hashes it to 64 bits, takes the low `p` bits as a register
//! index and the count of leading zeros of the remaining `64 - p` bits,
//! plus one, as a rank; the addressed register keeps the largest rank seen.
//! Merging two sketches takes the pointwise register maximum, so registers
//! only ever grow.  The floating-point estimate itself is a thin layer over
//! two exact integer quantities exposed here: the number of zero registers
//! and the indicator sum `sum 2^(65 - r_i)`, which is `2^65 * sum 2^(-r_i)`.

use vstd::prelude::*;
use crate::hashing::{hash_of, hash_digits};
use crate::node::NodeId;
use vstd::arithmetic::power2::{
    pow2, lemma2_to64, lemma2_to64_rest, lemma_pow2_adds, lemma_pow2_pos,
    lemma_pow2_strictly_increases, lemma_pow2_unfold,
};
use vstd::arithmetic::div_mod::lemma_fundamental_div_mod;
use vstd::arithmetic::mul::{lemma_mul_inequality, lemma_mul_is_distributive_add_other_way};

verus! {

/// The larger of two register values.
pub open spec fn max_u8(a: u8, b: u8) -> u8 {
    if a < b {
        b
    } else {
        a
    }
}

/// The number of binary digits of `n` (zero for `n == 0`).
pub open spec fn bitlen(n: nat) -> nat
    decreases n,
{
    if n == 0 {
        0
    } else {
        1 + bitlen(n / 2)
    }
}

/// The register index addressed by hash `h` at precision `p`: its low
/// `p` bits.
pub open spec fn bucket_of(h: u64, p: nat) -> int {
    (h as int) % (pow2(p) as int)
}

/// The rank recorded by hash `h` at precision `p`: one plus the count of
/// leading zeros of the high `64 - p` hash bits, within that width.
pub open spec fn rank_of(h: u64, p: nat) -> int {
    65 - p - bitlen(((h as int) / (pow2(p) as int)) as nat)
}

/// All-zero registers of precision `p`.
pub open spec fn zero_regs(p: nat) -> Seq<u8> {
    Seq::new(pow2(p), |i: int| 0u8)
}

/// The registers after inserting hash `h` at precision `p`: the addressed
/// register keeps the larger of its value and the hash's rank.
pub open spec fn after_add(regs: Seq<u8>, p: nat, h: u64) -> Seq<u8> {
    regs.update(bucket_of(h, p), max_u8(regs[bucket_of(h, p)], rank_of(h, p) as u8))
}

/// The pointwise maximum of two register arrays of equal length.
pub open spec fn merge_regs(a: Seq<u8>, b: Seq<u8>) -> Seq<u8> {
    Seq::new(a.len(), |i: int| max_u8(a[i], b[i]))
}

/// How many registers are still zero.
pub open spec fn count_zeros(s: Seq<u8>) -> int
    decreases s.len(),
{
    if s.len() == 0 {
        0
    } else {
        count_zeros(s.drop_last()) + if s.last() == 0 {
            1int
        } else {
            0int
        }
    }
}

/// The indicator sum `sum 2^(65 - s[i])`, i.e. `2^65 * sum 2^(-s[i])`.
pub open spec fn indicator_sum(s: Seq<u8>) -> int
    decreases s.len(),
{
    if s.len() == 0 {
        0
    } else {
        indicator_sum(s.drop_last()) + pow2((65 - s.last()) as nat)
    }
}

/// A binary digit count is bounded by the exponent of any power of two
/// above the number.
proof fn lemma_bitlen_bound(n: nat, k: nat)
    requires
        n < pow2(k),
    ensures
        bitlen(n) <= k,
    decreases k,
{
    if n == 0 {
    } else {
        if k == 0 {
            lemma2_to64();
            assert(false);
        }
        lemma_pow2_unfold(k);
        assert(n / 2 < pow2((k - 1) as nat)) by {
            lemma_fundamental_div_mod(n as int, 2);
        }
        lemma_bitlen_bound(n / 2, (k - 1) as nat);
    }
}

/// `2^p` as a machine word, for small `p`.
fn pow2_usize(e: u8) -> (r: usize)
    requires
        e <= 16,
    ensures
        r == pow2(e as nat),
{
    proof {
        lemma2_to64();
    }
    let mut r: usize = 1;
    let mut i: u8 = 0;
    while i < e
        invariant
            i <= e,
            e <= 16,
            r == pow2(i as nat),
            r <= 0x10000,
        decreases e - i,
    {
        proof {
            lemma_pow2_unfold((i + 1) as nat);
            lemma2_to64();
            if i + 1 < 17 {
                lemma_pow2_strictly_increases((i + 1) as nat, 17);
            }
        }
        r = r * 2;
        i = i + 1;
    }
    r
}

/// `2^e` as a 128-bit word, for exponents up to 65.
fn pow2_u128(e: u8) -> (r: u128)
    requires
        e <= 65,
    ensures
        r as int == pow2(e as nat),
{
    proof {
        lemma2_to64();
        lemma_pow2_pos(65);
    }
    let mut r: u128 = 1;
    let mut i: u8 = 0;
    while i < e
        invariant
            i <= e,
            e <= 65,
            r as int == pow2(i as nat),
            r as int <= pow2(65),
        decreases e - i,
    {
        proof {
            lemma_pow2_unfold((i + 1) as nat);
            if i + 1 < 65 {
                lemma_pow2_strictly_increases((i + 1) as nat, 65);
            }
            lemma_pow2_adds(64, 1);
            lemma2_to64();
            lemma2_to64_rest();
        }
        r = r * 2;
        i = i + 1;
    }
    r
}

/// The count of binary digits of a 64-bit word.
fn bit_length(x: u64) -> (r: u8)
    ensures
        r as nat == bitlen(x as nat),
{
    proof {
        lemma2_to64();
        lemma2_to64_rest();
        lemma_bitlen_bound(x as nat, 64);
    }
    let mut v: u64 = x;
    let mut len: u8 = 0;
    while v > 0
        invariant
            len as nat + bitlen(v as nat) == bitlen(x as nat),
            bitlen(x as nat) <= 64,
        decreases v,
    {
        v = v / 2;
        len = len + 1;
    }
    len
}

/// An element-wise copy of a register vector.
fn copy_regs(v: &Vec<u8>) -> (r: Vec<u8>)
    ensures
        r@ == v@,
{
    let mut r: Vec<u8> = Vec::new();
    let n = v.len();
    let mut i: usize = 0;
    while i < n
        invariant
            i <= n,
            n == v@.len(),
            r@ == v@.subrange(0, i as int),
        decreases n - i,
    {
        r.push(v[i]);
        proof {
            assert(r@ =~= v@.subrange(0, i + 1));
        }
        i = i + 1;
    }
    proof {
        assert(r@ =~= v@);
    }
    r
}

/// A fixed-memory probabilistic estimator of the number of distinct
/// identifiers inserted into it.
pub struct HyperLogLog {
    p: u8,
    registers: Vec<u8>,
}

impl HyperLogLog {
    /// The precision: the register count is `2^prec()`.
    pub closed spec fn prec(&self) -> nat {
        self.p as nat
    }

    /// The register values.
    pub closed spec fn regs(&self) -> Seq<u8> {
        self.registers@
    }

    /// Well-formed: precision at most 16, exactly `2^p` registers, every
    /// register within the bound set by the 64-bit hash width.
    pub open spec fn wf(&self) -> bool {
        &&& self.prec() <= 16
        &&& self.regs().len() == pow2(self.prec())
        &&& forall|i: int| 0 <= i < self.regs().len() ==> self.regs()[i] <= 65
    }

    /// A fresh sketch of precision `p`: `2^p` registers, all zero.
    pub fn new(p: u8) -> (r: HyperLogLog)
        requires
            p <= 16,
        ensures
            r.wf(),
            r.prec() == p as nat,
            r.regs() == zero_regs(p as nat),
    {
        let m = pow2_usize(p);
        let mut registers: Vec<u8> = Vec::new();
        let mut i: usize = 0;
        while i < m
            invariant
                i <= m,
                registers@ == Seq::new(i as nat, |j: int| 0u8),
            decreases m - i,
        {
            registers.push(0);
            proof {
                assert(registers@ =~= Seq::new((i + 1) as nat, |j: int| 0u8));
            }
            i = i + 1;
        }
        proof {
            assert(Seq::new(m as nat, |j: int| 0u8) =~= zero_regs(p as nat));
        }
        HyperLogLog { p, registers }
    }

    /// Insert one identifier: hash it, and raise the addressed register to
    /// the hash's rank if that is larger.
    pub fn add(&mut self, id: &NodeId)
        requires
            old(self).wf(),
        ensures
            final(self).wf(),
            final(self).prec() == old(self).prec(),
            final(self).regs() == after_add(old(self).regs(), old(self).prec(), hash_of(id@)),
    {
        let h = hash_digits(id.digits());
        let m64 = self.registers.len() as u64;
        proof {
            lemma_pow2_pos(self.prec());
            lemma2_to64();
            if self.prec() < 17 {
                lemma_pow2_strictly_increases(self.prec(), 17);
            }
        }
        let idx = (h % m64) as usize;
        let high = h / m64;
        let bl = bit_length(high);
        proof {
            // The high bits fit in 64 - p binary digits.
            lemma2_to64_rest();
            lemma_pow2_adds((64 - self.prec()) as nat, self.prec());
            lemma_fundamental_div_mod(h as int, m64 as int);
            if high as int >= pow2((64 - self.prec()) as nat) {
                lemma_mul_inequality(
                    pow2((64 - self.prec()) as nat) as int,
                    high as int,
                    pow2(self.prec()) as int,
                );
                assert(false);
            }
            lemma_bitlen_bound(high as nat, (64 - self.prec()) as nat);
        }
        let rank: u8 = 65 - self.p - bl;
        let cur = self.registers[idx];
        if cur < rank {
            self.registers[idx] = rank;
        } else {
            proof {
                assert(self.regs() =~= self.regs().update(idx as int, max_u8(cur, rank)));
            }
        }
    }

    /// Merge another sketch of the same precision into this one by taking
    /// the pointwise register maximum; no register decreases.
    pub fn union(&mut self, other: &HyperLogLog)
        requires
            old(self).wf(),
            other.wf(),
            old(self).prec() == other.prec(),
        ensures
            final(self).wf(),
            final(self).prec() == old(self).prec(),
            final(self).regs() == merge_regs(old(self).regs(), other.regs()),
    {
        let n = self.registers.len();
        let mut i: usize = 0;
        while i < n
            invariant
                i <= n,
                n == old(self).regs().len(),
                n == other.regs().len(),
                self.p == old(self).p,
                self.regs().len() == n,
                forall|j: int| 0 <= j < i ==> self.regs()[j] == max_u8(old(self).regs()[j], other.regs()[j]),
                forall|j: int| i <= j < n ==> self.regs()[j] == old(self).regs()[j],
            decreases n - i,
        {
            let o = other.registers[i];
            if self.registers[i] < o {
                self.registers[i] = o;
            }
            i = i + 1;
        }
        proof {
            assert(self.regs() =~= merge_regs(old(self).regs(), other.regs()));
        }
    }

    /// Overwrite this sketch's registers with another's, verbatim.
    pub fn set_registers(&mut self, other: &HyperLogLog)
        requires
            old(self).wf(),
            other.wf(),
            old(self).prec() == other.prec(),
        ensures
            final(self).wf(),
            final(self).prec() == old(self).prec(),
            final(self).regs() == other.regs(),
    {
        let n = self.registers.len();
        let mut i: usize = 0;
        while i < n
            invariant
                i <= n,
                n == old(self).regs().len(),
                n == other.regs().len(),
                self.p == old(self).p,
                self.regs().len() == n,
                forall|j: int| 0 <= j < i ==> self.regs()[j] == other.regs()[j],
                forall|j: int| i <= j < n ==> self.regs()[j] == old(self).regs()[j],
            decreases n - i,
        {
            self.registers[i] = other.registers[i];
            i = i + 1;
        }
        proof {
            assert(self.regs() =~= other.regs());
        }
    }

    /// The precision parameter.
    pub fn precision(&self) -> (r: u8)
        ensures
            r as nat == self.prec(),
    {
        self.p
    }

    /// The number of registers, `2^p`.
    pub fn register_count(&self) -> (r: usize)
        ensures
            r == self.regs().len(),
    {
        self.registers.len()
    }

    /// How many registers are still zero.
    pub fn zero_count(&self) -> (r: u32)
        requires
            self.wf(),
        ensures
            r as int == count_zeros(self.regs()),
    {
        proof {
            lemma2_to64();
            if self.prec() < 16 {
                lemma_pow2_strictly_increases(self.prec(), 16);
            }
        }
        let n = self.registers.len();
        let mut cnt: u32 = 0;
        let mut i: usize = 0;
        while i < n
            invariant
                i <= n,
                n == self.regs().len(),
                n <= 0x10000,
                cnt as int == count_zeros(self.regs().subrange(0, i as int)),
                cnt <= i,
            decreases n - i,
        {
            if self.registers[i] == 0 {
                cnt = cnt + 1;
            }
            proof {
                assert(self.regs().subrange(0, i + 1).drop_last() =~= self.regs().subrange(
                    0,
                    i as int,
                ));
                assert(self.regs().subrange(0, i + 1).last() == self.regs()[i as int]);
            }
            i = i + 1;
        }
        proof {
            assert(self.regs().subrange(0, n as int) =~= self.regs());
        }
        cnt
    }

    /// The indicator sum `sum 2^(65 - r_i)` over all registers, exactly.
    ///
    /// The raw cardinality estimate is `alpha * m^2 * 2^65` divided by this
    /// quantity; the division and the bias correction are floating-point
    /// work for the caller.
    pub fn indicator_numerator(&self) -> (r: u128)
        requires
            self.wf(),
        ensures
            r as int == indicator_sum(self.regs()),
    {
        proof {
            lemma2_to64();
            lemma2_to64_rest();
            lemma_pow2_adds(64, 1);
            lemma_pow2_adds(64, 17);
            if self.prec() < 16 {
                lemma_pow2_strictly_increases(self.prec(), 16);
            }
        }
        let n = self.registers.len();
        let mut sum: u128 = 0;
        let mut i: usize = 0;
        while i < n
            invariant
                i <= n,
                n == self.regs().len(),
                n <= 0x10000,
                forall|j: int| 0 <= j < n ==> self.regs()[j] <= 65,
                sum as int == indicator_sum(self.regs().subrange(0, i as int)),
                sum as int <= (i as int) * pow2(65),
            decreases n - i,
        {
            let reg = self.registers[i];
            let term = pow2_u128(65 - reg);
            proof {
                if 65 - reg < 65 {
                    lemma_pow2_strictly_increases((65 - reg) as nat, 65);
                }
                lemma_mul_is_distributive_add_other_way(pow2(65) as int, i as int, 1);
                lemma_mul_inequality(i as int + 1, 0x10000, pow2(65) as int);
                lemma_pow2_adds(16, 65);
                lemma2_to64();
                lemma2_to64_rest();
                lemma_pow2_adds(64, 17);
                assert(pow2(81) == pow2(64) * pow2(17));
                assert(self.regs().subrange(0, i + 1).drop_last() =~= self.regs().subrange(
                    0,
                    i as int,
                ));
                assert(self.regs().subrange(0, i + 1).last() == self.regs()[i as int]);
            }
            sum = sum + term;
            i = i + 1;
        }
        proof {
            assert(self.regs().subrange(0, n as int) =~= self.regs());
        }
        sum
    }
}

impl Clone for HyperLogLog {
    /// A deep copy: same precision, its own copy of the registers.
    fn clone(&self) -> (r: Self)
        ensures
            r.prec() == self.prec(),
            r.regs() == self.regs(),
    {
        HyperLogLog { p: self.p, registers: copy_regs(&self.registers) }
    }
}

impl PartialEq for HyperLogLog {
    fn eq(&self, other: &Self) -> (r: bool) {
        if self.registers.len() != other.registers.len() {
            return false;
        }
        let n = self.registers.len();
        let mut i: usize = 0;
        while i < n
            invariant
                i <= n,
                n == self.regs().len(),
                n == other.regs().len(),
                forall|j: int| 0 <= j < i ==> self.regs()[j] == other.regs()[j],
            decreases n - i,
        {
            if self.registers[i] != other.registers[i] {
                return false;
            }
            i = i + 1;
        }
        proof {
            assert(self.regs() =~= other.regs());
        }
        true
    }
}

impl vstd::std_specs::cmp::PartialEqSpecImpl for HyperLogLog {
    open spec fn obeys_eq_spec() -> bool {
        true
    }

    /// Equality compares the registers alone, positionally; it is exact,
    /// not approximate, and is what convergence detection relies on.
    open spec fn eq_spec(&self, other: &Self) -> bool {
        self.regs() == other.regs()
    }
}

/// Merging a sketch with a register-identical copy changes nothing: the
/// pointwise maximum of equal register arrays is that array itself.
pub proof fn lemma_union_idempotent(s: Seq<u8>)
    ensures
        merge_regs(s, s) == s,
{
    assert(merge_regs(s, s) =~= s);
}

/// Raising registers can only lower the indicator sum: if `b` dominates
/// `a` pointwise, `b`'s indicator sum is at most `a`'s.  Since the raw
/// estimate divides by the indicator sum, estimates never decrease as
/// registers grow.
pub proof fn lemma_indicator_antitone(a: Seq<u8>, b: Seq<u8>)
    requires
        a.len() == b.len(),
        forall|i: int| 0 <= i < a.len() ==> a[i] <= b[i],
        forall|i: int| 0 <= i < b.len() ==> b[i] <= 65,
    ensures
        indicator_sum(b) <= indicator_sum(a),
    decreases a.len(),
{
    if a.len() == 0 {
    } else {
        lemma_indicator_antitone(a.drop_last(), b.drop_last());
        if a.last() < b.last() {
            lemma_pow2_strictly_increases((65 - b.last()) as nat, (65 - a.last()) as nat);
        }
    }
}

} // verus!
