//! Arbitrary-precision node identifiers.
//!
//! Graphs may have more nodes than a machine word can count, so a node
//! identifier is an arbitrary-precision non-negative integer, stored as its
//! base-2^64 digits, least significant first.  The representation is kept
//! canonical (no most-significant zero digit), so two identifiers denote the
//! same number exactly when their digit sequences are equal.

use vstd::prelude::*;
use vstd::arithmetic::power2::{pow2, lemma_pow2_pos, lemma2_to64, lemma2_to64_rest};
use vstd::arithmetic::div_mod::lemma_fundamental_div_mod_converse;
use vstd::arithmetic::mul::lemma_mul_is_commutative;

verus! {

/// An arbitrary-precision non-negative node identifier.
///
/// The view is the digit sequence, least significant digit first; the empty
/// sequence denotes zero.
pub struct NodeId {
    digits: Vec<u64>,
}

impl View for NodeId {
    type V = Seq<u64>;

    closed spec fn view(&self) -> Seq<u64> {
        self.digits@
    }
}

/// Drop most-significant zero digits until the sequence is canonical.
pub open spec fn canon(s: Seq<u64>) -> Seq<u64>
    decreases s.len(),
{
    if s.len() == 0 || s.last() != 0 {
        s
    } else {
        canon(s.drop_last())
    }
}

impl NodeId {
    /// The representation is canonical: no most-significant zero digit.
    pub open spec fn wf(&self) -> bool {
        self@.len() == 0 || self@.last() != 0
    }

    /// The identifier with the value of one machine word.
    pub fn from_u64(value: u64) -> (r: NodeId)
        ensures
            r.wf(),
            r@ == if value == 0 { Seq::<u64>::empty() } else { seq![value] },
    {
        let mut digits: Vec<u64> = Vec::new();
        if value != 0 {
            digits.push(value);
        }
        NodeId { digits }
    }

    /// The identifier with the given digit sequence, least significant
    /// first; most-significant zero digits are dropped.
    pub fn from_digits(digits: Vec<u64>) -> (r: NodeId)
        ensures
            r.wf(),
            r@ == canon(digits@),
    {
        let mut digits = digits;
        let ghost orig = digits@;
        while digits.len() > 0 && digits[digits.len() - 1] == 0
            invariant
                canon(digits@) == canon(orig),
            decreases digits@.len(),
        {
            digits.pop();
        }
        NodeId { digits }
    }

    /// The digit sequence, least significant digit first.
    pub fn digits(&self) -> (r: &Vec<u64>)
        ensures
            r@ == self@,
    {
        &self.digits
    }
}

/// The number a digit sequence denotes, least significant digit first,
/// in base 2^64.
pub open spec fn value_of(s: Seq<u64>) -> nat
    decreases s.len(),
{
    if s.len() == 0 {
        0
    } else {
        (s[0] as nat) + pow2(64) * value_of(s.subrange(1, s.len() as int))
    }
}

/// A canonical non-empty sequence denotes a positive number.
proof fn lemma_value_pos(s: Seq<u64>)
    requires
        s.len() > 0,
        s.last() != 0,
    ensures
        value_of(s) > 0,
    decreases s.len(),
{
    lemma_pow2_pos(64);
    if s.len() == 1 {
        assert(s[0] == s.last());
    } else {
        let rest = s.subrange(1, s.len() as int);
        assert(rest.last() == s.last());
        lemma_value_pos(rest);
        assert(pow2(64) * value_of(rest) > 0) by (nonlinear_arith)
            requires
                pow2(64) > 0,
                value_of(rest) > 0,
        ;
    }
}

/// Dropping a most-significant zero digit does not change the number.
proof fn lemma_value_drop_zero(s: Seq<u64>)
    requires
        s.len() > 0,
        s.last() == 0,
    ensures
        value_of(s) == value_of(s.drop_last()),
    decreases s.len(),
{
    if s.len() == 1 {
        assert(s.subrange(1, 1) =~= Seq::<u64>::empty());
        assert(s.drop_last() =~= Seq::<u64>::empty());
        assert(value_of(Seq::<u64>::empty()) == 0);
        assert(value_of(s) == (s[0] as nat) + pow2(64) * value_of(s.subrange(1, 1)));
        assert(s[0] == 0);
        lemma_pow2_pos(64);
        assert(pow2(64) * 0 == 0) by (nonlinear_arith);
    } else {
        let rest = s.subrange(1, s.len() as int);
        let d = s.drop_last();
        assert(rest.last() == s.last());
        lemma_value_drop_zero(rest);
        assert(rest.drop_last() =~= d.subrange(1, d.len() as int));
        assert(value_of(d) == (d[0] as nat) + pow2(64) * value_of(d.subrange(1, d.len() as int)));
        assert(value_of(s) == (s[0] as nat) + pow2(64) * value_of(rest));
        assert(d[0] == s[0]);
        assert(value_of(rest) == value_of(d.subrange(1, d.len() as int)));
    }
}

/// Normalisation does not change the number a sequence denotes.
pub proof fn lemma_canon_value(s: Seq<u64>)
    ensures
        value_of(canon(s)) == value_of(s),
    decreases s.len(),
{
    if s.len() == 0 || s.last() != 0 {
    } else {
        lemma_value_drop_zero(s);
        lemma_canon_value(s.drop_last());
    }
}

/// The canonical representation is unique: two canonical digit sequences
/// denote the same number exactly when they are equal.  Identifier
/// equality is therefore equality of the numbers the identifiers denote.
pub proof fn lemma_canonical_value_injective(s: Seq<u64>, t: Seq<u64>)
    requires
        s.len() == 0 || s.last() != 0,
        t.len() == 0 || t.last() != 0,
        value_of(s) == value_of(t),
    ensures
        s == t,
    decreases s.len(),
{
    lemma_pow2_pos(64);
    lemma2_to64();
    lemma2_to64_rest();
    if s.len() == 0 && t.len() == 0 {
        assert(s =~= t);
    } else if s.len() == 0 {
        lemma_value_pos(t);
    } else if t.len() == 0 {
        lemma_value_pos(s);
    } else {
        let srest = s.subrange(1, s.len() as int);
        let trest = t.subrange(1, t.len() as int);
        lemma_mul_is_commutative(pow2(64) as int, value_of(srest) as int);
        lemma_mul_is_commutative(pow2(64) as int, value_of(trest) as int);
        lemma_fundamental_div_mod_converse(
            value_of(s) as int,
            pow2(64) as int,
            value_of(srest) as int,
            s[0] as int,
        );
        lemma_fundamental_div_mod_converse(
            value_of(t) as int,
            pow2(64) as int,
            value_of(trest) as int,
            t[0] as int,
        );
        assert(s[0] == t[0]);
        assert(value_of(srest) == value_of(trest));
        if s.len() > 1 {
            assert(srest.last() == s.last());
        }
        if t.len() > 1 {
            assert(trest.last() == t.last());
        }
        lemma_canonical_value_injective(srest, trest);
        assert(s.len() == t.len());
        assert forall|i: int| 0 <= i < s.len() implies s[i] == t[i] by {
            if i > 0 {
                assert(s[i] == srest[i - 1]);
                assert(t[i] == trest[i - 1]);
            }
        }
        assert(s =~= t);
    }
}

/// An element-wise copy of a digit vector.
fn copy_digits(v: &Vec<u64>) -> (r: Vec<u64>)
    ensures
        r@ == v@,
{
    let mut r: Vec<u64> = Vec::new();
    let n = v.len();
    let mut i: usize = 0;
    while i < n
        invariant
            i <= n,
            n == v@.len(),
            r@ == v@.subrange(0, i as int),
        decreases n - i,
    {
        r.push(v[i]);
        proof {
            assert(r@ =~= v@.subrange(0, i + 1));
        }
        i = i + 1;
    }
    proof {
        assert(r@ =~= v@);
    }
    r
}

impl Clone for NodeId {
    /// A deep copy with the same digit sequence.
    fn clone(&self) -> (r: Self)
        ensures
            r@ == self@,
    {
        NodeId { digits: copy_digits(&self.digits) }
    }
}

impl PartialEq for NodeId {
    fn eq(&self, other: &Self) -> (r: bool) {
        if self.digits.len() != other.digits.len() {
            return false;
        }
        let n = self.digits.len();
        let mut i: usize = 0;
        while i < n
            invariant
                i <= n,
                n == self@.len(),
                n == other@.len(),
                forall|j: int| 0 <= j < i ==> self@[j] == other@[j],
            decreases n - i,
        {
            if self.digits[i] != other.digits[i] {
                return false;
            }
            i = i + 1;
        }
        proof {
            assert(self@ =~= other@);
        }
        true
    }
}

impl vstd::std_specs::cmp::PartialEqSpecImpl for NodeId {
    open spec fn obeys_eq_spec() -> bool {
        true
    }

    open spec fn eq_spec(&self, other: &Self) -> bool {
        self@ == other@
    }
}

} // verus!
