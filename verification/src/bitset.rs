//! A small set of integers in the range 0..64, stored as a `u64` bitmask:
//! bit `i` is set exactly when element `i` is a member.

use vstd::prelude::*;
use vstd::std_specs::bits::axiom_u64_trailing_zeros;
use vstd::std_specs::bits::u64_trailing_zeros;

verus! {

/// One bit of `v`, as an integer: 1 if element `i` is a member, 0 otherwise.
pub open spec fn bit(v: u64, i: u64) -> int {
    ((v >> i) & 1) as int
}

/// The population count (number of set bits) of `v`, written as a plain sum
/// so that bit-vector proofs can reason about it directly.
pub open spec fn popcnt(v: u64) -> int {
    bit(v, 0) + bit(v, 1) + bit(v, 2) + bit(v, 3) + bit(v, 4) + bit(v, 5) + bit(v, 6) + bit(v, 7)
        + bit(v, 8) + bit(v, 9) + bit(v, 10) + bit(v, 11) + bit(v, 12) + bit(v, 13) + bit(v, 14)
        + bit(v, 15) + bit(v, 16) + bit(v, 17) + bit(v, 18) + bit(v, 19) + bit(v, 20) + bit(v, 21)
        + bit(v, 22) + bit(v, 23) + bit(v, 24) + bit(v, 25) + bit(v, 26) + bit(v, 27) + bit(v, 28)
        + bit(v, 29) + bit(v, 30) + bit(v, 31) + bit(v, 32) + bit(v, 33) + bit(v, 34) + bit(v, 35)
        + bit(v, 36) + bit(v, 37) + bit(v, 38) + bit(v, 39) + bit(v, 40) + bit(v, 41) + bit(v, 42)
        + bit(v, 43) + bit(v, 44) + bit(v, 45) + bit(v, 46) + bit(v, 47) + bit(v, 48) + bit(v, 49)
        + bit(v, 50) + bit(v, 51) + bit(v, 52) + bit(v, 53) + bit(v, 54) + bit(v, 55) + bit(v, 56)
        + bit(v, 57) + bit(v, 58) + bit(v, 59) + bit(v, 60) + bit(v, 61) + bit(v, 62) + bit(v, 63)
}

/// The population count of any 64-bit value lies between 0 and 64.
#[verifier::rlimit(100)]
pub proof fn lemma_popcnt_range(v: u64)
    by (bit_vector)
    ensures
        0 <= popcnt(v) <= 64,
{
}

/// A set of integers drawn from 0..64, as a bitmask.
#[derive(Clone, Copy, Debug, PartialEq, Eq, Structural)]
pub struct BitSet(pub u64);

impl From<u64> for BitSet {
    fn from(val: u64) -> (r: BitSet) {
        BitSet(val)
    }
}

impl vstd::std_specs::convert::FromSpecImpl<u64> for BitSet {
    open spec fn obeys_from_spec() -> bool {
        true
    }

    open spec fn from_spec(val: u64) -> BitSet {
        BitSet(val)
    }
}

/// The ascending sequence of members of the bitmask `v`, obtained by
/// repeatedly isolating and clearing the lowest set bit.
pub open spec fn elems_seq(v: u64) -> Seq<u64>
    decreases v,
{
    if v == 0 {
        Seq::empty()
    } else {
        proof {
            axiom_u64_trailing_zeros(v);
            let t = u64_trailing_zeros(v) as u64;
            assert(t < 64 && (v >> t) & 1 == 1 ==> (v ^ (1u64 << t)) < v) by (bit_vector);
        }
        seq![u64_trailing_zeros(v) as u64] + elems_seq(v ^ (1u64 << (u64_trailing_zeros(v) as u64)))
    }
}

/// The member list of a bitmask names each set bit exactly once, in strictly
/// ascending order, and has one entry per member.
#[verifier::rlimit(100)]
pub proof fn lemma_elems_seq(v: u64)
    ensures
        ({
            let s = elems_seq(v);
            &&& s.len() == popcnt(v)
            &&& forall|j: int| 0 <= j < s.len() ==> (v >> #[trigger] s[j]) & 1 == 1 && s[j] < 64
            &&& forall|i: int, j: int| 0 <= i < j < s.len() ==> s[i] < s[j]
        }),
    decreases v,
{
    if v == 0 {
        assert(popcnt(0u64) == 0) by (bit_vector);
    } else {
        axiom_u64_trailing_zeros(v);
        let t = u64_trailing_zeros(v) as u64;
        let v2 = v ^ (1u64 << t);
        assert(t < 64 && (v >> t) & 1 == 1 ==> v2 < v && popcnt(v2) == popcnt(v) - 1) by (bit_vector)
            requires
                v2 == v ^ (1u64 << t),
        ;
        lemma_elems_seq(v2);
        let s = elems_seq(v);
        let tail = elems_seq(v2);
        assert(forall|e: u64|
            e < 64 && (v2 >> e) & 1 == 1 ==> (v >> e) & 1 == 1 && e > t) by (bit_vector)
            requires
                t < 64,
                v2 == v ^ (1u64 << t),
                (v >> t) & 1 == 1,
                v << ((64 - t) as u64) == 0,
        ;
        assert forall|i: int, j: int| 0 <= i < j < s.len() implies s[i] < s[j] by {
            if i >= 1 {
                assert(tail[i - 1] < tail[j - 1]);
            } else {
                assert((v2 >> tail[j - 1]) & 1 == 1);
            }
        }
        assert forall|j: int| 0 <= j < s.len() implies (v >> #[trigger] s[j]) & 1 == 1 && s[j]
            < 64 by {
            if j >= 1 {
                assert((v2 >> tail[j - 1]) & 1 == 1);
            }
        }
    }
}

impl BitSet {
    /// The number of members of the set (the population count of the mask).
    #[verifier::rlimit(100)]
    pub fn len(&self) -> (r: u32)
        ensures
            r as int == popcnt(self.0),
    {
        let mut x: u64 = self.0;
        let mut count: u32 = 0;
        proof {
            lemma_popcnt_range(self.0);
        }
        while x != 0
            invariant
                count as int + popcnt(x) == popcnt(self.0),
                0 <= popcnt(x) <= 64,
                0 <= popcnt(self.0) <= 64,
            decreases x,
        {
            let x2: u64 = x >> 1u64;
            proof {
                assert(popcnt(x >> 1u64) == popcnt(x) - bit(x, 0)) by (bit_vector);
                assert((x & 1) as int == bit(x, 0)) by (bit_vector);
                assert(x != 0 ==> x >> 1u64 < x) by (bit_vector);
                lemma_popcnt_range(x2);
            }
            count = count + (x & 1) as u32;
            x = x2;
        }
        proof {
            assert(popcnt(0u64) == 0) by (bit_vector);
        }
        count
    }

    /// The intersection of two sets: bitwise AND of the masks.
    pub fn bitand(self, other: BitSet) -> (r: BitSet)
        ensures
            r.0 == self.0 & other.0,
    {
        BitSet(self.0 & other.0)
    }

    /// The members of the set, in ascending order.
    pub fn elements(&self) -> (r: Vec<u64>)
        ensures
            r@ == elems_seq(self.0),
    {
        let mut v: u64 = self.0;
        let mut out: Vec<u64> = Vec::new();
        while v != 0
            invariant
                out@ + elems_seq(v) == elems_seq(self.0),
            decreases v,
        {
            let t: u32 = v.trailing_zeros();
            proof {
                axiom_u64_trailing_zeros(v);
                assert((t as u64) < 64 && (v >> (t as u64)) & 1 == 1 ==> (v ^ (1u64 << (t
                    as u64))) < v) by (bit_vector);
            }
            out.push(t as u64);
            v = v ^ (1u64 << t);
        }
        proof {
            assert(out@ + elems_seq(0) =~= out@);
        }
        out
    }
}

} // verus!
