//! Enumerates all k-element subsets of {0,...,n-1} as bitmasks, in the
//! canonical order of the classic "next combination" bit trick: the state
//! starts as the k lowest bits, and each step moves the leading bit of the
//! lowest run of ones up by one and packs the rest of the run back down.

use crate::bitset::popcnt;
use crate::bitset::BitSet;
use vstd::prelude::*;
use vstd::std_specs::bits::axiom_u64_trailing_ones;
use vstd::std_specs::bits::axiom_u64_trailing_zeros;
use vstd::std_specs::bits::u64_trailing_ones;
use vstd::std_specs::bits::u64_trailing_zeros;

verus! {

/// The mask with the `k` lowest bits set.
pub open spec fn low_mask(k: u64) -> u64 {
    if k >= 64 {
        u64::MAX
    } else {
        ((1u64 << k) - 1) as u64
    }
}

/// The lowest set bit of `v`, isolated (0 when `v == 0`).
pub open spec fn low_bit(v: u64) -> u64 {
    v & ((!v + 1) as u64)
}

/// The successor computation, written over `t`, the index of the lowest set
/// bit of `v`. Adding the lowest set bit clears the lowest run of ones and
/// carries into the bit above it; if that carry escapes the low `n` bits the
/// enumeration is exhausted (signalled by 0); otherwise the remaining bits of
/// the run are packed back into the lowest positions.
pub open spec fn gosper(v: u64, n: u64, t: u64) -> u64 {
    let ob = low_bit(v);
    if v + ob > u64::MAX {
        0
    } else {
        let x = (v + ob) as u64;
        if n < 64 && x >= (1u64 << n) {
            0
        } else if t + 2 >= 64 {
            x
        } else {
            x | ((x ^ v) >> ((t + 2) as u64))
        }
    }
}

/// The successor of the combination state `v` over a universe of `n`
/// elements, or 0 when the enumeration is exhausted.
pub open spec fn next_state(v: u64, n: u64) -> u64 {
    if v == 0 {
        0
    } else {
        gosper(v, n, u64_trailing_zeros(v) as u64)
    }
}

/// The lowest set bit of a nonzero value is a single bit at index
/// `trailing_zeros`, and isolating it preserves that index.
pub proof fn lemma_low_bit_tz(v: u64)
    requires
        v != 0,
    ensures
        u64_trailing_zeros(v) < 64,
        low_bit(v) == 1u64 << (u64_trailing_zeros(v) as u64),
        u64_trailing_zeros(low_bit(v)) == u64_trailing_zeros(v),
{
    axiom_u64_trailing_zeros(v);
    let t = u64_trailing_zeros(v) as u64;
    assert(v << ((64 - t) as u64) == 0 ==> t < 64 && (v >> t) & 1 == 1 ==> low_bit(v) == 1u64
        << t) by (bit_vector);
    let ob = low_bit(v);
    axiom_u64_trailing_zeros(ob);
    let t2 = u64_trailing_zeros(ob) as u64;
    assert(ob == 1u64 << t ==> t < 64 ==> ob != 0) by (bit_vector);
    assert(ob << ((64 - t2) as u64) == 0 ==> t2 < 64 && (ob >> t2) & 1 == 1 ==> ob == 1u64 << t
        ==> t < 64 ==> t2 == t) by (bit_vector);
}

/// From a nonzero state the successor is strictly larger, unless the
/// enumeration is exhausted. Hence no state, and no yielded subset, repeats.
#[verifier::rlimit(100)]
pub proof fn lemma_gosper_increases(v: u64, n: u64, t: u64)
    by (bit_vector)
    requires
        v != 0,
    ensures
        gosper(v, n, t) == 0 || gosper(v, n, t) > v,
{
}

/// A state within the low `n` bits has its successor within them too.
#[verifier::rlimit(100)]
pub proof fn lemma_gosper_bounded(v: u64, n: u64, t: u64)
    by (bit_vector)
    requires
        n <= 64,
        v != 0,
        v & low_mask(n) == v,
    ensures
        gosper(v, n, t) & low_mask(n) == gosper(v, n, t),
{
}

/// The step preserves the population count: every yielded subset has as many
/// members as the initial one. `t` is the start of the lowest run of ones of
/// `v` and `c` the position of the first zero bit above that run.
#[verifier::rlimit(100)]
pub proof fn lemma_gosper_popcnt(v: u64, n: u64, t: u64, c: u64)
    by (bit_vector)
    requires
        v != 0,
        v < 0x1_0000_0000,
        n <= 32,
        t <= c < 64,
        low_bit(v) == 1u64 << t,
        (v >> c) & 1 == 0,
        (!(v >> t)) << ((64 - (c - t)) as u64) == 0,
    ensures
        gosper(v, n, t) != 0 ==> popcnt(gosper(v, n, t)) == popcnt(v),
{
}

/// The properties of the three lemmas above, stated of `next_state`.
pub proof fn lemma_next_state(v: u64, n: u64)
    requires
        n <= 64,
        v & low_mask(n) == v,
    ensures
        next_state(v, n) == 0 || next_state(v, n) > v,
        next_state(v, n) & low_mask(n) == next_state(v, n),
        n <= 32 && next_state(v, n) != 0 ==> popcnt(next_state(v, n)) == popcnt(v),
{
    if v != 0 {
        lemma_low_bit_tz(v);
        let t = u64_trailing_zeros(v) as u64;
        lemma_gosper_increases(v, n, t);
        lemma_gosper_bounded(v, n, t);
        if n <= 32 {
            assert(v & low_mask(n) == v && n <= 32 ==> v < 0x1_0000_0000) by (bit_vector);
            axiom_u64_trailing_zeros(v);
            let w = v >> t;
            axiom_u64_trailing_ones(w);
            let r = u64_trailing_ones(w) as u64;
            assert((!w) << ((64 - r) as u64) == 0);
            assert(r >= 1) by {
                if r == 0 {
                    assert((w >> 0u64) & 1 == 0);
                    assert((w >> 0u64) & 1 == w & 1 && (v >> t) & 1 == w & 1) by (bit_vector)
                        requires
                            w == v >> t,
                    ;
                }
            }
            if t + r >= 64 {
                // the run of ones reaches the top bit, so the carry overflows
                // and the enumeration is exhausted
                assert(v + low_bit(v) > u64::MAX) by (bit_vector)
                    requires
                        r + t >= 64,
                        1 <= r <= 64,
                        t < 64,
                        low_bit(v) == 1u64 << t,
                        (!(v >> t)) << ((64 - r) as u64) == 0,
                ;
            } else {
                let c = (t + r) as u64;
                assert((w >> r) & 1 == 0);
                assert((v >> c) & 1 == 0) by (bit_vector)
                    requires
                        w == v >> t,
                        c == t + r,
                        t + r < 64,
                        (w >> r) & 1 == 0,
                ;
                assert((!(v >> t)) << ((64 - ((c - t) as u64)) as u64) == 0) by (bit_vector)
                    requires
                        w == v >> t,
                        c == t + r,
                        1 <= r,
                        t + r < 64,
                        (!w) << ((64 - r) as u64) == 0,
                ;
                lemma_gosper_popcnt(v, n, t, c);
            }
        }
    } else {
        assert(0u64 & low_mask(n) == 0) by (bit_vector);
    }
}

/// The initial state has exactly `k` members.
#[verifier::rlimit(100)]
pub proof fn lemma_popcnt_low_mask(k: u64)
    by (bit_vector)
    requires
        k <= 64,
    ensures
        popcnt(low_mask(k)) == k as int,
{
}

/// A low mask of `k` bits lies within the low `n` bits when `k <= n`,
/// and is nonzero when `k >= 1`.
#[verifier::rlimit(100)]
pub proof fn lemma_low_mask_le(k: u64, n: u64)
    by (bit_vector)
    requires
        k <= n <= 64,
    ensures
        low_mask(k) & low_mask(n) == low_mask(k),
        k >= 1 ==> low_mask(k) != 0,
{
}

/// Every member of a bitmask that lies within the low `n` bits is below `n`.
#[verifier::rlimit(100)]
pub proof fn lemma_member_bound(v: u64, n: u64, e: u64)
    by (bit_vector)
    requires
        n <= 64,
        v & low_mask(n) == v,
        e < 64,
        (v >> e) & 1 == 1,
    ensures
        e < n,
{
}

/// The full sequence of states the enumerator passes through from state `v`:
/// `v` itself, then everything after its successor. Empty once exhausted.
pub open spec fn combo_seq_from(v: u64, n: u64) -> Seq<u64>
    decreases (if v == 0 {
        0int
    } else {
        u64::MAX - v + 1
    }),
{
    if v == 0 {
        Seq::empty()
    } else {
        proof {
            lemma_low_bit_tz(v);
            lemma_gosper_increases(v, n, u64_trailing_zeros(v) as u64);
        }
        seq![v] + combo_seq_from(next_state(v, n), n)
    }
}

/// From a nonzero state within the low `n` bits, every state the enumerator
/// passes through is nonzero, stays within the low `n` bits, strictly
/// increases, and (within a 32-element universe) keeps its population count.
pub proof fn lemma_combo_seq_props(v: u64, n: u64)
    requires
        n <= 64,
        v != 0,
        v & low_mask(n) == v,
    ensures
        ({
            let s = combo_seq_from(v, n);
            &&& s.len() >= 1
            &&& s[0] == v
            &&& forall|i: int|
                0 <= i < s.len() ==> (#[trigger] s[i]) & low_mask(n) == s[i] && s[i] != 0
            &&& forall|i: int, j: int| 0 <= i < j < s.len() ==> s[i] < s[j]
            &&& n <= 32 ==> forall|i: int| 0 <= i < s.len() ==> popcnt(#[trigger] s[i]) == popcnt(
                v)
        }),
    decreases u64::MAX - v + 1,
{
    lemma_next_state(v, n);
    let w = next_state(v, n);
    let s = combo_seq_from(v, n);
    if w != 0 {
        lemma_combo_seq_props(w, n);
        let tail = combo_seq_from(w, n);
        assert forall|i: int, j: int| 0 <= i < j < s.len() implies s[i] < s[j] by {
            if i >= 1 {
                assert(tail[i - 1] < tail[j - 1]);
            } else if j >= 2 {
                assert(tail[0] < tail[j - 1]);
            } else {
                assert(s[j] == tail[0] == w);
            }
        }
        assert forall|i: int| 0 <= i < s.len() implies (#[trigger] s[i]) & low_mask(n) == s[i]
            && s[i] != 0 by {
            if i >= 1 {
                assert(tail[i - 1] & low_mask(n) == tail[i - 1] && tail[i - 1] != 0);
            }
        }
        if n <= 32 {
            assert forall|i: int| 0 <= i < s.len() implies popcnt(#[trigger] s[i]) == popcnt(
                v,
            ) by {
                if i >= 1 {
                    assert(popcnt(tail[i - 1]) == popcnt(w));
                }
            }
        }
    } else {
        assert(s =~= seq![v]);
    }
}

/// Soundness of the enumerator over (n, k), with 0 < k <= n <= 64: every
/// yielded subset lies within {0,...,n-1}, the yields strictly increase as
/// values (so no subset is yielded twice), and the first yield is the subset
/// {0,...,k-1}. Within a universe of at most 32 elements, every yielded
/// subset moreover has exactly k members.
pub proof fn lemma_enumeration_sound(n: u64, k: u64)
    requires
        0 < k <= n <= 64,
    ensures
        ({
            let s = combo_seq_from(low_mask(k), n);
            &&& s.len() >= 1
            &&& s[0] == low_mask(k)
            &&& forall|i: int|
                0 <= i < s.len() ==> (#[trigger] s[i]) & low_mask(n) == s[i] && s[i] != 0
            &&& forall|i: int, j: int| 0 <= i < j < s.len() ==> s[i] < s[j]
            &&& n <= 32 ==> forall|i: int| 0 <= i < s.len() ==> popcnt(#[trigger] s[i]) == k as int
        }),
{
    lemma_low_mask_le(k, n);
    lemma_popcnt_low_mask(k);
    lemma_combo_seq_props(low_mask(k), n);
}

/// Enumerator of n-choose-k combinations, as a small state machine: the
/// current bitmask, with 0 standing for "exhausted".
pub struct CombinationIter {
    pub next_val: u64,
    pub n: u64,
}

impl CombinationIter {
    /// The state is well formed: the universe fits in the mask width and the
    /// pending bitmask lies within the low `n` bits.
    pub open spec fn wf(self) -> bool {
        self.n <= 64 && self.next_val & low_mask(self.n) == self.next_val
    }

    /// A fresh enumerator over all k-element subsets of {0,...,n-1}; the
    /// initial combination is the k lowest bits.
    pub fn new(n: u64, k: u64) -> (r: CombinationIter)
        requires
            0 < k <= n <= 64,
        ensures
            r.next_val == low_mask(k),
            r.n == n,
            r.wf(),
    {
        let next_val = if k == 64 {
            u64::MAX
        } else {
            proof {
                assert(k < 64 ==> 1u64 << k >= 1) by (bit_vector);
            }
            (1u64 << k) - 1
        };
        proof {
            lemma_low_mask_le(k, n);
        }
        CombinationIter { next_val, n }
    }

    /// Yields the current combination and advances the state, or signals
    /// exhaustion with `None`.
    pub fn next(&mut self) -> (r: Option<BitSet>)
        requires
            old(self).wf(),
        ensures
            final(self).wf(),
            final(self).n == old(self).n,
            final(self).next_val == next_state(old(self).next_val, old(self).n),
            r == (if old(self).next_val == 0 {
                Option::<BitSet>::None
            } else {
                Option::Some(BitSet(old(self).next_val))
            }),
    {
        if self.next_val == 0 {
            return None;
        }
        let val = self.next_val;
        proof {
            lemma_low_bit_tz(val);
            lemma_next_state(val, self.n);
            assert(val != 0 ==> !val < u64::MAX) by (bit_vector);
        }
        // isolate the lowest set bit (the start of the lowest run of ones)
        let one_bit = val & (!val + 1);
        let t = one_bit.trailing_zeros();
        // adding it clears the run and carries into the bit above; if the
        // carry escapes the low n bits the enumeration is over, otherwise
        // the rest of the run is packed back into the lowest positions
        self.next_val = match val.checked_add(one_bit) {
            Some(x) => {
                if self.n == 64 || x < (1u64 << self.n) {
                    let s = t + 2;
                    let repack = if s >= 64 {
                        0
                    } else {
                        (x ^ val) >> (s as u64)
                    };
                    proof {
                        assert(x | 0u64 == x) by (bit_vector);
                    }
                    x | repack
                } else {
                    0
                }
            },
            None => 0,
        };
        Some(BitSet::from(val))
    }

    /// Collects every combination the enumerator has yet to yield, consuming
    /// it: exactly the states of `combo_seq_from`, in order.
    pub fn collect_all(self) -> (r: Vec<BitSet>)
        requires
            self.wf(),
        ensures
            r@.map_values(|b: BitSet| b.0) == combo_seq_from(self.next_val, self.n),
    {
        let ghost v0 = self.next_val;
        let ghost n0 = self.n;
        let mut it = self;
        let mut out: Vec<BitSet> = Vec::new();
        loop
            invariant
                it.wf(),
                it.n == n0,
                out@.map_values(|b: BitSet| b.0) + combo_seq_from(it.next_val, n0)
                    == combo_seq_from(v0, n0),
            ensures
                it.next_val == 0,
            decreases (if it.next_val == 0 {
                0int
            } else {
                u64::MAX - it.next_val + 1
            }),
        {
            proof {
                lemma_next_state(it.next_val, n0);
            }
            let ghost prev = out@;
            match it.next() {
                Some(b) => {
                    out.push(b);
                    proof {
                        assert(out@.map_values(|b: BitSet| b.0) =~= prev.map_values(
                            |b: BitSet| b.0,
                        ) + seq![b.0]);
                        assert(prev.map_values(|b: BitSet| b.0) + (seq![b.0] + combo_seq_from(
                            it.next_val,
                            n0,
                        )) =~= (prev.map_values(|b: BitSet| b.0) + seq![b.0]) + combo_seq_from(
                            it.next_val,
                            n0,
                        ));
                    }
                },
                None => {
                    proof {
                        assert(out@.map_values(|b: BitSet| b.0) + combo_seq_from(0, n0)
                            =~= out@.map_values(|b: BitSet| b.0));
                    }
                    break ;
                },
            }
        }
        proof {
            assert(out@.map_values(|b: BitSet| b.0) + combo_seq_from(0, n0) =~= out@.map_values(
                |b: BitSet| b.0,
            ));
        }
        out
    }
}

} // verus!
