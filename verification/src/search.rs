//! The universe search: prunes the set of possible "true configurations"
//! (which 4 of the 8 batteries work) as hypothetical failed trials are
//! applied, and checks whether a guaranteed-good final pair remains.

use crate::bitset::elems_seq;
use crate::bitset::lemma_elems_seq;
use crate::bitset::popcnt;
use crate::bitset::BitSet;
use crate::combinations::combo_seq_from;
use crate::combinations::lemma_enumeration_sound;
use crate::combinations::lemma_low_bit_tz;
use crate::combinations::gosper;
use crate::combinations::lemma_gosper_increases;
use crate::combinations::low_bit;
use crate::combinations::lemma_member_bound;
use crate::combinations::lemma_next_state;
use crate::combinations::lemma_popcnt_low_mask;
use crate::combinations::low_mask;
use crate::combinations::next_state;
use crate::combinations::CombinationIter;
use vstd::prelude::*;
use vstd::std_specs::bits::u64_trailing_zeros;

verus! {

/// In universe `u` both batteries of `pair` are functional.
pub open spec fn covers(u: BitSet, pair: BitSet) -> bool {
    u.0 & pair.0 == pair.0
}

/// The filtering loop of `remove_impossible_universes`, step by step: walk
/// the sequence from position `i`; a universe that covers the pair is
/// replaced by the last element (which is then dropped), any other universe
/// is kept and the walk moves on.
pub open spec fn prune(s: Seq<BitSet>, pair: BitSet, i: int) -> Seq<BitSet>
    decreases s.len() - i,
{
    if i < 0 || i >= s.len() {
        s
    } else if covers(s[i], pair) {
        prune(s.update(i, s.last()).drop_last(), pair, i)
    } else {
        prune(s, pair, i + 1)
    }
}

/// Removes from `universes` every universe in which both batteries of
/// `pair` are functional (those universes cannot explain a failed trial of
/// the pair), keeping the others; order follows the swap-removal walk.
pub fn remove_impossible_universes(pair: BitSet, universes: Vec<BitSet>) -> (r: Vec<BitSet>)
    ensures
        r@ == prune(universes@, pair, 0),
{
    let ghost orig = universes@;
    let mut u = universes;
    let mut i: usize = 0;
    while i < u.len()
        invariant
            i <= u.len(),
            prune(u@, pair, i as int) == prune(orig, pair, 0),
        decreases u.len() - i,
    {
        if (u[i].0 & pair.0) == pair.0 {
            // in this universe both batteries worked
            u.swap_remove(i);
        } else {
            i = i + 1;
        }
    }
    u
}

/// Everything the pruning keeps was already present, and nothing it keeps
/// covers the pair once the walk is complete.
pub proof fn lemma_prune_subset(s: Seq<BitSet>, pair: BitSet, i: int)
    ensures
        forall|x: BitSet| #[trigger] prune(s, pair, i).contains(x) ==> s.contains(x),
        prune(s, pair, i).len() <= s.len(),
    decreases s.len() - i,
{
    if i < 0 || i >= s.len() {
    } else if covers(s[i], pair) {
        let s2 = s.update(i, s.last()).drop_last();
        lemma_prune_subset(s2, pair, i);
        assert forall|x: BitSet| #[trigger] s2.contains(x) implies s.contains(x) by {
            let j = choose|j: int| 0 <= j < s2.len() && s2[j] == x;
            if j == i {
                assert(s[s.len() - 1] == x);
            } else {
                assert(s[j] == x);
            }
        }
    } else {
        lemma_prune_subset(s, pair, i + 1);
    }
}

/// Once the walk has covered the whole sequence (a call with `i == 0` and no
/// pre-checked prefix), no universe that covers the pair survives the
/// pruning: together with `lemma_prune_subset`, the filter keeps exactly
/// universes that were present and in which the pair could have failed.
pub proof fn lemma_prune_none_cover(s: Seq<BitSet>, pair: BitSet, i: int)
    requires
        0 <= i,
        forall|j: int| 0 <= j < i && j < s.len() ==> !covers(s[j], pair),
    ensures
        forall|x: BitSet| #[trigger] prune(s, pair, i).contains(x) ==> !covers(x, pair),
    decreases s.len() - i,
{
    if i >= s.len() {
        assert forall|x: BitSet| #[trigger] prune(s, pair, i).contains(x) implies !covers(
            x,
            pair,
        ) by {
            let j = choose|j: int| 0 <= j < s.len() && s[j] == x;
            assert(!covers(s[j], pair));
        }
    } else if covers(s[i], pair) {
        let s2 = s.update(i, s.last()).drop_last();
        assert forall|j: int| 0 <= j < i && j < s2.len() implies !covers(s2[j], pair) by {
            assert(s2[j] == s[j]);
        }
        lemma_prune_none_cover(s2, pair, i);
        assert forall|x: BitSet| #[trigger] prune(s, pair, i).contains(x) implies !covers(
            x,
            pair,
        ) by {
            assert(prune(s2, pair, i).contains(x));
        }
    } else {
        lemma_prune_none_cover(s, pair, i + 1);
        assert forall|x: BitSet| #[trigger] prune(s, pair, i).contains(x) implies !covers(
            x,
            pair,
        ) by {
            assert(prune(s, pair, i + 1).contains(x));
        }
    }
}

/// The intersection of a nonempty sequence of universes, folded from the
/// left exactly as the search computes it.
pub open spec fn and_fold(s: Seq<BitSet>) -> BitSet
    decreases s.len(),
{
    if s.len() == 0 {
        BitSet(0)
    } else if s.len() == 1 {
        s[0]
    } else {
        BitSet(and_fold(s.drop_last()).0 & s.last().0)
    }
}

/// The folded intersection is contained in the last universe of the fold.
pub proof fn lemma_and_fold_in_last(s: Seq<BitSet>)
    requires
        s.len() >= 1,
    ensures
        and_fold(s).0 & s.last().0 == and_fold(s).0,
{
    if s.len() == 1 {
        let a = s[0].0;
        assert(a & a == a) by (bit_vector);
    } else {
        let x = and_fold(s.drop_last()).0;
        let l = s.last().0;
        assert((x & l) & l == x & l) by (bit_vector);
    }
}

/// The intersection across every universe in the set: the batteries that are
/// functional in all remaining hypotheses. `None` when the set is empty.
pub fn intersect_all(universes: &Vec<BitSet>) -> (r: Option<BitSet>)
    ensures
        r == (if universes@.len() == 0 {
            Option::<BitSet>::None
        } else {
            Option::Some(and_fold(universes@))
        }),
{
    if universes.len() == 0 {
        return None;
    }
    let mut acc = universes[0];
    let mut i: usize = 1;
    while i < universes.len()
        invariant
            1 <= i <= universes@.len(),
            acc == and_fold(universes@.take(i as int)),
        decreases universes@.len() - i,
    {
        acc = BitSet(acc.0 & universes[i].0);
        proof {
            let t = universes@.take(i + 1 as int);
            assert(t.drop_last() =~= universes@.take(i as int));
            assert(t.last() == universes@[i as int]);
        }
        i = i + 1;
    }
    proof {
        assert(universes@.take(universes@.len() as int) =~= universes@);
    }
    Some(acc)
}

/// Applies the "pair assumed to fail" filter once for each listed pair, in
/// order: `idxs` are indices into `pairs`.
pub open spec fn apply_all(univ: Seq<BitSet>, pairs: Seq<BitSet>, idxs: Seq<u64>) -> Seq<BitSet>
    decreases idxs.len(),
{
    if idxs.len() == 0 {
        univ
    } else {
        apply_all(prune(univ, pairs[idxs[0] as int], 0), pairs, idxs.drop_first())
    }
}

/// A found strategy: the canonical first trial pair, the five further trial
/// pairs in enumeration order, and the batteries functional in every
/// surviving hypothesis (at least two of them, so a seventh trial with any
/// two of those is guaranteed to succeed).
#[derive(Debug, PartialEq, Eq)]
pub struct Solution {
    pub first: BitSet,
    pub steps: Vec<BitSet>,
    pub good: BitSet,
}

/// The mathematical content of a `Solution`.
pub struct SolutionModel {
    pub first: BitSet,
    pub steps: Seq<BitSet>,
    pub good: BitSet,
}

impl View for Solution {
    type V = SolutionModel;

    open spec fn view(&self) -> SolutionModel {
        SolutionModel { first: self.first, steps: self.steps@, good: self.good }
    }
}

/// What every emitted solution satisfies: the canonical first pair {0,1},
/// five further pairs, every pair a 2-element subset of the 8 batteries, and
/// a guaranteed-good set of at least 2 batteries among the 8.
pub open spec fn solution_ok(m: SolutionModel) -> bool {
    &&& m.first.0 == 3
    &&& m.steps.len() == 5
    &&& forall|j: int|
        0 <= j < m.steps.len() ==> (#[trigger] m.steps[j].0) & 0xFF == m.steps[j].0 && popcnt(
            m.steps[j].0,
        ) == 2
    &&& m.good.0 & 0xFF == m.good.0
    &&& popcnt(m.good.0) >= 2
}

/// The outcome of one candidate continuation `five` (a 5-element subset of
/// the pair indices): assume each chosen pair fails, intersect the surviving
/// universes, and emit a solution exactly when at least two batteries are
/// functional in all of them.
pub open spec fn candidate_sol(pairs: Seq<BitSet>, base: Seq<BitSet>, five: u64) -> Option<
    SolutionModel,
> {
    let idxs = elems_seq(five);
    let remaining = apply_all(base, pairs, idxs);
    if remaining.len() == 0 {
        Option::None
    } else {
        let g = and_fold(remaining);
        if popcnt(g.0) >= 2 {
            Option::Some(
                SolutionModel {
                    first: pairs[0],
                    steps: idxs.map_values(|e: u64| pairs[e as int]),
                    good: g,
                },
            )
        } else {
            Option::None
        }
    }
}

/// The solutions emitted from enumerator state `v` onwards, in order.
pub open spec fn sols_from(v: u64, n: u64, pairs: Seq<BitSet>, base: Seq<BitSet>) -> Seq<
    SolutionModel,
>
    decreases (if v == 0 {
        0int
    } else {
        u64::MAX - v + 1
    }),
{
    if v == 0 {
        Seq::empty()
    } else {
        proof {
            lemma_low_bit_tz(v);
            lemma_gosper_increases(v, n, u64_trailing_zeros(v) as u64);
        }
        (if candidate_sol(pairs, base, v) is Some {
            seq![candidate_sol(pairs, base, v)->0]
        } else {
            Seq::empty()
        }) + sols_from(next_state(v, n), n, pairs, base)
    }
}

/// The 28 battery pairs, in enumeration order.
pub open spec fn pairs_spec() -> Seq<BitSet> {
    combo_seq_from(low_mask(2), 8).map_values(|x: u64| BitSet(x))
}

/// The universes surviving the canonical first trial's assumed failure.
pub open spec fn base_spec() -> Seq<BitSet> {
    prune(combo_seq_from(low_mask(4), 8).map_values(|x: u64| BitSet(x)), pairs_spec()[0], 0)
}

/// The complete, deterministic outcome of the search over the fixed puzzle
/// parameters (8 batteries, 4 functional, pairs of 2, 7 trials).
pub open spec fn search_spec() -> Seq<SolutionModel> {
    sols_from(low_mask(5), pairs_spec().len() as u64, pairs_spec(), base_spec())
}

/// The search is fully deterministic: any two values that run_search can
/// return are the same solution list, in the same order.
pub proof fn lemma_search_deterministic(r1: Seq<SolutionModel>, r2: Seq<SolutionModel>)
    requires
        r1 == search_spec(),
        r2 == search_spec(),
    ensures
        r1 == r2,
{
}

/// Evaluates one candidate continuation exactly as `candidate_sol` states:
/// filter the universes by each chosen pair, intersect what survives, and
/// build the solution record when at least two batteries remain good.
pub fn evaluate_candidate(pairs: &Vec<BitSet>, base: &Vec<BitSet>, five: BitSet) -> (r: Option<
    Solution,
>)
    requires
        1 <= pairs@.len() <= 64,
        five.0 & low_mask(pairs@.len() as u64) == five.0,
        pairs@[0].0 == 3,
        popcnt(five.0) == 5,
        forall|j: int|
            0 <= j < pairs@.len() ==> (#[trigger] pairs@[j].0) & 0xFF == pairs@[j].0 && popcnt(
                pairs@[j].0,
            ) == 2,
        forall|j: int| 0 <= j < base@.len() ==> (#[trigger] base@[j].0) & 0xFF == base@[j].0,
    ensures
        (r is Some) == (candidate_sol(pairs@, base@, five.0) is Some),
        r is Some ==> (r->0)@ == candidate_sol(pairs@, base@, five.0)->0,
        r is Some ==> solution_ok((r->0)@),
{
    let ghost idxs = elems_seq(five.0);
    let idx_vec: Vec<u64> = five.elements();
    proof {
        lemma_elems_seq(five.0);
        assert forall|q: int| 0 <= q < idxs.len() implies idxs[q] < pairs@.len() && idxs[q]
            < 64 by {
            lemma_member_bound(five.0, pairs@.len() as u64, idxs[q]);
        }
    }
    let mut univ: Vec<BitSet> = base.clone();
    proof {
        assert(univ@ =~= base@);
        assert(idxs.skip(0) =~= idxs);
    }
    let mut j: usize = 0;
    while j < idx_vec.len()
        invariant
            j <= idx_vec@.len(),
            idx_vec@ == idxs,
            idxs == elems_seq(five.0),
            1 <= pairs@.len() <= 64,
            forall|q: int| 0 <= q < idxs.len() ==> #[trigger] idxs[q] < pairs@.len() && idxs[q]
                < 64,
            forall|q: int|
                0 <= q < univ@.len() ==> (#[trigger] univ@[q].0) & 0xFF == univ@[q].0,
            apply_all(univ@, pairs@, idxs.skip(j as int)) == apply_all(base@, pairs@, idxs),
        decreases idx_vec@.len() - j,
    {
        let e = idx_vec[j];
        let p = pairs[e as usize];
        let ghost prev = univ@;
        univ = remove_impossible_universes(p, univ);
        proof {
            assert(idxs.skip(j as int)[0] == idxs[j as int]);
            assert(idxs.skip(j as int).drop_first() =~= idxs.skip(j as int + 1));
            lemma_prune_subset(prev, p, 0);
            assert forall|q: int|
                0 <= q < univ@.len() implies (#[trigger] univ@[q].0) & 0xFF == univ@[q].0 by {
                assert(univ@.contains(univ@[q]));
                assert(prev.contains(univ@[q]));
                let w = choose|w: int| 0 <= w < prev.len() && prev[w] == univ@[q];
                assert(prev[w].0 & 0xFF == prev[w].0);
            }
        }
        j = j + 1;
    }
    proof {
        assert(idxs.skip(idxs.len() as int) =~= Seq::<u64>::empty());
        assert(univ@ == apply_all(base@, pairs@, idxs));
    }
    match intersect_all(&univ) {
        Some(g) => {
            if g.len() >= 2 {
                let mut steps: Vec<BitSet> = Vec::new();
                let mut q: usize = 0;
                while q < idx_vec.len()
                    invariant
                        q <= idx_vec@.len(),
                        idx_vec@ == idxs,
                        1 <= pairs@.len() <= 64,
                        forall|w: int|
                            0 <= w < idxs.len() ==> #[trigger] idxs[w] < pairs@.len() && idxs[w]
                                < 64,
                        steps@ == idxs.take(q as int).map_values(|e: u64| pairs@[e as int]),
                    decreases idx_vec@.len() - q,
                {
                    let e = idx_vec[q];
                    steps.push(pairs[e as usize]);
                    proof {
                        assert(steps@ =~= idxs.take(q as int + 1).map_values(
                            |e: u64| pairs@[e as int],
                        ));
                    }
                    q = q + 1;
                }
                proof {
                    assert(idxs.take(idxs.len() as int) =~= idxs);
                    lemma_and_fold_in_last(univ@);
                    let l: u64 = univ@.last().0;
                    let gv: u64 = g.0;
                    assert(gv & l == gv && l & 0xFF == l ==> gv & 0xFF == gv) by (bit_vector);
                }
                Some(Solution { first: pairs[0], steps, good: g })
            } else {
                None
            }
        },
        None => None,
    }
}

/// A bit at a given index determines the index: shifting 1 left by two
/// different amounts below 64 gives two different values.
pub proof fn lemma_shift_inj(a: u64, b: u64)
    by (bit_vector)
    requires
        a < 64,
        b < 64,
        1u64 << a == 1u64 << b,
    ensures
        a == b,
{
}

/// Evaluates one enumerator step on a known state.
pub proof fn lemma_next_state_eval(v: u64, t: u64, w: u64)
    requires
        v != 0,
        t < 64,
        low_bit(v) == 1u64 << t,
        gosper(v, 8, t) == w,
    ensures
        next_state(v, 8) == w,
{
    lemma_low_bit_tz(v);
    lemma_shift_inj(t, u64_trailing_zeros(v) as u64);
}

/// The enumeration of the 28 pairs of 8 batteries, step by step: it has
/// exactly 28 entries.
pub proof fn lemma_pairs_len()
    ensures
        combo_seq_from(3, 8).len() == 28,
{
    assert({
        &&& low_bit(3) == 1u64 << 0 && gosper(3, 8, 0) == 5
        &&& low_bit(5) == 1u64 << 0 && gosper(5, 8, 0) == 6
        &&& low_bit(6) == 1u64 << 1 && gosper(6, 8, 1) == 9
        &&& low_bit(9) == 1u64 << 0 && gosper(9, 8, 0) == 10
        &&& low_bit(10) == 1u64 << 1 && gosper(10, 8, 1) == 12
        &&& low_bit(12) == 1u64 << 2 && gosper(12, 8, 2) == 17
        &&& low_bit(17) == 1u64 << 0 && gosper(17, 8, 0) == 18
        &&& low_bit(18) == 1u64 << 1 && gosper(18, 8, 1) == 20
        &&& low_bit(20) == 1u64 << 2 && gosper(20, 8, 2) == 24
        &&& low_bit(24) == 1u64 << 3 && gosper(24, 8, 3) == 33
        &&& low_bit(33) == 1u64 << 0 && gosper(33, 8, 0) == 34
        &&& low_bit(34) == 1u64 << 1 && gosper(34, 8, 1) == 36
        &&& low_bit(36) == 1u64 << 2 && gosper(36, 8, 2) == 40
        &&& low_bit(40) == 1u64 << 3 && gosper(40, 8, 3) == 48
        &&& low_bit(48) == 1u64 << 4 && gosper(48, 8, 4) == 65
        &&& low_bit(65) == 1u64 << 0 && gosper(65, 8, 0) == 66
        &&& low_bit(66) == 1u64 << 1 && gosper(66, 8, 1) == 68
        &&& low_bit(68) == 1u64 << 2 && gosper(68, 8, 2) == 72
        &&& low_bit(72) == 1u64 << 3 && gosper(72, 8, 3) == 80
        &&& low_bit(80) == 1u64 << 4 && gosper(80, 8, 4) == 96
        &&& low_bit(96) == 1u64 << 5 && gosper(96, 8, 5) == 129
        &&& low_bit(129) == 1u64 << 0 && gosper(129, 8, 0) == 130
        &&& low_bit(130) == 1u64 << 1 && gosper(130, 8, 1) == 132
        &&& low_bit(132) == 1u64 << 2 && gosper(132, 8, 2) == 136
        &&& low_bit(136) == 1u64 << 3 && gosper(136, 8, 3) == 144
        &&& low_bit(144) == 1u64 << 4 && gosper(144, 8, 4) == 160
        &&& low_bit(160) == 1u64 << 5 && gosper(160, 8, 5) == 192
        &&& low_bit(192) == 1u64 << 6 && gosper(192, 8, 6) == 0
    }) by (bit_vector);
    lemma_next_state_eval(3, 0, 5);
    lemma_next_state_eval(5, 0, 6);
    lemma_next_state_eval(6, 1, 9);
    lemma_next_state_eval(9, 0, 10);
    lemma_next_state_eval(10, 1, 12);
    lemma_next_state_eval(12, 2, 17);
    lemma_next_state_eval(17, 0, 18);
    lemma_next_state_eval(18, 1, 20);
    lemma_next_state_eval(20, 2, 24);
    lemma_next_state_eval(24, 3, 33);
    lemma_next_state_eval(33, 0, 34);
    lemma_next_state_eval(34, 1, 36);
    lemma_next_state_eval(36, 2, 40);
    lemma_next_state_eval(40, 3, 48);
    lemma_next_state_eval(48, 4, 65);
    lemma_next_state_eval(65, 0, 66);
    lemma_next_state_eval(66, 1, 68);
    lemma_next_state_eval(68, 2, 72);
    lemma_next_state_eval(72, 3, 80);
    lemma_next_state_eval(80, 4, 96);
    lemma_next_state_eval(96, 5, 129);
    lemma_next_state_eval(129, 0, 130);
    lemma_next_state_eval(130, 1, 132);
    lemma_next_state_eval(132, 2, 136);
    lemma_next_state_eval(136, 3, 144);
    lemma_next_state_eval(144, 4, 160);
    lemma_next_state_eval(160, 5, 192);
    lemma_next_state_eval(192, 6, 0);
    assert(combo_seq_from(192, 8).len() == combo_seq_from(0, 8).len() + 1);
    assert(combo_seq_from(160, 8).len() == combo_seq_from(192, 8).len() + 1);
    assert(combo_seq_from(144, 8).len() == combo_seq_from(160, 8).len() + 1);
    assert(combo_seq_from(136, 8).len() == combo_seq_from(144, 8).len() + 1);
    assert(combo_seq_from(132, 8).len() == combo_seq_from(136, 8).len() + 1);
    assert(combo_seq_from(130, 8).len() == combo_seq_from(132, 8).len() + 1);
    assert(combo_seq_from(129, 8).len() == combo_seq_from(130, 8).len() + 1);
    assert(combo_seq_from(96, 8).len() == combo_seq_from(129, 8).len() + 1);
    assert(combo_seq_from(80, 8).len() == combo_seq_from(96, 8).len() + 1);
    assert(combo_seq_from(72, 8).len() == combo_seq_from(80, 8).len() + 1);
    assert(combo_seq_from(68, 8).len() == combo_seq_from(72, 8).len() + 1);
    assert(combo_seq_from(66, 8).len() == combo_seq_from(68, 8).len() + 1);
    assert(combo_seq_from(65, 8).len() == combo_seq_from(66, 8).len() + 1);
    assert(combo_seq_from(48, 8).len() == combo_seq_from(65, 8).len() + 1);
    assert(combo_seq_from(40, 8).len() == combo_seq_from(48, 8).len() + 1);
    assert(combo_seq_from(36, 8).len() == combo_seq_from(40, 8).len() + 1);
    assert(combo_seq_from(34, 8).len() == combo_seq_from(36, 8).len() + 1);
    assert(combo_seq_from(33, 8).len() == combo_seq_from(34, 8).len() + 1);
    assert(combo_seq_from(24, 8).len() == combo_seq_from(33, 8).len() + 1);
    assert(combo_seq_from(20, 8).len() == combo_seq_from(24, 8).len() + 1);
    assert(combo_seq_from(18, 8).len() == combo_seq_from(20, 8).len() + 1);
    assert(combo_seq_from(17, 8).len() == combo_seq_from(18, 8).len() + 1);
    assert(combo_seq_from(12, 8).len() == combo_seq_from(17, 8).len() + 1);
    assert(combo_seq_from(10, 8).len() == combo_seq_from(12, 8).len() + 1);
    assert(combo_seq_from(9, 8).len() == combo_seq_from(10, 8).len() + 1);
    assert(combo_seq_from(6, 8).len() == combo_seq_from(9, 8).len() + 1);
    assert(combo_seq_from(5, 8).len() == combo_seq_from(6, 8).len() + 1);
    assert(combo_seq_from(3, 8).len() == combo_seq_from(5, 8).len() + 1);
}

/// Runs the full search over the fixed puzzle parameters (8 batteries, 4
/// functional, pairs of 2, 7 trials): enumerate the 28 battery pairs and the
/// 70 universes, assume the canonical first pair {0,1} fails, and test every
/// choice of 5 further pairs. Returns every solution found, in enumeration
/// order — exactly the list `search_spec` describes, so two runs always
/// agree.
#[verifier::rlimit(100)]
pub fn run_search() -> (r: Vec<Solution>)
    ensures
        r@.map_values(|s: Solution| s@) == search_spec(),
        forall|i: int| 0 <= i < r@.len() ==> solution_ok(#[trigger] r@[i]@),
{
    let all_pairs: Vec<BitSet> = CombinationIter::new(8, 2).collect_all();
    proof {
        lemma_enumeration_sound(8, 2);
        assert(low_mask(2) == 3 && low_mask(8) == 0xFF) by (bit_vector);
        assert(all_pairs@ =~= pairs_spec());
        assert forall|j: int|
            0 <= j < all_pairs@.len() implies (#[trigger] all_pairs@[j].0) & 0xFF
            == all_pairs@[j].0 && popcnt(all_pairs@[j].0) == 2 by {
            assert(all_pairs@[j].0 == combo_seq_from(low_mask(2), 8)[j]);
        }
        lemma_pairs_len();
    }
    let all_universes: Vec<BitSet> = CombinationIter::new(8, 4).collect_all();
    proof {
        lemma_enumeration_sound(8, 4);
        assert(all_universes@ =~= combo_seq_from(low_mask(4), 8).map_values(
            |x: u64| BitSet(x),
        ));
        assert forall|j: int|
            0 <= j < all_universes@.len() implies (#[trigger] all_universes@[j].0) & 0xFF
            == all_universes@[j].0 by {
            assert(all_universes@[j].0 == combo_seq_from(low_mask(4), 8)[j]);
        }
    }
    let first_pair = all_pairs[0];
    let base = remove_impossible_universes(first_pair, all_universes);
    proof {
        assert(base@ == base_spec());
        lemma_prune_subset(
            combo_seq_from(low_mask(4), 8).map_values(|x: u64| BitSet(x)),
            first_pair,
            0,
        );
        assert forall|j: int|
            0 <= j < base@.len() implies (#[trigger] base@[j].0) & 0xFF == base@[j].0 by {
            let us = combo_seq_from(low_mask(4), 8).map_values(|x: u64| BitSet(x));
            assert(base@.contains(base@[j]));
            assert(us.contains(base@[j]));
            let w = choose|w: int| 0 <= w < us.len() && us[w] == base@[j];
            assert(us[w].0 & 0xFF == us[w].0);
        }
    }
    let n_pairs: u64 = all_pairs.len() as u64;
    let mut five_iter = CombinationIter::new(n_pairs, 5);
    proof {
        lemma_popcnt_low_mask(5);
    }
    let mut result: Vec<Solution> = Vec::new();
    let ghost ps = all_pairs@;
    let ghost bs = base@;
    loop
        invariant
            five_iter.wf(),
            five_iter.n == n_pairs,
            n_pairs == 28,
            ps == pairs_spec(),
            bs == base_spec(),
            all_pairs@ == ps,
            base@ == bs,
            ps.len() == 28,
            ps[0].0 == 3,
            forall|j: int|
                0 <= j < ps.len() ==> (#[trigger] ps[j].0) & 0xFF == ps[j].0 && popcnt(ps[j].0)
                    == 2,
            forall|j: int| 0 <= j < bs.len() ==> (#[trigger] bs[j].0) & 0xFF == bs[j].0,
            five_iter.next_val == 0 || popcnt(five_iter.next_val) == 5,
            result@.map_values(|s: Solution| s@) + sols_from(five_iter.next_val, n_pairs, ps, bs)
                == search_spec(),
            forall|i: int| 0 <= i < result@.len() ==> solution_ok(#[trigger] result@[i]@),
        ensures
            five_iter.next_val == 0,
        decreases (if five_iter.next_val == 0 {
            0int
        } else {
            u64::MAX - five_iter.next_val + 1
        }),
    {
        proof {
            lemma_next_state(five_iter.next_val, n_pairs);
        }
        let ghost prev = five_iter.next_val;
        let ghost prev_map = result@.map_values(|s: Solution| s@);
        match five_iter.next() {
            Some(five) => {
                let sol = evaluate_candidate(&all_pairs, &base, five);
                proof {
                    let here = (if candidate_sol(ps, bs, prev) is Some {
                        seq![candidate_sol(ps, bs, prev)->0]
                    } else {
                        Seq::<SolutionModel>::empty()
                    });
                    assert(sols_from(prev, n_pairs, ps, bs) == here + sols_from(
                        next_state(prev, n_pairs),
                        n_pairs,
                        ps,
                        bs,
                    ));
                    if candidate_sol(ps, bs, prev) is None {
                        assert(prev_map + (here + sols_from(next_state(prev, n_pairs), n_pairs, ps, bs))
                            =~= prev_map + sols_from(next_state(prev, n_pairs), n_pairs, ps, bs));
                    }
                }
                match sol {
                    Some(s) => {
                        result.push(s);
                        proof {
                            assert(result@.map_values(|s: Solution| s@) =~= prev_map + seq![s@]);
                            assert((prev_map + seq![s@]) + sols_from(
                                next_state(prev, n_pairs),
                                n_pairs,
                                ps,
                                bs,
                            ) =~= prev_map + (seq![s@] + sols_from(
                                next_state(prev, n_pairs),
                                n_pairs,
                                ps,
                                bs,
                            )));
                        }
                    },
                    None => {},
                }
            },
            None => {
                proof {
                    assert(prev_map + sols_from(0, n_pairs, ps, bs) =~= prev_map);
                }
                break ;
            },
        }
    }
    proof {
        let m = result@.map_values(|s: Solution| s@);
        assert(m + sols_from(0, n_pairs, ps, bs) =~= m);
    }
    result
}

} // verus!
