use battery_search::bitset::BitSet;
use battery_search::combinations::CombinationIter;
use battery_search::search::intersect_all;
use battery_search::search::remove_impossible_universes;
use battery_search::search::run_search;
use battery_search::search::Solution;

fn collect_pairs(n: u64, k: u64) -> Vec<BitSet> {
    let mut out = Vec::new();
    let mut it = CombinationIter::new(n, k);
    while let Some(b) = it.next() {
        out.push(b);
    }
    out
}

#[test]
fn combinations_4_choose_2_exact_order() {
    // the bit trick's canonical order over n=4, k=2:
    // {0,1},{0,2},{1,2},{0,3},{1,3},{2,3}
    let got = collect_pairs(4, 2);
    let expect: Vec<u64> = vec![0b0011, 0b0101, 0b0110, 0b1001, 0b1010, 0b1100];
    assert_eq!(got.len(), expect.len());
    for (g, e) in got.iter().zip(expect.iter()) {
        assert_eq!(g.0, *e);
    }
}

#[test]
fn combinations_counts_and_membership() {
    // C(6,3) = 20 subsets, each of 3 members within {0..5}, no duplicates
    let got = collect_pairs(6, 3);
    assert_eq!(got.len(), 20);
    for b in &got {
        assert_eq!(b.len(), 3);
        assert_eq!(b.0 & 0b111111, b.0);
    }
    for i in 0..got.len() {
        for j in (i + 1)..got.len() {
            assert_ne!(got[i].0, got[j].0);
        }
    }
}

#[test]
fn combinations_n_equals_k_single() {
    // when n == k the sequence is exactly one subset: all bits set
    let got = collect_pairs(5, 5);
    assert_eq!(got.len(), 1);
    assert_eq!(got[0].0, 0b11111);
}

#[test]
fn combinations_smallest() {
    let got = collect_pairs(1, 1);
    assert_eq!(got.len(), 1);
    assert_eq!(got[0].0, 1);
}

#[test]
fn combinations_8_choose_2_has_28() {
    assert_eq!(collect_pairs(8, 2).len(), 28);
    assert_eq!(collect_pairs(8, 4).len(), 70);
}

#[test]
fn elements_of_0b1011_ascending() {
    let b = BitSet(0b1011);
    assert_eq!(b.elements(), vec![0, 1, 3]);
}

#[test]
fn elements_of_empty_and_full() {
    assert_eq!(BitSet(0).elements(), Vec::<u64>::new());
    let all = BitSet(u64::MAX).elements();
    assert_eq!(all.len(), 64);
    for (i, e) in all.iter().enumerate() {
        assert_eq!(*e, i as u64);
    }
}

#[test]
fn len_counts_members() {
    assert_eq!(BitSet(0).len(), 0);
    assert_eq!(BitSet(0b1011).len(), 3);
    assert_eq!(BitSet(u64::MAX).len(), 64);
}

#[test]
fn bitand_intersects() {
    assert_eq!(BitSet(0b1100).bitand(BitSet(0b0110)), BitSet(0b0100));
}

#[test]
fn from_u64_round_trip() {
    let b: BitSet = 5u64.into();
    assert_eq!(b, BitSet(5));
    assert_eq!(BitSet::from(6u64).0, 6);
}

#[test]
fn remove_impossible_keeps_only_non_covering() {
    // pair {0,1}; universe {0,1,2,3} contains both so it is removed,
    // universe {0,2,4,5} lacks battery 1 so it is kept
    let pair = BitSet(0b11);
    let universes = vec![BitSet(0b1111), BitSet(0b110101)];
    let left = remove_impossible_universes(pair, universes);
    assert_eq!(left.len(), 1);
    assert_eq!(left[0].0, 0b110101);
}

#[test]
fn remove_impossible_on_empty() {
    let left = remove_impossible_universes(BitSet(0b11), Vec::new());
    assert!(left.is_empty());
}

#[test]
fn intersection_of_two_universes() {
    // {0,1,2,3} and {0,1,2,4} intersect in {0,1,2}: 3 members, >= 2
    let universes = vec![BitSet(0b1111), BitSet(0b10111)];
    let x = intersect_all(&universes).unwrap();
    assert_eq!(x.0, 0b111);
    assert!(x.len() >= 2);
}

#[test]
fn intersection_of_empty_set_is_none() {
    assert!(intersect_all(&Vec::new()).is_none());
}

fn check_pair(b: &BitSet) {
    let es = b.elements();
    assert_eq!(es.len(), 2);
    assert_ne!(es[0], es[1]);
    for e in es {
        assert!(e < 8);
    }
}

#[test]
fn full_search_finds_valid_solutions() {
    let sols = run_search();
    assert!(!sols.is_empty());
    for s in &sols {
        check_pair(&s.first);
        assert_eq!(s.first.elements(), vec![0, 1]);
        assert_eq!(s.steps.len(), 5);
        for p in &s.steps {
            check_pair(p);
        }
        assert!(s.good.len() >= 2);
        for g in s.good.elements() {
            assert!(g < 8);
        }
    }
}

#[test]
fn full_search_is_deterministic() {
    let a: Vec<Solution> = run_search();
    let b: Vec<Solution> = run_search();
    assert_eq!(a, b);
}
