use std::collections::HashSet;

use cycle_profiles::all_cycles;
use cycle_profiles::cycle_len;
use cycle_profiles::ProfileSet;

/// The profile of every bitstring computed directly, with no block reuse and
/// no pruning: the baseline to hold the optimised enumerator against.
fn brute_force_profiles(size_log: usize) -> HashSet<Vec<u64>> {
    let size: u64 = 1 << size_log;
    let mut out = HashSet::new();
    for v in 0..(1u64 << size) {
        let mut prof = Vec::new();
        for j in 1..=size_log {
            let sub: u64 = 1 << j;
            prof.push(cycle_len(v >> (size - sub), sub));
        }
        out.insert(prof);
    }
    out
}

fn collected(set: &ProfileSet) -> HashSet<Vec<u64>> {
    set.as_slice().iter().cloned().collect()
}

#[test]
fn cycle() {
    assert_eq!(1, cycle_len(0b1111, 4));
    assert_eq!(1, cycle_len(0b0000, 4));
    assert_eq!(2, cycle_len(0b1010, 4));
    assert_eq!(3, cycle_len(0b1001, 4));
    assert_eq!(4, cycle_len(0b1110, 4));
}

#[test]
fn period_always_within_width() {
    for width in 1..=10u64 {
        for v in 0..(1u64 << width) {
            let p = cycle_len(v, width);
            assert!(1 <= p && p <= width);
        }
    }
}

#[test]
fn single_string_has_empty_profile() {
    let set = all_cycles(0);
    assert_eq!(set.len(), 1);
    assert!(set.contains(&Vec::new()));
}

#[test]
fn two_profiles_at_width_two() {
    let set = all_cycles(1);
    assert_eq!(set.len(), 2);
    assert!(set.contains(&vec![1]));
    assert!(set.contains(&vec![2]));
}

#[test]
fn distinct_profile_counts_small() {
    assert_eq!(all_cycles(0).len(), 1);
    assert_eq!(all_cycles(1).len(), 2);
    assert_eq!(all_cycles(2).len(), 6);
}

#[test]
fn exhaustive_cross_check() {
    for size_log in 0..=3 {
        let fast = all_cycles(size_log);
        let brute = brute_force_profiles(size_log);
        assert_eq!(collected(&fast), brute);
        assert_eq!(fast.len(), brute.len());
    }
}

#[test]
fn completion_periods_bounded_below() {
    for size_log in 2..=4usize {
        let size: u64 = 1 << size_log;
        let half: u64 = 1 << (size_log - 1);
        for block in 0..(1u64 << (half - 1)) {
            let start = block << half;
            let end = cycle_len(start >> half, half);
            for num in start..start + (1u64 << half) {
                let p = cycle_len(num, size);
                assert!(end <= p && p <= size);
            }
        }
    }
}

#[test]
fn enumeration_is_deterministic() {
    for size_log in 0..=3 {
        let first = collected(&all_cycles(size_log));
        let second = collected(&all_cycles(size_log));
        assert_eq!(first, second);
    }
}

#[test]
fn profile_set_deduplicates() {
    let mut s = ProfileSet::new();
    s.insert(vec![1, 2]);
    s.insert(vec![1, 2]);
    s.insert(vec![2, 1]);
    assert_eq!(s.len(), 2);
    assert!(s.contains(&vec![1, 2]));
    assert!(s.contains(&vec![2, 1]));
    assert!(!s.contains(&vec![1, 1]));
}
