use accumulator::Accumulator;
use accumulator::Policy;

#[test]
fn keepall_run_reaches_on_quorum_call() {
    let quorum = 4;
    let mut acc = Accumulator::with_capacity_policy(quorum, 100, Policy::KeepAll);
    assert!(acc.add(7, 10).is_none());
    assert!(acc.add(7, 11).is_none());
    assert!(acc.add(7, 12).is_none());
    let reached = acc.add(7, 13).expect("fourth contribution must reach quorum");
    assert_eq!(reached, vec![10, 11, 12, 13]);
}

#[test]
fn dedup_repeat_changes_nothing() {
    let mut acc = Accumulator::with_capacity(2, 100);
    assert!(acc.add(1, 9).is_none());
    assert!(acc.add(1, 9).is_none());
    assert!(acc.add(1, 9).is_none());
    assert_eq!(acc.get(&1).expect("entry must exist").len(), 1);
    assert!(!acc.is_quorum_reached(&1));
    let reached = acc.add(1, 10).expect("second distinct value must reach quorum");
    assert_eq!(reached, vec![9, 10]);
    assert!(acc.add(1, 10).is_some());
    assert_eq!(acc.get(&1).expect("entry must exist").len(), 2);
}

#[test]
fn get_after_delete_is_empty() {
    let mut acc = Accumulator::with_capacity(2, 100);
    assert!(acc.add(3, 1).is_none());
    assert!(acc.add(3, 2).is_some());
    acc.delete(&3);
    assert!(acc.get(&3).is_none());
    assert!(!acc.contains_key(&3));
    assert!(!acc.is_quorum_reached(&3));
}

#[test]
fn capacity_eviction_drops_least_recent() {
    let mut acc = Accumulator::with_capacity(2, 3);
    assert!(acc.add(1, 1).is_none());
    assert!(acc.add(2, 1).is_none());
    assert!(acc.add(3, 1).is_none());
    assert_eq!(acc.cache_size(), 3);
    assert!(acc.add(4, 1).is_none());
    assert_eq!(acc.cache_size(), 3);
    assert!(!acc.contains_key(&1));
    assert!(acc.contains_key(&2));
    assert!(acc.contains_key(&3));
    assert!(acc.contains_key(&4));
}

#[test]
fn contribution_promotes_key_to_most_recent() {
    let mut acc = Accumulator::with_capacity(2, 3);
    assert!(acc.add(1, 1).is_none());
    assert!(acc.add(2, 1).is_none());
    assert!(acc.add(3, 1).is_none());
    // touch key 1 again: key 2 is now the least recently touched
    assert!(acc.add(1, 2).is_some());
    assert!(acc.add(4, 1).is_none());
    assert_eq!(acc.cache_size(), 3);
    assert!(acc.contains_key(&1));
    assert!(!acc.contains_key(&2));
    assert!(acc.contains_key(&3));
    assert!(acc.contains_key(&4));
}

#[test]
fn expiry_hides_untouched_entry() {
    let mut acc = Accumulator::with_duration(2, 100);
    assert!(acc.add_at(1, 5, 1000).is_none());
    assert!(acc.contains_key_at(&1, 1050));
    assert!(acc.contains_key_at(&1, 1100));
    assert!(!acc.contains_key_at(&1, 1101));
    assert!(acc.get_at(&1, 1200).is_none());
    assert!(!acc.is_quorum_reached_at(&1, 1200));
    // an expired entry does not resurface: the next contribution starts over
    assert!(acc.add_at(1, 6, 1300).is_none());
    assert_eq!(acc.get_at(&1, 1300).expect("entry must exist"), vec![6]);
}

#[test]
fn refresh_keeps_entry_alive() {
    let mut acc = Accumulator::with_duration(2, 100);
    assert!(acc.add_at(3, 7, 2000).is_none());
    let reached = acc.add_at(3, 8, 2050).expect("second value must reach quorum");
    assert_eq!(reached, vec![7, 8]);
    // 140 ms after the first touch, but only 90 ms after the refresh
    assert!(acc.contains_key_at(&3, 2140));
    assert!(acc.is_quorum_reached_at(&3, 2140));
    assert!(!acc.contains_key_at(&3, 2151));
    assert_eq!(acc.cache_size_at(2151), 0);
}

#[test]
fn set_quorum_applies_to_existing_entries() {
    let mut acc = Accumulator::with_capacity(3, 100);
    assert!(acc.add(5, 1).is_none());
    assert!(acc.add(5, 2).is_none());
    assert!(!acc.is_quorum_reached(&5));
    acc.set_quorum(2);
    assert_eq!(acc.quorum(), 2);
    assert!(acc.is_quorum_reached(&5));
    acc.set_quorum(5);
    assert!(!acc.is_quorum_reached(&5));
}

#[test]
fn keepall_duplicate_scenario() {
    let mut acc = Accumulator::with_capacity_policy(2, 100, Policy::KeepAll);
    assert!(acc.add(1, 1).is_none());
    assert_eq!(acc.get(&1).expect("entry must exist"), vec![1]);
    let reached = acc.add(1, 1).expect("duplicate counts under the multiset policy");
    assert_eq!(reached, vec![1, 1]);
    acc.delete(&1);
    assert!(acc.get(&1).is_none());
}

#[test]
fn single_quorum_scenario() {
    let mut acc = Accumulator::with_capacity(1, 100);
    let reached = acc.add(2, 3).expect("quorum of one is met at once");
    assert_eq!(reached, vec![3]);
    assert!(!acc.contains_key(&1));
}

#[test]
fn zero_quorum_is_met_at_once() {
    let mut acc = Accumulator::with_capacity(0, 100);
    let reached = acc.add(1, 1).expect("a quorum of zero is always met");
    assert_eq!(reached, vec![1]);
    assert!(acc.is_quorum_reached(&1));
    // an absent key still reports no quorum
    assert!(!acc.is_quorum_reached(&2));
}

#[test]
fn zero_capacity_stores_nothing() {
    let mut acc = Accumulator::with_capacity(1, 0);
    // the assembled singleton meets the quorum, but nothing is retained
    assert_eq!(acc.add(9, 1).expect("the assembled collection is reported"), vec![1]);
    assert!(!acc.contains_key(&9));
    assert!(acc.get(&9).is_none());
    assert_eq!(acc.cache_size(), 0);
}

#[test]
fn duration_policy_variants() {
    let mut keep = Accumulator::with_duration_policy(2, 1000, Policy::KeepAll);
    assert!(keep.add_at(1, 4, 0).is_none());
    let reached = keep.add_at(1, 4, 10).expect("duplicates count under the multiset policy");
    assert_eq!(reached, vec![4, 4]);

    let mut dedup = Accumulator::with_duration_policy(2, 1000, Policy::Dedup);
    assert!(dedup.add_at(1, 4, 0).is_none());
    assert!(dedup.add_at(1, 4, 10).is_none());
    assert_eq!(dedup.get_at(&1, 10).expect("entry must exist"), vec![4]);
}

#[test]
fn duration_mode_against_the_real_clock() {
    // a ten-minute window: far longer than this test can take
    let mut acc = Accumulator::with_duration(1, 600_000);
    assert_eq!(acc.add(1, 1).expect("quorum of one is met at once"), vec![1]);
    assert!(acc.contains_key(&1));
    assert!(acc.is_quorum_reached(&1));
    assert_eq!(acc.get(&1).expect("entry must exist"), vec![1]);
    assert_eq!(acc.cache_size(), 1);
    acc.delete(&1);
    assert!(acc.get(&1).is_none());
}

#[test]
fn snapshots_are_independent_copies() {
    let mut acc = Accumulator::with_capacity(1, 100);
    let mut snapshot = acc.add(1, 1).expect("quorum of one is met at once");
    snapshot.push(99);
    assert_eq!(acc.get(&1).expect("entry must exist"), vec![1]);
}
