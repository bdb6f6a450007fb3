use arctic::sequential::RadixMap;
use arctic::raw::node::Smo;
use arctic::stat::{increment, max, op_of, process, record, reset, start, stop, Distribution, Event, Max, Op, Record, Stats, Tally};

#[test]
fn stat_nothing_counted_until_started() {
    let mut stats = Stats::new();
    increment(&mut stats, Event::Retire);
    max(&mut stats, Max::RetireCache, 9);
    assert!(!record(&mut stats, Record::Flush, 5));
    assert_eq!(stats.thread().get(Event::Retire), 0);
    assert_eq!(stats.thread().get_max(Max::RetireCache), 0);
    assert_eq!(stats.thread().histogram(Record::Flush).len(), 0);
}

#[test]
fn stat_counts_while_recording() {
    let mut stats = Stats::new();
    start(&mut stats);
    increment(&mut stats, Event::Retire);
    increment(&mut stats, Event::Retire);
    increment(&mut stats, Event::FreeDrop);
    max(&mut stats, Max::RetireCache, 9);
    max(&mut stats, Max::RetireCache, 4);
    assert!(record(&mut stats, Record::Flush, 5));
    assert!(record(&mut stats, Record::Flush, 500));
    stop(&mut stats);
    increment(&mut stats, Event::Retire);
    assert_eq!(stats.thread().get(Event::Retire), 2);
    assert_eq!(stats.thread().get(Event::FreeDrop), 1);
    assert_eq!(stats.thread().get(Event::ScanScan), 0);
    assert_eq!(stats.thread().get_max(Max::RetireCache), 9);
    assert_eq!(stats.thread().histogram(Record::Flush).len(), 2);
    assert_eq!(stats.thread().histogram(Record::FreezePop).len(), 0);
}

#[test]
fn stat_reset_clears_but_keeps_switch() {
    let mut stats = Stats::new();
    start(&mut stats);
    increment(&mut stats, Event::HazardMatch);
    assert!(record(&mut stats, Record::ReclaimAge2, 7));
    reset(&mut stats);
    assert_eq!(stats.thread().get(Event::HazardMatch), 0);
    assert_eq!(stats.thread().histogram(Record::ReclaimAge2).len(), 0);
    increment(&mut stats, Event::HazardMatch);
    assert_eq!(stats.thread().get(Event::HazardMatch), 1);
}

#[test]
fn stat_process_empty_map() {
    let map = RadixMap::new();
    let p = process(&map);
    for t in [Tally::Depth, Tally::Compression, Tally::Node3, Tally::Node15, Tally::Node47, Tally::Node256] {
        assert_eq!(p.histogram(t).len(), 0);
    }
}

#[test]
fn stat_process_one_wide_node() {
    let mut map = RadixMap::new();
    for i in 0..20u8 {
        map.upsert(&[i, 7], i as u64);
    }
    let p = process(&map);
    // Twenty values below one node that grew to 47 slots: each value edge
    // and the node's own edge carry a key.
    assert_eq!(p.histogram(Tally::Depth).len(), 20);
    assert_eq!(p.histogram(Tally::Compression).len(), 21);
    assert_eq!(p.histogram(Tally::Node3).len(), 0);
    assert_eq!(p.histogram(Tally::Node15).len(), 0);
    assert_eq!(p.histogram(Tally::Node47).len(), 1);
    assert_eq!(p.histogram(Tally::Node256).len(), 0);
}

#[test]
fn stat_process_nested_nodes() {
    let mut map = RadixMap::new();
    map.upsert(&[1, 1], 1);
    map.upsert(&[1, 2], 2);
    map.upsert(&[2, 1], 3);
    let p = process(&map);
    // A root node with two children, one of them a node with two values.
    assert_eq!(p.histogram(Tally::Depth).len(), 3);
    assert_eq!(p.histogram(Tally::Node3).len(), 2);
    assert_eq!(p.histogram(Tally::Compression).len(), 5);
}

#[test]
fn stat_seven_operation_counters() {
    let mut stats = Stats::new();
    start(&mut stats);
    let ops = [Op::Shrink, Op::Replace, Op::Grow, Op::Destroy, Op::Compress, Op::Create, Op::Expand];
    for (n, op) in ops.iter().enumerate() {
        for _ in 0..=n {
            increment(&mut stats, Event::Op(*op));
        }
    }
    for (n, op) in ops.iter().enumerate() {
        assert_eq!(stats.thread().get(Event::Op(*op)), n as u64 + 1);
    }
    assert!(op_of(Smo::DeleteNode) == Op::Destroy);
    assert!(op_of(Smo::CompressEdge) == Op::Compress);
    assert!(op_of(Smo::ReplaceNode) == Op::Replace);
}

#[test]
fn stat_histogram_takes_every_sample() {
    let mut h = Distribution::new();
    h.record(0);
    h.record(u64::MAX);
    h.record(12345);
    assert_eq!(h.len(), 3);
}
