use salamander::format::ids::StreamId;
use salamander::log::index::PostingEntry;
use salamander::log::select::{intersecting_range, partition_of, StreamSelector};

#[test]
fn partition_of_is_stable_and_in_range() {
    let a = StreamId::from_bytes([1, 0, 0, 0, 0, 0, 0, 0, 9, 9, 9, 9, 9, 9, 9, 9]);
    assert_eq!(partition_of(a, 4), 1);
    let b = StreamId::from_bytes([7, 1, 0, 0, 0, 0, 0, 0, 0, 0, 0, 0, 0, 0, 0, 0]);
    assert_eq!(partition_of(b, 4), (263u64 % 4) as u32);
    for count in [1u32, 2, 3, 16, 1024] {
        assert!(partition_of(a, count) < count);
    }
}

#[test]
fn selector_validation_rejects_bad_partitions() {
    assert!(StreamSelector::PartitionClass { count: 0, index: 0 }.validate().is_err());
    assert!(StreamSelector::PartitionClass { count: 4, index: 4 }.validate().is_err());
    assert!(StreamSelector::PartitionClass { count: 4, index: 3 }.validate().is_ok());
}

#[test]
fn disjoint_from_proves_skips_for_all_selector_shapes() {
    let posted = |bytes: [u8; 16]| PostingEntry { stream: StreamId::from_bytes(bytes), first: 0, last: 0, count: 1 };
    let postings = vec![posted([4; 16]), posted([8; 16])];

    assert!(!StreamSelector::All.disjoint_from(&postings));

    let hit = StreamSelector::Streams(vec![StreamId::from_bytes([4; 16])]);
    let miss = StreamSelector::Streams(vec![StreamId::from_bytes([5; 16])]);
    assert!(!hit.disjoint_from(&postings));
    assert!(miss.disjoint_from(&postings));

    let classes: Vec<u32> = postings.iter().map(|p| partition_of(p.stream, 8)).collect();
    for index in 0..8u32 {
        let selector = StreamSelector::PartitionClass { count: 8, index };
        assert_eq!(selector.disjoint_from(&postings), !classes.contains(&index), "class {index}");
    }
}

#[test]
fn intersecting_range_prunes_synthetic_hundred_million_records() {
    let bases: Vec<u64> = (0..10_000u64).map(|i| i * 10_000).collect();
    let overall_end = 100_000_000u64;

    let range = intersecting_range(&bases, overall_end, 55_554_321, 55_554_322);
    assert_eq!(range, 5_555..5_556);

    let range = intersecting_range(&bases, overall_end, 0, overall_end);
    assert_eq!(range, 0..10_000);

    let range = intersecting_range(&bases, overall_end, 99_999_999, u64::MAX);
    assert_eq!(range, 9_999..10_000);

    assert_eq!(intersecting_range(&bases, overall_end, overall_end, u64::MAX), 0..0);
    assert_eq!(intersecting_range(&bases, overall_end, 5, 5), 0..0);
}
