use similar_files::buckets::SizeBucketIndex;

#[test]
fn prune_keeps_only_buckets_with_two_or_more_members() {
    let mut buckets = SizeBucketIndex::new();
    buckets.insert(100, 0);
    buckets.insert(100, 1);
    buckets.insert(100, 2);
    buckets.insert(200, 3);
    buckets.insert(999, 4);
    buckets.insert(200, 5);
    let (dups, groups, lost) = buckets.prune();
    assert_eq!(dups, 3);
    assert_eq!(groups, 2);
    assert_eq!(lost, 100 * 2 + 200);
}

#[test]
fn prune_of_singletons_reports_nothing() {
    let mut buckets = SizeBucketIndex::new();
    buckets.insert(1, 0);
    buckets.insert(2, 1);
    let (dups, groups, lost) = buckets.prune();
    assert_eq!(dups, 0);
    assert_eq!(groups, 0);
    assert_eq!(lost, 0);
}

#[test]
fn lost_space_saturates_instead_of_overflowing() {
    let mut buckets = SizeBucketIndex::new();
    buckets.insert(u64::MAX, 0);
    buckets.insert(u64::MAX, 1);
    buckets.insert(u64::MAX, 2);
    let (dups, _groups, lost) = buckets.prune();
    assert_eq!(dups, 2);
    assert_eq!(lost, u64::MAX);
}
