use salamander::commit::CommitPolicy;

const SECOND: u64 = 1_000;
const ZERO: u64 = 0;

#[test]
fn manual_never_commits() {
    let p = CommitPolicy::manual();
    assert!(!p.should_commit(u64::MAX, u64::MAX, SECOND));
    assert_eq!(p, CommitPolicy::default());
}

#[test]
fn byte_threshold_is_inclusive() {
    let p = CommitPolicy::every_bytes(100);
    assert!(!p.should_commit(99, 1, ZERO));
    assert!(p.should_commit(100, 1, ZERO));
    assert!(p.should_commit(101, 1, ZERO));
}

#[test]
fn count_threshold_is_inclusive() {
    let p = CommitPolicy::every_count(3);
    assert!(!p.should_commit(0, 2, ZERO));
    assert!(p.should_commit(0, 3, ZERO));
}

#[test]
fn time_threshold_fires_only_past_the_interval() {
    let p = CommitPolicy::every_millis(200);
    assert!(!p.should_commit(0, 1, 199));
    assert!(p.should_commit(0, 1, 200));
}

#[test]
fn combined_fires_on_whichever_crosses_first() {
    let p = CommitPolicy::every_count(1_000).and_bytes(50);
    assert!(p.should_commit(50, 1, ZERO));
    assert!(!p.should_commit(49, 2, ZERO));
}

#[test]
fn a_further_threshold_only_commits_sooner() {
    let p = CommitPolicy::every_bytes(10);
    let q = p.and_count(2).and_millis(5);
    assert!(p.should_commit(10, 0, 0) && q.should_commit(10, 0, 0));
    assert!(!p.should_commit(9, 2, 5) && q.should_commit(9, 2, 0) && q.should_commit(9, 0, 5));
}
