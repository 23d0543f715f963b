//! When appending makes the log durable on the caller's behalf.
use vstd::prelude::*;

verus! {

/// Thresholds for an automatic commit. They combine: a commit is due as soon as
/// any of them is reached.
#[derive(Debug, Clone, Copy, PartialEq, Eq)]
pub struct CommitPolicy {
    every_bytes: Option<u64>,
    every_count: Option<u64>,
    every_millis: Option<u64>,
}

/// A policy's thresholds in bytes, events and milliseconds.
#[verifier::ext_equal]
pub struct PolicyView {
    pub bytes: Option<u64>,
    pub count: Option<u64>,
    pub millis: Option<u64>,
}

impl View for CommitPolicy {
    type V = PolicyView;

    closed spec fn view(&self) -> PolicyView {
        PolicyView { bytes: self.every_bytes, count: self.every_count, millis: self.every_millis }
    }
}

/// Whether a value has reached a threshold.
pub open spec fn reached(threshold: Option<u64>, value: u64) -> bool {
    threshold matches Some(t) && value >= t
}

/// Whether a commit is due after an append that left `bytes` and `count`
/// uncommitted, `millis` after the last commit.
pub open spec fn commit_due(p: PolicyView, bytes: u64, count: u64, millis: u64) -> bool {
    reached(p.bytes, bytes) || reached(p.count, count) || reached(p.millis, millis)
}

impl Default for CommitPolicy {
    fn default() -> (r: Self)
        ensures
            r@ == (PolicyView { bytes: None, count: None, millis: None }),
    {
        CommitPolicy::manual()
    }
}

impl CommitPolicy {
    /// No automatic commit.
    pub fn manual() -> (r: Self)
        ensures
            r@ == (PolicyView { bytes: None, count: None, millis: None }),
    {
        CommitPolicy { every_bytes: None, every_count: None, every_millis: None }
    }

    /// A commit once `bytes` payload bytes are uncommitted.
    pub fn every_bytes(bytes: u64) -> (r: Self)
        ensures
            r@ == (PolicyView { bytes: Some(bytes), count: None, millis: None }),
    {
        CommitPolicy { every_bytes: Some(bytes), every_count: None, every_millis: None }
    }

    /// A commit once `count` events are uncommitted.
    pub fn every_count(count: u64) -> (r: Self)
        ensures
            r@ == (PolicyView { bytes: None, count: Some(count), millis: None }),
    {
        CommitPolicy { every_bytes: None, every_count: Some(count), every_millis: None }
    }

    /// A commit on the first append at least `millis` after the last commit.
    pub fn every_millis(millis: u64) -> (r: Self)
        ensures
            r@ == (PolicyView { bytes: None, count: None, millis: Some(millis) }),
    {
        CommitPolicy { every_bytes: None, every_count: None, every_millis: Some(millis) }
    }

    pub fn and_bytes(self, bytes: u64) -> (r: Self)
        ensures
            r@ == (PolicyView { bytes: Some(bytes), ..self@ }),
    {
        CommitPolicy { every_bytes: Some(bytes), every_count: self.every_count, every_millis: self.every_millis }
    }

    pub fn and_count(self, count: u64) -> (r: Self)
        ensures
            r@ == (PolicyView { count: Some(count), ..self@ }),
    {
        CommitPolicy { every_bytes: self.every_bytes, every_count: Some(count), every_millis: self.every_millis }
    }

    pub fn and_millis(self, millis: u64) -> (r: Self)
        ensures
            r@ == (PolicyView { millis: Some(millis), ..self@ }),
    {
        CommitPolicy { every_bytes: self.every_bytes, every_count: self.every_count, every_millis: Some(millis) }
    }

    /// Whether a commit is due.
    pub fn should_commit(&self, bytes: u64, count: u64, elapsed_millis: u64) -> (r: bool)
        ensures
            r == commit_due(self@, bytes, count, elapsed_millis),
    {
        crossed(self.every_bytes, bytes) || crossed(self.every_count, count) || crossed(self.every_millis, elapsed_millis)
    }
}

fn crossed(threshold: Option<u64>, value: u64) -> (r: bool)
    ensures
        r == reached(threshold, value),
{
    match threshold {
        Some(t) => value >= t,
        None => false,
    }
}

/// A due commit stays due as more accumulates, and a further threshold only
/// makes a commit due sooner.
pub proof fn lemma_commit_monotone(p: PolicyView, q: PolicyView, bytes: u64, count: u64, millis: u64, b2: u64, c2: u64, m2: u64)
    requires
        commit_due(p, bytes, count, millis),
        bytes <= b2,
        count <= c2,
        millis <= m2,
        p.bytes is Some ==> q.bytes == p.bytes,
        p.count is Some ==> q.count == p.count,
        p.millis is Some ==> q.millis == p.millis,
    ensures
        commit_due(q, b2, c2, m2),
{
}

} // verus!
