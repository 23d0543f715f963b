//! What forking and archiving promise: which forks are taken, what the new
//! branch is, and that no other branch changes.
use crate::branch::{catalog_valid, find, lemma_find, lemma_find_distinct, path, BranchView};
use crate::bytes::zero16;
use crate::db::engine::DbView;
use crate::db::fork::{archived, batch_boundary, branch_forked, forked};
use crate::format::metadata::MetadataView;
use crate::laws::append::is_nanos;
use crate::laws::replay::is_branch;
use vstd::prelude::*;

verus! {

/// A position may be forked at where it lies between batches: at the beginning,
/// at the head, or between two events of different batches.
pub proof fn lemma_fork_place(db: DbView, at: u64, before: Option<Seq<u8>>, after: Option<Seq<u8>>)
    ensures
        batch_boundary(db, at, before, after) <==> at == 0 || at == db.log.active.next_offset || (before matches Some(a) && (
        after matches Some(b) && a != b)),
{
}

/// A new branch is what was asked for: it has the identity, the name and the
/// metadata that were given, its parent and its fork are those of the request,
/// and it takes events.
pub proof fn lemma_branch_asked(id: Seq<u8>, name: Seq<char>, parent: Seq<u8>, at: u64, millis: u64, metadata: MetadataView)
    ensures
        ({
            let b = branch_forked(id, name, parent, at, millis, metadata);
            &&& b.id == id && b.name == name && b.metadata == metadata
            &&& b.parent == Some(parent) && b.fork_position == Some(at)
            &&& b.status is Active
            &&& is_nanos(millis, b.created)
        }),
{
    crate::laws::append::lemma_clock(millis);
}

/// A fork is taken exactly where its parent exists, its position lies between
/// batches, at or below the head and where the log still reaches, its identity
/// and its name are new, and the line does not grow too long. Then the new
/// branch is added behind the others, and nothing else changes.
pub proof fn lemma_fork_taken(db: DbView, parent: Seq<u8>, at: u64, boundary: bool, info: BranchView, p: int)
    requires
        catalog_valid(db.branches),
        info.parent == Some(parent),
        is_branch(db.branches, p, parent),
    ensures
        forked(db, parent, at, boundary, info) is Ok <==> {
            &&& db.log.manifest.retention_floor <= at <= db.log.active.next_offset
            &&& boundary
            &&& forall|i: int| 0 <= i < db.branches.len() ==> (#[trigger] db.branches[i]).id != info.id && db.branches[i].name != info.name
            &&& path(db.branches, p).len() < 64
        },
        forked(db, parent, at, boundary, info) matches Ok(now) ==> now.len() == db.branches.len() + 1 && now.last() == info
            && now.drop_last() == db.branches,
        at > db.log.active.next_offset ==> (forked(db, parent, at, boundary, info) matches Err(e) && e is OffsetBeyondHead),
{
    lemma_find(db.branches, info.id);
    lemma_find_distinct(db.branches, p);
    if let Some(i) = find(db.branches, info.id) {
        assert(db.branches[i].id == info.id);
    }
    assert(db.branches.push(info).drop_last() =~= db.branches);
}

/// A fork of a branch that does not exist is refused.
pub proof fn lemma_fork_unknown(db: DbView, parent: Seq<u8>, at: u64, boundary: bool, info: BranchView)
    requires
        forall|i: int| !is_branch(db.branches, i, parent),
    ensures
        forked(db, parent, at, boundary, info) is Err && forked(db, parent, at, boundary, info)->Err_0 is BranchNotFound,
{
    lemma_find(db.branches, parent);
    if let Some(i) = find(db.branches, parent) {
        assert(is_branch(db.branches, i, parent));
    }
}

/// Archiving changes the status of one branch and nothing else; the default
/// branch cannot be archived, and one that is archived stays so.
pub proof fn lemma_archiving(db: DbView, id: Seq<u8>, i: int)
    requires
        catalog_valid(db.branches),
        is_branch(db.branches, i, id),
    ensures
        match archived(db, id) {
            Err(_) => id == zero16(),
            Ok(None) => id != zero16() && db.branches[i].status is Archived,
            Ok(Some(now)) => {
                &&& id != zero16()
                &&& db.branches[i].status is Active
                &&& now.len() == db.branches.len()
                &&& forall|j: int| 0 <= j < now.len() && j != i ==> #[trigger] now[j] == db.branches[j]
                &&& now[i].status is Archived
                &&& now[i].id == id && now[i].name == db.branches[i].name
                &&& now[i].parent == db.branches[i].parent && now[i].fork_position == db.branches[i].fork_position
                &&& now[i].created == db.branches[i].created && now[i].metadata == db.branches[i].metadata
            },
        },
{
    lemma_find_distinct(db.branches, i);
}

/// The line of a branch goes from a branch without a parent down to itself, each
/// branch forked from the one before it.
pub proof fn lemma_ancestry(bs: Seq<BranchView>, i: int, k: int)
    requires
        catalog_valid(bs),
        0 <= i < bs.len(),
        0 <= k < path(bs, i).len(),
    ensures
        path(bs, i)[0].parent is None,
        path(bs, i).last() == bs[i],
        bs.contains(path(bs, i)[k]),
        k > 0 ==> path(bs, i)[k].parent == Some(path(bs, i)[k - 1].id),
{
    let line = crate::laws::replay::lemma_line(bs, i);
    assert(bs[line[k]] == path(bs, i)[k]);
    assert(bs[line[0]] == path(bs, i)[0]);
    assert(bs[line[line.len() - 1]] == path(bs, i)[line.len() - 1]);
    if k > 0 {
        assert(crate::laws::replay::forked_from(bs, line, k));
        assert(bs[line[k - 1]] == path(bs, i)[k - 1]);
    }
}

} // verus!
