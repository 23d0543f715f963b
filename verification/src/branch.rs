//! Branches: their identities and ancestry, what a branch sees of its
//! ancestors, and where two timelines part.
use crate::bytes::{lemma_lex_transitive, zero16};
use crate::error::{invalid_argument, ErrorView, Result, SalamanderError};
use crate::format::ids::BranchId;
use crate::format::metadata::{key_lt, lemma_key_order, Metadata, MetadataView};
use crate::log::select::scope_views;
use crate::text::{hex_string, hex_text, join2, same_text};
use vstd::prelude::*;
use vstd::utf8::encode_utf8;

verus! {

/// The most branches that one line of ancestry may hold.
pub const MAX_LINEAGE_DEPTH: usize = 64;

/// The most bytes that a branch name may take.
pub const MAX_BRANCH_NAME_BYTES: usize = 255;

/// The name of the branch that every database has.
pub const DEFAULT_BRANCH_NAME: &'static str = "main";

/// Why `name` cannot name a branch, if it cannot.
pub open spec fn branch_name_error(name: Seq<char>) -> Option<ErrorView> {
    if name.len() == 0 || encode_utf8(name).contains(0u8) {
        Some(ErrorView::InvalidArgument("branch name must be nonempty and contain no NUL"@))
    } else if encode_utf8(name).len() > MAX_BRANCH_NAME_BYTES {
        Some(
            ErrorView::ResourceLimit {
                resource: "branch name bytes"@,
                actual: encode_utf8(name).len() as u64,
                maximum: MAX_BRANCH_NAME_BYTES as u64,
            },
        )
    } else {
        None
    }
}

/// A branch's name: nonempty, without NUL, and not too long.
#[derive(Debug, PartialEq, Eq, PartialOrd, Ord, Hash)]
pub struct BranchName(String);

impl View for BranchName {
    type V = Seq<char>;

    closed spec fn view(&self) -> Seq<char> {
        self.0@
    }
}

impl BranchName {
    #[verifier::type_invariant]
    spec fn inv(self) -> bool {
        branch_name_error(self.0@) is None
    }

    pub fn new(value: &str) -> (r: Result<Self>)
        ensures
            r is Ok <==> branch_name_error(value@) is None,
            r matches Ok(name) ==> name@ == value@,
            r matches Err(e) ==> Some(e@) == branch_name_error(value@),
    {
        let bytes = value.as_bytes();
        if value.is_empty() || crate::bytes::contains_byte(bytes, 0) {
            return Err(invalid_argument("branch name must be nonempty and contain no NUL"));
        }
        if bytes.len() > MAX_BRANCH_NAME_BYTES {
            return Err(
                SalamanderError::ResourceLimit {
                    resource: "branch name bytes",
                    actual: bytes.len() as u64,
                    maximum: MAX_BRANCH_NAME_BYTES as u64,
                },
            );
        }
        Ok(BranchName(value.to_owned()))
    }

    pub fn as_str(&self) -> (r: &str)
        ensures
            r@ == self@,
            branch_name_error(r@) is None,
    {
        proof {
            use_type_invariant(self);
        }
        self.0.as_str()
    }
}

impl Clone for BranchName {
    fn clone(&self) -> (r: Self)
        ensures
            r@ == self@,
    {
        proof {
            use_type_invariant(self);
        }
        BranchName(self.0.clone())
    }
}

/// Whether a branch takes new events.
#[derive(Debug, Clone, Copy, PartialEq, Eq, Structural)]
pub enum BranchStatus {
    Active,
    Archived,
}

/// A branch.
#[derive(Debug, PartialEq, Eq)]
pub struct BranchInfo {
    pub id: BranchId,
    pub name: BranchName,
    /// The branch it was forked from.
    pub parent: Option<BranchId>,
    /// The position below which it sees its parent.
    pub fork_position: Option<u64>,
    pub created_at_unix_nanos: i64,
    pub metadata: Metadata,
    pub status: BranchStatus,
}

/// A branch as plain values.
#[verifier::ext_equal]
pub struct BranchView {
    pub id: Seq<u8>,
    pub name: Seq<char>,
    pub parent: Option<Seq<u8>>,
    pub fork_position: Option<u64>,
    pub created: i64,
    pub metadata: MetadataView,
    pub status: BranchStatus,
}

/// An optional identity as plain bytes.
pub open spec fn branch_id_view(id: Option<BranchId>) -> Option<Seq<u8>> {
    match id {
        Some(id) => Some(id@),
        None => None,
    }
}

impl View for BranchInfo {
    type V = BranchView;

    open spec fn view(&self) -> BranchView {
        BranchView {
            id: self.id@,
            name: self.name@,
            parent: branch_id_view(self.parent),
            fork_position: self.fork_position,
            created: self.created_at_unix_nanos,
            metadata: self.metadata@,
            status: self.status,
        }
    }
}

/// The branches of a list as plain values.
pub open spec fn branch_views(branches: Seq<BranchInfo>) -> Seq<BranchView> {
    Seq::new(branches.len(), |i: int| branches[i]@)
}

impl Clone for BranchInfo {
    fn clone(&self) -> (r: Self)
        ensures
            r@ == self@,
    {
        BranchInfo {
            id: self.id,
            name: self.name.clone(),
            parent: self.parent,
            fork_position: self.fork_position,
            created_at_unix_nanos: self.created_at_unix_nanos,
            metadata: self.metadata.clone(),
            status: self.status,
        }
    }
}

fn same_parent(a: Option<BranchId>, b: Option<BranchId>) -> (r: bool)
    ensures
        r == (branch_id_view(a) == branch_id_view(b)),
{
    match (a, b) {
        (Some(x), Some(y)) => x == y,
        (None, None) => true,
        _ => false,
    }
}

fn same_fork(a: Option<u64>, b: Option<u64>) -> (r: bool)
    ensures
        r == (a == b),
{
    match (a, b) {
        (Some(x), Some(y)) => x == y,
        (None, None) => true,
        _ => false,
    }
}

impl BranchInfo {
    /// Whether two branches agree in every field but the status.
    fn same_but_status(&self, other: &BranchInfo) -> (r: bool)
        ensures
            r == (self@ == (BranchView { status: self@.status, ..other@ })),
    {
        let r = self.id == other.id && same_text(self.name.as_str(), other.name.as_str()) && same_parent(self.parent, other.parent)
            && same_fork(self.fork_position, other.fork_position) && self.created_at_unix_nanos == other.created_at_unix_nanos
            && self.metadata.same(&other.metadata);
        proof {
            if r {
                assert(self@ =~= (BranchView { status: self@.status, ..other@ }));
            }
        }
        r
    }
}

/// Where the branch `id` stands in a list, the last one where it stands twice.
pub open spec fn find(bs: Seq<BranchView>, id: Seq<u8>) -> Option<int>
    decreases bs.len(),
{
    if bs.len() == 0 {
        None
    } else if bs.last().id == id {
        Some(bs.len() - 1)
    } else {
        find(bs.drop_last(), id)
    }
}

/// Whether a branch of the list has this name.
pub open spec fn has_name(bs: Seq<BranchView>, name: Seq<char>) -> bool {
    exists|i: int| 0 <= i < bs.len() && (#[trigger] bs[i]).name == name
}

pub proof fn lemma_find(bs: Seq<BranchView>, id: Seq<u8>)
    ensures
        match find(bs, id) {
            Some(i) => 0 <= i < bs.len() && bs[i].id == id,
            None => forall|i: int| 0 <= i < bs.len() ==> (#[trigger] bs[i]).id != id,
        },
    decreases bs.len(),
{
    if bs.len() > 0 && bs.last().id != id {
        lemma_find(bs.drop_last(), id);
        if find(bs.drop_last(), id) is None {
            assert forall|i: int| 0 <= i < bs.len() implies (#[trigger] bs[i]).id != id by {
                if i < bs.len() - 1 {
                    assert(bs.drop_last()[i] == bs[i]);
                }
            }
        }
    }
}

/// The line of ancestors of branch `i`, from the oldest down to itself.
pub open spec fn path(bs: Seq<BranchView>, i: int) -> Seq<BranchView>
    decreases i,
{
    match bs[i].parent {
        None => seq![bs[i]],
        Some(p) => {
            proof {
                lemma_find(bs.take(i), p);
            }
            match find(bs.take(i), p) {
                Some(j) => if 0 <= j < i {
                    path(bs, j).push(bs[i])
                } else {
                    seq![bs[i]]
                },
                None => seq![bs[i]],
            }
        },
    }
}

/// Whether no identity and no name occurs twice.
pub open spec fn distinct(bs: Seq<BranchView>) -> bool {
    forall|i: int, j: int| 0 <= i < j < bs.len() ==> (#[trigger] bs[i]).id != (#[trigger] bs[j]).id && bs[i].name != bs[j].name
}

/// What holds of every catalog: the default branch comes first, identities and
/// names are distinct, a parent comes before its children, and no line of
/// ancestry is too long.
pub open spec fn catalog_valid(bs: Seq<BranchView>) -> bool {
    &&& bs.len() > 0
    &&& bs[0].id == zero16()
    &&& bs[0].name == DEFAULT_BRANCH_NAME@
    &&& bs[0].parent is None
    &&& distinct(bs)
    &&& forall|i: int| 0 <= i < bs.len() ==> ((#[trigger] bs[i]).parent matches Some(p) ==> find(
        bs.take(i),
        p,
    ) is Some)
    &&& forall|i: int| 0 <= i < bs.len() ==> #[trigger] path(bs, i).len() <= MAX_LINEAGE_DEPTH
}

pub proof fn lemma_find_distinct(bs: Seq<BranchView>, i: int)
    requires
        distinct(bs),
        0 <= i < bs.len(),
    ensures
        find(bs, bs[i].id) == Some(i),
{
    lemma_find(bs, bs[i].id);
    match find(bs, bs[i].id) {
        Some(j) => {
            if j < i {
                assert(bs[j].id != bs[i].id);
            } else if i < j {
                assert(bs[i].id != bs[j].id);
            }
        },
        None => {
            assert(bs[i].id != bs[i].id);
        },
    }
}

/// What is found among the first branches is found among all.
pub proof fn lemma_find_prefix(bs: Seq<BranchView>, i: int, id: Seq<u8>)
    requires
        distinct(bs),
        0 <= i <= bs.len(),
        find(bs.take(i), id) is Some,
    ensures
        find(bs, id) == find(bs.take(i), id),
        0 <= find(bs, id)->0 < i,
{
    lemma_find(bs.take(i), id);
    let j = find(bs.take(i), id)->0;
    assert(bs.take(i)[j] == bs[j]);
    lemma_find_distinct(bs, j);
}

/// Ancestry looks at identities and parents of earlier branches alone.
pub proof fn lemma_path_shape(bs: Seq<BranchView>, cs: Seq<BranchView>, i: int)
    requires
        0 <= i < bs.len(),
        i < cs.len(),
        forall|k: int| 0 <= k <= i ==> (#[trigger] bs[k]).id == cs[k].id && bs[k].parent == cs[k].parent,
    ensures
        path(bs, i).len() == path(cs, i).len(),
        path(bs, i).len() > 0,
        (forall|k: int| 0 <= k <= i ==> (#[trigger] bs[k]) == cs[k]) ==> path(bs, i) == path(cs, i),
        forall|k: int| 0 <= k < path(bs, i).len() ==> (#[trigger] path(bs, i)[k]).id == path(cs, i)[k].id,
    decreases i,
{
    assert(bs[i].id == cs[i].id && bs[i].parent == cs[i].parent);
    match bs[i].parent {
        None => {},
        Some(p) => {
            lemma_find(bs.take(i), p);
            lemma_find(cs.take(i), p);
            lemma_find_shape(bs, cs, i, p);
            match find(bs.take(i), p) {
                Some(j) => {
                    assert(find(cs.take(i), p) == Some(j));
                    lemma_path_shape(bs, cs, j);
                },
                None => {},
            }
        },
    }
}

proof fn lemma_find_shape(bs: Seq<BranchView>, cs: Seq<BranchView>, i: int, id: Seq<u8>)
    requires
        0 <= i <= bs.len(),
        i <= cs.len(),
        forall|k: int| 0 <= k < i ==> (#[trigger] bs[k]).id == cs[k].id,
    ensures
        find(bs.take(i), id) == find(cs.take(i), id),
    decreases i,
{
    if i > 0 {
        assert(bs.take(i).drop_last() =~= bs.take(i - 1));
        assert(cs.take(i).drop_last() =~= cs.take(i - 1));
        assert(bs.take(i).last() == bs[i - 1] && cs.take(i).last() == cs[i - 1]);
        assert(bs[i - 1].id == cs[i - 1].id);
        lemma_find_shape(bs, cs, i - 1, id);
    }
}

/// A catalog after a branch is added, or why it cannot be.
pub open spec fn catalog_insert(bs: Seq<BranchView>, info: BranchView) -> core::result::Result<Seq<BranchView>, ErrorView> {
    let depth = match info.parent {
        None => 1,
        Some(p) => path(bs, find(bs, p)->0).len() + 1,
    };
    if find(bs, info.id) is Some || has_name(bs, info.name) {
        Err(ErrorView::BranchExists(info.name))
    } else if info.parent is Some && find(bs, info.parent->0) is None {
        Err(ErrorView::BranchNotFound(hex_text(info.parent->0)))
    } else if depth > MAX_LINEAGE_DEPTH {
        Err(ErrorView::InvalidBranchAncestry("lineage exceeds maximum depth 64"@))
    } else {
        Ok(bs.push(info))
    }
}

/// A catalog after a branch is archived, or why it cannot be. Nothing but the
/// status may differ from what is known of the branch.
pub open spec fn catalog_archive(bs: Seq<BranchView>, info: BranchView) -> core::result::Result<Seq<BranchView>, ErrorView> {
    match find(bs, info.id) {
        None => Err(ErrorView::BranchNotFound(hex_text(info.id))),
        Some(i) => if info.id == zero16() {
            Err(ErrorView::InvalidArgument("the default branch cannot be archived"@))
        } else if info != (BranchView { status: BranchStatus::Archived, ..bs[i] }) {
            Err(ErrorView::InvalidBranchAncestry("archive metadata may only change branch status"@))
        } else {
            Ok(bs.update(i, info))
        },
    }
}

/// Adding a branch keeps a catalog valid.
pub proof fn lemma_insert_valid(bs: Seq<BranchView>, info: BranchView)
    requires
        catalog_valid(bs),
        catalog_insert(bs, info) is Ok,
    ensures
        catalog_valid(bs.push(info)),
        path(bs.push(info), bs.len() as int) == match info.parent {
            None => seq![info],
            Some(p) => path(bs, find(bs, p)->0).push(info),
        },
        forall|i: int| 0 <= i < bs.len() ==> #[trigger] path(bs.push(info), i) == path(bs, i),
{
    let cs = bs.push(info);
    let n = bs.len() as int;
    lemma_find(bs, info.id);
    assert(cs[0] == bs[0]);
    assert forall|i: int, j: int| 0 <= i < j < cs.len() implies (#[trigger] cs[i]).id != (#[trigger] cs[j]).id && cs[i].name != cs[j].name by {
        assert(cs[i] == bs[i]);
        if j < n {
            assert(cs[j] == bs[j]);
        } else {
            assert(bs[i].id != info.id);
            assert(bs[i].name != info.name);
        }
    }
    assert(cs.take(n) =~= bs);
    assert forall|i: int| 0 <= i < cs.len() implies ((#[trigger] cs[i]).parent matches Some(p) ==> find(cs.take(i), p) is Some) by {
        if i < n {
            assert(cs[i] == bs[i]);
            assert(cs.take(i) =~= bs.take(i));
        }
    }
    assert forall|i: int| 0 <= i < n implies #[trigger] path(cs, i) == path(bs, i) by {
        assert forall|k: int| 0 <= k <= i implies (#[trigger] bs[k]) == cs[k] by {}
        lemma_path_shape(bs, cs, i);
    }
    match info.parent {
        None => {},
        Some(p) => {
            lemma_find(bs, p);
            let j = find(bs, p)->0;
            assert(path(cs, j) == path(bs, j));
        },
    }
    assert forall|i: int| 0 <= i < cs.len() implies #[trigger] path(cs, i).len() <= MAX_LINEAGE_DEPTH by {
        if i < n {
            assert(path(cs, i) == path(bs, i));
        }
    }
}

/// Archiving a branch keeps a catalog valid, and every line of ancestry as long
/// as it was.
pub proof fn lemma_archive_valid(bs: Seq<BranchView>, info: BranchView)
    requires
        catalog_valid(bs),
        catalog_archive(bs, info) is Ok,
    ensures
        catalog_valid(catalog_archive(bs, info)->Ok_0),
        catalog_archive(catalog_archive(bs, info)->Ok_0, info) == catalog_archive(bs, info),
{
    lemma_find(bs, info.id);
    let at = find(bs, info.id)->0;
    let cs = bs.update(at, info);
    if at == 0 {
        assert(info.id == zero16());
    }
    assert forall|k: int| 0 <= k < bs.len() implies (#[trigger] bs[k]).id == cs[k].id && bs[k].parent == cs[k].parent && bs[k].name
        == cs[k].name by {}
    assert forall|i: int, j: int| 0 <= i < j < cs.len() implies (#[trigger] cs[i]).id != (#[trigger] cs[j]).id && cs[i].name != cs[j].name by {
        assert(bs[i].id != bs[j].id && bs[i].name != bs[j].name);
    }
    assert forall|i: int| 0 <= i < cs.len() implies ((#[trigger] cs[i]).parent matches Some(p) ==> find(cs.take(i), p) is Some) by {
        assert(bs[i].parent == cs[i].parent);
        match cs[i].parent {
            Some(p) => {
                lemma_find_shape(bs, cs, i, p);
            },
            None => {},
        }
    }
    assert forall|i: int| 0 <= i < cs.len() implies #[trigger] path(cs, i).len() <= MAX_LINEAGE_DEPTH by {
        lemma_path_shape(bs, cs, i);
        assert(path(bs, i).len() <= MAX_LINEAGE_DEPTH);
    }
    lemma_find_distinct(cs, at);
    assert(cs.update(at, info) =~= cs);
}

/// The position below which branch `i` of a line is seen from its end: the
/// least of the replay's bound and of every fork position further down.
pub open spec fn scope_bound(line: Seq<BranchView>, i: int, upto: u64) -> u64
    decreases line.len() - i,
{
    if i + 1 >= line.len() {
        upto
    } else {
        let below = scope_bound(line, i + 1, upto);
        let fork = match line[i + 1].fork_position {
            Some(f) => f,
            None => upto,
        };
        if fork < below {
            fork
        } else {
            below
        }
    }
}

/// What the end of a line sees: each branch below its bound.
pub open spec fn scopes_of(line: Seq<BranchView>, upto: u64) -> Seq<(Seq<u8>, u64)> {
    Seq::new(line.len(), |i: int| (line[i].id, scope_bound(line, i, upto)))
}

/// How many branches two lines share from their start.
pub open spec fn shared_len(left: Seq<BranchView>, right: Seq<BranchView>) -> nat
    decreases left.len(),
{
    if left.len() == 0 || right.len() == 0 || left[0].id != right[0].id {
        0
    } else {
        1 + shared_len(left.skip(1), right.skip(1))
    }
}

/// The least of `until` and of the fork positions in `tail`.
pub open spec fn least_fork(tail: Seq<BranchView>, until: u64) -> u64
    decreases tail.len(),
{
    if tail.len() == 0 {
        until
    } else {
        let before = least_fork(tail.drop_last(), until);
        match tail.last().fork_position {
            Some(f) => if f < before {
                f
            } else {
                before
            },
            None => before,
        }
    }
}

/// Where two timelines part: the least of both bounds and of every fork
/// position that only one of the lines has.
pub open spec fn divergence_position(left: Seq<BranchView>, left_until: u64, right: Seq<BranchView>, right_until: u64) -> u64 {
    let shared = shared_len(left, right) as int;
    let l = least_fork(left.skip(shared), left_until);
    let r = least_fork(right.skip(shared), right_until);
    if l < r {
        l
    } else {
        r
    }
}

fn count_shared(left: &Vec<BranchInfo>, right: &Vec<BranchInfo>) -> (n: usize)
    ensures
        n == shared_len(branch_views(left@), branch_views(right@)),
        n <= left@.len(),
        n <= right@.len(),
{
    let ghost l = branch_views(left@);
    let ghost r = branch_views(right@);
    let mut n: usize = 0;
    assert(l.skip(0) =~= l);
    assert(r.skip(0) =~= r);
    while n < left.len() && n < right.len() && left[n].id == right[n].id
        invariant
            n <= left@.len(),
            n <= right@.len(),
            l == branch_views(left@),
            r == branch_views(right@),
            shared_len(l, r) == n + shared_len(l.skip(n as int), r.skip(n as int)),
        decreases left@.len() - n,
    {
        proof {
            assert(l.skip(n as int)[0] == left@[n as int]@);
            assert(r.skip(n as int)[0] == right@[n as int]@);
            assert(l.skip(n as int).skip(1) =~= l.skip(n + 1));
            assert(r.skip(n as int).skip(1) =~= r.skip(n + 1));
        }
        n = n + 1;
    }
    proof {
        if n < left@.len() && n < right@.len() {
            assert(l.skip(n as int)[0] == left@[n as int]@);
            assert(r.skip(n as int)[0] == right@[n as int]@);
        }
    }
    n
}

fn side_least(line: &Vec<BranchInfo>, from: usize, until: u64) -> (r: u64)
    requires
        from <= line@.len(),
    ensures
        r == least_fork(branch_views(line@).skip(from as int), until),
{
    let ghost tail = branch_views(line@).skip(from as int);
    let mut least: u64 = until;
    let mut i: usize = from;
    assert(tail.take(0) =~= Seq::empty());
    while i < line.len()
        invariant
            from <= i <= line@.len(),
            tail == branch_views(line@).skip(from as int),
            least == least_fork(tail.take(i - from), until),
        decreases line@.len() - i,
    {
        proof {
            let upto = tail.take(i + 1 - from);
            assert(upto.drop_last() =~= tail.take(i - from));
            assert(upto.last() == line@[i as int]@);
        }
        match line[i].fork_position {
            Some(f) => {
                if f < least {
                    least = f;
                }
            },
            None => {},
        }
        i = i + 1;
    }
    assert(tail.take(i - from) =~= tail);
    least
}

/// The deepest branch that two lines share, and where their timelines part.
pub fn divergence_of(
    left_path: &Vec<BranchInfo>,
    left_until: u64,
    right_path: &Vec<BranchInfo>,
    right_until: u64,
) -> (r: (BranchInfo, u64))
    requires
        shared_len(branch_views(left_path@), branch_views(right_path@)) > 0,
    ensures
        r.0@ == branch_views(left_path@)[shared_len(branch_views(left_path@), branch_views(right_path@)) - 1],
        r.1 == divergence_position(branch_views(left_path@), left_until, branch_views(right_path@), right_until),
{
    let shared: usize = count_shared(left_path, right_path);
    let ancestor = left_path[shared - 1].clone();
    let l: u64 = side_least(left_path, shared, left_until);
    let r: u64 = side_least(right_path, shared, right_until);
    (
        ancestor,
        if l < r {
            l
        } else {
            r
        },
    )
}

/// Whether the branches of a list ascend in the byte order of their names.
pub open spec fn names_ascend(bs: Seq<BranchView>) -> bool {
    forall|i: int, j: int| 0 <= i < j < bs.len() ==> key_lt((#[trigger] bs[i]).name, (#[trigger] bs[j]).name)
}

/// The branches of a database.
#[derive(Debug)]
pub struct BranchCatalog {
    branches: Vec<BranchInfo>,
}

impl View for BranchCatalog {
    type V = Seq<BranchView>;

    closed spec fn view(&self) -> Seq<BranchView> {
        branch_views(self.branches@)
    }
}

/// The default branch.
pub open spec fn default_branch() -> BranchView {
    BranchView {
        id: zero16(),
        name: DEFAULT_BRANCH_NAME@,
        parent: None,
        fork_position: None,
        created: 0,
        metadata: MetadataView::empty(),
        status: BranchStatus::Active,
    }
}

proof fn lemma_default_name()
    ensures
        branch_name_error("main"@) is None,
{
    reveal_strlit("main");
    crate::log::record::lemma_ascii_event_type("main"@);
}

/// What a system record says of the branches. Of a record of another type the
/// decoded branch is not looked at.
#[derive(Debug)]
pub struct BranchRecord {
    pub position: u64,
    pub event_type: String,
    /// The branch that the payload describes, or why it describes none.
    pub decoded: core::result::Result<BranchInfo, String>,
}

/// A branch record as plain values.
pub struct BranchRecordView {
    pub position: u64,
    pub event_type: Seq<char>,
    pub decoded: core::result::Result<BranchView, Seq<char>>,
}

impl View for BranchRecord {
    type V = BranchRecordView;

    open spec fn view(&self) -> BranchRecordView {
        BranchRecordView {
            position: self.position,
            event_type: self.event_type@,
            decoded: match self.decoded {
                Ok(info) => Ok(info@),
                Err(reason) => Err(reason@),
            },
        }
    }
}

/// The records of a list as plain values.
pub open spec fn branch_record_views(records: Seq<BranchRecord>) -> Seq<BranchRecordView> {
    Seq::new(records.len(), |i: int| records[i]@)
}

/// A catalog after one system record.
pub open spec fn catalog_record(bs: Seq<BranchView>, record: BranchRecordView) -> core::result::Result<Seq<BranchView>, ErrorView> {
    let created = record.event_type == "salamander.branch.created"@;
    let archived = record.event_type == "salamander.branch.archived"@;
    if !created && !archived {
        Ok(bs)
    } else {
        match record.decoded {
            Err(reason) => Err(
                ErrorView::Corrupt { offset: record.position, reason: "branch metadata decode: "@ + reason },
            ),
            Ok(info) => if created {
                catalog_insert(bs, info)
            } else {
                catalog_archive(bs, info)
            },
        }
    }
}

/// The catalog that a log's system records describe.
pub open spec fn catalog_rebuild(records: Seq<BranchRecordView>) -> core::result::Result<Seq<BranchView>, ErrorView>
    decreases records.len(),
{
    if records.len() == 0 {
        Ok(seq![default_branch()])
    } else {
        match catalog_rebuild(records.drop_last()) {
            Err(e) => Err(e),
            Ok(bs) => catalog_record(bs, records.last()),
        }
    }
}

proof fn lemma_rebuild_stops(records: Seq<BranchRecordView>, n: int)
    requires
        0 <= n <= records.len(),
        catalog_rebuild(records.take(n)) is Err,
    ensures
        catalog_rebuild(records) == catalog_rebuild(records.take(n)),
    decreases records.len() - n,
{
    if n == records.len() {
        assert(records.take(n) =~= records);
    } else {
        assert(records.take(n + 1).drop_last() =~= records.take(n));
        lemma_rebuild_stops(records, n + 1);
    }
}

impl BranchCatalog {
    /// Whether the catalog is valid, which every operation keeps.
    pub open spec fn wf(&self) -> bool {
        catalog_valid(self@)
    }

    /// A catalog of the default branch alone.
    pub fn new() -> (r: Self)
        ensures
            r.wf(),
            r@ == seq![default_branch()],
    {
        proof {
            lemma_default_name();
        }
        let default = BranchInfo {
            id: BranchId::zero(),
            name: BranchName::new(DEFAULT_BRANCH_NAME).unwrap(),
            parent: None,
            fork_position: None,
            created_at_unix_nanos: 0,
            metadata: Metadata::new(),
            status: BranchStatus::Active,
        };
        let mut branches: Vec<BranchInfo> = Vec::new();
        branches.push(default);
        let r = BranchCatalog { branches };
        assert(r@ =~= seq![default_branch()]);
        r
    }

    /// The catalog that a log's system records describe.
    pub fn rebuild(records: &Vec<BranchRecord>) -> (r: Result<Self>)
        ensures
            match catalog_rebuild(branch_record_views(records@)) {
                Ok(bs) => r matches Ok(catalog) && catalog@ == bs && catalog.wf(),
                Err(e) => r matches Err(error) && error@ == e,
            },
    {
        let ghost views = branch_record_views(records@);
        let mut catalog = BranchCatalog::new();
        let mut i: usize = 0;
        assert(views.take(0) =~= Seq::empty());
        while i < records.len()
            invariant
                i <= records@.len(),
                views == branch_record_views(records@),
                catalog.wf(),
                catalog_rebuild(views.take(i as int)) == Ok::<Seq<BranchView>, ErrorView>(catalog@),
            decreases records@.len() - i,
        {
            let record = &records[i];
            proof {
                let upto = views.take(i + 1);
                assert(upto.drop_last() =~= views.take(i as int));
                assert(upto.last() == record@);
                if catalog_rebuild(upto) is Err {
                    lemma_rebuild_stops(views, i + 1);
                }
            }
            match catalog.absorb(record) {
                Ok(()) => {},
                Err(e) => return Err(e),
            }
            i = i + 1;
        }
        assert(views.take(i as int) =~= views);
        Ok(catalog)
    }

    /// Takes in one system record.
    pub fn absorb(&mut self, record: &BranchRecord) -> (r: Result<()>)
        requires
            old(self).wf(),
        ensures
            final(self).wf(),
            match catalog_record(old(self)@, record@) {
                Ok(bs) => r is Ok && final(self)@ == bs,
                Err(e) => r matches Err(error) && error@ == e && final(self)@ == old(self)@,
            },
    {
        let created = same_text(record.event_type.as_str(), "salamander.branch.created");
        let archived = same_text(record.event_type.as_str(), "salamander.branch.archived");
        if !created && !archived {
            return Ok(());
        }
        match &record.decoded {
            Err(reason) => Err(
                SalamanderError::Corrupt {
                    offset: record.position,
                    reason: join2("branch metadata decode: ", reason.as_str()),
                },
            ),
            Ok(info) => if created {
                self.insert(info.clone())
            } else {
                self.archive(info.clone())
            },
        }
    }

    fn position_of(&self, id: BranchId) -> (r: Option<usize>)
        ensures
            match find(self@, id@) {
                Some(i) => r matches Some(k) && k == i && 0 <= i < self@.len() && self@[i].id == id@,
                None => r is None,
            },
    {
        let ghost bs = self@;
        proof {
            lemma_find(bs, id@);
        }
        let mut i: usize = self.branches.len();
        assert(bs.take(i as int) =~= bs);
        while i > 0
            invariant
                i <= self.branches@.len(),
                bs == self@,
                find(bs, id@) == find(bs.take(i as int), id@),
                match find(bs, id@) {
                    Some(i) => 0 <= i < bs.len() && bs[i].id == id@,
                    None => true,
                },
            decreases i,
        {
            assert(bs.take(i as int).last() == self.branches@[i - 1]@);
            assert(bs.take(i as int).drop_last() =~= bs.take(i - 1));
            if self.branches[i - 1].id == id {
                return Some(i - 1);
            }
            i = i - 1;
        }
        None
    }

    fn name_taken(&self, name: &str) -> (r: bool)
        ensures
            r == has_name(self@, name@),
    {
        let mut i: usize = 0;
        while i < self.branches.len()
            invariant
                i <= self.branches@.len(),
                forall|j: int| 0 <= j < i ==> (#[trigger] self@[j]).name != name@,
            decreases self.branches@.len() - i,
        {
            if same_text(self.branches[i].name.as_str(), name) {
                assert(self@[i as int].name == name@);
                return true;
            }
            i = i + 1;
        }
        false
    }

    fn depth_at(&self, index: usize) -> (n: usize)
        requires
            self.wf(),
            index < self@.len(),
        ensures
            n == path(self@, index as int).len(),
            n <= MAX_LINEAGE_DEPTH,
        decreases index,
    {
        proof {
            assert(path(self@, index as int).len() <= MAX_LINEAGE_DEPTH);
            assert(self@[index as int] == self.branches@[index as int]@);
        }
        match self.branches[index].parent {
            None => 1,
            Some(p) => {
                proof {
                    lemma_find_prefix(self@, index as int, p@);
                }
                match self.position_of(p) {
                    Some(j) => {
                        let above: usize = self.depth_at(j);
                        above + 1
                    },
                    None => 1,
                }
            },
        }
    }

    /// Adds a branch.
    pub fn insert(&mut self, info: BranchInfo) -> (r: Result<()>)
        requires
            old(self).wf(),
        ensures
            final(self).wf(),
            match catalog_insert(old(self)@, info@) {
                Ok(bs) => r is Ok && final(self)@ == bs,
                Err(e) => r matches Err(error) && error@ == e && final(self)@ == old(self)@,
            },
    {
        if self.position_of(info.id).is_some() || self.name_taken(info.name.as_str()) {
            return Err(SalamanderError::BranchExists(info.name.as_str().to_owned()));
        }
        let depth: usize = match info.parent {
            None => 1,
            Some(p) => match self.position_of(p) {
                None => return Err(SalamanderError::BranchNotFound(hex_string(p.as_bytes()))),
                Some(j) => self.depth_at(j) + 1,
            },
        };
        if depth > MAX_LINEAGE_DEPTH {
            return Err(SalamanderError::InvalidBranchAncestry("lineage exceeds maximum depth 64".to_owned()));
        }
        proof {
            lemma_insert_valid(self@, info@);
        }
        let ghost before = self@;
        self.branches.push(info);
        assert(self@ =~= before.push(info@));
        Ok(())
    }

    /// Archives a branch.
    pub fn archive(&mut self, archived: BranchInfo) -> (r: Result<()>)
        requires
            old(self).wf(),
        ensures
            final(self).wf(),
            match catalog_archive(old(self)@, archived@) {
                Ok(bs) => r is Ok && final(self)@ == bs,
                Err(e) => r matches Err(error) && error@ == e && final(self)@ == old(self)@,
            },
    {
        match self.position_of(archived.id) {
            None => Err(SalamanderError::BranchNotFound(hex_string(archived.id.as_bytes()))),
            Some(i) => {
                if archived.id.is_zero() {
                    return Err(invalid_argument("the default branch cannot be archived"));
                }
                let ghost before = self@;
                assert(before[i as int] == self.branches@[i as int]@);
                if archived.status != BranchStatus::Archived || !archived.same_but_status(&self.branches[i]) {
                    return Err(
                        SalamanderError::InvalidBranchAncestry("archive metadata may only change branch status".to_owned()),
                    );
                }
                proof {
                    assert(archived@ == (BranchView { status: BranchStatus::Archived, ..before[i as int] }));
                    lemma_archive_valid(before, archived@);
                }
                self.branches.set(i, archived);
                assert(self@ =~= before.update(i as int, archived@));
                Ok(())
            },
        }
    }

    pub fn len(&self) -> (n: usize)
        ensures
            n == self@.len(),
    {
        self.branches.len()
    }

    /// The branch at `index`, in the order of creation.
    pub fn at(&self, index: usize) -> (r: &BranchInfo)
        requires
            index < self@.len(),
        ensures
            r@ == self@[index as int],
    {
        &self.branches[index]
    }

    pub fn get(&self, id: BranchId) -> (r: Option<&BranchInfo>)
        ensures
            match find(self@, id@) {
                Some(i) => r matches Some(info) && info@ == self@[i],
                None => r is None,
            },
    {
        match self.position_of(id) {
            Some(i) => Some(&self.branches[i]),
            None => None,
        }
    }

    pub fn named(&self, name: &str) -> (r: Option<&BranchInfo>)
        ensures
            r is Some <==> has_name(self@, name@),
            r matches Some(info) ==> info@.name == name@ && self@.contains(info@),
    {
        let mut i: usize = 0;
        while i < self.branches.len()
            invariant
                i <= self.branches@.len(),
                forall|j: int| 0 <= j < i ==> (#[trigger] self@[j]).name != name@,
            decreases self.branches@.len() - i,
        {
            if same_text(self.branches[i].name.as_str(), name) {
                assert(self@[i as int] == self.branches@[i as int]@);
                return Some(&self.branches[i]);
            }
            i = i + 1;
        }
        None
    }

    fn path_to(&self, index: usize) -> (r: Vec<BranchInfo>)
        requires
            self.wf(),
            index < self@.len(),
        ensures
            branch_views(r@) == path(self@, index as int),
        decreases index,
    {
        assert(self@[index as int] == self.branches@[index as int]@);
        let own = self.branches[index].clone();
        let mut line: Vec<BranchInfo> = match own.parent {
            None => Vec::new(),
            Some(p) => {
                proof {
                    lemma_find_prefix(self@, index as int, p@);
                }
                match self.position_of(p) {
                    Some(j) => self.path_to(j),
                    None => Vec::new(),
                }
            },
        };
        let ghost above = branch_views(line@);
        line.push(own);
        assert(branch_views(line@) =~= above.push(own@));
        assert(branch_views(line@) =~= path(self@, index as int));
        line
    }

    /// The line of ancestors of a branch, from the oldest down to itself.
    pub fn ancestry(&self, id: BranchId) -> (r: Result<Vec<BranchInfo>>)
        requires
            self.wf(),
        ensures
            match find(self@, id@) {
                Some(i) => r matches Ok(line) && branch_views(line@) == path(self@, i),
                None => r matches Err(e) && e@ == ErrorView::BranchNotFound(hex_text(id@)),
            },
    {
        match self.position_of(id) {
            Some(i) => Ok(self.path_to(i)),
            None => Err(SalamanderError::BranchNotFound(hex_string(id.as_bytes()))),
        }
    }

    /// The branches forked from a branch, by name.
    pub fn children(&self, id: BranchId) -> (r: Vec<BranchInfo>)
        requires
            self.wf(),
        ensures
            names_ascend(branch_views(r@)),
            forall|b: BranchView| #[trigger] branch_views(r@).contains(b) <==> self@.contains(b) && b.parent == Some(id@),
    {
        let mut out: Vec<BranchInfo> = Vec::new();
        let mut i: usize = 0;
        while i < self.branches.len()
            invariant
                self.wf(),
                i <= self.branches@.len(),
                names_ascend(branch_views(out@)),
                forall|b: BranchView| #[trigger] branch_views(out@).contains(b) <==> self@.take(i as int).contains(b) && b.parent == Some(id@),
            decreases self.branches@.len() - i,
        {
            let branch = &self.branches[i];
            let is_child = match branch.parent {
                Some(p) => p == id,
                None => false,
            };
            let ghost before = branch_views(out@);
            let ghost upto = self@.take(i as int);
            let ghost next = self@.take(i + 1);
            proof {
                assert(self@[i as int] == branch@);
                assert(next =~= upto.push(branch@));
                lemma_contains_push(upto, branch@);
                assert forall|b: BranchView| #[trigger] before.contains(b) implies b.name != branch@.name by {
                    assert(upto.contains(b));
                    let j = choose|j: int| 0 <= j < upto.len() && upto[j] == b;
                    assert(self@[j].name != self@[i as int].name);
                }
            }
            if is_child {
                insert_by_name(&mut out, branch.clone());
            }
            i = i + 1;
        }
        assert(self@.take(i as int) =~= self@);
        out
    }

    /// What a replay of a branch up to `upto` sees of each of its ancestors.
    pub fn replay_scopes(&self, id: BranchId, upto: u64) -> (r: Result<Vec<(BranchId, u64)>>)
        requires
            self.wf(),
        ensures
            match find(self@, id@) {
                Some(i) => r matches Ok(scopes) && scope_views(scopes@) == scopes_of(path(self@, i), upto),
                None => r matches Err(e) && e@ == ErrorView::BranchNotFound(hex_text(id@)),
            },
    {
        let line = match self.ancestry(id) {
            Ok(line) => line,
            Err(e) => return Err(e),
        };
        Ok(line_scopes(&line, upto))
    }

    /// The deepest common branch of two branches, and where their timelines part.
    pub fn divergence(&self, left: BranchId, left_until: u64, right: BranchId, right_until: u64) -> (r: Result<(BranchInfo, u64)>)
        requires
            self.wf(),
            (find(self@, left@) matches Some(i) && find(self@, right@) matches Some(j)) ==> path(self@, find(self@, left@)->0)[0].id
                == path(self@, find(self@, right@)->0)[0].id,
        ensures
            match (find(self@, left@), find(self@, right@)) {
                (Some(i), Some(j)) => {
                    let l = path(self@, i);
                    let q = path(self@, j);
                    r matches Ok((info, at)) && info@ == l[shared_len(l, q) - 1] && at == divergence_position(
                        l,
                        left_until,
                        q,
                        right_until,
                    )
                },
                (None, _) => r matches Err(e) && e@ == ErrorView::BranchNotFound(hex_text(left@)),
                (Some(_), None) => r matches Err(e) && e@ == ErrorView::BranchNotFound(hex_text(right@)),
            },
    {
        let left_path = match self.ancestry(left) {
            Ok(line) => line,
            Err(e) => return Err(e),
        };
        let right_path = match self.ancestry(right) {
            Ok(line) => line,
            Err(e) => return Err(e),
        };
        proof {
            lemma_find(self@, left@);
            lemma_find(self@, right@);
            lemma_path_shape(self@, self@, find(self@, left@)->0);
            lemma_path_shape(self@, self@, find(self@, right@)->0);
        }
        Ok(divergence_of(&left_path, left_until, &right_path, right_until))
    }

    /// The deepest branch that two branches descend from.
    pub fn common_ancestor(&self, left: BranchId, right: BranchId) -> (r: Result<BranchInfo>)
        requires
            self.wf(),
        ensures
            match (find(self@, left@), find(self@, right@)) {
                (Some(i), Some(j)) => {
                    let l = path(self@, i);
                    let shared = shared_len(l, path(self@, j));
                    if shared > 0 {
                        r matches Ok(info) && info@ == l[shared - 1]
                    } else {
                        r matches Err(e) && e@ == ErrorView::InvalidBranchAncestry("branches have no common root"@)
                    }
                },
                (None, _) => r matches Err(e) && e@ == ErrorView::BranchNotFound(hex_text(left@)),
                (Some(_), None) => r matches Err(e) && e@ == ErrorView::BranchNotFound(hex_text(right@)),
            },
    {
        let left_path = match self.ancestry(left) {
            Ok(line) => line,
            Err(e) => return Err(e),
        };
        let right_path = match self.ancestry(right) {
            Ok(line) => line,
            Err(e) => return Err(e),
        };
        let shared: usize = count_shared(&left_path, &right_path);
        if shared == 0 {
            return Err(SalamanderError::InvalidBranchAncestry("branches have no common root".to_owned()));
        }
        Ok(left_path[shared - 1].clone())
    }
}

impl Clone for BranchCatalog {
    fn clone(&self) -> (r: Self)
        ensures
            r@ == self@,
    {
        let mut branches: Vec<BranchInfo> = Vec::new();
        let mut i: usize = 0;
        while i < self.branches.len()
            invariant
                i <= self.branches@.len(),
                branches@.len() == i,
                forall|j: int| 0 <= j < i ==> (#[trigger] branches@[j])@ == self.branches@[j]@,
            decreases self.branches@.len() - i,
        {
            branches.push(self.branches[i].clone());
            i = i + 1;
        }
        let r = BranchCatalog { branches };
        assert(r@ =~= self@);
        r
    }
}

proof fn lemma_contains_push(s: Seq<BranchView>, x: BranchView)
    ensures
        forall|b: BranchView| #[trigger] s.push(x).contains(b) <==> s.contains(b) || b == x,
{
    assert forall|b: BranchView| #[trigger] s.push(x).contains(b) <==> s.contains(b) || b == x by {
        if s.contains(b) {
            let i = choose|i: int| 0 <= i < s.len() && s[i] == b;
            assert(s.push(x)[i] == b);
        }
        if b == x {
            assert(s.push(x)[s.len() as int] == x);
        }
        if s.push(x).contains(b) {
            let i = choose|i: int| 0 <= i < s.push(x).len() && s.push(x)[i] == b;
            if i < s.len() {
                assert(s[i] == b);
            }
        }
    }
}

fn insert_by_name(out: &mut Vec<BranchInfo>, info: BranchInfo)
    requires
        names_ascend(branch_views(old(out)@)),
        forall|b: BranchView| #[trigger] branch_views(old(out)@).contains(b) ==> b.name != info@.name,
    ensures
        names_ascend(branch_views(final(out)@)),
        forall|b: BranchView| #[trigger] branch_views(final(out)@).contains(b) <==> branch_views(old(out)@).contains(b) || b == info@,
{
    let ghost views = branch_views(out@);
    let ghost name = info@.name;
    let mut at: usize = out.len();
    while at > 0 && crate::bytes::bytes_less(info.name.as_str().as_bytes(), out[at - 1].name.as_str().as_bytes())
        invariant
            at <= out@.len(),
            views == branch_views(out@),
            name == info@.name,
            forall|j: int| at <= j < views.len() ==> key_lt(name, (#[trigger] views[j]).name),
        decreases at,
    {
        assert(views[at - 1] == out@[at - 1]@);
        at = at - 1;
    }
    let ghost added = info@;
    proof {
        if at > 0 {
            assert(views[at - 1] == out@[at - 1]@);
            assert(views.contains(views[at - 1]));
            lemma_key_order(views[at - 1].name, name);
        }
    }
    out.insert(at, info);
    proof {
        let now = branch_views(out@);
        assert(now =~= views.insert(at as int, added));
        assert forall|i: int, j: int| 0 <= i < j < now.len() implies key_lt((#[trigger] now[i]).name, (#[trigger] now[j]).name) by {
            if j == at {
                assert(now[i] == views[i]);
                if i < at - 1 {
                    assert(key_lt(views[i].name, views[at - 1].name));
                    lemma_lex_transitive(encode_utf8(views[i].name), encode_utf8(views[at - 1].name), encode_utf8(name));
                }
            } else if i == at {
                assert(now[j] == views[j - 1]);
            } else {
                let a = if i < at { i } else { i - 1 };
                let b = if j < at { j } else { j - 1 };
                assert(now[i] == views[a] && now[j] == views[b]);
            }
        }
        assert forall|b: BranchView| #[trigger] now.contains(b) <==> views.contains(b) || b == added by {
            if views.contains(b) {
                let i = choose|i: int| 0 <= i < views.len() && views[i] == b;
                let k = if i < at { i } else { i + 1 };
                assert(now[k] == b);
            }
            if b == added {
                assert(now[at as int] == b);
            }
            if now.contains(b) && b != added {
                let k = choose|k: int| 0 <= k < now.len() && now[k] == b;
                let i = if k < at { k } else { k - 1 };
                assert(views[i] == b);
            }
        }
    }
}

/// What the end of a line of ancestry sees of each branch in it.
fn line_scopes(line: &Vec<BranchInfo>, upto: u64) -> (r: Vec<(BranchId, u64)>)
    ensures
        scope_views(r@) == scopes_of(branch_views(line@), upto),
{
    let ghost views = branch_views(line@);
    let mut bounds: Vec<u64> = Vec::new();
    let mut upper: u64 = upto;
    let mut i: usize = line.len();
    while i > 0
        invariant
            i <= line@.len(),
            views == branch_views(line@),
            bounds@.len() == line@.len() - i,
            i < line@.len() ==> upper == scope_bound(views, i as int, upto),
            i == line@.len() ==> upper == upto,
            forall|k: int| 0 <= k < bounds@.len() ==> #[trigger] bounds@[k] == scope_bound(views, line@.len() - 1 - k, upto),
        decreases i,
    {
        if i < line.len() {
            assert(views[i as int] == line@[i as int]@);
            let fork: u64 = match line[i].fork_position {
                Some(f) => f,
                None => upto,
            };
            if fork < upper {
                upper = fork;
            }
        }
        bounds.push(upper);
        i = i - 1;
    }
    let mut out: Vec<(BranchId, u64)> = Vec::new();
    let mut k: usize = 0;
    while k < line.len()
        invariant
            k <= line@.len(),
            views == branch_views(line@),
            bounds@.len() == line@.len(),
            forall|j: int| 0 <= j < bounds@.len() ==> #[trigger] bounds@[j] == scope_bound(views, line@.len() - 1 - j, upto),
            out@.len() == k,
            forall|j: int| 0 <= j < k ==> (#[trigger] out@[j]).0@ == views[j].id && out@[j].1 == scope_bound(views, j, upto),
        decreases line@.len() - k,
    {
        assert(views[k as int] == line@[k as int]@);
        out.push((line[k].id, bounds[line.len() - 1 - k]));
        k = k + 1;
    }
    assert(scope_views(out@) =~= scopes_of(views, upto));
    out
}

} // verus!
