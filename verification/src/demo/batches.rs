//! What the crash harness asks of the batches that a recovery shows: each is
//! whole, in one piece, and in order.
use crate::bytes::same16;
use crate::facade::json::{json_number, json_number_of};
use crate::facade::types::{has_id, raw_id_views, RecordDto};
use vstd::prelude::*;

verus! {

/// What a record says of its batch: in its envelope, and in its payload.
#[derive(Debug, Clone, Copy)]
pub struct BatchRow {
    pub batch_id: [u8; 16],
    pub batch_index: u32,
    pub stream_revision: u64,
    pub declared_len: Option<u64>,
    pub declared_index: Option<u64>,
}

/// Reads what a record says of its batch.
pub fn batch_row(record: &RecordDto) -> (r: BatchRow)
    ensures
        r == (BatchRow {
            batch_id: record.batch_id,
            batch_index: record.batch_index,
            stream_revision: record.stream_revision,
            declared_len: json_number_of(record.payload@, "batch_len"@),
            declared_index: json_number_of(record.payload@, "batch_index"@),
        }),
{
    BatchRow {
        batch_id: record.batch_id,
        batch_index: record.batch_index,
        stream_revision: record.stream_revision,
        declared_len: json_number(record.payload.as_slice(), "batch_len"),
        declared_index: json_number(record.payload.as_slice(), "batch_index"),
    }
}

/// Whether two neighbours are of one batch.
pub open spec fn joined(rows: Seq<BatchRow>, i: int) -> bool {
    0 < i < rows.len() && rows[i - 1].batch_id@ == rows[i].batch_id@
}

/// Where the piece that a row stands in begins.
pub open spec fn piece_start(rows: Seq<BatchRow>, i: int) -> int
    decreases i,
{
    if i > 0 && joined(rows, i) {
        piece_start(rows, i - 1)
    } else {
        i
    }
}

/// Where the piece that a row stands in ends.
pub open spec fn piece_end(rows: Seq<BatchRow>, i: int) -> int
    decreases rows.len() - i,
{
    if i < rows.len() && joined(rows, i + 1) {
        piece_end(rows, i + 1)
    } else {
        i + 1
    }
}

/// How many pieces the first so many rows make.
pub open spec fn pieces(rows: Seq<BatchRow>, n: int) -> nat
    decreases n,
{
    if n <= 0 {
        0
    } else if joined(rows, n - 1) {
        pieces(rows, n - 1)
    } else {
        pieces(rows, n - 1) + 1
    }
}

/// Whether a row says of its batch what the rows show.
pub open spec fn row_true(rows: Seq<BatchRow>, i: int) -> bool {
    let index = i - piece_start(rows, i);
    &&& rows[i].batch_index == index
    &&& rows[i].declared_index matches Some(n) && n == index
    &&& rows[i].declared_len matches Some(n) && n == piece_end(rows, i) - piece_start(rows, i)
    &&& rows[i].stream_revision == i
}

/// Whether no batch comes in two pieces.
pub open spec fn in_one_piece(rows: Seq<BatchRow>) -> bool {
    forall|i: int, j: int|
        0 <= i < j < rows.len() && (#[trigger] rows[i]).batch_id@ == (#[trigger] rows[j]).batch_id@ ==> piece_start(rows, i) == piece_start(
            rows,
            j,
        )
}

/// Whether every batch is whole, in one piece, and in order.
pub open spec fn batches_whole(rows: Seq<BatchRow>) -> bool {
    &&& in_one_piece(rows)
    &&& forall|i: int| 0 <= i < rows.len() ==> #[trigger] row_true(rows, i)
}

proof fn lemma_piece(rows: Seq<BatchRow>, start: int, end: int, i: int)
    requires
        0 <= start <= i < end <= rows.len(),
        !joined(rows, start),
        !joined(rows, end),
        forall|k: int| start < k < end ==> #[trigger] joined(rows, k),
    ensures
        piece_start(rows, i) == start,
        piece_end(rows, i) == end,
{
    lemma_piece_start(rows, start, i);
    lemma_piece_end(rows, end, i);
}

proof fn lemma_piece_start(rows: Seq<BatchRow>, start: int, i: int)
    requires
        0 <= start <= i < rows.len(),
        !joined(rows, start),
        forall|k: int| start < k <= i ==> #[trigger] joined(rows, k),
    ensures
        piece_start(rows, i) == start,
    decreases i,
{
    if i > start {
        assert(joined(rows, i));
        lemma_piece_start(rows, start, i - 1);
    }
}

proof fn lemma_piece_end(rows: Seq<BatchRow>, end: int, i: int)
    requires
        0 <= i < end <= rows.len(),
        !joined(rows, end),
        forall|k: int| i < k < end ==> #[trigger] joined(rows, k),
    ensures
        piece_end(rows, i) == end,
    decreases end - i,
{
    if i + 1 < end {
        assert(joined(rows, i + 1));
        lemma_piece_end(rows, end, i + 1);
    }
}

/// Where the piece that begins at `start` ends.
fn find_end(rows: &Vec<BatchRow>, start: usize) -> (end: usize)
    requires
        start < rows@.len(),
    ensures
        start < end <= rows@.len(),
        !joined(rows@, end as int),
        forall|k: int| start < k < end ==> #[trigger] joined(rows@, k),
{
    let n: usize = rows.len();
    let mut end: usize = start + 1;
    while end < n && same16(&rows[end - 1].batch_id, &rows[end].batch_id)
        invariant
            n == rows@.len(),
            start < end <= n,
            forall|k: int| start < k < end ==> #[trigger] joined(rows@, k),
        decreases n - end,
    {
        end = end + 1;
    }
    end
}

/// Whether the rows of one piece say of their batch what they show.
fn piece_true(rows: &Vec<BatchRow>, start: usize, end: usize) -> (r: bool)
    requires
        start < end <= rows@.len(),
        !joined(rows@, start as int),
        !joined(rows@, end as int),
        forall|k: int| start < k < end ==> #[trigger] joined(rows@, k),
    ensures
        r <==> forall|i: int| start <= i < end ==> #[trigger] row_true(rows@, i),
{
    let mut i: usize = start;
    while i < end
        invariant
            start <= i <= end <= rows@.len(),
            !joined(rows@, start as int),
            !joined(rows@, end as int),
            forall|k: int| start < k < end ==> #[trigger] joined(rows@, k),
            forall|k: int| start <= k < i ==> #[trigger] row_true(rows@, k),
        decreases end - i,
    {
        let row = &rows[i];
        let index: u64 = (i - start) as u64;
        let len: u64 = (end - start) as u64;
        proof {
            lemma_piece(rows@, start as int, end as int, i as int);
        }
        let named: bool = match row.declared_index {
            Some(n) => n == index,
            None => false,
        };
        let sized: bool = match row.declared_len {
            Some(n) => n == len,
            None => false,
        };
        if row.batch_index as u64 != index || !named || !sized || row.stream_revision != i as u64 {
            assert(!row_true(rows@, i as int));
            return false;
        }
        i = i + 1;
    }
    true
}

/// Counts the batches, where every one is whole, in one piece, and in order.
pub fn check_batches(rows: &Vec<BatchRow>) -> (r: Option<usize>)
    ensures
        r is Some <==> batches_whole(rows@),
        r matches Some(n) ==> n == pieces(rows@, rows@.len() as int),
{
    let mut seen: Vec<[u8; 16]> = Vec::new();
    let mut at: usize = 0;
    while at < rows.len()
        invariant
            at <= rows@.len(),
            !joined(rows@, at as int),
            seen@.len() == pieces(rows@, at as int),
            seen@.len() <= at,
            forall|i: int| 0 <= i < at ==> #[trigger] row_true(rows@, i),
            forall|i: int| 0 <= i < at ==> 0 <= #[trigger] piece_start(rows@, i) < at,
            forall|i: int| 0 <= i < at ==> raw_id_views(seen@).contains((#[trigger] rows@[i]).batch_id@),
            forall|k: int|
                0 <= k < seen@.len() ==> exists|i: int| 0 <= i < at && (#[trigger] rows@[i]).batch_id@ == #[trigger] raw_id_views(seen@)[k],
            forall|i: int, j: int|
                0 <= i < j < at && (#[trigger] rows@[i]).batch_id@ == (#[trigger] rows@[j]).batch_id@ ==> piece_start(rows@, i) == piece_start(
                    rows@,
                    j,
                ),
        decreases rows@.len() - at,
    {
        let start: usize = at;
        let end = find_end(rows, start);
        let id = rows[start].batch_id;
        proof {
            lemma_same_piece(rows@, start as int, end as int);
            assert forall|i: int| start <= i < end implies #[trigger] piece_start(rows@, i) == start by {
                lemma_piece(rows@, start as int, end as int, i);
            }
        }
        if has_id(&seen, &id) {
            proof {
                let k = choose|k: int| 0 <= k < raw_id_views(seen@).len() && raw_id_views(seen@)[k] == id@;
                let i = choose|i: int| 0 <= i < start && (#[trigger] rows@[i]).batch_id@ == raw_id_views(seen@)[k];
                assert(rows@[i].batch_id@ == rows@[start as int].batch_id@);
                assert(piece_start(rows@, i) < start);
                assert(piece_start(rows@, start as int) == start);
                assert(!in_one_piece(rows@));
            }
            return None;
        }
        if !piece_true(rows, start, end) {
            proof {
                let i = choose|i: int| start <= i < end && !#[trigger] row_true(rows@, i);
                assert(!batches_whole(rows@));
            }
            return None;
        }
        let ghost before = seen@;
        seen.push(id);
        proof {
            let views = raw_id_views(seen@);
            assert(views =~= raw_id_views(before).push(id@));
            lemma_pieces_step(rows@, start as int, end as int);
            assert forall|i: int| 0 <= i < end implies views.contains((#[trigger] rows@[i]).batch_id@) by {
                if i < start {
                    let k = choose|k: int| 0 <= k < raw_id_views(before).len() && raw_id_views(before)[k] == rows@[i].batch_id@;
                    assert(views[k] == rows@[i].batch_id@);
                } else {
                    assert(views[before.len() as int] == rows@[i].batch_id@);
                }
            }
            assert forall|k: int| 0 <= k < seen@.len() implies exists|i: int|
                0 <= i < end && (#[trigger] rows@[i]).batch_id@ == #[trigger] views[k] by {
                if k < before.len() {
                    let i = choose|i: int| 0 <= i < start && (#[trigger] rows@[i]).batch_id@ == raw_id_views(before)[k];
                    assert(rows@[i].batch_id@ == views[k]);
                } else {
                    assert(rows@[start as int].batch_id@ == views[k]);
                }
            }
            assert forall|i: int, j: int|
                0 <= i < j < end && (#[trigger] rows@[i]).batch_id@ == (#[trigger] rows@[j]).batch_id@ implies piece_start(rows@, i) == piece_start(
                rows@,
                j,
            ) by {
                if i < start && j >= start {
                    assert(rows@[j].batch_id@ == id@);
                    assert(raw_id_views(before).contains(rows@[i].batch_id@));
                }
            }
        }
        at = end;
    }
    Some(seen.len())
}

proof fn lemma_same_piece(rows: Seq<BatchRow>, start: int, end: int)
    requires
        0 <= start < end <= rows.len(),
        forall|k: int| start < k < end ==> #[trigger] joined(rows, k),
    ensures
        forall|i: int| start <= i < end ==> (#[trigger] rows[i]).batch_id@ == rows[start].batch_id@,
    decreases end - start,
{
    if end > start + 1 {
        lemma_same_piece(rows, start, end - 1);
        assert(joined(rows, end - 1));
    }
}

proof fn lemma_pieces_step(rows: Seq<BatchRow>, start: int, end: int)
    requires
        0 <= start < end <= rows.len(),
        !joined(rows, start),
        forall|k: int| start < k < end ==> #[trigger] joined(rows, k),
    ensures
        pieces(rows, end) == pieces(rows, start) + 1,
    decreases end - start,
{
    if end > start + 1 {
        lemma_pieces_step(rows, start, end - 1);
        assert(joined(rows, end - 1));
    }
}

} // verus!
