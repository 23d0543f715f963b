//! What stored records come to for a projection.
use crate::facade::page::{dto_of, is_payload, record_dto};
use crate::facade::projection::{descriptor_takes, projection_selects, DescriptorView, ProjectionDescriptor};
use crate::facade::query::{rows_applied, DefinitionView, FailureView, JsonIndexRuntime, ProjectionFailure, RowsView};
use crate::facade::types::RecordDto;
use crate::format::frame::{OwnedStoredRecord, RecordView};
use vstd::prelude::*;

verus! {

/// What a stored record is to a projection.
#[derive(Debug)]
pub enum Offered {
    /// An event that the projection does not take.
    Passed,
    /// An event for the projection.
    Taken(RecordDto),
    /// A record that cannot be read.
    Unread(ProjectionFailure),
}

/// Hands a projection the event in a stored record, where it takes it.
pub fn offer_record(descriptor: &ProjectionDescriptor, record: OwnedStoredRecord) -> (r: Offered)
    ensures
        r is Unread <==> !is_payload(record@.payload),
        r is Taken <==> is_payload(record@.payload) && descriptor_takes(descriptor@, dto_of(record@)),
        r matches Offered::Taken(dto) ==> dto@ == dto_of(record@),
        r matches Offered::Unread(e) ==> e@.code == "decode"@,
{
    match record_dto(record) {
        Ok(dto) => if projection_selects(descriptor, &dto) {
            Offered::Taken(dto)
        } else {
            Offered::Passed
        },
        Err(e) => Offered::Unread(ProjectionFailure::new("decode", e.message().as_str())),
    }
}

/// Why rows stopped taking records in.
#[verifier::ext_equal]
pub enum FoldStop {
    Unread,
    Refused(FailureView),
}

/// Rows that took records in, up to the one that stopped them.
#[verifier::ext_equal]
pub struct Folding {
    pub rows: RowsView,
    pub stop: Option<FoldStop>,
}

/// Rows after one more record.
pub open spec fn fold_step(def: DefinitionView, d: DescriptorView, rows: RowsView, record: RecordView) -> Folding {
    if !is_payload(record.payload) {
        Folding { rows, stop: Some(FoldStop::Unread) }
    } else if !descriptor_takes(d, dto_of(record)) {
        Folding { rows, stop: None }
    } else {
        match rows_applied(def, rows, dto_of(record)) {
            Ok(after) => Folding { rows: after, stop: None },
            Err(e) => Folding { rows, stop: Some(FoldStop::Refused(e)) },
        }
    }
}

/// Rows after a run of records.
pub open spec fn folded(def: DefinitionView, d: DescriptorView, rows: RowsView, records: Seq<RecordView>) -> Folding
    decreases records.len(),
{
    if records.len() == 0 {
        Folding { rows, stop: None }
    } else {
        let before = folded(def, d, rows, records.drop_last());
        if before.stop is Some {
            before
        } else {
            fold_step(def, d, before.rows, records.last())
        }
    }
}

/// Rows that are brought up to date in two pieces end where they would in one,
/// so that a projection may be healed from wherever it stands.
pub proof fn lemma_folded_in_pieces(
    def: DefinitionView,
    d: DescriptorView,
    rows: RowsView,
    first: Seq<RecordView>,
    second: Seq<RecordView>,
)
    ensures
        folded(def, d, rows, first + second) == if folded(def, d, rows, first).stop is Some {
            folded(def, d, rows, first)
        } else {
            folded(def, d, folded(def, d, rows, first).rows, second)
        },
    decreases second.len(),
{
    if second.len() == 0 {
        assert(first + second =~= first);
    } else {
        lemma_folded_in_pieces(def, d, rows, first, second.drop_last());
        assert((first + second).drop_last() =~= first + second.drop_last());
        assert((first + second).last() == second.last());
    }
}

/// Records that a projection does not take leave its rows as they are.
pub proof fn lemma_folded_past(def: DefinitionView, d: DescriptorView, rows: RowsView, records: Seq<RecordView>)
    requires
        forall|i: int|
            0 <= i < records.len() ==> is_payload((#[trigger] records[i]).payload) && !descriptor_takes(d, dto_of(records[i])),
    ensures
        folded(def, d, rows, records) == (Folding { rows, stop: None }),
    decreases records.len(),
{
    if records.len() > 0 {
        let front = records.drop_last();
        assert forall|i: int| 0 <= i < front.len() implies is_payload((#[trigger] front[i]).payload) && !descriptor_takes(
            d,
            dto_of(front[i]),
        ) by {
            assert(front[i] == records[i]);
        }
        lemma_folded_past(def, d, rows, front);
        assert(records[records.len() - 1] == records.last());
    }
}

impl JsonIndexRuntime {
    /// Takes a stored record in, and says what stopped it, if anything did.
    pub fn fold_record(&mut self, descriptor: &ProjectionDescriptor, record: OwnedStoredRecord) -> (r: Option<ProjectionFailure>)
        ensures
            final(self).definition() == old(self).definition(),
            ({
                let step = fold_step(old(self).definition(), descriptor@, old(self)@, record@);
                &&& final(self)@ == step.rows
                &&& match step.stop {
                    None => r is None,
                    Some(FoldStop::Unread) => r matches Some(e) && e@.code == "decode"@,
                    Some(FoldStop::Refused(failure)) => r matches Some(e) && e@ == failure,
                }
            }),
    {
        match offer_record(descriptor, record) {
            Offered::Passed => None,
            Offered::Unread(e) => Some(e),
            Offered::Taken(dto) => match self.apply(&dto) {
                Ok(()) => None,
                Err(e) => Some(e),
            },
        }
    }
}

} // verus!
