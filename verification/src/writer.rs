//! Writers of a journal: what to write for a payload, and what follows from
//! how the write went.
use crate::journal::{
    fits, header_bytes, journal_bytes, law_append_appends, law_journal_round_trip, record_bytes,
    record_header, scan_from, scan_message, Durability, IoFailure, JournalError, RecordModel,
    HEADER_SIZE, MAX_RECORD_SIZE,
};
use crate::line_blocks::sat_add;
use crate::line_index::{load, next_after, records_size, JournalLineIndexState, LineIndexModel};
use vstd::prelude::*;
use vstd::string::StringExecFns;

verus! {

pub const DEFAULT_SEGMENT_BYTES: u64 = 67108864;

/// What to write for a payload: the header, then the payload, at `offset` of
/// the current segment, in a new segment where one is named.
#[derive(Debug)]
pub struct RecordWrite {
    pub new_segment: Option<u32>,
    pub offset: u64,
    pub sequence: u64,
    pub header: Vec<u8>,
}

/// How writing a record went.
#[derive(Debug)]
pub enum WriteOutcome {
    /// Every byte is in the file.
    Written,
    /// The write failed and the file was cut back to where it ended before.
    RolledBack(IoFailure),
    /// The write failed and part of it is still in the file.
    Stuck { write_error: String, rollback_error: String },
}

/// A record that was committed, and the full line blocks that are to be moved
/// to the store now.
#[derive(Debug)]
pub struct Committed {
    pub sequence: u64,
    pub filled: Vec<usize>,
}

/// A record may not be written.
pub open spec fn refuses(poisoned: bool, payload: Seq<u8>, error: JournalError) -> bool {
    if poisoned {
        error is JournalWriterPoisoned
    } else {
        payload.len() > MAX_RECORD_SIZE && match error {
            JournalError::RecordTooLarge { actual, limit } => actual == payload.len() && limit
                == MAX_RECORD_SIZE,
            _ => false,
        }
    }
}

pub open spec fn may_append(poisoned: bool, payload: Seq<u8>) -> bool {
    !poisoned && payload.len() <= MAX_RECORD_SIZE
}

/// The error for a write that failed.
pub open spec fn write_failure(outcome: WriteOutcome, offset: u64, error: JournalError) -> bool {
    match outcome {
        WriteOutcome::Written => false,
        WriteOutcome::RolledBack(failure) => error == JournalError::Io(failure),
        WriteOutcome::Stuck { write_error, rollback_error } => error
            == JournalError::JournalTailRollback {
            record_start: offset,
            write_error,
            rollback_error,
        },
    }
}

/// A record that is in the journal although moving one of its line blocks to
/// the store failed.
pub fn post_commit_error(sequence: u64, source: JournalError) -> (error: JournalError)
    ensures
        error == (JournalError::PostCommitIndex { sequence, source: Box::new(source) }),
{
    JournalError::PostCommitIndex { sequence, source: Box::new(source) }
}

fn check_append(poisoned: bool, payload: &[u8]) -> (checked: Result<(), JournalError>)
    ensures
        match checked {
            Ok(()) => may_append(poisoned, payload@),
            Err(error) => refuses(poisoned, payload@, error),
        },
{
    if poisoned {
        return Err(JournalError::JournalWriterPoisoned);
    }
    if payload.len() > MAX_RECORD_SIZE {
        return Err(JournalError::RecordTooLarge { actual: payload.len(), limit: MAX_RECORD_SIZE });
    }
    Ok(())
}

// ---------------------------------------------------------------------------
// One segment.

/// A writer of a journal of one segment.
#[derive(Debug)]
pub struct JournalWriter {
    pub durability: Durability,
    pub next_sequence: u64,
    pub next_file_offset: u64,
    pub line_index: JournalLineIndexState,
    pub poisoned: bool,
}

impl JournalWriter {
    pub open spec fn wf(self) -> bool {
        self.line_index@.wf()
    }

    /// The writer has written `records`, and they make up the file.
    pub open spec fn tracks(self, records: Seq<RecordModel>) -> bool {
        &&& forall|i: int| 0 <= i < records.len() ==> fits(#[trigger] records[i])
        &&& forall|i: int| 0 <= i < records.len() ==> (#[trigger] records[i]).sequence == i
        &&& self.next_sequence == records.len()
        &&& self.next_file_offset == journal_bytes(records).len()
        &&& self.line_index@ == LineIndexModel::empty().with_records(0, records)
    }

    /// The writer goes on to `after` behind a record that was committed.
    pub open spec fn commits(self, after: JournalWriter, payload: Seq<u8>) -> bool {
        &&& after.next_sequence == sat_add(self.next_sequence as int, 1)
        &&& after.next_file_offset == sat_add(
            self.next_file_offset as int,
            HEADER_SIZE + payload.len(),
        )
        &&& after.line_index@ == self.line_index@.with_record(
            0,
            self.next_file_offset,
            (RecordModel { sequence: self.next_sequence, payload }),
        )
        &&& !after.poisoned
    }

    /// The writer goes on to `after` where it was; if the record could not be
    /// taken back it takes no more.
    pub open spec fn fails(self, after: JournalWriter, stuck: bool) -> bool {
        &&& after.next_sequence == self.next_sequence
        &&& after.next_file_offset == self.next_file_offset
        &&& after.line_index@ == self.line_index@
        &&& after.poisoned == stuck
    }

    /// Opens a journal that holds `bytes`. Blocks of lines that are full are
    /// named, to be moved to the store; bytes behind `next_file_offset` are to
    /// be cut off.
    pub fn create(bytes: &[u8], durability: Durability) -> (opened: (Self, Vec<usize>))
        requires
            bytes@.len() < usize::MAX,
        ensures
            ({
                let found = scan_from(bytes@, 0);
                let index = LineIndexModel::empty().with_records(0, found.records);
                let writer = opened.0;
                &&& writer.durability == durability
                &&& writer.line_index@ == (LineIndexModel { fault: scan_message(found), ..index })
                &&& writer.next_sequence == next_after(index.last_sequence)
                &&& writer.next_file_offset == found.end
                &&& !writer.poisoned
                &&& writer.wf()
                &&& opened.1@ == LineIndexModel::empty().filled_by_records(0, found.records)
            }),
    {
        let journal = load(bytes);
        (
            JournalWriter {
                durability,
                next_sequence: journal.next_sequence,
                next_file_offset: journal.next_file_offset,
                line_index: journal.state,
                poisoned: false,
            },
            journal.filled,
        )
    }

    /// What to write for `payload`.
    pub fn append(&self, payload: &[u8]) -> (write: Result<RecordWrite, JournalError>)
        ensures
            match write {
                Ok(write) => {
                    &&& may_append(self.poisoned, payload@)
                    &&& write.new_segment is None
                    &&& write.offset == self.next_file_offset
                    &&& write.sequence == self.next_sequence
                    &&& write.header@ == header_bytes(
                        (RecordModel { sequence: self.next_sequence, payload: payload@ }),
                    )
                },
                Err(error) => refuses(self.poisoned, payload@, error),
            },
    {
        match check_append(self.poisoned, payload) {
            Err(error) => Err(error),
            Ok(()) => Ok(
                RecordWrite {
                    new_segment: None,
                    offset: self.next_file_offset,
                    sequence: self.next_sequence,
                    header: record_header(self.next_sequence, payload),
                },
            ),
        }
    }

    /// Takes note of how writing `payload` went. Only a write that left part
    /// of a record behind stops the writer for good.
    pub fn finish_append(&mut self, payload: &[u8], outcome: WriteOutcome) -> (result: Result<
        Committed,
        JournalError,
    >)
        requires
            old(self).wf(),
            may_append(old(self).poisoned, payload@),
            old(self).line_index@.lines.len + payload@.len() < usize::MAX,
        ensures
            final(self).wf(),
            final(self).durability == old(self).durability,
            match result {
                Ok(committed) => {
                    &&& outcome is Written
                    &&& committed.sequence == old(self).next_sequence
                    &&& committed.filled@ == old(self).line_index@.filled_by(payload@)
                    &&& old(self).commits(*final(self), payload@)
                },
                Err(error) => {
                    &&& write_failure(outcome, old(self).next_file_offset, error)
                    &&& old(self).fails(*final(self), outcome is Stuck)
                },
            },
    {
        match outcome {
            WriteOutcome::Written => {
                let sequence: u64 = self.next_sequence;
                let filled = self.line_index.append_record(
                    0,
                    self.next_file_offset,
                    sequence,
                    payload,
                );
                self.next_file_offset = self.next_file_offset.saturating_add(
                    (HEADER_SIZE + payload.len()) as u64,
                );
                self.next_sequence = sequence.saturating_add(1);
                Ok(Committed { sequence, filled })
            },
            WriteOutcome::RolledBack(failure) => Err(JournalError::Io(failure)),
            WriteOutcome::Stuck { write_error, rollback_error } => {
                self.poisoned = true;
                Err(
                    JournalError::JournalTailRollback {
                        record_start: self.next_file_offset,
                        write_error,
                        rollback_error,
                    },
                )
            },
        }
    }
}

pub proof fn lemma_journal_size(records: Seq<RecordModel>)
    requires
        forall|i: int| 0 <= i < records.len() ==> fits(#[trigger] records[i]),
    ensures
        journal_bytes(records).len() == records_size(records),
    decreases records.len(),
{
    if records.len() == 0 {
        assert(journal_bytes(records).len() == 0);
    } else {
        let front = records.drop_last();
        assert forall|i: int| 0 <= i < front.len() implies fits(#[trigger] front[i]) by {
            assert(fits(records[i]));
        }
        lemma_journal_size(front);
        law_append_appends(front, records.last());
        assert(front.push(records.last()) =~= records);
        assert(fits(records[records.len() - 1]));
        crate::journal::lemma_header_len(records.last());
    }
}

proof fn lemma_last_sequence(segment_id: u32, records: Seq<RecordModel>)
    requires
        forall|i: int| 0 <= i < records.len() ==> (#[trigger] records[i]).sequence == i,
        records.len() > 0,
    ensures
        LineIndexModel::empty().with_records(segment_id, records).last_sequence == Some(
            (records.len() - 1) as u64,
        ),
{
    assert(records[records.len() - 1].sequence == records.len() - 1);
}

/// Reopening a journal gives the writer that wrote it: the same lines, styles
/// and numbers, with nothing to repair.
pub proof fn law_reopened_writer_goes_on(
    writer: JournalWriter,
    reopened: JournalWriter,
    records: Seq<RecordModel>,
)
    requires
        writer.tracks(records),
        records.len() < u64::MAX,
        ({
            let found = scan_from(journal_bytes(records), 0);
            let index = LineIndexModel::empty().with_records(0, found.records);
            &&& reopened.line_index@ == (LineIndexModel { fault: scan_message(found), ..index })
            &&& reopened.next_sequence == next_after(index.last_sequence)
            &&& reopened.next_file_offset == found.end
        }),
    ensures
        reopened.tracks(records),
        reopened.line_index@ == writer.line_index@,
        reopened.next_sequence == writer.next_sequence,
        reopened.next_file_offset == writer.next_file_offset,
{
    law_journal_round_trip(records);
    if records.len() > 0 {
        lemma_last_sequence(0, records);
    }
    lemma_no_fault(0, records);
}

proof fn lemma_no_fault(segment_id: u32, records: Seq<RecordModel>)
    ensures
        LineIndexModel::empty().with_records(segment_id, records).fault is None,
    decreases records.len(),
{
}

/// A committed record is the next one of the file, and the writer goes on
/// behind it.
pub proof fn law_committed_record_is_tracked(
    before: JournalWriter,
    after: JournalWriter,
    records: Seq<RecordModel>,
    payload: Seq<u8>,
)
    requires
        before.tracks(records),
        payload.len() <= MAX_RECORD_SIZE,
        records.len() < u64::MAX,
        journal_bytes(records).len() + HEADER_SIZE + payload.len() <= u64::MAX,
        after.next_sequence == sat_add(before.next_sequence as int, 1),
        after.next_file_offset == sat_add(
            before.next_file_offset as int,
            HEADER_SIZE + payload.len(),
        ),
        after.line_index@ == before.line_index@.with_record(
            0,
            before.next_file_offset,
            (RecordModel { sequence: before.next_sequence, payload }),
        ),
    ensures
        ({
            let record = RecordModel { sequence: before.next_sequence, payload };
            &&& after.tracks(records.push(record))
            &&& journal_bytes(records.push(record)) == journal_bytes(records) + record_bytes(record)
        }),
{
    let record = RecordModel { sequence: before.next_sequence, payload };
    let all = records.push(record);
    law_append_appends(records, record);
    crate::journal::lemma_header_len(record);
    lemma_journal_size(records);
    assert(all.drop_last() =~= records);
    assert forall|i: int| 0 <= i < all.len() implies fits(#[trigger] all[i]) by {
        if i < records.len() {
            assert(fits(records[i]));
        }
    }
    assert forall|i: int| 0 <= i < all.len() implies (#[trigger] all[i]).sequence == i by {
        if i < records.len() {
            assert(records[i].sequence == i);
        }
    }
}

} // verus!
