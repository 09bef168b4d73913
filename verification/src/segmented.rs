//! A journal in segments of bounded size that presents one space of lines and
//! sequence numbers. Segment zero has the journal's own name; later ones carry
//! an eight-digit number in front of the extension.
use crate::journal::{
    header_bytes, record_header, record_views, scan, scan_from, scan_message, Durability,
    JournalError, RecordModel, Scan, HEADER_SIZE, MAX_RECORD_SIZE,
};
use crate::line_blocks::sat_add;
use crate::line_index::{
    law_rebuilt_index_describes_stream, law_scan_end_is_size, lemma_stream_len,
    lemma_with_records_wf, next_after, payload_stream, records_size, JournalLineIndexState,
    LineIndexModel,
};
use crate::text::{
    byte_len, decimal_text, join, lemma_decimal_len, lemma_decimal_text, u64_text,
};
use crate::writer::{may_append, refuses, write_failure, Committed, RecordWrite, WriteOutcome};
use vstd::prelude::*;
use vstd::string::StringExecFns;

verus! {

pub const MIN_SEGMENT_BYTES: u64 = 25;

// ---------------------------------------------------------------------------
// Names.

/// `text` with zeros in front up to `width` characters.
pub open spec fn zero_padded(text: Seq<char>, width: int) -> Seq<char>
    decreases width - text.len(),
{
    if text.len() >= width {
        text
    } else {
        zero_padded(seq!['0'] + text, width)
    }
}

/// What stands between the stem and the extension of a segment's file name.
pub open spec fn segment_mark(segment_id: u32) -> Seq<char> {
    if segment_id == 0 {
        Seq::empty()
    } else {
        "."@ + zero_padded(decimal_text(segment_id as nat), 8)
    }
}

/// The part of a segment's file name that tells segments apart.
pub fn segment_suffix(segment_id: u32) -> (suffix: String)
    ensures
        suffix@ == segment_mark(segment_id),
{
    if segment_id == 0 {
        return String::new();
    }
    let mut number = u64_text(segment_id as u64);
    let ghost digits = decimal_text(segment_id as nat);
    proof {
        lemma_decimal_text(segment_id as nat);
        lemma_decimal_len(digits);
        reveal_strlit("0");
        assert("0"@ =~= seq!['0']);
    }
    let mut length: usize = byte_len(number.as_str());
    while length < 8
        invariant
            length == number@.len(),
            "0"@ == seq!['0'],
            zero_padded(number@, 8) == zero_padded(digits, 8),
        decreases 8 - length,
    {
        number = join("0", number.as_str());
        length = length + 1;
    }
    join(".", number.as_str())
}

// ---------------------------------------------------------------------------
// The writer.

#[derive(Debug)]
pub struct SegmentedJournalWriter {
    pub durability: Durability,
    pub max_segment_bytes: u64,
    pub current_segment_id: u32,
    pub current_segment_bytes: u64,
    pub next_sequence: u64,
    pub line_index: JournalLineIndexState,
    pub poisoned: bool,
}

/// A segment that has been read: the blocks of lines it filled, where its
/// records end, and whether the rest of the file is to be cut off.
#[derive(Debug)]
pub struct SegmentAdded {
    pub filled: Vec<usize>,
    pub valid_bytes: u64,
    pub repair_tail: bool,
}

/// The first `count` records are numbered from `next` on.
pub open spec fn in_sequence(records: Seq<RecordModel>, next: int, count: int) -> bool {
    forall|i: int| 0 <= i < count ==> (#[trigger] records[i]).sequence == sat_add(next, i)
}

/// The records before the first one whose number is not the next.
pub open spec fn leading_in_sequence(records: Seq<RecordModel>, next: int) -> int
    decreases records.len(),
{
    if records.len() == 0 || records[0].sequence != next {
        0
    } else {
        1 + leading_in_sequence(records.skip(1), sat_add(next, 1))
    }
}

pub(crate) proof fn lemma_leading_in_sequence(records: Seq<RecordModel>, next: int, count: int)
    requires
        0 <= next <= u64::MAX,
        0 <= count <= records.len(),
        in_sequence(records, next, count),
        count < records.len() ==> records[count].sequence != sat_add(next, count),
    ensures
        leading_in_sequence(records, next) == count,
    decreases count,
{
    if count > 0 {
        let rest = records.skip(1);
        assert(records[0].sequence == sat_add(next, 0));
        assert(in_sequence(rest, sat_add(next, 1), count - 1)) by {
            assert forall|i: int| 0 <= i < count - 1 implies (#[trigger] rest[i]).sequence
                == sat_add(sat_add(next, 1), i) by {
                assert(rest[i] == records[i + 1]);
            }
        }
        if count < records.len() {
            assert(rest[count - 1] == records[count]);
        }
        lemma_leading_in_sequence(rest, sat_add(next, 1), count - 1);
    }
}

/// Why a segment cannot be part of the journal.
pub open spec fn segment_refused(
    error: JournalError,
    segment_id: u32,
    found: Scan,
    is_last: bool,
    next: int,
) -> bool {
    if !is_last && found.fault is Some {
        match error {
            JournalError::CorruptSegment { segment_id: id, detail } => id == segment_id && Some(
                detail@,
            ) == scan_message(found),
            _ => false,
        }
    } else {
        let at = leading_in_sequence(found.records, next);
        at < found.records.len() && match error {
            JournalError::SequenceGap { segment_id: id, expected, actual } => id == segment_id
                && expected == sat_add(next, at) && actual == found.records[at].sequence,
            _ => false,
        }
    }
}

pub open spec fn segment_accepted(found: Scan, is_last: bool, next: int) -> bool {
    (is_last || found.fault is None) && leading_in_sequence(found.records, next)
        == found.records.len()
}

/// The segment is full: a record of `length` bytes has to go to the next one.
pub open spec fn must_rotate(current: u64, max: u64, length: int) -> bool {
    current > 0 && sat_add(current as int, HEADER_SIZE + length) > max
}

impl SegmentedJournalWriter {
    pub open spec fn wf(self) -> bool {
        self.line_index@.wf()
    }

    /// The writer goes on to `after` at the beginning of a new segment.
    pub open spec fn rotates(self, after: SegmentedJournalWriter) -> bool {
        &&& after.current_segment_id == self.current_segment_id + 1
        &&& after.current_segment_bytes == 0
        &&& after.max_segment_bytes == self.max_segment_bytes
        &&& after.next_sequence == self.next_sequence
        &&& after.line_index == self.line_index
        &&& after.poisoned == self.poisoned
    }

    /// The writer goes on to `after` behind a record that was committed.
    pub open spec fn commits(self, after: SegmentedJournalWriter, payload: Seq<u8>) -> bool {
        &&& after.max_segment_bytes == self.max_segment_bytes
        &&& after.current_segment_id == self.current_segment_id
        &&& after.next_sequence == sat_add(self.next_sequence as int, 1)
        &&& after.current_segment_bytes == sat_add(
            self.current_segment_bytes as int,
            HEADER_SIZE + payload.len(),
        )
        &&& after.line_index@ == self.line_index@.with_record(
            self.current_segment_id,
            self.current_segment_bytes,
            (RecordModel { sequence: self.next_sequence, payload }),
        )
        &&& !after.poisoned
    }

    /// The writer goes on to `after` where it was; if the record could not be
    /// taken back it takes no more.
    pub open spec fn fails(self, after: SegmentedJournalWriter, stuck: bool) -> bool {
        &&& after.max_segment_bytes == self.max_segment_bytes
        &&& after.current_segment_id == self.current_segment_id
        &&& after.next_sequence == self.next_sequence
        &&& after.current_segment_bytes == self.current_segment_bytes
        &&& after.line_index@ == self.line_index@
        &&& after.poisoned == stuck
    }

    /// A writer of an empty journal.
    pub fn create(durability: Durability, max_segment_bytes: u64) -> (writer: Result<
        Self,
        JournalError,
    >)
        ensures
            match writer {
                Ok(writer) => {
                    &&& max_segment_bytes >= MIN_SEGMENT_BYTES
                    &&& writer.durability == durability
                    &&& writer.max_segment_bytes == max_segment_bytes
                    &&& writer.current_segment_id == 0
                    &&& writer.current_segment_bytes == 0
                    &&& writer.next_sequence == 0
                    &&& writer.line_index@ == LineIndexModel::empty()
                    &&& !writer.poisoned
                    &&& writer.wf()
                },
                Err(error) => max_segment_bytes < MIN_SEGMENT_BYTES && match error {
                    JournalError::InvalidSegmentSize { actual, minimum } => actual
                        == max_segment_bytes && minimum == MIN_SEGMENT_BYTES,
                    _ => false,
                },
            },
    {
        if max_segment_bytes < MIN_SEGMENT_BYTES {
            return Err(
                JournalError::InvalidSegmentSize {
                    actual: max_segment_bytes,
                    minimum: MIN_SEGMENT_BYTES,
                },
            );
        }
        Ok(
            SegmentedJournalWriter {
                durability,
                max_segment_bytes,
                current_segment_id: 0,
                current_segment_bytes: 0,
                next_sequence: 0,
                line_index: JournalLineIndexState::empty(),
                poisoned: false,
            },
        )
    }

    /// Goes on from a checkpoint of a journal whose last segment is
    /// `segment_id` and holds `segment_bytes` bytes.
    pub fn resume(&mut self, state: JournalLineIndexState, segment_id: u32, segment_bytes: u64)
        requires
            state@.wf(),
        ensures
            final(self).line_index@ == state@,
            final(self).next_sequence == next_after(state@.last_sequence),
            final(self).current_segment_id == segment_id,
            final(self).current_segment_bytes == segment_bytes,
            final(self).max_segment_bytes == old(self).max_segment_bytes,
            final(self).durability == old(self).durability,
            final(self).poisoned == old(self).poisoned,
            final(self).wf(),
    {
        self.next_sequence = state.next_sequence();
        self.line_index = state;
        self.current_segment_id = segment_id;
        self.current_segment_bytes = segment_bytes;
    }

    /// Adds the records of segment `segment_id`, which holds `bytes`. Only the
    /// last segment may end in bytes that are no record.
    pub fn add_segment(&mut self, segment_id: u32, bytes: &[u8], is_last: bool) -> (added: Result<
        SegmentAdded,
        JournalError,
    >)
        requires
            old(self).wf(),
            old(self).line_index@.lines.len + bytes@.len() < usize::MAX,
        ensures
            final(self).max_segment_bytes == old(self).max_segment_bytes,
            final(self).durability == old(self).durability,
            final(self).poisoned == old(self).poisoned,
            final(self).wf(),
            ({
                let found = scan_from(bytes@, 0);
                let next = old(self).next_sequence as int;
                match added {
                    Ok(added) => {
                        &&& segment_accepted(found, is_last, next)
                        &&& added.valid_bytes == found.end
                        &&& added.repair_tail == (is_last && found.fault is Some)
                        &&& added.filled@ == old(self).line_index@.filled_by_records(
                            segment_id,
                            found.records,
                        )
                        &&& final(self).line_index@ == old(self).line_index@.with_records(
                            segment_id,
                            found.records,
                        )
                        &&& final(self).next_sequence == sat_add(next, found.records.len() as int)
                        &&& final(self).current_segment_id == segment_id
                        &&& final(self).current_segment_bytes == found.end
                    },
                    Err(error) => !segment_accepted(found, is_last, next) && segment_refused(
                        error,
                        segment_id,
                        found,
                        is_last,
                        next,
                    ) && *final(self) == *old(self),
                }
            }),
    {
        let report = scan(bytes, is_last);
        let ghost found = scan_from(bytes@, 0);
        let ghost next = self.next_sequence as int;
        if !is_last {
            if let Some(detail) = report.integrity_error {
                return Err(JournalError::CorruptSegment { segment_id, detail });
            }
        }
        let mut expected: u64 = self.next_sequence;
        let mut index: usize = 0;
        while index < report.records.len()
            invariant
                index <= report.records@.len(),
                record_views(report.records@) == found.records,
                0 <= next <= u64::MAX,
                expected == sat_add(next, index as int),
                next == old(self).next_sequence,
                *self == *old(self),
                self.wf(),
                found == scan_from(bytes@, 0),
                is_last || found.fault is None,
                in_sequence(found.records, next, index as int),
            decreases report.records@.len() - index,
        {
            assert(found.records[index as int] == report.records@[index as int]@);
            let actual: u64 = report.records[index].sequence;
            if actual != expected {
                proof {
                    lemma_leading_in_sequence(found.records, next, index as int);
                }
                return Err(JournalError::SequenceGap { segment_id, expected, actual });
            }
            expected = expected.saturating_add(1);
            index += 1;
        }
        proof {
            lemma_leading_in_sequence(found.records, next, found.records.len() as int);
            law_scan_end_is_size(bytes@, 0);
            assert(bytes@.len() == bytes.len());
        }
        let filled = self.line_index.append_records(segment_id, &report.records);
        self.next_sequence = expected;
        self.current_segment_id = segment_id;
        self.current_segment_bytes = report.valid_bytes;
        Ok(
            SegmentAdded {
                filled,
                valid_bytes: report.valid_bytes,
                repair_tail: report.repaired_tail,
            },
        )
    }

    /// What to write for `payload`, and whether in a new segment.
    pub fn append(&self, payload: &[u8]) -> (write: Result<RecordWrite, JournalError>)
        ensures
            match write {
                Ok(write) => {
                    &&& may_append(self.poisoned, payload@)
                    &&& write.sequence == self.next_sequence
                    &&& write.header@ == header_bytes(
                        (RecordModel { sequence: self.next_sequence, payload: payload@ }),
                    )
                    &&& if must_rotate(
                        self.current_segment_bytes,
                        self.max_segment_bytes,
                        payload@.len() as int,
                    ) {
                        self.current_segment_id < u32::MAX && write.new_segment == Some(
                            (self.current_segment_id + 1) as u32,
                        ) && write.offset == 0
                    } else {
                        write.new_segment is None && write.offset == self.current_segment_bytes
                    }
                },
                Err(error) => refuses(self.poisoned, payload@, error) || (may_append(
                    self.poisoned,
                    payload@,
                ) && must_rotate(
                    self.current_segment_bytes,
                    self.max_segment_bytes,
                    payload@.len() as int,
                ) && self.current_segment_id == u32::MAX && error is TooManySegments),
            },
    {
        if self.poisoned {
            return Err(JournalError::JournalWriterPoisoned);
        }
        if payload.len() > MAX_RECORD_SIZE {
            return Err(
                JournalError::RecordTooLarge { actual: payload.len(), limit: MAX_RECORD_SIZE },
            );
        }
        let record_size: u64 = HEADER_SIZE as u64 + payload.len() as u64;
        let header = record_header(self.next_sequence, payload);
        if self.current_segment_bytes > 0 && self.current_segment_bytes.saturating_add(record_size)
            > self.max_segment_bytes {
            if self.current_segment_id == u32::MAX {
                return Err(JournalError::TooManySegments);
            }
            return Ok(
                RecordWrite {
                    new_segment: Some(self.current_segment_id + 1),
                    offset: 0,
                    sequence: self.next_sequence,
                    header,
                },
            );
        }
        Ok(
            RecordWrite {
                new_segment: None,
                offset: self.current_segment_bytes,
                sequence: self.next_sequence,
                header,
            },
        )
    }

    /// Takes note that the next segment has been created.
    pub fn rotate(&mut self)
        requires
            old(self).wf(),
            old(self).current_segment_id < u32::MAX,
        ensures
            final(self).wf(),
            old(self).rotates(*final(self)),
            final(self).durability == old(self).durability,
    {
        self.current_segment_id = self.current_segment_id + 1;
        self.current_segment_bytes = 0;
    }

    /// Takes note of how writing `payload` to the current segment went.
    pub fn finish_append(&mut self, payload: &[u8], outcome: WriteOutcome) -> (result: Result<
        Committed,
        JournalError,
    >)
        requires
            old(self).wf(),
            may_append(old(self).poisoned, payload@),
            old(self).line_index@.lines.len + payload@.len() < usize::MAX,
        ensures
            final(self).wf(),
            final(self).durability == old(self).durability,
            match result {
                Ok(committed) => {
                    &&& outcome is Written
                    &&& committed.sequence == old(self).next_sequence
                    &&& committed.filled@ == old(self).line_index@.filled_by(payload@)
                    &&& old(self).commits(*final(self), payload@)
                },
                Err(error) => {
                    &&& write_failure(outcome, old(self).current_segment_bytes, error)
                    &&& old(self).fails(*final(self), outcome is Stuck)
                },
            },
    {
        match outcome {
            WriteOutcome::Written => {
                let sequence: u64 = self.next_sequence;
                let filled = self.line_index.append_record(
                    self.current_segment_id,
                    self.current_segment_bytes,
                    sequence,
                    payload,
                );
                self.current_segment_bytes = self.current_segment_bytes.saturating_add(
                    (HEADER_SIZE + payload.len()) as u64,
                );
                self.next_sequence = sequence.saturating_add(1);
                Ok(Committed { sequence, filled })
            },
            WriteOutcome::RolledBack(failure) => Err(JournalError::Io(failure)),
            WriteOutcome::Stuck { write_error, rollback_error } => {
                self.poisoned = true;
                Err(
                    JournalError::JournalTailRollback {
                        record_start: self.current_segment_bytes,
                        write_error,
                        rollback_error,
                    },
                )
            },
        }
    }

    pub fn segment_count(&self) -> (count: u64)
        ensures
            count == self.current_segment_id + 1,
    {
        self.current_segment_id as u64 + 1
    }
}

// ---------------------------------------------------------------------------
// All segments as one journal.

/// The index of the records of all segments.
pub open spec fn index_of(segments: Seq<Seq<RecordModel>>) -> LineIndexModel
    decreases segments.len(),
{
    if segments.len() == 0 {
        LineIndexModel::empty()
    } else {
        index_of(segments.drop_last()).with_records((segments.len() - 1) as u32, segments.last())
    }
}

/// The payloads of all segments, joined.
pub open spec fn stream_of(segments: Seq<Seq<RecordModel>>) -> Seq<u8>
    decreases segments.len(),
{
    if segments.len() == 0 {
        Seq::empty()
    } else {
        stream_of(segments.drop_last()) + payload_stream(segments.last())
    }
}

pub open spec fn size_of_all(segments: Seq<Seq<RecordModel>>) -> int
    decreases segments.len(),
{
    if segments.len() == 0 {
        0
    } else {
        size_of_all(segments.drop_last()) + records_size(segments.last())
    }
}

proof fn lemma_stream_fits(segments: Seq<Seq<RecordModel>>)
    ensures
        stream_of(segments).len() <= size_of_all(segments),
    decreases segments.len(),
{
    if segments.len() > 0 {
        lemma_stream_fits(segments.drop_last());
        lemma_stream_len(segments.last());
    }
}

/// The index over all segments describes one stream: lines run on across
/// records and segments, and so do styles.
pub proof fn law_segments_are_one_stream(segments: Seq<Seq<RecordModel>>)
    requires
        size_of_all(segments) < usize::MAX,
        size_of_all(segments) <= u64::MAX,
    ensures
        index_of(segments).wf(),
        index_of(segments).describes(Map::empty(), stream_of(segments)),
        index_of(segments).lines.len <= size_of_all(segments),
    decreases segments.len(),
{
    if segments.len() == 0 {
        crate::line_index::law_empty_index_describes_nothing();
    } else {
        let front = segments.drop_last();
        lemma_stream_len(segments.last());
        lemma_stream_fits(front);
        law_segments_are_one_stream(front);
        law_rebuilt_index_describes_stream(
            index_of(front),
            Map::empty(),
            stream_of(front),
            (segments.len() - 1) as u32,
            segments.last(),
        );
        lemma_with_records_wf(index_of(front), (segments.len() - 1) as u32, segments.last());
    }
}

impl SegmentedJournalWriter {
    /// The writer has written `segments`, and their records make up the files.
    pub open spec fn tracks(self, segments: Seq<Seq<RecordModel>>) -> bool {
        &&& segments.len() == self.current_segment_id + 1
        &&& self.current_segment_bytes == records_size(segments.last())
        &&& self.line_index@ == index_of(segments)
    }
}

/// Starting a new segment changes nothing of the lines.
pub proof fn law_rotation_keeps_lines(
    before: SegmentedJournalWriter,
    after: SegmentedJournalWriter,
    segments: Seq<Seq<RecordModel>>,
)
    requires
        before.tracks(segments),
        after.current_segment_id == before.current_segment_id + 1,
        after.current_segment_bytes == 0,
        after.line_index == before.line_index,
    ensures
        after.tracks(segments.push(Seq::empty())),
        stream_of(segments.push(Seq::empty())) == stream_of(segments),
{
    let all = segments.push(Seq::empty());
    assert(all.drop_last() =~= segments);
    assert(stream_of(all) =~= stream_of(segments));
}

/// A committed record is the next one of the current segment.
pub proof fn law_committed_record_is_tracked(
    before: SegmentedJournalWriter,
    after: SegmentedJournalWriter,
    segments: Seq<Seq<RecordModel>>,
    record: RecordModel,
)
    requires
        before.tracks(segments),
        after.current_segment_id == before.current_segment_id,
        before.current_segment_bytes + HEADER_SIZE + record.payload.len() <= u64::MAX,
        after.current_segment_bytes == before.current_segment_bytes + HEADER_SIZE
            + record.payload.len(),
        after.line_index@ == before.line_index@.with_record(
            before.current_segment_id,
            before.current_segment_bytes,
            record,
        ),
    ensures
        ({
            let grown = segments.drop_last().push(segments.last().push(record));
            &&& after.tracks(grown)
            &&& stream_of(grown) == stream_of(segments) + record.payload
        }),
{
    let grown = segments.drop_last().push(segments.last().push(record));
    assert(grown.drop_last() =~= segments.drop_last());
    assert(segments.last().push(record).drop_last() =~= segments.last());
    assert(stream_of(grown) =~= stream_of(segments) + record.payload);
}

} // verus!
