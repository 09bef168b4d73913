//! What holds of all that a writer has been told to write.
use crate::index_laws::{
    all_records, in_one_sequence, indexes, law_committed_record_is_indexed,
    law_empty_journal_is_indexed, law_indexes_agree, law_new_segment_is_indexed,
    law_checkpoint_says_what_the_journal_says, law_rebuilt_index_is_indexed,
    law_stored_block_is_indexed, say_the_same, stamps_of, store_of, with_new_record,
};
use crate::journal::{
    fits, journal_bytes, law_append_appends, law_journal_round_trip, law_scan_reads_back,
    record_bytes, scan_from, scan_message, JournalError, RecordModel, HEADER_SIZE,
    MAX_RECORD_SIZE,
};
use crate::line_blocks::sat_add;
use crate::line_index::{lemma_stream_len, next_after, records_size, LineIndexModel};
use crate::checkpoint::{
    cache_bytes, read_cache, CacheReading, FileStamp, MAX_CACHE_BYTES,
};
use crate::segmented::{
    in_sequence, index_of, lemma_leading_in_sequence, must_rotate, segment_accepted, size_of_all,
    SegmentedJournalWriter,
};
use crate::writer::{
    lemma_journal_size, may_append, refuses, JournalWriter, WriteOutcome,
};
use vstd::prelude::*;

verus! {

// ---------------------------------------------------------------------------
// One segment.

impl JournalWriter {
    /// The writer has written `records`, and they make up its file; `loaded`
    /// are the blocks of lines that have gone to the store.
    pub open spec fn keeps(self, loaded: Map<int, Seq<u64>>, records: Seq<RecordModel>) -> bool {
        &&& self.next_sequence == records.len()
        &&& self.next_file_offset == journal_bytes(records).len()
        &&& indexes(self.line_index@, loaded, seq![records])
    }
}

/// What a file holds after a record was written at `offset`. Of a record that
/// could not be taken back some bytes are `left`.
pub open spec fn file_after(
    file: Seq<u8>,
    offset: int,
    record: RecordModel,
    outcome: WriteOutcome,
    left: Seq<u8>,
) -> Seq<u8> {
    match outcome {
        WriteOutcome::Written => file.take(offset) + record_bytes(record),
        WriteOutcome::RolledBack(_) => file.take(offset),
        WriteOutcome::Stuck { .. } => file.take(offset) + left,
    }
}

/// A payload that a writer is given, and what comes of it.
pub struct Attempt {
    pub payload: Seq<u8>,
    pub outcome: WriteOutcome,
    pub left: Seq<u8>,
}

/// What an attempt makes of a writer and its file. One that is refused changes
/// neither.
pub open spec fn attempted(
    before: (JournalWriter, Seq<u8>),
    after: (JournalWriter, Seq<u8>),
    attempt: Attempt,
) -> bool {
    if !may_append(before.0.poisoned, attempt.payload) {
        after == before
    } else {
        let record = RecordModel {
            sequence: before.0.next_sequence,
            payload: attempt.payload,
        };
        &&& after.1 == file_after(
            before.1,
            before.0.next_file_offset as int,
            record,
            attempt.outcome,
            attempt.left,
        )
        &&& if attempt.outcome is Written {
            before.0.commits(after.0, attempt.payload)
        } else {
            before.0.fails(after.0, attempt.outcome is Stuck)
        }
    }
}

proof fn lemma_one_segment(records: Seq<RecordModel>)
    ensures
        all_records(seq![records]) == records,
        size_of_all(seq![records]) == records_size(records),
        index_of(seq![records]) == LineIndexModel::empty().with_records(0, records),
{
    let segments = seq![records];
    assert(segments.drop_last() =~= Seq::<Seq<RecordModel>>::empty());
    assert(all_records(segments.drop_last()) =~= Seq::<RecordModel>::empty());
    assert(all_records(segments) =~= records);
    assert(size_of_all(segments.drop_last()) == 0);
    assert(index_of(segments.drop_last()) == LineIndexModel::empty());
}

proof fn lemma_records_fit(index: LineIndexModel, loaded: Map<int, Seq<u64>>, records: Seq<RecordModel>)
    requires
        indexes(index, loaded, seq![records]),
    ensures
        forall|i: int| 0 <= i < records.len() ==> fits(#[trigger] records[i]),
        forall|i: int| 0 <= i < records.len() ==> (#[trigger] records[i]).sequence == i,
        journal_bytes(records).len() == records_size(records),
        records.len() < u64::MAX,
{
    lemma_one_segment(records);
    assert forall|i: int| 0 <= i < records.len() implies fits(#[trigger] records[i])
        && records[i].sequence == i by {
        assert(all_records(seq![records])[i] == records[i]);
    }
    lemma_journal_size(records);
    lemma_stream_len(records);
}

/// What a writer has written is read back: a committed record is the next one
/// of the file, under the next number, and a record that failed and was taken
/// back leaves the file, the lines and the next number as they were.
pub proof fn law_appended_record_is_read_back(
    before: (JournalWriter, Seq<u8>),
    after: (JournalWriter, Seq<u8>),
    attempt: Attempt,
    loaded: Map<int, Seq<u64>>,
    records: Seq<RecordModel>,
)
    requires
        before.0.keeps(loaded, records),
        before.1 == journal_bytes(records),
        may_append(before.0.poisoned, attempt.payload),
        attempted(before, after, attempt),
        records_size(records) + HEADER_SIZE + attempt.payload.len() < usize::MAX,
        records_size(records) + HEADER_SIZE + attempt.payload.len() <= u64::MAX,
    ensures
        ({
            let record = RecordModel {
                sequence: before.0.next_sequence,
                payload: attempt.payload,
            };
            &&& record.sequence == records.len()
            &&& scan_from(before.1, 0).records == records
            &&& attempt.outcome is Written ==> after.0.keeps(loaded, records.push(record))
                && after.1 == journal_bytes(records.push(record)) && scan_from(after.1, 0).records
                == records.push(record)
            &&& attempt.outcome is RolledBack ==> after.1 == before.1 && after.0.keeps(
                loaded,
                records,
            ) && after.0.line_index@ == before.0.line_index@ && after.0.next_sequence
                == before.0.next_sequence && !after.0.poisoned
        }),
{
    let record = RecordModel { sequence: before.0.next_sequence, payload: attempt.payload };
    let segments = seq![records];
    lemma_records_fit(before.0.line_index@, loaded, records);
    lemma_one_segment(records);
    law_journal_round_trip(records);
    assert(before.1.take(journal_bytes(records).len() as int) =~= before.1);
    if attempt.outcome is Written {
        let all = records.push(record);
        law_append_appends(records, record);
        assert(all.drop_last() =~= records);
        assert forall|i: int| 0 <= i < all.len() implies fits(#[trigger] all[i]) by {
            if i < records.len() {
                assert(fits(records[i]));
            }
        }
        lemma_journal_size(all);
        law_journal_round_trip(all);
        law_committed_record_is_indexed(before.0.line_index@, loaded, segments, record);
        assert(with_new_record(segments, record) =~= seq![all]);
    }
}

/// The states of a writer and its file, one after each attempt.
pub open spec fn attempts_run(
    states: Seq<(JournalWriter, Seq<u8>)>,
    attempts: Seq<Attempt>,
) -> bool
    decreases attempts.len(),
{
    &&& states.len() == attempts.len() + 1
    &&& attempts.len() > 0 ==> attempts_run(states.drop_last(), attempts.drop_last())
        && attempted(states[states.len() - 2], states.last(), attempts.last())
}

/// An attempt of a run left part of a record behind.
pub open spec fn got_stuck(
    states: Seq<(JournalWriter, Seq<u8>)>,
    attempts: Seq<Attempt>,
    at: int,
) -> bool {
    may_append(states[at].0.poisoned, attempts[at].payload) && attempts[at].outcome is Stuck
}

/// A writer takes nothing more if and only if an earlier record could not be
/// taken back; then, and where a payload is too large, a record is refused,
/// with an error that says which, and nothing is written and no number used.
pub proof fn law_writer_is_poisoned_by_a_stuck_record(
    states: Seq<(JournalWriter, Seq<u8>)>,
    attempts: Seq<Attempt>,
    next: Attempt,
    after: (JournalWriter, Seq<u8>),
    error: JournalError,
)
    requires
        attempts_run(states, attempts),
        !states[0].0.poisoned,
        attempted(states.last(), after, next),
    ensures
        ({
            let last = states.last();
            let poisoned = exists|i: int|
                0 <= i < attempts.len() && #[trigger] got_stuck(states, attempts, i);
            &&& last.0.poisoned == poisoned
            &&& may_append(last.0.poisoned, next.payload) == (!poisoned && next.payload.len()
                <= MAX_RECORD_SIZE)
            &&& poisoned || next.payload.len() > MAX_RECORD_SIZE ==> after == last
            &&& refuses(last.0.poisoned, next.payload, error) == if poisoned {
                error is JournalWriterPoisoned
            } else {
                next.payload.len() > MAX_RECORD_SIZE && (error matches
                    JournalError::RecordTooLarge { actual, limit } && actual == next.payload.len()
                    && limit == 16777216)
            }
        }),
{
    lemma_poisoned_by(states, attempts);
}

proof fn lemma_poisoned_by(states: Seq<(JournalWriter, Seq<u8>)>, attempts: Seq<Attempt>)
    requires
        attempts_run(states, attempts),
        !states[0].0.poisoned,
    ensures
        states.last().0.poisoned == exists|i: int|
            0 <= i < attempts.len() && #[trigger] got_stuck(states, attempts, i),
    decreases attempts.len(),
{
    if attempts.len() > 0 {
        let front = states.drop_last();
        let earlier = attempts.drop_last();
        lemma_poisoned_by(front, earlier);
        let n = earlier.len() as int;
        assert(front.last() == states[n]);
        assert forall|i: int| 0 <= i < n implies #[trigger] got_stuck(states, attempts, i)
            == got_stuck(front, earlier, i) by {
            assert(front[i] == states[i] && earlier[i] == attempts[i]);
        }
        if front.last().0.poisoned {
            let i = choose|i: int| 0 <= i < n && #[trigger] got_stuck(front, earlier, i);
            assert(got_stuck(states, attempts, i));
        } else if states.last().0.poisoned {
            assert(got_stuck(states, attempts, n));
        } else {
            assert forall|i: int| 0 <= i < attempts.len() implies !#[trigger] got_stuck(
                states,
                attempts,
                i,
            ) by {
                if i < n {
                    assert(!got_stuck(front, earlier, i));
                }
            }
        }
    }
}

/// Opening the file that a writer wrote, with bytes behind its records that are
/// no record, gives a writer that goes on where the first one stopped, and an
/// index that says the same of every line. The file is cut where the records
/// end.
pub proof fn law_reopened_journal_says_the_same(
    live: JournalWriter,
    loaded: Map<int, Seq<u64>>,
    records: Seq<RecordModel>,
    torn: Seq<u8>,
    reopened: JournalWriter,
)
    requires
        live.keeps(loaded, records),
        scan_from(journal_bytes(records) + torn, 0).end == journal_bytes(records).len(),
        ({
            let found = scan_from(journal_bytes(records) + torn, 0);
            let index = LineIndexModel::empty().with_records(0, found.records);
            &&& reopened.line_index@ == (LineIndexModel { fault: scan_message(found), ..index })
            &&& reopened.next_sequence == next_after(index.last_sequence)
            &&& reopened.next_file_offset == found.end
        }),
    ensures
        reopened.next_sequence == records.len(),
        reopened.next_file_offset == records_size(records),
        (journal_bytes(records) + torn).take(reopened.next_file_offset as int) == journal_bytes(
            records,
        ),
        ({
            let index = LineIndexModel { fault: None, ..reopened.line_index@ };
            &&& indexes(index, Map::empty(), seq![records])
            &&& say_the_same(live.line_index@, loaded, index, Map::empty())
        }),
{
    let bytes = journal_bytes(records) + torn;
    lemma_records_fit(live.line_index@, loaded, records);
    lemma_one_segment(records);
    law_scan_reads_back(Seq::empty(), records, torn);
    assert(Seq::<u8>::empty() + journal_bytes(records) + torn =~= bytes);
    let rest = scan_from(bytes, journal_bytes(records).len() as int);
    crate::line_index::law_scan_end_is_size(bytes, journal_bytes(records).len() as int);
    lemma_stream_len(rest.records);
    assert(rest.records.len() == 0);
    assert(records + rest.records =~= records);
    assert(bytes.take(journal_bytes(records).len() as int) =~= journal_bytes(records));
    law_rebuilt_index_is_indexed(seq![records]);
    let index = LineIndexModel { fault: None, ..reopened.line_index@ };
    assert(index =~= index_of(seq![records]));
    law_indexes_agree(live.line_index@, loaded, index, Map::empty(), seq![records]);
}

// ---------------------------------------------------------------------------
// Many segments.

impl SegmentedJournalWriter {
    /// The writer has written `segments`, and their records make up its files;
    /// `loaded` are the blocks of lines that have gone to the store.
    pub open spec fn keeps(
        self,
        loaded: Map<int, Seq<u64>>,
        segments: Seq<Seq<RecordModel>>,
    ) -> bool {
        &&& segments.len() == self.current_segment_id + 1
        &&& self.current_segment_bytes == records_size(segments.last())
        &&& self.next_sequence == all_records(segments).len()
        &&& indexes(self.line_index@, loaded, segments)
    }

    /// The writer appends a record, in a new segment where the last one is full,
    /// and is `after`.
    pub open spec fn appends(self, after: SegmentedJournalWriter, payload: Seq<u8>) -> bool {
        &&& may_append(self.poisoned, payload)
        &&& if must_rotate(
            self.current_segment_bytes,
            self.max_segment_bytes,
            payload.len() as int,
        ) {
            exists|turned: SegmentedJournalWriter|
                #![trigger self.rotates(turned)]
                self.rotates(turned) && turned.commits(after, payload)
        } else {
            self.commits(after, payload)
        }
    }

    /// A block of lines has gone to the store.
    pub open spec fn stores(self, after: SegmentedJournalWriter, at: int) -> bool {
        &&& self.line_index@.lines.can_seal(at)
        &&& after.line_index@ == (LineIndexModel {
            lines: self.line_index@.lines.with_sealed(at),
            ..self.line_index@
        })
        &&& after.max_segment_bytes == self.max_segment_bytes
        &&& after.current_segment_id == self.current_segment_id
        &&& after.current_segment_bytes == self.current_segment_bytes
        &&& after.next_sequence == self.next_sequence
        &&& after.poisoned == self.poisoned
    }
}

/// A segment above the size that segments may have holds a single record.
pub open spec fn bounded(segments: Seq<Seq<RecordModel>>, maximum: u64) -> bool {
    forall|i: int|
        0 <= i < segments.len() ==> records_size(#[trigger] segments[i]) <= maximum
            || segments[i].len() == 1
}

/// The segments after a record of a size: a new one is begun if and only if the
/// last one holds something and has no room for it.
pub open spec fn grown(
    segments: Seq<Seq<RecordModel>>,
    record: RecordModel,
    maximum: u64,
) -> Seq<Seq<RecordModel>> {
    let bytes = records_size(segments.last());
    if bytes > 0 && bytes + HEADER_SIZE + record.payload.len() > maximum {
        with_new_record(segments.push(Seq::empty()), record)
    } else {
        with_new_record(segments, record)
    }
}

/// A record that is appended takes the next number over all segments, and a
/// segment is begun only for a record that the last one has no room for.
pub proof fn law_append_takes_the_next_number(
    before: SegmentedJournalWriter,
    after: SegmentedJournalWriter,
    payload: Seq<u8>,
    loaded: Map<int, Seq<u64>>,
    segments: Seq<Seq<RecordModel>>,
)
    requires
        before.keeps(loaded, segments),
        before.appends(after, payload),
        bounded(segments, before.max_segment_bytes),
        segments.len() < u32::MAX,
        size_of_all(segments) + HEADER_SIZE + payload.len() < usize::MAX,
        size_of_all(segments) + HEADER_SIZE + payload.len() <= u64::MAX,
    ensures
        ({
            let record = RecordModel { sequence: all_records(segments).len() as u64, payload };
            let written = grown(segments, record, before.max_segment_bytes);
            let bytes = before.current_segment_bytes;
            &&& before.next_sequence == all_records(segments).len()
            &&& after.keeps(loaded, written)
            &&& all_records(written) == all_records(segments).push(record)
            &&& bounded(written, after.max_segment_bytes)
            &&& after.current_segment_id == before.current_segment_id + (if bytes > 0 && bytes
                + HEADER_SIZE + payload.len() > before.max_segment_bytes {
                1int
            } else {
                0
            })
            &&& !after.poisoned
        }),
{
    let record = RecordModel { sequence: before.next_sequence, payload };
    let maximum = before.max_segment_bytes;
    crate::index_laws::lemma_sizes(segments);
    assert(0 <= records_size(segments[segments.len() - 1]) <= size_of_all(segments));
    let rotates = must_rotate(before.current_segment_bytes, maximum, payload.len() as int);
    let held = if rotates {
        segments.push(Seq::empty())
    } else {
        segments
    };
    let turned = if rotates {
        choose|turned: SegmentedJournalWriter|
            #![trigger before.rotates(turned)]
            before.rotates(turned) && turned.commits(after, payload)
    } else {
        before
    };
    if rotates {
        law_new_segment_is_indexed(before.line_index@, loaded, segments);
        assert(held.drop_last() =~= segments);
        assert(all_records(held) =~= all_records(segments));
        assert(size_of_all(held) == size_of_all(segments));
    }
    law_committed_record_is_indexed(turned.line_index@, loaded, held, record);
    let written = with_new_record(held, record);
    assert(written == grown(segments, record, maximum));
    let last = held.last().push(record);
    assert(last.drop_last() =~= held.last());
    assert(records_size(last) == records_size(held.last()) + HEADER_SIZE + payload.len());
    assert forall|i: int| 0 <= i < written.len() implies records_size(#[trigger] written[i])
        <= maximum || written[i].len() == 1 by {
        if i < written.len() - 1 {
            assert(written[i] == held[i]);
            assert(held[i] == segments[i]);
        } else {
            assert(written[i] == last);
            lemma_stream_len(held.last());
        }
    }
}

/// What a writer is told: to append a payload, or that a block of lines has
/// gone to the store.
pub enum WriterStep {
    Append(Seq<u8>),
    Store(int),
}

/// The states of a writer, one after each step.
pub open spec fn steps_run(states: Seq<SegmentedJournalWriter>, steps: Seq<WriterStep>) -> bool
    decreases steps.len(),
{
    &&& states.len() == steps.len() + 1
    &&& steps.len() > 0 ==> {
        let before = states[states.len() - 2];
        let after = states.last();
        &&& steps_run(states.drop_last(), steps.drop_last())
        &&& match steps.last() {
            WriterStep::Append(payload) => before.appends(after, payload),
            WriterStep::Store(at) => before.stores(after, at),
        }
    }
}

/// The payloads that were appended, in order.
pub open spec fn appended_payloads(steps: Seq<WriterStep>) -> Seq<Seq<u8>>
    decreases steps.len(),
{
    if steps.len() == 0 {
        Seq::empty()
    } else {
        let before = appended_payloads(steps.drop_last());
        match steps.last() {
            WriterStep::Append(payload) => before.push(payload),
            WriterStep::Store(_) => before,
        }
    }
}

/// The bytes that the records of payloads take.
pub open spec fn payloads_size(payloads: Seq<Seq<u8>>) -> int
    decreases payloads.len(),
{
    if payloads.len() == 0 {
        0
    } else {
        payloads_size(payloads.drop_last()) + HEADER_SIZE + payloads.last().len()
    }
}

/// The records hold the payloads, and their numbers count them.
pub open spec fn records_of(records: Seq<RecordModel>, payloads: Seq<Seq<u8>>) -> bool {
    &&& records.len() == payloads.len()
    &&& forall|i: int|
        0 <= i < records.len() ==> (#[trigger] records[i]).payload == payloads[i]
            && records[i].sequence == i
}

/// A writer and what it has written are as the appended payloads say.
pub open spec fn has_written(
    writer: SegmentedJournalWriter,
    loaded: Map<int, Seq<u64>>,
    segments: Seq<Seq<RecordModel>>,
    payloads: Seq<Seq<u8>>,
) -> bool {
    &&& writer.keeps(loaded, segments)
    &&& bounded(segments, writer.max_segment_bytes)
    &&& records_of(all_records(segments), payloads)
    &&& size_of_all(segments) == payloads_size(payloads)
    &&& segments.len() <= payloads.len() + 1
    &&& writer.next_sequence == payloads.len()
}

/// All that was ever appended to a new journal is in it, once each and in
/// order, numbered from zero on over all segments, whatever went to the store
/// in between; no segment is larger than it may be but for a single record.
pub proof fn law_appends_make_one_sequence(
    states: Seq<SegmentedJournalWriter>,
    steps: Seq<WriterStep>,
)
    requires
        steps_run(states, steps),
        states[0].current_segment_id == 0,
        states[0].current_segment_bytes == 0,
        states[0].next_sequence == 0,
        states[0].line_index@ == LineIndexModel::empty(),
        payloads_size(appended_payloads(steps)) < usize::MAX,
        payloads_size(appended_payloads(steps)) <= u64::MAX,
        appended_payloads(steps).len() < u32::MAX,
    ensures
        exists|loaded: Map<int, Seq<u64>>, segments: Seq<Seq<RecordModel>>| #[trigger]
            has_written(states.last(), loaded, segments, appended_payloads(steps)),
    decreases steps.len(),
{
    if steps.len() == 0 {
        let segments = seq![Seq::<RecordModel>::empty()];
        law_empty_journal_is_indexed();
        lemma_one_segment(Seq::empty());
        assert(states.last() == states[0]);
        assert(has_written(states.last(), Map::empty(), segments, appended_payloads(steps)));
    } else {
        let front = states.drop_last();
        let earlier = steps.drop_last();
        let payloads = appended_payloads(earlier);
        let before = front.last();
        let after = states.last();
        assert(before == states[states.len() - 2]);
        assert(front[0] == states[0]);
        if let WriterStep::Append(payload) = steps.last() {
            assert(appended_payloads(steps).drop_last() =~= payloads);
        }
        law_appends_make_one_sequence(front, earlier);
        let (loaded, segments) = choose|
            loaded: Map<int, Seq<u64>>,
            segments: Seq<Seq<RecordModel>>,
        | #[trigger] has_written(before, loaded, segments, payloads);
        match steps.last() {
            WriterStep::Append(payload) => lemma_append_is_written(
                before,
                after,
                payload,
                loaded,
                segments,
                payloads,
            ),
            WriterStep::Store(at) => lemma_store_is_written(
                before,
                after,
                at,
                loaded,
                segments,
                payloads,
            ),
        }
    }
}

proof fn lemma_append_is_written(
    before: SegmentedJournalWriter,
    after: SegmentedJournalWriter,
    payload: Seq<u8>,
    loaded: Map<int, Seq<u64>>,
    segments: Seq<Seq<RecordModel>>,
    payloads: Seq<Seq<u8>>,
)
    requires
        has_written(before, loaded, segments, payloads),
        before.appends(after, payload),
        payloads_size(payloads.push(payload)) < usize::MAX,
        payloads_size(payloads.push(payload)) <= u64::MAX,
        payloads.len() + 1 < u32::MAX,
    ensures
        exists|read: Map<int, Seq<u64>>, written: Seq<Seq<RecordModel>>| #[trigger]
            has_written(after, read, written, payloads.push(payload)),
{
    let all = payloads.push(payload);
    assert(all.drop_last() =~= payloads);
    law_append_takes_the_next_number(before, after, payload, loaded, segments);
    let record = RecordModel { sequence: all_records(segments).len() as u64, payload };
    let written = grown(segments, record, before.max_segment_bytes);
    lemma_grown_size(segments, record, before.max_segment_bytes);
    let records = all_records(written);
    assert forall|i: int| 0 <= i < records.len() implies (#[trigger] records[i]).payload == all[i]
        && records[i].sequence == i by {
        if i < payloads.len() {
            assert(records[i] == all_records(segments)[i]);
        }
    }
    assert(has_written(after, loaded, written, all));
}

proof fn lemma_store_is_written(
    before: SegmentedJournalWriter,
    after: SegmentedJournalWriter,
    at: int,
    loaded: Map<int, Seq<u64>>,
    segments: Seq<Seq<RecordModel>>,
    payloads: Seq<Seq<u8>>,
)
    requires
        has_written(before, loaded, segments, payloads),
        before.stores(after, at),
    ensures
        exists|read: Map<int, Seq<u64>>, written: Seq<Seq<RecordModel>>| #[trigger]
            has_written(after, read, written, payloads),
{
    law_stored_block_is_indexed(before.line_index@, loaded, segments, at);
    let read = loaded.insert(at, before.line_index@.lines.blocks[at].ends.values());
    assert(has_written(after, read, segments, payloads));
}

proof fn lemma_grown_size(
    segments: Seq<Seq<RecordModel>>,
    record: RecordModel,
    maximum: u64,
)
    requires
        segments.len() > 0,
    ensures
        size_of_all(grown(segments, record, maximum)) == size_of_all(segments) + HEADER_SIZE
            + record.payload.len(),
        grown(segments, record, maximum).len() <= segments.len() + 1,
{
    let bytes = records_size(segments.last());
    let held = if bytes > 0 && bytes + HEADER_SIZE + record.payload.len() > maximum {
        segments.push(Seq::empty())
    } else {
        segments
    };
    if held.len() > segments.len() {
        assert(held.drop_last() =~= segments);
    }
    assert(size_of_all(held) == size_of_all(segments));
    let written = with_new_record(held, record);
    let last = held.last().push(record);
    assert(written.drop_last() =~= held.drop_last());
    assert(last.drop_last() =~= held.last());
    assert(written.last() == last);
    assert(records_size(last) == records_size(held.last()) + HEADER_SIZE + record.payload.len());
}

// ---------------------------------------------------------------------------
// Starting again.

/// The writer has read `segments` and nothing else.
pub open spec fn has_read(
    writer: SegmentedJournalWriter,
    segments: Seq<Seq<RecordModel>>,
) -> bool {
    &&& writer.line_index@ == index_of(segments)
    &&& writer.next_sequence == all_records(segments).len()
    &&& segments.len() > 0 ==> writer.current_segment_id == segments.len() - 1
        && writer.current_segment_bytes == records_size(segments.last())
}

/// A segment of an intact journal is taken when it is read, whether or not it
/// is the last one.
pub proof fn law_intact_segment_is_read(
    before: SegmentedJournalWriter,
    after: SegmentedJournalWriter,
    segments: Seq<Seq<RecordModel>>,
    records: Seq<RecordModel>,
    is_last: bool,
)
    requires
        has_read(before, segments),
        in_one_sequence(segments.push(records)),
        segments.len() < u32::MAX,
        size_of_all(segments.push(records)) <= u64::MAX,
        ({
            let found = scan_from(journal_bytes(records), 0);
            &&& after.line_index@ == before.line_index@.with_records(
                segments.len() as u32,
                found.records,
            )
            &&& after.next_sequence == sat_add(
                before.next_sequence as int,
                found.records.len() as int,
            )
            &&& after.current_segment_id == segments.len()
            &&& after.current_segment_bytes == found.end
        }),
    ensures
        segment_accepted(
            scan_from(journal_bytes(records), 0),
            is_last,
            before.next_sequence as int,
        ),
        has_read(after, segments.push(records)),
{
    let all = segments.push(records);
    let next = all_records(segments).len() as int;
    assert(all.drop_last() =~= segments);
    crate::index_laws::lemma_sizes(all);
    assert(all_records(all) =~= all_records(segments) + records);
    assert forall|i: int| 0 <= i < records.len() implies fits(#[trigger] records[i])
        && records[i].sequence == next + i by {
        assert(all_records(all)[next + i] == records[i]);
    }
    law_journal_round_trip(records);
    lemma_journal_size(records);
    assert(in_sequence(records, next, records.len() as int));
    lemma_leading_in_sequence(records, next, records.len() as int);
}

/// The journal says what there is, not the checkpoint. A writer that starts
/// from a checkpoint of its index and one that reads the segments again stand
/// at the same place and give the next record the same number, and their
/// indexes say the same.
pub proof fn law_start_needs_no_checkpoint(
    index: LineIndexModel,
    loaded: Map<int, Seq<u64>>,
    segments: Seq<Seq<RecordModel>>,
    stamps: Seq<FileStamp>,
    store: Option<FileStamp>,
    resumed: SegmentedJournalWriter,
    rebuilt: SegmentedJournalWriter,
)
    requires
        indexes(index, loaded, segments),
        stamps_of(stamps, segments),
        store_of(store, index.lines),
        cache_bytes(index, stamps, store).len() <= MAX_CACHE_BYTES,
        read_cache(cache_bytes(index, stamps, store), stamps, store) == CacheReading::Index(
            resumed.line_index@,
        ),
        resumed.next_sequence == next_after(resumed.line_index@.last_sequence),
        resumed.current_segment_id == segments.len() - 1,
        resumed.current_segment_bytes == stamps.last().len,
        has_read(rebuilt, segments),
    ensures
        resumed.keeps(loaded, segments),
        rebuilt.keeps(Map::empty(), segments),
        resumed.current_segment_id == rebuilt.current_segment_id,
        resumed.current_segment_bytes == rebuilt.current_segment_bytes,
        resumed.next_sequence == rebuilt.next_sequence,
        say_the_same(resumed.line_index@, loaded, rebuilt.line_index@, Map::empty()),
{
    law_checkpoint_says_what_the_journal_says(index, loaded, segments, stamps, store);
    assert(stamps[stamps.len() - 1].len == records_size(segments[segments.len() - 1]));
    crate::index_laws::lemma_sizes(segments);
}

} // verus!
