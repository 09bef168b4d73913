//! The index of a journal's lines: one stream of bytes, cut into lines, with
//! the style machine's state noted at the start of every record.
use crate::ansi::{law_run_keeps_wf, law_run_splits, run, AnsiModel, AnsiState};
use crate::journal::{
    record_views, scan, scan_from, scan_message, text_view, JournalRecord, RecordModel, HEADER_SIZE,
};
use crate::line_blocks::{
    law_added_line_is_found, lemma_empty_index, lemma_index_wf, lemma_with_line_wf, sat_add,
    BlockedLineIndex, IndexModel, LINE_BLOCK_SIZE,
};
use crate::outside::{find_all, positions};
use vstd::prelude::*;

verus! {

/// Where a record's payload lies in the stream and in its segment.
#[derive(Clone, Copy, Debug)]
pub struct RecordLocation {
    pub segment_id: u32,
    pub logical_start: u64,
    pub payload_file_offset: u64,
    pub payload_len: u64,
    pub ansi_state: AnsiState,
}

#[verifier::ext_equal]
pub struct RecordPlace {
    pub segment_id: u32,
    pub start: u64,
    pub offset: u64,
    pub len: u64,
    pub ansi: AnsiModel,
}

impl RecordPlace {
    pub open spec fn end(self) -> int {
        sat_add(self.start as int, self.len as int)
    }
}

impl View for RecordLocation {
    type V = RecordPlace;

    open spec fn view(&self) -> RecordPlace {
        RecordPlace {
            segment_id: self.segment_id,
            start: self.logical_start,
            offset: self.payload_file_offset,
            len: self.payload_len,
            ansi: self.ansi_state@,
        }
    }
}

pub open spec fn place_views(records: Seq<RecordLocation>) -> Seq<RecordPlace> {
    Seq::new(records.len(), |i: int| records[i]@)
}

impl RecordLocation {
    pub fn logical_end(self) -> (end: u64)
        ensures
            end == self@.end(),
    {
        self.logical_start.saturating_add(self.payload_len)
    }
}

#[derive(Debug)]
pub struct JournalLineIndexState {
    pub revision: u64,
    pub logical_bytes: u64,
    pub open_line_start: u64,
    pub last_sequence: Option<u64>,
    pub records: Vec<RecordLocation>,
    pub completed_lines: BlockedLineIndex,
    pub integrity_error: Option<String>,
    pub ansi_state: AnsiState,
}

#[verifier::ext_equal]
pub struct LineIndexModel {
    pub revision: u64,
    pub logical_bytes: u64,
    pub open_line_start: u64,
    pub last_sequence: Option<u64>,
    pub records: Seq<RecordPlace>,
    pub lines: IndexModel,
    pub fault: Option<Seq<char>>,
    pub ansi: AnsiModel,
}

impl View for JournalLineIndexState {
    type V = LineIndexModel;

    open spec fn view(&self) -> LineIndexModel {
        LineIndexModel {
            revision: self.revision,
            logical_bytes: self.logical_bytes,
            open_line_start: self.open_line_start,
            last_sequence: self.last_sequence,
            records: place_views(self.records@),
            lines: self.completed_lines@,
            fault: text_view(self.integrity_error),
            ansi: self.ansi_state@,
        }
    }
}

/// Records follow one another from the start of the stream to `end`.
pub open spec fn records_in_order(records: Seq<RecordPlace>, end: int) -> bool {
    &&& forall|i: int| 0 <= i < records.len() ==> (#[trigger] records[i]).ansi.wf()
    &&& records.len() == 0 ==> end == 0
    &&& records.len() > 0 ==> records[0].start == 0 && records.last().end() == end
    &&& forall|i: int, j: int|
        0 <= i && j == i + 1 && j < records.len() ==> (#[trigger] records[i]).end() == (
        #[trigger] records[j]).start
}

/// Lines and the start of the open line, after newlines at `offsets` behind
/// `base`.
pub open spec fn with_newlines(
    lines: IndexModel,
    open: u64,
    base: int,
    offsets: Seq<usize>,
) -> (IndexModel, u64)
    decreases offsets.len(),
{
    if offsets.len() == 0 {
        (lines, open)
    } else {
        let (before, start) = with_newlines(lines, open, base, offsets.drop_last());
        let newline = sat_add(base, offsets.last() as int) as u64;
        (before.with_line(start, newline), sat_add(newline as int, 1) as u64)
    }
}

/// The blocks that those newlines fill, in order.
pub open spec fn filled_blocks(
    lines: IndexModel,
    open: u64,
    base: int,
    offsets: Seq<usize>,
) -> Seq<usize>
    decreases offsets.len(),
{
    if offsets.len() == 0 {
        Seq::empty()
    } else {
        let before = filled_blocks(lines, open, base, offsets.drop_last());
        match with_newlines(lines, open, base, offsets).0.filled_block() {
            Some(block) => before.push(block),
            None => before,
        }
    }
}

impl LineIndexModel {
    pub open spec fn empty() -> LineIndexModel {
        LineIndexModel {
            revision: 0,
            logical_bytes: 0,
            open_line_start: 0,
            last_sequence: None,
            records: Seq::empty(),
            lines: IndexModel::empty(true),
            fault: None,
            ansi: AnsiModel::initial(),
        }
    }

    pub open spec fn wf(self) -> bool {
        &&& self.lines.wf()
        &&& self.lines.len < usize::MAX
        &&& self.ansi.wf()
        &&& records_in_order(self.records, self.logical_bytes as int)
    }

    /// The index with one more record, whose payload stands behind a header
    /// at `file_offset` of its segment.
    pub open spec fn with_record(
        self,
        segment_id: u32,
        file_offset: u64,
        record: RecordModel,
    ) -> LineIndexModel {
        let newlines = positions(record.payload, 0x0a);
        let length = record.payload.len() as int;
        let (lines, open_line_start) = with_newlines(
            self.lines,
            self.open_line_start,
            self.logical_bytes as int,
            newlines,
        );
        LineIndexModel {
            revision: sat_add(sat_add(self.revision as int, HEADER_SIZE as int), length) as u64,
            logical_bytes: sat_add(self.logical_bytes as int, length) as u64,
            open_line_start,
            last_sequence: Some(record.sequence),
            records: self.records.push(
                RecordPlace {
                    segment_id,
                    start: self.logical_bytes,
                    offset: sat_add(file_offset as int, HEADER_SIZE as int) as u64,
                    len: length as u64,
                    ansi: self.ansi,
                },
            ),
            lines,
            fault: None,
            ansi: run(self.ansi, record.payload),
        }
    }

    pub open spec fn filled_by(self, payload: Seq<u8>) -> Seq<usize> {
        filled_blocks(
            self.lines,
            self.open_line_start,
            self.logical_bytes as int,
            positions(payload, 0x0a),
        )
    }
}

// ---------------------------------------------------------------------------
// The stream that an index describes.

/// Where the lines of a stream end.
pub open spec fn line_ends(stream: Seq<u8>) -> Seq<u64> {
    let newlines = positions(stream, 0x0a);
    Seq::new(newlines.len(), |i: int| newlines[i] as u64)
}

/// Where the line begins that no newline has ended yet.
pub open spec fn open_start(stream: Seq<u8>) -> int {
    let ends = line_ends(stream);
    if ends.len() == 0 {
        0
    } else {
        ends.last() + 1
    }
}

impl LineIndexModel {
    /// The index describes `stream`, given the stored blocks in `loaded`.
    pub open spec fn describes(self, loaded: Map<int, Seq<u64>>, stream: Seq<u8>) -> bool {
        &&& stream.len() <= usize::MAX
        &&& stream.len() <= u64::MAX
        &&& self.logical_bytes == stream.len()
        &&& forall|at: int|
            #![trigger loaded[at]]
            loaded.contains_key(at) ==> loaded[at].len() <= LINE_BLOCK_SIZE
        &&& self.lines.holds(loaded, line_ends(stream))
        &&& self.open_line_start == open_start(stream)
        &&& self.lines.len > 0 ==> self.lines.blocks.last().base <= self.open_line_start
        &&& self.ansi == run(AnsiModel::initial(), stream)
        &&& forall|i: int|
            0 <= i < self.records.len() ==> (#[trigger] self.records[i]).end() <= stream.len()
                && self.records[i].ansi == run(
                AnsiModel::initial(),
                stream.take(self.records[i].start as int),
            )
    }
}

pub proof fn lemma_positions_below(stream: Seq<u8>, needle: u8)
    requires
        stream.len() <= usize::MAX,
    ensures
        positions(stream, needle).len() <= stream.len(),
        forall|i: int|
            0 <= i < positions(stream, needle).len() ==> #[trigger] positions(stream, needle)[i]
                < stream.len() && stream[positions(stream, needle)[i] as int] == needle,
        forall|i: int, j: int|
            0 <= i < j < positions(stream, needle).len() ==> positions(stream, needle)[i]
                < positions(stream, needle)[j],
    decreases stream.len(),
{
    if stream.len() > 0 {
        lemma_positions_below(stream.drop_last(), needle);
    }
}

proof fn lemma_with_newlines_wf(lines: IndexModel, open: u64, base: int, offsets: Seq<usize>)
    requires
        lines.wf(),
        lines.len + offsets.len() <= usize::MAX,
    ensures
        with_newlines(lines, open, base, offsets).0.wf(),
        with_newlines(lines, open, base, offsets).0.len == lines.len + offsets.len(),
    decreases offsets.len(),
{
    if offsets.len() > 0 {
        lemma_with_newlines_wf(lines, open, base, offsets.drop_last());
        let (before, start) = with_newlines(lines, open, base, offsets.drop_last());
        lemma_with_line_wf(before, start, sat_add(base, offsets.last() as int) as u64);
    }
}

/// The lines after reading `payload` behind `stream`.
pub(crate) proof fn lemma_newlines_describe(
    index: LineIndexModel,
    loaded: Map<int, Seq<u64>>,
    stream: Seq<u8>,
    payload: Seq<u8>,
)
    requires
        index.wf(),
        index.describes(loaded, stream),
        stream.len() + payload.len() <= usize::MAX,
        stream.len() + payload.len() <= u64::MAX,
        index.lines.len + payload.len() < usize::MAX,
    ensures
        ({
            let (lines, open) = with_newlines(
                index.lines,
                index.open_line_start,
                stream.len() as int,
                positions(payload, 0x0a),
            );
            &&& lines.wf()
            &&& lines.len <= index.lines.len + payload.len()
            &&& lines.holds(loaded, line_ends(stream + payload))
            &&& open == open_start(stream + payload)
            &&& lines.len > 0 ==> lines.blocks.last().base <= open
        }),
    decreases payload.len(),
{
    let all = stream + payload;
    let newlines = positions(payload, 0x0a);
    if payload.len() == 0 {
        assert(all =~= stream);
    } else {
        let front = payload.drop_last();
        assert(all.drop_last() =~= stream + front);
        lemma_newlines_describe(index, loaded, stream, front);
        lemma_positions_below(front, 0x0a);
        if payload.last() == 0x0a {
            let at = (all.len() - 1) as u64;
            let (lines, open) = with_newlines(
                index.lines,
                index.open_line_start,
                stream.len() as int,
                positions(front, 0x0a),
            );
            assert(newlines.drop_last() =~= positions(front, 0x0a));
            lemma_positions_below(stream + front, 0x0a);
            lemma_with_newlines_wf(
                index.lines,
                index.open_line_start,
                stream.len() as int,
                positions(front, 0x0a),
            );
            lemma_index_wf(lines);
            assert(open <= at) by {
                let found = positions(stream + front, 0x0a);
                if found.len() > 0 {
                    assert(found[found.len() - 1] < (stream + front).len());
                }
            }
            lemma_with_line_wf(lines, open, at);
            law_added_line_is_found(lines, loaded, line_ends(stream + front), open, at);
            assert(line_ends(all) =~= line_ends(stream + front).push(at));
        }
    }
}

/// Appending a record to a journal makes the index describe the longer
/// stream, whatever the record's bounds: lines, styles and checkpoints do not
/// depend on how the output was cut into records.
pub proof fn law_appended_record_is_described(
    index: LineIndexModel,
    loaded: Map<int, Seq<u64>>,
    stream: Seq<u8>,
    segment_id: u32,
    file_offset: u64,
    record: RecordModel,
)
    requires
        index.wf(),
        index.describes(loaded, stream),
        stream.len() + record.payload.len() <= usize::MAX,
        stream.len() + record.payload.len() <= u64::MAX,
        index.lines.len + record.payload.len() < usize::MAX,
    ensures
        index.with_record(segment_id, file_offset, record).wf(),
        index.with_record(segment_id, file_offset, record).describes(
            loaded,
            stream + record.payload,
        ),
{
    let after = index.with_record(segment_id, file_offset, record);
    let all = stream + record.payload;
    lemma_newlines_describe(index, loaded, stream, record.payload);
    law_run_keeps_wf(index.ansi, record.payload);
    law_run_splits(AnsiModel::initial(), stream, record.payload);
    assert forall|i: int| 0 <= i < after.records.len() implies (#[trigger] after.records[i]).end()
        <= all.len() && after.records[i].ansi == run(
        AnsiModel::initial(),
        all.take(after.records[i].start as int),
    ) by {
        if i < index.records.len() {
            assert(after.records[i] == index.records[i]);
            assert(all.take(after.records[i].start as int) =~= stream.take(
                after.records[i].start as int,
            ));
        } else {
            assert(all.take(stream.len() as int) =~= stream);
        }
    }
    assert forall|i: int, j: int|
        0 <= i && j == i + 1 && j < after.records.len() implies (#[trigger] after.records[i]).end()
        == (#[trigger] after.records[j]).start by {
        assert(after.records[i] == index.records[i]);
        if j < index.records.len() {
            assert(after.records[j] == index.records[j]);
        }
    }
}

/// An empty index describes the empty stream.
pub proof fn law_empty_index_describes_nothing()
    ensures
        LineIndexModel::empty().wf(),
        LineIndexModel::empty().describes(Map::empty(), Seq::empty()),
{
    lemma_empty_index(true);
    assert(line_ends(Seq::empty()) =~= Seq::empty());
}

proof fn lemma_with_record_wf(
    index: LineIndexModel,
    segment_id: u32,
    file_offset: u64,
    record: RecordModel,
)
    requires
        index.wf(),
        record.payload.len() <= usize::MAX,
        index.lines.len + record.payload.len() < usize::MAX,
        record.payload.len() <= u64::MAX,
    ensures
        index.with_record(segment_id, file_offset, record).wf(),
        index.with_record(segment_id, file_offset, record).lines.len <= index.lines.len
            + record.payload.len(),
{
    let after = index.with_record(segment_id, file_offset, record);
    lemma_positions_below(record.payload, 0x0a);
    lemma_with_newlines_wf(
        index.lines,
        index.open_line_start,
        index.logical_bytes as int,
        positions(record.payload, 0x0a),
    );
    law_run_keeps_wf(index.ansi, record.payload);
    assert forall|i: int, j: int|
        0 <= i && j == i + 1 && j < after.records.len() implies (#[trigger] after.records[i]).end()
        == (#[trigger] after.records[j]).start by {
        assert(after.records[i] == index.records[i]);
        if j < index.records.len() {
            assert(after.records[j] == index.records[j]);
        }
    }
}

impl JournalLineIndexState {
    pub fn empty() -> (state: Self)
        ensures
            state@ == LineIndexModel::empty(),
            state@.wf(),
    {
        let state = JournalLineIndexState {
            revision: 0,
            logical_bytes: 0,
            open_line_start: 0,
            last_sequence: None,
            records: Vec::new(),
            completed_lines: BlockedLineIndex::new(true),
            integrity_error: None,
            ansi_state: AnsiState::default(),
        };
        assert(state@ =~= LineIndexModel::empty());
        state
    }

    /// Adds a record that has been committed to segment `segment_id` at
    /// `file_offset`. The blocks that it fills, and that are to be moved to
    /// the store, are returned in order.
    pub fn append_record(
        &mut self,
        segment_id: u32,
        file_offset: u64,
        sequence: u64,
        payload: &[u8],
    ) -> (filled: Vec<usize>)
        requires
            old(self)@.wf(),
            old(self)@.lines.len + payload@.len() < usize::MAX,
        ensures
            final(self)@ == old(self)@.with_record(
                segment_id,
                file_offset,
                (RecordModel { sequence, payload: payload@ }),
            ),
            final(self)@.wf(),
            filled@ == old(self)@.filled_by(payload@),
    {
        let ghost record = RecordModel { sequence, payload: payload@ };
        let newlines = find_all(0x0a, payload);
        let length: usize = payload.len();
        proof {
            lemma_positions_below(payload@, 0x0a);
            lemma_with_record_wf(self@, segment_id, file_offset, record);
        }
        let logical_start: u64 = self.logical_bytes;
        let mut filled: Vec<usize> = Vec::new();
        let mut index: usize = 0;
        let ghost lines = self@.lines;
        let ghost open = self@.open_line_start;
        assert(newlines@.take(0) =~= Seq::empty());
        while index < newlines.len()
            invariant
                index <= newlines@.len(),
                newlines@.len() <= payload@.len(),
                lines.wf(),
                lines.len + payload@.len() < usize::MAX,
                self.completed_lines@.wf(),
                (self.completed_lines@, self.open_line_start) == with_newlines(
                    lines,
                    open,
                    logical_start as int,
                    newlines@.take(index as int),
                ),
                self.completed_lines@.len == lines.len + index,
                filled@ == filled_blocks(
                    lines,
                    open,
                    logical_start as int,
                    newlines@.take(index as int),
                ),
                self@ == (LineIndexModel {
                    lines: self.completed_lines@,
                    open_line_start: self.open_line_start,
                    ..old(self)@
                }),
                self.records@ == old(self).records@,
                self.revision == old(self).revision,
                self.logical_bytes == logical_start,
                self.logical_bytes == old(self).logical_bytes,
                self.ansi_state == old(self).ansi_state,
            decreases newlines@.len() - index,
        {
            let newline: u64 = logical_start.saturating_add(newlines[index] as u64);
            proof {
                assert(newlines@.take(index + 1).drop_last() =~= newlines@.take(index as int));
                assert(newlines@.take(index + 1).last() == newlines@[index as int]);
            }
            let start: u64 = self.open_line_start;
            if let Some(block) = self.completed_lines.push(start, newline) {
                filled.push(block);
            }
            self.open_line_start = newline.saturating_add(1);
            index += 1;
        }
        assert(newlines@.take(newlines@.len() as int) =~= newlines@);
        let ansi_before: AnsiState = self.ansi_state;
        self.records.push(
            RecordLocation {
                segment_id,
                logical_start,
                payload_file_offset: file_offset.saturating_add(HEADER_SIZE as u64),
                payload_len: length as u64,
                ansi_state: ansi_before,
            },
        );
        self.logical_bytes = logical_start.saturating_add(length as u64);
        self.revision = self.revision.saturating_add(HEADER_SIZE as u64).saturating_add(
            length as u64,
        );
        self.last_sequence = Some(sequence);
        self.integrity_error = None;
        self.ansi_state.advance(payload);
        proof {
            let after = old(self)@.with_record(segment_id, file_offset, record);
            assert(self@.records =~= after.records);
            assert(self@ =~= after);
        }
        filled
    }
}


// ---------------------------------------------------------------------------
// Whole segments.

/// How many bytes records take in a segment.
pub open spec fn records_size(records: Seq<RecordModel>) -> int
    decreases records.len(),
{
    if records.len() == 0 {
        0
    } else {
        records_size(records.drop_last()) + HEADER_SIZE + records.last().payload.len()
    }
}

/// The payloads of records, joined.
pub open spec fn payload_stream(records: Seq<RecordModel>) -> Seq<u8>
    decreases records.len(),
{
    if records.len() == 0 {
        Seq::empty()
    } else {
        payload_stream(records.drop_last()) + records.last().payload
    }
}

impl LineIndexModel {
    /// The index with the records of a whole segment.
    pub open spec fn with_records(self, segment_id: u32, records: Seq<RecordModel>) -> LineIndexModel
        decreases records.len(),
    {
        if records.len() == 0 {
            self
        } else {
            self.with_records(segment_id, records.drop_last()).with_record(
                segment_id,
                records_size(records.drop_last()) as u64,
                records.last(),
            )
        }
    }

    /// The blocks that those records fill, in order.
    pub open spec fn filled_by_records(self, segment_id: u32, records: Seq<RecordModel>) -> Seq<usize>
        decreases records.len(),
    {
        if records.len() == 0 {
            Seq::empty()
        } else {
            self.filled_by_records(segment_id, records.drop_last()) + self.with_records(
                segment_id,
                records.drop_last(),
            ).filled_by(records.last().payload)
        }
    }
}

pub proof fn lemma_stream_len(records: Seq<RecordModel>)
    ensures
        payload_stream(records).len() + HEADER_SIZE * records.len() == records_size(records),
    decreases records.len(),
{
    if records.len() > 0 {
        lemma_stream_len(records.drop_last());
    }
}

pub proof fn lemma_size_of_prefix(records: Seq<RecordModel>, count: int)
    requires
        0 <= count <= records.len(),
    ensures
        0 <= records_size(records.take(count)) <= records_size(records),
    decreases records.len(),
{
    if count == records.len() {
        assert(records.take(count) =~= records);
        lemma_stream_len(records);
    } else {
        assert(records.drop_last().take(count) =~= records.take(count));
        lemma_size_of_prefix(records.drop_last(), count);
    }
}

/// The records of a scan take exactly the bytes up to where it stopped.
pub proof fn law_scan_end_is_size(bytes: Seq<u8>, at: int)
    requires
        0 <= at <= bytes.len(),
    ensures
        scan_from(bytes, at).end == at + records_size(scan_from(bytes, at).records),
        at <= scan_from(bytes, at).end <= bytes.len(),
    decreases bytes.len() - at,
{
    if let crate::journal::ParsedRecord::Record(record, next) = crate::journal::parse_record(
        bytes,
        at,
    ) {
        law_scan_end_is_size(bytes, next);
        lemma_size_prepend(record, scan_from(bytes, next).records);
    }
}

proof fn lemma_size_prepend(record: RecordModel, records: Seq<RecordModel>)
    ensures
        records_size(seq![record] + records) == HEADER_SIZE + record.payload.len() + records_size(
            records,
        ),
    decreases records.len(),
{
    let all = seq![record] + records;
    if records.len() == 0 {
        assert(all.drop_last() =~= Seq::empty());
        assert(records_size(all.drop_last()) == 0);
    } else {
        assert(all.drop_last() =~= seq![record] + records.drop_last());
        lemma_size_prepend(record, records.drop_last());
    }
}

pub proof fn lemma_with_records_wf(index: LineIndexModel, segment_id: u32, records: Seq<RecordModel>)
    requires
        index.wf(),
        index.lines.len + records_size(records) < usize::MAX,
    ensures
        index.with_records(segment_id, records).wf(),
        index.with_records(segment_id, records).lines.len <= index.lines.len + records_size(
            records,
        ),
        index.with_records(segment_id, records).revision == sat_add(
            index.revision as int,
            records_size(records),
        ),
    decreases records.len(),
{
    lemma_index_wf(index.lines);
    if records.len() > 0 {
        lemma_stream_len(records.drop_last());
        lemma_with_records_wf(index, segment_id, records.drop_last());
        lemma_with_record_wf(
            index.with_records(segment_id, records.drop_last()),
            segment_id,
            records_size(records.drop_last()) as u64,
            records.last(),
        );
    }
}

/// An index that a segment's records are added to goes on to describe the
/// stream with their payloads behind it. So rebuilding an index from the
/// journal gives the lines that were indexed as the records were written.
pub proof fn law_rebuilt_index_describes_stream(
    index: LineIndexModel,
    loaded: Map<int, Seq<u64>>,
    stream: Seq<u8>,
    segment_id: u32,
    records: Seq<RecordModel>,
)
    requires
        index.wf(),
        index.describes(loaded, stream),
        stream.len() + records_size(records) <= usize::MAX,
        stream.len() + records_size(records) <= u64::MAX,
        index.lines.len + records_size(records) < usize::MAX,
    ensures
        index.with_records(segment_id, records).wf(),
        index.with_records(segment_id, records).describes(loaded, stream + payload_stream(records)),
    decreases records.len(),
{
    lemma_with_records_wf(index, segment_id, records);
    if records.len() == 0 {
        assert(stream + payload_stream(records) =~= stream);
    } else {
        let front = records.drop_last();
        lemma_stream_len(front);
        law_rebuilt_index_describes_stream(index, loaded, stream, segment_id, front);
        lemma_with_records_wf(index, segment_id, front);
        law_appended_record_is_described(
            index.with_records(segment_id, front),
            loaded,
            stream + payload_stream(front),
            segment_id,
            records_size(front) as u64,
            records.last(),
        );
        assert(stream + payload_stream(front) + records.last().payload =~= stream
            + payload_stream(records));
    }
}

/// Moving a block to the store leaves the description of the stream as it
/// was, once the block is read back.
pub proof fn law_sealed_index_describes_stream(
    index: LineIndexModel,
    loaded: Map<int, Seq<u64>>,
    stream: Seq<u8>,
    at: int,
)
    requires
        index.wf(),
        index.describes(loaded, stream),
        index.lines.can_seal(at),
    ensures
        (LineIndexModel { lines: index.lines.with_sealed(at), ..index }).wf(),
        (LineIndexModel { lines: index.lines.with_sealed(at), ..index }).describes(
            loaded.insert(at, index.lines.blocks[at].ends.values()),
            stream,
        ),
{
    lemma_index_wf(index.lines);
    crate::line_blocks::lemma_blocks_fit(index.lines);
    crate::line_blocks::law_sealing_keeps_wf(index.lines, at);
    crate::line_blocks::law_sealing_loses_no_line(index.lines, loaded, line_ends(stream), at);
}

impl JournalLineIndexState {
    /// Adds the records that a scan of segment `segment_id` found. The blocks
    /// that they fill are returned in order.
    pub fn append_records(&mut self, segment_id: u32, records: &Vec<JournalRecord>) -> (filled: Vec<
        usize,
    >)
        requires
            old(self)@.wf(),
            old(self)@.lines.len + records_size(record_views(records@)) < usize::MAX,
            records_size(record_views(records@)) <= u64::MAX,
        ensures
            final(self)@ == old(self)@.with_records(segment_id, record_views(records@)),
            final(self)@.wf(),
            filled@ == old(self)@.filled_by_records(segment_id, record_views(records@)),
    {
        let ghost all = record_views(records@);
        let mut filled: Vec<usize> = Vec::new();
        let mut offset: u64 = 0;
        let mut index: usize = 0;
        assert(all.take(0) =~= Seq::empty());
        while index < records.len()
            invariant
                index <= records@.len(),
                all == record_views(records@),
                old(self)@.wf(),
                old(self)@.lines.len + records_size(all) < usize::MAX,
                records_size(all) <= u64::MAX,
                offset == records_size(all.take(index as int)),
                self@ == old(self)@.with_records(segment_id, all.take(index as int)),
                self@.wf(),
                filled@ == old(self)@.filled_by_records(segment_id, all.take(index as int)),
            decreases records@.len() - index,
        {
            proof {
                let next = all.take(index + 1);
                assert(next.drop_last() =~= all.take(index as int));
                assert(next.last() == records@[index as int]@);
                lemma_size_of_prefix(all, index as int);
                lemma_size_of_prefix(all, index + 1);
                lemma_with_records_wf(old(self)@, segment_id, all.take(index as int));
            }
            let length: usize = records[index].payload.len();
            let mut more = self.append_record(
                segment_id,
                offset,
                records[index].sequence,
                records[index].payload.as_slice(),
            );
            filled.append(&mut more);
            offset = offset + HEADER_SIZE as u64 + length as u64;
            index += 1;
        }
        assert(all.take(all.len() as int) =~= all);
        filled
    }

    /// The number of the next record.
    pub fn next_sequence(&self) -> (sequence: u64)
        ensures
            sequence == next_after(self@.last_sequence),
    {
        match self.last_sequence {
            Some(last) => last.saturating_add(1),
            None => 0,
        }
    }
}

pub open spec fn next_after(last: Option<u64>) -> int {
    match last {
        Some(last) => sat_add(last as int, 1),
        None => 0,
    }
}

/// An index built from a journal's bytes.
#[derive(Debug)]
pub struct LoadedJournal {
    pub state: JournalLineIndexState,
    pub filled: Vec<usize>,
    pub next_sequence: u64,
    pub next_file_offset: u64,
}

/// Indexes the records of a journal of one segment. Bytes behind
/// `next_file_offset` are no record, and the state says why.
pub fn load(bytes: &[u8]) -> (journal: LoadedJournal)
    requires
        bytes@.len() < usize::MAX,
    ensures
        ({
            let found = scan_from(bytes@, 0);
            let index = LineIndexModel::empty().with_records(0, found.records);
            &&& journal.state@ == (LineIndexModel { fault: scan_message(found), ..index })
            &&& journal.state@.wf()
            &&& journal.filled@ == LineIndexModel::empty().filled_by_records(0, found.records)
            &&& journal.next_sequence == next_after(index.last_sequence)
            &&& journal.next_file_offset == found.end
        }),
{
    let report = scan(bytes, false);
    let mut state = JournalLineIndexState::empty();
    proof {
        law_scan_end_is_size(bytes@, 0);
        assert(bytes@.len() <= bytes.len());
        lemma_with_records_wf(LineIndexModel::empty(), 0, scan_from(bytes@, 0).records);
    }
    let filled = state.append_records(0, &report.records);
    state.integrity_error = report.integrity_error;
    let next_sequence: u64 = state.next_sequence();
    proof {
        let found = scan_from(bytes@, 0);
        let index = LineIndexModel::empty().with_records(0, found.records);
        assert(state@ =~= (LineIndexModel { fault: scan_message(found), ..index }));
    }
    LoadedJournal { next_file_offset: state.revision, state, filled, next_sequence }
}

} // verus!
