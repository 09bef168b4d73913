//! Pages of a journal's lines: which lines a page shows, which bytes it
//! needs, and the rows those bytes give.
use crate::ansi::{law_run_splits, run, AnsiModel, AnsiState};
use crate::collector::{
    collected_spans, collected_text, collected_truncated, decode_run, spans_fit_text, Collected,
    JournalStyleSpan,
};
use crate::journal::{IoFailure, IoFailureKind, JournalError};
use crate::line_blocks::{
    cold_for, find_loaded, lemma_holds_at, lemma_holds_len, loaded_map, sat_add, sat_sub,
    ColdLineBlock, LineLocation, LoadedLineBlock,
};
use crate::line_index::{
    lemma_positions_below, line_ends, open_start, place_views, records_in_order,
    JournalLineIndexState, LineIndexModel, RecordLocation, RecordPlace,
};
use crate::outside::positions;
use crate::text::{byte_len, utf8};
use vstd::prelude::*;

verus! {

pub const MAX_LOG_PAGE_LINES: usize = 4096;

pub const MAX_LOG_PAGE_BYTES: usize = 4194304;

pub const MAX_LOG_PAGE_STYLE_SPANS: usize = 16384;

#[derive(Clone, Debug, PartialEq, Eq)]
pub struct IndexedLogLine {
    pub line_id: u64,
    pub bytes: Vec<u8>,
    pub truncated: bool,
}

#[derive(Clone, Debug, PartialEq, Eq)]
pub struct JournalLogPage {
    pub revision: u64,
    pub anchor_line_id: u64,
    pub rows: Vec<IndexedLogLine>,
    pub total_line_count: u64,
    pub has_before: bool,
    pub has_after: bool,
}

#[derive(Clone, Debug, PartialEq, Eq)]
pub struct StyledIndexedLogLine {
    pub line_id: u64,
    pub text: String,
    pub style_spans: Vec<JournalStyleSpan>,
    pub truncated: bool,
}

#[derive(Clone, Debug, PartialEq, Eq)]
pub struct JournalStyledLogPage {
    pub revision: u64,
    pub anchor_line_id: u64,
    pub rows: Vec<StyledIndexedLogLine>,
    pub total_line_count: u64,
    pub has_before: bool,
    pub has_after: bool,
}

// ---------------------------------------------------------------------------
// Lines by number.

impl LineIndexModel {
    pub open spec fn line_count(self) -> int {
        self.lines.len + if self.open_line_start < self.logical_bytes {
            1int
        } else {
            0
        }
    }

    /// Line `index`, counted from zero; the last one may still be open.
    pub open spec fn line_at(self, index: int, loaded: Map<int, Seq<u64>>) -> Option<LineLocation> {
        match self.lines.line_of(index, loaded) {
            Some(line) => Some(line),
            None => if index == self.lines.len && self.open_line_start < self.logical_bytes {
                Some(LineLocation { start: self.open_line_start, end: self.logical_bytes })
            } else {
                None
            },
        }
    }
}

impl JournalLineIndexState {
    pub fn line_count(&self) -> (count: usize)
        requires
            self@.wf(),
        ensures
            count == self@.line_count(),
    {
        if self.open_line_start < self.logical_bytes {
            self.completed_lines.len + 1
        } else {
            self.completed_lines.len
        }
    }

    pub fn line(&self, index: usize, loaded: &Vec<LoadedLineBlock>) -> (line: Option<LineLocation>)
        ensures
            line == self@.line_at(index as int, loaded_map(loaded@)),
    {
        match self.completed_lines.line(index, loaded) {
            Some(line) => Some(line),
            None => if index == self.completed_lines.len && self.open_line_start
                < self.logical_bytes {
                Some(LineLocation { start: self.open_line_start, end: self.logical_bytes })
            } else {
                None
            },
        }
    }
}

/// Line `index` of a stream.
pub open spec fn stream_line(stream: Seq<u8>, index: int) -> LineLocation {
    let ends = line_ends(stream);
    LineLocation {
        start: if index == 0 {
            0u64
        } else {
            (ends[index - 1] + 1) as u64
        },
        end: if index < ends.len() {
            ends[index]
        } else {
            stream.len() as u64
        },
    }
}

/// How many lines a stream has: one for each newline, and one more where
/// bytes follow the last.
pub open spec fn stream_line_count(stream: Seq<u8>) -> int {
    line_ends(stream).len() + if open_start(stream) < stream.len() {
        1int
    } else {
        0
    }
}

/// An index that describes a stream finds the stream's lines.
pub proof fn law_index_finds_lines(
    index: LineIndexModel,
    loaded: Map<int, Seq<u64>>,
    stream: Seq<u8>,
    line: int,
)
    requires
        index.wf(),
        index.describes(loaded, stream),
        0 <= line < stream_line_count(stream),
    ensures
        index.line_count() == stream_line_count(stream),
        index.line_at(line, loaded) == Some(stream_line(stream, line)),
        stream_line(stream, line).start <= stream_line(stream, line).end <= stream.len(),
{
    let ends = line_ends(stream);
    lemma_holds_len(index.lines, loaded, ends);
    lemma_positions_below(stream, 0x0a);
    let found = positions(stream, 0x0a);
    if line < ends.len() {
        lemma_holds_at(index.lines, loaded, ends, line);
        assert(found[line] < stream.len());
        if line > 0 {
            lemma_holds_at(index.lines, loaded, ends, line - 1);
            assert(found[line - 1] < found[line]);
        }
    } else {
        assert(index.lines.line_of(line, loaded) is None) by {
            crate::line_blocks::lemma_no_line_beyond(index.lines, loaded, line);
        }
        if line > 0 {
            lemma_holds_at(index.lines, loaded, ends, line - 1);
        }
    }
}

// ---------------------------------------------------------------------------
// Which lines a page shows.

/// The line that a page is about.
pub open spec fn anchor_index(line_count: int, anchor_line_id: Option<u64>) -> Option<int> {
    match anchor_line_id {
        None => Some(line_count - 1),
        Some(id) => if 1 <= id <= line_count {
            Some(id - 1)
        } else {
            None
        },
    }
}

/// A window around `anchor`, made smaller at its longer side until it has at
/// most `limit` lines.
pub open spec fn shrink(anchor: int, start: int, end: int, limit: int) -> (int, int)
    decreases end - start,
{
    if end - start <= limit || end <= start {
        (start, end)
    } else if anchor - start >= end - anchor - 1 {
        shrink(anchor, start + 1, end, limit)
    } else {
        shrink(anchor, start, end - 1, limit)
    }
}

pub open spec fn at_most(value: int, limit: int) -> int {
    if value < limit {
        value
    } else {
        limit
    }
}

/// The lines around `anchor` that a request asks for.
pub open spec fn requested_window(
    line_count: int,
    anchor: int,
    rows_before: int,
    rows_after: int,
) -> (int, int) {
    let before = at_most(rows_before, MAX_LOG_PAGE_LINES - 1);
    let after = at_most(rows_after, MAX_LOG_PAGE_LINES - 1);
    shrink(
        anchor,
        sat_sub(anchor, before),
        at_most(anchor + after + 1, line_count),
        MAX_LOG_PAGE_LINES as int,
    )
}

proof fn lemma_shrink(anchor: int, start: int, end: int, limit: int)
    requires
        start <= anchor < end,
        limit >= 1,
    ensures
        ({
            let (from, to) = shrink(anchor, start, end, limit);
            start <= from <= anchor < to <= end && to - from <= limit
        }),
    decreases end - start,
{
    if end - start > limit {
        if anchor - start >= end - anchor - 1 {
            lemma_shrink(anchor, start + 1, end, limit);
        } else {
            lemma_shrink(anchor, start, end - 1, limit);
        }
    }
}

/// A request is answered with a bounded window that shows the anchor line.
pub proof fn law_window_shows_anchor(
    line_count: int,
    anchor: int,
    rows_before: int,
    rows_after: int,
)
    requires
        0 <= anchor < line_count,
        rows_before >= 0,
        rows_after >= 0,
    ensures
        ({
            let (start, end) = requested_window(line_count, anchor, rows_before, rows_after);
            0 <= start <= anchor < end <= line_count && end - start <= MAX_LOG_PAGE_LINES
        }),
{
    let before = at_most(rows_before, MAX_LOG_PAGE_LINES - 1);
    let after = at_most(rows_after, MAX_LOG_PAGE_LINES - 1);
    lemma_shrink(
        anchor,
        sat_sub(anchor, before),
        at_most(anchor + after + 1, line_count),
        MAX_LOG_PAGE_LINES as int,
    );
}

#[derive(Clone, Copy, Debug, PartialEq, Eq, Structural)]
pub struct LineRange {
    pub anchor_line_id: u64,
    pub start: usize,
    pub end: usize,
}

pub open spec fn unknown_line(error: JournalError, line_id: u64) -> bool {
    match error {
        JournalError::UnknownLine(named) => named == line_id,
        _ => false,
    }
}

pub fn requested_line_range(
    line_count: usize,
    anchor_line_id: Option<u64>,
    rows_before: usize,
    rows_after: usize,
) -> (range: Result<Option<LineRange>, JournalError>)
    ensures
        match range {
            Ok(None) => line_count == 0,
            Ok(Some(range)) => line_count > 0 && match anchor_index(
                line_count as int,
                anchor_line_id,
            ) {
                Some(anchor) => range.anchor_line_id == anchor + 1 && (
                    range.start as int,
                    range.end as int,
                ) == requested_window(
                    line_count as int,
                    anchor,
                    rows_before as int,
                    rows_after as int,
                ),
                None => false,
            },
            Err(error) => line_count > 0 && anchor_index(line_count as int, anchor_line_id) is None
                && match anchor_line_id {
                Some(id) => unknown_line(error, id),
                None => false,
            },
        },
{
    if line_count == 0 {
        return Ok(None);
    }
    let anchor: usize = match anchor_line_id {
        Some(id) => {
            if id == 0 || id - 1 >= line_count as u64 {
                return Err(JournalError::UnknownLine(id));
            }
            (id - 1) as usize
        },
        None => line_count - 1,
    };
    let before: usize = if rows_before < MAX_LOG_PAGE_LINES - 1 {
        rows_before
    } else {
        MAX_LOG_PAGE_LINES - 1
    };
    let after: usize = if rows_after < MAX_LOG_PAGE_LINES - 1 {
        rows_after
    } else {
        MAX_LOG_PAGE_LINES - 1
    };
    let mut start: usize = anchor.saturating_sub(before);
    let mut end: usize = if after < line_count - anchor - 1 {
        anchor + after + 1
    } else {
        line_count
    };
    while end - start > MAX_LOG_PAGE_LINES
        invariant
            start <= anchor < end <= line_count,
            shrink(anchor as int, start as int, end as int, MAX_LOG_PAGE_LINES as int)
                == requested_window(
                line_count as int,
                anchor as int,
                rows_before as int,
                rows_after as int,
            ),
        decreases end - start,
    {
        if anchor - start >= end - anchor - 1 {
            start += 1;
        } else {
            end -= 1;
        }
    }
    Ok(Some(LineRange { anchor_line_id: anchor as u64 + 1, start, end }))
}


// ---------------------------------------------------------------------------
// Planning a page.

/// Everything that reading a page needs, taken from the index at one moment.
#[derive(Debug)]
pub struct PageReadPlan {
    pub revision: u64,
    pub anchor_line_id: u64,
    pub total_line_count: u64,
    pub has_before: bool,
    pub has_after: bool,
    pub lines: Vec<(u64, LineLocation)>,
    pub records: Vec<RecordLocation>,
}

/// The lengths of the lines from `start` to `end`, added up.
pub open spec fn window_bytes(
    index: LineIndexModel,
    loaded: Map<int, Seq<u64>>,
    start: int,
    end: int,
) -> int
    decreases end - start,
{
    if end <= start {
        0
    } else {
        let before = window_bytes(index, loaded, start, end - 1);
        match index.line_at(end - 1, loaded) {
            Some(line) => sat_add(before, line.length()),
            None => before,
        }
    }
}

/// `total` without the length of a line that leaves the window.
pub open spec fn without_line(
    index: LineIndexModel,
    loaded: Map<int, Seq<u64>>,
    total: int,
    line: int,
) -> int {
    match index.line_at(line, loaded) {
        Some(line) => sat_sub(total, line.length()),
        None => total,
    }
}

/// The window made smaller, at its longer side, until its lines fit the byte
/// budget of a page or only one line is left.
pub open spec fn fit_bytes(
    index: LineIndexModel,
    loaded: Map<int, Seq<u64>>,
    anchor: int,
    start: int,
    end: int,
    total: int,
) -> (int, int)
    decreases end - start,
{
    if total <= MAX_LOG_PAGE_BYTES || end - start <= 1 {
        (start, end)
    } else if anchor - start >= end - anchor - 1 {
        fit_bytes(
            index,
            loaded,
            anchor,
            start + 1,
            end,
            without_line(index, loaded, total, start),
        )
    } else {
        fit_bytes(
            index,
            loaded,
            anchor,
            start,
            end - 1,
            without_line(index, loaded, total, end - 1),
        )
    }
}

/// The lines that a page shows.
pub open spec fn page_window(
    index: LineIndexModel,
    loaded: Map<int, Seq<u64>>,
    anchor: int,
    rows_before: int,
    rows_after: int,
) -> (int, int) {
    let (start, end) = requested_window(index.line_count(), anchor, rows_before, rows_after);
    fit_bytes(index, loaded, anchor, start, end, window_bytes(index, loaded, start, end))
}

/// The lines of a window, with their numbers counted from one.
pub open spec fn window_lines(
    index: LineIndexModel,
    loaded: Map<int, Seq<u64>>,
    start: int,
    end: int,
) -> Seq<(u64, LineLocation)>
    decreases end - start,
{
    if end <= start {
        Seq::empty()
    } else {
        let before = window_lines(index, loaded, start, end - 1);
        match index.line_at(end - 1, loaded) {
            Some(line) => before.push((end as u64, line)),
            None => before,
        }
    }
}

/// How many records end at or before `start`.
pub open spec fn records_before(records: Seq<RecordPlace>, start: int) -> int
    decreases records.len(),
{
    if records.len() == 0 || records[0].end() > start {
        0
    } else {
        1 + records_before(records.skip(1), start)
    }
}

/// The leading records that begin before `end`.
pub open spec fn leading_records(records: Seq<RecordPlace>, end: int) -> Seq<RecordPlace>
    decreases records.len(),
{
    if records.len() == 0 || records[0].start >= end {
        Seq::empty()
    } else {
        seq![records[0]] + leading_records(records.skip(1), end)
    }
}

/// The records that hold the bytes from `start` to `end`.
pub open spec fn records_for(records: Seq<RecordPlace>, start: int, end: int) -> Seq<RecordPlace> {
    leading_records(records.skip(records_before(records, start)), end)
}

/// The bytes from the first line of a page to its last.
pub open spec fn lines_range(lines: Seq<(u64, LineLocation)>) -> (int, int) {
    if lines.len() == 0 {
        (0, 0)
    } else {
        (lines[0].1.start as int, lines.last().1.end as int)
    }
}

/// The plan of a page around line `anchor`.
pub open spec fn plan_shows(
    plan: PageReadPlan,
    index: LineIndexModel,
    loaded: Map<int, Seq<u64>>,
    anchor: int,
    rows_before: int,
    rows_after: int,
) -> bool {
    let (start, end) = page_window(index, loaded, anchor, rows_before, rows_after);
    let range = lines_range(plan.lines@);
    &&& plan.revision == index.revision
    &&& plan.anchor_line_id == anchor + 1
    &&& plan.total_line_count == index.line_count()
    &&& plan.has_before == (start > 0)
    &&& plan.has_after == (end < index.line_count())
    &&& plan.lines@ == window_lines(index, loaded, start, end)
    &&& place_views(plan.records@) == records_for(index.records, range.0, range.1)
    &&& plan.wf()
}

pub open spec fn plan_is_empty(plan: PageReadPlan, index: LineIndexModel) -> bool {
    &&& plan.revision == index.revision
    &&& plan.anchor_line_id == 0
    &&& plan.total_line_count == 0
    &&& !plan.has_before
    &&& !plan.has_after
    &&& plan.lines@.len() == 0
    &&& plan.records@.len() == 0
}

/// Records end in order.
pub proof fn lemma_records_sorted(records: Seq<RecordPlace>, end: int, i: int, j: int)
    requires
        records_in_order(records, end),
        0 <= i <= j < records.len(),
    ensures
        records[i].end() <= records[j].end(),
        records[i].start <= records[j].start,
        i < j ==> records[i].end() <= records[j].start,
    decreases j - i,
{
    if i < j {
        lemma_records_sorted(records, end, i, j - 1);
        assert(records[j - 1].end() == records[j].start);
    }
}

proof fn lemma_records_before(records: Seq<RecordPlace>, start: int, count: int)
    requires
        0 <= count <= records.len(),
        forall|i: int| 0 <= i < count ==> (#[trigger] records[i]).end() <= start,
        count < records.len() ==> records[count].end() > start,
    ensures
        records_before(records, start) == count,
    decreases count,
{
    if count > 0 {
        let rest = records.skip(1);
        assert(records[0].end() <= start);
        assert forall|i: int| 0 <= i < count - 1 implies (#[trigger] rest[i]).end() <= start by {
            assert(rest[i] == records[i + 1]);
        }
        if count < records.len() {
            assert(rest[count - 1] == records[count]);
        }
        lemma_records_before(rest, start, count - 1);
    }
}

proof fn lemma_leading_records(records: Seq<RecordPlace>, end: int, count: int)
    requires
        0 <= count <= records.len(),
        forall|i: int| 0 <= i < count ==> (#[trigger] records[i]).start < end,
        count < records.len() ==> records[count].start >= end,
    ensures
        leading_records(records, end) == records.take(count),
    decreases count,
{
    if count > 0 {
        let rest = records.skip(1);
        assert(records[0].start < end);
        assert forall|i: int| 0 <= i < count - 1 implies (#[trigger] rest[i]).start < end by {
            assert(rest[i] == records[i + 1]);
        }
        if count < records.len() {
            assert(rest[count - 1] == records[count]);
        }
        lemma_leading_records(rest, end, count - 1);
        assert(seq![records[0]] + rest.take(count - 1) =~= records.take(count));
    } else {
        assert(records.take(0) =~= Seq::empty());
    }
}

/// How many records end at or before `start`, by bisection.
fn first_record(records: &Vec<RecordLocation>, start: u64, Ghost(end): Ghost<int>) -> (count: usize)
    requires
        records_in_order(place_views(records@), end),
    ensures
        count <= records@.len(),
        count == records_before(place_views(records@), start as int),
{
    let ghost places = place_views(records@);
    let mut low: usize = 0;
    let mut high: usize = records.len();
    while low < high
        invariant
            low <= high <= records@.len(),
            places == place_views(records@),
            records_in_order(places, end),
            forall|i: int| 0 <= i < low ==> (#[trigger] places[i]).end() <= start,
            forall|i: int| high <= i < places.len() ==> (#[trigger] places[i]).end() > start,
        decreases high - low,
    {
        let middle: usize = low + (high - low) / 2;
        assert(places[middle as int] == records@[middle as int]@);
        if records[middle].logical_end() <= start {
            proof {
                assert forall|i: int| 0 <= i < middle + 1 implies (#[trigger] places[i]).end()
                    <= start by {
                    lemma_records_sorted(places, end, i, middle as int);
                }
            }
            low = middle + 1;
        } else {
            proof {
                assert forall|i: int| middle <= i < places.len() implies (
                #[trigger] places[i]).end() > start by {
                    lemma_records_sorted(places, end, middle as int, i);
                }
            }
            high = middle;
        }
    }
    proof {
        lemma_records_before(places, start as int, low as int);
    }
    low
}

fn copy_records(records: &Vec<RecordLocation>, start: u64, end: u64, Ghost(total): Ghost<int>) -> (
    found: Vec<RecordLocation>)
    requires
        records_in_order(place_views(records@), total),
    ensures
        place_views(found@) == records_for(place_views(records@), start as int, end as int),
        forall|i: int| 0 <= i < found@.len() ==> (#[trigger] found@[i]).ansi_state@.wf(),
{
    let first: usize = first_record(records, start, Ghost(total));
    let ghost places = place_views(records@);
    let ghost rest = places.skip(first as int);
    let mut found: Vec<RecordLocation> = Vec::new();
    let mut index: usize = first;
    while index < records.len() && records[index].logical_start < end
        invariant
            first <= index <= records@.len(),
            places == place_views(records@),
            rest == places.skip(first as int),
            records_in_order(places, total),
            place_views(found@) == rest.take(index - first),
            forall|i: int| 0 <= i < found@.len() ==> (#[trigger] found@[i]).ansi_state@.wf(),
            forall|i: int| 0 <= i < index - first ==> (#[trigger] rest[i]).start < end,
        decreases records@.len() - index,
    {
        let ghost before = place_views(found@);
        proof {
            assert(rest[index - first] == records@[index as int]@);
            assert(places[index as int].ansi.wf());
        }
        found.push(records[index]);
        proof {
            assert(place_views(found@) =~= before.push(rest[index - first]));
            assert(rest.take(index + 1 - first) =~= rest.take(index - first).push(
                rest[index - first],
            ));
        }
        index += 1;
    }
    proof {
        if index < records@.len() {
            assert(rest[index - first] == records@[index as int]@);
        }
        lemma_leading_records(rest, end as int, index - first);
    }
    found
}

impl PageReadPlan {
    /// Plans the page around `anchor_line_id`, or around the last line.
    pub fn from_state(
        state: &JournalLineIndexState,
        anchor_line_id: Option<u64>,
        rows_before: usize,
        rows_after: usize,
        loaded: &Vec<LoadedLineBlock>,
    ) -> (plan: Result<Self, JournalError>)
        requires
            state@.wf(),
        ensures
            match plan {
                Ok(plan) => if state@.line_count() == 0 {
                    plan_is_empty(plan, state@)
                } else {
                    match anchor_index(state@.line_count(), anchor_line_id) {
                        Some(anchor) => plan_shows(
                            plan,
                            state@,
                            loaded_map(loaded@),
                            anchor,
                            rows_before as int,
                            rows_after as int,
                        ),
                        None => false,
                    }
                },
                Err(error) => state@.line_count() > 0 && anchor_index(
                    state@.line_count(),
                    anchor_line_id,
                ) is None && match anchor_line_id {
                    Some(id) => unknown_line(error, id),
                    None => false,
                },
            },
    {
        let ghost blocks = loaded_map(loaded@);
        let line_count: usize = state.line_count();
        let range = match requested_line_range(line_count, anchor_line_id, rows_before, rows_after) {
            Err(error) => return Err(error),
            Ok(range) => range,
        };
        let range = match range {
            None => {
                return Ok(
                    PageReadPlan {
                        revision: state.revision,
                        anchor_line_id: 0,
                        total_line_count: 0,
                        has_before: false,
                        has_after: false,
                        lines: Vec::new(),
                        records: Vec::new(),
                    },
                )
            },
            Some(range) => range,
        };
        let anchor: usize = (range.anchor_line_id - 1) as usize;
        proof {
            law_window_shows_anchor(
                line_count as int,
                anchor as int,
                rows_before as int,
                rows_after as int,
            );
        }
        let mut start: usize = range.start;
        let mut end: usize = range.end;
        let mut selected: u64 = 0;
        let mut index: usize = start;
        while index < end
            invariant
                start <= index <= end,
                blocks == loaded_map(loaded@),
                selected == window_bytes(state@, blocks, start as int, index as int),
            decreases end - index,
        {
            if let Some(line) = state.line(index, loaded) {
                selected = selected.saturating_add(line.len());
            }
            index += 1;
        }
        while selected > MAX_LOG_PAGE_BYTES as u64 && end - start > 1
            invariant
                start <= anchor < end <= line_count,
                blocks == loaded_map(loaded@),
                fit_bytes(
                    state@,
                    blocks,
                    anchor as int,
                    start as int,
                    end as int,
                    selected as int,
                ) == page_window(
                    state@,
                    blocks,
                    anchor as int,
                    rows_before as int,
                    rows_after as int,
                ),
            decreases end - start,
        {
            if anchor - start >= end - anchor - 1 {
                if let Some(line) = state.line(start, loaded) {
                    selected = selected.saturating_sub(line.len());
                }
                start += 1;
            } else {
                end -= 1;
                if let Some(line) = state.line(end, loaded) {
                    selected = selected.saturating_sub(line.len());
                }
            }
        }
        let mut lines: Vec<(u64, LineLocation)> = Vec::new();
        let mut index: usize = start;
        while index < end
            invariant
                start <= index <= end,
                end <= line_count,
                blocks == loaded_map(loaded@),
                lines@ == window_lines(state@, blocks, start as int, index as int),
            decreases end - index,
        {
            if let Some(line) = state.line(index, loaded) {
                lines.push((index as u64 + 1, line));
            }
            index += 1;
        }
        let (first, last): (u64, u64) = if lines.len() == 0 {
            (0, 0)
        } else {
            (lines[0].1.start, lines[lines.len() - 1].1.end)
        };
        let records = copy_records(
            &state.records,
            first,
            last,
            Ghost(state@.logical_bytes as int),
        );
        Ok(
            PageReadPlan {
                revision: state.revision,
                anchor_line_id: range.anchor_line_id,
                total_line_count: line_count as u64,
                has_before: start > 0,
                has_after: end < line_count,
                lines,
                records,
            },
        )
    }
}


// ---------------------------------------------------------------------------
// Bytes that a page needs.

/// Bytes to read from one segment.
#[derive(Clone, Copy, Debug, PartialEq, Eq, Structural)]
pub struct ReadPiece {
    pub segment_id: u32,
    pub file_offset: u64,
    pub length: usize,
}

/// The part of a record that lies between `start` and `end` of the stream.
pub open spec fn overlap(record: RecordPlace, start: int, end: int) -> (int, int) {
    (
        if start < record.start {
            record.start as int
        } else {
            start
        },
        at_most(end, record.end()),
    )
}

/// The pieces that hold the bytes from `start` to `end`, in order.
pub open spec fn pieces_for(records: Seq<RecordPlace>, start: int, end: int) -> Seq<ReadPiece>
    decreases records.len(),
{
    if records.len() == 0 {
        Seq::empty()
    } else {
        let before = pieces_for(records.drop_last(), start, end);
        let record = records.last();
        let (from, to) = overlap(record, start, end);
        if from >= to {
            before
        } else {
            before.push(
                ReadPiece {
                    segment_id: record.segment_id,
                    file_offset: sat_add(record.offset as int, from - record.start) as u64,
                    length: (to - from) as usize,
                },
            )
        }
    }
}

/// Where the bytes from `start` to `end` of the stream are to be read.
pub fn read_logical_range(records: &Vec<RecordLocation>, start: u64, end: u64) -> (pieces: Vec<
    ReadPiece,
>)
    requires
        start <= end ==> end - start <= usize::MAX,
    ensures
        pieces@ == pieces_for(place_views(records@), start as int, end as int),
{
    let ghost places = place_views(records@);
    let mut pieces: Vec<ReadPiece> = Vec::new();
    let mut index: usize = 0;
    assert(places.take(0) =~= Seq::empty());
    while index < records.len()
        invariant
            index <= records@.len(),
            start <= end ==> end - start <= usize::MAX,
            places == place_views(records@),
            pieces@ == pieces_for(places.take(index as int), start as int, end as int),
        decreases records@.len() - index,
    {
        let record = records[index];
        proof {
            assert(places.take(index + 1).drop_last() =~= places.take(index as int));
            assert(places.take(index + 1).last() == record@);
        }
        let from: u64 = if start < record.logical_start {
            record.logical_start
        } else {
            start
        };
        let record_end: u64 = record.logical_end();
        let to: u64 = if end < record_end {
            end
        } else {
            record_end
        };
        if from < to {
            pieces.push(
                ReadPiece {
                    segment_id: record.segment_id,
                    file_offset: record.payload_file_offset.saturating_add(
                        from - record.logical_start,
                    ),
                    length: (to - from) as usize,
                },
            );
        }
        index += 1;
    }
    assert(places.take(places.len() as int) =~= places);
    pieces
}

/// The segments hold the stream: each record's payload stands where the index
/// says.
pub open spec fn segments_hold(
    segments: Map<u32, Seq<u8>>,
    records: Seq<RecordPlace>,
    stream: Seq<u8>,
) -> bool {
    forall|i: int|
        0 <= i < records.len() ==> {
            let record = #[trigger] records[i];
            &&& record.start + record.len <= stream.len()
            &&& stream.len() <= u64::MAX
            &&& segments.contains_key(record.segment_id)
            &&& record.offset + record.len <= segments[record.segment_id].len()
            &&& record.offset + record.len <= u64::MAX
            &&& segments[record.segment_id].subrange(
                record.offset as int,
                record.offset + record.len,
            ) == stream.subrange(record.start as int, record.start + record.len)
        }
}

/// The bytes of pieces, joined.
pub open spec fn pieces_bytes(segments: Map<u32, Seq<u8>>, pieces: Seq<ReadPiece>) -> Seq<u8>
    decreases pieces.len(),
{
    if pieces.len() == 0 {
        Seq::empty()
    } else {
        let piece = pieces.last();
        pieces_bytes(segments, pieces.drop_last()) + segments[piece.segment_id].subrange(
            piece.file_offset as int,
            piece.file_offset + piece.length,
        )
    }
}

/// Consecutive records, the first of which begins at or before `start`.
pub open spec fn cover(records: Seq<RecordPlace>, start: int) -> bool {
    &&& records.len() > 0 ==> records[0].start <= start
    &&& forall|i: int, j: int|
        0 <= i && j == i + 1 && j < records.len() ==> (#[trigger] records[i]).end() == (
        #[trigger] records[j]).start
}

/// Reading the pieces of a range gives the stream's bytes of that range, as
/// far as the records reach: how the output was cut into records and segments
/// does not show.
pub proof fn law_pieces_give_stream(
    segments: Map<u32, Seq<u8>>,
    records: Seq<RecordPlace>,
    stream: Seq<u8>,
    start: int,
    end: int,
)
    requires
        segments_hold(segments, records, stream),
        cover(records, start),
        0 <= start <= end <= stream.len(),
        end - start <= usize::MAX,
    ensures
        ({
            let reach = if records.len() == 0 || records.last().end() < start {
                start
            } else {
                at_most(end, records.last().end())
            };
            pieces_bytes(segments, pieces_for(records, start, end)) == stream.subrange(start, reach)
        }),
    decreases records.len(),
{
    if records.len() == 0 {
        assert(stream.subrange(start, start) =~= Seq::empty());
    } else {
        let front = records.drop_last();
        let record = records.last();
        assert(records[records.len() - 1] == record);
        assert forall|i: int| 0 <= i < front.len() implies {
            let record = #[trigger] front[i];
            &&& record.start + record.len <= stream.len()
            &&& stream.len() <= u64::MAX
            &&& segments.contains_key(record.segment_id)
            &&& record.offset + record.len <= segments[record.segment_id].len()
            &&& record.offset + record.len <= u64::MAX
            &&& segments[record.segment_id].subrange(
                record.offset as int,
                record.offset + record.len,
            ) == stream.subrange(record.start as int, record.start + record.len)
        } by {
            assert(front[i] == records[i]);
        }
        if front.len() > 0 {
            assert(front[0] == records[0]);
            assert(front[front.len() - 1] == records[records.len() - 2]);
            assert(records[records.len() - 2].end() == records[records.len() - 1].start);
        }
        assert(cover(front, start)) by {
            assert forall|i: int, j: int| 0 <= i && j == i + 1 && j < front.len() implies (
            #[trigger] front[i]).end() == (#[trigger] front[j]).start by {
                assert(front[i] == records[i] && front[j] == records[j]);
            }
        }
        law_pieces_give_stream(segments, front, stream, start, end);
        let before = pieces_bytes(segments, pieces_for(front, start, end));
        let (from, to) = overlap(record, start, end);
        assert(record.end() == record.start + record.len);
        if from < to {
            let pieces = pieces_for(records, start, end);
            assert(pieces.drop_last() =~= pieces_for(front, start, end));
            let segment = segments[record.segment_id];
            let payload = stream.subrange(record.start as int, record.start + record.len);
            let offset = record.offset + (from - record.start);
            assert(segment.subrange(offset, offset + (to - from)) =~= payload.subrange(
                from - record.start,
                to - record.start,
            )) by {
                assert(payload == segment.subrange(
                    record.offset as int,
                    record.offset + record.len,
                ));
            }
            assert(payload.subrange(from - record.start, to - record.start) =~= stream.subrange(
                from,
                to,
            ));
            assert(before + stream.subrange(from, to) =~= stream.subrange(start, to));
        }
    }
}

// ---------------------------------------------------------------------------
// Rows.

pub open spec fn is_io(error: JournalError, kind: IoFailureKind, detail: Seq<char>) -> bool {
    match error {
        JournalError::Io(failure) => failure.kind == kind && failure.detail@ == detail,
        _ => false,
    }
}

pub fn io_error(kind: IoFailureKind, detail: &str) -> (error: JournalError)
    ensures
        is_io(error, kind, detail@),
{
    JournalError::Io(IoFailure { kind, detail: detail.to_owned() })
}

/// The bytes from `start` to `end` of the stream lie within `bytes`, which
/// begin at `base`.
pub open spec fn within(bytes: Seq<u8>, base: int, start: int, end: int) -> bool {
    sat_sub(start, base) <= sat_sub(end, base) <= bytes.len()
}

pub open spec fn slice_of(bytes: Seq<u8>, base: int, start: int, end: int) -> Seq<u8> {
    bytes.subrange(sat_sub(start, base), sat_sub(end, base))
}

/// Why bytes of the stream are not to be had from bytes that begin at `base`.
pub open spec fn slice_fault(base: int, start: int, end: int, error: JournalError) -> bool {
    if sat_sub(start, base) > usize::MAX {
        is_io(error, IoFailureKind::InvalidData, "journal range start overflow"@)
    } else if sat_sub(end, base) > usize::MAX {
        is_io(error, IoFailureKind::InvalidData, "journal range end overflow"@)
    } else {
        is_io(
            error,
            IoFailureKind::UnexpectedEof,
            "journal range is outside the loaded page"@,
        )
    }
}

/// Why a page cannot be made from some bytes: they do not hold it, or, where
/// offsets need not fit into a `usize`, some offset does not.
pub open spec fn page_fault(error: JournalError) -> bool {
    ||| is_io(
        error,
        IoFailureKind::UnexpectedEof,
        "journal range is outside the loaded page"@,
    )
    ||| usize::MAX < u64::MAX && is_io(
        error,
        IoFailureKind::InvalidData,
        "journal range start overflow"@,
    )
    ||| usize::MAX < u64::MAX && is_io(
        error,
        IoFailureKind::InvalidData,
        "journal range end overflow"@,
    )
}

/// The bytes from `start` to `end` of the stream, out of bytes that begin at
/// `logical_base`.
pub fn logical_slice(bytes: &[u8], logical_base: u64, start: u64, end: u64) -> (slice: Result<
    &[u8],
    JournalError,
>)
    ensures
        match slice {
            Ok(slice) => within(bytes@, logical_base as int, start as int, end as int) && slice@
                == slice_of(bytes@, logical_base as int, start as int, end as int),
            Err(error) => !within(bytes@, logical_base as int, start as int, end as int)
                && slice_fault(logical_base as int, start as int, end as int, error),
        },
{
    let from: u64 = start.saturating_sub(logical_base);
    let to: u64 = end.saturating_sub(logical_base);
    let length: usize = bytes.len();
    if from > usize::MAX as u64 {
        return Err(io_error(IoFailureKind::InvalidData, "journal range start overflow"));
    }
    if to > usize::MAX as u64 {
        return Err(io_error(IoFailureKind::InvalidData, "journal range end overflow"));
    }
    if from > to || to > length as u64 {
        return Err(
            io_error(IoFailureKind::UnexpectedEof, "journal range is outside the loaded page"),
        );
    }
    Ok(vstd::slice::slice_subrange(bytes, from as usize, to as usize))
}

/// A line without the carriage return before its newline.
pub open spec fn without_return(bytes: Seq<u8>) -> Seq<u8> {
    if bytes.len() > 0 && bytes.last() == 0x0d {
        bytes.drop_last()
    } else {
        bytes
    }
}

#[verifier::ext_equal]
pub struct RowModel {
    pub line_id: u64,
    pub bytes: Seq<u8>,
    pub truncated: bool,
}

/// The bytes that rows show.
pub open spec fn row_total(rows: Seq<RowModel>) -> int
    decreases rows.len(),
{
    if rows.len() == 0 {
        0
    } else {
        row_total(rows.drop_last()) + rows.last().bytes.len()
    }
}

impl View for IndexedLogLine {
    type V = RowModel;

    open spec fn view(&self) -> RowModel {
        RowModel { line_id: self.line_id, bytes: self.bytes@, truncated: self.truncated }
    }
}

pub open spec fn row_views(rows: Seq<IndexedLogLine>) -> Seq<RowModel> {
    Seq::new(rows.len(), |i: int| rows[i]@)
}

/// The end of what is shown of a line with `budget` bytes left on the page.
pub open spec fn shown_end(line: LineLocation, budget: int) -> int {
    sat_add(line.start as int, at_most(line.length(), budget))
}

/// The row of a line, out of `raw` bytes that begin at `base`.
pub open spec fn line_row(line: (u64, LineLocation), raw: Seq<u8>, base: int, budget: int) -> RowModel {
    let truncated = budget < line.1.length();
    let bytes = slice_of(raw, base, line.1.start as int, shown_end(line.1, budget));
    RowModel {
        line_id: line.0,
        bytes: if truncated {
            bytes
        } else {
            without_return(bytes)
        },
        truncated,
    }
}

/// The rows of lines, and the bytes that are left on the page.
pub open spec fn line_rows(lines: Seq<(u64, LineLocation)>, raw: Seq<u8>, base: int) -> (
    Seq<RowModel>,
    int,
)
    decreases lines.len(),
{
    if lines.len() == 0 {
        (Seq::empty(), MAX_LOG_PAGE_BYTES as int)
    } else {
        let (rows, budget) = line_rows(lines.drop_last(), raw, base);
        let row = line_row(lines.last(), raw, base, budget);
        (rows.push(row), sat_sub(budget, row.bytes.len() as int))
    }
}

/// All bytes that the rows show are there.
pub open spec fn rows_within(lines: Seq<(u64, LineLocation)>, raw: Seq<u8>, base: int) -> bool
    decreases lines.len(),
{
    lines.len() == 0 || {
        let line = lines.last().1;
        let budget = line_rows(lines.drop_last(), raw, base).1;
        rows_within(lines.drop_last(), raw, base) && within(
            raw,
            base,
            line.start as int,
            shown_end(line, budget),
        )
    }
}

proof fn lemma_rows_within_prefix(
    lines: Seq<(u64, LineLocation)>,
    raw: Seq<u8>,
    base: int,
    count: int,
)
    requires
        0 <= count <= lines.len(),
        !rows_within(lines.take(count), raw, base),
    ensures
        !rows_within(lines, raw, base),
    decreases lines.len(),
{
    if count == lines.len() {
        assert(lines.take(count) =~= lines);
    } else {
        assert(lines.drop_last().take(count) =~= lines.take(count));
        lemma_rows_within_prefix(lines.drop_last(), raw, base, count);
    }
}

impl PageReadPlan {
    /// The bytes of the stream that `read` wants.
    pub open spec fn raw_bounds(self) -> (int, int) {
        if self.lines@.len() == 0 {
            (0, 0)
        } else {
            (
                self.lines@[0].1.start as int,
                shown_end(self.lines@.last().1, MAX_LOG_PAGE_BYTES as int),
            )
        }
    }

    pub fn raw_range(&self) -> (range: (u64, u64))
        ensures
            (range.0 as int, range.1 as int) == self.raw_bounds(),
    {
        let count: usize = self.lines.len();
        if count == 0 {
            return (0, 0);
        }
        let last = self.lines[count - 1].1;
        let length: u64 = last.len();
        let wanted: u64 = if length < MAX_LOG_PAGE_BYTES as u64 {
            length
        } else {
            MAX_LOG_PAGE_BYTES as u64
        };
        (self.lines[0].1.start, last.start.saturating_add(wanted))
    }

    /// The page, out of the bytes of `raw_range`.
    pub fn read(&self, raw: &[u8]) -> (page: Result<JournalLogPage, JournalError>)
        ensures
            match page {
                Ok(page) => {
                    &&& rows_within(self.lines@, raw@, self.raw_bounds().0)
                    &&& row_views(page.rows@) == line_rows(
                        self.lines@,
                        raw@,
                        self.raw_bounds().0,
                    ).0
                    &&& row_total(row_views(page.rows@)) <= MAX_LOG_PAGE_BYTES
                    &&& page.revision == self.revision
                    &&& page.anchor_line_id == self.anchor_line_id
                    &&& page.total_line_count == self.total_line_count
                    &&& page.has_before == self.has_before
                    &&& page.has_after == self.has_after
                },
                Err(error) => !rows_within(self.lines@, raw@, self.raw_bounds().0) && page_fault(
                    error,
                ),
            },
    {
        let (base, _) = self.raw_range();
        let mut budget: usize = MAX_LOG_PAGE_BYTES;
        let mut rows: Vec<IndexedLogLine> = Vec::new();
        let mut index: usize = 0;
        assert(self.lines@.take(0) =~= Seq::empty());
        assert(row_views(rows@) =~= Seq::empty());
        while index < self.lines.len()
            invariant
                index <= self.lines@.len(),
                base == self.raw_bounds().0,
                budget <= MAX_LOG_PAGE_BYTES,
                rows_within(self.lines@.take(index as int), raw@, base as int),
                (row_views(rows@), budget as int) == line_rows(
                    self.lines@.take(index as int),
                    raw@,
                    base as int,
                ),
                row_total(row_views(rows@)) + budget == MAX_LOG_PAGE_BYTES,
            decreases self.lines@.len() - index,
        {
            let (line_id, line) = self.lines[index];
            proof {
                assert(self.lines@.take(index + 1).drop_last() =~= self.lines@.take(index as int));
                assert(self.lines@.take(index + 1).last() == self.lines@[index as int]);
            }
            let available: u64 = line.len();
            let truncated = (budget as u64) < available;
            let wanted: u64 = if truncated {
                budget as u64
            } else {
                available
            };
            let part = match logical_slice(raw, base, line.start, line.start.saturating_add(wanted)) {
                Ok(part) => part,
                Err(error) => {
                    proof {
                        lemma_rows_within_prefix(self.lines@, raw@, base as int, index + 1);
                    }
                    return Err(error);
                },
            };
            let mut length: usize = part.len();
            if !truncated && length > 0 && part[length - 1] == 0x0d {
                length -= 1;
            }
            let bytes = vstd::slice::slice_to_vec(vstd::slice::slice_subrange(part, 0, length));
            let ghost before = row_views(rows@);
            budget = budget.saturating_sub(length);
            proof {
                if length == part@.len() {
                    assert(part@.subrange(0, length as int) =~= part@);
                } else {
                    assert(part@.subrange(0, length as int) =~= part@.drop_last());
                }
            }
            rows.push(IndexedLogLine { line_id, bytes, truncated });
            assert(row_views(rows@) =~= before.push(rows@.last()@));
            assert(before.push(rows@.last()@).drop_last() =~= before);
            index += 1;
        }
        assert(self.lines@.take(self.lines@.len() as int) =~= self.lines@);
        Ok(
            JournalLogPage {
                revision: self.revision,
                anchor_line_id: self.anchor_line_id,
                rows,
                total_line_count: self.total_line_count,
                has_before: self.has_before,
                has_after: self.has_after,
            },
        )
    }
}


// ---------------------------------------------------------------------------
// Styled rows.

#[verifier::ext_equal]
pub struct StyledRowModel {
    pub line_id: u64,
    pub text: Seq<char>,
    pub spans: Seq<JournalStyleSpan>,
    pub truncated: bool,
}

/// The bytes of text that rows show.
pub open spec fn styled_text_total(rows: Seq<StyledRowModel>) -> int
    decreases rows.len(),
{
    if rows.len() == 0 {
        0
    } else {
        styled_text_total(rows.drop_last()) + utf8(rows.last().text).len()
    }
}

/// The spans that rows have.
pub open spec fn span_total(rows: Seq<StyledRowModel>) -> int
    decreases rows.len(),
{
    if rows.len() == 0 {
        0
    } else {
        span_total(rows.drop_last()) + rows.last().spans.len()
    }
}

impl View for StyledIndexedLogLine {
    type V = StyledRowModel;

    open spec fn view(&self) -> StyledRowModel {
        StyledRowModel {
            line_id: self.line_id,
            text: self.text@,
            spans: self.style_spans@,
            truncated: self.truncated,
        }
    }
}

pub open spec fn styled_row_views(rows: Seq<StyledIndexedLogLine>) -> Seq<StyledRowModel> {
    Seq::new(rows.len(), |i: int| rows[i]@)
}

/// The raw bytes that are left on a page behind `lines`.
pub open spec fn raw_budget(lines: Seq<(u64, LineLocation)>) -> int
    decreases lines.len(),
{
    if lines.len() == 0 {
        MAX_LOG_PAGE_BYTES as int
    } else {
        let before = raw_budget(lines.drop_last());
        sat_sub(before, at_most(lines.last().1.length(), before))
    }
}

/// Decoding a page: the rows so far, the machine and where it stands, and
/// what is left of the page's limits.
#[verifier::ext_equal]
pub struct Styling {
    pub rows: Seq<StyledRowModel>,
    pub ansi: AnsiModel,
    pub cursor: int,
    pub text_left: int,
    pub spans_left: int,
}

/// What decoding `input` from `ansi` collects.
pub open spec fn collected_from(ansi: AnsiModel, input: Seq<u8>, maximum: int) -> Collected {
    decode_run((ansi, Collected::empty(maximum as usize)), input).1
}

/// Decoding one more line: the machine first reads what lies before it.
#[verifier::opaque]
pub open spec fn style_line(
    at: Styling,
    line: (u64, LineLocation),
    budget: int,
    raw: Seq<u8>,
    base: int,
) -> Styling {
    let start = line.1.start as int;
    let end = shown_end(line.1, budget);
    let ansi = run(at.ansi, slice_of(raw, base, at.cursor, start));
    let input = slice_of(raw, base, start, end);
    let collected = collected_from(ansi, input, at.text_left);
    let text = collected_text(collected);
    let spans = collected_spans(collected).spans;
    let kept = if spans.len() > at.spans_left {
        spans.take(at.spans_left)
    } else {
        spans
    };
    Styling {
        rows: at.rows.push(
            StyledRowModel {
                line_id: line.0,
                text,
                spans: kept,
                truncated: budget < line.1.length() || collected_truncated(collected),
            },
        ),
        ansi: run(ansi, input),
        cursor: end,
        text_left: sat_sub(at.text_left, utf8(text).len() as int),
        spans_left: sat_sub(at.spans_left, kept.len() as int),
    }
}

pub open spec fn style_lines(
    from: Styling,
    lines: Seq<(u64, LineLocation)>,
    raw: Seq<u8>,
    base: int,
) -> Styling
    decreases lines.len(),
{
    if lines.len() == 0 {
        from
    } else {
        style_line(
            style_lines(from, lines.drop_last(), raw, base),
            lines.last(),
            raw_budget(lines.drop_last()),
            raw,
            base,
        )
    }
}

/// All bytes that decoding the lines reads are there.
pub open spec fn styling_within(
    from: Styling,
    lines: Seq<(u64, LineLocation)>,
    raw: Seq<u8>,
    base: int,
) -> bool
    decreases lines.len(),
{
    lines.len() == 0 || {
        let at = style_lines(from, lines.drop_last(), raw, base);
        let line = lines.last().1;
        &&& styling_within(from, lines.drop_last(), raw, base)
        &&& within(raw, base, at.cursor, line.start as int)
        &&& within(
            raw,
            base,
            line.start as int,
            shown_end(line, raw_budget(lines.drop_last())),
        )
    }
}

proof fn lemma_styling_within_prefix(
    from: Styling,
    lines: Seq<(u64, LineLocation)>,
    raw: Seq<u8>,
    base: int,
    count: int,
)
    requires
        0 <= count <= lines.len(),
        !styling_within(from, lines.take(count), raw, base),
    ensures
        !styling_within(from, lines, raw, base),
    decreases lines.len(),
{
    if count == lines.len() {
        assert(lines.take(count) =~= lines);
    } else {
        assert(lines.drop_last().take(count) =~= lines.take(count));
        lemma_styling_within_prefix(from, lines.drop_last(), raw, base, count);
    }
}

proof fn lemma_raw_budget_bounds(lines: Seq<(u64, LineLocation)>)
    ensures
        0 <= raw_budget(lines) <= MAX_LOG_PAGE_BYTES,
    decreases lines.len(),
{
    if lines.len() > 0 {
        lemma_raw_budget_bounds(lines.drop_last());
    }
}

impl PageReadPlan {
    /// The plan's records were taken from a well-formed index.
    pub open spec fn wf(self) -> bool {
        forall|i: int| 0 <= i < self.records@.len() ==> (#[trigger] self.records@[i]).ansi_state@.wf()
    }

    /// Where decoding begins: at the first record, whose state is known.
    pub open spec fn checkpoint(self) -> (int, AnsiModel) {
        if self.records@.len() > 0 {
            (self.records@[0].logical_start as int, self.records@[0].ansi_state@)
        } else if self.lines@.len() > 0 {
            (self.lines@[0].1.start as int, AnsiModel::initial())
        } else {
            (0, AnsiModel::initial())
        }
    }

    pub open spec fn styling(self) -> Styling {
        Styling {
            rows: Seq::empty(),
            ansi: self.checkpoint().1,
            cursor: self.checkpoint().0,
            text_left: MAX_LOG_PAGE_BYTES as int,
            spans_left: MAX_LOG_PAGE_STYLE_SPANS as int,
        }
    }

    /// The bytes of the stream that `read_styled` wants.
    pub open spec fn styled_bounds(self) -> (int, int) {
        (
            self.checkpoint().0,
            if self.lines@.len() == 0 {
                self.checkpoint().0
            } else {
                shown_end(self.lines@.last().1, raw_budget(self.lines@.drop_last()))
            },
        )
    }

    pub fn styled_range(&self) -> (range: (u64, u64))
        ensures
            (range.0 as int, range.1 as int) == self.styled_bounds(),
    {
        let start: u64 = if self.records.len() > 0 {
            self.records[0].logical_start
        } else if self.lines.len() > 0 {
            self.lines[0].1.start
        } else {
            0
        };
        let count: usize = self.lines.len();
        if count == 0 {
            return (start, start);
        }
        let mut budget: u64 = MAX_LOG_PAGE_BYTES as u64;
        let mut index: usize = 0;
        assert(self.lines@.take(0) =~= Seq::empty());
        while index < count - 1
            invariant
                index <= count - 1,
                count == self.lines@.len(),
                budget == raw_budget(self.lines@.take(index as int)),
            decreases count - index,
        {
            assert(self.lines@.take(index + 1).drop_last() =~= self.lines@.take(index as int));
            let length: u64 = self.lines[index].1.len();
            budget = budget.saturating_sub(
                if length < budget {
                    length
                } else {
                    budget
                },
            );
            index += 1;
        }
        assert(self.lines@.take(count - 1) =~= self.lines@.drop_last());
        let last = self.lines[count - 1].1;
        let length: u64 = last.len();
        let wanted: u64 = if length < budget {
            length
        } else {
            budget
        };
        (start, last.start.saturating_add(wanted))
    }

    /// The page with text and styles, out of the bytes of `styled_range`.
    pub fn read_styled(&self, raw: &[u8]) -> (page: Result<JournalStyledLogPage, JournalError>)
        requires
            self.wf(),
        ensures
            match page {
                Ok(page) => {
                    &&& styling_within(self.styling(), self.lines@, raw@, self.checkpoint().0)
                    &&& styled_row_views(page.rows@) == style_lines(
                        self.styling(),
                        self.lines@,
                        raw@,
                        self.checkpoint().0,
                    ).rows
                    &&& styled_text_total(styled_row_views(page.rows@)) <= MAX_LOG_PAGE_BYTES
                    &&& span_total(styled_row_views(page.rows@)) <= MAX_LOG_PAGE_STYLE_SPANS
                    &&& forall|i: int|
                        0 <= i < page.rows@.len() ==> spans_fit_text(
                            (#[trigger] page.rows@[i]).style_spans@,
                            page.rows@[i].text@,
                        )
                    &&& page.revision == self.revision
                    &&& page.anchor_line_id == self.anchor_line_id
                    &&& page.total_line_count == self.total_line_count
                    &&& page.has_before == self.has_before
                    &&& page.has_after == self.has_after
                },
                Err(error) => page_fault(error) && !styling_within(
                    self.styling(),
                    self.lines@,
                    raw@,
                    self.checkpoint().0,
                ),
            },
    {
        let (base, _) = self.styled_range();
        let mut ansi: AnsiState = if self.records.len() > 0 {
            assert(self.records@[0].ansi_state@.wf());
            self.records[0].ansi_state
        } else {
            AnsiState::default()
        };
        let ghost from = self.styling();
        let mut cursor: u64 = base;
        let mut budget: u64 = MAX_LOG_PAGE_BYTES as u64;
        let mut text_left: usize = MAX_LOG_PAGE_BYTES;
        let mut spans_left: usize = MAX_LOG_PAGE_STYLE_SPANS;
        let mut rows: Vec<StyledIndexedLogLine> = Vec::new();
        let mut index: usize = 0;
        assert(self.lines@.take(0) =~= Seq::empty());
        assert(styled_row_views(rows@) =~= Seq::empty());
        while index < self.lines.len()
            invariant
                index <= self.lines@.len(),
                base == self.checkpoint().0,
                from == self.styling(),
                ansi@.wf(),
                budget == raw_budget(self.lines@.take(index as int)),
                styling_within(from, self.lines@.take(index as int), raw@, base as int),
                (Styling {
                    rows: styled_row_views(rows@),
                    ansi: ansi@,
                    cursor: cursor as int,
                    text_left: text_left as int,
                    spans_left: spans_left as int,
                }) == style_lines(from, self.lines@.take(index as int), raw@, base as int),
                text_left <= MAX_LOG_PAGE_BYTES,
                styled_text_total(styled_row_views(rows@)) + text_left == MAX_LOG_PAGE_BYTES,
                span_total(styled_row_views(rows@)) + spans_left == MAX_LOG_PAGE_STYLE_SPANS,
                forall|i: int|
                    0 <= i < rows@.len() ==> spans_fit_text(
                        (#[trigger] rows@[i]).style_spans@,
                        rows@[i].text@,
                    ),
            decreases self.lines@.len() - index,
        {
            let (line_id, line) = self.lines[index];
            proof {
                assert(self.lines@.take(index + 1).drop_last() =~= self.lines@.take(index as int));
                assert(self.lines@.take(index + 1).last() == self.lines@[index as int]);
            }
            let available: u64 = line.len();
            let raw_truncated = budget < available;
            let wanted: u64 = if raw_truncated {
                budget
            } else {
                available
            };
            let line_end: u64 = line.start.saturating_add(wanted);
            let between = match logical_slice(raw, base, cursor, line.start) {
                Ok(between) => between,
                Err(error) => {
                    proof {
                        lemma_styling_within_prefix(
                            from,
                            self.lines@,
                            raw@,
                            base as int,
                            index + 1,
                        );
                    }
                    return Err(error);
                },
            };
            let shown = match logical_slice(raw, base, line.start, line_end) {
                Ok(shown) => shown,
                Err(error) => {
                    proof {
                        lemma_styling_within_prefix(
                            from,
                            self.lines@,
                            raw@,
                            base as int,
                            index + 1,
                        );
                    }
                    return Err(error);
                },
            };
            proof {
                reveal(style_line);
            }
            ansi.advance(between);
            let decoded = ansi.decode_text(shown, text_left);
            let text = decoded.text;
            let mut style_spans = decoded.style_spans;
            text_left = text_left.saturating_sub(byte_len(text.as_str()));
            if style_spans.len() > spans_left {
                style_spans.truncate(spans_left);
            }
            let kept: usize = style_spans.len();
            spans_left = spans_left.saturating_sub(kept);
            let ghost before = styled_row_views(rows@);
            rows.push(
                StyledIndexedLogLine {
                    line_id,
                    text,
                    style_spans,
                    truncated: raw_truncated || decoded.truncated,
                },
            );
            proof {
                assert(styled_row_views(rows@) =~= before.push(rows@.last()@));
                assert(before.push(rows@.last()@).drop_last() =~= before);
            }
            cursor = line_end;
            budget = budget.saturating_sub(wanted);
            index += 1;
        }
        assert(self.lines@.take(self.lines@.len() as int) =~= self.lines@);
        Ok(
            JournalStyledLogPage {
                revision: self.revision,
                anchor_line_id: self.anchor_line_id,
                rows,
                total_line_count: self.total_line_count,
                has_before: self.has_before,
                has_after: self.has_after,
            },
        )
    }
}

// ---------------------------------------------------------------------------
// What a page shows of the stream.

/// Lines of a stream, one behind the other.
pub open spec fn lines_of_stream(lines: Seq<(u64, LineLocation)>, stream: Seq<u8>) -> bool {
    &&& forall|i: int|
        0 <= i < lines.len() ==> (#[trigger] lines[i]).1.start <= lines[i].1.end <= stream.len()
    &&& forall|i: int, j: int|
        0 <= i < j < lines.len() ==> (#[trigger] lines[i]).1.end < (#[trigger] lines[j]).1.start
}

/// A page's rows hold the bytes of the stream's lines, without the line
/// breaks; a row that is not whole says so.
pub proof fn law_rows_show_stream(
    lines: Seq<(u64, LineLocation)>,
    stream: Seq<u8>,
    base: int,
    raw_end: int,
    row: int,
)
    requires
        stream.len() <= u64::MAX,
        lines_of_stream(lines, stream),
        0 <= row < lines.len(),
        0 <= base <= lines[0].1.start,
        shown_end(lines.last().1, MAX_LOG_PAGE_BYTES as int) <= raw_end <= stream.len(),
    ensures
        ({
            let raw = stream.subrange(base, raw_end);
            let line = lines[row].1;
            let shown = line_rows(lines, raw, base).0[row];
            &&& rows_within(lines, raw, base)
            &&& line_rows(lines, raw, base).0.len() == lines.len()
            &&& shown.line_id == lines[row].0
            &&& shown.truncated ==> shown.bytes.is_prefix_of(
                stream.subrange(line.start as int, line.end as int),
            )
            &&& !shown.truncated ==> shown.bytes == without_return(
                stream.subrange(line.start as int, line.end as int),
            )
        }),
    decreases lines.len(),
{
    let raw = stream.subrange(base, raw_end);
    let front = lines.drop_last();
    let last = lines.last().1;
    let budget = line_rows(front, raw, base).1;
    lemma_row_budget(front, raw, base);
    if front.len() == 0 {
        assert(rows_within(front, raw, base));
    }
    if front.len() > 0 {
        let before = front.last().1;
        assert(front[0] == lines[0]);
        assert(front.last() == lines[lines.len() - 2]);
        assert(before.end < last.start);
        assert(lines_of_stream(front, stream)) by {
            assert forall|i: int| 0 <= i < front.len() implies (#[trigger] front[i]).1.start
                <= front[i].1.end <= stream.len() by {
                assert(front[i] == lines[i]);
            }
            assert forall|i: int, j: int| 0 <= i < j < front.len() implies (
            #[trigger] front[i]).1.end < (#[trigger] front[j]).1.start by {
                assert(front[i] == lines[i] && front[j] == lines[j]);
            }
        }
        law_rows_show_stream(
            front,
            stream,
            base,
            raw_end,
            if row < front.len() {
                row
            } else {
                0
            },
        );
    }
    assert(base <= last.start) by {
        if lines.len() > 1 {
            assert(lines[0].1.end < lines[lines.len() - 1].1.start);
        }
    }
    assert(lines[lines.len() - 1].1.start <= lines[lines.len() - 1].1.end <= stream.len());
    let end = shown_end(last, budget);
    let whole = stream.subrange(last.start as int, last.end as int);
    assert(slice_of(raw, base, last.start as int, end) =~= stream.subrange(last.start as int, end));
    assert(stream.subrange(last.start as int, end) =~= whole.take(end - last.start));
    assert(whole.take(end - last.start) =~= whole.subrange(0, end - last.start));
    if budget >= last.length() {
        assert(whole.take(end - last.start) =~= whole);
    }
    let rows = line_rows(lines, raw, base).0;
    if row < front.len() {
        assert(front[row] == lines[row]);
        assert(rows[row] == line_rows(front, raw, base).0[row]);
    } else {
        assert(rows[row] == line_row(lines.last(), raw, base, budget));
    }
}

proof fn lemma_row_budget(lines: Seq<(u64, LineLocation)>, raw: Seq<u8>, base: int)
    ensures
        0 <= line_rows(lines, raw, base).1 <= MAX_LOG_PAGE_BYTES,
        line_rows(lines, raw, base).0.len() == lines.len(),
    decreases lines.len(),
{
    if lines.len() > 0 {
        lemma_row_budget(lines.drop_last(), raw, base);
    }
}

/// The row shows the text that the line's bytes up to `end` decode to, from
/// the state that the whole stream before the line leaves, and as many of its
/// spans as there is `room` for.
#[verifier::opaque]
pub open spec fn row_decodes(
    row: StyledRowModel,
    line: (u64, LineLocation),
    stream: Seq<u8>,
    end: int,
    maximum: int,
    room: int,
) -> bool {
    let collected = collected_from(
        run(AnsiModel::initial(), stream.take(line.1.start as int)),
        stream.subrange(line.1.start as int, end),
        maximum,
    );
    &&& row.line_id == line.0
    &&& row.text == collected_text(collected)
    &&& row.spans == if collected_spans(collected).spans.len() > room {
        collected_spans(collected).spans.take(room)
    } else {
        collected_spans(collected).spans
    }
    &&& row.truncated == (end < line.1.end || collected_truncated(collected))
}

proof fn lemma_styled_row(
    at: Styling,
    line: (u64, LineLocation),
    budget: int,
    raw: Seq<u8>,
    base: int,
    stream: Seq<u8>,
)
    requires
        line.1.start <= line.1.end <= stream.len(),
        stream.len() <= u64::MAX,
        budget >= 0,
        at.spans_left >= 0,
        run(at.ansi, slice_of(raw, base, at.cursor, line.1.start as int)) == run(
            AnsiModel::initial(),
            stream.take(line.1.start as int),
        ),
        slice_of(raw, base, line.1.start as int, shown_end(line.1, budget)) == stream.subrange(
            line.1.start as int,
            shown_end(line.1, budget),
        ),
    ensures
        row_decodes(
            style_line(at, line, budget, raw, base).rows.last(),
            line,
            stream,
            shown_end(line.1, budget),
            at.text_left,
            at.spans_left,
        ),
        style_line(at, line, budget, raw, base).spans_left >= 0,
        style_line(at, line, budget, raw, base).rows.drop_last() == at.rows,
        style_line(at, line, budget, raw, base).rows.len() == at.rows.len() + 1,
        style_line(at, line, budget, raw, base).cursor == shown_end(line.1, budget),
        style_line(at, line, budget, raw, base).ansi == run(
            run(AnsiModel::initial(), stream.take(line.1.start as int)),
            stream.subrange(line.1.start as int, shown_end(line.1, budget)),
        ),
{
    reveal(row_decodes);
    reveal(style_line);
    assert(style_line(at, line, budget, raw, base).rows.drop_last() =~= at.rows);
}

/// A styled row decodes the line's bytes from the state that reading the
/// whole stream before it leaves: styles carry over from earlier output, and
/// a page that begins in the middle shows them.
#[verifier::spinoff_prover]
#[verifier::rlimit(60)]
pub proof fn law_styled_rows_show_stream(
    from: Styling,
    lines: Seq<(u64, LineLocation)>,
    stream: Seq<u8>,
    raw_end: int,
)
    requires
        stream.len() <= u64::MAX,
        lines_of_stream(lines, stream),
        from.rows.len() == 0,
        from.spans_left >= 0,
        0 <= from.cursor <= stream.len(),
        lines.len() > 0 ==> from.cursor <= lines[0].1.start,
        from.ansi == run(AnsiModel::initial(), stream.take(from.cursor)),
        lines.len() > 0 ==> shown_end(lines.last().1, raw_budget(lines.drop_last())) <= raw_end,
        from.cursor <= raw_end <= stream.len(),
    ensures
        ({
            let raw = stream.subrange(from.cursor, raw_end);
            let at = style_lines(from, lines, raw, from.cursor);
            &&& styling_within(from, lines, raw, from.cursor)
            &&& at.rows.len() == lines.len()
            &&& at.spans_left >= 0
            &&& at.ansi == run(AnsiModel::initial(), stream.take(at.cursor))
            &&& at.cursor == if lines.len() == 0 {
                from.cursor
            } else {
                shown_end(lines.last().1, raw_budget(lines.drop_last()))
            }
            &&& forall|row: int|
                0 <= row < lines.len() ==> row_decodes(
                    #[trigger] at.rows[row],
                    lines[row],
                    stream,
                    shown_end(lines[row].1, raw_budget(lines.take(row))),
                    style_lines(from, lines.take(row), raw, from.cursor).text_left,
                    style_lines(from, lines.take(row), raw, from.cursor).spans_left,
                )
        }),
    decreases lines.len(),
{
    let raw = stream.subrange(from.cursor, raw_end);
    if lines.len() > 0 {
        let front = lines.drop_last();
        let last = lines.last().1;
        lemma_raw_budget_bounds(front);
        assert(lines[lines.len() - 1].1.start <= last.end <= stream.len());
        assert(lines_of_stream(front, stream)) by {
            assert forall|i: int| 0 <= i < front.len() implies (#[trigger] front[i]).1.start
                <= front[i].1.end <= stream.len() by {
                assert(front[i] == lines[i]);
            }
            assert forall|i: int, j: int| 0 <= i < j < front.len() implies (
            #[trigger] front[i]).1.end < (#[trigger] front[j]).1.start by {
                assert(front[i] == lines[i] && front[j] == lines[j]);
            }
        }
        if front.len() > 0 {
            assert(front[0] == lines[0]);
            assert(front.last() == lines[lines.len() - 2]);
            assert(lines[lines.len() - 2].1.end < lines[lines.len() - 1].1.start);
            assert(lines[lines.len() - 2].1.start <= lines[lines.len() - 2].1.end);
            assert(from.cursor <= last.start) by {
                assert(lines[0].1.start <= lines[0].1.end);
                assert(lines[0].1.end < lines[lines.len() - 1].1.start);
            }
        }
        law_styled_rows_show_stream(from, front, stream, raw_end);
        let at = style_lines(from, front, raw, from.cursor);
        let start = last.start as int;
        let end = shown_end(last, raw_budget(front));
        let between = slice_of(raw, from.cursor, at.cursor, start);
        let input = slice_of(raw, from.cursor, start, end);
        assert(at.cursor <= start);
        assert(between =~= stream.subrange(at.cursor, start));
        assert(input =~= stream.subrange(start, end));
        assert(stream.take(at.cursor) + between =~= stream.take(start));
        law_run_splits(AnsiModel::initial(), stream.take(at.cursor), between);
        assert(stream.take(start) + input =~= stream.take(end));
        law_run_splits(AnsiModel::initial(), stream.take(start), input);
        let after = style_lines(from, lines, raw, from.cursor);
        assert(after == style_line(at, lines.last(), raw_budget(front), raw, from.cursor));
        lemma_styled_row(at, lines.last(), raw_budget(front), raw, from.cursor, stream);
        assert forall|row: int| 0 <= row < lines.len() implies row_decodes(
            #[trigger] after.rows[row],
            lines[row],
            stream,
            shown_end(lines[row].1, raw_budget(lines.take(row))),
            style_lines(from, lines.take(row), raw, from.cursor).text_left,
            style_lines(from, lines.take(row), raw, from.cursor).spans_left,
        ) by {
            if row < front.len() {
                assert(after.rows[row] == after.rows.drop_last()[row]);
                assert(front[row] == lines[row]);
                assert(front.take(row) =~= lines.take(row));
            } else {
                assert(lines.take(row) =~= front);
            }
        }
    }
}

/// The lines that a plan names are lines of the stream that the index
/// describes.
pub proof fn law_planned_lines_are_of_stream(
    index: LineIndexModel,
    loaded: Map<int, Seq<u64>>,
    stream: Seq<u8>,
    start: int,
    end: int,
)
    requires
        index.wf(),
        index.describes(loaded, stream),
        0 <= start <= end <= stream_line_count(stream),
    ensures
        window_lines(index, loaded, start, end).len() == end - start,
        lines_of_stream(window_lines(index, loaded, start, end), stream),
        forall|i: int|
            0 <= i < end - start ==> #[trigger] window_lines(index, loaded, start, end)[i] == (
                (start + i + 1) as u64,
                stream_line(stream, start + i),
            ),
    decreases end - start,
{
    let lines = window_lines(index, loaded, start, end);
    if start < end {
        law_planned_lines_are_of_stream(index, loaded, stream, start, end - 1);
        law_index_finds_lines(index, loaded, stream, end - 1);
        let front = window_lines(index, loaded, start, end - 1);
        let line = stream_line(stream, end - 1);
        lemma_positions_below(stream, 0x0a);
        assert(lines =~= front.push((end as u64, line)));
        assert forall|i: int, j: int| 0 <= i < j < lines.len() implies (#[trigger] lines[i]).1.end
            < (#[trigger] lines[j]).1.start by {
            if j < front.len() {
                assert(lines[i] == front[i] && lines[j] == front[j]);
            } else {
                assert(lines[i] == front[i]);
                let found = positions(stream, 0x0a);
                assert(start + i <= end - 2);
                if start + i < end - 2 {
                    assert(found[start + i] < found[end - 2]);
                }
            }
        }
        assert forall|i: int| 0 <= i < lines.len() implies (#[trigger] lines[i]).1.start
            <= lines[i].1.end <= stream.len() by {
            if i < front.len() {
                assert(lines[i] == front[i]);
            }
        }
        assert forall|i: int| 0 <= i < end - start implies #[trigger] lines[i] == (
            (start + i + 1) as u64,
            stream_line(stream, start + i),
        ) by {
            if i < front.len() {
                assert(lines[i] == front[i]);
            }
        }
    }
}


// ---------------------------------------------------------------------------
// Stored blocks that a page needs.

/// The blocks of `cold` that have not been read back.
pub open spec fn not_loaded(
    cold: Seq<(usize, ColdLineBlock)>,
    loaded: Map<int, Seq<u64>>,
) -> Seq<(usize, ColdLineBlock)>
    decreases cold.len(),
{
    if cold.len() == 0 {
        Seq::empty()
    } else {
        let before = not_loaded(cold.drop_last(), loaded);
        if loaded.contains_key(cold.last().0 as int) {
            before
        } else {
            before.push(cold.last())
        }
    }
}

/// The stored blocks that the page around `anchor` still lacks.
pub open spec fn missing_blocks(
    index: LineIndexModel,
    loaded: Map<int, Seq<u64>>,
    anchor: int,
    rows_before: int,
    rows_after: int,
) -> Seq<(usize, ColdLineBlock)> {
    let (start, end) = requested_window(index.line_count(), anchor, rows_before, rows_after);
    not_loaded(cold_for(index.lines, start, end), loaded)
}

/// What to do next for a page.
#[derive(Debug)]
pub enum PageStep {
    Load(Vec<(usize, ColdLineBlock)>),
    Read(PageReadPlan),
}

impl JournalLineIndexState {
    /// The line that a page is about, settled before any block is loaded;
    /// `None` where there are no lines.
    pub fn page_anchor(&self, anchor_line_id: Option<u64>) -> (anchor: Result<
        Option<u64>,
        JournalError,
    >)
        requires
            self@.wf(),
        ensures
            match anchor {
                Ok(None) => self@.line_count() == 0,
                Ok(Some(id)) => self@.line_count() > 0 && anchor_index(
                    self@.line_count(),
                    anchor_line_id,
                ) == Some(id - 1),
                Err(error) => self@.line_count() > 0 && anchor_index(
                    self@.line_count(),
                    anchor_line_id,
                ) is None && match anchor_line_id {
                    Some(id) => unknown_line(error, id),
                    None => false,
                },
            },
    {
        match requested_line_range(self.line_count(), anchor_line_id, 0, 0) {
            Err(error) => Err(error),
            Ok(None) => Ok(None),
            Ok(Some(range)) => Ok(Some(range.anchor_line_id)),
        }
    }

    /// Plans a page once every stored block that it needs has been read back;
    /// until then, names the blocks to read.
    pub fn page_plan(
        &self,
        anchor_line_id: Option<u64>,
        rows_before: usize,
        rows_after: usize,
        loaded: &Vec<LoadedLineBlock>,
    ) -> (step: Result<PageStep, JournalError>)
        requires
            self@.wf(),
        ensures
            match anchor_index(self@.line_count(), anchor_line_id) {
                Some(anchor) if self@.line_count() > 0 => {
                    let missing = missing_blocks(
                        self@,
                        loaded_map(loaded@),
                        anchor,
                        rows_before as int,
                        rows_after as int,
                    );
                    match step {
                        Ok(PageStep::Load(blocks)) => missing.len() > 0 && blocks@ == missing,
                        Ok(PageStep::Read(plan)) => missing.len() == 0 && plan_shows(
                            plan,
                            self@,
                            loaded_map(loaded@),
                            anchor,
                            rows_before as int,
                            rows_after as int,
                        ),
                        Err(_) => false,
                    }
                },
                _ => if self@.line_count() == 0 {
                    match step {
                        Ok(PageStep::Read(plan)) => plan_is_empty(plan, self@),
                        _ => false,
                    }
                } else {
                    match (step, anchor_line_id) {
                        (Err(error), Some(id)) => unknown_line(error, id),
                        _ => false,
                    }
                },
            },
    {
        let ghost blocks = loaded_map(loaded@);
        let range = match requested_line_range(
            self.line_count(),
            anchor_line_id,
            rows_before,
            rows_after,
        ) {
            Err(error) => return Err(error),
            Ok(range) => range,
        };
        if let Some(range) = range {
            let cold = self.completed_lines.cold_for_range(range.start, range.end);
            let mut missing: Vec<(usize, ColdLineBlock)> = Vec::new();
            let mut index: usize = 0;
            assert(cold@.take(0) =~= Seq::empty());
            while index < cold.len()
                invariant
                    index <= cold@.len(),
                    blocks == loaded_map(loaded@),
                    missing@ == not_loaded(cold@.take(index as int), blocks),
                decreases cold@.len() - index,
            {
                assert(cold@.take(index + 1).drop_last() =~= cold@.take(index as int));
                if find_loaded(loaded, cold[index].0).is_none() {
                    missing.push(cold[index]);
                }
                index += 1;
            }
            assert(cold@.take(cold@.len() as int) =~= cold@);
            if missing.len() > 0 {
                return Ok(PageStep::Load(missing));
            }
        }
        match PageReadPlan::from_state(self, anchor_line_id, rows_before, rows_after, loaded) {
            Ok(plan) => Ok(PageStep::Read(plan)),
            Err(error) => Err(error),
        }
    }
}

} // verus!
