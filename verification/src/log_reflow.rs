//! Pages of log rows, and how their rows break into the rows of a screen.
use crate::outside::{cuts_text, find_graphemes, grapheme_starts, measure_width, text_width};
use crate::terminal::Style;
use crate::text::{byte_len, lemma_boundary_at_ends, lemma_utf8_valid, slice_text, text_between, utf8};
use std::ops::Range;
use std::sync::Arc;
use vstd::prelude::*;
use vstd::utf8::is_char_boundary;

verus! {

pub const MAX_LOG_PAGE_ROWS: usize = 4096;

pub const MAX_LOG_PAGE_TEXT_BYTES: usize = 4194304;

pub const MAX_LOG_PAGE_STYLE_SPANS: usize = 16384;

pub const MAX_LOG_REFLOW_ROWS: usize = 262144;

#[derive(Clone, Copy, Debug, PartialEq, Eq, Hash, Structural)]
pub struct LogSourceId(pub u64);

#[derive(Debug, PartialEq, Eq)]
pub struct LogStyleSpan {
    pub byte_range: Range<u32>,
    pub style: Style,
}

impl Clone for LogStyleSpan {
    fn clone(&self) -> (span: Self)
        ensures
            span == *self,
    {
        LogStyleSpan { byte_range: self.byte_range.start..self.byte_range.end, style: self.style }
    }
}

#[derive(Clone, Debug, PartialEq, Eq)]
pub struct LogRow {
    pub line_id: u64,
    pub text: String,
    pub style_spans: Vec<LogStyleSpan>,
    pub truncated: bool,
}

#[derive(Clone, Debug, PartialEq, Eq)]
pub struct LogPage {
    pub source_id: LogSourceId,
    pub revision: u64,
    pub anchor_line_id: u64,
    pub rows: Vec<LogRow>,
    pub total_line_count: u64,
    pub has_before: bool,
    pub has_after: bool,
}

/// One row of the screen: a range of a log row, in bytes and in cells.
#[derive(Clone, Copy, Debug, PartialEq, Eq, Structural)]
pub struct LogVisualRow {
    pub logical_row_index: u32,
    pub start_byte: u32,
    pub end_byte: u32,
    pub start_cell: u32,
    pub end_cell: u32,
}

#[derive(Clone, Copy, Debug, PartialEq, Eq, Structural)]
pub enum LogSurfaceError {
    TooManyRows(usize),
    UnorderedRows,
    InvalidTotal { total: u64, page_rows: usize },
    TooManyTextBytes(usize),
    TooManyStyleSpans(usize),
    InvalidRowText { line_id: u64 },
    InvalidStyleSpan { line_id: u64 },
    DeclaredAnchorMissing(u64),
    AnchorMissing(u64),
    LineTooWide(u64),
    TooManyReflowRows(usize),
}

// ---------------------------------------------------------------------------
// Lines of a page.

/// The rows are in the order of their lines.
pub open spec fn ordered_rows(rows: Seq<LogRow>) -> bool {
    forall|i: int, j: int|
        0 <= i < j < rows.len() ==> (#[trigger] rows[i]).line_id < (#[trigger] rows[j]).line_id
}

/// The row that shows a line.
pub open spec fn line_index(rows: Seq<LogRow>, line_id: u64) -> Option<int> {
    if exists|i: int| 0 <= i < rows.len() && (#[trigger] rows[i]).line_id == line_id {
        Some(choose|i: int| 0 <= i < rows.len() && (#[trigger] rows[i]).line_id == line_id)
    } else {
        None
    }
}

pub proof fn lemma_line_index(rows: Seq<LogRow>, at: int)
    requires
        ordered_rows(rows),
        0 <= at < rows.len(),
    ensures
        line_index(rows, rows[at].line_id) == Some(at),
{
    let found = line_index(rows, rows[at].line_id)->0;
    assert(rows[at].line_id == rows[at].line_id);
    assert(rows[found].line_id == rows[at].line_id);
}

/// The row that shows a line.
pub fn find_row(rows: &Vec<LogRow>, line_id: u64) -> (found: Option<usize>)
    requires
        ordered_rows(rows@),
    ensures
        match found {
            Some(at) => at < rows@.len() && line_index(rows@, line_id) == Some(at as int)
                && rows@[at as int].line_id == line_id,
            None => line_index(rows@, line_id) is None,
        },
{
    let mut low: usize = 0;
    let mut high: usize = rows.len();
    while low < high
        invariant
            ordered_rows(rows@),
            low <= high <= rows@.len(),
            forall|i: int| 0 <= i < low ==> (#[trigger] rows@[i]).line_id < line_id,
            forall|i: int| high <= i < rows@.len() ==> (#[trigger] rows@[i]).line_id > line_id,
        decreases high - low,
    {
        let middle: usize = low + (high - low) / 2;
        let current: u64 = rows[middle].line_id;
        if current == line_id {
            proof {
                lemma_line_index(rows@, middle as int);
            }
            return Some(middle);
        }
        if current < line_id {
            low = middle + 1;
        } else {
            high = middle;
        }
    }
    None
}

// ---------------------------------------------------------------------------
// What a page must be like.

/// The bytes of the rows' texts.
pub open spec fn text_total(rows: Seq<LogRow>) -> int
    decreases rows.len(),
{
    if rows.len() == 0 {
        0
    } else {
        text_total(rows.drop_last()) + utf8(rows.last().text@).len()
    }
}

/// The spans of the rows.
pub open spec fn span_total(rows: Seq<LogRow>) -> int
    decreases rows.len(),
{
    if rows.len() == 0 {
        0
    } else {
        span_total(rows.drop_last()) + rows.last().style_spans@.len()
    }
}

/// A number, or the largest one that a `usize` holds.
pub open spec fn capped(number: int) -> usize {
    if number <= usize::MAX {
        number as usize
    } else {
        usize::MAX
    }
}

/// The control codes of Unicode.
pub open spec fn control_code(character: char) -> bool {
    character as u32 <= 0x1f || 0x7f <= character as u32 <= 0x9f
}

pub fn is_control(character: char) -> (yes: bool)
    ensures
        yes == control_code(character),
{
    let code: u32 = character as u32;
    code <= 0x1f || 0x7f <= code && code <= 0x9f
}

/// The text is one line: tabs are its only control codes.
pub open spec fn one_line(text: Seq<char>) -> bool {
    forall|i: int| 0 <= i < text.len() ==> !control_code(#[trigger] text[i]) || text[i] == '\t'
}

/// A place between two characters as a reader sees them.
pub open spec fn grapheme_boundary(text: Seq<char>, offset: int) -> bool {
    offset == utf8(text).len() || exists|i: int|
        0 <= i < grapheme_starts(text).len() && #[trigger] grapheme_starts(text)[i] == offset
}

/// A span begins where the one before it ends or later, and covers whole
/// characters as a reader sees them.
pub open spec fn span_fits(row: LogRow, at: int) -> bool {
    let spans = row.style_spans@;
    let range = spans[at].byte_range;
    &&& range.start < range.end
    &&& at > 0 ==> spans[at - 1].byte_range.end <= range.start
    &&& grapheme_boundary(row.text@, range.start as int)
    &&& grapheme_boundary(row.text@, range.end as int)
}

pub open spec fn spans_fit(row: LogRow) -> bool {
    forall|i: int| 0 <= i < row.style_spans@.len() ==> #[trigger] span_fits(row, i)
}

/// What is wrong with the first row that something is wrong with.
pub open spec fn row_fault(rows: Seq<LogRow>) -> Option<LogSurfaceError>
    decreases rows.len(),
{
    if rows.len() == 0 {
        None
    } else {
        let row = rows.last();
        match row_fault(rows.drop_last()) {
            Some(error) => Some(error),
            None => if !one_line(row.text@) {
                Some(LogSurfaceError::InvalidRowText { line_id: row.line_id })
            } else if !spans_fit(row) {
                Some(LogSurfaceError::InvalidStyleSpan { line_id: row.line_id })
            } else {
                None
            },
        }
    }
}

/// What is wrong with a page.
pub open spec fn page_fault(page: LogPage) -> Option<LogSurfaceError> {
    let rows = page.rows@;
    if rows.len() > MAX_LOG_PAGE_ROWS {
        Some(LogSurfaceError::TooManyRows(rows.len() as usize))
    } else if !ordered_rows(rows) {
        Some(LogSurfaceError::UnorderedRows)
    } else if page.total_line_count < rows.len() {
        Some(
            LogSurfaceError::InvalidTotal {
                total: page.total_line_count,
                page_rows: rows.len() as usize,
            },
        )
    } else if text_total(rows) > MAX_LOG_PAGE_TEXT_BYTES {
        Some(LogSurfaceError::TooManyTextBytes(capped(text_total(rows))))
    } else if span_total(rows) > MAX_LOG_PAGE_STYLE_SPANS {
        Some(LogSurfaceError::TooManyStyleSpans(capped(span_total(rows))))
    } else if row_fault(rows) is Some {
        row_fault(rows)
    } else if rows.len() > 0 && line_index(rows, page.anchor_line_id) is None {
        Some(LogSurfaceError::DeclaredAnchorMissing(page.anchor_line_id))
    } else {
        None
    }
}

pub open spec fn valid_page(page: LogPage) -> bool {
    page_fault(page) is None
}

proof fn lemma_totals_grow(rows: Seq<LogRow>, count: int)
    requires
        0 <= count <= rows.len(),
    ensures
        0 <= text_total(rows.take(count)) <= text_total(rows),
        0 <= span_total(rows.take(count)) <= span_total(rows),
    decreases rows.len() - count, rows.len(),
{
    if count == rows.len() {
        assert(rows.take(count) =~= rows);
        if rows.len() > 0 {
            lemma_totals_grow(rows.drop_last(), count - 1);
            assert(rows.drop_last().take(count - 1) =~= rows.drop_last());
        }
    } else {
        lemma_totals_grow(rows, count + 1);
        let prefix = rows.take(count + 1);
        assert(prefix.drop_last() =~= rows.take(count));
        lemma_totals_grow(rows.take(count), count);
        assert(rows.take(count).take(count) =~= rows.take(count));
    }
}

/// A text of a valid page is no longer than the page may be.
pub proof fn lemma_row_in_page(rows: Seq<LogRow>, at: int)
    requires
        0 <= at < rows.len(),
    ensures
        utf8(rows[at].text@).len() <= text_total(rows),
{
    lemma_totals_grow(rows, at);
    lemma_totals_grow(rows, at + 1);
    assert(rows.take(at + 1).drop_last() =~= rows.take(at));
}

proof fn lemma_row_fault_first(rows: Seq<LogRow>, count: int)
    requires
        0 <= count <= rows.len(),
        row_fault(rows.take(count)) is Some,
    ensures
        row_fault(rows) == row_fault(rows.take(count)),
    decreases rows.len() - count,
{
    if count == rows.len() {
        assert(rows.take(count) =~= rows);
    } else {
        assert(rows.take(count + 1).drop_last() =~= rows.take(count));
        lemma_row_fault_first(rows, count + 1);
    }
}

fn is_one_line(text: &str) -> (yes: bool)
    ensures
        yes == one_line(text@),
{
    for character in iter: text.chars()
        invariant
            iter.seq() == text@,
            forall|i: int|
                0 <= i < iter.index() ==> !control_code(#[trigger] text@[i]) || text@[i] == '\t',
    {
        if is_control(character) && character != '\t' {
            assert(text@[iter.index()] == character);
            return false;
        }
    }
    true
}

/// Whether `offset` is among the sorted `starts`.
fn holds_start(starts: &Vec<usize>, offset: usize) -> (yes: bool)
    requires
        forall|i: int, j: int| 0 <= i < j < starts@.len() ==> starts@[i] < starts@[j],
    ensures
        yes == exists|i: int| 0 <= i < starts@.len() && #[trigger] starts@[i] == offset,
{
    let mut low: usize = 0;
    let mut high: usize = starts.len();
    while low < high
        invariant
            forall|i: int, j: int| 0 <= i < j < starts@.len() ==> starts@[i] < starts@[j],
            low <= high <= starts@.len(),
            forall|i: int| 0 <= i < low ==> #[trigger] starts@[i] < offset,
            forall|i: int| high <= i < starts@.len() ==> #[trigger] starts@[i] > offset,
        decreases high - low,
    {
        let middle: usize = low + (high - low) / 2;
        let current: usize = starts[middle];
        if current == offset {
            return true;
        }
        if current < offset {
            low = middle + 1;
        } else {
            high = middle;
        }
    }
    false
}

fn check_spans(row: &LogRow) -> (fit: bool)
    ensures
        fit == spans_fit(*row),
{
    let starts = find_graphemes(row.text.as_str());
    let length: usize = byte_len(row.text.as_str());
    let mut previous_end: usize = 0;
    let mut index: usize = 0;
    while index < row.style_spans.len()
        invariant
            index <= row.style_spans@.len(),
            starts@ == grapheme_starts(row.text@),
            cuts_text(starts@, row.text@),
            length == utf8(row.text@).len(),
            previous_end == if index > 0 {
                row.style_spans@[index - 1].byte_range.end as usize
            } else {
                0
            },
            forall|i: int| 0 <= i < index ==> #[trigger] span_fits(*row, i),
        decreases row.style_spans@.len() - index,
    {
        let start: usize = row.style_spans[index].byte_range.start as usize;
        let end: usize = row.style_spans[index].byte_range.end as usize;
        let start_fits = start == length || holds_start(&starts, start);
        let end_fits = end == length || holds_start(&starts, end);
        if start >= end || start < previous_end || !start_fits || !end_fits {
            assert(!span_fits(*row, index as int));
            return false;
        }
        assert(span_fits(*row, index as int));
        previous_end = end;
        index += 1;
    }
    true
}

/// Adds up to the largest `usize`.
fn capped_add(total: usize, part: usize) -> (sum: usize)
    ensures
        sum == capped(total + part),
{
    if part <= usize::MAX - total {
        total + part
    } else {
        usize::MAX
    }
}

pub fn validate_page(page: &LogPage) -> (checked: Result<(), LogSurfaceError>)
    ensures
        match page_fault(*page) {
            None => checked is Ok,
            Some(error) => checked == Err::<(), LogSurfaceError>(error),
        },
{
    let count: usize = page.rows.len();
    if count > MAX_LOG_PAGE_ROWS {
        return Err(LogSurfaceError::TooManyRows(count));
    }
    let mut index: usize = 1;
    while index < count
        invariant
            1 <= index,
            index <= count || count == 0 && index == 1,
            count == page.rows@.len(),
            count <= MAX_LOG_PAGE_ROWS,
            forall|i: int, j: int|
                0 <= i < j < index && j < count ==> (#[trigger] page.rows@[i]).line_id < (
                #[trigger] page.rows@[j]).line_id,
        decreases count - index,
    {
        if page.rows[index - 1].line_id >= page.rows[index].line_id {
            assert(!ordered_rows(page.rows@));
            return Err(LogSurfaceError::UnorderedRows);
        }
        index += 1;
    }
    assert(ordered_rows(page.rows@));
    if page.total_line_count < count as u64 {
        return Err(
            LogSurfaceError::InvalidTotal { total: page.total_line_count, page_rows: count },
        );
    }
    let mut text_bytes: usize = 0;
    let mut spans: usize = 0;
    let mut index: usize = 0;
    while index < count
        invariant
            index <= count == page.rows@.len(),
            text_bytes == capped(text_total(page.rows@.take(index as int))),
            spans == capped(span_total(page.rows@.take(index as int))),
        decreases count - index,
    {
        proof {
            assert(page.rows@.take(index + 1).drop_last() =~= page.rows@.take(index as int));
            lemma_totals_grow(page.rows@, index as int);
            lemma_totals_grow(page.rows@, index + 1);
        }
        text_bytes = capped_add(text_bytes, byte_len(page.rows[index].text.as_str()));
        spans = capped_add(spans, page.rows[index].style_spans.len());
        index += 1;
    }
    proof {
        assert(page.rows@.take(count as int) =~= page.rows@);
        lemma_totals_grow(page.rows@, count as int);
    }
    if text_bytes > MAX_LOG_PAGE_TEXT_BYTES {
        return Err(LogSurfaceError::TooManyTextBytes(text_bytes));
    }
    if spans > MAX_LOG_PAGE_STYLE_SPANS {
        return Err(LogSurfaceError::TooManyStyleSpans(spans));
    }
    let mut index: usize = 0;
    while index < count
        invariant
            index <= count == page.rows@.len(),
            row_fault(page.rows@.take(index as int)) is None,
            count <= MAX_LOG_PAGE_ROWS,
            ordered_rows(page.rows@),
            page.total_line_count >= count,
            text_total(page.rows@) <= MAX_LOG_PAGE_TEXT_BYTES,
            span_total(page.rows@) <= MAX_LOG_PAGE_STYLE_SPANS,
        decreases count - index,
    {
        assert(page.rows@.take(index + 1).drop_last() =~= page.rows@.take(index as int));
        let row = &page.rows[index];
        index += 1;
        if !is_one_line(row.text.as_str()) {
            proof {
                lemma_row_fault_first(page.rows@, index as int);
            }
            return Err(LogSurfaceError::InvalidRowText { line_id: row.line_id });
        }
        if !check_spans(row) {
            proof {
                lemma_row_fault_first(page.rows@, index as int);
            }
            return Err(LogSurfaceError::InvalidStyleSpan { line_id: row.line_id });
        }
    }
    assert(page.rows@.take(count as int) =~= page.rows@);
    if count > 0 && find_row(&page.rows, page.anchor_line_id).is_none() {
        return Err(LogSurfaceError::DeclaredAnchorMissing(page.anchor_line_id));
    }
    Ok(())
}

// ---------------------------------------------------------------------------
// Breaking rows.

/// Where a character of the text, as a reader sees it, ends.
pub open spec fn cluster_end(text: Seq<char>, at: int) -> int {
    let starts = grapheme_starts(text);
    if at + 1 < starts.len() {
        starts[at + 1] as int
    } else {
        utf8(text).len() as int
    }
}

/// A character of the text as a reader sees it.
pub open spec fn cluster(text: Seq<char>, at: int) -> Seq<char> {
    text_between(text, grapheme_starts(text)[at] as int, cluster_end(text, at))
}

/// The cells that a character takes: a tab reaches to the next multiple of
/// eight, anything else takes one cell or two.
pub open spec fn cluster_cells(cluster: Seq<char>, cell: int) -> int {
    if cluster == seq!['\t'] {
        8 - cell % 8
    } else if text_width(cluster) <= 1 {
        1
    } else {
        2
    }
}

/// The cells of a character that begins at `cell`.
pub fn cells_of(cluster: &str, cell: u32) -> (cells: u32)
    ensures
        cells == cluster_cells(cluster@, cell as int),
        1 <= cells <= 8,
{
    let bytes = cluster.as_bytes();
    let tab = bytes.len() == 1 && bytes[0] == 9;
    proof {
        lemma_tab(cluster@);
    }
    if tab {
        8 - cell % 8
    } else if measure_width(cluster) <= 1 {
        1
    } else {
        2
    }
}

proof fn lemma_tab(text: Seq<char>)
    ensures
        text == seq!['\t'] <==> utf8(text) == seq![9u8],
{
    let tab = seq!['\t'];
    assert(vstd::utf8::is_ascii_chars(tab));
    vstd::utf8::is_ascii_chars_encode_utf8(tab);
    assert(utf8(tab) =~= seq![9u8]);
    if utf8(text) == seq![9u8] {
        crate::text::lemma_utf8_injective(text, tab);
    }
}

/// The state of breaking one row: the rows so far, where the open one begins
/// and the next cell.
#[verifier::ext_equal]
pub struct LineFlow {
    pub rows: Seq<LogVisualRow>,
    pub start_byte: int,
    pub start_cell: int,
    pub cell: int,
    pub fault: Option<LogSurfaceError>,
}

/// Ends the open row at `end_byte`.
pub open spec fn broken(flow: LineFlow, logical: int, end_byte: int) -> LineFlow {
    if flow.rows.len() >= MAX_LOG_REFLOW_ROWS {
        LineFlow {
            fault: Some(LogSurfaceError::TooManyReflowRows((flow.rows.len() + 1) as usize)),
            ..flow
        }
    } else {
        LineFlow {
            rows: flow.rows.push(
                LogVisualRow {
                    logical_row_index: logical as u32,
                    start_byte: flow.start_byte as u32,
                    end_byte: end_byte as u32,
                    start_cell: flow.start_cell as u32,
                    end_cell: flow.cell as u32,
                },
            ),
            start_byte: end_byte,
            start_cell: flow.cell,
            ..flow
        }
    }
}

/// Adds a character of `cells` cells that begins at byte `at`.
pub open spec fn with_cluster(
    flow: LineFlow,
    logical: int,
    line_id: u64,
    columns: int,
    at: int,
    cells: int,
) -> LineFlow {
    if flow.fault is Some {
        flow
    } else {
        let opened = if flow.cell > flow.start_cell && flow.cell - flow.start_cell + cells
            > columns {
            broken(flow, logical, at)
        } else {
            flow
        };
        if opened.fault is Some {
            opened
        } else if opened.cell + cells > u32::MAX {
            LineFlow { fault: Some(LogSurfaceError::LineTooWide(line_id)), ..opened }
        } else {
            LineFlow { cell: opened.cell + cells, ..opened }
        }
    }
}

/// The state behind the first `count` characters of a row.
pub open spec fn flow_line(
    rows: Seq<LogVisualRow>,
    logical: int,
    row: LogRow,
    columns: int,
    count: nat,
) -> LineFlow
    decreases count,
{
    if count == 0 {
        LineFlow { rows, start_byte: 0, start_cell: 0, cell: 0, fault: None }
    } else {
        let before = flow_line(rows, logical, row, columns, (count - 1) as nat);
        with_cluster(
            before,
            logical,
            row.line_id,
            columns,
            grapheme_starts(row.text@)[count - 1] as int,
            cluster_cells(cluster(row.text@, count - 1), before.cell),
        )
    }
}

/// A row broken to the end.
pub open spec fn flow_row(
    rows: Seq<LogVisualRow>,
    logical: int,
    row: LogRow,
    columns: int,
) -> LineFlow {
    let flow = flow_line(rows, logical, row, columns, grapheme_starts(row.text@).len());
    if flow.fault is Some {
        flow
    } else {
        broken(flow, logical, utf8(row.text@).len() as int)
    }
}

/// The rows of the screen that the rows of a page give, or what kept them from
/// being made.
pub open spec fn flow_rows(rows: Seq<LogRow>, columns: int) -> Result<
    Seq<LogVisualRow>,
    LogSurfaceError,
>
    decreases rows.len(),
{
    if rows.len() == 0 {
        Ok(Seq::empty())
    } else {
        match flow_rows(rows.drop_last(), columns) {
            Err(error) => Err(error),
            Ok(before) => {
                let flow = flow_row(before, rows.len() - 1, rows.last(), columns);
                match flow.fault {
                    Some(error) => Err(error),
                    None => Ok(flow.rows),
                }
            },
        }
    }
}

proof fn lemma_flow_fault_stays(
    rows: Seq<LogVisualRow>,
    logical: int,
    row: LogRow,
    columns: int,
    count: nat,
    total: nat,
)
    requires
        count <= total,
        flow_line(rows, logical, row, columns, count).fault is Some,
    ensures
        flow_line(rows, logical, row, columns, total) == flow_line(
            rows,
            logical,
            row,
            columns,
            count,
        ),
    decreases total,
{
    if count < total {
        lemma_flow_fault_stays(rows, logical, row, columns, count, (total - 1) as nat);
    }
}

proof fn lemma_rows_fault_stays(rows: Seq<LogRow>, columns: int, count: int)
    requires
        0 <= count <= rows.len(),
        flow_rows(rows.take(count), columns) is Err,
    ensures
        flow_rows(rows, columns) == flow_rows(rows.take(count), columns),
    decreases rows.len() - count,
{
    if count == rows.len() {
        assert(rows.take(count) =~= rows);
    } else {
        assert(rows.take(count + 1).drop_last() =~= rows.take(count));
        lemma_rows_fault_stays(rows, columns, count + 1);
    }
}

fn push_visual_row(
    rows: &mut Vec<LogVisualRow>,
    logical_row_index: usize,
    start_byte: usize,
    end_byte: usize,
    start_cell: u32,
    end_cell: u32,
) -> (pushed: Result<(), LogSurfaceError>)
    requires
        logical_row_index <= u32::MAX,
        start_byte <= u32::MAX,
        end_byte <= u32::MAX,
    ensures
        old(rows)@.len() < MAX_LOG_REFLOW_ROWS ==> pushed is Ok && final(rows)@ == old(rows)@.push(
            LogVisualRow {
                logical_row_index: logical_row_index as u32,
                start_byte: start_byte as u32,
                end_byte: end_byte as u32,
                start_cell,
                end_cell,
            },
        ),
        old(rows)@.len() >= MAX_LOG_REFLOW_ROWS ==> *final(rows) == *old(rows) && pushed == Err::<
            (),
            LogSurfaceError,
        >(LogSurfaceError::TooManyReflowRows(capped((old(rows)@.len() + 1) as int))),
{
    if rows.len() >= MAX_LOG_REFLOW_ROWS {
        return Err(LogSurfaceError::TooManyReflowRows(capped_add(rows.len(), 1)));
    }
    rows.push(
        LogVisualRow {
            logical_row_index: logical_row_index as u32,
            start_byte: start_byte as u32,
            end_byte: end_byte as u32,
            start_cell,
            end_cell,
        },
    );
    Ok(())
}

/// One row of the screen follows another: it goes on with the same log row
/// where the other stopped, or begins the next one behind the end of the other.
pub open spec fn follows(before: LogVisualRow, next: LogVisualRow, page: Seq<LogRow>) -> bool {
    if before.logical_row_index == next.logical_row_index {
        &&& next.start_byte == before.end_byte
        &&& next.start_cell == before.end_cell
        &&& before.start_cell < before.end_cell
    } else {
        &&& next.logical_row_index == before.logical_row_index + 1
        &&& next.start_byte == 0
        &&& next.start_cell == 0
        &&& before.end_byte == utf8(page[before.logical_row_index as int].text@).len()
    }
}

/// Each row of the screen follows the one before it, from the beginning of the
/// first log row.
pub open spec fn chained(rows: Seq<LogVisualRow>, page: Seq<LogRow>) -> bool {
    &&& rows.len() > 0 ==> rows[0].logical_row_index == 0 && rows[0].start_byte == 0
        && rows[0].start_cell == 0
    &&& forall|i: int, j: int|
        0 <= i && j == i + 1 && j < rows.len() ==> follows(
            #[trigger] rows[i],
            #[trigger] rows[j],
            page,
        )
}

/// The rows of the screen show the log rows whole and in order.
pub open spec fn covers(rows: Seq<LogVisualRow>, page: Seq<LogRow>) -> bool {
    &&& chained(rows, page)
    &&& rows.len() == 0 <==> page.len() == 0
    &&& rows.len() > 0 ==> rows.last().logical_row_index == page.len() - 1
        && rows.last().end_byte == utf8(page.last().text@).len()
}

/// The range is one character as a reader sees it.
pub open spec fn one_cluster(text: Seq<char>, start: int, end: int) -> bool {
    exists|k: int|
        0 <= k < grapheme_starts(text).len() && #[trigger] grapheme_starts(text)[k] == start
            && cluster_end(text, k) == end
}

/// The row is no wider than the screen, unless it is a single character.
pub open spec fn row_fits(row: LogVisualRow, page: Seq<LogRow>, columns: int) -> bool {
    row.start_cell <= row.end_cell && (row.end_cell - row.start_cell <= columns || one_cluster(
        page[row.logical_row_index as int].text@,
        row.start_byte as int,
        row.end_byte as int,
    ))
}

pub open spec fn fits(rows: Seq<LogVisualRow>, page: Seq<LogRow>, columns: int) -> bool {
    forall|i: int| 0 <= i < rows.len() ==> row_fits(#[trigger] rows[i], page, columns)
}

/// What holds while a row is being broken.
spec fn line_open(flow: LineFlow, page: Seq<LogRow>, logical: int, columns: int, count: int) -> bool {
    let text = page[logical].text@;
    let at = if count < grapheme_starts(text).len() {
        grapheme_starts(text)[count] as int
    } else {
        utf8(text).len() as int
    };
    &&& chained(flow.rows, page)
    &&& fits(flow.rows, page, columns)
    &&& 0 <= flow.start_cell <= flow.cell <= u32::MAX
    &&& 0 <= flow.start_byte <= at
    &&& count == 0 ==> flow.start_byte == 0
    &&& count > 0 ==> flow.start_byte < at && flow.start_cell < flow.cell
    &&& flow.cell - flow.start_cell <= columns || one_cluster(text, flow.start_byte, at)
    &&& count > 0 ==> exists|k: int|
        0 <= k < count && #[trigger] grapheme_starts(text)[k] == flow.start_byte
    &&& if flow.rows.len() == 0 || flow.rows.last().logical_row_index != logical {
        flow.start_byte == 0 && flow.start_cell == 0 && covers(flow.rows, page.take(logical))
    } else {
        &&& flow.rows.last().end_byte == flow.start_byte
        &&& flow.rows.last().end_cell == flow.start_cell
        &&& flow.rows.last().start_cell < flow.rows.last().end_cell
    }
}

proof fn lemma_chain_grows(
    rows: Seq<LogVisualRow>,
    page: Seq<LogRow>,
    row: LogVisualRow,
    columns: int,
)
    requires
        chained(rows, page),
        fits(rows, page, columns),
        row_fits(row, page, columns),
        rows.len() == 0 ==> row.logical_row_index == 0 && row.start_byte == 0 && row.start_cell
            == 0,
        rows.len() > 0 ==> follows(rows.last(), row, page),
    ensures
        chained(rows.push(row), page),
        fits(rows.push(row), page, columns),
{
    let all = rows.push(row);
    assert forall|i: int, j: int| 0 <= i && j == i + 1 && j < all.len() implies follows(
        #[trigger] all[i],
        #[trigger] all[j],
        page,
    ) by {
        if j < rows.len() {
            assert(follows(rows[i], rows[j], page));
        }
    }
}

proof fn lemma_break_keeps_open(
    flow: LineFlow,
    page: Seq<LogRow>,
    logical: int,
    columns: int,
    count: int,
)
    requires
        0 <= logical < page.len() <= u32::MAX,
        cuts_text(grapheme_starts(page[logical].text@), page[logical].text@),
        utf8(page[logical].text@).len() <= u32::MAX,
        line_open(flow, page, logical, columns, count),
        0 <= count <= grapheme_starts(page[logical].text@).len(),
        flow.rows.len() < MAX_LOG_REFLOW_ROWS,
    ensures
        ({
            let text = page[logical].text@;
            let at = if count < grapheme_starts(text).len() {
                grapheme_starts(text)[count] as int
            } else {
                utf8(text).len() as int
            };
            let after = broken(flow, logical, at);
            &&& chained(after.rows, page)
            &&& fits(after.rows, page, columns)
            &&& after.rows.len() > 0
            &&& after.rows.last().logical_row_index == logical
            &&& after.rows.last().end_byte == at
            &&& after.rows.last().start_cell == flow.start_cell
            &&& after.rows.last().end_cell == flow.cell
        }),
{
    let text = page[logical].text@;
    let at = if count < grapheme_starts(text).len() {
        grapheme_starts(text)[count] as int
    } else {
        utf8(text).len() as int
    };
    let row = LogVisualRow {
        logical_row_index: logical as u32,
        start_byte: flow.start_byte as u32,
        end_byte: at as u32,
        start_cell: flow.start_cell as u32,
        end_cell: flow.cell as u32,
    };
    if flow.rows.len() > 0 {
        if flow.rows.last().logical_row_index != logical {
            assert(page.take(logical).last() == page[logical - 1]);
        }
    }
    lemma_chain_grows(flow.rows, page, row, columns);
}

proof fn lemma_line_open(
    rows: Seq<LogVisualRow>,
    page: Seq<LogRow>,
    logical: int,
    columns: int,
    count: nat,
)
    requires
        0 <= logical < page.len() <= u32::MAX,
        1 <= columns,
        cuts_text(grapheme_starts(page[logical].text@), page[logical].text@),
        utf8(page[logical].text@).len() <= u32::MAX,
        covers(rows, page.take(logical)),
        fits(rows, page, columns),
        count <= grapheme_starts(page[logical].text@).len(),
        flow_line(rows, logical, page[logical], columns, count).fault is None,
    ensures
        line_open(
            flow_line(rows, logical, page[logical], columns, count),
            page,
            logical,
            columns,
            count as int,
        ),
    decreases count,
{
    let text = page[logical].text@;
    let starts = grapheme_starts(text);
    let row = page[logical];
    if count == 0 {
        assert(chained(rows, page)) by {
            assert forall|i: int, j: int| 0 <= i && j == i + 1 && j < rows.len() implies follows(
                #[trigger] rows[i],
                #[trigger] rows[j],
                page,
            ) by {
                assert(follows(rows[i], rows[j], page.take(logical)));
                lemma_logical_below(rows, page.take(logical), i);
            }
        }
        if rows.len() > 0 {
            lemma_logical_below(rows, page.take(logical), rows.len() - 1);
        }
    } else {
        let before = flow_line(rows, logical, row, columns, (count - 1) as nat);
        lemma_line_open(rows, page, logical, columns, (count - 1) as nat);
        let at = starts[count - 1] as int;
        let cells = cluster_cells(cluster(text, count - 1), before.cell);
        let next = if count < starts.len() {
            starts[count as int] as int
        } else {
            utf8(text).len() as int
        };
        assert(at < next);
        assert(cluster_end(text, count - 1) == next);
        if before.cell > before.start_cell && before.cell - before.start_cell + cells > columns {
            lemma_break_keeps_open(before, page, logical, columns, count - 1);
            assert(starts[count - 1] == at);
            assert(one_cluster(text, at, next));
        } else {
            if count - 1 > 0 {
                let k = choose|k: int|
                    0 <= k < count - 1 && #[trigger] starts[k] == before.start_byte;
                assert(starts[k] == before.start_byte);
                assert(starts[k] < starts[count - 1]);
            } else {
                assert(starts[0] == before.start_byte);
                assert(before.cell == before.start_cell);
                if cells > columns {
                    assert(one_cluster(text, at, next));
                }
            }
        }
    }
}

/// The rows of the screen belong to rows of the page, in their order.
pub proof fn lemma_logical_below(rows: Seq<LogVisualRow>, page: Seq<LogRow>, at: int)
    requires
        covers(rows, page),
        rows.len() > 0,
        0 <= at < rows.len(),
    ensures
        rows[at].logical_row_index < page.len(),
        forall|i: int|
            at <= i < rows.len() ==> rows[at].logical_row_index <= (
            #[trigger] rows[i]).logical_row_index,
    decreases rows.len() - at,
{
    if at + 1 < rows.len() {
        lemma_logical_below(rows, page, at + 1);
        assert(follows(rows[at], rows[at + 1], page));
    }
}

/// A broken row takes its place behind the rows before it.
proof fn lemma_row_covers(
    rows: Seq<LogVisualRow>,
    page: Seq<LogRow>,
    logical: int,
    columns: int,
)
    requires
        0 <= logical < page.len() <= u32::MAX,
        1 <= columns,
        cuts_text(grapheme_starts(page[logical].text@), page[logical].text@),
        utf8(page[logical].text@).len() <= u32::MAX,
        covers(rows, page.take(logical)),
        fits(rows, page, columns),
        flow_row(rows, logical, page[logical], columns).fault is None,
    ensures
        covers(flow_row(rows, logical, page[logical], columns).rows, page.take(logical + 1)),
        fits(flow_row(rows, logical, page[logical], columns).rows, page, columns),
{
    let text = page[logical].text@;
    let count = grapheme_starts(text).len();
    let flow = flow_line(rows, logical, page[logical], columns, count);
    lemma_line_open(rows, page, logical, columns, count);
    lemma_break_keeps_open(flow, page, logical, columns, count as int);
    let all = flow_row(rows, logical, page[logical], columns).rows;
    let shown = page.take(logical + 1);
    assert(shown.last() == page[logical]);
    lemma_chain_within(all, page, logical);
    assert forall|i: int, j: int| 0 <= i && j == i + 1 && j < all.len() implies follows(
        #[trigger] all[i],
        #[trigger] all[j],
        shown,
    ) by {
        assert(follows(all[i], all[j], page));
    }
}

proof fn lemma_chain_within(rows: Seq<LogVisualRow>, page: Seq<LogRow>, logical: int)
    requires
        chained(rows, page),
        rows.len() > 0,
        rows.last().logical_row_index == logical,
    ensures
        forall|i: int| 0 <= i < rows.len() ==> (#[trigger] rows[i]).logical_row_index <= logical,
    decreases rows.len(),
{
    assert forall|i: int| 0 <= i < rows.len() implies (#[trigger] rows[i]).logical_row_index
        <= logical by {
        lemma_chain_rises(rows, page, i, rows.len() - 1);
    }
}

proof fn lemma_chain_rises(rows: Seq<LogVisualRow>, page: Seq<LogRow>, low: int, high: int)
    requires
        chained(rows, page),
        0 <= low <= high < rows.len(),
    ensures
        rows[low].logical_row_index <= rows[high].logical_row_index,
    decreases high - low,
{
    if low < high {
        lemma_chain_rises(rows, page, low, high - 1);
        assert(follows(rows[high - 1], rows[high], page));
    }
}

/// Breaks one row.
fn reflow_row(rows: &mut Vec<LogVisualRow>, logical: usize, row: &LogRow, columns: u32) -> (done:
    Result<(), LogSurfaceError>)
    requires
        logical <= u32::MAX,
        utf8(row.text@).len() <= MAX_LOG_PAGE_TEXT_BYTES,
        1 <= columns <= u16::MAX,
        old(rows)@.len() <= MAX_LOG_REFLOW_ROWS,
    ensures
        ({
            let flow = flow_row(old(rows)@, logical as int, *row, columns as int);
            match done {
                Ok(()) => flow.fault is None && final(rows)@ == flow.rows && final(rows)@.len()
                    <= MAX_LOG_REFLOW_ROWS,
                Err(error) => flow.fault == Some(error),
            }
        }),
        cuts_text(grapheme_starts(row.text@), row.text@),
{
    let ghost earlier = rows@;
    let starts = find_graphemes(row.text.as_str());
    let length: usize = byte_len(row.text.as_str());
    let mut start_byte: usize = 0;
    let mut start_cell: u32 = 0;
    let mut cell: u32 = 0;
    let mut index: usize = 0;
    proof {
        lemma_utf8_valid(row.text@);
        lemma_boundary_at_ends(utf8(row.text@));
    }
    while index < starts.len()
        invariant
            index <= starts@.len(),
            earlier == old(rows)@,
            starts@ == grapheme_starts(row.text@),
            cuts_text(starts@, row.text@),
            length == utf8(row.text@).len() <= MAX_LOG_PAGE_TEXT_BYTES,
            is_char_boundary(utf8(row.text@), length as int),
            logical <= u32::MAX,
            1 <= columns <= u16::MAX,
            start_byte <= length,
            start_cell <= cell,
            rows@.len() <= MAX_LOG_REFLOW_ROWS,
            flow_line(earlier, logical as int, *row, columns as int, index as nat) == (LineFlow {
                rows: rows@,
                start_byte: start_byte as int,
                start_cell: start_cell as int,
                cell: cell as int,
                fault: None,
            }),
        decreases starts@.len() - index,
    {
        let byte: usize = starts[index];
        let end: usize = if index + 1 < starts.len() {
            starts[index + 1]
        } else {
            length
        };
        let width: u32 = cells_of(slice_text(row.text.as_str(), byte, end), cell);
        index += 1;
        if cell > start_cell && (width > columns || cell - start_cell > columns - width) {
            match push_visual_row(rows, logical, start_byte, byte, start_cell, cell) {
                Ok(()) => {},
                Err(error) => {
                    proof {
                        lemma_flow_fault_stays(
                            earlier,
                            logical as int,
                            *row,
                            columns as int,
                            index as nat,
                            starts@.len(),
                        );
                    }
                    return Err(error);
                },
            }
            start_byte = byte;
            start_cell = cell;
        }
        if cell > u32::MAX - width {
            proof {
                lemma_flow_fault_stays(
                    earlier,
                    logical as int,
                    *row,
                    columns as int,
                    index as nat,
                    starts@.len(),
                );
            }
            return Err(LogSurfaceError::LineTooWide(row.line_id));
        }
        cell += width;
    }
    push_visual_row(rows, logical, start_byte, length, start_cell, cell)
}

/// Breaks the rows of a page at `columns` cells.
fn reflow_rows(page: &LogPage, columns: u32) -> (rows: Result<Vec<LogVisualRow>, LogSurfaceError>)
    requires
        valid_page(*page),
        1 <= columns <= u16::MAX,
    ensures
        match rows {
            Ok(rows) => flow_rows(page.rows@, columns as int) == Ok::<_, LogSurfaceError>(rows@)
                && rows@.len() <= MAX_LOG_REFLOW_ROWS && covers(rows@, page.rows@) && fits(
                rows@,
                page.rows@,
                columns as int,
            ),
            Err(error) => flow_rows(page.rows@, columns as int) == Err::<Seq<LogVisualRow>, _>(
                error,
            ),
        },
{
    let mut rows: Vec<LogVisualRow> = Vec::new();
    let mut index: usize = 0;
    assert(page.rows@.take(0) =~= Seq::empty());
    while index < page.rows.len()
        invariant
            valid_page(*page),
            1 <= columns <= u16::MAX,
            index <= page.rows@.len(),
            rows@.len() <= MAX_LOG_REFLOW_ROWS,
            flow_rows(page.rows@.take(index as int), columns as int) == Ok::<_, LogSurfaceError>(
                rows@,
            ),
            covers(rows@, page.rows@.take(index as int)),
            fits(rows@, page.rows@, columns as int),
        decreases page.rows@.len() - index,
    {
        proof {
            assert(page.rows@.take(index + 1).drop_last() =~= page.rows@.take(index as int));
            lemma_row_in_page(page.rows@, index as int);
        }
        let ghost earlier = rows@;
        match reflow_row(&mut rows, index, &page.rows[index], columns) {
            Ok(()) => {},
            Err(error) => {
                proof {
                    lemma_rows_fault_stays(page.rows@, columns as int, index + 1);
                }
                return Err(error);
            },
        }
        proof {
            lemma_row_covers(earlier, page.rows@, index as int, columns as int);
        }
        index += 1;
    }
    assert(page.rows@.take(page.rows@.len() as int) =~= page.rows@);
    Ok(rows)
}

// ---------------------------------------------------------------------------
// Layouts.

/// What a reflow is for: two with the same key show the same.
#[derive(Clone, Copy, Debug, PartialEq, Eq, Structural)]
pub struct ReflowKey {
    pub source_id: LogSourceId,
    pub revision: u64,
    pub columns: u16,
}

pub open spec fn reflow_key(page: LogPage, columns: u16) -> ReflowKey {
    ReflowKey { source_id: page.source_id, revision: page.revision, columns }
}

impl ReflowKey {
    pub fn new(page: &LogPage, columns: u16) -> (key: Self)
        ensures
            key == reflow_key(*page, columns),
    {
        ReflowKey { source_id: page.source_id, revision: page.revision, columns }
    }
}

/// A page with the rows of the screen that show it.
#[verifier::ext_equal]
pub struct LayoutModel {
    pub page: LogPage,
    pub columns: u16,
    pub rows: Seq<LogVisualRow>,
}

/// The row of the screen takes up the cell.
pub open spec fn holds_cell(row: LogVisualRow, cell: int) -> bool {
    row.start_cell <= cell < row.end_cell || row.start_cell == row.end_cell && cell
        == row.start_cell
}

/// Row `at` of the screen is the one that an anchor in row `logical` of the
/// page stands on: the first one of that row that takes up the cell, or the
/// last one where none does.
pub open spec fn anchored_at(rows: Seq<LogVisualRow>, logical: int, cell: int, at: int) -> bool {
    &&& 0 <= at < rows.len()
    &&& rows[at].logical_row_index == logical
    &&& forall|i: int|
        0 <= i < at && (#[trigger] rows[i]).logical_row_index == logical ==> !holds_cell(
            rows[i],
            cell,
        )
    &&& holds_cell(rows[at], cell) || forall|i: int|
        at < i < rows.len() ==> (#[trigger] rows[i]).logical_row_index != logical
}

impl LayoutModel {
    pub open spec fn wf(self) -> bool {
        &&& valid_page(self.page)
        &&& covers(self.rows, self.page.rows@)
        &&& self.rows.len() <= MAX_LOG_REFLOW_ROWS
        &&& forall|i: int|
            0 <= i < self.rows.len() ==> (#[trigger] self.rows[i]).start_cell
                <= self.rows[i].end_cell
    }

    pub open spec fn key(self) -> ReflowKey {
        reflow_key(self.page, self.columns)
    }

    /// The row of the screen that an anchor stands on.
    pub open spec fn anchor_row(self, line_id: u64, cell: u32) -> Option<int> {
        match line_index(self.page.rows@, line_id) {
            None => None,
            Some(logical) => Some(
                choose|at: int| #[trigger] anchored_at(self.rows, logical, cell as int, at),
            ),
        }
    }
}

#[derive(Clone, Debug)]
pub struct LogReflowLayout {
    page: Arc<LogPage>,
    columns: u16,
    visual_rows: Arc<Vec<LogVisualRow>>,
}

impl View for LogReflowLayout {
    type V = LayoutModel;

    closed spec fn view(&self) -> LayoutModel {
        LayoutModel { page: *self.page, columns: self.columns, rows: self.visual_rows@ }
    }
}

proof fn lemma_anchor_unique(rows: Seq<LogVisualRow>, logical: int, cell: int, one: int, other: int)
    requires
        anchored_at(rows, logical, cell, one),
        anchored_at(rows, logical, cell, other),
    ensures
        one == other,
{
    assert(rows[one].logical_row_index == logical);
    assert(rows[other].logical_row_index == logical);
}

/// Each row of the page is on the screen.
pub proof fn lemma_row_is_shown(rows: Seq<LogVisualRow>, page: Seq<LogRow>, logical: int, at: int)
    requires
        covers(rows, page),
        0 <= logical < page.len(),
        0 <= at < rows.len(),
        rows[at].logical_row_index <= logical,
    ensures
        exists|i: int| at <= i < rows.len() && (#[trigger] rows[i]).logical_row_index == logical,
    decreases rows.len() - at,
{
    if rows[at].logical_row_index == logical {
    } else if at + 1 < rows.len() {
        assert(follows(rows[at], rows[at + 1], page));
        lemma_row_is_shown(rows, page, logical, at + 1);
    }
}

/// The layout of a page before it is broken to the width of a screen: one row
/// of the screen for each row of the page.
pub open spec fn unbroken(page: LogPage) -> LayoutModel {
    LayoutModel {
        page,
        columns: 0,
        rows: Seq::new(
            page.rows@.len(),
            |i: int|
                LogVisualRow {
                    logical_row_index: i as u32,
                    start_byte: 0,
                    end_byte: utf8(page.rows@[i].text@).len() as u32,
                    start_cell: 0,
                    end_cell: u32::MAX,
                },
        ),
    }
}

impl LogReflowLayout {
    pub fn page(&self) -> (page: &Arc<LogPage>)
        ensures
            **page == self@.page,
    {
        &self.page
    }

    pub fn visual_rows(&self) -> (rows: &Arc<Vec<LogVisualRow>>)
        ensures
            rows@ == self@.rows,
    {
        &self.visual_rows
    }

    pub fn columns(&self) -> (columns: u16)
        ensures
            columns == self@.columns,
    {
        self.columns
    }

    pub(crate) fn identity(page: Arc<LogPage>) -> (layout: Self)
        requires
            valid_page(*page),
        ensures
            layout@ == unbroken(*page),
            layout@.wf(),
    {
        let mut rows: Vec<LogVisualRow> = Vec::new();
        let mut index: usize = 0;
        while index < page.rows.len()
            invariant
                valid_page(*page),
                index <= page.rows@.len(),
                rows@ == unbroken(*page).rows.take(index as int),
            decreases page.rows@.len() - index,
        {
            proof {
                lemma_row_in_page(page.rows@, index as int);
                assert(unbroken(*page).rows.take(index + 1) =~= unbroken(*page).rows.take(
                    index as int,
                ).push(unbroken(*page).rows[index as int]));
            }
            rows.push(
                LogVisualRow {
                    logical_row_index: index as u32,
                    start_byte: 0,
                    end_byte: byte_len(page.rows[index].text.as_str()) as u32,
                    start_cell: 0,
                    end_cell: u32::MAX,
                },
            );
            index += 1;
        }
        proof {
            assert(rows@ =~= unbroken(*page).rows);
            assert forall|i: int| 0 <= i < page.rows@.len() implies utf8(
                (#[trigger] page.rows@[i]).text@,
            ).len() <= u32::MAX by {
                lemma_row_in_page(page.rows@, i);
            }
            if page.rows@.len() > 0 {
                assert(page.rows@.last() == page.rows@[page.rows@.len() - 1]);
            }
            assert forall|i: int, j: int| 0 <= i && j == i + 1 && j < rows@.len() implies follows(
                #[trigger] rows@[i],
                #[trigger] rows@[j],
                page.rows@,
            ) by {
                assert(utf8(page.rows@[i].text@).len() <= u32::MAX);
            }
        }
        LogReflowLayout { page, columns: 0, visual_rows: Arc::new(rows) }
    }

    pub(crate) fn reflow(page: Arc<LogPage>, columns: u16) -> (layout: Result<
        Self,
        LogSurfaceError,
    >)
        requires
            valid_page(*page),
        ensures
            ({
                let width = if columns == 0 {
                    1u16
                } else {
                    columns
                };
                match flow_rows(page.rows@, width as int) {
                    Ok(rows) => layout matches Ok(layout) && layout@ == (LayoutModel {
                        page: *page,
                        columns: width,
                        rows,
                    }) && layout@.wf() && fits(rows, page.rows@, width as int),
                    Err(error) => layout matches Err(found) && found == error,
                }
            }),
    {
        let width: u16 = if columns == 0 {
            1
        } else {
            columns
        };
        match reflow_rows(&page, width as u32) {
            Ok(rows) => Ok(
                LogReflowLayout { page, columns: width, visual_rows: Arc::new(rows) },
            ),
            Err(error) => Err(error),
        }
    }

    pub(crate) fn key(&self) -> (key: ReflowKey)
        ensures
            key == self@.key(),
    {
        ReflowKey::new(&self.page, self.columns)
    }

    /// The first row of the screen whose log row is not before `logical`.
    fn first_row_of(&self, logical: usize) -> (at: usize)
        requires
            self@.wf(),
        ensures
            at <= self@.rows.len(),
            forall|i: int|
                0 <= i < at ==> (#[trigger] self@.rows[i]).logical_row_index < logical,
            forall|i: int|
                at <= i < self@.rows.len() ==> (#[trigger] self@.rows[i]).logical_row_index
                    >= logical,
    {
        let mut low: usize = 0;
        let mut high: usize = self.visual_rows.len();
        while low < high
            invariant
                self@.wf(),
                low <= high <= self@.rows.len(),
                forall|i: int|
                    0 <= i < low ==> (#[trigger] self@.rows[i]).logical_row_index < logical,
                forall|i: int|
                    high <= i < self@.rows.len() ==> (#[trigger] self@.rows[i]).logical_row_index
                        >= logical,
            decreases high - low,
        {
            let middle: usize = low + (high - low) / 2;
            proof {
                lemma_logical_below(self@.rows, self@.page.rows@, middle as int);
                assert forall|i: int| 0 <= i <= middle implies (
                #[trigger] self@.rows[i]).logical_row_index
                    <= self@.rows[middle as int].logical_row_index by {
                    lemma_logical_below(self@.rows, self@.page.rows@, i);
                }
            }
            if (self.visual_rows[middle].logical_row_index as usize) < logical {
                low = middle + 1;
            } else {
                high = middle;
            }
        }
        low
    }

    pub(crate) fn visual_row_for_anchor(&self, line_id: u64, cell_offset: u32) -> (at: Option<usize>)
        requires
            self@.wf(),
        ensures
            match at {
                Some(at) => self@.anchor_row(line_id, cell_offset) == Some(at as int) && at
                    < self@.rows.len() && anchored_at(
                    self@.rows,
                    line_index(self@.page.rows@, line_id)->0,
                    cell_offset as int,
                    at as int,
                ),
                None => self@.anchor_row(line_id, cell_offset) is None,
            },
    {
        let logical: usize = match find_row(&self.page.rows, line_id) {
            Some(logical) => logical,
            None => {
                return None;
            },
        };
        let start: usize = self.first_row_of(logical);
        let end: usize = self.first_row_of(logical + 1);
        proof {
            lemma_row_is_shown(self@.rows, self@.page.rows@, logical as int, 0);
            let shown = choose|i: int|
                0 <= i < self@.rows.len() && (#[trigger] self@.rows[i]).logical_row_index
                    == logical;
            assert(self@.rows[shown].logical_row_index == logical);
            assert(start <= shown < end);
        }
        let mut at: usize = start;
        let mut found: bool = false;
        while at < end && !found
            invariant
                start <= at <= end <= self@.rows.len(),
                start < end,
                found ==> at < end && holds_cell(self@.rows[at as int], cell_offset as int),
                forall|i: int|
                    start <= i < at ==> !holds_cell(#[trigger] self@.rows[i], cell_offset as int),
            decreases (end - at) + (if found { 0int } else { 1 }),
        {
            let row = self.visual_rows[at];
            if row.start_cell <= cell_offset && cell_offset < row.end_cell || row.start_cell
                == row.end_cell && cell_offset == row.start_cell {
                found = true;
            } else {
                at += 1;
            }
        }
        let place: usize = if found {
            at
        } else {
            end - 1
        };
        proof {
            assert(self@.rows[place as int].logical_row_index >= logical);
            assert(anchored_at(self@.rows, logical as int, cell_offset as int, place as int));
            let chosen = self@.anchor_row(line_id, cell_offset)->0;
            lemma_anchor_unique(
                self@.rows,
                logical as int,
                cell_offset as int,
                place as int,
                chosen,
            );
        }
        Some(place)
    }
}

/// A page that is to be broken to a width.
#[derive(Clone, Debug)]
pub struct LogReflowRequest {
    page: Arc<LogPage>,
    columns: u16,
}

impl LogReflowRequest {
    pub closed spec fn page(self) -> LogPage {
        *self.page
    }

    pub closed spec fn width(self) -> u16 {
        self.columns
    }

    pub(crate) fn new(page: Arc<LogPage>, columns: u16) -> (request: Self)
        ensures
            request.page() == *page,
            request.width() == columns,
    {
        LogReflowRequest { page, columns }
    }

    pub fn columns(&self) -> (columns: u16)
        ensures
            columns == self.width(),
    {
        self.columns
    }

    /// Breaks the page. Each row of the screen goes on where the one before it
    /// stopped, all of the page is shown, and no row is wider than asked for
    /// unless it is a single character.
    pub fn execute(self) -> (layout: Result<LogReflowLayout, LogSurfaceError>)
        requires
            valid_page(self.page()),
            self.width() > 0,
        ensures
            match flow_rows(self.page().rows@, self.width() as int) {
                Ok(rows) => layout matches Ok(layout) && layout@ == (LayoutModel {
                    page: self.page(),
                    columns: self.width(),
                    rows,
                }) && layout@.wf() && fits(rows, self.page().rows@, self.width() as int),
                Err(error) => layout matches Err(found) && found == error,
            },
    {
        LogReflowLayout::reflow(self.page, self.columns)
    }
}

proof fn lemma_cells_rise(rows: Seq<LogVisualRow>, page: Seq<LogRow>, low: int, high: int)
    requires
        chained(rows, page),
        0 <= low < high < rows.len(),
        rows[low].logical_row_index == rows[high].logical_row_index,
    ensures
        rows[low].end_cell <= rows[high].start_cell,
        rows[low].start_cell < rows[low].end_cell,
    decreases high - low,
{
    lemma_chain_rises(rows, page, low, high - 1);
    lemma_chain_rises(rows, page, high - 1, high);
    assert(follows(rows[high - 1], rows[high], page));
    if low < high - 1 {
        lemma_cells_rise(rows, page, low, high - 1);
    }
}

/// An anchor at the beginning of a row of the screen stands on that row.
pub proof fn law_row_start_anchors_row(layout: LayoutModel, at: int)
    requires
        layout.wf(),
        0 <= at < layout.rows.len(),
    ensures
        layout.rows[at].logical_row_index < layout.page.rows@.len(),
        layout.anchor_row(
            layout.page.rows@[layout.rows[at].logical_row_index as int].line_id,
            layout.rows[at].start_cell,
        ) == Some(at),
{
    let rows = layout.rows;
    let page = layout.page.rows@;
    let logical = rows[at].logical_row_index as int;
    let cell = rows[at].start_cell as int;
    lemma_logical_below(rows, page, at);
    lemma_line_index(page, logical);
    assert forall|i: int|
        0 <= i < at && (#[trigger] rows[i]).logical_row_index == logical implies !holds_cell(
        rows[i],
        cell,
    ) by {
        lemma_cells_rise(rows, page, i, at);
    }
    assert(anchored_at(rows, logical, cell, at));
    let chosen = layout.anchor_row(page[logical].line_id, cell as u32)->0;
    lemma_anchor_unique(rows, logical, cell, at, chosen);
}

} // verus!
