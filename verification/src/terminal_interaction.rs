//! Selecting and searching in a snapshot of a terminal.
use crate::history_search::{is_whole_word, stands_alone};
use crate::outside::{find_regex, ranges_in_text, regex_matches};
use crate::search_query::{
    compile_words, compiles, lemma_pattern_length, regex_query, search_pattern,
};
use crate::terminal::{Cell, CellWidth, FrameSnapshot};
use crate::text::{byte_len, lemma_utf8_concat, utf8};
use vstd::prelude::*;

verus! {

pub const MAX_TERMINAL_SEARCH_QUERY_BYTES: usize = 4096;

pub const MAX_TERMINAL_SEARCH_MATCHES: usize = 4096;

pub const MAX_TERMINAL_SEARCH_REGEX_BYTES: usize = 1048576;

pub const MAX_TERMINAL_SELECTION_BYTES: usize = 16777216;

#[derive(Clone, Copy, Debug, PartialEq, Eq, Structural)]
pub struct TerminalCellPoint {
    pub row: u16,
    pub column: u16,
}

impl Default for TerminalCellPoint {
    fn default() -> (point: Self)
        ensures
            point.row == 0,
            point.column == 0,
    {
        TerminalCellPoint { row: 0, column: 0 }
    }
}

#[derive(Clone, Copy, Debug, PartialEq, Eq, Structural)]
pub enum TerminalSelectionMode {
    Character,
    Line,
    Block,
}

#[derive(Clone, Copy, Debug, PartialEq, Eq, Structural)]
pub struct TerminalSelection {
    pub anchor: TerminalCellPoint,
    pub focus: TerminalCellPoint,
    pub mode: TerminalSelectionMode,
}

#[derive(Clone, Copy, Debug, PartialEq, Eq, Structural)]
pub struct TerminalSearchMatch {
    pub start: TerminalCellPoint,
    pub end: TerminalCellPoint,
}

#[derive(Clone, Copy, Debug, PartialEq, Eq, Structural)]
pub struct TerminalSearchOptions {
    pub case_sensitive: bool,
    pub whole_word: bool,
    pub regex: bool,
}

impl Default for TerminalSearchOptions {
    fn default() -> (options: Self)
        ensures
            !options.case_sensitive,
            !options.whole_word,
            !options.regex,
    {
        TerminalSearchOptions { case_sensitive: false, whole_word: false, regex: false }
    }
}

#[derive(Clone, Debug, PartialEq, Eq)]
pub struct TerminalSearchResult {
    pub matches: Vec<TerminalSearchMatch>,
    pub truncated: bool,
}

impl Default for TerminalSearchResult {
    fn default() -> (result: Self)
        ensures
            result.matches@.len() == 0,
            !result.truncated,
    {
        TerminalSearchResult { matches: Vec::new(), truncated: false }
    }
}

#[derive(Clone, Debug)]
pub struct TerminalDecorations {
    pub revision: u64,
    pub selection: Option<TerminalSelection>,
    pub search: TerminalSearchResult,
    pub active_search_match: Option<usize>,
}

impl Default for TerminalDecorations {
    fn default() -> (decorations: Self)
        ensures
            decorations.revision == 0,
            decorations.selection is None,
            decorations.search.matches@.len() == 0,
            !decorations.search.truncated,
            decorations.active_search_match is None,
    {
        TerminalDecorations {
            revision: 0,
            selection: None,
            search: TerminalSearchResult::default(),
            active_search_match: None,
        }
    }
}

#[derive(Debug, PartialEq, Eq)]
pub enum TerminalInteractionError {
    SearchQueryTooLong { actual: usize, maximum: usize },
    InvalidSearchRegex(String),
    EmptySearchRegexMatch,
    SelectionTooLarge(usize),
}

// ---------------------------------------------------------------------------
// Places.

pub open spec fn lower(left: u16, right: u16) -> u16 {
    if left <= right {
        left
    } else {
        right
    }
}

pub open spec fn higher(left: u16, right: u16) -> u16 {
    if left <= right {
        right
    } else {
        left
    }
}

fn lower_of(left: u16, right: u16) -> (least: u16)
    ensures
        least == lower(left, right),
{
    if left <= right {
        left
    } else {
        right
    }
}

fn higher_of(left: u16, right: u16) -> (greatest: u16)
    ensures
        greatest == higher(left, right),
{
    if left <= right {
        right
    } else {
        left
    }
}

/// Reading order.
pub open spec fn not_after(left: TerminalCellPoint, right: TerminalCellPoint) -> bool {
    left.row < right.row || left.row == right.row && left.column <= right.column
}

fn is_not_after(left: TerminalCellPoint, right: TerminalCellPoint) -> (yes: bool)
    ensures
        yes == not_after(left, right),
{
    left.row < right.row || left.row == right.row && left.column <= right.column
}

pub open spec fn in_order(first: TerminalCellPoint, second: TerminalCellPoint) -> (
    TerminalCellPoint,
    TerminalCellPoint,
) {
    if not_after(first, second) {
        (first, second)
    } else {
        (second, first)
    }
}

pub fn ordered_points(first: TerminalCellPoint, second: TerminalCellPoint) -> (points: (
    TerminalCellPoint,
    TerminalCellPoint,
))
    ensures
        points == in_order(first, second),
{
    if is_not_after(first, second) {
        (first, second)
    } else {
        (second, first)
    }
}

/// The index of the last of `count` rows or columns.
pub open spec fn last_of(count: u16) -> u16 {
    if count == 0 {
        0
    } else {
        (count - 1) as u16
    }
}

fn last_index(count: u16) -> (last: u16)
    ensures
        last == last_of(count),
{
    if count == 0 {
        0
    } else {
        count - 1
    }
}

/// The column at which the character begins that fills a column.
pub open spec fn snapped_column(snapshot: FrameSnapshot, row: u16, column: u16) -> u16 {
    match snapshot.row_cells(row as int) {
        Some(cells) => if 0 < column < cells.len() && cells[column as int].width
            == CellWidth::WideSpacer {
            (column - 1) as u16
        } else {
            column
        },
        None => column,
    }
}

pub fn snap_wide_start(snapshot: &FrameSnapshot, row: u16, column: u16) -> (snapped: u16)
    ensures
        snapped == snapped_column(*snapshot, row, column),
{
    if column == 0 {
        return column;
    }
    match snapshot.row(row) {
        Some(cells) => if (column as usize) < cells.len() && cells[column as usize].width
            == CellWidth::WideSpacer {
            column - 1
        } else {
            column
        },
        None => column,
    }
}

/// A point of the grid, at the beginning of its character.
pub open spec fn snapped(snapshot: FrameSnapshot, point: TerminalCellPoint) -> TerminalCellPoint {
    let row = lower(point.row, last_of(snapshot.rows));
    TerminalCellPoint {
        row,
        column: snapped_column(snapshot, row, lower(point.column, last_of(snapshot.cols))),
    }
}

pub fn snap_wide_point(snapshot: &FrameSnapshot, point: TerminalCellPoint) -> (snapped_point:
    TerminalCellPoint)
    ensures
        snapped_point == snapped(*snapshot, point),
{
    let row: u16 = lower_of(point.row, last_index(snapshot.rows));
    let column: u16 = lower_of(point.column, last_index(snapshot.cols));
    TerminalCellPoint { row, column: snap_wide_start(snapshot, row, column) }
}

impl TerminalSearchMatch {
    pub fn contains(self, row: u16, column: u16) -> (yes: bool)
        ensures
            yes == (row == self.start.row && self.start.column <= column <= self.end.column),
    {
        row == self.start.row && self.start.column <= column && column <= self.end.column
    }
}

// ---------------------------------------------------------------------------
// Selections.

/// The characters of cells, without the fillers of wide ones.
pub open spec fn cells_text(cells: Seq<Cell>) -> Seq<char>
    decreases cells.len(),
{
    if cells.len() == 0 {
        Seq::empty()
    } else {
        let before = cells_text(cells.drop_last());
        if cells.last().spacer() {
            before
        } else {
            before + cells.last().chars()
        }
    }
}

impl TerminalSelection {
    /// The selection covers a cell of the grid.
    pub open spec fn covers(self, snapshot: FrameSnapshot, row: u16, column: u16) -> bool {
        &&& row < snapshot.rows
        &&& column < snapshot.cols
        &&& match self.mode {
            TerminalSelectionMode::Character => {
                let (start, end) = in_order(
                    snapped(snapshot, self.anchor),
                    snapped(snapshot, self.focus),
                );
                let point = snapped(snapshot, TerminalCellPoint { row, column });
                not_after(start, point) && not_after(point, end)
            },
            TerminalSelectionMode::Line => lower(self.anchor.row, self.focus.row) <= row
                <= higher(self.anchor.row, self.focus.row),
            TerminalSelectionMode::Block => {
                &&& lower(self.anchor.row, self.focus.row) <= row <= higher(
                    self.anchor.row,
                    self.focus.row,
                )
                &&& lower(self.anchor.column, self.focus.column) <= column <= higher(
                    self.anchor.column,
                    self.focus.column,
                )
            },
        }
    }

    pub fn contains(self, snapshot: &FrameSnapshot, row: u16, column: u16) -> (yes: bool)
        ensures
            yes == self.covers(*snapshot, row, column),
    {
        if row >= snapshot.rows || column >= snapshot.cols {
            return false;
        }
        let first_row: u16 = lower_of(self.anchor.row, self.focus.row);
        let last_row: u16 = higher_of(self.anchor.row, self.focus.row);
        match self.mode {
            TerminalSelectionMode::Character => {
                let (start, end) = ordered_points(
                    snap_wide_point(snapshot, self.anchor),
                    snap_wide_point(snapshot, self.focus),
                );
                let point = snap_wide_point(snapshot, TerminalCellPoint { row, column });
                is_not_after(start, point) && is_not_after(point, end)
            },
            TerminalSelectionMode::Line => first_row <= row && row <= last_row,
            TerminalSelectionMode::Block => {
                let first_column: u16 = lower_of(self.anchor.column, self.focus.column);
                let last_column: u16 = higher_of(self.anchor.column, self.focus.column);
                first_row <= row && row <= last_row && first_column <= column && column
                    <= last_column
            },
        }
    }

    /// The first and the last column that the selection takes of a row.
    pub open spec fn row_columns(self, snapshot: FrameSnapshot, row: u16) -> (u16, u16) {
        let last = last_of(snapshot.cols);
        match self.mode {
            TerminalSelectionMode::Line => (0u16, last),
            TerminalSelectionMode::Block => (
                lower(lower(self.anchor.column, self.focus.column), last),
                lower(higher(self.anchor.column, self.focus.column), last),
            ),
            TerminalSelectionMode::Character => {
                let (start, end) = in_order(self.anchor, self.focus);
                let first = lower(
                    if row == start.row {
                        start.column
                    } else {
                        0
                    },
                    last,
                );
                (
                    snapped_column(snapshot, row, first),
                    lower(
                        if row == end.row {
                            end.column
                        } else {
                            last
                        },
                        last,
                    ),
                )
            },
        }
    }

    pub fn columns_for_row(self, snapshot: &FrameSnapshot, row: u16) -> (columns: (u16, u16))
        ensures
            columns == self.row_columns(*snapshot, row),
    {
        let last: u16 = last_index(snapshot.cols);
        match self.mode {
            TerminalSelectionMode::Line => (0, last),
            TerminalSelectionMode::Block => (
                lower_of(lower_of(self.anchor.column, self.focus.column), last),
                lower_of(higher_of(self.anchor.column, self.focus.column), last),
            ),
            TerminalSelectionMode::Character => {
                let (start, end) = ordered_points(self.anchor, self.focus);
                let first: u16 = lower_of(
                    if row == start.row {
                        start.column
                    } else {
                        0
                    },
                    last,
                );
                let end_column: u16 = lower_of(
                    if row == end.row {
                        end.column
                    } else {
                        last
                    },
                    last,
                );
                (snap_wide_start(snapshot, row, first), end_column)
            },
        }
    }

    /// The rows of the grid that the selection takes.
    pub open spec fn row_range(self, snapshot: FrameSnapshot) -> (int, int) {
        (
            lower(lower(self.anchor.row, self.focus.row), last_of(snapshot.rows)) as int,
            lower(higher(self.anchor.row, self.focus.row), last_of(snapshot.rows)) as int,
        )
    }

    /// What the selection takes of a row.
    pub open spec fn row_text(self, snapshot: FrameSnapshot, row: u16) -> Seq<char> {
        let (first, last) = self.row_columns(snapshot, row);
        match snapshot.row_cells(row as int) {
            Some(cells) => if first <= last {
                cells_text(cells.subrange(first as int, last + 1))
            } else {
                Seq::empty()
            },
            None => Seq::empty(),
        }
    }

    /// The rows from the first one up to `row`, each on a line.
    pub open spec fn text_to(self, snapshot: FrameSnapshot, row: int) -> Seq<char>
        decreases row,
    {
        let first = self.row_range(snapshot).0;
        if row < first {
            Seq::empty()
        } else if row == first {
            self.row_text(snapshot, row as u16)
        } else {
            self.text_to(snapshot, row - 1).push('\n') + self.row_text(snapshot, row as u16)
        }
    }

    /// The selected text.
    pub open spec fn selected(self, snapshot: FrameSnapshot) -> Seq<char> {
        if snapshot.rows == 0 || snapshot.cols == 0 {
            Seq::empty()
        } else {
            self.text_to(snapshot, self.row_range(snapshot).1)
        }
    }

    /// The selected text, as long as it keeps to the limit.
    pub fn text(self, snapshot: &FrameSnapshot) -> (text: Result<String, TerminalInteractionError>)
        ensures
            ({
                let selected = self.selected(*snapshot);
                if utf8(selected).len() <= MAX_TERMINAL_SELECTION_BYTES {
                    text matches Ok(text) && text@ == selected
                } else {
                    text == Err::<String, _>(
                        TerminalInteractionError::SelectionTooLarge(MAX_TERMINAL_SELECTION_BYTES),
                    )
                }
            }),
    {
        let mut output = String::new();
        if snapshot.rows == 0 || snapshot.cols == 0 {
            proof {
                assert(utf8(Seq::<char>::empty()).len() == 0);
            }
            return Ok(output);
        }
        let last: u16 = last_index(snapshot.rows);
        let first_row: u16 = lower_of(lower_of(self.anchor.row, self.focus.row), last);
        let last_row: u16 = lower_of(higher_of(self.anchor.row, self.focus.row), last);
        let mut length: usize = 0;
        let mut row: u16 = first_row;
        proof {
            assert(utf8(Seq::<char>::empty()).len() == 0);
        }
        while row <= last_row
            invariant
                first_row <= row <= last_row + 1,
                last_row < u16::MAX,
                last_row < snapshot.rows,
                snapshot.rows > 0,
                snapshot.cols > 0,
                first_row == self.row_range(*snapshot).0,
                last_row == self.row_range(*snapshot).1,
                output@ == self.text_to(*snapshot, row - 1),
                length == utf8(output@).len() <= MAX_TERMINAL_SELECTION_BYTES,
            decreases last_row + 1 - row,
        {
            let ghost earlier = output@;
            if row > first_row {
                if !push_bounded(&mut output, &mut length, '\n') {
                    proof {
                        lemma_utf8_concat(
                            earlier.push('\n'),
                            self.row_text(*snapshot, row),
                        );
                        lemma_text_grows(self, *snapshot, row as int, last_row as int);
                    }
                    return Err(
                        TerminalInteractionError::SelectionTooLarge(MAX_TERMINAL_SELECTION_BYTES),
                    );
                }
            }
            let ghost before = output@;
            let (first_column, last_column) = self.columns_for_row(snapshot, row);
            if let Some(cells) = snapshot.row(row) {
                if first_column <= last_column {
                    let ghost chosen = cells@.subrange(first_column as int, last_column + 1);
                    let mut column: u16 = first_column;
                    assert(cells@.subrange(first_column as int, first_column as int) =~= Seq::<
                        Cell,
                    >::empty());
                    assert(before + Seq::<char>::empty() =~= before);
                    while column <= last_column
                        invariant
                            first_column <= column <= last_column + 1,
                            last_column < cells@.len() <= u16::MAX,
                            output@ == before + cells_text(
                                cells@.subrange(first_column as int, column as int),
                            ),
                            length == utf8(output@).len() <= MAX_TERMINAL_SELECTION_BYTES,
                            chosen == cells@.subrange(first_column as int, last_column + 1),
                            self.row_text(*snapshot, row) == cells_text(chosen),
                            self.text_to(*snapshot, row as int) == before + cells_text(chosen),
                            first_row <= row <= last_row,
                            first_row == self.row_range(*snapshot).0,
                            last_row == self.row_range(*snapshot).1,
                            snapshot.rows > 0,
                            snapshot.cols > 0,
                        decreases last_column + 1 - column,
                    {
                        let cell = &cells[column as usize];
                        let ghost part = cells@.subrange(first_column as int, column + 1);
                        assert(part.drop_last() =~= cells@.subrange(
                            first_column as int,
                            column as int,
                        ));
                        if !cell.is_spacer() {
                            let ghost start = output@;
                            if !push_cell(&mut output, &mut length, cell) {
                                proof {
                                    assert(before + cells_text(part) =~= start + cell.chars());
                                    lemma_cells_text_grows(
                                        cells@.subrange(first_column as int, last_column + 1),
                                        column + 1 - first_column,
                                        before,
                                    );
                                    assert(cells@.subrange(
                                        first_column as int,
                                        last_column + 1,
                                    ).take(column + 1 - first_column) =~= part);
                                    lemma_text_grows(
                                        self,
                                        *snapshot,
                                        row as int,
                                        last_row as int,
                                    );
                                }
                                return Err(
                                    TerminalInteractionError::SelectionTooLarge(
                                        MAX_TERMINAL_SELECTION_BYTES,
                                    ),
                                );
                            }
                            assert(output@ =~= before + cells_text(part));
                        }
                        column += 1;
                    }
                } else {
                    assert(before + Seq::<char>::empty() =~= before);
                }
            } else {
                assert(before + Seq::<char>::empty() =~= before);
            }
            assert(output@ == self.text_to(*snapshot, row as int));
            row += 1;
        }
        Ok(output)
    }
}

/// Appends a character, unless the text would become too long.
fn push_bounded(output: &mut String, length: &mut usize, character: char) -> (pushed: bool)
    requires
        *old(length) == utf8(old(output)@).len(),
        *old(length) <= MAX_TERMINAL_SELECTION_BYTES,
    ensures
        pushed == (utf8(old(output)@.push(character)).len() <= MAX_TERMINAL_SELECTION_BYTES),
        pushed ==> final(output)@ == old(output)@.push(character) && *final(length) == utf8(
            final(output)@,
        ).len(),
{
    let mut single = String::new();
    single.push(character);
    let width: usize = byte_len(single.as_str());
    proof {
        assert(single@ =~= seq![character]);
        lemma_utf8_concat(output@, seq![character]);
        assert(output@ + seq![character] =~= output@.push(character));
    }
    if width > MAX_TERMINAL_SELECTION_BYTES - *length {
        return false;
    }
    output.push(character);
    *length = *length + width;
    true
}

/// Appends the characters of a cell, unless the text would become too long.
fn push_cell(output: &mut String, length: &mut usize, cell: &Cell) -> (pushed: bool)
    requires
        *old(length) == utf8(old(output)@).len(),
        *old(length) <= MAX_TERMINAL_SELECTION_BYTES,
    ensures
        pushed == (utf8(old(output)@ + cell.chars()).len() <= MAX_TERMINAL_SELECTION_BYTES),
        pushed ==> final(output)@ == old(output)@ + cell.chars() && *final(length) == utf8(
            final(output)@,
        ).len(),
{
    let ghost start = output@;
    assert(cell.chars().take(1) =~= seq![cell.character]);
    assert(start.push(cell.character) =~= start + cell.chars().take(1));
    if !push_bounded(output, length, cell.character) {
        proof {
            lemma_utf8_prefix(start, cell.chars(), 1);
        }
        return false;
    }
    let mut index: usize = 0;
    while index < cell.marks.len()
        invariant
            index <= cell.marks@.len(),
            start == old(output)@,
            output@ == start + cell.chars().take(index + 1),
            *length == utf8(output@).len() <= MAX_TERMINAL_SELECTION_BYTES,
        decreases cell.marks@.len() - index,
    {
        proof {
            assert(cell.chars()[index + 1] == cell.marks@[index as int]);
            assert(output@.push(cell.marks@[index as int]) =~= start + cell.chars().take(
                index + 2,
            ));
        }
        if !push_bounded(output, length, cell.marks[index]) {
            proof {
                lemma_utf8_prefix(start, cell.chars(), index + 2);
            }
            return false;
        }
        index += 1;
    }
    assert(cell.chars().take(index + 1) =~= cell.chars());
    true
}

/// A longer text has at least as many bytes.
proof fn lemma_utf8_prefix(start: Seq<char>, more: Seq<char>, count: int)
    requires
        0 <= count <= more.len(),
    ensures
        utf8(start + more.take(count)).len() <= utf8(start + more).len(),
{
    assert(start + more =~= (start + more.take(count)) + more.skip(count));
    lemma_utf8_concat(start + more.take(count), more.skip(count));
}

proof fn lemma_cells_text_grows(cells: Seq<Cell>, count: int, before: Seq<char>)
    requires
        0 <= count <= cells.len(),
    ensures
        utf8(before + cells_text(cells.take(count))).len() <= utf8(
            before + cells_text(cells),
        ).len(),
    decreases cells.len() - count,
{
    if count == cells.len() {
        assert(cells.take(count) =~= cells);
    } else {
        let part = cells.take(count + 1);
        assert(part.drop_last() =~= cells.take(count));
        lemma_cells_text_grows(cells, count + 1, before);
        let shorter = before + cells_text(cells.take(count));
        if !part.last().spacer() {
            assert(before + cells_text(part) =~= shorter + part.last().chars());
            lemma_utf8_concat(shorter, part.last().chars());
        }
    }
}

proof fn lemma_text_grows(
    selection: TerminalSelection,
    snapshot: FrameSnapshot,
    row: int,
    last: int,
)
    requires
        selection.row_range(snapshot).0 <= row <= last,
    ensures
        utf8(selection.text_to(snapshot, row)).len() <= utf8(
            selection.text_to(snapshot, last),
        ).len(),
    decreases last - row,
{
    if row < last {
        lemma_text_grows(selection, snapshot, row, last - 1);
        let before = selection.text_to(snapshot, last - 1);
        let more = seq!['\n'] + selection.row_text(snapshot, last as u16);
        assert(selection.text_to(snapshot, last) =~= before + more);
        lemma_utf8_concat(before, more);
    }
}

// ---------------------------------------------------------------------------
// Searching.

/// A row as text, with the column of each byte of it.
pub struct SearchableRow {
    pub row: u16,
    pub text: String,
    pub columns: Vec<u16>,
}

/// The columns of the bytes of a cell: the first one has the column at which
/// the cell begins, the others the one at which it ends.
pub open spec fn cell_columns(cell: Cell, column: int) -> Seq<u16> {
    Seq::new(
        utf8(cell.chars()).len(),
        |i: int|
            if i == 0 || cell.width != CellWidth::Wide {
                column as u16
            } else {
                (column + 1) as u16
            },
    )
}

/// The columns of the bytes of a row's text.
pub open spec fn byte_columns(cells: Seq<Cell>) -> Seq<u16>
    decreases cells.len(),
{
    if cells.len() == 0 {
        Seq::empty()
    } else {
        let before = byte_columns(cells.drop_last());
        if cells.last().spacer() {
            before
        } else {
            before + cell_columns(cells.last(), cells.len() - 1)
        }
    }
}

/// Each byte of a row's text has a column.
pub proof fn lemma_byte_columns(cells: Seq<Cell>)
    ensures
        byte_columns(cells).len() == utf8(cells_text(cells)).len(),
    decreases cells.len(),
{
    if cells.len() == 0 {
        assert(utf8(Seq::<char>::empty()).len() == 0);
    } else {
        lemma_byte_columns(cells.drop_last());
        if !cells.last().spacer() {
            lemma_utf8_concat(cells_text(cells.drop_last()), cells.last().chars());
        }
    }
}

/// The text of a row and the columns of its bytes.
pub fn searchable_row(row: u16, cells: &[Cell]) -> (line: SearchableRow)
    requires
        cells@.len() <= u16::MAX,
    ensures
        line.row == row,
        line.text@ == cells_text(cells@),
        line.columns@ == byte_columns(cells@),
{
    let mut text = String::new();
    let mut columns: Vec<u16> = Vec::new();
    let mut index: usize = 0;
    assert(cells@.take(0) =~= Seq::empty());
    while index < cells.len()
        invariant
            index <= cells@.len() <= u16::MAX,
            text@ == cells_text(cells@.take(index as int)),
            columns@ == byte_columns(cells@.take(index as int)),
        decreases cells@.len() - index,
    {
        let cell = &cells[index];
        let ghost before = cells@.take(index as int);
        assert(cells@.take(index + 1).drop_last() =~= before);
        if !cell.is_spacer() {
            let source = cell_text(cell);
            let length: usize = byte_len(source.as_str());
            let end_column: u16 = if cell.width == CellWidth::Wide {
                (index + 1) as u16
            } else {
                index as u16
            };
            let mut byte: usize = 0;
            let ghost earlier = columns@;
            let ghost added = cell_columns(*cell, index as int);
            assert(added.take(0) =~= Seq::empty());
            assert(earlier + Seq::<u16>::empty() =~= earlier);
            while byte < length
                invariant
                    byte <= length == added.len(),
                    added == cell_columns(*cell, index as int),
                    index < u16::MAX,
                    end_column == if cell.width == CellWidth::Wide {
                        index + 1
                    } else {
                        index as int
                    },
                    columns@ == earlier + added.take(byte as int),
                decreases length - byte,
            {
                let column: u16 = if byte == 0 {
                    index as u16
                } else {
                    end_column
                };
                columns.push(column);
                assert(earlier + added.take(byte + 1) =~= (earlier + added.take(
                    byte as int,
                )).push(column));
                byte += 1;
            }
            assert(added.take(length as int) =~= added);
            text.append(source.as_str());
        }
        index += 1;
    }
    assert(cells@.take(index as int) =~= cells@);
    SearchableRow { row, text, columns }
}

/// The characters of a cell.
pub fn cell_text(cell: &Cell) -> (text: String)
    ensures
        text@ == cell.chars(),
{
    let mut text = String::new();
    text.push(cell.character);
    let mut index: usize = 0;
    assert(text@ =~= cell.chars().take(1));
    while index < cell.marks.len()
        invariant
            index <= cell.marks@.len(),
            text@ == cell.chars().take(index + 1),
        decreases cell.marks@.len() - index,
    {
        text.push(cell.marks[index]);
        index += 1;
        assert(text@ =~= cell.chars().take(index + 1));
    }
    assert(cell.chars().take(index + 1) =~= cell.chars());
    text
}

/// The rows that a snapshot holds, as text.
#[verifier::ext_equal]
pub struct LineModel {
    pub row: u16,
    pub text: Seq<char>,
    pub columns: Seq<u16>,
}

impl View for SearchableRow {
    type V = LineModel;

    open spec fn view(&self) -> LineModel {
        LineModel { row: self.row, text: self.text@, columns: self.columns@ }
    }
}

/// The first `count` rows of a snapshot, as far as it holds them.
pub open spec fn lines_of(snapshot: FrameSnapshot, count: nat) -> Seq<LineModel>
    decreases count,
{
    if count == 0 {
        Seq::empty()
    } else {
        let before = lines_of(snapshot, (count - 1) as nat);
        match snapshot.row_cells(count - 1) {
            Some(cells) => before.push(
                LineModel {
                    row: (count - 1) as u16,
                    text: cells_text(cells),
                    columns: byte_columns(cells),
                },
            ),
            None => before,
        }
    }
}

pub open spec fn line_views(lines: Seq<SearchableRow>) -> Seq<LineModel> {
    lines.map_values(|line: SearchableRow| line@)
}

/// Why a search stops early.
pub enum SearchEnd {
    /// There are more matches than a result holds.
    Truncated,
    /// The expression matched the empty text.
    EmptyMatch,
}

#[verifier::ext_equal]
pub struct TerminalScan {
    pub matches: Seq<TerminalSearchMatch>,
    pub end: Option<SearchEnd>,
}

/// The cells that a range of a row's bytes lies in.
pub open spec fn cells_of_range(line: LineModel, range: (usize, usize)) -> TerminalSearchMatch {
    TerminalSearchMatch {
        start: TerminalCellPoint { row: line.row, column: line.columns[range.0 as int] },
        end: TerminalCellPoint { row: line.row, column: line.columns[range.1 - 1] },
    }
}

pub open spec fn with_range(
    scan: TerminalScan,
    whole_word: bool,
    line: LineModel,
    range: (usize, usize),
) -> TerminalScan {
    if scan.end is Some {
        scan
    } else if range.0 >= range.1 {
        TerminalScan { end: Some(SearchEnd::EmptyMatch), ..scan }
    } else if whole_word && !stands_alone(line.text, range.0 as int, range.1 as int) {
        scan
    } else if scan.matches.len() == MAX_TERMINAL_SEARCH_MATCHES {
        TerminalScan { end: Some(SearchEnd::Truncated), ..scan }
    } else {
        TerminalScan { matches: scan.matches.push(cells_of_range(line, range)), ..scan }
    }
}

pub open spec fn with_ranges(
    scan: TerminalScan,
    whole_word: bool,
    line: LineModel,
    ranges: Seq<(usize, usize)>,
) -> TerminalScan
    decreases ranges.len(),
{
    if ranges.len() == 0 {
        scan
    } else {
        with_range(
            with_ranges(scan, whole_word, line, ranges.drop_last()),
            whole_word,
            line,
            ranges.last(),
        )
    }
}

/// What the first `count` lines give.
pub open spec fn with_lines(
    whole_word: bool,
    lines: Seq<LineModel>,
    found: Seq<Seq<(usize, usize)>>,
    count: nat,
) -> TerminalScan
    decreases count,
{
    if count == 0 {
        TerminalScan { matches: Seq::empty(), end: None }
    } else {
        with_ranges(
            with_lines(whole_word, lines, found, (count - 1) as nat),
            whole_word,
            lines[count - 1],
            found[count - 1],
        )
    }
}

pub open spec fn scan_gives(
    scan: TerminalScan,
    result: Result<TerminalSearchResult, TerminalInteractionError>,
) -> bool {
    match scan.end {
        None => result matches Ok(result) && result.matches@ == scan.matches && !result.truncated,
        Some(SearchEnd::Truncated) => result matches Ok(result) && result.matches@ == scan.matches
            && result.truncated,
        Some(SearchEnd::EmptyMatch) => result matches Err(error)
            && error is EmptySearchRegexMatch,
    }
}

pub open spec fn range_views(found: Seq<Vec<(usize, usize)>>) -> Seq<Seq<(usize, usize)>> {
    found.map_values(|ranges: Vec<(usize, usize)>| ranges@)
}

/// Each line has its columns and the ranges found in it.
pub open spec fn searchable(lines: Seq<SearchableRow>, found: Seq<Vec<(usize, usize)>>) -> bool {
    &&& lines.len() == found.len()
    &&& forall|i: int|
        0 <= i < lines.len() ==> (#[trigger] lines[i]).columns@.len() == utf8(
            lines[i].text@,
        ).len() && ranges_in_text(found[i]@, lines[i].text@)
}

proof fn lemma_ranges_ended(
    scan: TerminalScan,
    whole_word: bool,
    line: LineModel,
    ranges: Seq<(usize, usize)>,
    count: int,
)
    requires
        0 <= count <= ranges.len(),
        with_ranges(scan, whole_word, line, ranges.take(count)).end is Some,
    ensures
        with_ranges(scan, whole_word, line, ranges) == with_ranges(
            scan,
            whole_word,
            line,
            ranges.take(count),
        ),
    decreases ranges.len() - count,
{
    if count == ranges.len() {
        assert(ranges.take(count) =~= ranges);
    } else {
        assert(ranges.take(count + 1).drop_last() =~= ranges.take(count));
        lemma_ranges_ended(scan, whole_word, line, ranges, count + 1);
    }
}

proof fn lemma_scan_ended(
    scan: TerminalScan,
    whole_word: bool,
    line: LineModel,
    ranges: Seq<(usize, usize)>,
)
    requires
        scan.end is Some,
    ensures
        with_ranges(scan, whole_word, line, ranges) == scan,
    decreases ranges.len(),
{
    if ranges.len() > 0 {
        lemma_scan_ended(scan, whole_word, line, ranges.drop_last());
    }
}

proof fn lemma_lines_ended(
    whole_word: bool,
    lines: Seq<LineModel>,
    found: Seq<Seq<(usize, usize)>>,
    count: nat,
    total: nat,
)
    requires
        count <= total,
        with_lines(whole_word, lines, found, count).end is Some,
    ensures
        with_lines(whole_word, lines, found, total) == with_lines(whole_word, lines, found, count),
    decreases total,
{
    if count < total {
        lemma_lines_ended(whole_word, lines, found, count, (total - 1) as nat);
        lemma_scan_ended(
            with_lines(whole_word, lines, found, count),
            whole_word,
            lines[total - 1],
            found[total - 1],
        );
    }
}

/// The matches in lines, given the ranges found in each of them.
pub fn scan_lines(
    lines: &Vec<SearchableRow>,
    found: &Vec<Vec<(usize, usize)>>,
    whole_word: bool,
) -> (result: Result<TerminalSearchResult, TerminalInteractionError>)
    requires
        searchable(lines@, found@),
    ensures
        scan_gives(
            with_lines(whole_word, line_views(lines@), range_views(found@), lines@.len()),
            result,
        ),
{
    let ghost models = line_views(lines@);
    let ghost lists = range_views(found@);
    let mut matches: Vec<TerminalSearchMatch> = Vec::new();
    let mut index: usize = 0;
    while index < lines.len()
        invariant
            index <= lines@.len(),
            searchable(lines@, found@),
            models == line_views(lines@),
            lists == range_views(found@),
            matches@.len() <= MAX_TERMINAL_SEARCH_MATCHES,
            with_lines(whole_word, models, lists, index as nat) == (TerminalScan {
                matches: matches@,
                end: None,
            }),
        decreases lines@.len() - index,
    {
        let line = &lines[index];
        let ranges = &found[index];
        let ghost before = with_lines(whole_word, models, lists, index as nat);
        proof {
            assert(models[index as int] == line@);
            assert(lists[index as int] == ranges@);
            assert(ranges@.take(0) =~= Seq::empty());
        }
        let mut next: usize = 0;
        while next < ranges.len()
            invariant
                next <= ranges@.len(),
                index < lines@.len(),
                searchable(lines@, found@),
                models == line_views(lines@),
                lists == range_views(found@),
                line@ == models[index as int],
                ranges@ == lists[index as int],
                line.columns@.len() == utf8(line.text@).len(),
                ranges_in_text(ranges@, line.text@),
                before == with_lines(whole_word, models, lists, index as nat),
                matches@.len() <= MAX_TERMINAL_SEARCH_MATCHES,
                with_ranges(before, whole_word, line@, ranges@.take(next as int)) == (
                TerminalScan { matches: matches@, end: None }),
            decreases ranges@.len() - next,
        {
            let range = ranges[next];
            assert(ranges@.take(next + 1).drop_last() =~= ranges@.take(next as int));
            next += 1;
            if range.0 == range.1 {
                proof {
                    lemma_ranges_ended(before, whole_word, line@, ranges@, next as int);
                    lemma_lines_ended(
                        whole_word,
                        models,
                        lists,
                        (index + 1) as nat,
                        lines@.len(),
                    );
                }
                return Err(TerminalInteractionError::EmptySearchRegexMatch);
            }
            if !whole_word || is_whole_word(line.text.as_str(), range.0, range.1) {
                if matches.len() == MAX_TERMINAL_SEARCH_MATCHES {
                    proof {
                        lemma_ranges_ended(before, whole_word, line@, ranges@, next as int);
                        lemma_lines_ended(
                            whole_word,
                            models,
                            lists,
                            (index + 1) as nat,
                            lines@.len(),
                        );
                    }
                    return Ok(TerminalSearchResult { matches, truncated: true });
                }
                matches.push(
                    TerminalSearchMatch {
                        start: TerminalCellPoint {
                            row: line.row,
                            column: line.columns[range.0],
                        },
                        end: TerminalCellPoint {
                            row: line.row,
                            column: line.columns[range.1 - 1],
                        },
                    },
                );
            }
        }
        assert(ranges@.take(ranges@.len() as int) =~= ranges@);
        index += 1;
    }
    Ok(TerminalSearchResult { matches, truncated: false })
}

/// The ranges of lines that match a pattern.
pub open spec fn line_matches(
    pattern: Seq<char>,
    ignore_case: bool,
    lines: Seq<LineModel>,
) -> Seq<Seq<(usize, usize)>> {
    Seq::new(lines.len(), |i: int| regex_matches(pattern, ignore_case, lines[i].text))
}

/// What was found in the empty text, and then in each of the lines.
pub open spec fn found_in_lines(
    lines: Seq<SearchableRow>,
    found: Seq<Vec<(usize, usize)>>,
) -> bool {
    found.len() == lines.len() + 1 && searchable(lines, found.skip(1))
}

/// The answer of a search, given what was found in the empty text and in the
/// lines.
pub fn answer_lines(
    lines: &Vec<SearchableRow>,
    found: Result<Vec<Vec<(usize, usize)>>, String>,
    options: TerminalSearchOptions,
) -> (result: Result<TerminalSearchResult, TerminalInteractionError>)
    requires
        found matches Ok(found) ==> found_in_lines(lines@, found@),
    ensures
        match found {
            Err(text) => result == Err::<TerminalSearchResult, _>(
                TerminalInteractionError::InvalidSearchRegex(text),
            ),
            Ok(found) => if options.regex && found@[0]@.len() > 0 {
                result matches Err(error) && error is EmptySearchRegexMatch
            } else {
                scan_gives(
                    with_lines(
                        options.whole_word,
                        line_views(lines@),
                        range_views(found@.skip(1)),
                        lines@.len(),
                    ),
                    result,
                )
            },
        },
{
    match found {
        Err(text) => Err(TerminalInteractionError::InvalidSearchRegex(text)),
        Ok(found) => {
            let mut found = found;
            let ghost all = found@;
            let blank = found.remove(0);
            assert(found@ =~= all.skip(1));
            if options.regex && blank.len() > 0 {
                return Err(TerminalInteractionError::EmptySearchRegexMatch);
            }
            scan_lines(lines, &found, options.whole_word)
        },
    }
}

/// The error of a query that cannot be compiled.
pub open spec fn is_invalid_regex(
    query: Seq<char>,
    options: TerminalSearchOptions,
    error: TerminalInteractionError,
) -> bool {
    error matches TerminalInteractionError::InvalidSearchRegex(text) && compile_words(
        query,
        options.regex,
        options.case_sensitive,
        text@,
    )
}

/// Searches a snapshot row by row.
pub fn search_terminal_snapshot(
    snapshot: &FrameSnapshot,
    query: &str,
    options: TerminalSearchOptions,
) -> (result: Result<TerminalSearchResult, TerminalInteractionError>)
    ensures
        ({
            let length = utf8(query@).len();
            let pattern = search_pattern(query@, options.regex);
            let lines = lines_of(*snapshot, snapshot.rows as nat);
            let found = line_matches(pattern, !options.case_sensitive, lines);
            if length > MAX_TERMINAL_SEARCH_QUERY_BYTES {
                result == Err::<TerminalSearchResult, _>(
                    TerminalInteractionError::SearchQueryTooLong {
                        actual: length as usize,
                        maximum: MAX_TERMINAL_SEARCH_QUERY_BYTES,
                    },
                )
            } else if length == 0 {
                result matches Ok(result) && result.matches@.len() == 0 && !result.truncated
            } else {
                ||| result matches Err(error) && is_invalid_regex(query@, options, error)
                ||| compiles(query@, options.regex, options.case_sensitive) && if options.regex
                    && regex_matches(pattern, !options.case_sensitive, ""@).len() > 0 {
                    result matches Err(error) && error is EmptySearchRegexMatch
                } else {
                    scan_gives(
                        with_lines(options.whole_word, lines, found, lines.len()),
                        result,
                    )
                }
            }
        }),
{
    let length: usize = byte_len(query);
    if length > MAX_TERMINAL_SEARCH_QUERY_BYTES {
        return Err(
            TerminalInteractionError::SearchQueryTooLong {
                actual: length,
                maximum: MAX_TERMINAL_SEARCH_QUERY_BYTES,
            },
        );
    }
    if length == 0 {
        return Ok(TerminalSearchResult::default());
    }
    let wanted = regex_query(query, options.regex, options.case_sensitive);
    let mut lines: Vec<SearchableRow> = Vec::new();
    let mut texts: Vec<String> = Vec::new();
    texts.push("".to_owned());
    let mut row: u16 = 0;
    assert(line_views(lines@) =~= lines_of(*snapshot, 0));
    while row < snapshot.rows
        invariant
            row <= snapshot.rows,
            line_views(lines@) == lines_of(*snapshot, row as nat),
            texts@.len() == lines@.len() + 1,
            texts@[0]@ == ""@,
            forall|i: int| 0 <= i < lines@.len() ==> texts@[i + 1]@ == (#[trigger] lines@[i]).text@,
            forall|i: int|
                0 <= i < lines@.len() ==> (#[trigger] lines@[i]).columns@.len() == utf8(
                    lines@[i].text@,
                ).len(),
        decreases snapshot.rows - row,
    {
        if let Some(cells) = snapshot.row(row) {
            let line = searchable_row(row, cells);
            proof {
                lemma_byte_columns(cells@);
            }
            let ghost model = line@;
            texts.push(line.text.clone());
            lines.push(line);
            assert(line_views(lines@) =~= lines_of(*snapshot, row as nat).push(model));
        }
        row += 1;
    }
    proof {
        lemma_pattern_length(query@, options.regex);
    }
    let found = find_regex(&wanted, &texts);
    proof {
        if let Ok(lists) = &found {
            let rest = lists@.skip(1);
            assert(lists@[0]@ == regex_matches(wanted.pattern@, wanted.ignore_case, texts@[0]@));
            assert forall|i: int| 0 <= i < lines@.len() implies (
            #[trigger] lines@[i]).columns@.len() == utf8(lines@[i].text@).len() && ranges_in_text(
                rest[i]@,
                lines@[i].text@,
            ) && rest[i]@ == regex_matches(
                wanted.pattern@,
                wanted.ignore_case,
                lines@[i].text@,
            ) by {
                assert(texts@[i + 1]@ == lines@[i].text@);
                assert(rest[i] == lists@[i + 1]);
            }
            let models = line_views(lines@);
            assert(range_views(rest) =~= line_matches(wanted.pattern@, wanted.ignore_case, models));
        }
    }
    answer_lines(&lines, found, options)
}

// ---------------------------------------------------------------------------
// Laws.

/// The columns of a row's bytes go up and stay in the row.
pub proof fn law_columns_rise(cells: Seq<Cell>, first: int, second: int)
    requires
        cells.len() <= u16::MAX,
        0 <= first <= second < byte_columns(cells).len(),
    ensures
        byte_columns(cells)[first] <= byte_columns(cells)[second] <= cells.len(),
    decreases cells.len(),
{
    let before = byte_columns(cells.drop_last());
    if first < before.len() {
        law_columns_rise(cells.drop_last(), first, first);
        if second < before.len() {
            law_columns_rise(cells.drop_last(), first, second);
        }
    }
}

/// It makes no difference at which end a selection was begun.
pub proof fn law_selection_has_no_direction(
    selection: TerminalSelection,
    snapshot: FrameSnapshot,
    row: u16,
    column: u16,
)
    ensures
        ({
            let turned = TerminalSelection {
                anchor: selection.focus,
                focus: selection.anchor,
                mode: selection.mode,
            };
            &&& turned.covers(snapshot, row, column) == selection.covers(snapshot, row, column)
            &&& turned.selected(snapshot) == selection.selected(snapshot)
        }),
{
    let turned = TerminalSelection {
        anchor: selection.focus,
        focus: selection.anchor,
        mode: selection.mode,
    };
    assert(turned.row_range(snapshot) == selection.row_range(snapshot));
    lemma_turned_text(selection, turned, snapshot, selection.row_range(snapshot).1);
}

proof fn lemma_turned_text(
    selection: TerminalSelection,
    turned: TerminalSelection,
    snapshot: FrameSnapshot,
    row: int,
)
    requires
        turned == (TerminalSelection {
            anchor: selection.focus,
            focus: selection.anchor,
            mode: selection.mode,
        }),
    ensures
        turned.text_to(snapshot, row) == selection.text_to(snapshot, row),
    decreases row,
{
    assert(in_order(selection.anchor, selection.focus) == in_order(
        selection.focus,
        selection.anchor,
    ));
    assert(turned.row_columns(snapshot, row as u16) == selection.row_columns(
        snapshot,
        row as u16,
    ));
    assert(turned.row_range(snapshot) == selection.row_range(snapshot));
    if row > selection.row_range(snapshot).0 {
        lemma_turned_text(selection, turned, snapshot, row - 1);
    }
}

/// A result never holds more matches than its limit, and says that it was cut
/// only when it is full.
pub proof fn law_result_is_bounded(
    whole_word: bool,
    lines: Seq<LineModel>,
    found: Seq<Seq<(usize, usize)>>,
    count: nat,
)
    ensures
        ({
            let scan = with_lines(whole_word, lines, found, count);
            &&& scan.matches.len() <= MAX_TERMINAL_SEARCH_MATCHES
            &&& scan.end matches Some(SearchEnd::Truncated) ==> scan.matches.len()
                == MAX_TERMINAL_SEARCH_MATCHES
        }),
    decreases count,
{
    if count > 0 {
        law_result_is_bounded(whole_word, lines, found, (count - 1) as nat);
        lemma_ranges_bounded(
            with_lines(whole_word, lines, found, (count - 1) as nat),
            whole_word,
            lines[count - 1],
            found[count - 1],
        );
    }
}

proof fn lemma_ranges_bounded(
    scan: TerminalScan,
    whole_word: bool,
    line: LineModel,
    ranges: Seq<(usize, usize)>,
)
    requires
        scan.matches.len() <= MAX_TERMINAL_SEARCH_MATCHES,
        scan.end matches Some(SearchEnd::Truncated) ==> scan.matches.len()
            == MAX_TERMINAL_SEARCH_MATCHES,
    ensures
        ({
            let after = with_ranges(scan, whole_word, line, ranges);
            &&& after.matches.len() <= MAX_TERMINAL_SEARCH_MATCHES
            &&& after.end matches Some(SearchEnd::Truncated) ==> after.matches.len()
                == MAX_TERMINAL_SEARCH_MATCHES
        }),
    decreases ranges.len(),
{
    if ranges.len() > 0 {
        lemma_ranges_bounded(scan, whole_word, line, ranges.drop_last());
    }
}

} // verus!
