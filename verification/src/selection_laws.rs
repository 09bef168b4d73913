//! What a selection copies, told by what it highlights.
use crate::terminal::{Cell, CellWidth, FrameSnapshot};
use crate::terminal_interaction::{
    byte_columns, cells_text, lemma_byte_columns, snapped, TerminalCellPoint, TerminalSelection,
    TerminalSelectionMode,
};
use crate::text::{lemma_utf8_concat, lemma_utf8_len, utf8};
use vstd::prelude::*;

verus! {

/// A selection highlights a cell of a row.
pub open spec fn touches(selection: TerminalSelection, snapshot: FrameSnapshot, row: u16) -> bool {
    exists|column: u16| #[trigger] selection.covers(snapshot, row, column)
}

/// The characters of the first `count` cells of a row that are highlighted, in
/// order and without the fillers of wide ones.
pub open spec fn highlighted(
    selection: TerminalSelection,
    snapshot: FrameSnapshot,
    row: u16,
    cells: Seq<Cell>,
    count: int,
) -> Seq<char>
    decreases count,
{
    if count <= 0 {
        Seq::empty()
    } else {
        let before = highlighted(selection, snapshot, row, cells, count - 1);
        let cell = cells[count - 1];
        if selection.covers(snapshot, row, (count - 1) as u16) && cell.width
            != CellWidth::WideSpacer && cell.width != CellWidth::LeadingWideSpacer {
            before + cell.chars()
        } else {
            before
        }
    }
}

/// The highlighted characters of a row; none where the snapshot lacks the row.
pub open spec fn highlighted_row(
    selection: TerminalSelection,
    snapshot: FrameSnapshot,
    row: u16,
) -> Seq<char> {
    match snapshot.row_cells(row as int) {
        Some(cells) => highlighted(selection, snapshot, row, cells, cells.len() as int),
        None => Seq::empty(),
    }
}

/// The highlighted characters of the first `count` rows, a line for each row
/// that has a highlighted cell: none before the first such row.
pub open spec fn highlighted_rows(
    selection: TerminalSelection,
    snapshot: FrameSnapshot,
    count: int,
) -> Option<Seq<char>>
    decreases count,
{
    if count <= 0 {
        None
    } else {
        let before = highlighted_rows(selection, snapshot, count - 1);
        let row = (count - 1) as u16;
        if !touches(selection, snapshot, row) {
            before
        } else {
            match before {
                None => Some(highlighted_row(selection, snapshot, row)),
                Some(text) => Some(
                    text + seq!['\n'] + highlighted_row(selection, snapshot, row),
                ),
            }
        }
    }
}

/// The ends of a selection lie where the grid is: those of a selection of
/// characters in its rows, the upper one of a selection of lines or of a block
/// in its rows, and the left one of a block in its columns.
pub open spec fn in_grid(selection: TerminalSelection, snapshot: FrameSnapshot) -> bool {
    let (anchor, focus) = (selection.anchor, selection.focus);
    &&& snapshot.cols > 0
    &&& match selection.mode {
        TerminalSelectionMode::Character => anchor.row < snapshot.rows && focus.row < snapshot.rows,
        TerminalSelectionMode::Line => anchor.row < snapshot.rows || focus.row < snapshot.rows,
        TerminalSelectionMode::Block => {
            &&& anchor.row < snapshot.rows || focus.row < snapshot.rows
            &&& anchor.column < snapshot.cols || focus.column < snapshot.cols
        },
    }
}

/// Within the rows that a selection takes, it covers the characters of the
/// columns that it takes.
proof fn lemma_columns_covered(
    selection: TerminalSelection,
    snapshot: FrameSnapshot,
    row: u16,
    column: u16,
)
    requires
        in_grid(selection, snapshot),
        selection.row_range(snapshot).0 <= row <= selection.row_range(snapshot).1,
        column < snapshot.cols,
        snapshot.row_cells(row as int) matches Some(cells) ==> !cells[column as int].spacer(),
    ensures
        ({
            let (first, last) = selection.row_columns(snapshot, row);
            selection.covers(snapshot, row, column) == (first <= column <= last)
        }),
{
    lemma_row_length(snapshot, row as int);
    lemma_row_length(snapshot, selection.anchor.row as int);
    lemma_row_length(snapshot, selection.focus.row as int);
}

proof fn lemma_row_length(snapshot: FrameSnapshot, row: int)
    ensures
        snapshot.row_cells(row) matches Some(cells) ==> cells.len() == snapshot.cols,
{
    assert((row + 1) * snapshot.cols == row * snapshot.cols + snapshot.cols)
        by (nonlinear_arith);
    assert(row >= 0 ==> row * snapshot.cols >= 0) by (nonlinear_arith);
}

/// A selection takes the rows that it touches.
proof fn lemma_rows_touched(selection: TerminalSelection, snapshot: FrameSnapshot, row: u16)
    requires
        in_grid(selection, snapshot),
    ensures
        touches(selection, snapshot, row) == (selection.row_range(snapshot).0 <= row
            <= selection.row_range(snapshot).1),
{
    let (first, last) = selection.row_range(snapshot);
    if first <= row <= last {
        match selection.mode {
            TerminalSelectionMode::Character => {
                let (start, end) = crate::terminal_interaction::in_order(
                    snapped(snapshot, selection.anchor),
                    snapped(snapshot, selection.focus),
                );
                if row == start.row {
                    lemma_row_length(snapshot, row as int);
                    lemma_snapped_covers(selection, snapshot);
                    assert(touches(selection, snapshot, row));
                } else if row == end.row {
                    assert(selection.covers(snapshot, row, 0));
                } else {
                    assert(selection.covers(snapshot, row, 0));
                }
            },
            TerminalSelectionMode::Line => {
                assert(selection.covers(snapshot, row, 0));
            },
            TerminalSelectionMode::Block => {
                let column = crate::terminal_interaction::lower(
                    selection.anchor.column,
                    selection.focus.column,
                );
                assert(selection.covers(snapshot, row, column));
            },
        }
    }
}

/// A selection of characters covers its earlier end.
proof fn lemma_snapped_covers(selection: TerminalSelection, snapshot: FrameSnapshot)
    requires
        in_grid(selection, snapshot),
        selection.mode is Character,
    ensures
        ({
            let (start, end) = crate::terminal_interaction::in_order(
                snapped(snapshot, selection.anchor),
                snapped(snapshot, selection.focus),
            );
            touches(selection, snapshot, start.row)
        }),
{
    let (start, end) = crate::terminal_interaction::in_order(
        snapped(snapshot, selection.anchor),
        snapped(snapshot, selection.focus),
    );
    let source = if crate::terminal_interaction::not_after(
        snapped(snapshot, selection.anchor),
        snapped(snapshot, selection.focus),
    ) {
        selection.anchor
    } else {
        selection.focus
    };
    let column = crate::terminal_interaction::lower(
        source.column,
        crate::terminal_interaction::last_of(snapshot.cols),
    );
    assert(snapped(snapshot, TerminalCellPoint { row: start.row, column }) == start);
    assert(selection.covers(snapshot, start.row, column));
}

/// The highlighted characters of a row are those of the columns taken.
proof fn lemma_row_highlighted(
    selection: TerminalSelection,
    snapshot: FrameSnapshot,
    row: u16,
    cells: Seq<Cell>,
    count: int,
)
    requires
        in_grid(selection, snapshot),
        selection.row_range(snapshot).0 <= row <= selection.row_range(snapshot).1,
        snapshot.row_cells(row as int) == Some(cells),
        cells.len() == snapshot.cols,
        0 <= count <= cells.len(),
    ensures
        ({
            let (first, last) = selection.row_columns(snapshot, row);
            let end = if count <= last {
                count
            } else {
                last + 1
            };
            &&& last < cells.len()
            &&& highlighted(selection, snapshot, row, cells, count) == if first < end {
                cells_text(cells.subrange(first as int, end))
            } else {
                Seq::empty()
            }
        }),
    decreases count,
{
    let (first, last) = selection.row_columns(snapshot, row);
    if count > 0 {
        lemma_row_highlighted(selection, snapshot, row, cells, count - 1);
        let column = (count - 1) as u16;
        if !cells[column as int].spacer() {
            lemma_columns_covered(selection, snapshot, row, column);
        }
        if first <= column <= last {
            let part = cells.subrange(first as int, count);
            assert(part.drop_last() =~= cells.subrange(first as int, count - 1));
            assert(part.last() == cells[count - 1]);
            if first == column {
                assert(part.drop_last() =~= Seq::<Cell>::empty());
                assert(cells_text(part.drop_last()) =~= Seq::<char>::empty());
            }
        }
    }
}

/// In the rows that it takes, a selection copies of each row the characters of
/// the cells that it highlights: all of them, in order, and nothing else.
pub proof fn law_row_is_copied_as_highlighted(
    selection: TerminalSelection,
    snapshot: FrameSnapshot,
    row: u16,
)
    requires
        in_grid(selection, snapshot),
        touches(selection, snapshot, row),
    ensures
        selection.row_text(snapshot, row) == highlighted_row(selection, snapshot, row),
{
    lemma_rows_touched(selection, snapshot, row);
    lemma_row_length(snapshot, row as int);
    if let Some(cells) = snapshot.row_cells(row as int) {
        lemma_row_highlighted(selection, snapshot, row, cells, cells.len() as int);
    }
}

proof fn lemma_rows_copied(selection: TerminalSelection, snapshot: FrameSnapshot, count: int)
    requires
        in_grid(selection, snapshot),
        0 <= count <= snapshot.rows,
    ensures
        ({
            let (first, last) = selection.row_range(snapshot);
            highlighted_rows(selection, snapshot, count) == if count <= first {
                None
            } else if count <= last {
                Some(selection.text_to(snapshot, count - 1))
            } else {
                Some(selection.text_to(snapshot, last))
            }
        }),
    decreases count,
{
    if count > 0 {
        lemma_rows_copied(selection, snapshot, count - 1);
        let row = (count - 1) as u16;
        lemma_rows_touched(selection, snapshot, row);
        let (first, last) = selection.row_range(snapshot);
        if touches(selection, snapshot, row) {
            law_row_is_copied_as_highlighted(selection, snapshot, row);
            if row > first {
                let text = selection.text_to(snapshot, row - 1);
                assert(text.push('\n') =~= text + seq!['\n']);
            }
        }
    }
}

/// What is copied is what is highlighted: the text of a selection is that of
/// the cells that it covers, row by row, in order and without fillers, with a
/// line break between rows.
pub proof fn law_copies_what_is_highlighted(selection: TerminalSelection, snapshot: FrameSnapshot)
    requires
        in_grid(selection, snapshot),
    ensures
        highlighted_rows(selection, snapshot, snapshot.rows as int) == Some(
            selection.selected(snapshot),
        ),
{
    lemma_rows_copied(selection, snapshot, snapshot.rows as int);
}

/// The place of a cell in reading order.
pub open spec fn place(snapshot: FrameSnapshot, row: u16, column: u16) -> int {
    row * snapshot.cols + column
}

/// The cell holds a character of its own.
pub open spec fn holds_character(snapshot: FrameSnapshot, row: u16, column: u16) -> bool {
    snapshot.row_cells(row as int) matches Some(cells) ==> cells[column as int].width
        != CellWidth::WideSpacer
}

proof fn lemma_place_order(
    snapshot: FrameSnapshot,
    row: u16,
    column: u16,
    other_row: u16,
    other_column: u16,
)
    requires
        column < snapshot.cols,
        other_column < snapshot.cols,
    ensures
        (place(snapshot, row, column) <= place(snapshot, other_row, other_column)) == (row
            < other_row || row == other_row && column <= other_column),
{
    let width = snapshot.cols as int;
    if row < other_row {
        assert(row * width + width <= other_row * width) by (nonlinear_arith)
            requires
                row + 1 <= other_row,
                width >= 0,
        ;
    } else if other_row < row {
        assert(other_row * width + width <= row * width) by (nonlinear_arith)
            requires
                other_row + 1 <= row,
                width >= 0,
        ;
    }
}

/// A selection of characters highlights the cells from its one end to the
/// other in reading order, both among them, and no cell before the earlier end
/// or behind the later one.
pub proof fn law_characters_between_the_ends_are_highlighted(
    selection: TerminalSelection,
    snapshot: FrameSnapshot,
    row: u16,
    column: u16,
)
    requires
        selection.mode is Character,
        selection.anchor.row < snapshot.rows,
        selection.focus.row < snapshot.rows,
        selection.anchor.column < snapshot.cols,
        selection.focus.column < snapshot.cols,
        row < snapshot.rows,
        column < snapshot.cols,
        holds_character(snapshot, row, column),
        holds_character(snapshot, selection.anchor.row, selection.anchor.column),
        holds_character(snapshot, selection.focus.row, selection.focus.column),
    ensures
        ({
            let anchor = place(snapshot, selection.anchor.row, selection.anchor.column);
            let focus = place(snapshot, selection.focus.row, selection.focus.column);
            let cell = place(snapshot, row, column);
            selection.covers(snapshot, row, column) <==> (anchor <= cell <= focus || focus <= cell
                <= anchor)
        }),
{
    let (anchor, focus) = (selection.anchor, selection.focus);
    lemma_place_order(snapshot, anchor.row, anchor.column, focus.row, focus.column);
    lemma_place_order(snapshot, anchor.row, anchor.column, row, column);
    lemma_place_order(snapshot, row, column, focus.row, focus.column);
    lemma_place_order(snapshot, focus.row, focus.column, row, column);
    lemma_place_order(snapshot, row, column, anchor.row, anchor.column);
}

/// Both halves of a wide character are highlighted or neither, and an end of a
/// selection in the second half is as good as one in the first.
pub proof fn law_wide_characters_are_taken_whole(
    selection: TerminalSelection,
    snapshot: FrameSnapshot,
    row: u16,
    column: u16,
    cells: Seq<Cell>,
)
    requires
        selection.mode is Character,
        snapshot.row_cells(row as int) == Some(cells),
        0 < column < snapshot.cols,
        row < snapshot.rows,
        cells[column as int].width == CellWidth::WideSpacer,
        cells[column - 1].width != CellWidth::WideSpacer,
    ensures
        selection.covers(snapshot, row, column) == selection.covers(
            snapshot,
            row,
            (column - 1) as u16,
        ),
        forall|other_row: u16, other_column: u16|
            selection.anchor == (TerminalCellPoint { row, column }) ==> #[trigger] selection.covers(
                snapshot,
                other_row,
                other_column,
            ) == (TerminalSelection {
                anchor: TerminalCellPoint { row, column: (column - 1) as u16 },
                ..selection
            }).covers(snapshot, other_row, other_column),
{
    lemma_row_length(snapshot, row as int);
}

/// A selection of lines highlights the rows from its one end to the other,
/// whole.
pub proof fn law_lines_are_highlighted_whole(
    selection: TerminalSelection,
    snapshot: FrameSnapshot,
    row: u16,
    column: u16,
)
    requires
        selection.mode is Line,
        row < snapshot.rows,
        column < snapshot.cols,
    ensures
        selection.covers(snapshot, row, column) <==> (selection.anchor.row <= row
            <= selection.focus.row || selection.focus.row <= row <= selection.anchor.row),
{
}

/// A block highlights the rectangle between its ends.
pub proof fn law_block_is_a_rectangle(
    selection: TerminalSelection,
    snapshot: FrameSnapshot,
    row: u16,
    column: u16,
)
    requires
        selection.mode is Block,
        row < snapshot.rows,
        column < snapshot.cols,
    ensures
        selection.covers(snapshot, row, column) <==> (selection.anchor.row <= row
            <= selection.focus.row || selection.focus.row <= row <= selection.anchor.row) && (
        selection.anchor.column <= column <= selection.focus.column || selection.focus.column
            <= column <= selection.anchor.column),
{
}

/// Nothing outside the grid is highlighted.
pub proof fn law_nothing_outside_is_highlighted(
    selection: TerminalSelection,
    snapshot: FrameSnapshot,
    row: u16,
    column: u16,
)
    requires
        row >= snapshot.rows || column >= snapshot.cols,
    ensures
        !selection.covers(snapshot, row, column),
{
}

// ---------------------------------------------------------------------------
// Where the bytes of a row stand.

proof fn lemma_columns_of_front(cells: Seq<Cell>, count: int)
    requires
        0 <= count <= cells.len(),
    ensures
        byte_columns(cells).len() >= byte_columns(cells.take(count)).len(),
        byte_columns(cells).take(byte_columns(cells.take(count)).len() as int) == byte_columns(
            cells.take(count),
        ),
    decreases cells.len() - count,
{
    if count == cells.len() {
        assert(cells.take(count) =~= cells);
        assert(byte_columns(cells).take(byte_columns(cells).len() as int) =~= byte_columns(cells));
    } else {
        let part = cells.take(count + 1);
        assert(part.drop_last() =~= cells.take(count));
        lemma_columns_of_front(cells, count + 1);
        let shorter = byte_columns(cells.take(count));
        let all = byte_columns(cells);
        assert(byte_columns(part).take(shorter.len() as int) =~= shorter);
        assert(all.take(shorter.len() as int) =~= all.take(byte_columns(part).len() as int).take(
            shorter.len() as int,
        ));
    }
}

/// In the text of a row, the first byte of a cell's characters stands in the
/// column of the cell, and the last one too, but for a wide cell of more than
/// one byte, whose last byte stands in the column after it.
pub proof fn law_bytes_stand_in_their_cells(cells: Seq<Cell>, index: int)
    requires
        cells.len() <= u16::MAX,
        0 <= index < cells.len(),
        cells[index].width != CellWidth::WideSpacer,
        cells[index].width != CellWidth::LeadingWideSpacer,
    ensures
        ({
            let start = utf8(cells_text(cells.take(index))).len() as int;
            let end = utf8(cells_text(cells.take(index + 1))).len() as int;
            let columns = byte_columns(cells);
            &&& end - start == utf8(cells[index].chars()).len()
            &&& start < end <= columns.len() == utf8(cells_text(cells)).len()
            &&& columns[start] == index
            &&& columns[end - 1] == if cells[index].width == CellWidth::Wide && end - start > 1 {
                index + 1
            } else {
                index
            }
        }),
{
    let part = cells.take(index + 1);
    assert(part.drop_last() =~= cells.take(index));
    lemma_byte_columns(cells);
    lemma_byte_columns(part);
    lemma_byte_columns(cells.take(index));
    lemma_columns_of_front(cells, index + 1);
    lemma_utf8_concat(cells_text(cells.take(index)), cells[index].chars());
    lemma_utf8_len(cells[index].chars());
    let end = byte_columns(part).len() as int;
    let start = byte_columns(cells.take(index)).len() as int;
    assert(byte_columns(cells).take(end)[start] == byte_columns(part)[start]);
    assert(byte_columns(cells).take(end)[end - 1] == byte_columns(part)[end - 1]);
}

} // verus!
