//! How the lines of a log are broken into rows of the screen.
use crate::log_reflow::{
    broken, cluster, cluster_cells, control_code, flow_line, flow_row, flow_rows,
    grapheme_boundary, one_line, row_fault, span_fits, span_total, spans_fit, text_total,
    valid_page, with_cluster, LogPage, LogRow, LogVisualRow,
};
use crate::outside::{cuts_text, grapheme_starts, text_width};
use crate::text::utf8;
use vstd::prelude::*;

verus! {

/// The byte at which character `k` of a text begins; behind the last one, the
/// end of the text.
pub open spec fn byte_of(text: Seq<char>, k: int) -> int {
    if k < grapheme_starts(text).len() {
        grapheme_starts(text)[k] as int
    } else {
        utf8(text).len() as int
    }
}

/// The cell behind the first `k` characters of a line. A tab reaches to the
/// next multiple of eight, a character of one column or none takes one cell,
/// any other one two.
pub open spec fn cell_of(text: Seq<char>, k: int) -> int
    decreases k,
{
    if k <= 0 {
        0
    } else {
        let before = cell_of(text, k - 1);
        let shown = cluster(text, k - 1);
        if shown == seq!['\t'] {
            (before / 8 + 1) * 8
        } else if text_width(shown) > 1 {
            before + 2
        } else {
            before + 1
        }
    }
}

/// A row of the screen shows the characters of a line from `from` up to `to`,
/// in their cells.
pub open spec fn shows(row: LogVisualRow, text: Seq<char>, from: int, to: int) -> bool {
    &&& 0 <= from <= to <= grapheme_starts(text).len()
    &&& row.start_byte == byte_of(text, from)
    &&& row.end_byte == byte_of(text, to)
    &&& row.start_cell == cell_of(text, from)
    &&& row.end_cell == cell_of(text, to)
}

/// A row of the screen was ended because the next character of the line did not
/// fit into it any more.
pub open spec fn ended_full(row: LogVisualRow, text: Seq<char>, columns: int) -> bool {
    exists|from: int, to: int| #[trigger]
        shows(row, text, from, to) && from < to < grapheme_starts(text).len() && cell_of(
            text,
            to + 1,
        ) - cell_of(text, from) > columns
}

/// The row shows some characters of the line.
pub open spec fn shows_some(row: LogVisualRow, text: Seq<char>) -> bool {
    exists|from: int, to: int| #[trigger] shows(row, text, from, to)
}

/// Every character takes a cell at least, a tab up to eight and any other one
/// at most two, and behind a tab stands a multiple of eight.
pub proof fn law_cells_of_characters(text: Seq<char>, k: int)
    requires
        0 <= k,
    ensures
        0 <= cell_of(text, k) < cell_of(text, k + 1) <= cell_of(text, k) + 8,
        cluster(text, k) == seq!['\t'] ==> cell_of(text, k + 1) % 8 == 0,
        cluster(text, k) != seq!['\t'] ==> cell_of(text, k + 1) <= cell_of(text, k) + 2,
    decreases k,
{
    if k > 0 {
        law_cells_of_characters(text, k - 1);
    }
}

/// What holds while a line is broken: all that was ended was full, and the open
/// row begins at a character.
spec fn breaking(
    flow: crate::log_reflow::LineFlow,
    earlier: Seq<LogVisualRow>,
    logical: int,
    text: Seq<char>,
    columns: int,
    count: int,
    open: int,
) -> bool {
    &&& earlier.len() <= flow.rows.len()
    &&& flow.rows.take(earlier.len() as int) == earlier
    &&& flow.cell == cell_of(text, count) <= u32::MAX
    &&& 0 <= open <= count
    &&& open < count || count == 0
    &&& flow.start_byte == byte_of(text, open)
    &&& flow.start_cell == cell_of(text, open)
    &&& 0 <= flow.start_cell <= flow.cell
    &&& forall|i: int|
        earlier.len() <= i < flow.rows.len() ==> (#[trigger] flow.rows[i]).logical_row_index
            == logical && ended_full(flow.rows[i], text, columns)
}

proof fn lemma_breaking(
    earlier: Seq<LogVisualRow>,
    logical: int,
    row: LogRow,
    columns: int,
    count: nat,
) -> (open: int)
    requires
        0 <= logical <= u32::MAX,
        cuts_text(grapheme_starts(row.text@), row.text@),
        utf8(row.text@).len() <= u32::MAX,
        count <= grapheme_starts(row.text@).len(),
        flow_line(earlier, logical, row, columns, count).fault is None,
    ensures
        breaking(
            flow_line(earlier, logical, row, columns, count),
            earlier,
            logical,
            row.text@,
            columns,
            count as int,
            open,
        ),
    decreases count,
{
    let text = row.text@;
    let starts = grapheme_starts(text);
    if count == 0 {
        assert(earlier.take(earlier.len() as int) =~= earlier);
        assert(byte_of(text, 0) == 0);
        0
    } else {
        let last = (count - 1) as nat;
        let before = flow_line(earlier, logical, row, columns, last);
        let open = lemma_breaking(earlier, logical, row, columns, last);
        let cells = cluster_cells(cluster(text, last as int), before.cell);
        law_cells_of_characters(text, last as int);
        assert(cells == cell_of(text, count as int) - cell_of(text, last as int));
        let after = flow_line(earlier, logical, row, columns, count);
        assert(after == with_cluster(
            before,
            logical,
            row.line_id,
            columns,
            starts[last as int] as int,
            cells,
        ));
        if before.cell > before.start_cell && before.cell - before.start_cell + cells > columns {
            let ended = broken(before, logical, starts[last as int] as int);
            let made = ended.rows.last();
            assert(open < last) by {
                if last == 0 {
                    assert(before.start_cell == 0);
                }
            }
            assert(starts[open] < starts[last as int]);
            assert(starts[last as int] < utf8(text).len());
            assert(shows(made, text, open, last as int));
            assert(ended_full(made, text, columns));
            assert(after.rows == before.rows.push(made));
            assert(after.rows.take(earlier.len() as int) =~= before.rows.take(
                earlier.len() as int,
            ));
            assert forall|i: int| earlier.len() <= i < after.rows.len() implies (
            #[trigger] after.rows[i]).logical_row_index == logical && ended_full(
                after.rows[i],
                text,
                columns,
            ) by {
                if i < before.rows.len() {
                    assert(after.rows[i] == before.rows[i]);
                }
            }
            last as int
        } else {
            open
        }
    }
}

proof fn lemma_row_broken(
    earlier: Seq<LogVisualRow>,
    logical: int,
    row: LogRow,
    columns: int,
)
    requires
        0 <= logical <= u32::MAX,
        cuts_text(grapheme_starts(row.text@), row.text@),
        utf8(row.text@).len() <= u32::MAX,
        flow_row(earlier, logical, row, columns).fault is None,
    ensures
        ({
            let rows = flow_row(earlier, logical, row, columns).rows;
            &&& earlier.len() < rows.len()
            &&& rows.take(earlier.len() as int) == earlier
            &&& forall|i: int|
                earlier.len() <= i < rows.len() ==> (#[trigger] rows[i]).logical_row_index
                    == logical && shows_some(rows[i], row.text@)
            &&& forall|i: int|
                earlier.len() <= i < rows.len() - 1 ==> ended_full(
                    #[trigger] rows[i],
                    row.text@,
                    columns,
                )
            &&& rows.last().end_byte == utf8(row.text@).len()
        }),
{
    let text = row.text@;
    let total = grapheme_starts(text).len();
    let before = flow_line(earlier, logical, row, columns, total);
    let open = lemma_breaking(earlier, logical, row, columns, total);
    let after = broken(before, logical, utf8(text).len() as int);
    let made = after.rows.last();
    assert(byte_of(text, total as int) == utf8(text).len());
    assert(shows(made, text, open, total as int));
    assert(after.rows == before.rows.push(made));
    assert(after.rows.take(earlier.len() as int) =~= before.rows.take(earlier.len() as int));
    assert forall|i: int| earlier.len() <= i < after.rows.len() implies (
    #[trigger] after.rows[i]).logical_row_index == logical && shows_some(after.rows[i], text) by {
        if i < before.rows.len() {
            assert(after.rows[i] == before.rows[i]);
            assert(ended_full(before.rows[i], text, columns));
            let (from, to) = choose|from: int, to: int| #[trigger]
                shows(before.rows[i], text, from, to) && from < to < grapheme_starts(text).len()
                    && cell_of(text, to + 1) - cell_of(text, from) > columns;
            assert(shows(after.rows[i], text, from, to));
        }
    }
    assert forall|i: int| earlier.len() <= i < after.rows.len() - 1 implies ended_full(
        #[trigger] after.rows[i],
        text,
        columns,
    ) by {
        assert(after.rows[i] == before.rows[i]);
    }
}

/// The lines of a page can be laid out: their characters are cut as a reader
/// sees them and their bytes can be counted.
pub open spec fn can_be_laid_out(page: Seq<LogRow>) -> bool {
    &&& page.len() <= u32::MAX
    &&& forall|i: int|
        0 <= i < page.len() ==> cuts_text(
            grapheme_starts((#[trigger] page[i]).text@),
            page[i].text@,
        ) && utf8(page[i].text@).len() <= u32::MAX
}

/// Every row of the screen shows characters of its line in the cells that they
/// have in the line, whatever the width of the screen; a line is broken only
/// where its next character does not fit into the row any more.
pub proof fn law_lines_are_broken_where_rows_are_full(
    page: Seq<LogRow>,
    columns: int,
    rows: Seq<LogVisualRow>,
)
    requires
        can_be_laid_out(page),
        flow_rows(page, columns) == Ok::<Seq<LogVisualRow>, crate::log_reflow::LogSurfaceError>(
            rows,
        ),
    ensures
        forall|i: int|
            0 <= i < rows.len() ==> (#[trigger] rows[i]).logical_row_index < page.len()
                && shows_some(rows[i], page[rows[i].logical_row_index as int].text@),
        forall|i: int, j: int|
            0 <= i && j == i + 1 && j < rows.len() && (#[trigger] rows[i]).logical_row_index == (
            #[trigger] rows[j]).logical_row_index ==> ended_full(
                rows[i],
                page[rows[i].logical_row_index as int].text@,
                columns,
            ),
    decreases page.len(),
{
    if page.len() > 0 {
        let front = page.drop_last();
        let last = page.len() - 1;
        let earlier = flow_rows(front, columns)->Ok_0;
        assert forall|i: int| 0 <= i < front.len() implies cuts_text(
            grapheme_starts((#[trigger] front[i]).text@),
            front[i].text@,
        ) && utf8(front[i].text@).len() <= u32::MAX by {
            assert(front[i] == page[i]);
        }
        law_lines_are_broken_where_rows_are_full(front, columns, earlier);
        assert(page.last() == page[last]);
        lemma_row_broken(earlier, last, page[last], columns);
        assert forall|i: int| 0 <= i < rows.len() implies (
        #[trigger] rows[i]).logical_row_index < page.len() && shows_some(
            rows[i],
            page[rows[i].logical_row_index as int].text@,
        ) by {
            if i < earlier.len() {
                assert(rows.take(earlier.len() as int)[i] == earlier[i]);
                assert(front[earlier[i].logical_row_index as int]
                    == page[earlier[i].logical_row_index as int]);
            }
        }
        assert forall|i: int, j: int|
            0 <= i && j == i + 1 && j < rows.len() && (#[trigger] rows[i]).logical_row_index == (
            #[trigger] rows[j]).logical_row_index implies ended_full(
            rows[i],
            page[rows[i].logical_row_index as int].text@,
            columns,
        ) by {
            if i < earlier.len() {
                assert(rows.take(earlier.len() as int)[i] == earlier[i]);
                assert(front[earlier[i].logical_row_index as int]
                    == page[earlier[i].logical_row_index as int]);
                if j < earlier.len() {
                    assert(rows.take(earlier.len() as int)[j] == earlier[j]);
                }
            }
        }
    }
}

// ---------------------------------------------------------------------------
// Pages.

/// A character that a row cannot show: any control code but a tab.
pub open spec fn unshowable(character: char) -> bool {
    let code = character as u32;
    (code < 32 || 127 <= code < 160) && character != '\t'
}

/// A row can be drawn: it holds nothing that cannot be shown, and its spans are
/// not empty, lie one behind the other and begin and end between characters as
/// a reader sees them.
pub open spec fn drawable(row: LogRow) -> bool {
    let spans = row.style_spans@;
    &&& forall|i: int| 0 <= i < row.text@.len() ==> !unshowable(#[trigger] row.text@[i])
    &&& forall|i: int|
        0 <= i < spans.len() ==> (#[trigger] spans[i]).byte_range.start < spans[i].byte_range.end
            && grapheme_boundary(row.text@, spans[i].byte_range.start as int)
            && grapheme_boundary(row.text@, spans[i].byte_range.end as int)
    &&& forall|i: int, j: int|
        0 <= i && j == i + 1 && j < spans.len() ==> (#[trigger] spans[i]).byte_range.end <= (
        #[trigger] spans[j]).byte_range.start
}

proof fn lemma_drawable(row: LogRow)
    ensures
        drawable(row) <==> one_line(row.text@) && spans_fit(row),
{
    let spans = row.style_spans@;
    if one_line(row.text@) && spans_fit(row) {
        assert forall|i: int| 0 <= i < row.text@.len() implies !unshowable(
            #[trigger] row.text@[i],
        ) by {
            assert(!control_code(row.text@[i]) || row.text@[i] == '\t');
        }
        assert forall|i: int| 0 <= i < spans.len() implies (
        #[trigger] spans[i]).byte_range.start < spans[i].byte_range.end && grapheme_boundary(
            row.text@,
            spans[i].byte_range.start as int,
        ) && grapheme_boundary(row.text@, spans[i].byte_range.end as int) by {
            assert(span_fits(row, i));
        }
        assert forall|i: int, j: int| 0 <= i && j == i + 1 && j < spans.len() implies (
        #[trigger] spans[i]).byte_range.end <= (#[trigger] spans[j]).byte_range.start by {
            assert(span_fits(row, j));
        }
    }
    if drawable(row) {
        assert forall|i: int| 0 <= i < row.text@.len() implies !control_code(
            #[trigger] row.text@[i],
        ) || row.text@[i] == '\t' by {
            assert(!unshowable(row.text@[i]));
        }
        assert forall|i: int| 0 <= i < spans.len() implies #[trigger] span_fits(row, i) by {
            assert(spans[i].byte_range.start < spans[i].byte_range.end);
            if i > 0 {
                assert(spans[i - 1].byte_range.end <= spans[i].byte_range.start);
            }
        }
    }
}

proof fn lemma_rows_drawable(rows: Seq<LogRow>)
    ensures
        row_fault(rows) is None <==> forall|i: int|
            0 <= i < rows.len() ==> drawable(#[trigger] rows[i]),
    decreases rows.len(),
{
    if rows.len() > 0 {
        let front = rows.drop_last();
        lemma_rows_drawable(front);
        lemma_drawable(rows.last());
        if row_fault(rows) is None {
            assert forall|i: int| 0 <= i < rows.len() implies drawable(#[trigger] rows[i]) by {
                if i < front.len() {
                    assert(front[i] == rows[i]);
                }
            }
        }
        if forall|i: int| 0 <= i < rows.len() ==> drawable(#[trigger] rows[i]) {
            assert(drawable(rows[rows.len() - 1]));
            assert forall|i: int| 0 <= i < front.len() implies drawable(#[trigger] front[i]) by {
                assert(front[i] == rows[i]);
            }
        }
    }
}

/// A page is taken exactly where it has at most 4096 rows, whose lines rise,
/// no more rows than lines are told of, at most 4 MiB of text and 16384 spans,
/// rows that can all be drawn, and its own line among them.
pub proof fn law_pages_that_are_taken(page: LogPage)
    ensures
        valid_page(page) <==> {
            let rows = page.rows@;
            &&& rows.len() <= 4096
            &&& forall|i: int, j: int|
                0 <= i < j < rows.len() ==> (#[trigger] rows[i]).line_id < (
                #[trigger] rows[j]).line_id
            &&& rows.len() <= page.total_line_count
            &&& text_total(rows) <= 4 * 1024 * 1024
            &&& span_total(rows) <= 16384
            &&& forall|i: int| 0 <= i < rows.len() ==> drawable(#[trigger] rows[i])
            &&& rows.len() > 0 ==> exists|i: int|
                0 <= i < rows.len() && (#[trigger] rows[i]).line_id == page.anchor_line_id
        },
{
    lemma_rows_drawable(page.rows@);
}

/// Every row counts towards the text and the spans of its page.
pub proof fn law_every_row_counts(rows: Seq<LogRow>, row: LogRow)
    ensures
        text_total(Seq::empty()) == 0,
        span_total(Seq::empty()) == 0,
        text_total(rows.push(row)) == text_total(rows) + utf8(row.text@).len(),
        span_total(rows.push(row)) == span_total(rows) + row.style_spans@.len(),
{
    assert(rows.push(row).drop_last() =~= rows);
}

} // verus!
