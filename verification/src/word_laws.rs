//! Which of the ranges found in a text a search reports.
use crate::history_search::{
    accepts, candidates, row_boundary, scan_answers, scan_start, stands_alone, with_rows,
    HistorySearchCursor, HistorySearchDirection, HistorySearchMatch, HistorySearchOptions,
    HistorySearchRequest, HistorySearchResult, Scan,
};
use crate::log_page::StyledRowModel;
use crate::outside::{alphanumeric, ranges_in_text};
use crate::search_laws::journal_matches;
use crate::terminal_interaction::{
    scan_gives, with_lines, LineModel, TerminalCellPoint, TerminalScan, TerminalSearchMatch,
    TerminalSearchResult,
};
use crate::text::{lemma_utf8_concat, lemma_utf8_len, lemma_utf8_valid, utf8};
use vstd::prelude::*;
use vstd::utf8::{decode_utf8, is_char_boundary};

verus! {

/// The bytes of a range are those of the characters from `from` up to `to`.
pub open spec fn holds_chars(text: Seq<char>, range: (usize, usize), from: int, to: int) -> bool {
    &&& 0 <= from <= to <= text.len()
    &&& utf8(text.take(from)).len() == range.0
    &&& utf8(text.take(to)).len() == range.1
}

/// Neither the character directly before a range nor the one directly after it
/// is a letter, a number or an underscore.
pub open spec fn word_apart(text: Seq<char>, range: (usize, usize)) -> bool {
    exists|from: int, to: int| #[trigger]
        holds_chars(text, range, from, to) && apart_at(text, from, to)
}

/// The characters around `from` and `to` belong to no word.
pub open spec fn apart_at(text: Seq<char>, from: int, to: int) -> bool {
    &&& from > 0 ==> !alphanumeric(text[from - 1]) && text[from - 1] != '_'
    &&& to < text.len() ==> !alphanumeric(text[to]) && text[to] != '_'
}

/// A byte position on a character boundary is that of a character.
proof fn lemma_boundary_index(text: Seq<char>, at: int) -> (index: int)
    requires
        0 <= at <= utf8(text).len(),
        is_char_boundary(utf8(text), at),
    ensures
        0 <= index <= text.len(),
        utf8(text.take(index)).len() == at,
{
    let bytes = utf8(text);
    lemma_utf8_valid(text);
    vstd::utf8::valid_utf8_split(bytes, at);
    vstd::utf8::decode_utf8_split(bytes, at);
    let front = bytes.subrange(0, at);
    let index = decode_utf8(front).len() as int;
    vstd::utf8::decode_utf8_encode_utf8(front);
    assert(text.take(index) =~= decode_utf8(front));
    index
}

proof fn lemma_take_grows(text: Seq<char>, from: int, to: int)
    requires
        0 <= from < to <= text.len(),
    ensures
        utf8(text.take(from)).len() < utf8(text.take(to)).len(),
{
    let part = text.subrange(from, to);
    assert(text.take(to) =~= text.take(from) + part);
    lemma_utf8_concat(text.take(from), part);
    lemma_utf8_len(part);
}

proof fn lemma_range_chars(text: Seq<char>, range: (usize, usize)) -> (ends: (int, int))
    requires
        range.0 <= range.1 <= utf8(text).len(),
        is_char_boundary(utf8(text), range.0 as int),
        is_char_boundary(utf8(text), range.1 as int),
    ensures
        holds_chars(text, range, ends.0, ends.1),
{
    let from = lemma_boundary_index(text, range.0 as int);
    let to = lemma_boundary_index(text, range.1 as int);
    if to < from {
        lemma_take_grows(text, to, from);
    }
    (from, to)
}

proof fn lemma_apart_at(text: Seq<char>, range: (usize, usize), from: int, to: int)
    requires
        holds_chars(text, range, from, to),
    ensures
        stands_alone(text, range.0 as int, range.1 as int) == apart_at(text, from, to),
{
    let before = text.take(from);
    let after = text.skip(to);
    assert(text =~= before + text.skip(from));
    assert(text =~= text.take(to) + after);
    lemma_utf8_concat(before, text.skip(from));
    lemma_utf8_concat(text.take(to), after);
    assert(utf8(text).take(range.0 as int) =~= utf8(before));
    assert(utf8(text).skip(range.1 as int) =~= utf8(after));
    lemma_utf8_valid(before);
    lemma_utf8_valid(after);
}

proof fn lemma_apart(text: Seq<char>, range: (usize, usize))
    requires
        range.0 <= range.1 <= utf8(text).len(),
        is_char_boundary(utf8(text), range.0 as int),
        is_char_boundary(utf8(text), range.1 as int),
    ensures
        stands_alone(text, range.0 as int, range.1 as int) == word_apart(text, range),
{
    let (from, to) = lemma_range_chars(text, range);
    lemma_apart_at(text, range, from, to);
    if word_apart(text, range) {
        let (other, end) = choose|other: int, end: int| #[trigger]
            holds_chars(text, range, other, end) && apart_at(text, other, end);
        lemma_apart_at(text, range, other, end);
    }
}

/// The characters of a range in a text are the only ones that it holds: what is
/// said of one such pair of places is said of the range.
pub proof fn law_range_has_one_place(
    text: Seq<char>,
    range: (usize, usize),
    from: int,
    to: int,
    other_from: int,
    other_to: int,
)
    requires
        holds_chars(text, range, from, to),
        holds_chars(text, range, other_from, other_to),
    ensures
        from == other_from,
        to == other_to,
{
    if from < other_from {
        lemma_take_grows(text, from, other_from);
    }
    if other_from < from {
        lemma_take_grows(text, other_from, from);
    }
    if to < other_to {
        lemma_take_grows(text, to, other_to);
    }
    if other_to < to {
        lemma_take_grows(text, other_to, to);
    }
}

// ---------------------------------------------------------------------------
// Searching a terminal.

/// The range `j` of line `i` is what a match shows, and it stands apart from
/// other words where that is asked for.
pub open spec fn shows_range(
    whole_word: bool,
    lines: Seq<LineModel>,
    found: Seq<Seq<(usize, usize)>>,
    i: int,
    j: int,
    shown: TerminalSearchMatch,
) -> bool {
    let (start, end) = found[i][j];
    &&& 0 <= i < lines.len()
    &&& 0 <= j < found[i].len()
    &&& start < end
    &&& shown == (TerminalSearchMatch {
        start: TerminalCellPoint { row: lines[i].row, column: lines[i].columns[start as int] },
        end: TerminalCellPoint { row: lines[i].row, column: lines[i].columns[end - 1] },
    })
    &&& whole_word ==> word_apart(lines[i].text, (start, end))
}

/// Each line has the ranges found in it.
pub open spec fn found_in(lines: Seq<LineModel>, found: Seq<Seq<(usize, usize)>>) -> bool {
    &&& lines.len() == found.len()
    &&& forall|i: int|
        0 <= i < lines.len() ==> ranges_in_text(#[trigger] found[i], lines[i].text)
}

proof fn lemma_line_sound(
    scan: TerminalScan,
    whole_word: bool,
    lines: Seq<LineModel>,
    found: Seq<Seq<(usize, usize)>>,
    i: int,
    count: int,
    k: int,
)
    requires
        found_in(lines, found),
        0 <= i < lines.len(),
        0 <= count <= found[i].len(),
        ({
            let after = crate::terminal_interaction::with_ranges(
                scan,
                whole_word,
                lines[i],
                found[i].take(count),
            );
            scan.matches.len() <= k < after.matches.len()
        }),
    ensures
        exists|j: int| #[trigger]
            shows_range(
                whole_word,
                lines,
                found,
                i,
                j,
                crate::terminal_interaction::with_ranges(
                    scan,
                    whole_word,
                    lines[i],
                    found[i].take(count),
                ).matches[k],
            ),
    decreases count,
{
    let part = found[i].take(count);
    assert(part.drop_last() =~= found[i].take(count - 1));
    assert(part.last() == found[i][count - 1]);
    let before = crate::terminal_interaction::with_ranges(
        scan,
        whole_word,
        lines[i],
        found[i].take(count - 1),
    );
    let after = crate::terminal_interaction::with_ranges(scan, whole_word, lines[i], part);
    if k < before.matches.len() {
        lemma_line_sound(scan, whole_word, lines, found, i, count - 1, k);
        assert(after.matches[k] == before.matches[k]);
    } else {
        lemma_apart(lines[i].text, found[i][count - 1]);
        assert(shows_range(whole_word, lines, found, i, count - 1, after.matches[k]));
    }
}

proof fn lemma_line_keeps(
    scan: TerminalScan,
    whole_word: bool,
    line: LineModel,
    ranges: Seq<(usize, usize)>,
)
    ensures
        ({
            let after = crate::terminal_interaction::with_ranges(scan, whole_word, line, ranges);
            &&& scan.matches.len() <= after.matches.len()
            &&& forall|k: int|
                0 <= k < scan.matches.len() ==> #[trigger] after.matches[k] == scan.matches[k]
            &&& after.end is None ==> scan.end is None
        }),
    decreases ranges.len(),
{
    if ranges.len() > 0 {
        lemma_line_keeps(scan, whole_word, line, ranges.drop_last());
    }
}

proof fn lemma_lines_sound(
    whole_word: bool,
    lines: Seq<LineModel>,
    found: Seq<Seq<(usize, usize)>>,
    count: nat,
    k: int,
)
    requires
        found_in(lines, found),
        count <= lines.len(),
        0 <= k < with_lines(whole_word, lines, found, count).matches.len(),
    ensures
        exists|i: int, j: int| #[trigger]
            shows_range(
                whole_word,
                lines,
                found,
                i,
                j,
                with_lines(whole_word, lines, found, count).matches[k],
            ),
    decreases count,
{
    if count > 0 {
        let before = with_lines(whole_word, lines, found, (count - 1) as nat);
        let i = count - 1;
        lemma_line_keeps(before, whole_word, lines[i], found[i]);
        let after = with_lines(whole_word, lines, found, count);
        if k < before.matches.len() {
            lemma_lines_sound(whole_word, lines, found, (count - 1) as nat, k);
            assert(after.matches[k] == before.matches[k]);
        } else {
            assert(found[i].take(found[i].len() as int) =~= found[i]);
            lemma_line_sound(before, whole_word, lines, found, i, found[i].len() as int, k);
            let j = choose|j: int| #[trigger]
                shows_range(whole_word, lines, found, i, j, after.matches[k]);
            assert(shows_range(whole_word, lines, found, i, j, after.matches[k]));
        }
    }
}

/// Every match that a search of a terminal reports is a range found in a line,
/// and where whole words are asked for, the characters directly before it and
/// directly after it are no letters, numbers or underscores.
pub proof fn law_reported_matches_stand_apart(
    whole_word: bool,
    lines: Seq<LineModel>,
    found: Seq<Seq<(usize, usize)>>,
    result: TerminalSearchResult,
    k: int,
)
    requires
        found_in(lines, found),
        scan_gives(with_lines(whole_word, lines, found, lines.len()), Ok(result)),
        0 <= k < result.matches@.len(),
    ensures
        exists|i: int, j: int| #[trigger]
            shows_range(whole_word, lines, found, i, j, result.matches@[k]),
{
    lemma_lines_sound(whole_word, lines, found, lines.len(), k);
}

proof fn lemma_line_complete(
    scan: TerminalScan,
    whole_word: bool,
    lines: Seq<LineModel>,
    found: Seq<Seq<(usize, usize)>>,
    i: int,
    count: int,
    j: int,
    shown: TerminalSearchMatch,
)
    requires
        found_in(lines, found),
        shows_range(whole_word, lines, found, i, j, shown),
        j < count <= found[i].len(),
        crate::terminal_interaction::with_ranges(
            scan,
            whole_word,
            lines[i],
            found[i].take(count),
        ).end is None,
    ensures
        crate::terminal_interaction::with_ranges(
            scan,
            whole_word,
            lines[i],
            found[i].take(count),
        ).matches.contains(shown),
    decreases count,
{
    let part = found[i].take(count);
    assert(part.drop_last() =~= found[i].take(count - 1));
    assert(part.last() == found[i][count - 1]);
    let before = crate::terminal_interaction::with_ranges(
        scan,
        whole_word,
        lines[i],
        found[i].take(count - 1),
    );
    let after = crate::terminal_interaction::with_ranges(scan, whole_word, lines[i], part);
    if j < count - 1 {
        lemma_line_complete(scan, whole_word, lines, found, i, count - 1, j, shown);
        let k = choose|k: int| 0 <= k < before.matches.len() && before.matches[k] == shown;
        assert(after.matches[k] == shown);
    } else {
        lemma_apart(lines[i].text, found[i][j]);
        assert(after.matches[after.matches.len() - 1] == shown);
    }
}

proof fn lemma_lines_complete(
    whole_word: bool,
    lines: Seq<LineModel>,
    found: Seq<Seq<(usize, usize)>>,
    count: nat,
    i: int,
    j: int,
    shown: TerminalSearchMatch,
)
    requires
        found_in(lines, found),
        shows_range(whole_word, lines, found, i, j, shown),
        i < count <= lines.len(),
        with_lines(whole_word, lines, found, count).end is None,
    ensures
        with_lines(whole_word, lines, found, count).matches.contains(shown),
    decreases count,
{
    let before = with_lines(whole_word, lines, found, (count - 1) as nat);
    let last = count - 1;
    lemma_line_keeps(before, whole_word, lines[last], found[last]);
    let after = with_lines(whole_word, lines, found, count);
    if i < last {
        lemma_lines_complete(whole_word, lines, found, (count - 1) as nat, i, j, shown);
        let k = choose|k: int| 0 <= k < before.matches.len() && before.matches[k] == shown;
        assert(after.matches[k] == shown);
    } else {
        assert(found[i].take(found[i].len() as int) =~= found[i]);
        lemma_line_complete(before, whole_word, lines, found, i, found[i].len() as int, j, shown);
    }
}

/// Every range found in a line of a terminal is reported, as long as the result
/// is not cut short; where whole words are asked for, every one that stands
/// apart.
pub proof fn law_ranges_apart_are_reported(
    whole_word: bool,
    lines: Seq<LineModel>,
    found: Seq<Seq<(usize, usize)>>,
    result: TerminalSearchResult,
    i: int,
    j: int,
    shown: TerminalSearchMatch,
)
    requires
        found_in(lines, found),
        scan_gives(with_lines(whole_word, lines, found, lines.len()), Ok(result)),
        !result.truncated,
        shows_range(whole_word, lines, found, i, j, shown),
    ensures
        result.matches@.contains(shown),
{
    lemma_lines_complete(whole_word, lines, found, lines.len(), i, j, shown);
}

// ---------------------------------------------------------------------------
// Searching a history.

/// The range `j` of row `i` is what a match tells, and it stands apart from
/// other words where that is asked for.
pub open spec fn tells_range(
    options: HistorySearchOptions,
    rows: Seq<(StyledRowModel, Seq<(usize, usize)>)>,
    i: int,
    j: int,
    told: HistorySearchMatch,
) -> bool {
    let (start, end) = rows[i].1[j];
    &&& 0 <= i < rows.len()
    &&& 0 <= j < rows[i].1.len()
    &&& told == (HistorySearchMatch {
        line_id: rows[i].0.line_id,
        byte_start: start,
        byte_end: end,
    })
    &&& options.whole_word ==> word_apart(rows[i].0.text, (start, end))
}

/// Each row has the ranges found in it.
pub open spec fn found_in_each(rows: Seq<(StyledRowModel, Seq<(usize, usize)>)>) -> bool {
    forall|i: int|
        0 <= i < rows.len() ==> ranges_in_text((#[trigger] rows[i]).1, rows[i].0.text)
}

proof fn lemma_candidate_is_found(
    found: Seq<(usize, usize)>,
    direction: HistorySearchDirection,
    boundary: int,
    at: int,
) -> (j: int)
    requires
        0 <= at < candidates(found, direction, boundary).len(),
    ensures
        0 <= j < found.len(),
        candidates(found, direction, boundary)[at] == found[j],
        direction is Forward ==> found[j].0 >= boundary,
        direction is Backward ==> found[j].1 <= boundary,
    decreases found.len(),
{
    let rest = candidates(found.drop_last(), direction, boundary);
    let last = found.len() - 1;
    match direction {
        HistorySearchDirection::Forward => {
            if at < rest.len() {
                lemma_candidate_is_found(found.drop_last(), direction, boundary, at)
            } else {
                last
            }
        },
        HistorySearchDirection::Backward => {
            if found.last().1 <= boundary {
                if at == 0 {
                    last
                } else {
                    assert(candidates(found, direction, boundary)[at] == rest[at - 1]);
                    lemma_candidate_is_found(found.drop_last(), direction, boundary, at - 1)
                }
            } else {
                lemma_candidate_is_found(found.drop_last(), direction, boundary, at)
            }
        },
    }
}

proof fn lemma_found_is_candidate(
    found: Seq<(usize, usize)>,
    direction: HistorySearchDirection,
    boundary: int,
    j: int,
) -> (at: int)
    requires
        0 <= j < found.len(),
        direction is Forward ==> found[j].0 >= boundary,
        direction is Backward ==> found[j].1 <= boundary,
    ensures
        0 <= at < candidates(found, direction, boundary).len(),
        candidates(found, direction, boundary)[at] == found[j],
    decreases found.len(),
{
    let rest = candidates(found.drop_last(), direction, boundary);
    if j == found.len() - 1 {
        match direction {
            HistorySearchDirection::Forward => rest.len() as int,
            HistorySearchDirection::Backward => 0,
        }
    } else {
        let at = lemma_found_is_candidate(found.drop_last(), direction, boundary, j);
        match direction {
            HistorySearchDirection::Forward => at,
            HistorySearchDirection::Backward => if found.last().1 <= boundary {
                at + 1
            } else {
                at
            },
        }
    }
}

proof fn lemma_row_sound(
    scan: Scan,
    request: HistorySearchRequest,
    row: StyledRowModel,
    ranges: Seq<(usize, usize)>,
    k: int,
) -> (at: int)
    requires
        scan.matches.len() <= k < crate::history_search::with_ranges(
            scan,
            request,
            row,
            ranges,
        ).matches.len(),
    ensures
        0 <= at < ranges.len(),
        ranges[at].0 < ranges[at].1,
        accepts(request.options, row.text, ranges[at]),
        crate::history_search::with_ranges(scan, request, row, ranges).matches[k] == (
        HistorySearchMatch {
            line_id: row.line_id,
            byte_start: ranges[at].0,
            byte_end: ranges[at].1,
        }),
    decreases ranges.len(),
{
    let before = crate::history_search::with_ranges(scan, request, row, ranges.drop_last());
    if k < before.matches.len() {
        lemma_row_sound(scan, request, row, ranges.drop_last(), k)
    } else {
        ranges.len() - 1
    }
}

proof fn lemma_row_keeps(
    scan: Scan,
    request: HistorySearchRequest,
    row: StyledRowModel,
    ranges: Seq<(usize, usize)>,
)
    ensures
        ({
            let after = crate::history_search::with_ranges(scan, request, row, ranges);
            &&& scan.matches.len() <= after.matches.len()
            &&& forall|k: int|
                0 <= k < scan.matches.len() ==> #[trigger] after.matches[k] == scan.matches[k]
            &&& after.end is None ==> scan.end is None
        }),
    decreases ranges.len(),
{
    if ranges.len() > 0 {
        lemma_row_keeps(scan, request, row, ranges.drop_last());
    }
}

proof fn lemma_rows_sound(
    scan: Scan,
    request: HistorySearchRequest,
    cursor: HistorySearchCursor,
    rows: Seq<(StyledRowModel, Seq<(usize, usize)>)>,
    k: int,
)
    requires
        found_in_each(rows),
        scan.matches.len() <= k < with_rows(scan, request, cursor, rows).matches.len(),
    ensures
        exists|i: int, j: int| #[trigger]
            tells_range(
                request.options,
                rows,
                i,
                j,
                with_rows(scan, request, cursor, rows).matches[k],
            ),
    decreases rows.len(),
{
    if rows.len() > 0 {
        let front = rows.drop_last();
        let before = with_rows(scan, request, cursor, front);
        let after = with_rows(scan, request, cursor, rows);
        let last = rows.len() - 1;
        let (row, found) = rows[last];
        assert(rows.last() == rows[last]);
        let boundary = row_boundary(row, cursor, request.direction);
        let taken = candidates(found, request.direction, boundary);
        let entered = Scan {
            scanned: before.scanned + 1,
            last_line: row.line_id,
            incomplete: before.incomplete || row.truncated,
            ..before
        };
        lemma_row_keeps(entered, request, row, taken);
        if k < before.matches.len() {
            assert forall|i: int| 0 <= i < front.len() implies ranges_in_text(
                (#[trigger] front[i]).1,
                front[i].0.text,
            ) by {
                assert(front[i] == rows[i]);
            }
            lemma_rows_sound(scan, request, cursor, front, k);
            assert(after.matches[k] == before.matches[k]);
            let (i, j) = choose|i: int, j: int| #[trigger]
                tells_range(request.options, front, i, j, before.matches[k]);
            assert(front[i] == rows[i]);
            assert(tells_range(request.options, rows, i, j, after.matches[k]));
        } else {
            let at = lemma_row_sound(entered, request, row, taken, k);
            let j = lemma_candidate_is_found(found, request.direction, boundary, at);
            lemma_apart(row.text, found[j]);
            assert(tells_range(request.options, rows, last, j, after.matches[k]));
        }
    }
}

/// Every match that a page of a search reports is a range found in one of its
/// lines, and where whole words are asked for, the characters directly before
/// it and directly after it are no letters, numbers or underscores.
pub proof fn law_page_reports_words_that_stand_apart(
    request: HistorySearchRequest,
    cursor: HistorySearchCursor,
    rows: Seq<(StyledRowModel, Seq<(usize, usize)>)>,
    revision: u64,
    total: u64,
    result: HistorySearchResult,
    k: int,
)
    requires
        found_in_each(rows),
        scan_answers(
            with_rows(scan_start(cursor), request, cursor, rows),
            request.direction,
            revision,
            total,
            Ok(result),
        ),
        0 <= k < result.matches@.len(),
    ensures
        exists|i: int, j: int| #[trigger]
            tells_range(request.options, rows, i, j, result.matches@[k]),
{
    lemma_rows_sound(scan_start(cursor), request, cursor, rows, k);
}

proof fn lemma_row_complete(
    scan: Scan,
    request: HistorySearchRequest,
    row: StyledRowModel,
    ranges: Seq<(usize, usize)>,
    at: int,
)
    requires
        0 <= at < ranges.len(),
        accepts(request.options, row.text, ranges[at]),
        crate::history_search::with_ranges(scan, request, row, ranges).end is None,
    ensures
        crate::history_search::with_ranges(scan, request, row, ranges).matches.contains(
            HistorySearchMatch {
                line_id: row.line_id,
                byte_start: ranges[at].0,
                byte_end: ranges[at].1,
            },
        ),
    decreases ranges.len(),
{
    let told = HistorySearchMatch {
        line_id: row.line_id,
        byte_start: ranges[at].0,
        byte_end: ranges[at].1,
    };
    let before = crate::history_search::with_ranges(scan, request, row, ranges.drop_last());
    let after = crate::history_search::with_ranges(scan, request, row, ranges);
    if at < ranges.len() - 1 {
        lemma_row_complete(scan, request, row, ranges.drop_last(), at);
        let k = choose|k: int| 0 <= k < before.matches.len() && before.matches[k] == told;
        assert(after.matches[k] == told);
    } else {
        assert(after.matches[after.matches.len() - 1] == told);
    }
}

/// A range lies on the side of the cursor that is searched: forward it begins
/// at the cursor or after it, backward it ends at the cursor or before it. In
/// other lines than that of the cursor every range does.
pub open spec fn lies_ahead(
    row: StyledRowModel,
    range: (usize, usize),
    cursor: HistorySearchCursor,
    direction: HistorySearchDirection,
) -> bool {
    row.line_id == cursor.line_id ==> match direction {
        HistorySearchDirection::Forward => range.0 >= cursor.byte_offset,
        HistorySearchDirection::Backward => range.1 <= cursor.byte_offset,
    }
}

proof fn lemma_rows_complete(
    scan: Scan,
    request: HistorySearchRequest,
    cursor: HistorySearchCursor,
    rows: Seq<(StyledRowModel, Seq<(usize, usize)>)>,
    i: int,
    j: int,
    told: HistorySearchMatch,
)
    requires
        found_in_each(rows),
        with_rows(scan, request, cursor, rows).end is None,
        tells_range(request.options, rows, i, j, told),
        lies_ahead(rows[i].0, rows[i].1[j], cursor, request.direction),
    ensures
        with_rows(scan, request, cursor, rows).matches.contains(told),
    decreases rows.len(),
{
    let front = rows.drop_last();
    let before = with_rows(scan, request, cursor, front);
    let after = with_rows(scan, request, cursor, rows);
    let last = rows.len() - 1;
    let (row, found) = rows[last];
    assert(rows.last() == rows[last]);
    let boundary = row_boundary(row, cursor, request.direction);
    let taken = candidates(found, request.direction, boundary);
    let entered = Scan {
        scanned: before.scanned + 1,
        last_line: row.line_id,
        incomplete: before.incomplete || row.truncated,
        ..before
    };
    lemma_row_keeps(entered, request, row, taken);
    if i < last {
        assert forall|n: int| 0 <= n < front.len() implies ranges_in_text(
            (#[trigger] front[n]).1,
            front[n].0.text,
        ) by {
            assert(front[n] == rows[n]);
        }
        assert(front[i] == rows[i]);
        lemma_rows_complete(scan, request, cursor, front, i, j, told);
        let k = choose|k: int| 0 <= k < before.matches.len() && before.matches[k] == told;
        assert(after.matches[k] == told);
    } else {
        lemma_apart(row.text, found[j]);
        let at = lemma_found_is_candidate(found, request.direction, boundary, j);
        lemma_row_complete(entered, request, row, taken, at);
    }
}

/// A page that was searched to its end reports every range found in its lines
/// on from the cursor; where whole words are asked for, every one that stands
/// apart.
pub proof fn law_page_reports_all_ahead(
    request: HistorySearchRequest,
    cursor: HistorySearchCursor,
    rows: Seq<(StyledRowModel, Seq<(usize, usize)>)>,
    i: int,
    j: int,
    told: HistorySearchMatch,
)
    requires
        found_in_each(rows),
        with_rows(scan_start(cursor), request, cursor, rows).end is None,
        tells_range(request.options, rows, i, j, told),
        lies_ahead(rows[i].0, rows[i].1[j], cursor, request.direction),
    ensures
        with_rows(scan_start(cursor), request, cursor, rows).matches.contains(told),
{
    lemma_rows_complete(scan_start(cursor), request, cursor, rows, i, j, told);
}

proof fn lemma_row_matches(
    options: HistorySearchOptions,
    row: StyledRowModel,
    ranges: Seq<(usize, usize)>,
    told: HistorySearchMatch,
)
    ensures
        crate::history_search::row_matches(options, row, ranges).contains(told) <==> exists|at: int|
            0 <= at < ranges.len() && accepts(options, row.text, #[trigger] ranges[at]) && told == (
            HistorySearchMatch {
                line_id: row.line_id,
                byte_start: ranges[at].0,
                byte_end: ranges[at].1,
            }),
    decreases ranges.len(),
{
    if ranges.len() > 0 {
        let front = ranges.drop_last();
        let last = ranges.len() - 1;
        lemma_row_matches(options, row, front, told);
        let before = crate::history_search::row_matches(options, row, front);
        let after = crate::history_search::row_matches(options, row, ranges);
        if after.contains(told) {
            let k = choose|k: int| 0 <= k < after.len() && after[k] == told;
            if k < before.len() {
                assert(before[k] == told);
                assert(before.contains(told));
                let at = choose|at: int|
                    0 <= at < front.len() && accepts(options, row.text, #[trigger] front[at])
                        && told == (HistorySearchMatch {
                        line_id: row.line_id,
                        byte_start: front[at].0,
                        byte_end: front[at].1,
                    });
                assert(ranges[at] == front[at]);
            } else {
                assert(accepts(options, row.text, ranges[last]));
            }
        }
        if exists|at: int|
            0 <= at < ranges.len() && accepts(options, row.text, #[trigger] ranges[at]) && told == (
            HistorySearchMatch {
                line_id: row.line_id,
                byte_start: ranges[at].0,
                byte_end: ranges[at].1,
            }) {
            let at = choose|at: int|
                0 <= at < ranges.len() && accepts(options, row.text, #[trigger] ranges[at])
                    && told == (HistorySearchMatch {
                    line_id: row.line_id,
                    byte_start: ranges[at].0,
                    byte_end: ranges[at].1,
                });
            if at < last {
                assert(front[at] == ranges[at]);
                assert(before.contains(told));
                let k = choose|k: int| 0 <= k < before.len() && before[k] == told;
                assert(after[k] == told);
            } else {
                assert(after[after.len() - 1] == told);
            }
        }
    }
}

/// All the matches of a journal, which the pages of a search report together,
/// are the ranges found in its lines; where whole words are asked for, those
/// that stand apart.
pub proof fn law_journal_matches_are_the_ranges_apart(
    options: HistorySearchOptions,
    journal: Seq<(StyledRowModel, Seq<(usize, usize)>)>,
    told: HistorySearchMatch,
)
    requires
        found_in_each(journal),
    ensures
        journal_matches(options, journal).contains(told) <==> exists|i: int, j: int| #[trigger]
            tells_range(options, journal, i, j, told),
    decreases journal.len(),
{
    if journal.len() > 0 {
        let front = journal.drop_last();
        let last = journal.len() - 1;
        let (row, found) = journal[last];
        assert forall|n: int| 0 <= n < front.len() implies ranges_in_text(
            (#[trigger] front[n]).1,
            front[n].0.text,
        ) by {
            assert(front[n] == journal[n]);
        }
        law_journal_matches_are_the_ranges_apart(options, front, told);
        lemma_row_matches(options, row, found, told);
        let before = journal_matches(options, front);
        let more = crate::history_search::row_matches(options, row, found);
        let after = journal_matches(options, journal);
        assert(after == before + more);
        if after.contains(told) {
            let k = choose|k: int| 0 <= k < after.len() && after[k] == told;
            if k < before.len() {
                assert(before[k] == told);
                assert(before.contains(told));
                let (i, j) = choose|i: int, j: int| #[trigger]
                    tells_range(options, front, i, j, told);
                assert(front[i] == journal[i]);
                assert(tells_range(options, journal, i, j, told));
            } else {
                assert(more[k - before.len()] == told);
                assert(more.contains(told));
                let at = choose|at: int|
                    0 <= at < found.len() && accepts(options, row.text, #[trigger] found[at])
                        && told == (HistorySearchMatch {
                        line_id: row.line_id,
                        byte_start: found[at].0,
                        byte_end: found[at].1,
                    });
                lemma_apart(row.text, found[at]);
                assert(tells_range(options, journal, last, at, told));
            }
        }
        if exists|i: int, j: int| #[trigger] tells_range(options, journal, i, j, told) {
            let (i, j) = choose|i: int, j: int| #[trigger]
                tells_range(options, journal, i, j, told);
            if i < last {
                assert(front[i] == journal[i]);
                assert(tells_range(options, front, i, j, told));
                let k = choose|k: int| 0 <= k < before.len() && before[k] == told;
                assert(after[k] == told);
            } else {
                lemma_apart(row.text, found[j]);
                assert(accepts(options, row.text, found[j]));
                let k = choose|k: int| 0 <= k < more.len() && more[k] == told;
                assert(after[before.len() + k] == told);
            }
        }
    }
}

/// A search that finds the empty text in a line reports nothing but that,
/// unless it was cut short before.
pub proof fn law_empty_matches_are_not_reported(
    whole_word: bool,
    lines: Seq<LineModel>,
    found: Seq<Seq<(usize, usize)>>,
    result: TerminalSearchResult,
    i: int,
    j: int,
)
    requires
        lines.len() == found.len(),
        scan_gives(with_lines(whole_word, lines, found, lines.len()), Ok(result)),
        !result.truncated,
        0 <= i < lines.len(),
        0 <= j < found[i].len(),
    ensures
        found[i][j].0 < found[i][j].1,
{
    lemma_no_empty_in_lines(whole_word, lines, found, lines.len(), i, j);
}

proof fn lemma_no_empty_in_line(
    scan: TerminalScan,
    whole_word: bool,
    line: LineModel,
    ranges: Seq<(usize, usize)>,
    j: int,
)
    requires
        crate::terminal_interaction::with_ranges(scan, whole_word, line, ranges).end is None,
        0 <= j < ranges.len(),
    ensures
        ranges[j].0 < ranges[j].1,
    decreases ranges.len(),
{
    if j < ranges.len() - 1 {
        lemma_no_empty_in_line(scan, whole_word, line, ranges.drop_last(), j);
    }
}

proof fn lemma_no_empty_in_lines(
    whole_word: bool,
    lines: Seq<LineModel>,
    found: Seq<Seq<(usize, usize)>>,
    count: nat,
    i: int,
    j: int,
)
    requires
        lines.len() == found.len(),
        with_lines(whole_word, lines, found, count).end is None,
        0 <= i < count <= lines.len(),
        0 <= j < found[i].len(),
    ensures
        found[i][j].0 < found[i][j].1,
    decreases count,
{
    let last = count - 1;
    let before = with_lines(whole_word, lines, found, (count - 1) as nat);
    lemma_line_keeps(before, whole_word, lines[last], found[last]);
    if i < last {
        lemma_no_empty_in_lines(whole_word, lines, found, (count - 1) as nat, i, j);
    } else {
        lemma_no_empty_in_line(before, whole_word, lines[i], found[i], j);
    }
}

proof fn lemma_line_order(
    scan: TerminalScan,
    whole_word: bool,
    line: LineModel,
    ranges: Seq<(usize, usize)>,
)
    requires
        forall|k: int|
            0 <= k < scan.matches.len() ==> (#[trigger] scan.matches[k]).start.row < line.row,
        forall|k: int, n: int|
            0 <= k < n < scan.matches.len() ==> (#[trigger] scan.matches[k]).start.row <= (
            #[trigger] scan.matches[n]).start.row,
    ensures
        ({
            let after = crate::terminal_interaction::with_ranges(scan, whole_word, line, ranges);
            &&& forall|k: int|
                0 <= k < after.matches.len() ==> (#[trigger] after.matches[k]).start.row <= line.row
            &&& forall|k: int, n: int|
                0 <= k < n < after.matches.len() ==> (#[trigger] after.matches[k]).start.row <= (
                #[trigger] after.matches[n]).start.row
        }),
    decreases ranges.len(),
{
    if ranges.len() > 0 {
        lemma_line_order(scan, whole_word, line, ranges.drop_last());
    }
}

proof fn lemma_lines_order(
    whole_word: bool,
    lines: Seq<LineModel>,
    found: Seq<Seq<(usize, usize)>>,
    count: nat,
)
    requires
        count <= lines.len(),
        forall|i: int, j: int|
            0 <= i < j < lines.len() ==> (#[trigger] lines[i]).row < (#[trigger] lines[j]).row,
    ensures
        ({
            let scan = with_lines(whole_word, lines, found, count);
            &&& forall|k: int|
                0 <= k < scan.matches.len() ==> count > 0 && (
                #[trigger] scan.matches[k]).start.row <= lines[count - 1].row
            &&& forall|k: int, n: int|
                0 <= k < n < scan.matches.len() ==> (#[trigger] scan.matches[k]).start.row <= (
                #[trigger] scan.matches[n]).start.row
        }),
    decreases count,
{
    if count > 0 {
        let before = with_lines(whole_word, lines, found, (count - 1) as nat);
        lemma_lines_order(whole_word, lines, found, (count - 1) as nat);
        assert forall|k: int| 0 <= k < before.matches.len() implies (
        #[trigger] before.matches[k]).start.row < lines[count - 1].row by {
            assert(lines[count - 2].row < lines[count - 1].row);
        }
        lemma_line_order(before, whole_word, lines[count - 1], found[count - 1]);
    }
}

/// The matches of a terminal are reported from the top down.
pub proof fn law_matches_go_from_the_top_down(
    whole_word: bool,
    lines: Seq<LineModel>,
    found: Seq<Seq<(usize, usize)>>,
    result: TerminalSearchResult,
    k: int,
    n: int,
)
    requires
        scan_gives(with_lines(whole_word, lines, found, lines.len()), Ok(result)),
        forall|i: int, j: int|
            0 <= i < j < lines.len() ==> (#[trigger] lines[i]).row < (#[trigger] lines[j]).row,
        0 <= k < n < result.matches@.len(),
    ensures
        result.matches@[k].start.row <= result.matches@[n].start.row,
{
    lemma_lines_order(whole_word, lines, found, lines.len());
}

} // verus!
