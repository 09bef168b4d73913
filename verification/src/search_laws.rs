//! What the pages of a search come to together.
use crate::history_search::{
    after_match, all_matches, candidates, law_cursor_resumes_after_match,
    law_search_reports_first_matches, line_entry, match_of, next_line, row_boundary, row_matches,
    scan_answers, scan_start, valid_request, with_ranges, with_rows, HistorySearchCursor,
    HistorySearchDirection, HistorySearchMatch, HistorySearchOptions, HistorySearchRequest,
    HistorySearchResult, Scan, ScanEnd,
};
use crate::log_page::StyledRowModel;
use crate::outside::ranges_in_text;
use crate::text::utf8;
use vstd::prelude::*;

verus! {

/// The lines of a journal, each whole and with the ranges found in it.
pub open spec fn searchable(journal: Seq<(StyledRowModel, Seq<(usize, usize)>)>) -> bool {
    &&& journal.len() <= u64::MAX
    &&& forall|i: int|
        0 <= i < journal.len() ==> (#[trigger] journal[i]).0.line_id == i + 1
            && !journal[i].0.truncated && utf8(journal[i].0.text).len() <= usize::MAX
            && ranges_in_text(journal[i].1, journal[i].0.text)
}

/// The lines from `line` on, in the direction of a search.
pub open spec fn ahead(
    journal: Seq<(StyledRowModel, Seq<(usize, usize)>)>,
    direction: HistorySearchDirection,
    line: int,
) -> Seq<(StyledRowModel, Seq<(usize, usize)>)> {
    match direction {
        HistorySearchDirection::Forward => journal.skip(line - 1),
        HistorySearchDirection::Backward => journal.take(line).reverse(),
    }
}

/// All that a search from `cursor` on has to find.
pub open spec fn to_find(
    request: HistorySearchRequest,
    journal: Seq<(StyledRowModel, Seq<(usize, usize)>)>,
    cursor: HistorySearchCursor,
) -> Seq<HistorySearchMatch> {
    all_matches(request, cursor, ahead(journal, request.direction, cursor.line_id as int))
}

proof fn lemma_all_matches_split(
    request: HistorySearchRequest,
    cursor: HistorySearchCursor,
    left: Seq<(StyledRowModel, Seq<(usize, usize)>)>,
    right: Seq<(StyledRowModel, Seq<(usize, usize)>)>,
)
    ensures
        all_matches(request, cursor, left + right) == all_matches(request, cursor, left)
            + all_matches(request, cursor, right),
    decreases right.len(),
{
    if right.len() == 0 {
        assert(left + right =~= left);
        assert(all_matches(request, cursor, left) + Seq::<HistorySearchMatch>::empty()
            =~= all_matches(request, cursor, left));
    } else {
        let all = left + right;
        assert(all.drop_last() =~= left + right.drop_last());
        assert(all.last() == right.last());
        lemma_all_matches_split(request, cursor, left, right.drop_last());
        assert(all_matches(request, cursor, all) =~= all_matches(request, cursor, left)
            + all_matches(request, cursor, right));
    }
}

proof fn lemma_row_matches_split(
    options: HistorySearchOptions,
    row: StyledRowModel,
    left: Seq<(usize, usize)>,
    right: Seq<(usize, usize)>,
)
    ensures
        row_matches(options, row, left + right) == row_matches(options, row, left) + row_matches(
            options,
            row,
            right,
        ),
    decreases right.len(),
{
    if right.len() == 0 {
        assert(left + right =~= left);
        assert(row_matches(options, row, left) + Seq::<HistorySearchMatch>::empty()
            =~= row_matches(options, row, left));
    } else {
        let all = left + right;
        assert(all.drop_last() =~= left + right.drop_last());
        assert(all.last() == right.last());
        lemma_row_matches_split(options, row, left, right.drop_last());
        assert(row_matches(options, row, all) =~= row_matches(options, row, left) + row_matches(
            options,
            row,
            right,
        ));
    }
}

/// Lines that neither cursor stands in are searched alike from both.
proof fn lemma_other_lines(
    request: HistorySearchRequest,
    one: HistorySearchCursor,
    other: HistorySearchCursor,
    rows: Seq<(StyledRowModel, Seq<(usize, usize)>)>,
)
    requires
        forall|i: int|
            0 <= i < rows.len() ==> row_boundary((#[trigger] rows[i]).0, one, request.direction)
                == row_boundary(rows[i].0, other, request.direction),
    ensures
        all_matches(request, one, rows) == all_matches(request, other, rows),
    decreases rows.len(),
{
    if rows.len() > 0 {
        let front = rows.drop_last();
        assert forall|i: int| 0 <= i < front.len() implies row_boundary(
            (#[trigger] front[i]).0,
            one,
            request.direction,
        ) == row_boundary(front[i].0, other, request.direction) by {
            assert(front[i] == rows[i]);
        }
        lemma_other_lines(request, one, other, front);
        assert(rows[rows.len() - 1] == rows.last());
    }
}

/// How many of the first ranges of a line a cursor at `boundary` has behind it,
/// seen from the beginning of the line.
spec fn leading(
    found: Seq<(usize, usize)>,
    direction: HistorySearchDirection,
    boundary: int,
) -> int
    decreases found.len(),
{
    if found.len() == 0 || !leads(found[0], direction, boundary) {
        0
    } else {
        1 + leading(found.skip(1), direction, boundary)
    }
}

spec fn leads(range: (usize, usize), direction: HistorySearchDirection, boundary: int) -> bool {
    match direction {
        HistorySearchDirection::Forward => range.0 < boundary,
        HistorySearchDirection::Backward => range.1 <= boundary,
    }
}

proof fn lemma_leading(
    found: Seq<(usize, usize)>,
    direction: HistorySearchDirection,
    boundary: int,
)
    ensures
        ({
            let at = leading(found, direction, boundary);
            &&& 0 <= at <= found.len()
            &&& forall|i: int| 0 <= i < at ==> leads(#[trigger] found[i], direction, boundary)
            &&& at < found.len() ==> !leads(found[at], direction, boundary)
        }),
    decreases found.len(),
{
    if found.len() > 0 && leads(found[0], direction, boundary) {
        let rest = found.skip(1);
        lemma_leading(rest, direction, boundary);
        let at = leading(rest, direction, boundary);
        assert forall|i: int| 0 <= i < at + 1 implies leads(
            #[trigger] found[i],
            direction,
            boundary,
        ) by {
            if i > 0 {
                assert(rest[i - 1] == found[i]);
            }
        }
        if at < rest.len() {
            assert(rest[at] == found[at + 1]);
        }
    }
}

proof fn lemma_candidates_among(
    found: Seq<(usize, usize)>,
    direction: HistorySearchDirection,
    boundary: int,
    at: int,
    count: int,
)
    requires
        0 <= at <= found.len(),
        0 <= count <= found.len(),
        forall|i: int|
            0 <= i < found.len() ==> leads(#[trigger] found[i], direction, boundary) == (i < at),
    ensures
        candidates(found.take(count), direction, boundary) == match direction {
            HistorySearchDirection::Forward => if count <= at {
                Seq::empty()
            } else {
                found.subrange(at, count)
            },
            HistorySearchDirection::Backward => if count <= at {
                found.take(count).reverse()
            } else {
                found.take(at).reverse()
            },
        },
    decreases count,
{
    if count > 0 {
        assert(found.take(count).drop_last() =~= found.take(count - 1));
        assert(found.take(count).last() == found[count - 1]);
        lemma_candidates_among(found, direction, boundary, at, count - 1);
        match direction {
            HistorySearchDirection::Forward => {
                if count - 1 > at {
                    assert(found.subrange(at, count - 1).push(found[count - 1])
                        =~= found.subrange(at, count));
                } else if count - 1 == at {
                    assert(Seq::empty().push(found[count - 1]) =~= found.subrange(at, count));
                }
            },
            HistorySearchDirection::Backward => {
                if count <= at {
                    assert(seq![found[count - 1]] + found.take(count - 1).reverse() =~= found.take(
                        count,
                    ).reverse());
                }
            },
        }
    } else {
        assert(found.take(0).reverse() =~= Seq::empty());
    }
}

/// What a search takes up of a line is what lies on from its cursor: forward
/// the last ranges, backward the first, nearest first.
proof fn lemma_candidates_run_on(
    found: Seq<(usize, usize)>,
    text: Seq<char>,
    direction: HistorySearchDirection,
    boundary: int,
) -> (at: int)
    requires
        ranges_in_text(found, text),
    ensures
        0 <= at <= found.len(),
        candidates(found, direction, boundary) == match direction {
            HistorySearchDirection::Forward => found.skip(at),
            HistorySearchDirection::Backward => found.take(at).reverse(),
        },
{
    let at = leading(found, direction, boundary);
    lemma_leading(found, direction, boundary);
    assert forall|i: int| 0 <= i < found.len() implies leads(
        #[trigger] found[i],
        direction,
        boundary,
    ) == (i < at) by {
        if i > at {
            assert(found[at].0 <= found[at].1);
            assert(found[i].0 <= found[i].1);
            assert(found[at].1 <= found[i].0);
        }
    }
    lemma_candidates_among(found, direction, boundary, at, found.len() as int);
    assert(found.take(found.len() as int) =~= found);
    assert(found.subrange(at, found.len() as int) =~= found.skip(at));
    if at == found.len() {
        assert(found.skip(at) =~= Seq::empty());
    }
    at
}

/// A search that stopped within a row stopped behind a match of it.
proof fn lemma_full_in_row(
    scan: Scan,
    request: HistorySearchRequest,
    row: StyledRowModel,
    ranges: Seq<(usize, usize)>,
    next: HistorySearchCursor,
) -> (at: int)
    requires
        scan.end is None,
        with_ranges(scan, request, row, ranges).end == Some(ScanEnd::Full(next)),
    ensures
        0 <= at < ranges.len(),
        ranges[at].0 < ranges[at].1,
        next == after_match(match_of(row.line_id, ranges[at]), request.direction),
        with_ranges(scan, request, row, ranges).matches == scan.matches + row_matches(
            request.options,
            row,
            ranges.take(at + 1),
        ),
    decreases ranges.len(),
{
    let front = ranges.drop_last();
    let before = with_ranges(scan, request, row, front);
    if before.end is Some {
        let at = lemma_full_in_row(scan, request, row, front, next);
        assert(front.take(at + 1) =~= ranges.take(at + 1));
        at
    } else {
        let at = ranges.len() - 1;
        lemma_open_row(scan, request, row, front);
        assert(ranges.take(at + 1) =~= ranges);
        assert(with_ranges(scan, request, row, ranges).matches =~= scan.matches + row_matches(
            request.options,
            row,
            ranges,
        ));
        at
    }
}

/// A search that goes on has taken all matches of a row.
proof fn lemma_open_row(
    scan: Scan,
    request: HistorySearchRequest,
    row: StyledRowModel,
    ranges: Seq<(usize, usize)>,
)
    requires
        scan.end is None,
        with_ranges(scan, request, row, ranges).end is None,
    ensures
        with_ranges(scan, request, row, ranges).matches == scan.matches + row_matches(
            request.options,
            row,
            ranges,
        ),
        with_ranges(scan, request, row, ranges).last_line == scan.last_line,
    decreases ranges.len(),
{
    if ranges.len() == 0 {
        assert(scan.matches + Seq::<HistorySearchMatch>::empty() =~= scan.matches);
    } else {
        lemma_open_row(scan, request, row, ranges.drop_last());
        assert(with_ranges(scan, request, row, ranges).matches =~= scan.matches + row_matches(
            request.options,
            row,
            ranges,
        ));
    }
}

proof fn lemma_open_rows(
    request: HistorySearchRequest,
    cursor: HistorySearchCursor,
    rows: Seq<(StyledRowModel, Seq<(usize, usize)>)>,
)
    requires
        with_rows(scan_start(cursor), request, cursor, rows).end is None,
    ensures
        with_rows(scan_start(cursor), request, cursor, rows).matches == all_matches(
            request,
            cursor,
            rows,
        ),
        rows.len() > 0 ==> with_rows(scan_start(cursor), request, cursor, rows).last_line
            == rows.last().0.line_id,
    decreases rows.len(),
{
    if rows.len() > 0 {
        let (row, found) = rows.last();
        let before = with_rows(scan_start(cursor), request, cursor, rows.drop_last());
        lemma_open_rows(request, cursor, rows.drop_last());
        let entered = Scan {
            scanned: before.scanned + 1,
            last_line: row.line_id,
            incomplete: before.incomplete || row.truncated,
            ..before
        };
        lemma_open_row(
            entered,
            request,
            row,
            candidates(found, request.direction, row_boundary(row, cursor, request.direction)),
        );
    }
}

/// A search that is full stopped behind a match of one of its rows.
proof fn lemma_full_in_rows(
    request: HistorySearchRequest,
    cursor: HistorySearchCursor,
    rows: Seq<(StyledRowModel, Seq<(usize, usize)>)>,
    next: HistorySearchCursor,
) -> (place: (int, int))
    requires
        with_rows(scan_start(cursor), request, cursor, rows).end == Some(ScanEnd::Full(next)),
    ensures
        ({
            let (at, k) = place;
            let (row, found) = rows[at];
            let ranges = candidates(
                found,
                request.direction,
                row_boundary(row, cursor, request.direction),
            );
            &&& 0 <= at < rows.len()
            &&& 0 <= k < ranges.len()
            &&& ranges[k].0 < ranges[k].1
            &&& next == after_match(match_of(row.line_id, ranges[k]), request.direction)
            &&& with_rows(scan_start(cursor), request, cursor, rows).matches == all_matches(
                request,
                cursor,
                rows.take(at),
            ) + row_matches(request.options, row, ranges.take(k + 1))
        }),
    decreases rows.len(),
{
    let front = rows.drop_last();
    let before = with_rows(scan_start(cursor), request, cursor, front);
    if before.end is Some {
        let (at, k) = lemma_full_in_rows(request, cursor, front, next);
        assert(front[at] == rows[at]);
        assert(front.take(at) =~= rows.take(at));
        (at, k)
    } else {
        let at = rows.len() - 1;
        let (row, found) = rows.last();
        lemma_open_rows(request, cursor, front);
        let entered = Scan {
            scanned: before.scanned + 1,
            last_line: row.line_id,
            incomplete: before.incomplete || row.truncated,
            ..before
        };
        let k = lemma_full_in_row(
            entered,
            request,
            row,
            candidates(found, request.direction, row_boundary(row, cursor, request.direction)),
            next,
        );
        assert(rows.take(at) =~= front);
        (at, k)
    }
}

proof fn lemma_ahead(
    journal: Seq<(StyledRowModel, Seq<(usize, usize)>)>,
    direction: HistorySearchDirection,
    line: int,
    at: int,
)
    requires
        searchable(journal),
        1 <= line <= journal.len(),
        0 <= at < ahead(journal, direction, line).len(),
    ensures
        ({
            let rows = ahead(journal, direction, line);
            let there = match direction {
                HistorySearchDirection::Forward => line + at,
                HistorySearchDirection::Backward => line - at,
            };
            &&& 1 <= there <= journal.len()
            &&& rows[at] == journal[there - 1]
            &&& rows[at].0.line_id == there
            &&& !rows[at].0.truncated
            &&& ranges_in_text(rows[at].1, rows[at].0.text)
            &&& utf8(rows[at].0.text).len() <= usize::MAX
            &&& ahead(journal, direction, there) == rows.skip(at)
            &&& at + 1 == rows.len() <==> there == match direction {
                HistorySearchDirection::Forward => journal.len() as int,
                HistorySearchDirection::Backward => 1,
            }
        }),
{
    let rows = ahead(journal, direction, line);
    match direction {
        HistorySearchDirection::Forward => {
            assert(rows[at] == journal[line - 1 + at]);
            assert(journal.skip(line + at - 1) =~= rows.skip(at));
        },
        HistorySearchDirection::Backward => {
            assert(rows[at] == journal[line - 1 - at]);
            assert(journal.take(line - at).reverse() =~= rows.skip(at));
        },
    }
}

/// A page of a search and what the search finds from its next cursor on are
/// what it finds from its own cursor on, in the same order: no match is passed
/// over at the end of a page, and none is found twice. The page may show any
/// number of lines from the cursor on.
pub proof fn law_next_cursor_goes_on_exactly(
    request: HistorySearchRequest,
    journal: Seq<(StyledRowModel, Seq<(usize, usize)>)>,
    cursor: HistorySearchCursor,
    count: int,
    revision: u64,
    result: HistorySearchResult,
)
    requires
        valid_request(request),
        searchable(journal),
        1 <= cursor.line_id <= journal.len(),
        0 < count <= ahead(journal, request.direction, cursor.line_id as int).len(),
        scan_answers(
            with_rows(
                scan_start(cursor),
                request,
                cursor,
                ahead(journal, request.direction, cursor.line_id as int).take(count),
            ),
            request.direction,
            revision,
            journal.len() as u64,
            Ok(result),
        ),
    ensures
        to_find(request, journal, cursor) == result.matches@ + match result.next_cursor {
            Some(next) => to_find(request, journal, next),
            None => Seq::empty(),
        },
        result.next_cursor matches Some(next) ==> 1 <= next.line_id <= journal.len(),
        result.matches@.len() <= request.max_matches,
        result.scanned_lines <= count,
{
    let direction = request.direction;
    let rows = ahead(journal, direction, cursor.line_id as int);
    let page = rows.take(count);
    let scan = with_rows(scan_start(cursor), request, cursor, page);
    law_search_reports_first_matches(request, cursor, page);
    lemma_no_deferral(request, cursor, page, journal, rows);
    match scan.end {
        None => lemma_page_passed(request, journal, cursor, count),
        Some(ScanEnd::Full(next)) => lemma_page_full(request, journal, cursor, count, next),
        _ => {},
    }
    if scan.end is None && next_line(scan.last_line, journal.len() as u64, direction) is None {
        assert(scan.matches + Seq::<HistorySearchMatch>::empty() =~= scan.matches);
    }
}

proof fn lemma_page_passed(
    request: HistorySearchRequest,
    journal: Seq<(StyledRowModel, Seq<(usize, usize)>)>,
    cursor: HistorySearchCursor,
    count: int,
)
    requires
        searchable(journal),
        1 <= cursor.line_id <= journal.len(),
        0 < count <= ahead(journal, request.direction, cursor.line_id as int).len(),
        with_rows(
            scan_start(cursor),
            request,
            cursor,
            ahead(journal, request.direction, cursor.line_id as int).take(count),
        ).end is None,
    ensures
        ({
            let rows = ahead(journal, request.direction, cursor.line_id as int);
            let scan = with_rows(scan_start(cursor), request, cursor, rows.take(count));
            match next_line(scan.last_line, journal.len() as u64, request.direction) {
                Some(next) => to_find(request, journal, cursor) == scan.matches + to_find(
                    request,
                    journal,
                    next,
                ) && 1 <= next.line_id <= journal.len(),
                None => to_find(request, journal, cursor) == scan.matches,
            }
        }),
{
    let direction = request.direction;
    let rows = ahead(journal, direction, cursor.line_id as int);
    let page = rows.take(count);
    let scan = with_rows(scan_start(cursor), request, cursor, page);
    let following = next_line(scan.last_line, journal.len() as u64, direction);
    lemma_open_rows(request, cursor, page);
    lemma_ahead(journal, direction, cursor.line_id as int, count - 1);
    assert(page.last() == rows[count - 1]);
    let rest = rows.skip(count);
    assert(page + rest =~= rows);
    lemma_all_matches_split(request, cursor, page, rest);
    if count < rows.len() {
        lemma_ahead(journal, direction, cursor.line_id as int, count);
        let next = following->0;
        assert(following is Some);
        assert forall|i: int| 0 <= i < rest.len() implies row_boundary(
            (#[trigger] rest[i]).0,
            cursor,
            direction,
        ) == row_boundary(rest[i].0, next, direction) by {
            lemma_ahead(journal, direction, cursor.line_id as int, count + i);
            assert(rest[i] == rows[count + i]);
        }
        lemma_other_lines(request, cursor, next, rest);
    } else {
        assert(rest =~= Seq::empty());
        assert(scan.matches + Seq::<HistorySearchMatch>::empty() =~= scan.matches);
    }
}

proof fn lemma_page_full(
    request: HistorySearchRequest,
    journal: Seq<(StyledRowModel, Seq<(usize, usize)>)>,
    cursor: HistorySearchCursor,
    count: int,
    next: HistorySearchCursor,
)
    requires
        searchable(journal),
        1 <= cursor.line_id <= journal.len(),
        0 < count <= ahead(journal, request.direction, cursor.line_id as int).len(),
        with_rows(
            scan_start(cursor),
            request,
            cursor,
            ahead(journal, request.direction, cursor.line_id as int).take(count),
        ).end == Some(ScanEnd::Full(next)),
    ensures
        to_find(request, journal, cursor) == with_rows(
            scan_start(cursor),
            request,
            cursor,
            ahead(journal, request.direction, cursor.line_id as int).take(count),
        ).matches + to_find(request, journal, next),
        1 <= next.line_id <= journal.len(),
{
    let direction = request.direction;
    let rows = ahead(journal, direction, cursor.line_id as int);
    let page = rows.take(count);
    let scan = with_rows(scan_start(cursor), request, cursor, page);
    let (at, k) = lemma_full_in_rows(request, cursor, page, next);
    lemma_ahead(journal, direction, cursor.line_id as int, at);
    assert(page[at] == rows[at]);
    let (row, found) = rows[at];
    let boundary = row_boundary(row, cursor, direction);
    let ranges = candidates(found, direction, boundary);
    let left = ranges.skip(k + 1);
    lemma_row_resumes(request, row, found, boundary, k);
    let behind = rows.skip(at + 1);
    lemma_around_row(request, cursor, rows, at);
    lemma_around_row(request, next, rows.skip(at), 0);
    assert(rows.skip(at)[0] == rows[at]);
    assert(rows.skip(at).skip(1) =~= behind);
    assert(rows.skip(at).take(0) =~= Seq::empty());
    assert forall|i: int| 0 <= i < behind.len() implies row_boundary(
        (#[trigger] behind[i]).0,
        cursor,
        direction,
    ) == row_boundary(behind[i].0, next, direction) by {
        lemma_ahead(journal, direction, cursor.line_id as int, at + 1 + i);
        assert(behind[i] == rows[at + 1 + i]);
    }
    lemma_other_lines(request, cursor, next, behind);
    assert(page.take(at) =~= rows.take(at));
    let before = all_matches(request, cursor, rows.take(at));
    let taken = row_matches(request.options, row, ranges.take(k + 1));
    let rest = row_matches(request.options, row, left);
    let later = all_matches(request, cursor, behind);
    assert(to_find(request, journal, next) =~= rest + later);
    assert(before + (taken + rest) + later =~= before + taken + (rest + later));
}

/// Behind a match the rest of the line is left to find.
proof fn lemma_row_resumes(
    request: HistorySearchRequest,
    row: StyledRowModel,
    found: Seq<(usize, usize)>,
    boundary: int,
    k: int,
)
    requires
        ranges_in_text(found, row.text),
        0 <= k < candidates(found, request.direction, boundary).len(),
        candidates(found, request.direction, boundary)[k].0 < candidates(
            found,
            request.direction,
            boundary,
        )[k].1,
    ensures
        ({
            let direction = request.direction;
            let ranges = candidates(found, direction, boundary);
            let next = after_match(match_of(row.line_id, ranges[k]), direction);
            &&& candidates(found, direction, row_boundary(row, next, direction)) == ranges.skip(
                k + 1,
            )
            &&& row_matches(request.options, row, ranges) == row_matches(
                request.options,
                row,
                ranges.take(k + 1),
            ) + row_matches(request.options, row, ranges.skip(k + 1))
        }),
{
    let direction = request.direction;
    let ranges = candidates(found, direction, boundary);
    let next = after_match(match_of(row.line_id, ranges[k]), direction);
    let s = lemma_candidates_run_on(found, row.text, direction, boundary);
    let place = match direction {
        HistorySearchDirection::Forward => s + k,
        HistorySearchDirection::Backward => s - 1 - k,
    };
    assert(found[place] == ranges[k]);
    law_cursor_resumes_after_match(found, row.text, row.line_id, place, direction);
    assert(candidates(found, direction, next.byte_offset as int) =~= ranges.skip(k + 1));
    assert(row_boundary(row, next, direction) == next.byte_offset);
    assert(ranges.take(k + 1) + ranges.skip(k + 1) =~= ranges);
    lemma_row_matches_split(request.options, row, ranges.take(k + 1), ranges.skip(k + 1));
}

/// What is found around a row, and in it.
proof fn lemma_around_row(
    request: HistorySearchRequest,
    cursor: HistorySearchCursor,
    rows: Seq<(StyledRowModel, Seq<(usize, usize)>)>,
    at: int,
)
    requires
        0 <= at < rows.len(),
    ensures
        all_matches(request, cursor, rows) == all_matches(request, cursor, rows.take(at))
            + row_matches(
            request.options,
            rows[at].0,
            candidates(
                rows[at].1,
                request.direction,
                row_boundary(rows[at].0, cursor, request.direction),
            ),
        ) + all_matches(request, cursor, rows.skip(at + 1)),
{
    let here = seq![rows[at]];
    assert(rows =~= rows.take(at) + here + rows.skip(at + 1));
    lemma_all_matches_split(request, cursor, rows.take(at) + here, rows.skip(at + 1));
    lemma_all_matches_split(request, cursor, rows.take(at), here);
    lemma_one_row(request, cursor, rows[at]);
}

proof fn lemma_one_row(
    request: HistorySearchRequest,
    cursor: HistorySearchCursor,
    row: (StyledRowModel, Seq<(usize, usize)>),
)
    ensures
        all_matches(request, cursor, seq![row]) == row_matches(
            request.options,
            row.0,
            candidates(
                row.1,
                request.direction,
                row_boundary(row.0, cursor, request.direction),
            ),
        ),
{
    let one = seq![row];
    assert(one.drop_last() =~= Seq::<(StyledRowModel, Seq<(usize, usize)>)>::empty());
    assert(all_matches(request, cursor, one.drop_last())
        =~= Seq::<HistorySearchMatch>::empty());
    assert(all_matches(request, cursor, one) =~= row_matches(
        request.options,
        row.0,
        candidates(row.1, request.direction, row_boundary(row.0, cursor, request.direction)),
    ));
}

/// A line that is whole is not put off.
proof fn lemma_no_deferral(
    request: HistorySearchRequest,
    cursor: HistorySearchCursor,
    page: Seq<(StyledRowModel, Seq<(usize, usize)>)>,
    journal: Seq<(StyledRowModel, Seq<(usize, usize)>)>,
    rows: Seq<(StyledRowModel, Seq<(usize, usize)>)>,
)
    requires
        searchable(journal),
        1 <= cursor.line_id <= journal.len(),
        rows == ahead(journal, request.direction, cursor.line_id as int),
        page.len() <= rows.len(),
        page == rows.take(page.len() as int),
    ensures
        !(with_rows(scan_start(cursor), request, cursor, page).end matches Some(
            ScanEnd::Deferred(_),
        )),
    decreases page.len(),
{
    if page.len() > 0 {
        let front = page.drop_last();
        assert(front =~= rows.take(front.len() as int));
        lemma_no_deferral(request, cursor, front, journal, rows);
        lemma_ahead(journal, request.direction, cursor.line_id as int, page.len() - 1);
        let (row, found) = page.last();
        lemma_no_deferral_in_row(
            Scan {
                scanned: with_rows(scan_start(cursor), request, cursor, front).scanned + 1,
                last_line: row.line_id,
                incomplete: with_rows(scan_start(cursor), request, cursor, front).incomplete
                    || row.truncated,
                ..with_rows(scan_start(cursor), request, cursor, front)
            },
            request,
            row,
            candidates(found, request.direction, row_boundary(row, cursor, request.direction)),
        );
    }
}

proof fn lemma_no_deferral_in_row(
    scan: Scan,
    request: HistorySearchRequest,
    row: StyledRowModel,
    ranges: Seq<(usize, usize)>,
)
    ensures
        with_ranges(scan, request, row, ranges).end matches Some(ScanEnd::Deferred(_)) ==> (
        scan.end matches Some(ScanEnd::Deferred(_))),
    decreases ranges.len(),
{
    if ranges.len() > 0 {
        lemma_no_deferral_in_row(scan, request, row, ranges.drop_last());
    }
}

// ---------------------------------------------------------------------------
// A whole search.

/// One page of a search: how many lines it showed, and its answer.
pub struct SearchPage {
    pub count: int,
    pub revision: u64,
    pub result: HistorySearchResult,
}

/// The pages of a search from `cursor` on, each beginning where the one before
/// said, the last one with nowhere to go on.
pub open spec fn pages_run(
    request: HistorySearchRequest,
    journal: Seq<(StyledRowModel, Seq<(usize, usize)>)>,
    cursor: HistorySearchCursor,
    pages: Seq<SearchPage>,
) -> bool
    decreases pages.len(),
{
    pages.len() > 0 && {
        let page = pages[0];
        let rows = ahead(journal, request.direction, cursor.line_id as int);
        &&& 0 < page.count <= rows.len()
        &&& page.count <= request.max_scan_lines
        &&& scan_answers(
            with_rows(scan_start(cursor), request, cursor, rows.take(page.count)),
            request.direction,
            page.revision,
            journal.len() as u64,
            Ok(page.result),
        )
        &&& match page.result.next_cursor {
            Some(next) => pages_run(request, journal, next, pages.skip(1)),
            None => pages.len() == 1,
        }
    }
}

/// What the pages report, one after the other.
pub open spec fn reported(pages: Seq<SearchPage>) -> Seq<HistorySearchMatch>
    decreases pages.len(),
{
    if pages.len() == 0 {
        Seq::empty()
    } else {
        pages[0].result.matches@ + reported(pages.skip(1))
    }
}

/// The pages of a search together report every match from the first cursor on,
/// each once and in order, whatever the limits of the pages; and each page keeps
/// to its limits.
pub proof fn law_pages_report_every_match(
    request: HistorySearchRequest,
    journal: Seq<(StyledRowModel, Seq<(usize, usize)>)>,
    cursor: HistorySearchCursor,
    pages: Seq<SearchPage>,
)
    requires
        valid_request(request),
        searchable(journal),
        1 <= cursor.line_id <= journal.len(),
        pages_run(request, journal, cursor, pages),
    ensures
        reported(pages) == to_find(request, journal, cursor),
        forall|i: int|
            0 <= i < pages.len() ==> (#[trigger] pages[i]).result.matches@.len()
                <= request.max_matches && pages[i].result.scanned_lines <= request.max_scan_lines,
    decreases pages.len(),
{
    let page = pages[0];
    let rest = pages.skip(1);
    law_next_cursor_goes_on_exactly(
        request,
        journal,
        cursor,
        page.count,
        page.revision,
        page.result,
    );
    match page.result.next_cursor {
        Some(next) => {
            law_pages_report_every_match(request, journal, next, rest);
            assert(reported(pages) == page.result.matches@ + reported(rest));
            assert(to_find(request, journal, cursor) == page.result.matches@ + to_find(
                request,
                journal,
                next,
            ));
            assert forall|i: int| 0 <= i < pages.len() implies (
            #[trigger] pages[i]).result.matches@.len() <= request.max_matches
                && pages[i].result.scanned_lines <= request.max_scan_lines by {
                if i > 0 {
                    assert(rest[i - 1] == pages[i]);
                }
            }
        },
        None => {
            assert(rest =~= Seq::empty());
            assert(reported(rest) =~= Seq::empty());
            assert(reported(pages) == page.result.matches@ + reported(rest));
        },
    }
}

/// All matches of a journal, line by line.
pub open spec fn journal_matches(
    options: HistorySearchOptions,
    journal: Seq<(StyledRowModel, Seq<(usize, usize)>)>,
) -> Seq<HistorySearchMatch>
    decreases journal.len(),
{
    if journal.len() == 0 {
        Seq::empty()
    } else {
        journal_matches(options, journal.drop_last()) + row_matches(
            options,
            journal.last().0,
            journal.last().1,
        )
    }
}

/// A match stands before another one.
pub open spec fn stands_before(one: HistorySearchMatch, other: HistorySearchMatch) -> bool {
    one.line_id < other.line_id || one.line_id == other.line_id && one.byte_end
        <= other.byte_start
}

/// The place at which a search without a cursor begins.
pub open spec fn first_cursor(
    journal: Seq<(StyledRowModel, Seq<(usize, usize)>)>,
    direction: HistorySearchDirection,
) -> HistorySearchCursor {
    line_entry(
        match direction {
            HistorySearchDirection::Forward => 1u64,
            HistorySearchDirection::Backward => journal.len() as u64,
        },
        direction,
    )
}

proof fn lemma_entered_row(
    row: StyledRowModel,
    found: Seq<(usize, usize)>,
    cursor: HistorySearchCursor,
    direction: HistorySearchDirection,
)
    requires
        ranges_in_text(found, row.text),
        cursor == line_entry(cursor.line_id, direction),
    ensures
        candidates(found, direction, row_boundary(row, cursor, direction)) == match direction {
            HistorySearchDirection::Forward => found,
            HistorySearchDirection::Backward => found.reverse(),
        },
{
    let boundary = row_boundary(row, cursor, direction);
    let length = utf8(row.text).len() as int;
    let at = match direction {
        HistorySearchDirection::Forward => 0int,
        HistorySearchDirection::Backward => found.len() as int,
    };
    assert forall|i: int| 0 <= i < found.len() implies leads(
        #[trigger] found[i],
        direction,
        boundary,
    ) == (i < at) by {
        assert(found[i].0 <= found[i].1 <= length);
    }
    lemma_candidates_among(found, direction, boundary, at, found.len() as int);
    assert(found.take(found.len() as int) =~= found);
    assert(found.subrange(0, found.len() as int) =~= found);
    if found.len() == 0 {
        assert(found =~= Seq::empty());
    }
}

proof fn lemma_row_reversed(
    options: HistorySearchOptions,
    row: StyledRowModel,
    ranges: Seq<(usize, usize)>,
)
    ensures
        row_matches(options, row, ranges.reverse()) == row_matches(options, row, ranges).reverse(),
    decreases ranges.len(),
{
    if ranges.len() == 0 {
        assert(ranges.reverse() =~= ranges);
        assert(row_matches(options, row, ranges).reverse() =~= row_matches(options, row, ranges));
    } else {
        let front = ranges.drop_last();
        let last = seq![ranges.last()];
        lemma_row_reversed(options, row, front);
        assert(ranges.reverse() =~= last + front.reverse());
        lemma_row_matches_split(options, row, last, front.reverse());
        assert(last.drop_last() =~= Seq::<(usize, usize)>::empty());
        assert(row_matches(options, row, last.drop_last())
            =~= Seq::<HistorySearchMatch>::empty());
        assert(row_matches(options, row, ranges.reverse()) =~= row_matches(
            options,
            row,
            ranges,
        ).reverse());
    }
}

/// A search without a cursor has all matches of the journal to find, forward in
/// the order of the lines and backward in the opposite one.
pub proof fn law_search_is_for_all_matches(
    request: HistorySearchRequest,
    journal: Seq<(StyledRowModel, Seq<(usize, usize)>)>,
)
    requires
        searchable(journal),
        journal.len() > 0,
    ensures
        to_find(request, journal, first_cursor(journal, request.direction))
            == match request.direction {
            HistorySearchDirection::Forward => journal_matches(request.options, journal),
            HistorySearchDirection::Backward => journal_matches(
                request.options,
                journal,
            ).reverse(),
        },
{
    let cursor = first_cursor(journal, request.direction);
    match request.direction {
        HistorySearchDirection::Forward => {
            assert(journal.skip(0) =~= journal);
            lemma_forward_matches(request, cursor, journal);
        },
        HistorySearchDirection::Backward => {
            assert(journal.take(journal.len() as int) =~= journal);
            lemma_backward_matches(request, cursor, journal);
        },
    }
}

proof fn lemma_forward_matches(
    request: HistorySearchRequest,
    cursor: HistorySearchCursor,
    rows: Seq<(StyledRowModel, Seq<(usize, usize)>)>,
)
    requires
        request.direction == HistorySearchDirection::Forward,
        cursor == line_entry(cursor.line_id, request.direction),
        forall|i: int|
            0 <= i < rows.len() ==> ranges_in_text((#[trigger] rows[i]).1, rows[i].0.text),
    ensures
        all_matches(request, cursor, rows) == journal_matches(request.options, rows),
    decreases rows.len(),
{
    if rows.len() > 0 {
        let front = rows.drop_last();
        assert forall|i: int| 0 <= i < front.len() implies ranges_in_text(
            (#[trigger] front[i]).1,
            front[i].0.text,
        ) by {
            assert(front[i] == rows[i]);
        }
        lemma_forward_matches(request, cursor, front);
        assert(rows[rows.len() - 1] == rows.last());
        lemma_entered_row(rows.last().0, rows.last().1, cursor, request.direction);
    }
}

proof fn lemma_backward_matches(
    request: HistorySearchRequest,
    cursor: HistorySearchCursor,
    rows: Seq<(StyledRowModel, Seq<(usize, usize)>)>,
)
    requires
        request.direction == HistorySearchDirection::Backward,
        cursor == line_entry(cursor.line_id, request.direction),
        forall|i: int|
            0 <= i < rows.len() ==> ranges_in_text((#[trigger] rows[i]).1, rows[i].0.text),
    ensures
        all_matches(request, cursor, rows.reverse()) == journal_matches(
            request.options,
            rows,
        ).reverse(),
    decreases rows.len(),
{
    if rows.len() == 0 {
        assert(rows.reverse() =~= rows);
        assert(journal_matches(request.options, rows).reverse()
            =~= Seq::<HistorySearchMatch>::empty());
    } else {
        let front = rows.drop_last();
        let last = rows.last();
        assert forall|i: int| 0 <= i < front.len() implies ranges_in_text(
            (#[trigger] front[i]).1,
            front[i].0.text,
        ) by {
            assert(front[i] == rows[i]);
        }
        lemma_backward_matches(request, cursor, front);
        assert(rows[rows.len() - 1] == last);
        lemma_entered_row(last.0, last.1, cursor, request.direction);
        lemma_row_reversed(request.options, last.0, last.1);
        assert(rows.reverse() =~= seq![last] + front.reverse());
        lemma_all_matches_split(request, cursor, seq![last], front.reverse());
        lemma_one_row(request, cursor, last);
        assert(all_matches(request, cursor, rows.reverse()) =~= journal_matches(
            request.options,
            rows,
        ).reverse());
    }
}

/// A backward search finds what a forward search finds, the last match first:
/// the pages of the two report the same matches in opposite orders.
pub proof fn law_backward_search_reverses_forward(
    forward: HistorySearchRequest,
    backward: HistorySearchRequest,
    journal: Seq<(StyledRowModel, Seq<(usize, usize)>)>,
    there: Seq<SearchPage>,
    back: Seq<SearchPage>,
)
    requires
        valid_request(forward),
        valid_request(backward),
        forward.direction == HistorySearchDirection::Forward,
        backward.direction == HistorySearchDirection::Backward,
        forward.options == backward.options,
        searchable(journal),
        journal.len() > 0,
        pages_run(forward, journal, first_cursor(journal, forward.direction), there),
        pages_run(backward, journal, first_cursor(journal, backward.direction), back),
    ensures
        reported(there) == journal_matches(forward.options, journal),
        reported(back) == reported(there).reverse(),
{
    law_pages_report_every_match(
        forward,
        journal,
        first_cursor(journal, forward.direction),
        there,
    );
    law_pages_report_every_match(
        backward,
        journal,
        first_cursor(journal, backward.direction),
        back,
    );
    law_search_is_for_all_matches(forward, journal);
    law_search_is_for_all_matches(backward, journal);
}

/// The matches of a journal go by line, and within a line from left to right
/// without overlapping.
pub proof fn law_matches_are_in_order(
    options: HistorySearchOptions,
    journal: Seq<(StyledRowModel, Seq<(usize, usize)>)>,
    one: int,
    other: int,
)
    requires
        searchable(journal),
        0 <= one < other < journal_matches(options, journal).len(),
    ensures
        stands_before(
            journal_matches(options, journal)[one],
            journal_matches(options, journal)[other],
        ),
    decreases journal.len(),
{
    let front = journal.drop_last();
    let (row, found) = journal.last();
    let before = journal_matches(options, front);
    let here = row_matches(options, row, found);
    assert(journal[journal.len() - 1] == journal.last());
    assert(searchable(front)) by {
        assert forall|i: int| 0 <= i < front.len() implies (#[trigger] front[i]).0.line_id == i + 1
            && !front[i].0.truncated && utf8(front[i].0.text).len() <= usize::MAX
            && ranges_in_text(front[i].1, front[i].0.text) by {
            assert(front[i] == journal[i]);
        }
    }
    lemma_row_in_order(options, row, found, row.text);
    if other < before.len() {
        law_matches_are_in_order(options, front, one, other);
    } else if one < before.len() {
        lemma_lines_below(options, front, one);
        assert(here[other - before.len()].line_id == row.line_id);
    } else {
        assert(stands_before(here[one - before.len()], here[other - before.len()]));
    }
}

proof fn lemma_lines_below(
    options: HistorySearchOptions,
    journal: Seq<(StyledRowModel, Seq<(usize, usize)>)>,
    at: int,
)
    requires
        searchable(journal),
        0 <= at < journal_matches(options, journal).len(),
    ensures
        journal_matches(options, journal)[at].line_id <= journal.len(),
    decreases journal.len(),
{
    let front = journal.drop_last();
    let (row, found) = journal.last();
    let before = journal_matches(options, front);
    assert(journal[journal.len() - 1] == journal.last());
    if at < before.len() {
        assert(searchable(front)) by {
            assert forall|i: int| 0 <= i < front.len() implies (#[trigger] front[i]).0.line_id
                == i + 1 && !front[i].0.truncated && utf8(front[i].0.text).len() <= usize::MAX
                && ranges_in_text(front[i].1, front[i].0.text) by {
                assert(front[i] == journal[i]);
            }
        }
        lemma_lines_below(options, front, at);
    } else {
        lemma_row_in_order(options, row, found, row.text);
        assert(row_matches(options, row, found)[at - before.len()].line_id == row.line_id);
    }
}

proof fn lemma_row_in_order(
    options: HistorySearchOptions,
    row: StyledRowModel,
    ranges: Seq<(usize, usize)>,
    text: Seq<char>,
)
    requires
        ranges_in_text(ranges, text),
    ensures
        ({
            let found = row_matches(options, row, ranges);
            &&& forall|i: int|
                0 <= i < found.len() ==> (#[trigger] found[i]).line_id == row.line_id && (
                ranges.len() > 0 && found[i].byte_end <= ranges.last().1)
            &&& forall|i: int, j: int|
                0 <= i < j < found.len() ==> stands_before(#[trigger] found[i], #[trigger] found[j])
        }),
    decreases ranges.len(),
{
    if ranges.len() > 0 {
        let front = ranges.drop_last();
        assert(ranges_in_text(front, text)) by {
            assert forall|i: int| 0 <= i < front.len() implies front[i] == #[trigger] ranges[i] by {}
        }
        lemma_row_in_order(options, row, front, text);
        let before = row_matches(options, row, front);
        let found = row_matches(options, row, ranges);
        let n = ranges.len() - 1;
        assert(ranges[n].0 <= ranges[n].1);
        assert forall|i: int| 0 <= i < before.len() implies (#[trigger] before[i]).byte_end
            <= ranges[n].0 by {
            assert(front.last() == ranges[n - 1]);
            assert(ranges[n - 1].1 <= ranges[n].0);
        }
        assert forall|i: int, j: int| 0 <= i < j < found.len() implies stands_before(
            #[trigger] found[i],
            #[trigger] found[j],
        ) by {
            assert(found[i] == before[i]);
            if j < before.len() {
                assert(found[j] == before[j]);
            }
        }
        assert forall|i: int| 0 <= i < found.len() implies (#[trigger] found[i]).line_id
            == row.line_id && found[i].byte_end <= ranges.last().1 by {
            if i < before.len() {
                assert(found[i] == before[i]);
            }
        }
    }
}

/// A cursor's place counts forward from itself on and backward up to itself.
pub proof fn law_cursor_is_inclusive_forward_and_exclusive_backward(
    found: Seq<(usize, usize)>,
    text: Seq<char>,
    direction: HistorySearchDirection,
    boundary: int,
    range: (usize, usize),
)
    requires
        ranges_in_text(found, text),
    ensures
        candidates(found, direction, boundary).contains(range) <==> found.contains(range)
            && match direction {
            HistorySearchDirection::Forward => range.0 >= boundary,
            HistorySearchDirection::Backward => range.1 <= boundary,
        },
    decreases found.len(),
{
    let all = candidates(found, direction, boundary);
    if found.len() > 0 {
        let front = found.drop_last();
        let last = found.last();
        assert(ranges_in_text(front, text)) by {
            assert forall|i: int| 0 <= i < front.len() implies front[i] == #[trigger] found[i] by {}
        }
        law_cursor_is_inclusive_forward_and_exclusive_backward(
            front,
            text,
            direction,
            boundary,
            range,
        );
        let rest = candidates(front, direction, boundary);
        assert(found =~= front.push(last));
        assert(found.contains(range) <==> front.contains(range) || range == last) by {
            if found.contains(range) {
                let i = choose|i: int| 0 <= i < found.len() && found[i] == range;
                if i < front.len() {
                    assert(front[i] == range);
                }
            }
            if front.contains(range) {
                let i = choose|i: int| 0 <= i < front.len() && front[i] == range;
                assert(found[i] == range);
            }
            assert(found[found.len() - 1] == last);
        }
        if leads(last, direction, boundary) == (direction == HistorySearchDirection::Backward) {
            assert(all.contains(range) <==> rest.contains(range) || range == last) by {
                match direction {
                    HistorySearchDirection::Forward => {
                        assert(all == rest.push(last));
                        if all.contains(range) {
                            let i = choose|i: int| 0 <= i < all.len() && all[i] == range;
                            if i < rest.len() {
                                assert(rest[i] == range);
                            }
                        }
                        if rest.contains(range) {
                            let i = choose|i: int| 0 <= i < rest.len() && rest[i] == range;
                            assert(all[i] == range);
                        }
                        assert(all[rest.len() as int] == last);
                    },
                    HistorySearchDirection::Backward => {
                        assert(all == seq![last] + rest);
                        if all.contains(range) {
                            let i = choose|i: int| 0 <= i < all.len() && all[i] == range;
                            if i > 0 {
                                assert(rest[i - 1] == range);
                            }
                        }
                        if rest.contains(range) {
                            let i = choose|i: int| 0 <= i < rest.len() && rest[i] == range;
                            assert(all[i + 1] == range);
                        }
                        assert(all[0] == last);
                    },
                }
            }
        }
    }
}

} // verus!
