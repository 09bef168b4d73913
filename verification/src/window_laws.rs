//! Which lines a page shows and which records it is read from.
use crate::history_search::{
    search_cursor, valid_request, window_of, HistorySearchDirection, HistorySearchRequest,
    SearchWindow,
};
use crate::line_index::{LineIndexModel, RecordPlace};
use crate::log_page::{
    anchor_index, leading_records, page_window, plan_shows, records_before, records_for,
    requested_window, shrink, window_lines, without_return, PageReadPlan,
};
use crate::text::utf8;
use vstd::prelude::*;

verus! {

/// A window was made smaller fairly: a side gave lines away only as long as it
/// was the longer one.
pub open spec fn is_balanced(
    anchor: int,
    asked_start: int,
    asked_end: int,
    start: int,
    end: int,
) -> bool {
    &&& asked_start <= start <= anchor < end <= asked_end
    &&& start > asked_start ==> anchor - start + 1 >= end - anchor - 1
    &&& end < asked_end ==> end - anchor - 1 >= anchor - start
}

proof fn lemma_shrink_fairly(anchor: int, start: int, end: int, limit: int)
    requires
        start <= anchor < end,
        limit >= 1,
    ensures
        ({
            let (from, to) = shrink(anchor, start, end, limit);
            &&& is_balanced(anchor, start, end, from, to)
            &&& to - from == if end - start <= limit {
                end - start
            } else {
                limit
            }
        }),
    decreases end - start,
{
    if end - start > limit {
        if anchor - start >= end - anchor - 1 {
            lemma_shrink_fairly(anchor, start + 1, end, limit);
        } else {
            lemma_shrink_fairly(anchor, start, end - 1, limit);
        }
    }
}

/// The lines that are asked for around a line are those before it and behind it
/// as far as there are any, and of those at most 4096, from both sides as
/// evenly as they go.
pub proof fn law_window_has_the_lines_asked_for(
    line_count: int,
    anchor: int,
    rows_before: int,
    rows_after: int,
)
    requires
        0 <= anchor < line_count,
        0 <= rows_before <= 4095,
        0 <= rows_after <= 4095,
    ensures
        ({
            let (start, end) = requested_window(line_count, anchor, rows_before, rows_after);
            let first = if anchor >= rows_before {
                anchor - rows_before
            } else {
                0
            };
            let last = if anchor + rows_after < line_count {
                anchor + rows_after
            } else {
                line_count - 1
            };
            &&& last - first < 4096 ==> start == first && end == last + 1
            &&& last - first >= 4096 ==> end - start == 4096
            &&& is_balanced(anchor, first, last + 1, start, end)
        }),
{
    let first = if anchor >= rows_before {
        anchor - rows_before
    } else {
        0
    };
    let last = if anchor + rows_after < line_count {
        anchor + rows_after
    } else {
        line_count - 1
    };
    lemma_shrink_fairly(anchor, first, last + 1, 4096);
}

/// More than 4095 lines on a side are asked for as 4095.
pub proof fn law_window_is_limited(
    line_count: int,
    anchor: int,
    rows_before: int,
    rows_after: int,
)
    requires
        0 <= anchor < line_count,
        0 <= rows_before,
        0 <= rows_after,
    ensures
        requested_window(line_count, anchor, rows_before, rows_after) == requested_window(
            line_count,
            anchor,
            if rows_before <= 4095 {
                rows_before
            } else {
                4095
            },
            if rows_after <= 4095 {
                rows_after
            } else {
                4095
            },
        ),
{
}

proof fn lemma_fit_fairly(
    index: LineIndexModel,
    loaded: Map<int, Seq<u64>>,
    anchor: int,
    start: int,
    end: int,
    total: int,
)
    requires
        start <= anchor < end,
    ensures
        ({
            let (from, to) = crate::log_page::fit_bytes(index, loaded, anchor, start, end, total);
            is_balanced(anchor, start, end, from, to)
        }),
    decreases end - start,
{
    if total > crate::log_page::MAX_LOG_PAGE_BYTES && end - start > 1 {
        if anchor - start >= end - anchor - 1 {
            lemma_fit_fairly(
                index,
                loaded,
                anchor,
                start + 1,
                end,
                crate::log_page::without_line(index, loaded, total, start),
            );
        } else {
            lemma_fit_fairly(
                index,
                loaded,
                anchor,
                start,
                end - 1,
                crate::log_page::without_line(index, loaded, total, end - 1),
            );
        }
    }
}

/// A page shows the line that it is about, and of the lines around it that were
/// asked for as many from both sides as evenly as they go.
pub proof fn law_page_is_around_its_line(
    index: LineIndexModel,
    loaded: Map<int, Seq<u64>>,
    anchor: int,
    rows_before: int,
    rows_after: int,
)
    requires
        0 <= anchor < index.line_count(),
        0 <= rows_before <= 4095,
        0 <= rows_after <= 4095,
    ensures
        ({
            let (asked_start, asked_end) = requested_window(
                index.line_count(),
                anchor,
                rows_before,
                rows_after,
            );
            let (start, end) = page_window(index, loaded, anchor, rows_before, rows_after);
            is_balanced(anchor, asked_start, asked_end, start, end)
        }),
{
    law_window_has_the_lines_asked_for(index.line_count(), anchor, rows_before, rows_after);
    let (start, end) = requested_window(index.line_count(), anchor, rows_before, rows_after);
    lemma_fit_fairly(
        index,
        loaded,
        anchor,
        start,
        end,
        crate::log_page::window_bytes(index, loaded, start, end),
    );
}

/// The lines of a window are those of the index from its first to its last,
/// each under its number, counted from one.
pub proof fn law_lines_are_numbered(
    index: LineIndexModel,
    loaded: Map<int, Seq<u64>>,
    start: int,
    end: int,
    place: int,
)
    requires
        0 <= start <= place < end <= u64::MAX,
        forall|i: int| start <= i < end ==> (#[trigger] index.line_at(i, loaded)) is Some,
    ensures
        window_lines(index, loaded, start, end).len() == end - start,
        window_lines(index, loaded, start, end)[place - start] == (
            (place + 1) as u64,
            index.line_at(place, loaded)->0,
        ),
    decreases end - start,
{
    let before = window_lines(index, loaded, start, end - 1);
    assert(index.line_at(end - 1, loaded) is Some);
    if end - 1 > start {
        law_lines_are_numbered(index, loaded, start, end - 1, start);
        if place < end - 1 {
            law_lines_are_numbered(index, loaded, start, end - 1, place);
        }
    }
}

/// A page says that there are lines before it where its first line is not the
/// first of all, and lines behind it where its last line is not the last.
pub proof fn law_page_tells_what_is_around_it(
    plan: PageReadPlan,
    index: LineIndexModel,
    loaded: Map<int, Seq<u64>>,
    anchor: int,
    rows_before: int,
    rows_after: int,
)
    requires
        plan_shows(plan, index, loaded, anchor, rows_before, rows_after),
        0 <= anchor < index.line_count() <= u64::MAX,
        0 <= rows_before <= 4095,
        0 <= rows_after <= 4095,
        forall|i: int|
            0 <= i < index.line_count() ==> (#[trigger] index.line_at(i, loaded)) is Some,
    ensures
        plan.lines@.len() > 0,
        plan.has_before <==> plan.lines@[0].0 > 1,
        plan.has_after <==> plan.lines@.last().0 < plan.total_line_count,
        plan.anchor_line_id == anchor + 1,
        exists|i: int|
            0 <= i < plan.lines@.len() && (#[trigger] plan.lines@[i]).0 == plan.anchor_line_id,
{
    let (start, end) = page_window(index, loaded, anchor, rows_before, rows_after);
    law_page_is_around_its_line(index, loaded, anchor, rows_before, rows_after);
    law_window_has_the_lines_asked_for(index.line_count(), anchor, rows_before, rows_after);
    assert forall|i: int| start <= i < end implies (#[trigger] index.line_at(i, loaded)) is Some by {
    }
    law_lines_are_numbered(index, loaded, start, end, start);
    law_lines_are_numbered(index, loaded, start, end, end - 1);
    law_lines_are_numbered(index, loaded, start, end, anchor);
    assert(plan.lines@[anchor - start].0 == plan.anchor_line_id);
}

/// A page without a line of its own is about the last one, and any other one
/// about the line with its number, as long as there is such a line.
pub proof fn law_page_is_about_a_line(line_count: int, id: u64)
    requires
        line_count > 0,
    ensures
        anchor_index(line_count, None) == Some(line_count - 1),
        1 <= id <= line_count ==> anchor_index(line_count, Some(id)) == Some(id - 1),
        id == 0 || id > line_count ==> anchor_index(line_count, Some(id)) is None,
{
}

// ---------------------------------------------------------------------------
// Records.

/// Records one behind the other, none of them empty.
pub open spec fn in_a_row(records: Seq<RecordPlace>) -> bool {
    &&& forall|i: int| 0 <= i < records.len() ==> (#[trigger] records[i]).start < records[i].end()
    &&& forall|i: int, j: int|
        0 <= i < j < records.len() ==> (#[trigger] records[i]).end() <= (
        #[trigger] records[j]).start
}

proof fn lemma_skip_in_a_row(records: Seq<RecordPlace>, count: int)
    requires
        in_a_row(records),
        0 <= count <= records.len(),
    ensures
        in_a_row(records.skip(count)),
{
    let rest = records.skip(count);
    assert forall|i: int| 0 <= i < rest.len() implies (#[trigger] rest[i]).start
        < rest[i].end() by {
        assert(rest[i] == records[i + count]);
    }
    assert forall|i: int, j: int| 0 <= i < j < rest.len() implies (#[trigger] rest[i]).end() <= (
    #[trigger] rest[j]).start by {
        assert(rest[i] == records[i + count] && rest[j] == records[j + count]);
    }
}

proof fn lemma_records_before(records: Seq<RecordPlace>, start: int)
    requires
        in_a_row(records),
    ensures
        0 <= records_before(records, start) <= records.len(),
        forall|i: int|
            0 <= i < records.len() ==> ((#[trigger] records[i]).end() <= start) == (i
                < records_before(records, start)),
    decreases records.len(),
{
    if records.len() > 0 {
        if records[0].end() > start {
            assert forall|i: int| 0 <= i < records.len() implies (
            #[trigger] records[i]).end() > start by {
                if i > 0 {
                    assert(records[0].end() <= records[i].start);
                    assert(records[i].start < records[i].end());
                }
            }
        } else {
            let rest = records.skip(1);
            lemma_skip_in_a_row(records, 1);
            lemma_records_before(rest, start);
            assert forall|i: int| 0 <= i < records.len() implies ((
            #[trigger] records[i]).end() <= start) == (i < records_before(records, start)) by {
                if i > 0 {
                    assert(rest[i - 1] == records[i]);
                }
            }
        }
    }
}

proof fn lemma_leading(records: Seq<RecordPlace>, end: int) -> (count: int)
    requires
        in_a_row(records),
    ensures
        0 <= count <= records.len(),
        leading_records(records, end) == records.take(count),
        forall|i: int|
            0 <= i < records.len() ==> ((#[trigger] records[i]).start < end) == (i < count),
    decreases records.len(),
{
    if records.len() == 0 {
        assert(records.take(0) =~= Seq::empty());
        0
    } else if records[0].start >= end {
        assert(records.take(0) =~= Seq::empty());
        assert forall|i: int| 0 <= i < records.len() implies (
        #[trigger] records[i]).start >= end by {
            if i > 0 {
                assert(records[0].end() <= records[i].start);
                assert(records[0].start < records[0].end());
            }
        }
        0
    } else {
        let rest = records.skip(1);
        lemma_skip_in_a_row(records, 1);
        let count = lemma_leading(rest, end);
        assert(seq![records[0]] + rest.take(count) =~= records.take(count + 1));
        assert forall|i: int| 0 <= i < records.len() implies ((
        #[trigger] records[i]).start < end) == (i < count + 1) by {
            if i > 0 {
                assert(rest[i - 1] == records[i]);
            }
        }
        count + 1
    }
}

/// A page is read from the records that share a byte with it, all of them and
/// no other, in their order.
pub proof fn law_page_is_read_from_its_records(
    records: Seq<RecordPlace>,
    start: int,
    end: int,
    record: RecordPlace,
)
    requires
        in_a_row(records),
    ensures
        records_for(records, start, end).contains(record) <==> records.contains(record)
            && record.start < end && start < record.end(),
{
    lemma_records_before(records, start);
    let skipped = records_before(records, start);
    let rest = records.skip(skipped);
    lemma_skip_in_a_row(records, skipped);
    let count = lemma_leading(rest, end);
    let chosen = records_for(records, start, end);
    assert(chosen == rest.take(count));
    if chosen.contains(record) {
        let i = choose|i: int| 0 <= i < chosen.len() && chosen[i] == record;
        assert(rest[i] == record);
        assert(records[i + skipped] == record);
    }
    if records.contains(record) && record.start < end && start < record.end() {
        let i = choose|i: int| 0 <= i < records.len() && records[i] == record;
        assert(i >= skipped);
        assert(rest[i - skipped] == record);
        assert(chosen[i - skipped] == record);
    }
}

// ---------------------------------------------------------------------------
// Searches.

/// A search reads the line of its cursor and, in its direction, as many lines
/// as it may scan, as far as there are any.
pub proof fn law_search_reads_ahead(
    request: HistorySearchRequest,
    total: u64,
    window: SearchWindow,
)
    requires
        valid_request(request),
        window_of(request, total, window),
    ensures
        ({
            let line = window.cursor.line_id as int;
            let (start, end) = requested_window(
                total as int,
                line - 1,
                window.rows_before as int,
                window.rows_after as int,
            );
            let count = request.max_scan_lines as int;
            match request.direction {
                HistorySearchDirection::Forward => start == line - 1 && end == if line - 1 + count
                    <= total {
                    line - 1 + count
                } else {
                    total as int
                },
                HistorySearchDirection::Backward => end == line && start == if line >= count {
                    line - count
                } else {
                    0
                },
            }
        }),
{
    law_window_has_the_lines_asked_for(
        total as int,
        window.cursor.line_id - 1,
        window.rows_before as int,
        window.rows_after as int,
    );
}

/// A search without a cursor begins at the beginning of the first line, or
/// backward at the end of the last one.
pub proof fn law_search_begins_at_an_end(request: HistorySearchRequest, total: u64)
    requires
        request.cursor is None,
    ensures
        ({
            let cursor = search_cursor(request, total);
            match request.direction {
                HistorySearchDirection::Forward => cursor.line_id == 1 && cursor.byte_offset == 0,
                HistorySearchDirection::Backward => cursor.line_id == total && cursor.byte_offset
                    == usize::MAX,
            }
        }),
{
}

/// A search is valid with a query of 1 to 4096 bytes, 1 to 4096 lines to scan
/// and 1 to 4096 matches to find.
pub proof fn law_searches_that_are_valid(request: HistorySearchRequest)
    ensures
        valid_request(request) <==> 1 <= utf8(request.query@).len() <= 4096 && 1
            <= request.max_scan_lines <= 4096 && 1 <= request.max_matches <= 4096,
{
}

/// A carriage return before the end of a line is not shown, and nothing else is
/// left out.
pub proof fn law_carriage_return_is_dropped(line: Seq<u8>)
    ensures
        without_return(line.push(0x0d)) == line,
        without_return(Seq::empty()) == Seq::<u8>::empty(),
        line.len() > 0 && line.last() != 0x0d ==> without_return(line) == line,
{
    assert(line.push(0x0d).drop_last() =~= line);
}

} // verus!
