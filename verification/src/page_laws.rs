//! What a page shows is what the journal's output says, wherever the page
//! begins and whatever of the index is in memory.
use crate::ansi::{run, AnsiModel};
use crate::collector::{collected_spans, collected_text, collected_truncated, decode_run, Collected};
use crate::index_laws::{say_the_same, start_of};
use crate::line_blocks::{cold_between, cold_for, LineLocation, LINE_BLOCK_SIZE};
use crate::line_index::{
    lemma_positions_below, line_ends, open_start, place_views, LineIndexModel, RecordPlace,
};
use crate::log_page::{
    collected_from, fit_bytes, law_planned_lines_are_of_stream, law_rows_show_stream,
    law_styled_rows_show_stream, law_window_shows_anchor, leading_records, line_row, line_rows,
    lines_of_stream, lines_range, missing_blocks, not_loaded, page_window, plan_shows, raw_budget,
    records_before, records_for, requested_window, row_decodes, row_total, rows_within, shown_end,
    slice_of, span_total, stream_line, stream_line_count, style_line, style_lines, window_bytes,
    window_lines, without_line, without_return, PageReadPlan, Styling, StyledRowModel,
    MAX_LOG_PAGE_BYTES, MAX_LOG_PAGE_LINES, MAX_LOG_PAGE_STYLE_SPANS,
};
use vstd::prelude::*;

verus! {

// ---------------------------------------------------------------------------
// The output as lines.

/// What stands between the newlines of a stream.
pub open spec fn split_at_newlines(stream: Seq<u8>) -> Seq<Seq<u8>>
    decreases stream.len(),
{
    if stream.len() == 0 {
        seq![Seq::empty()]
    } else {
        let before = split_at_newlines(stream.drop_last());
        if stream.last() == 0x0a {
            before.push(Seq::empty())
        } else {
            before.drop_last().push(before.last().push(stream.last()))
        }
    }
}

/// The lines of a stream; a newline at the end ends the last one.
pub open spec fn text_lines(stream: Seq<u8>) -> Seq<Seq<u8>> {
    let all = split_at_newlines(stream);
    if all.last().len() == 0 {
        all.drop_last()
    } else {
        all
    }
}

proof fn lemma_split(stream: Seq<u8>)
    requires
        stream.len() <= usize::MAX,
        stream.len() <= u64::MAX,
    ensures
        ({
            let ends = line_ends(stream);
            let all = split_at_newlines(stream);
            &&& all.len() == ends.len() + 1
            &&& all.last() == stream.skip(open_start(stream))
            &&& 0 <= open_start(stream) <= stream.len()
            &&& forall|i: int|
                0 <= i < ends.len() ==> #[trigger] all[i] == stream.subrange(
                    start_of(ends, i),
                    ends[i] as int,
                ) && 0 <= start_of(ends, i) <= ends[i] < stream.len()
        }),
    decreases stream.len(),
{
    let ends = line_ends(stream);
    let all = split_at_newlines(stream);
    if stream.len() == 0 {
        assert(stream.skip(0) =~= Seq::<u8>::empty());
    } else {
        let front = stream.drop_last();
        lemma_split(front);
        let before = split_at_newlines(front);
        let earlier = line_ends(front);
        lemma_positions_below(front, 0x0a);
        let start = open_start(front);
        if stream.last() == 0x0a {
            assert(ends =~= earlier.push((stream.len() - 1) as u64));
            assert(stream.skip(stream.len() as int) =~= Seq::<u8>::empty());
            assert forall|i: int| 0 <= i < ends.len() implies #[trigger] all[i]
                == stream.subrange(start_of(ends, i), ends[i] as int) && 0 <= start_of(ends, i)
                <= ends[i] < stream.len() by {
                if i < earlier.len() {
                    assert(all[i] == before[i]);
                    assert(start_of(ends, i) == start_of(earlier, i));
                    assert(front.subrange(start_of(ends, i), ends[i] as int) =~= stream.subrange(
                        start_of(ends, i),
                        ends[i] as int,
                    ));
                } else {
                    assert(all[i] == before.last());
                    assert(start_of(ends, i) == start);
                    assert(front.skip(start) =~= stream.subrange(start, stream.len() - 1));
                }
            }
        } else {
            assert(ends =~= earlier);
            assert(before.last().push(stream.last()) =~= stream.skip(start));
            assert forall|i: int| 0 <= i < ends.len() implies #[trigger] all[i]
                == stream.subrange(start_of(ends, i), ends[i] as int) && 0 <= start_of(ends, i)
                <= ends[i] < stream.len() by {
                assert(all[i] == before[i]);
                assert(front.subrange(start_of(ends, i), ends[i] as int) =~= stream.subrange(
                    start_of(ends, i),
                    ends[i] as int,
                ));
            }
        }
    }
}

/// The lines of a stream are what stands between its newlines.
pub proof fn law_lines_are_between_newlines(stream: Seq<u8>, line: int)
    requires
        stream.len() <= usize::MAX,
        stream.len() <= u64::MAX,
    ensures
        stream_line_count(stream) == text_lines(stream).len(),
        0 <= line < text_lines(stream).len() ==> ({
            let place = stream_line(stream, line);
            place.start <= place.end <= stream.len() && stream.subrange(
                place.start as int,
                place.end as int,
            ) == text_lines(stream)[line]
        }),
{
    lemma_split(stream);
    let ends = line_ends(stream);
    let all = split_at_newlines(stream);
    assert(all.last().len() == stream.len() - open_start(stream));
    if 0 <= line < text_lines(stream).len() {
        assert(text_lines(stream)[line] == all[line]);
        if line < ends.len() {
            assert(stream_line(stream, line).start == start_of(ends, line));
        } else {
            assert(stream.skip(open_start(stream)) =~= stream.subrange(
                open_start(stream),
                stream.len() as int,
            ));
        }
    }
}

// ---------------------------------------------------------------------------
// Plans.

/// Two indexes find the same lines from `start` to `end`.
pub open spec fn find_the_same(
    one: LineIndexModel,
    one_loaded: Map<int, Seq<u64>>,
    other: LineIndexModel,
    other_loaded: Map<int, Seq<u64>>,
    start: int,
    end: int,
) -> bool {
    forall|line: int|
        start <= line < end ==> #[trigger] one.line_at(line, one_loaded) == other.line_at(
            line,
            other_loaded,
        )
}

proof fn lemma_same_windows(
    one: LineIndexModel,
    one_loaded: Map<int, Seq<u64>>,
    other: LineIndexModel,
    other_loaded: Map<int, Seq<u64>>,
    start: int,
    end: int,
)
    requires
        find_the_same(one, one_loaded, other, other_loaded, start, end),
    ensures
        window_bytes(one, one_loaded, start, end) == window_bytes(other, other_loaded, start, end),
        window_lines(one, one_loaded, start, end) == window_lines(other, other_loaded, start, end),
    decreases end - start,
{
    if start < end {
        lemma_same_windows(one, one_loaded, other, other_loaded, start, end - 1);
        assert(one.line_at(end - 1, one_loaded) == other.line_at(end - 1, other_loaded));
    }
}

proof fn lemma_same_fit(
    one: LineIndexModel,
    one_loaded: Map<int, Seq<u64>>,
    other: LineIndexModel,
    other_loaded: Map<int, Seq<u64>>,
    anchor: int,
    start: int,
    end: int,
    total: int,
)
    requires
        find_the_same(one, one_loaded, other, other_loaded, start, end),
        start <= anchor < end,
    ensures
        fit_bytes(one, one_loaded, anchor, start, end, total) == fit_bytes(
            other,
            other_loaded,
            anchor,
            start,
            end,
            total,
        ),
        ({
            let (from, to) = fit_bytes(one, one_loaded, anchor, start, end, total);
            start <= from <= anchor < to <= end
        }),
    decreases end - start,
{
    if total > MAX_LOG_PAGE_BYTES && end - start > 1 {
        assert(one.line_at(start, one_loaded) == other.line_at(start, other_loaded));
        assert(one.line_at(end - 1, one_loaded) == other.line_at(end - 1, other_loaded));
        if anchor - start >= end - anchor - 1 {
            lemma_same_fit(
                one,
                one_loaded,
                other,
                other_loaded,
                anchor,
                start + 1,
                end,
                without_line(one, one_loaded, total, start),
            );
        } else {
            lemma_same_fit(
                one,
                one_loaded,
                other,
                other_loaded,
                anchor,
                start,
                end - 1,
                without_line(one, one_loaded, total, end - 1),
            );
        }
    }
}

proof fn lemma_cold_is_named(
    lines: crate::line_blocks::IndexModel,
    from: int,
    to: int,
    at: int,
    loaded: Map<int, Seq<u64>>,
)
    requires
        0 <= from <= at < to,
        at < lines.blocks.len() <= usize::MAX,
        lines.blocks[at].ends is Cold,
        not_loaded(cold_between(lines.blocks, from, to), loaded).len() == 0,
    ensures
        loaded.contains_key(at),
    decreases to - from,
{
    let all = cold_between(lines.blocks, from, to);
    let before = cold_between(lines.blocks, from, to - 1);
    if at == to - 1 {
        assert(all.last().0 == at);
    } else {
        if to - 1 < lines.blocks.len() && lines.blocks[to - 1].ends is Cold {
            assert(all.drop_last() =~= before);
        }
        lemma_cold_is_named(lines, from, to - 1, at, loaded);
    }
}

/// The stored blocks that a page asks for are all that its lines need.
proof fn lemma_loaded_blocks_suffice(
    index: LineIndexModel,
    part: Map<int, Seq<u64>>,
    full: Map<int, Seq<u64>>,
    start: int,
    end: int,
)
    requires
        index.wf(),
        index.lines.stored,
        part.submap_of(full),
        0 <= start < end,
        not_loaded(cold_for(index.lines, start, end), part).len() == 0,
    ensures
        find_the_same(index, part, index, full, start, end),
{
    let size = LINE_BLOCK_SIZE as int;
    crate::line_blocks::lemma_blocks_fit(index.lines);
    let first = if start > 0 {
        start - 1
    } else {
        0
    };
    assert forall|line: int| first <= line < end implies #[trigger] index.lines.end_of(line, part)
        == index.lines.end_of(line, full) by {
        let at = line / size;
        if at < index.lines.blocks.len() && index.lines.blocks[at].ends is Cold {
            assert(first / size <= at <= (end - 1) / size);
            lemma_cold_is_named(
                index.lines,
                first / size,
                (end - 1) / size + 1,
                at,
                part,
            );
            assert(part.dom().contains(at) && full.dom().contains(at) && part[at] == full[at]);
        }
    }
    assert forall|line: int| start <= line < end implies #[trigger] index.line_at(line, part)
        == index.line_at(line, full) by {
        assert(index.lines.end_of(line, part) == index.lines.end_of(line, full));
        if line > 0 {
            assert(index.lines.end_of(line - 1, part) == index.lines.end_of(line - 1, full));
        }
    }
}

/// A page was planned from an index that describes the stream, all stored
/// blocks that it needs having been read back.
pub open spec fn planned(
    plan: PageReadPlan,
    index: LineIndexModel,
    part: Map<int, Seq<u64>>,
    full: Map<int, Seq<u64>>,
    stream: Seq<u8>,
    anchor: int,
    rows_before: int,
    rows_after: int,
) -> bool {
    &&& index.wf()
    &&& index.lines.stored
    &&& index.describes(full, stream)
    &&& part.submap_of(full)
    &&& 0 <= anchor < index.line_count()
    &&& rows_before >= 0
    &&& rows_after >= 0
    &&& missing_blocks(index, part, anchor, rows_before, rows_after).len() == 0
    &&& plan_shows(plan, index, part, anchor, rows_before, rows_after)
}


pub(crate) proof fn lemma_planned(
    plan: PageReadPlan,
    index: LineIndexModel,
    part: Map<int, Seq<u64>>,
    full: Map<int, Seq<u64>>,
    stream: Seq<u8>,
    anchor: int,
    rows_before: int,
    rows_after: int,
)
    requires
        planned(plan, index, part, full, stream, anchor, rows_before, rows_after),
    ensures
        ({
            let (start, end) = page_window(index, full, anchor, rows_before, rows_after);
            &&& page_window(index, part, anchor, rows_before, rows_after) == (start, end)
            &&& 0 <= start <= anchor < end <= stream_line_count(stream)
            &&& end - start <= MAX_LOG_PAGE_LINES
            &&& index.line_count() == stream_line_count(stream)
            &&& plan.lines@ == window_lines(index, full, start, end)
            &&& plan.lines@.len() == end - start
            &&& lines_of_stream(plan.lines@, stream)
            &&& forall|i: int|
                0 <= i < end - start ==> #[trigger] plan.lines@[i] == (
                    (start + i + 1) as u64,
                    stream_line(stream, start + i),
                )
        }),
{
    let (from, to) = requested_window(index.line_count(), anchor, rows_before, rows_after);
    law_window_shows_anchor(index.line_count(), anchor, rows_before, rows_after);
    lemma_loaded_blocks_suffice(index, part, full, from, to);
    lemma_same_windows(index, part, index, full, from, to);
    lemma_same_fit(
        index,
        part,
        index,
        full,
        anchor,
        from,
        to,
        window_bytes(index, part, from, to),
    );
    let (start, end) = page_window(index, full, anchor, rows_before, rows_after);
    assert(find_the_same(index, part, index, full, start, end));
    lemma_same_windows(index, part, index, full, start, end);
    crate::line_blocks::lemma_holds_len(index.lines, full, line_ends(stream));
    law_planned_lines_are_of_stream(index, full, stream, start, end);
}

/// Indexes that say the same of a journal give the same pages.
pub proof fn law_same_pages(
    one: LineIndexModel,
    one_part: Map<int, Seq<u64>>,
    one_loaded: Map<int, Seq<u64>>,
    one_plan: PageReadPlan,
    other: LineIndexModel,
    other_part: Map<int, Seq<u64>>,
    other_loaded: Map<int, Seq<u64>>,
    other_plan: PageReadPlan,
    stream: Seq<u8>,
    anchor: int,
    rows_before: int,
    rows_after: int,
)
    requires
        say_the_same(one, one_loaded, other, other_loaded),
        planned(one_plan, one, one_part, one_loaded, stream, anchor, rows_before, rows_after),
        planned(
            other_plan,
            other,
            other_part,
            other_loaded,
            stream,
            anchor,
            rows_before,
            rows_after,
        ),
    ensures
        one_plan.lines@ == other_plan.lines@,
        place_views(one_plan.records@) == place_views(other_plan.records@),
        one_plan.revision == other_plan.revision,
        one_plan.anchor_line_id == other_plan.anchor_line_id,
        one_plan.total_line_count == other_plan.total_line_count,
        one_plan.has_before == other_plan.has_before,
        one_plan.has_after == other_plan.has_after,
        one_plan.raw_bounds() == other_plan.raw_bounds(),
        one_plan.styled_bounds() == other_plan.styled_bounds(),
        one_plan.styling() == other_plan.styling(),
{
    lemma_planned(one_plan, one, one_part, one_loaded, stream, anchor, rows_before, rows_after);
    lemma_planned(
        other_plan,
        other,
        other_part,
        other_loaded,
        stream,
        anchor,
        rows_before,
        rows_after,
    );
    let (from, to) = requested_window(one.line_count(), anchor, rows_before, rows_after);
    law_window_shows_anchor(one.line_count(), anchor, rows_before, rows_after);
    assert(find_the_same(one, one_loaded, other, other_loaded, from, to));
    lemma_same_windows(one, one_loaded, other, other_loaded, from, to);
    lemma_same_fit(
        one,
        one_loaded,
        other,
        other_loaded,
        anchor,
        from,
        to,
        window_bytes(one, one_loaded, from, to),
    );
    assert(one_plan.lines@ =~= other_plan.lines@);
    let ones = place_views(one_plan.records@);
    let others = place_views(other_plan.records@);
    assert(ones.len() == one_plan.records@.len() && others.len() == other_plan.records@.len());
    if ones.len() > 0 {
        assert(ones[0] == one_plan.records@[0]@);
        assert(others[0] == other_plan.records@[0]@);
    }
}

proof fn lemma_row_total(lines: Seq<(u64, LineLocation)>, raw: Seq<u8>, base: int)
    requires
        rows_within(lines, raw, base),
    ensures
        row_total(line_rows(lines, raw, base).0) + line_rows(lines, raw, base).1
            == MAX_LOG_PAGE_BYTES,
        0 <= line_rows(lines, raw, base).1,
    decreases lines.len(),
{
    if lines.len() > 0 {
        let front = lines.drop_last();
        lemma_row_total(front, raw, base);
        let (rows, budget) = line_rows(front, raw, base);
        let row = line_row(lines.last(), raw, base, budget);
        assert(rows.push(row).drop_last() =~= rows);
        assert(row.bytes.len() <= budget);
    }
}

/// A page shows lines of the whole output, as its records' payloads joined give
/// it: they follow one another and hold the anchor; a row that is not cut off
/// is its line without the line break, and one that is cut off is the beginning
/// of it. The page stays within its bounds and says whether there is more. How
/// the output was cut into records and segments does not show.
pub proof fn law_page_shows_the_lines(
    plan: PageReadPlan,
    index: LineIndexModel,
    part: Map<int, Seq<u64>>,
    full: Map<int, Seq<u64>>,
    stream: Seq<u8>,
    anchor: int,
    rows_before: int,
    rows_after: int,
)
    requires
        planned(plan, index, part, full, stream, anchor, rows_before, rows_after),
    ensures
        ({
            let bounds = plan.raw_bounds();
            let raw = stream.subrange(bounds.0, bounds.1);
            let rows = line_rows(plan.lines@, raw, bounds.0).0;
            let lines = text_lines(stream);
            let first = rows[0].line_id as int;
            &&& 0 <= bounds.0 <= bounds.1 <= stream.len()
            &&& rows_within(plan.lines@, raw, bounds.0)
            &&& plan.total_line_count == lines.len()
            &&& 0 < rows.len() <= MAX_LOG_PAGE_LINES
            &&& row_total(rows) <= MAX_LOG_PAGE_BYTES
            &&& plan.anchor_line_id == anchor + 1
            &&& 1 <= first <= anchor + 1 < first + rows.len() <= lines.len() + 1
            &&& plan.has_before == (first > 1)
            &&& plan.has_after == (first + rows.len() - 1 < lines.len())
            &&& forall|k: int|
                0 <= k < rows.len() ==> {
                    let row = #[trigger] rows[k];
                    let line = lines[first - 1 + k];
                    &&& row.line_id == first + k
                    &&& row.truncated ==> row.bytes.is_prefix_of(line)
                    &&& !row.truncated ==> row.bytes == without_return(line)
                }
        }),
{
    lemma_planned(plan, index, part, full, stream, anchor, rows_before, rows_after);
    let (start, end) = page_window(index, full, anchor, rows_before, rows_after);
    let bounds = plan.raw_bounds();
    let raw = stream.subrange(bounds.0, bounds.1);
    let rows = line_rows(plan.lines@, raw, bounds.0).0;
    let lines = text_lines(stream);
    let n = plan.lines@.len();
    assert(plan.lines@[n - 1].1.start <= plan.lines@[n - 1].1.end <= stream.len());
    assert(plan.lines@[0].1.start <= plan.lines@[0].1.end);
    if n > 1 {
        assert(plan.lines@[0].1.end < plan.lines@[n - 1].1.start);
    }
    law_rows_show_stream(plan.lines@, stream, bounds.0, bounds.1, 0);
    law_lines_are_between_newlines(stream, 0);
    lemma_row_total(plan.lines@, raw, bounds.0);
    assert(plan.lines@[0].0 == start + 1);
    assert forall|k: int| 0 <= k < rows.len() implies {
        let row = #[trigger] rows[k];
        let line = lines[start + k];
        &&& row.line_id == start + 1 + k
        &&& row.truncated ==> row.bytes.is_prefix_of(line)
        &&& !row.truncated ==> row.bytes == without_return(line)
    } by {
        law_rows_show_stream(plan.lines@, stream, bounds.0, bounds.1, k);
        law_lines_are_between_newlines(stream, start + k);
        assert(plan.lines@[k] == ((start + k + 1) as u64, stream_line(stream, start + k)));
    }
}

// ---------------------------------------------------------------------------
// Styles.

pub(crate) proof fn lemma_records_before(records: Seq<RecordPlace>, start: int)
    ensures
        ({
            let count = records_before(records, start);
            &&& 0 <= count <= records.len()
            &&& count < records.len() ==> records[count].end() > start
            &&& count > 0 ==> records[count - 1].end() <= start
        }),
    decreases records.len(),
{
    if records.len() > 0 && records[0].end() <= start {
        let rest = records.skip(1);
        lemma_records_before(rest, start);
        let count = records_before(rest, start);
        if count < rest.len() {
            assert(rest[count] == records[count + 1]);
        }
        if count > 0 {
            assert(rest[count - 1] == records[count]);
        }
    }
}

/// Decoding begins in the state that the stream before leaves, or there is
/// nothing to decode.
proof fn lemma_checkpoint(
    plan: PageReadPlan,
    index: LineIndexModel,
    full: Map<int, Seq<u64>>,
    stream: Seq<u8>,
)
    requires
        index.wf(),
        index.describes(full, stream),
        plan.lines@.len() > 0,
        lines_of_stream(plan.lines@, stream),
        place_views(plan.records@) == records_for(
            index.records,
            lines_range(plan.lines@).0,
            lines_range(plan.lines@).1,
        ),
    ensures
        plan.lines@[0].1.start < plan.lines@.last().1.end ==> plan.checkpoint().1 == run(
            AnsiModel::initial(),
            stream.take(plan.checkpoint().0),
        ) && 0 <= plan.checkpoint().0 <= plan.lines@[0].1.start,
{
    let lines = plan.lines@;
    let start = lines[0].1.start as int;
    let end = lines.last().1.end as int;
    assert(lines[lines.len() - 1].1.end <= stream.len());
    if start < end {
        lemma_records_before(index.records, start);
        let count = records_before(index.records, start);
        if count == index.records.len() {
            if count > 0 {
                assert(index.records.last() == index.records[count - 1]);
            }
            assert(false);
        }
        let record = index.records[count];
        if count > 0 {
            assert(index.records[count - 1].end() == index.records[count].start);
        }
        let rest = index.records.skip(count);
        assert(rest[0] == record);
        let views = place_views(plan.records@);
        assert(views == seq![record] + leading_records(rest.skip(1), end));
        assert(views[0] == record);
        assert(views.len() == plan.records@.len());
        assert(plan.records@[0]@ == record);
    }
}

/// What is collected within bounds that are wide enough does not depend on
/// them.
proof fn lemma_bounds_do_not_matter(ansi: AnsiModel, input: Seq<u8>, one: int, other: int)
    requires
        0 <= one <= usize::MAX,
        0 <= other <= usize::MAX,
        !collected_from(ansi, input, one).discarded,
        !collected_from(ansi, input, other).discarded,
    ensures
        collected_from(ansi, input, other) == (Collected {
            maximum: other,
            ..collected_from(ansi, input, one)
        }),
        decode_run((ansi, Collected::empty(one as usize)), input).0 == decode_run(
            (ansi, Collected::empty(other as usize)),
            input,
        ).0,
    decreases input.len(),
{
    if input.len() > 0 {
        lemma_discarded_stays(ansi, input, one);
        lemma_discarded_stays(ansi, input, other);
        lemma_bounds_do_not_matter(ansi, input.drop_last(), one, other);
        assert(collected_from(ansi, input, other) =~= (Collected {
            maximum: other,
            ..collected_from(ansi, input, one)
        }));
    }
}

proof fn lemma_discarded_stays(ansi: AnsiModel, input: Seq<u8>, maximum: int)
    requires
        input.len() > 0,
    ensures
        collected_from(ansi, input.drop_last(), maximum).discarded ==> collected_from(
            ansi,
            input,
            maximum,
        ).discarded,
{
}

proof fn lemma_same_collection(ansi: AnsiModel, input: Seq<u8>, one: int, other: int)
    requires
        0 <= one <= usize::MAX,
        0 <= other <= usize::MAX,
        !collected_truncated(collected_from(ansi, input, one)),
        !collected_truncated(collected_from(ansi, input, other)),
    ensures
        collected_text(collected_from(ansi, input, one)) == collected_text(
            collected_from(ansi, input, other),
        ),
        collected_spans(collected_from(ansi, input, one)) == collected_spans(
            collected_from(ansi, input, other),
        ),
{
    lemma_bounds_do_not_matter(ansi, input, one, other);
}

/// As long as spans are left, none was cut off.
proof fn lemma_spans_are_whole(
    from: Styling,
    lines: Seq<(u64, LineLocation)>,
    raw: Seq<u8>,
    base: int,
    row: int,
)
    requires
        from.spans_left >= 0,
        from.rows.len() == 0,
        0 <= row < lines.len(),
        span_total(style_lines(from, lines, raw, base).rows) < from.spans_left,
    ensures
        ({
            let at = style_lines(from, lines.take(row), raw, base);
            let after = style_lines(from, lines.take(row + 1), raw, base);
            &&& after.rows.len() == row + 1
            &&& after.rows.last() == style_lines(from, lines, raw, base).rows[row]
            &&& after.rows.last().spans.len() < at.spans_left
        }),
    decreases lines.len(),
{
    let front = lines.drop_last();
    lemma_span_total(from, lines, raw, base);
    lemma_span_total(from, front, raw, base);
    reveal(style_line);
    let before = style_lines(from, front, raw, base);
    let all = style_lines(from, lines, raw, base);
    assert(all.rows.drop_last() =~= before.rows);
    assert(span_total(all.rows) == span_total(before.rows) + all.rows.last().spans.len());
    if row == lines.len() - 1 {
        assert(lines.take(row) =~= front);
        assert(lines.take(row + 1) =~= lines);
    } else {
        lemma_spans_are_whole(from, front, raw, base, row);
        assert(front.take(row) =~= lines.take(row));
        assert(front.take(row + 1) =~= lines.take(row + 1));
        assert(all.rows[row] == before.rows[row]);
    }
}

proof fn lemma_span_total(
    from: Styling,
    lines: Seq<(u64, LineLocation)>,
    raw: Seq<u8>,
    base: int,
)
    requires
        from.spans_left >= 0,
        from.rows.len() == 0,
    ensures
        ({
            let at = style_lines(from, lines, raw, base);
            &&& at.rows.len() == lines.len()
            &&& at.spans_left >= 0
            &&& span_total(at.rows) + at.spans_left == from.spans_left
        }),
    decreases lines.len(),
{
    if lines.len() > 0 {
        reveal(style_line);
        lemma_span_total(from, lines.drop_last(), raw, base);
        let before = style_lines(from, lines.drop_last(), raw, base);
        let all = style_lines(from, lines, raw, base);
        assert(all.rows.drop_last() =~= before.rows);
    }
}

/// The text and the spans of a line, decoded from the state that the stream
/// before it leaves.
pub open spec fn line_collected(stream: Seq<u8>, line: LineLocation, maximum: int) -> Collected {
    collected_from(
        run(AnsiModel::initial(), stream.take(line.start as int)),
        stream.subrange(line.start as int, line.end as int),
        maximum,
    )
}

/// The row shows all of a line, for which `maximum` bytes are enough.
pub open spec fn shows_whole(
    row: StyledRowModel,
    line_id: u64,
    line: LineLocation,
    stream: Seq<u8>,
    maximum: int,
) -> bool {
    let collected = line_collected(stream, line, maximum);
    &&& 0 <= maximum <= MAX_LOG_PAGE_BYTES
    &&& !collected_truncated(collected)
    &&& row.line_id == line_id
    &&& row.text == collected_text(collected)
    &&& row.spans == collected_spans(collected).spans
    &&& !row.truncated
}

/// The styled rows of a page, out of the bytes of the stream that it reads.
pub open spec fn styled_rows(plan: PageReadPlan, stream: Seq<u8>) -> Seq<StyledRowModel> {
    let bounds = plan.styled_bounds();
    style_lines(
        plan.styling(),
        plan.lines@,
        stream.subrange(bounds.0, bounds.1),
        bounds.0,
    ).rows
}

proof fn lemma_text_left(
    from: Styling,
    lines: Seq<(u64, LineLocation)>,
    raw: Seq<u8>,
    base: int,
)
    requires
        0 <= from.text_left <= MAX_LOG_PAGE_BYTES,
    ensures
        0 <= style_lines(from, lines, raw, base).text_left <= MAX_LOG_PAGE_BYTES,
    decreases lines.len(),
{
    if lines.len() > 0 {
        reveal(style_line);
        lemma_text_left(from, lines.drop_last(), raw, base);
    }
}

/// A row that is decoded from the state that the stream before leaves.
proof fn lemma_decoded_row(plan: PageReadPlan, stream: Seq<u8>, row: int)
    requires
        stream.len() <= u64::MAX,
        0 <= row < plan.lines@.len(),
        lines_of_stream(plan.lines@, stream),
        plan.lines@[0].1.start < plan.lines@.last().1.end,
        plan.checkpoint().1 == run(AnsiModel::initial(), stream.take(plan.checkpoint().0)),
        0 <= plan.checkpoint().0 <= plan.lines@[0].1.start,
        !styled_rows(plan, stream)[row].truncated,
        span_total(styled_rows(plan, stream)) < MAX_LOG_PAGE_STYLE_SPANS,
    ensures
        exists|maximum: int| #[trigger]
            shows_whole(
                styled_rows(plan, stream)[row],
                plan.lines@[row].0,
                plan.lines@[row].1,
                stream,
                maximum,
            ),
{
    let lines = plan.lines@;
    let from = plan.styling();
    let bounds = plan.styled_bounds();
    let raw = stream.subrange(bounds.0, bounds.1);
    let at = style_lines(from, lines.take(row), raw, bounds.0);
    let shown = styled_rows(plan, stream)[row];
    let n = lines.len() as int;
    lemma_spans_are_whole(from, lines, raw, bounds.0, row);
    lemma_text_left(from, lines.take(row), raw, bounds.0);
    assert(lines[0].1.start <= lines[0].1.end <= stream.len());
    assert(lines[n - 1].1.start <= lines[n - 1].1.end <= stream.len());
    if n > 1 {
        assert(lines[0].1.end < lines[n - 1].1.start);
    }
    lemma_budget(lines.drop_last());
    law_styled_rows_show_stream(from, lines, stream, bounds.1);
    let rows = style_lines(from, lines, raw, from.cursor).rows;
    let end = shown_end(lines[row].1, raw_budget(lines.take(row)));
    assert(row_decodes(rows[row], lines[row], stream, end, at.text_left, at.spans_left));
    lemma_budget(lines.take(row));
    assert(lines[row].1.start <= lines[row].1.end <= stream.len());
    assert(shown.spans.len() < at.spans_left);
    lemma_untruncated_row(shown, lines[row], stream, end, at.text_left, at.spans_left);
}

proof fn lemma_untruncated_row(
    row: StyledRowModel,
    line: (u64, LineLocation),
    stream: Seq<u8>,
    end: int,
    maximum: int,
    room: int,
)
    requires
        row_decodes(row, line, stream, end, maximum, room),
        !row.truncated,
        row.spans.len() < room,
        line.1.start <= end <= line.1.end,
        0 <= maximum <= MAX_LOG_PAGE_BYTES,
    ensures
        shows_whole(row, line.0, line.1, stream, maximum),
{
    reveal(row_decodes);
}

/// The row of a page that shows a single empty line: nothing is decoded.
proof fn lemma_empty_row(plan: PageReadPlan, stream: Seq<u8>)
    requires
        plan.lines@.len() == 1,
        plan.lines@[0].1.start == plan.lines@[0].1.end <= stream.len(),
        !styled_rows(plan, stream)[0].truncated,
    ensures
        exists|maximum: int| #[trigger]
            shows_whole(
                styled_rows(plan, stream)[0],
                plan.lines@[0].0,
                plan.lines@[0].1,
                stream,
                maximum,
            ),
{
    let lines = plan.lines@;
    let from = plan.styling();
    let bounds = plan.styled_bounds();
    let raw = stream.subrange(bounds.0, bounds.1);
    let line = lines[0].1;
    let shown = styled_rows(plan, stream)[0];
    reveal(style_line);
    assert(lines.drop_last() =~= Seq::empty());
    assert(style_lines(from, lines.drop_last(), raw, bounds.0) == from);
    assert(raw_budget(lines.drop_last()) == MAX_LOG_PAGE_BYTES);
    assert(shown_end(line, MAX_LOG_PAGE_BYTES as int) == line.start);
    assert(stream.subrange(line.start as int, line.end as int) =~= Seq::<u8>::empty());
    let collected = line_collected(stream, line, MAX_LOG_PAGE_BYTES as int);
    assert(collected == Collected::empty(MAX_LOG_PAGE_BYTES));
    lemma_nothing_collected(MAX_LOG_PAGE_BYTES);
    let ansi = run(from.ansi, slice_of(raw, bounds.0, from.cursor, line.start as int));
    let input = slice_of(raw, bounds.0, line.start as int, line.start as int);
    assert(input =~= Seq::<u8>::empty());
    assert(collected_from(ansi, input, from.text_left) == Collected::empty(MAX_LOG_PAGE_BYTES));
    assert(shown.spans =~= collected_spans(collected).spans);
    assert(shows_whole(shown, lines[0].0, line, stream, MAX_LOG_PAGE_BYTES as int));
}

/// A row that is not cut off, on a page with spans to spare, shows its line as
/// the whole stream before it has it look.
proof fn lemma_whole_row(
    plan: PageReadPlan,
    index: LineIndexModel,
    part: Map<int, Seq<u64>>,
    full: Map<int, Seq<u64>>,
    stream: Seq<u8>,
    anchor: int,
    rows_before: int,
    rows_after: int,
    row: int,
)
    requires
        planned(plan, index, part, full, stream, anchor, rows_before, rows_after),
        0 <= row < plan.lines@.len(),
        !styled_rows(plan, stream)[row].truncated,
        span_total(styled_rows(plan, stream)) < MAX_LOG_PAGE_STYLE_SPANS,
    ensures
        exists|maximum: int| #[trigger]
            shows_whole(
                styled_rows(plan, stream)[row],
                plan.lines@[row].0,
                stream_line(stream, plan.lines@[row].0 - 1),
                stream,
                maximum,
            ),
{
    lemma_planned(plan, index, part, full, stream, anchor, rows_before, rows_after);
    let lines = plan.lines@;
    let n = lines.len() as int;
    let (start, end) = page_window(index, full, anchor, rows_before, rows_after);
    assert(lines[row] == ((start + row + 1) as u64, stream_line(stream, start + row)));
    assert(stream_line_count(stream) <= usize::MAX);
    assert(lines[row].1 == stream_line(stream, lines[row].0 - 1));
    lemma_checkpoint(plan, index, full, stream);
    if lines[0].1.start < lines.last().1.end {
        lemma_decoded_row(plan, stream, row);
    } else {
        assert(lines[0].1.start <= lines[0].1.end <= stream.len());
        assert(lines[n - 1].1.start <= lines[n - 1].1.end);
        if n > 1 {
            assert(lines[0].1.end < lines[n - 1].1.start);
        }
        lemma_empty_row(plan, stream);
    }
}

proof fn lemma_budget(lines: Seq<(u64, LineLocation)>)
    ensures
        0 <= raw_budget(lines) <= MAX_LOG_PAGE_BYTES,
    decreases lines.len(),
{
    if lines.len() > 0 {
        lemma_budget(lines.drop_last());
    }
}

proof fn lemma_nothing_collected(maximum: usize)
    ensures
        !collected_truncated(Collected::empty(maximum)),
        collected_spans(Collected::empty(maximum)).spans.len() == 0,
{
}

/// A line looks the same on every page that shows it whole: its text and its
/// styles do not depend on where the page begins, for escape sequences and
/// styles from earlier lines, records and segments are carried into it.
pub proof fn law_line_looks_the_same_on_every_page(
    index: LineIndexModel,
    full: Map<int, Seq<u64>>,
    stream: Seq<u8>,
    one: PageReadPlan,
    one_part: Map<int, Seq<u64>>,
    one_anchor: int,
    one_before: int,
    one_after: int,
    one_row: int,
    other: PageReadPlan,
    other_part: Map<int, Seq<u64>>,
    other_anchor: int,
    other_before: int,
    other_after: int,
    other_row: int,
)
    requires
        planned(one, index, one_part, full, stream, one_anchor, one_before, one_after),
        planned(other, index, other_part, full, stream, other_anchor, other_before, other_after),
        0 <= one_row < one.lines@.len(),
        0 <= other_row < other.lines@.len(),
        one.lines@[one_row].0 == other.lines@[other_row].0,
        !styled_rows(one, stream)[one_row].truncated,
        !styled_rows(other, stream)[other_row].truncated,
        span_total(styled_rows(one, stream)) < MAX_LOG_PAGE_STYLE_SPANS,
        span_total(styled_rows(other, stream)) < MAX_LOG_PAGE_STYLE_SPANS,
    ensures
        styled_rows(one, stream)[one_row] == styled_rows(other, stream)[other_row],
{
    lemma_whole_row(
        one,
        index,
        one_part,
        full,
        stream,
        one_anchor,
        one_before,
        one_after,
        one_row,
    );
    lemma_whole_row(
        other,
        index,
        other_part,
        full,
        stream,
        other_anchor,
        other_before,
        other_after,
        other_row,
    );
    let first = styled_rows(one, stream)[one_row];
    let second = styled_rows(other, stream)[other_row];
    let line_id = one.lines@[one_row].0;
    let line = stream_line(stream, line_id - 1);
    let m1 = choose|maximum: int| #[trigger] shows_whole(first, line_id, line, stream, maximum);
    let m2 = choose|maximum: int| #[trigger] shows_whole(second, line_id, line, stream, maximum);
    lemma_same_collection(
        run(AnsiModel::initial(), stream.take(line.start as int)),
        stream.subrange(line.start as int, line.end as int),
        m1,
        m2,
    );
    assert(first =~= second);
}

} // verus!
