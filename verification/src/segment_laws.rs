//! The output that an index describes is what the segments' files hold, so a
//! page that is read out of them shows it.
use crate::index_laws::{all_records, indexes};
use crate::journal::{
    fits, journal_bytes, law_append_appends, lemma_header_len, record_bytes, RecordModel,
};
use crate::line_index::{
    lemma_stream_len, payload_stream, place_views, records_in_order, records_size, LineIndexModel,
    RecordPlace,
};
use crate::log_page::{
    cover, law_pieces_give_stream, leading_records, lines_of_stream, lines_range, pieces_bytes,
    pieces_for, raw_budget, records_before, records_for, segments_hold, PageReadPlan,
};
use crate::page_laws::{lemma_planned, lemma_records_before, planned};
use crate::segmented::{index_of, size_of_all, stream_of};
use crate::writer::lemma_journal_size;
use vstd::prelude::*;

verus! {

/// The file holds the records at its beginning; a record that was not written
/// to its end may follow.
pub open spec fn file_holds(
    files: Map<u32, Seq<u8>>,
    segment_id: int,
    records: Seq<RecordModel>,
) -> bool {
    files.contains_key(segment_id as u32) && journal_bytes(records).is_prefix_of(
        files[segment_id as u32],
    )
}

pub open spec fn files_hold(
    files: Map<u32, Seq<u8>>,
    segments: Seq<Seq<RecordModel>>,
) -> bool {
    forall|i: int| 0 <= i < segments.len() ==> file_holds(files, i, #[trigger] segments[i])
}

/// The bytes of the record stand in the file as they do in the stream.
spec fn stands(place: RecordPlace, file: Seq<u8>, stream: Seq<u8>) -> bool {
    &&& place.start + place.len <= stream.len()
    &&& place.offset + place.len <= file.len()
    &&& file.subrange(place.offset as int, place.offset + place.len) == stream.subrange(
        place.start as int,
        place.start + place.len,
    )
}

proof fn lemma_still_stands(
    place: RecordPlace,
    file: Seq<u8>,
    stream: Seq<u8>,
    longer_file: Seq<u8>,
    longer_stream: Seq<u8>,
)
    requires
        stands(place, file, stream),
        file.is_prefix_of(longer_file),
        stream.is_prefix_of(longer_stream),
    ensures
        stands(place, longer_file, longer_stream),
{
    let from = place.offset as int;
    let start = place.start as int;
    let length = place.len as int;
    assert(longer_file.subrange(from, from + length) =~= file.subrange(from, from + length)) by {
        assert forall|i: int| 0 <= i < file.len() implies file[i] == longer_file[i] by {
            assert(longer_file.subrange(0, file.len() as int)[i] == longer_file[i]);
        }
    }
    assert(longer_stream.subrange(start, start + length) =~= stream.subrange(
        start,
        start + length,
    )) by {
        assert forall|i: int| 0 <= i < stream.len() implies stream[i] == longer_stream[i] by {
            assert(longer_stream.subrange(0, stream.len() as int)[i] == longer_stream[i]);
        }
    }
}

/// The records of a segment stand in its file.
proof fn lemma_segment_stands(
    before: LineIndexModel,
    id: u32,
    records: Seq<RecordModel>,
    stream: Seq<u8>,
)
    requires
        before.logical_bytes == stream.len(),
        stream.len() + records_size(records) <= u64::MAX,
        forall|i: int| 0 <= i < records.len() ==> fits(#[trigger] records[i]),
    ensures
        ({
            let after = before.with_records(id, records);
            let all = stream + payload_stream(records);
            &&& after.logical_bytes == all.len()
            &&& after.records.len() == before.records.len() + records.len()
            &&& forall|i: int|
                0 <= i < before.records.len() ==> #[trigger] after.records[i] == before.records[i]
            &&& forall|i: int|
                before.records.len() <= i < after.records.len() ==> (
                #[trigger] after.records[i]).segment_id == id && stands(
                    after.records[i],
                    journal_bytes(records),
                    all,
                )
        }),
    decreases records.len(),
{
    if records.len() == 0 {
        assert(stream + payload_stream(records) =~= stream);
    } else {
        let front = records.drop_last();
        let record = records.last();
        assert forall|i: int| 0 <= i < front.len() implies fits(#[trigger] front[i]) by {
            assert(fits(records[i]));
        }
        lemma_segment_stands(before, id, front, stream);
        lemma_stream_len(front);
        lemma_stream_len(records);
        lemma_journal_size(front);
        lemma_journal_size(records);
        law_append_appends(front, record);
        lemma_header_len(record);
        assert(front.push(record) =~= records);
        let middle = before.with_records(id, front);
        let after = before.with_records(id, records);
        let some = stream + payload_stream(front);
        let all = stream + payload_stream(records);
        assert(all =~= some + record.payload);
        assert(some =~= all.subrange(0, some.len() as int));
        let file = journal_bytes(front);
        let whole = journal_bytes(records);
        assert(whole == file + record_bytes(record));
        assert(file =~= whole.subrange(0, file.len() as int));
        let last = middle.records.len() as int;
        let place = after.records[last];
        assert(whole.subrange(place.offset as int, place.offset + place.len) =~= record.payload);
        assert(all.subrange(place.start as int, place.start + place.len) =~= record.payload);
        assert forall|i: int| before.records.len() <= i < after.records.len() implies (
        #[trigger] after.records[i]).segment_id == id && stands(after.records[i], whole, all) by {
            if i < last {
                assert(after.records[i] == middle.records[i]);
                lemma_still_stands(middle.records[i], file, some, whole, all);
            }
        }
        assert forall|i: int| 0 <= i < before.records.len() implies #[trigger] after.records[i]
            == before.records[i] by {
            assert(after.records[i] == middle.records[i]);
        }
    }
}

proof fn lemma_segments_stand(segments: Seq<Seq<RecordModel>>, files: Map<u32, Seq<u8>>)
    requires
        segments.len() <= u32::MAX,
        size_of_all(segments) <= u64::MAX,
        files_hold(files, segments),
        forall|i: int| 0 <= i < all_records(segments).len() ==> fits(
            #[trigger] all_records(segments)[i],
        ),
    ensures
        index_of(segments).logical_bytes == stream_of(segments).len(),
        forall|i: int|
            0 <= i < index_of(segments).records.len() ==> {
                let place = #[trigger] index_of(segments).records[i];
                &&& files.contains_key(place.segment_id)
                &&& stands(place, files[place.segment_id], stream_of(segments))
            },
    decreases segments.len(),
{
    if segments.len() > 0 {
        let front = segments.drop_last();
        let records = segments.last();
        let count = all_records(front).len() as int;
        crate::index_laws::lemma_sizes(segments);
        crate::index_laws::lemma_sizes(front);
        assert forall|i: int| 0 <= i < count implies fits(#[trigger] all_records(front)[i]) by {
            assert(all_records(segments)[i] == all_records(front)[i]);
        }
        assert forall|i: int| 0 <= i < records.len() implies fits(#[trigger] records[i]) by {
            assert(all_records(segments)[count + i] == records[i]);
        }
        assert forall|i: int| 0 <= i < front.len() implies file_holds(
            files,
            i,
            #[trigger] front[i],
        ) by {
            assert(segments[i] == front[i]);
        }
        lemma_segments_stand(front, files);
        let id = (segments.len() - 1) as u32;
        let some = stream_of(front);
        let all = stream_of(segments);
        lemma_segment_stands(index_of(front), id, records, some);
        assert(some =~= all.subrange(0, some.len() as int));
        assert(segments[segments.len() - 1] == records);
        assert(file_holds(files, segments.len() - 1, records));
        let places = index_of(segments).records;
        let known = index_of(front).records;
        assert forall|i: int| 0 <= i < places.len() implies {
            let place = #[trigger] index_of(segments).records[i];
            &&& files.contains_key(place.segment_id)
            &&& stands(place, files[place.segment_id], all)
        } by {
            if i < known.len() {
                assert(places[i] == known[i]);
                let file = files[known[i].segment_id];
                assert(file =~= file.subrange(0, file.len() as int));
                lemma_still_stands(known[i], file, some, file, all);
            } else {
                assert(all =~= all.subrange(0, all.len() as int));
                lemma_still_stands(places[i], journal_bytes(records), all, files[id], all);
            }
        }
    }
}

/// The payload of every record that an index names stands in the files where
/// the index says, and makes up the output.
pub proof fn law_files_hold_the_output(
    index: LineIndexModel,
    loaded: Map<int, Seq<u64>>,
    segments: Seq<Seq<RecordModel>>,
    files: Map<u32, Seq<u8>>,
)
    requires
        indexes(index, loaded, segments),
        files_hold(files, segments),
    ensures
        segments_hold(files, index.records, stream_of(segments)),
{
    lemma_segments_stand(segments, files);
    let stream = stream_of(segments);
    assert forall|i: int| 0 <= i < index.records.len() implies {
        let record = #[trigger] index.records[i];
        &&& record.start + record.len <= stream.len()
        &&& stream.len() <= u64::MAX
        &&& files.contains_key(record.segment_id)
        &&& record.offset + record.len <= files[record.segment_id].len()
        &&& record.offset + record.len <= u64::MAX
        &&& files[record.segment_id].subrange(
            record.offset as int,
            record.offset + record.len,
        ) == stream.subrange(record.start as int, record.start + record.len)
    } by {
        assert(index.records[i] == index_of(segments).records[i]);
        crate::index_laws::lemma_sizes(segments);
        let at = index.records[i].segment_id as int;
        assert(records_size(segments[at]) <= size_of_all(segments));
    }
}

// ---------------------------------------------------------------------------
// The records of a page.

proof fn lemma_leading(records: Seq<RecordPlace>, end: int) -> (count: int)
    ensures
        0 <= count <= records.len(),
        leading_records(records, end) == records.take(count),
        count < records.len() ==> records[count].start >= end,
    decreases records.len(),
{
    if records.len() == 0 || records[0].start >= end {
        assert(records.take(0) =~= Seq::empty());
        0
    } else {
        let rest = records.skip(1);
        let count = lemma_leading(rest, end);
        if count < rest.len() {
            assert(rest[count] == records[count + 1]);
        }
        assert(seq![records[0]] + rest.take(count) =~= records.take(count + 1));
        count + 1
    }
}

/// The records of a range follow one another and hold the range.
proof fn lemma_records_hold_range(records: Seq<RecordPlace>, total: int, start: int, end: int)
    requires
        records_in_order(records, total),
        0 <= start <= end <= total,
    ensures
        ({
            let found = records_for(records, start, end);
            &&& forall|i: int, j: int|
                0 <= i && j == i + 1 && j < found.len() ==> (#[trigger] found[i]).end() == (
                #[trigger] found[j]).start
            &&& forall|i: int| 0 <= i < found.len() ==> records.contains(#[trigger] found[i])
            &&& found.len() > 0 ==> found[0].start <= start && found.last().end() >= end
            &&& start < end ==> found.len() > 0
        }),
{
    let skipped = records_before(records, start);
    lemma_records_before(records, start);
    let rest = records.skip(skipped);
    let count = lemma_leading(rest, end);
    let found = records_for(records, start, end);
    assert forall|i: int, j: int| 0 <= i && j == i + 1 && j < found.len() implies (
    #[trigger] found[i]).end() == (#[trigger] found[j]).start by {
        assert(found[i] == records[skipped + i] && found[j] == records[skipped + j]);
    }
    assert forall|i: int| 0 <= i < found.len() implies records.contains(#[trigger] found[i]) by {
        assert(found[i] == records[skipped + i]);
    }
    if skipped < records.len() {
        if skipped > 0 {
            assert(records[skipped - 1].end() == records[skipped].start);
        }
        assert(rest[0] == records[skipped]);
    }
    if found.len() > 0 {
        assert(found[0] == records[skipped]);
        assert(found.last() == records[skipped + count - 1]);
        if count < rest.len() {
            assert(rest[count] == records[skipped + count]);
            assert(records[skipped + count - 1].end() == records[skipped + count].start);
        }
    }
    if start < end && skipped == records.len() && records.len() > 0 {
        assert(records.last() == records[skipped - 1]);
    }
}

proof fn lemma_raw_budget(lines: Seq<(u64, crate::line_blocks::LineLocation)>)
    ensures
        0 <= raw_budget(lines),
    decreases lines.len(),
{
    if lines.len() > 0 {
        lemma_raw_budget(lines.drop_last());
    }
}

/// The records of a page are held by the files and hold the page's lines.
proof fn lemma_page_records(
    plan: PageReadPlan,
    index: LineIndexModel,
    full: Map<int, Seq<u64>>,
    segments: Seq<Seq<RecordModel>>,
    files: Map<u32, Seq<u8>>,
    start: int,
    end: int,
)
    requires
        indexes(index, full, segments),
        files_hold(files, segments),
        0 <= start <= end <= stream_of(segments).len(),
        place_views(plan.records@) == records_for(index.records, start, end),
    ensures
        ({
            let records = place_views(plan.records@);
            &&& segments_hold(files, records, stream_of(segments))
            &&& records.len() > 0 ==> cover(records, records[0].start as int) && cover(
                records,
                start,
            ) && records[0].start <= start && records.last().end() >= end
            &&& records.len() == 0 ==> start == end
        }),
{
    let stream = stream_of(segments);
    let records = place_views(plan.records@);
    law_files_hold_the_output(index, full, segments, files);
    lemma_records_hold_range(index.records, stream.len() as int, start, end);
    assert forall|i: int| 0 <= i < records.len() implies {
        let record = #[trigger] records[i];
        &&& record.start + record.len <= stream.len()
        &&& stream.len() <= u64::MAX
        &&& files.contains_key(record.segment_id)
        &&& record.offset + record.len <= files[record.segment_id].len()
        &&& record.offset + record.len <= u64::MAX
        &&& files[record.segment_id].subrange(
            record.offset as int,
            record.offset + record.len,
        ) == stream.subrange(record.start as int, record.start + record.len)
    } by {
        assert(index.records.contains(records[i]));
    }
}

/// The bytes that a page wants lie between the start of its first record and
/// the end of its last line.
proof fn lemma_page_bounds(plan: PageReadPlan, stream: Seq<u8>)
    requires
        plan.lines@.len() > 0,
        lines_of_stream(plan.lines@, stream),
        stream.len() <= u64::MAX,
    ensures
        ({
            let (start, end) = lines_range(plan.lines@);
            &&& 0 <= start <= end <= stream.len()
            &&& plan.raw_bounds().0 == start
            &&& start <= plan.raw_bounds().1 <= end
            &&& start <= plan.styled_bounds().1 <= end
        }),
{
    let lines = plan.lines@;
    let last = lines.len() - 1;
    assert(lines[last].1.start <= lines[last].1.end <= stream.len());
    assert(lines[0].1.start <= lines[0].1.end);
    if last > 0 {
        assert(lines[0].1.end < lines[last].1.start);
    }
    lemma_raw_budget(lines.drop_last());
}

/// What is read out of the files for a page is the output that the page needs.
pub proof fn law_page_is_read_from_the_files(
    plan: PageReadPlan,
    index: LineIndexModel,
    part: Map<int, Seq<u64>>,
    full: Map<int, Seq<u64>>,
    segments: Seq<Seq<RecordModel>>,
    files: Map<u32, Seq<u8>>,
    anchor: int,
    rows_before: int,
    rows_after: int,
)
    requires
        indexes(index, full, segments),
        files_hold(files, segments),
        planned(plan, index, part, full, stream_of(segments), anchor, rows_before, rows_after),
    ensures
        ({
            let records = place_views(plan.records@);
            let (raw_start, raw_end) = plan.raw_bounds();
            let (styled_start, styled_end) = plan.styled_bounds();
            &&& 0 <= raw_start <= raw_end <= stream_of(segments).len()
            &&& 0 <= styled_start <= styled_end <= stream_of(segments).len()
            &&& pieces_bytes(files, pieces_for(records, raw_start, raw_end)) == stream_of(
                segments,
            ).subrange(raw_start, raw_end)
            &&& pieces_bytes(files, pieces_for(records, styled_start, styled_end)) == stream_of(
                segments,
            ).subrange(styled_start, styled_end)
        }),
{
    let stream = stream_of(segments);
    let records = place_views(plan.records@);
    lemma_planned(plan, index, part, full, stream, anchor, rows_before, rows_after);
    lemma_page_bounds(plan, stream);
    let (start, end) = lines_range(plan.lines@);
    lemma_page_records(plan, index, full, segments, files, start, end);
    if records.len() > 0 {
        assert(records[0] == plan.records@[0]@);
    }
    let (raw_start, raw_end) = plan.raw_bounds();
    let (styled_start, styled_end) = plan.styled_bounds();
    law_pieces_give_stream(files, records, stream, raw_start, raw_end);
    law_pieces_give_stream(files, records, stream, styled_start, styled_end);
}

} // verus!
