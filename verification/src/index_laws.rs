//! The index that a writer keeps is that of its records, however they came in
//! and whatever of it has gone to the store; so a checkpoint of it can always
//! be read again, and says what the journal itself says.
use crate::checkpoint::{
    any_cold, cache_bytes, expected_last_sequence, last_block_stored, open_line_ok, place_ok,
    read_cache, store_code, store_len, total_len, BlockLimits, CacheReading, FileStamp,
    MAX_CACHE_BYTES,
};
use crate::checkpoint_laws::{block_keeps, cacheable, law_checkpoint_round_trip};
use crate::journal::{fits, RecordModel, HEADER_SIZE, MAX_RECORD_SIZE};
use crate::line_blocks::{
    block_end, block_wf, lemma_holds_at, lemma_holds_len, lemma_index_wf, lemma_narrow_bytes_len,
    lemma_wide_bytes_len, sat_add, BlockModel, EndsModel, IndexModel, LINE_BLOCK_HEADER_BYTES,
    LINE_BLOCK_SIZE,
};
use crate::line_index::{
    law_appended_record_is_described, law_empty_index_describes_nothing,
    law_sealed_index_describes_stream, lemma_newlines_describe, lemma_positions_below,
    lemma_stream_len, line_ends, next_after, payload_stream, records_size, with_newlines,
    LineIndexModel, RecordPlace,
};
use crate::log_page::{law_index_finds_lines, stream_line_count};
use crate::outside::positions;
use crate::segmented::{index_of, law_segments_are_one_stream, size_of_all, stream_of};
use vstd::prelude::*;

verus! {

/// Where line `line` begins, given where the lines before it end.
pub open spec fn start_of(ends: Seq<u64>, line: int) -> int {
    if line <= 0 {
        0
    } else {
        ends[line - 1] + 1
    }
}

/// Each block begins where its first line does.
pub open spec fn bases_start_lines(blocks: Seq<BlockModel>, ends: Seq<u64>) -> bool {
    forall|i: int|
        0 <= i < blocks.len() ==> (#[trigger] blocks[i]).base == start_of(
            ends,
            i * LINE_BLOCK_SIZE,
        )
}

/// The blocks that are in the store lie within what has been written of it.
pub open spec fn blocks_in_store(lines: IndexModel) -> bool {
    forall|i: int|
        0 <= i < lines.blocks.len() ==> ((#[trigger] lines.blocks[i]).ends matches EndsModel::Cold(
            cold,
        ) ==> cold.payload_offset >= LINE_BLOCK_HEADER_BYTES && sat_add(
            cold.payload_offset as int,
            cold.count * cold.width,
        ) <= lines.next_store_offset)
}

/// The records of all segments, in order.
pub open spec fn all_records(segments: Seq<Seq<RecordModel>>) -> Seq<RecordModel>
    decreases segments.len(),
{
    if segments.len() == 0 {
        Seq::empty()
    } else {
        all_records(segments.drop_last()) + segments.last()
    }
}

/// Records that can be written are numbered from zero on, in one sequence
/// over all segments.
pub open spec fn in_one_sequence(segments: Seq<Seq<RecordModel>>) -> bool {
    forall|i: int|
        0 <= i < all_records(segments).len() ==> (#[trigger] all_records(segments)[i]).sequence == i
            && fits(all_records(segments)[i])
}

/// The record's payload lies in its segment.
pub open spec fn lies_in_segment(place: RecordPlace, segments: Seq<Seq<RecordModel>>) -> bool {
    &&& place.segment_id < segments.len()
    &&& place.offset >= HEADER_SIZE
    &&& place.offset + place.len <= records_size(segments[place.segment_id as int])
    &&& place.len <= MAX_RECORD_SIZE
}

/// The index is one of the records of `segments`, given the stored blocks in
/// `loaded`.
pub open spec fn indexes(
    index: LineIndexModel,
    loaded: Map<int, Seq<u64>>,
    segments: Seq<Seq<RecordModel>>,
) -> bool {
    &&& 0 < segments.len() <= u32::MAX
    &&& size_of_all(segments) < usize::MAX
    &&& size_of_all(segments) <= u64::MAX
    &&& in_one_sequence(segments)
    &&& index.wf()
    &&& index.describes(loaded, stream_of(segments))
    &&& index.fault is None
    &&& index.lines.stored
    &&& bases_start_lines(index.lines.blocks, line_ends(stream_of(segments)))
    &&& blocks_in_store(index.lines)
    &&& index.revision == size_of_all(segments)
    &&& index.last_sequence == expected_last_sequence(all_records(segments).len() as int)
    &&& index.records == index_of(segments).records
    &&& index.records.len() == all_records(segments).len()
    &&& forall|i: int|
        0 <= i < index.records.len() ==> lies_in_segment(#[trigger] index.records[i], segments)
}

/// A journal without records has an empty index.
pub proof fn law_empty_journal_is_indexed()
    ensures
        indexes(LineIndexModel::empty(), Map::empty(), seq![Seq::<RecordModel>::empty()]),
{
    let segments = seq![Seq::<RecordModel>::empty()];
    law_empty_index_describes_nothing();
    assert(segments.drop_last() =~= Seq::<Seq<RecordModel>>::empty());
    assert(all_records(segments.drop_last()) =~= Seq::<RecordModel>::empty());
    assert(all_records(segments) =~= Seq::<RecordModel>::empty());
    assert(stream_of(segments.drop_last()) =~= Seq::<u8>::empty());
    assert(payload_stream(Seq::<RecordModel>::empty()) =~= Seq::<u8>::empty());
    assert(stream_of(segments) =~= Seq::<u8>::empty());
    assert(size_of_all(segments.drop_last()) == 0);
    assert(size_of_all(segments) == 0);
    assert(index_of(segments.drop_last()) == LineIndexModel::empty());
    assert(index_of(segments) == LineIndexModel::empty());
}

/// The segments with a record added to the last one.
pub open spec fn with_new_record(
    segments: Seq<Seq<RecordModel>>,
    record: RecordModel,
) -> Seq<Seq<RecordModel>> {
    segments.drop_last().push(segments.last().push(record))
}

proof fn lemma_bases_follow(
    index: LineIndexModel,
    loaded: Map<int, Seq<u64>>,
    stream: Seq<u8>,
    payload: Seq<u8>,
)
    requires
        index.wf(),
        index.describes(loaded, stream),
        stream.len() + payload.len() <= usize::MAX,
        stream.len() + payload.len() <= u64::MAX,
        index.lines.len + payload.len() < usize::MAX,
        bases_start_lines(index.lines.blocks, line_ends(stream)),
        blocks_in_store(index.lines),
    ensures
        ({
            let (lines, open) = with_newlines(
                index.lines,
                index.open_line_start,
                stream.len() as int,
                positions(payload, 0x0a),
            );
            &&& bases_start_lines(lines.blocks, line_ends(stream + payload))
            &&& blocks_in_store(lines)
            &&& lines.stored == index.lines.stored
            &&& lines.next_store_offset == index.lines.next_store_offset
        }),
    decreases payload.len(),
{
    let all = stream + payload;
    if payload.len() == 0 {
        assert(all =~= stream);
    } else {
        let front = payload.drop_last();
        assert(all.drop_last() =~= stream + front);
        lemma_bases_follow(index, loaded, stream, front);
        lemma_newlines_describe(index, loaded, stream, front);
        if payload.last() == 0x0a {
            let at = (all.len() - 1) as u64;
            let (lines, open) = with_newlines(
                index.lines,
                index.open_line_start,
                stream.len() as int,
                positions(front, 0x0a),
            );
            let ends = line_ends(stream + front);
            lemma_positions_below(front, 0x0a);
            assert(positions(payload, 0x0a).drop_last() =~= positions(front, 0x0a));
            assert(line_ends(all) =~= ends.push(at));
            lemma_holds_len(lines, loaded, ends);
            let after = lines.with_line(open, at);
            reveal(IndexModel::wf);
            reveal(IndexModel::with_line);
            let size = LINE_BLOCK_SIZE as int;
            assert forall|i: int| 0 <= i < after.blocks.len() implies (
            #[trigger] after.blocks[i]).base == start_of(line_ends(all), i * LINE_BLOCK_SIZE) by {
                if i < lines.blocks.len() {
                    assert(after.blocks[i].base == lines.blocks[i].base);
                    assert(i * size <= lines.len);
                } else {
                    assert(i * size == lines.len);
                }
            }
            assert forall|i: int| 0 <= i < after.blocks.len() implies ((
            #[trigger] after.blocks[i]).ends matches EndsModel::Cold(cold) ==> cold.payload_offset
                >= LINE_BLOCK_HEADER_BYTES && sat_add(
                cold.payload_offset as int,
                cold.count * cold.width,
            ) <= after.next_store_offset) by {
                if i < lines.blocks.len() - 1 {
                    assert(after.blocks[i] == lines.blocks[i]);
                } else if i < lines.blocks.len() {
                    assert(after.blocks[i].ends is Cold ==> lines.blocks[i].ends
                        == after.blocks[i].ends);
                }
            }
        }
    }
}

/// A committed record keeps the index that of all records.
pub proof fn law_committed_record_is_indexed(
    index: LineIndexModel,
    loaded: Map<int, Seq<u64>>,
    segments: Seq<Seq<RecordModel>>,
    record: RecordModel,
)
    requires
        indexes(index, loaded, segments),
        fits(record),
        record.sequence == all_records(segments).len(),
        size_of_all(segments) + HEADER_SIZE + record.payload.len() < usize::MAX,
        size_of_all(segments) + HEADER_SIZE + record.payload.len() <= u64::MAX,
    ensures
        indexes(
            index.with_record(
                (segments.len() - 1) as u32,
                records_size(segments.last()) as u64,
                record,
            ),
            loaded,
            with_new_record(segments, record),
        ),
        next_after(index.last_sequence) == record.sequence,
        stream_of(with_new_record(segments, record)) == stream_of(segments) + record.payload,
        all_records(with_new_record(segments, record)) == all_records(segments).push(record),
{
    let id = (segments.len() - 1) as u32;
    let offset = records_size(segments.last()) as u64;
    let after = index.with_record(id, offset, record);
    let grown = with_new_record(segments, record);
    let stream = stream_of(segments);
    let last = segments.last();
    assert(grown.drop_last() =~= segments.drop_last());
    assert(last.push(record).drop_last() =~= last);
    assert(stream_of(grown) =~= stream + record.payload);
    assert(all_records(grown) =~= all_records(segments).push(record));
    assert(size_of_all(grown) == size_of_all(segments) + HEADER_SIZE + record.payload.len());
    lemma_sizes(segments);
    law_segments_are_one_stream(segments);
    let plain = index_of(segments);
    assert(index_of(grown) == plain.with_record(id, offset, record));
    lemma_lines_fit(index, loaded, stream);
    law_appended_record_is_described(index, loaded, stream, id, offset, record);
    lemma_bases_follow(index, loaded, stream, record.payload);
    assert(after.records =~= index_of(grown).records);
    assert forall|i: int| 0 <= i < all_records(grown).len() implies (#[trigger] all_records(
        grown,
    )[i]).sequence == i && fits(all_records(grown)[i]) by {
        if i < all_records(segments).len() {
            assert(all_records(grown)[i] == all_records(segments)[i]);
        }
    }
    assert forall|i: int| 0 <= i < after.records.len() implies lies_in_segment(
        #[trigger] after.records[i],
        grown,
    ) by {
        if i < index.records.len() {
            assert(after.records[i] == index.records[i]);
            assert(lies_in_segment(index.records[i], segments));
            let at = index.records[i].segment_id as int;
            if at < segments.len() - 1 {
                assert(grown[at] == segments[at]);
            }
        }
    }
}

/// No segment is larger than all of them.
pub(crate) proof fn lemma_sizes(segments: Seq<Seq<RecordModel>>)
    ensures
        stream_of(segments).len() <= size_of_all(segments),
        0 <= size_of_all(segments),
        all_records(segments).len() * HEADER_SIZE <= size_of_all(segments),
        forall|i: int|
            0 <= i < segments.len() ==> 0 <= records_size(#[trigger] segments[i]) <= size_of_all(
                segments,
            ),
    decreases segments.len(),
{
    if segments.len() > 0 {
        let front = segments.drop_last();
        lemma_sizes(front);
        lemma_stream_len(segments.last());
        assert forall|i: int| 0 <= i < segments.len() implies 0 <= records_size(
            #[trigger] segments[i],
        ) <= size_of_all(segments) by {
            if i < front.len() {
                assert(front[i] == segments[i]);
            }
        }
    }
}

/// There are no more lines than bytes.
proof fn lemma_lines_fit(index: LineIndexModel, loaded: Map<int, Seq<u64>>, stream: Seq<u8>)
    requires
        index.describes(loaded, stream),
    ensures
        index.lines.len == line_ends(stream).len(),
        index.lines.len <= stream.len(),
{
    lemma_holds_len(index.lines, loaded, line_ends(stream));
    lemma_positions_below(stream, 0x0a);
}

/// A new segment changes nothing of the index.
pub proof fn law_new_segment_is_indexed(
    index: LineIndexModel,
    loaded: Map<int, Seq<u64>>,
    segments: Seq<Seq<RecordModel>>,
)
    requires
        indexes(index, loaded, segments),
        segments.len() < u32::MAX,
    ensures
        indexes(index, loaded, segments.push(Seq::empty())),
{
    let all = segments.push(Seq::empty());
    assert(all.drop_last() =~= segments);
    assert(payload_stream(Seq::<RecordModel>::empty()) =~= Seq::<u8>::empty());
    assert(stream_of(all) =~= stream_of(segments));
    assert(all_records(all) =~= all_records(segments));
    assert(size_of_all(all) == size_of_all(segments));
    assert(index_of(all) == index_of(segments));
    assert forall|i: int| 0 <= i < index.records.len() implies lies_in_segment(
        #[trigger] index.records[i],
        all,
    ) by {
        assert(lies_in_segment(index.records[i], segments));
    }
}

/// A block that goes to the store changes nothing of what the index says.
pub proof fn law_stored_block_is_indexed(
    index: LineIndexModel,
    loaded: Map<int, Seq<u64>>,
    segments: Seq<Seq<RecordModel>>,
    at: int,
)
    requires
        indexes(index, loaded, segments),
        index.lines.can_seal(at),
    ensures
        indexes(
            LineIndexModel { lines: index.lines.with_sealed(at), ..index },
            loaded.insert(at, index.lines.blocks[at].ends.values()),
            segments,
        ),
{
    let after = index.lines.with_sealed(at);
    law_sealed_index_describes_stream(index, loaded, stream_of(segments), at);
    match index.lines.blocks[at].ends {
        EndsModel::Narrow(ends) => lemma_narrow_bytes_len(ends),
        EndsModel::Wide(ends) => lemma_wide_bytes_len(ends),
        EndsModel::Cold(_) => {},
    }
    assert forall|i: int| 0 <= i < after.blocks.len() implies (#[trigger] after.blocks[i]).base
        == start_of(line_ends(stream_of(segments)), i * LINE_BLOCK_SIZE) by {
        assert(after.blocks[i].base == index.lines.blocks[i].base);
    }
    assert forall|i: int| 0 <= i < after.blocks.len() implies ((
    #[trigger] after.blocks[i]).ends matches EndsModel::Cold(cold) ==> cold.payload_offset
        >= LINE_BLOCK_HEADER_BYTES && sat_add(cold.payload_offset as int, cold.count * cold.width)
        <= after.next_store_offset) by {
        if i != at {
            assert(after.blocks[i] == index.lines.blocks[i]);
        }
    }
}

/// Reading the segments anew gives an index of them.
pub proof fn law_rebuilt_index_is_indexed(segments: Seq<Seq<RecordModel>>)
    requires
        0 < segments.len() <= u32::MAX,
        size_of_all(segments) < usize::MAX,
        size_of_all(segments) <= u64::MAX,
        in_one_sequence(segments),
    ensures
        indexes(index_of(segments), Map::empty(), segments),
    decreases segments.len(), segments.last().len(),
{
    let front = segments.drop_last();
    let last = segments.last();
    lemma_stream_len(last);
    if last.len() == 0 {
        assert(last =~= Seq::<RecordModel>::empty());
        assert(segments =~= front.push(Seq::empty()));
        assert(all_records(segments) =~= all_records(front));
        assert(size_of_all(front) == size_of_all(segments));
        if front.len() == 0 {
            law_empty_journal_is_indexed();
            assert(segments =~= seq![Seq::<RecordModel>::empty()]);
            assert(index_of(front) == LineIndexModel::empty());
            assert(index_of(segments) == LineIndexModel::empty());
        } else {
            assert(in_one_sequence(front));
            law_rebuilt_index_is_indexed(front);
            law_new_segment_is_indexed(index_of(front), Map::empty(), front);
            assert(index_of(segments) == index_of(front));
        }
    } else {
        let shorter = front.push(last.drop_last());
        assert(shorter.drop_last() =~= front);
        assert(with_new_record(shorter, last.last()) =~= segments) by {
            assert(last.drop_last().push(last.last()) =~= last);
        }
        assert(all_records(segments) =~= all_records(shorter).push(last.last()));
        assert(in_one_sequence(shorter)) by {
            assert forall|i: int| 0 <= i < all_records(shorter).len() implies (
            #[trigger] all_records(shorter)[i]).sequence == i && fits(all_records(shorter)[i]) by {
                assert(all_records(segments)[i] == all_records(shorter)[i]);
            }
        }
        lemma_stream_len(last.drop_last());
        law_rebuilt_index_is_indexed(shorter);
        assert(all_records(segments)[all_records(shorter).len() as int] == last.last());
        law_committed_record_is_indexed(index_of(shorter), Map::empty(), shorter, last.last());
        assert(index_of(segments) == index_of(shorter).with_record(
            (segments.len() - 1) as u32,
            records_size(last.drop_last()) as u64,
            last.last(),
        ));
    }
}

/// The stamps are those of the files of `segments`.
pub open spec fn stamps_of(stamps: Seq<FileStamp>, segments: Seq<Seq<RecordModel>>) -> bool {
    &&& stamps.len() == segments.len()
    &&& forall|i: int|
        0 <= i < stamps.len() ==> (#[trigger] stamps[i]).len == records_size(segments[i])
}

proof fn lemma_total_of(stamps: Seq<FileStamp>, segments: Seq<Seq<RecordModel>>)
    requires
        stamps_of(stamps, segments),
    ensures
        total_len(stamps) == size_of_all(segments),
    decreases stamps.len(),
{
    if stamps.len() > 0 {
        assert forall|i: int| 0 <= i < stamps.drop_last().len() implies (
        #[trigger] stamps.drop_last()[i]).len == records_size(segments.drop_last()[i]) by {
            assert(stamps[i].len == records_size(segments[i]));
        }
        lemma_total_of(stamps.drop_last(), segments.drop_last());
        assert(stamps[stamps.len() - 1].len == records_size(segments[segments.len() - 1]));
    }
}

/// The store is as long as has been written of it; where there is none, nothing
/// was.
pub open spec fn store_of(store: Option<FileStamp>, lines: IndexModel) -> bool {
    match store {
        Some(stamp) => stamp.len == lines.next_store_offset && stamp.len < u64::MAX,
        None => lines.next_store_offset == 0,
    }
}

/// The index that a writer keeps can be written to a checkpoint, as long as
/// the checkpoint is not too large.
pub proof fn law_index_is_cacheable(
    index: LineIndexModel,
    loaded: Map<int, Seq<u64>>,
    segments: Seq<Seq<RecordModel>>,
    stamps: Seq<FileStamp>,
    store: Option<FileStamp>,
)
    requires
        indexes(index, loaded, segments),
        stamps_of(stamps, segments),
        store_of(store, index.lines),
        cache_bytes(index, stamps, store).len() <= MAX_CACHE_BYTES,
    ensures
        cacheable(index, stamps, store),
{
    let stream = stream_of(segments);
    let ends = line_ends(stream);
    let blocks = index.lines.blocks;
    let size = LINE_BLOCK_SIZE as int;
    let limits = BlockLimits {
        lines: index.lines.len,
        logical_bytes: index.logical_bytes,
        store_len: store_len(store_code(store)),
    };
    lemma_total_of(stamps, segments);
    lemma_sizes(segments);
    lemma_lines_fit(index, loaded, stream);
    lemma_positions_below(stream, 0x0a);
    let found = positions(stream, 0x0a);
    assert(index.open_line_start <= index.logical_bytes) by {
        if ends.len() > 0 {
            assert(found[ends.len() - 1] < stream.len());
        }
    }
    assert(limits.store_len == index.lines.next_store_offset);
    assert forall|i: int| 0 <= i < index.records.len() implies place_ok(
        #[trigger] index.records[i],
        stamps,
    ) by {
        assert(lies_in_segment(index.records[i], segments));
        let at = index.records[i].segment_id as int;
        assert(stamps[at].len == records_size(segments[at]));
    }
    reveal(IndexModel::wf);
    assert forall|i: int| 0 <= i < blocks.len() implies i * size < ends.len() && block_wf(
        #[trigger] blocks[i],
        index.lines.len,
        i,
    ) by {}
    assert forall|i: int, j: int| 0 <= i && j == i + 1 && j < blocks.len() implies (
    #[trigger] blocks[i]).base < (#[trigger] blocks[j]).base by {
        assert(j * size < ends.len());
        assert(found[j * size - 1] >= 0);
        if i > 0 {
            assert(found[i * size - 1] < found[j * size - 1]);
        }
    }
    assert forall|i: int| 0 <= i < blocks.len() implies block_keeps(
        #[trigger] blocks[i],
        limits,
    ) by {
        let block = blocks[i];
        assert(i * size < ends.len());
        assert(found[i * size] < stream.len());
        if i > 0 {
            assert(found[i * size - 1] < found[i * size]);
        }
        assert(block.base < index.logical_bytes);
        if !(block.ends is Cold) {
            let values = block.ends.values();
            assert(block_wf(block, index.lines.len, i));
            assert forall|k: int| 0 <= k < values.len() implies sat_add(
                block.base as int,
                #[trigger] values[k] as int,
            ) == found[i * size + k] && found[i * size + k] < stream.len() by {
                let line = i * size + k;
                assert(line < index.lines.len);
                lemma_holds_at(index.lines, loaded, ends, line);
                assert(line / size == i && line % size == k);
                assert(block_end(block, k) == Some(ends[line]));
                assert(found[line] < stream.len());
            }
            assert forall|k: int, l: int| 0 <= k && l == k + 1 && l < values.len() implies
                #[trigger] values[k] < #[trigger] values[l] by {
                assert(found[i * size + k] < found[i * size + l]);
            }
            assert(values.len() > 0);
            assert(sat_add(block.base as int, values[values.len() - 1] as int) < stream.len());
        }
    }
    assert(any_cold(blocks) ==> store is Some) by {
        if any_cold(blocks) {
            let i = choose|i: int| 0 <= i < blocks.len() && (#[trigger] blocks[i]).ends is Cold;
            assert(blocks[i].ends matches EndsModel::Cold(cold) && cold.payload_offset
                <= index.lines.next_store_offset);
        }
    }
}

/// Two indexes say the same of a journal.
pub open spec fn say_the_same(
    one: LineIndexModel,
    one_loaded: Map<int, Seq<u64>>,
    other: LineIndexModel,
    other_loaded: Map<int, Seq<u64>>,
) -> bool {
    &&& one.revision == other.revision
    &&& one.logical_bytes == other.logical_bytes
    &&& one.open_line_start == other.open_line_start
    &&& one.last_sequence == other.last_sequence
    &&& one.records == other.records
    &&& one.ansi == other.ansi
    &&& one.fault == other.fault
    &&& one.line_count() == other.line_count()
    &&& forall|line: int|
        0 <= line < one.line_count() ==> #[trigger] one.line_at(line, one_loaded)
            == other.line_at(line, other_loaded)
}

/// All indexes of the same segments say the same.
pub proof fn law_indexes_agree(
    one: LineIndexModel,
    one_loaded: Map<int, Seq<u64>>,
    other: LineIndexModel,
    other_loaded: Map<int, Seq<u64>>,
    segments: Seq<Seq<RecordModel>>,
)
    requires
        indexes(one, one_loaded, segments),
        indexes(other, other_loaded, segments),
    ensures
        say_the_same(one, one_loaded, other, other_loaded),
{
    let stream = stream_of(segments);
    lemma_lines_fit(one, one_loaded, stream);
    lemma_lines_fit(other, other_loaded, stream);
    assert(one.line_count() == stream_line_count(stream));
    assert(other.line_count() == stream_line_count(stream));
    assert forall|line: int| 0 <= line < one.line_count() implies #[trigger] one.line_at(
        line,
        one_loaded,
    ) == other.line_at(line, other_loaded) by {
        law_index_finds_lines(one, one_loaded, stream, line);
        law_index_finds_lines(other, other_loaded, stream, line);
    }
}

/// The journal, not the checkpoint, says what there is: starting from a
/// checkpoint of the index that a writer kept gives that index again, and it
/// says what the index says that is built from the segments. The last block of
/// lines, where it is in the store, confirms it.
pub proof fn law_checkpoint_says_what_the_journal_says(
    index: LineIndexModel,
    loaded: Map<int, Seq<u64>>,
    segments: Seq<Seq<RecordModel>>,
    stamps: Seq<FileStamp>,
    store: Option<FileStamp>,
)
    requires
        indexes(index, loaded, segments),
        stamps_of(stamps, segments),
        store_of(store, index.lines),
        cache_bytes(index, stamps, store).len() <= MAX_CACHE_BYTES,
    ensures
        read_cache(cache_bytes(index, stamps, store), stamps, store) == CacheReading::Index(index),
        if last_block_stored(index) {
            open_line_ok(index, loaded[index.lines.blocks.len() - 1])
        } else {
            open_line_ok(index, Seq::empty())
        },
        indexes(index_of(segments), Map::empty(), segments),
        say_the_same(index, loaded, index_of(segments), Map::empty()),
        next_after(index.last_sequence) == next_after(index_of(segments).last_sequence),
{
    law_index_is_cacheable(index, loaded, segments, stamps, store);
    law_checkpoint_round_trip(index, stamps, store);
    assert((LineIndexModel { fault: None, ..index }) =~= index);
    law_rebuilt_index_is_indexed(segments);
    law_indexes_agree(index, loaded, index_of(segments), Map::empty(), segments);
    lemma_open_line(index, loaded, stream_of(segments));
}

proof fn lemma_open_line(index: LineIndexModel, loaded: Map<int, Seq<u64>>, stream: Seq<u8>)
    requires
        index.wf(),
        index.describes(loaded, stream),
    ensures
        if last_block_stored(index) {
            open_line_ok(index, loaded[index.lines.blocks.len() - 1])
        } else {
            open_line_ok(index, Seq::empty())
        },
{
    let blocks = index.lines.blocks;
    let ends = line_ends(stream);
    let size = LINE_BLOCK_SIZE as int;
    lemma_lines_fit(index, loaded, stream);
    lemma_index_wf(index.lines);
    if blocks.len() > 0 {
        reveal(IndexModel::wf);
        let last = blocks.len() - 1;
        let line = index.lines.len - 1;
        lemma_holds_at(index.lines, loaded, ends, line);
        lemma_positions_below(stream, 0x0a);
        assert(positions(stream, 0x0a)[line] < stream.len());
        assert(block_wf(blocks[last], index.lines.len, last));
        assert(line / size == last);
        if blocks[last].ends is Cold {
            assert(loaded.contains_key(last));
            assert(loaded[last].len() <= LINE_BLOCK_SIZE);
            assert(line % size == size - 1);
            assert(loaded[last].last() == loaded[last][size - 1]);
        } else {
            let values = blocks[last].ends.values();
            assert(line % size == values.len() - 1);
            assert(block_end(blocks[last], values.len() - 1) == Some(ends[line]));
        }
    }
}

} // verus!
