//! A checkpoint that was written reads back as the index it was written from.
use crate::ansi::{state_bytes, AnsiModel};
use crate::bytes::{
    law_u16_round_trip, law_u32_round_trip, law_u64_round_trip, le_u16, le_u32, le_u64,
    lemma_prefix_decides, u16_le, u32_le, u64_le,
};
use crate::checkpoint::{
    any_cold, block_at, block_bytes, block_checksum, block_head, block_kind, block_offset,
    blocks_at, blocks_bytes, cache_bytes, ends_ok, expected_last_sequence, front_bytes, front_of,
    image_bytes, last_base, last_sequence_code, lemma_decoded_ansi, lemma_narrow_of, lemma_wide_of,
    place_at, place_bytes, place_ok, places_at, places_bytes, places_end, read_cache,
    segment_matches, segments_match, stamp_at, stamp_bytes, stamps_bytes, store_code, store_len,
    tables_of, total_len, BlockHead, BlockLimits, CacheReading, FileStamp, Front,
    CACHE_HEADER_BYTES, CACHE_LINE_BLOCK_BYTES, CACHE_RECORD_BYTES, CACHE_SEGMENT_BYTES,
    MAX_CACHE_BYTES,
};
use crate::line_blocks::{
    block_count_at, block_wf, blocks_needed, ends_bytes, ends_width, lemma_narrow_bytes_len,
    lemma_wide_bytes_len, sat_add, BlockModel, EndsModel, IndexModel, LINE_BLOCK_HEADER_BYTES,
    LINE_BLOCK_SIZE,
};
use crate::line_index::{records_in_order, LineIndexModel, RecordPlace};
use crate::outside::crc32;
use vstd::prelude::*;

verus! {

broadcast use crate::bytes::group_le_len;

/// What stands behind a number does not matter to reading it.
broadcast proof fn lemma_u16_stable(s: Seq<u8>, t: Seq<u8>, at: int)
    requires
        0 <= at,
        at + 2 <= s.len(),
    ensures
        #[trigger] le_u16((s + t).skip(at)) == le_u16(s.skip(at)),
{
    assert((s + t).skip(at) =~= s.skip(at) + t);
    lemma_prefix_decides(s.skip(at), t);
}

broadcast proof fn lemma_u32_stable(s: Seq<u8>, t: Seq<u8>, at: int)
    requires
        0 <= at,
        at + 4 <= s.len(),
    ensures
        #[trigger] le_u32((s + t).skip(at)) == le_u32(s.skip(at)),
{
    assert((s + t).skip(at) =~= s.skip(at) + t);
    lemma_prefix_decides(s.skip(at), t);
}

broadcast proof fn lemma_u64_stable(s: Seq<u8>, t: Seq<u8>, at: int)
    requires
        0 <= at,
        at + 8 <= s.len(),
    ensures
        #[trigger] le_u64((s + t).skip(at)) == le_u64(s.skip(at)),
{
    assert((s + t).skip(at) =~= s.skip(at) + t);
    lemma_prefix_decides(s.skip(at), t);
}

/// A number at the end is read back.
broadcast proof fn lemma_u16_at_end(s: Seq<u8>, x: u16, at: int)
    requires
        at == s.len(),
    ensures
        #[trigger] le_u16((s + u16_le(x)).skip(at)) == x,
{
    assert((s + u16_le(x)).skip(at) =~= u16_le(x));
    law_u16_round_trip(x);
}

broadcast proof fn lemma_u32_at_end(s: Seq<u8>, x: u32, at: int)
    requires
        at == s.len(),
    ensures
        #[trigger] le_u32((s + u32_le(x)).skip(at)) == x,
{
    assert((s + u32_le(x)).skip(at) =~= u32_le(x));
    law_u32_round_trip(x);
}

broadcast proof fn lemma_u64_at_end(s: Seq<u8>, x: u64, at: int)
    requires
        at == s.len(),
    ensures
        #[trigger] le_u64((s + u64_le(x)).skip(at)) == x,
{
    assert((s + u64_le(x)).skip(at) =~= u64_le(x));
    law_u64_round_trip(x);
}

broadcast group group_read_back {
    lemma_u16_stable,
    lemma_u32_stable,
    lemma_u64_stable,
    lemma_u16_at_end,
    lemma_u32_at_end,
    lemma_u64_at_end,
}

pub open spec fn written_front(
    index: LineIndexModel,
    segments: int,
    store: Option<FileStamp>,
) -> Front {
    Front {
        revision: index.revision,
        logical_bytes: index.logical_bytes,
        open_line_start: index.open_line_start,
        last_sequence: last_sequence_code(index.last_sequence),
        segments: segments as u32,
        records: index.records.len() as u64,
        lines: index.lines.len as u64,
        blocks: index.lines.blocks.len() as u64,
        store: store_code(store),
        ansi: index.ansi,
    }
}

proof fn lemma_state_bytes_len(state: AnsiModel)
    requires
        state.wf(),
    ensures
        state_bytes(state).len() == 80,
{
}

proof fn lemma_front_reads_back(
    index: LineIndexModel,
    segments: int,
    store: Option<FileStamp>,
    rest: Seq<u8>,
)
    requires
        index.ansi.wf(),
    ensures
        front_bytes(index, segments, store).len() == CACHE_HEADER_BYTES,
        front_of(front_bytes(index, segments, store) + rest) == Some(
            written_front(index, segments, store),
        ),
{
    broadcast use group_read_back;

    reveal(front_bytes);
    lemma_state_bytes_len(index.ansi);
    lemma_decoded_ansi(index.ansi);
    let front = front_bytes(index, segments, store);
    let b = front + rest;
    assert(b.subrange(92, 172) =~= state_bytes(index.ansi));
}

proof fn lemma_stamp_reads_back(before: Seq<u8>, id: int, stamp: FileStamp, after: Seq<u8>)
    requires
        0 <= id <= u32::MAX,
    ensures
        stamp_bytes(id, stamp).len() == CACHE_SEGMENT_BYTES,
        ({
            let b = before + stamp_bytes(id, stamp) + after;
            let at = before.len() as int;
            le_u32(b.skip(at)) == id && stamp_at(b, at) == stamp
        }),
{
    broadcast use group_read_back;

    let b = before + stamp_bytes(id, stamp) + after;
    let nested = before + u32_le(id as u32) + u64_le(stamp.len) + u64_le(stamp.modified_seconds)
        + u32_le(stamp.modified_nanos) + after;
    assert(b =~= nested);
}

proof fn lemma_stamps_len(stamps: Seq<FileStamp>)
    ensures
        stamps_bytes(stamps).len() == stamps.len() * CACHE_SEGMENT_BYTES,
    decreases stamps.len(),
{
    if stamps.len() > 0 {
        lemma_stamps_len(stamps.drop_last());
    }
}

proof fn lemma_stamps_read_back(before: Seq<u8>, stamps: Seq<FileStamp>, after: Seq<u8>, id: int)
    requires
        0 <= id < stamps.len() <= u32::MAX,
    ensures
        ({
            let b = before + stamps_bytes(stamps) + after;
            let at = before.len() + id * CACHE_SEGMENT_BYTES;
            le_u32(b.skip(at)) == id && stamp_at(b, at) == stamps[id]
        }),
    decreases stamps.len(),
{
    let front = stamps.drop_last();
    let last = stamp_bytes(stamps.len() - 1, stamps.last());
    let b = before + stamps_bytes(stamps) + after;
    lemma_stamps_len(front);
    if id == stamps.len() - 1 {
        assert(b =~= (before + stamps_bytes(front)) + last + after);
        lemma_stamp_reads_back(before + stamps_bytes(front), id, stamps.last(), after);
    } else {
        assert(b =~= before + stamps_bytes(front) + (last + after));
        lemma_stamps_read_back(before, front, last + after, id);
    }
}

proof fn lemma_place_reads_back(before: Seq<u8>, record: RecordPlace, after: Seq<u8>)
    requires
        record.ansi.wf(),
    ensures
        place_bytes(record).len() == CACHE_RECORD_BYTES,
        place_at(before + place_bytes(record) + after, before.len() as int) == Some(record),
{
    broadcast use group_read_back;

    lemma_state_bytes_len(record.ansi);
    lemma_decoded_ansi(record.ansi);
    let b = before + place_bytes(record) + after;
    let at = before.len() as int;
    let nested = before + u32_le(record.segment_id) + u32_le(0) + u64_le(record.start) + u64_le(
        record.offset,
    ) + u64_le(record.len) + (state_bytes(record.ansi) + after);
    assert(b =~= nested);
    assert(b.subrange(at + 32, at + 112) =~= state_bytes(record.ansi));
}

proof fn lemma_places_len(records: Seq<RecordPlace>)
    requires
        forall|i: int| 0 <= i < records.len() ==> (#[trigger] records[i]).ansi.wf(),
    ensures
        places_bytes(records).len() == records.len() * CACHE_RECORD_BYTES,
    decreases records.len(),
{
    if records.len() > 0 {
        assert(records[records.len() - 1].ansi.wf());
        lemma_place_reads_back(Seq::empty(), records.last(), Seq::empty());
        assert forall|i: int| 0 <= i < records.drop_last().len() implies (
        #[trigger] records.drop_last()[i]).ansi.wf() by {
            assert(records[i].ansi.wf());
        }
        lemma_places_len(records.drop_last());
    }
}

proof fn lemma_record_reads_back(
    before: Seq<u8>,
    records: Seq<RecordPlace>,
    after: Seq<u8>,
    i: int,
)
    requires
        forall|i: int| 0 <= i < records.len() ==> (#[trigger] records[i]).ansi.wf(),
        0 <= i < records.len(),
    ensures
        place_at(
            before + places_bytes(records) + after,
            before.len() + i * CACHE_RECORD_BYTES,
        ) == Some(records[i]),
    decreases records.len(),
{
    let front = records.drop_last();
    let last = place_bytes(records.last());
    let b = before + places_bytes(records) + after;
    assert forall|i: int| 0 <= i < front.len() implies (#[trigger] front[i]).ansi.wf() by {
        assert(records[i].ansi.wf());
    }
    lemma_places_len(front);
    assert(records[records.len() - 1].ansi.wf());
    if i == records.len() - 1 {
        assert(b =~= (before + places_bytes(front)) + last + after);
        lemma_place_reads_back(before + places_bytes(front), records.last(), after);
    } else {
        assert(b =~= before + places_bytes(front) + (last + after));
        lemma_record_reads_back(before, front, last + after, i);
    }
}

proof fn lemma_records_read_back(
    before: Seq<u8>,
    records: Seq<RecordPlace>,
    after: Seq<u8>,
    count: int,
    segments: Seq<FileStamp>,
)
    requires
        records_in_order(records, places_end(records)),
        forall|i: int| 0 <= i < records.len() ==> place_ok(#[trigger] records[i], segments),
        0 <= count <= records.len(),
    ensures
        places_at(
            before + places_bytes(records) + after,
            before.len() as int,
            count,
            segments,
        ) == Some(records.take(count)),
    decreases count,
{
    let b = before + places_bytes(records) + after;
    if count == 0 {
        assert(records.take(0) =~= Seq::empty());
    } else {
        lemma_records_read_back(before, records, after, count - 1, segments);
        lemma_record_reads_back(before, records, after, count - 1);
        let front = records.take(count - 1);
        let record = records[count - 1];
        assert(place_ok(record, segments));
        if count > 1 {
            assert(front.last() == records[count - 2]);
            assert(records[count - 2].end() == records[count - 1].start);
        }
        assert(front.push(record) =~= records.take(count));
    }
}


/// A block that a checkpoint can hold: its ends grow within the stream, or
/// lie within the store.
pub open spec fn block_keeps(block: BlockModel, limits: BlockLimits) -> bool {
    &&& block.base < limits.logical_bytes
    &&& match block.ends {
        EndsModel::Cold(cold) => cold.payload_offset >= LINE_BLOCK_HEADER_BYTES && sat_add(
            cold.payload_offset as int,
            cold.count * cold.width,
        ) <= limits.store_len,
        _ => ends_ok(block.ends.values(), block.base, limits.logical_bytes),
    }
}

proof fn lemma_block_reads_back(
    before: Seq<u8>,
    block: BlockModel,
    after: Seq<u8>,
    index: int,
    previous: Option<u64>,
    limits: BlockLimits,
)
    requires
        0 <= index <= u64::MAX,
        block_wf(block, limits.lines, index),
        block_count_at(limits.lines, index) <= LINE_BLOCK_SIZE,
        block_keeps(block, limits),
        match previous {
            Some(base) => base < block.base,
            None => true,
        },
    ensures
        block_at(
            before + block_bytes(block) + after,
            before.len() as int,
            index,
            previous,
            limits,
        ) == Some((block, (before + block_bytes(block)).len() as int)),
{
    broadcast use group_read_back;

    let b = before + block_bytes(block) + after;
    let at = before.len() as int;
    let count = block.ends.count();
    let width = ends_width(block.ends);
    let payload = ends_bytes(block.ends);
    let marks = seq![width, block_kind(block.ends)];
    match block.ends {
        EndsModel::Narrow(ends) => {
            lemma_narrow_bytes_len(ends);
            lemma_narrow_of(ends);
        },
        EndsModel::Wide(ends) => {
            lemma_wide_bytes_len(ends);
            lemma_wide_of(ends);
        },
        EndsModel::Cold(_) => {},
    }
    assert(0 < count <= LINE_BLOCK_SIZE);
    assert(width == 4 || width == 8);
    let length = (count * width) as u32;
    assert(length == count * width);
    let nested = before + u64_le(block.base) + u32_le(count as u32) + marks + u16_le(0) + u64_le(
        block_offset(block.ends),
    ) + u32_le(block_checksum(block.ends)) + u32_le(length) + (payload + after);
    assert(b =~= nested);
    let head = block_head(b, at);
    assert(b[at + 12] == width && b[at + 13] == block_kind(block.ends));
    assert(head == (BlockHead {
        base: block.base,
        count: count as u32,
        width,
        kind: block_kind(block.ends),
        reserved: 0,
        offset: block_offset(block.ends),
        checksum: block_checksum(block.ends),
        length,
    }));
    assert((before + block_bytes(block)).len() == at + 32 + payload.len());
    if !(block.ends is Cold) {
        assert(b.subrange(at + 32, at + 32 + length) =~= payload);
    }
}

/// The blocks of a directory begin one behind the other.
pub open spec fn bases_grow(blocks: Seq<BlockModel>) -> bool {
    forall|i: int, j: int| 0 <= i && j == i + 1 && j < blocks.len() ==> (#[trigger] blocks[i]).base
        < (#[trigger] blocks[j]).base
}

proof fn lemma_split_blocks(blocks: Seq<BlockModel>, at: int) -> (tail: Seq<u8>)
    requires
        0 <= at < blocks.len(),
    ensures
        blocks_bytes(blocks) == blocks_bytes(blocks.take(at)) + block_bytes(blocks[at]) + tail,
        blocks_bytes(blocks.take(at + 1)) == blocks_bytes(blocks.take(at)) + block_bytes(
            blocks[at],
        ),
    decreases blocks.len(),
{
    let front = blocks.drop_last();
    assert(blocks.take(at + 1).drop_last() =~= blocks.take(at));
    if at == blocks.len() - 1 {
        assert(front =~= blocks.take(at));
        let tail = Seq::<u8>::empty();
        assert(blocks_bytes(blocks) + tail =~= blocks_bytes(blocks));
        tail
    } else {
        let inner = lemma_split_blocks(front, at);
        let last = block_bytes(blocks.last());
        assert(front.take(at) =~= blocks.take(at));
        let tail = inner + last;
        assert(blocks_bytes(blocks.take(at)) + block_bytes(blocks[at]) + inner + last
            =~= blocks_bytes(blocks.take(at)) + block_bytes(blocks[at]) + tail);
        tail
    }
}

proof fn lemma_blocks_read_back(
    before: Seq<u8>,
    index: IndexModel,
    after: Seq<u8>,
    count: int,
    limits: BlockLimits,
)
    requires
        index.wf(),
        limits.lines == index.len,
        bases_grow(index.blocks),
        forall|i: int| 0 <= i < index.blocks.len() ==> block_keeps(#[trigger] index.blocks[i], limits),
        0 <= count <= index.blocks.len(),
    ensures
        blocks_at(
            before + blocks_bytes(index.blocks) + after,
            before.len() as int,
            count,
            limits,
        ) == Some(
            (
                index.blocks.take(count),
                (before + blocks_bytes(index.blocks.take(count))).len() as int,
            ),
        ),
    decreases count,
{
    let blocks = index.blocks;
    let b = before + blocks_bytes(blocks) + after;
    if count == 0 {
        assert(blocks.take(0) =~= Seq::empty());
        assert(blocks_bytes(blocks.take(0)) =~= Seq::empty());
    } else {
        lemma_blocks_read_back(before, index, after, count - 1, limits);
        let front = blocks.take(count - 1);
        let block = blocks[count - 1];
        let tail = lemma_split_blocks(blocks, count - 1);
        let ahead = before + blocks_bytes(front);
        assert(b =~= ahead + block_bytes(block) + (tail + after));
        assert(block_wf(block, index.len, count - 1) && block_count_at(index.len, count - 1)
            <= LINE_BLOCK_SIZE && count - 1 <= u64::MAX) by {
            reveal(IndexModel::wf);
        }
        assert(block_keeps(block, limits));
        if count > 1 {
            assert(front.last() == blocks[count - 2]);
            assert(blocks[count - 2].base < blocks[count - 1].base);
        }
        lemma_block_reads_back(
            ahead,
            block,
            tail + after,
            count - 1,
            last_base(front),
            limits,
        );
        assert(front.push(block) =~= blocks.take(count));
        assert(ahead + block_bytes(block) =~= before + blocks_bytes(blocks.take(count)));
    }
}

/// An index that a checkpoint can hold, over segments and a store that are as
/// it says.
pub open spec fn cacheable(
    index: LineIndexModel,
    segments: Seq<FileStamp>,
    store: Option<FileStamp>,
) -> bool {
    let limits = BlockLimits {
        lines: index.lines.len,
        logical_bytes: index.logical_bytes,
        store_len: store_len(store_code(store)),
    };
    &&& index.wf()
    &&& index.lines.stored
    &&& segments.len() <= u32::MAX
    &&& total_len(segments) == index.revision
    &&& forall|i: int|
        0 <= i < index.records.len() ==> place_ok(#[trigger] index.records[i], segments)
    &&& index.last_sequence == expected_last_sequence(index.records.len() as int)
    &&& index.open_line_start <= index.logical_bytes
    &&& bases_grow(index.lines.blocks)
    &&& forall|i: int|
        0 <= i < index.lines.blocks.len() ==> block_keeps(
            #[trigger] index.lines.blocks[i],
            limits,
        )
    &&& any_cold(index.lines.blocks) ==> store is Some
    &&& match store {
        Some(stamp) => stamp.len < u64::MAX,
        None => true,
    }
    &&& index.lines.next_store_offset == store_len(store_code(store))
    &&& cache_bytes(index, segments, store).len() <= MAX_CACHE_BYTES
}

proof fn lemma_blocks_len(blocks: Seq<BlockModel>)
    ensures
        blocks_bytes(blocks).len() >= blocks.len() * CACHE_LINE_BLOCK_BYTES,
    decreases blocks.len(),
{
    if blocks.len() > 0 {
        lemma_blocks_len(blocks.drop_last());
    }
}

/// A checkpoint reads back, while the segments and the store are what they
/// were, as the index that it was written from.
pub proof fn law_checkpoint_round_trip(
    index: LineIndexModel,
    segments: Seq<FileStamp>,
    store: Option<FileStamp>,
)
    requires
        cacheable(index, segments, store),
    ensures
        read_cache(cache_bytes(index, segments, store), segments, store) == CacheReading::Index(
            (LineIndexModel { fault: None, ..index }),
        ),
{
    let image = image_bytes(index, segments, store);
    let bytes = cache_bytes(index, segments, store);
    let front = front_bytes(index, segments.len() as int, store);
    let stamps = stamps_bytes(segments);
    let places = places_bytes(index.records);
    let blocks = blocks_bytes(index.lines.blocks);
    let written = written_front(index, segments.len() as int, store);
    let n = index.records.len() as int;
    let limits = BlockLimits {
        lines: index.lines.len,
        logical_bytes: index.logical_bytes,
        store_len: store_len(store_code(store)),
    };
    crate::line_blocks::lemma_index_wf(index.lines);
    crate::line_blocks::lemma_blocks_fit(index.lines);
    assert(index.lines.blocks.len() == blocks_needed(index.lines.len)) by {
        reveal(IndexModel::wf);
    }
    // The checksum.
    assert(bytes.take(bytes.len() - 4) =~= image);
    assert(bytes.skip(bytes.len() - 4) =~= u32_le(crc32(image)));
    law_u32_round_trip(crc32(image));
    // The front.
    lemma_front_reads_back(index, segments.len() as int, store, stamps + places + blocks);
    assert(image =~= front + (stamps + places + blocks));
    // The tables.
    lemma_stamps_len(segments);
    lemma_places_len(index.records);
    lemma_blocks_len(index.lines.blocks);
    assert(segments_match(image, segments)) by {
        assert forall|i: int| 0 <= i < segments.len() implies #[trigger] segment_matches(
            image,
            i,
            segments[i],
        ) by {
            assert(image =~= front + stamps + (places + blocks));
            lemma_stamps_read_back(front, segments, places + blocks, i);
        }
    }
    assert(n <= u64::MAX && places_end(index.records) == index.logical_bytes);
    assert(image =~= (front + stamps) + places + blocks);
    lemma_records_read_back(front + stamps, index.records, blocks, n, segments);
    assert(index.records.take(n) =~= index.records);
    let count = index.lines.blocks.len() as int;
    assert(image =~= (front + stamps + places) + blocks + Seq::<u8>::empty());
    lemma_blocks_read_back(front + stamps + places, index.lines, Seq::empty(), count, limits);
    assert(index.lines.blocks.take(count) =~= index.lines.blocks);
    let read = tables_of(image, written, segments, store);
    assert(read is Some);
    assert(read.unwrap() =~= (LineIndexModel { fault: None, ..index }));
}

} // verus!
