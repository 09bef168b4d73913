//! Checkpoints of a line index: a checksummed image that spares a reader the
//! journal itself, as long as the segments are what they were.
use crate::ansi::{law_state_bytes_injective, state_bytes, AnsiModel, AnsiState, ANSI_STATE_BYTES};
use crate::bytes::{
    le_u16, le_u32, le_u64, push_u16, push_u32, push_u64, read_u16, read_u32, read_u64, u16_le,
    u32_le, u64_le,
};
use crate::journal::{JournalError, HEADER_SIZE, MAX_RECORD_SIZE};
use crate::line_blocks::{
    block_count_at, block_wf, blocks_needed, ends_bytes, ends_width, lemma_narrow_bytes_injective,
    lemma_wide_bytes_injective, narrow_bytes, push_narrow, push_wide, read_narrow, read_wide,
    sat_add, wide_bytes, BlockModel, BlockedLineIndex, ColdLineBlock, EndsModel, IndexModel,
    LineBlock, LineBlockEnds, LINE_BLOCK_HEADER_BYTES, LINE_BLOCK_SIZE,
};
use crate::line_index::{
    place_views, records_in_order, JournalLineIndexState, LineIndexModel, RecordLocation,
    RecordPlace,
};
use crate::outside::crc32;
use vstd::prelude::*;

verus! {

broadcast use crate::bytes::group_le_len;

pub const CACHE_VERSION: u16 = 4;

pub const CACHE_HEADER_BYTES: usize = 172;

pub const CACHE_SEGMENT_BYTES: usize = 24;

pub const CACHE_RECORD_BYTES: usize = 112;

pub const CACHE_LINE_BLOCK_BYTES: usize = 32;

pub const CACHE_BLOCK_NARROW: u8 = 0;

pub const CACHE_BLOCK_WIDE: u8 = 1;

pub const CACHE_BLOCK_COLD: u8 = 2;

pub const MAX_CACHE_BYTES: u64 = 536870912;

/// A file's size and time of change. Segments are numbered by position.
#[derive(Clone, Copy, Debug, PartialEq, Eq, Structural)]
pub struct FileStamp {
    pub len: u64,
    pub modified_seconds: u64,
    pub modified_nanos: u32,
}

// ---------------------------------------------------------------------------
// A cursor over the bytes.

#[derive(Debug)]
pub struct CacheCursor<'a> {
    pub bytes: &'a [u8],
    pub position: usize,
}

impl<'a> CacheCursor<'a> {
    pub open spec fn wf(self) -> bool {
        self.position <= self.bytes@.len()
    }

    /// The bytes that are left.
    pub open spec fn rest(self) -> Seq<u8> {
        self.bytes@.skip(self.position as int)
    }

    /// The cursor after `count` more bytes.
    pub open spec fn moved(self, old: CacheCursor<'a>, count: int) -> bool {
        self.bytes == old.bytes && self.position == old.position + count && self.wf()
    }

    pub fn new(bytes: &'a [u8]) -> (cursor: Self)
        ensures
            cursor.bytes == bytes,
            cursor.position == 0,
            cursor.wf(),
    {
        CacheCursor { bytes, position: 0 }
    }

    pub fn take(&mut self, count: usize) -> (taken: Option<&'a [u8]>)
        requires
            old(self).wf(),
        ensures
            match taken {
                Some(taken) => old(self).rest().len() >= count && taken@ == old(self).rest().take(
                    count as int,
                ) && final(self).moved(*old(self), count as int),
                None => old(self).rest().len() < count && *final(self) == *old(self),
            },
    {
        let left: usize = self.bytes.len() - self.position;
        if left < count {
            return None;
        }
        let end: usize = self.position + count;
        let taken = vstd::slice::slice_subrange(self.bytes, self.position, end);
        assert(taken@ =~= self.rest().take(count as int));
        self.position = end;
        Some(taken)
    }

    pub fn u16(&mut self) -> (value: Option<u16>)
        requires
            old(self).wf(),
        ensures
            match value {
                Some(value) => old(self).rest().len() >= 2 && value == le_u16(old(self).rest())
                    && final(self).moved(*old(self), 2),
                None => old(self).rest().len() < 2 && *final(self) == *old(self),
            },
    {
        if self.bytes.len() - self.position < 2 {
            return None;
        }
        let value: u16 = read_u16(self.bytes, self.position);
        self.position = self.position + 2;
        Some(value)
    }

    pub fn u32(&mut self) -> (value: Option<u32>)
        requires
            old(self).wf(),
        ensures
            match value {
                Some(value) => old(self).rest().len() >= 4 && value == le_u32(old(self).rest())
                    && final(self).moved(*old(self), 4),
                None => old(self).rest().len() < 4 && *final(self) == *old(self),
            },
    {
        if self.bytes.len() - self.position < 4 {
            return None;
        }
        let value: u32 = read_u32(self.bytes, self.position);
        self.position = self.position + 4;
        Some(value)
    }

    pub fn u64(&mut self) -> (value: Option<u64>)
        requires
            old(self).wf(),
        ensures
            match value {
                Some(value) => old(self).rest().len() >= 8 && value == le_u64(old(self).rest())
                    && final(self).moved(*old(self), 8),
                None => old(self).rest().len() < 8 && *final(self) == *old(self),
            },
    {
        if self.bytes.len() - self.position < 8 {
            return None;
        }
        let value: u64 = read_u64(self.bytes, self.position);
        self.position = self.position + 8;
        Some(value)
    }

    pub fn remaining(&self) -> (count: usize)
        requires
            self.wf(),
        ensures
            count == self.rest().len(),
    {
        self.bytes.len() - self.position
    }
}

// ---------------------------------------------------------------------------
// The image.

pub open spec fn stamp_bytes(id: int, stamp: FileStamp) -> Seq<u8> {
    u32_le(id as u32) + u64_le(stamp.len) + u64_le(stamp.modified_seconds) + u32_le(
        stamp.modified_nanos,
    )
}

pub open spec fn stamps_bytes(stamps: Seq<FileStamp>) -> Seq<u8>
    decreases stamps.len(),
{
    if stamps.len() == 0 {
        Seq::empty()
    } else {
        stamps_bytes(stamps.drop_last()) + stamp_bytes(stamps.len() - 1, stamps.last())
    }
}

pub open spec fn place_bytes(record: RecordPlace) -> Seq<u8> {
    u32_le(record.segment_id) + u32_le(0) + u64_le(record.start) + u64_le(record.offset) + u64_le(
        record.len,
    ) + state_bytes(record.ansi)
}

pub open spec fn places_bytes(records: Seq<RecordPlace>) -> Seq<u8>
    decreases records.len(),
{
    if records.len() == 0 {
        Seq::empty()
    } else {
        places_bytes(records.drop_last()) + place_bytes(records.last())
    }
}

pub open spec fn block_kind(ends: EndsModel) -> u8 {
    match ends {
        EndsModel::Narrow(_) => CACHE_BLOCK_NARROW,
        EndsModel::Wide(_) => CACHE_BLOCK_WIDE,
        EndsModel::Cold(_) => CACHE_BLOCK_COLD,
    }
}

pub open spec fn block_checksum(ends: EndsModel) -> u32 {
    match ends {
        EndsModel::Cold(cold) => cold.checksum,
        _ => crc32(ends_bytes(ends)),
    }
}

pub open spec fn block_offset(ends: EndsModel) -> u64 {
    match ends {
        EndsModel::Cold(cold) => cold.payload_offset,
        _ => 0,
    }
}

/// A block: what is known of it, and its ends unless they are in the store.
pub open spec fn block_bytes(block: BlockModel) -> Seq<u8> {
    u64_le(block.base) + u32_le(block.ends.count() as u32) + seq![
        ends_width(block.ends),
        block_kind(block.ends),
    ] + u16_le(0) + u64_le(block_offset(block.ends)) + u32_le(block_checksum(block.ends)) + u32_le(
        (block.ends.count() * ends_width(block.ends)) as u32,
    ) + ends_bytes(block.ends)
}

pub open spec fn blocks_bytes(blocks: Seq<BlockModel>) -> Seq<u8>
    decreases blocks.len(),
{
    if blocks.len() == 0 {
        Seq::empty()
    } else {
        blocks_bytes(blocks.drop_last()) + block_bytes(blocks.last())
    }
}

pub open spec fn last_sequence_code(last: Option<u64>) -> u64 {
    match last {
        Some(last) => last,
        None => u64::MAX,
    }
}

/// The store's stamp, with a length that no file has where there is none.
pub open spec fn store_code(store: Option<FileStamp>) -> FileStamp {
    match store {
        Some(stamp) => stamp,
        None => FileStamp { len: u64::MAX, modified_seconds: 0, modified_nanos: 0 },
    }
}

/// The numbers at the front of the image.
#[verifier::opaque]
pub open spec fn front_bytes(
    index: LineIndexModel,
    segments: int,
    store: Option<FileStamp>,
) -> Seq<u8> {
    let stamp = store_code(store);
    seq![0x43u8, 0x53u8, 0x49u8, 0x58u8] + u16_le(CACHE_VERSION) + u16_le(0) + u64_le(
        index.revision,
    ) + u64_le(index.logical_bytes) + u64_le(index.open_line_start) + u64_le(
        last_sequence_code(index.last_sequence),
    ) + u32_le(segments as u32) + u64_le(index.records.len() as u64) + u64_le(
        index.lines.len as u64,
    ) + u64_le(index.lines.blocks.len() as u64) + u64_le(stamp.len) + u64_le(stamp.modified_seconds)
        + u32_le(stamp.modified_nanos) + u32_le(0) + state_bytes(index.ansi)
}

/// The image without its checksum.
pub open spec fn image_bytes(
    index: LineIndexModel,
    segments: Seq<FileStamp>,
    store: Option<FileStamp>,
) -> Seq<u8> {
    front_bytes(index, segments.len() as int, store) + stamps_bytes(segments) + places_bytes(
        index.records,
    ) + blocks_bytes(index.lines.blocks)
}

/// The checkpoint of an index over `segments`, whose stored blocks are in a
/// store with stamp `store`.
pub open spec fn cache_bytes(
    index: LineIndexModel,
    segments: Seq<FileStamp>,
    store: Option<FileStamp>,
) -> Seq<u8> {
    let image = image_bytes(index, segments, store);
    image + u32_le(crc32(image))
}


// ---------------------------------------------------------------------------
// Reading the image.

/// The machine state that bytes encode, if any.
#[verifier::opaque]
pub open spec fn decoded_ansi(input: Seq<u8>) -> Option<AnsiModel> {
    if exists|state: AnsiModel| state.wf() && #[trigger] state_bytes(state) == input {
        Some(choose|state: AnsiModel| state.wf() && #[trigger] state_bytes(state) == input)
    } else {
        None
    }
}

pub proof fn lemma_decoded_ansi(state: AnsiModel)
    requires
        state.wf(),
    ensures
        decoded_ansi(state_bytes(state)) == Some(state),
{
    reveal(decoded_ansi);
    let input = state_bytes(state);
    let found = choose|found: AnsiModel| found.wf() && #[trigger] state_bytes(found) == input;
    law_state_bytes_injective(found, state);
}

fn decode_ansi(input: &[u8]) -> (state: Option<AnsiState>)
    ensures
        match state {
            Some(state) => state@.wf() && decoded_ansi(input@) == Some(state@),
            None => decoded_ansi(input@) is None,
        },
{
    let state = AnsiState::decode(input);
    proof {
        match state {
            Some(state) => lemma_decoded_ansi(state@),
            None => reveal(decoded_ansi),
        }
    }
    state
}

/// What the front of an image says.
pub struct Front {
    pub revision: u64,
    pub logical_bytes: u64,
    pub open_line_start: u64,
    pub last_sequence: u64,
    pub segments: u32,
    pub records: u64,
    pub lines: u64,
    pub blocks: u64,
    pub store: FileStamp,
    pub ansi: AnsiModel,
}

pub open spec fn front_marks(b: Seq<u8>) -> bool {
    &&& b[0] == 0x43
    &&& b[1] == 0x53
    &&& b[2] == 0x49
    &&& b[3] == 0x58
    &&& le_u16(b.skip(4)) == CACHE_VERSION
    &&& le_u16(b.skip(6)) == 0
    &&& le_u32(b.skip(88)) == 0
}

pub open spec fn front_of(b: Seq<u8>) -> Option<Front> {
    if front_marks(b) {
        match decoded_ansi(b.subrange(92, 172)) {
            Some(ansi) => Some(
                Front {
                    revision: le_u64(b.skip(8)),
                    logical_bytes: le_u64(b.skip(16)),
                    open_line_start: le_u64(b.skip(24)),
                    last_sequence: le_u64(b.skip(32)),
                    segments: le_u32(b.skip(40)),
                    records: le_u64(b.skip(44)),
                    lines: le_u64(b.skip(52)),
                    blocks: le_u64(b.skip(60)),
                    store: FileStamp {
                        len: le_u64(b.skip(68)),
                        modified_seconds: le_u64(b.skip(76)),
                        modified_nanos: le_u32(b.skip(84)),
                    },
                    ansi,
                },
            ),
            None => None,
        }
    } else {
        None
    }
}

/// The lines can be counted, and the image is long enough for everything that
/// the front announces.
pub open spec fn front_fits(front: Front, length: int) -> bool {
    front.lines < usize::MAX && CACHE_HEADER_BYTES + front.segments * CACHE_SEGMENT_BYTES + front.records * CACHE_RECORD_BYTES
        + front.blocks * CACHE_LINE_BLOCK_BYTES <= length
}

pub open spec fn stamp_at(b: Seq<u8>, at: int) -> FileStamp {
    FileStamp {
        len: le_u64(b.skip(at + 4)),
        modified_seconds: le_u64(b.skip(at + 12)),
        modified_nanos: le_u32(b.skip(at + 20)),
    }
}

/// Segment `id` is what it was when the image was made.
pub open spec fn segment_matches(b: Seq<u8>, id: int, stamp: FileStamp) -> bool {
    let at = CACHE_HEADER_BYTES + id * CACHE_SEGMENT_BYTES;
    le_u32(b.skip(at)) == id && stamp_at(b, at) == stamp
}

pub open spec fn segments_match(b: Seq<u8>, segments: Seq<FileStamp>) -> bool {
    forall|i: int| 0 <= i < segments.len() ==> #[trigger] segment_matches(b, i, segments[i])
}

pub open spec fn total_len(stamps: Seq<FileStamp>) -> int
    decreases stamps.len(),
{
    if stamps.len() == 0 {
        0
    } else {
        total_len(stamps.drop_last()) + stamps.last().len
    }
}

pub open spec fn place_at(b: Seq<u8>, at: int) -> Option<RecordPlace> {
    if le_u32(b.skip(at + 4)) != 0 {
        None
    } else {
        match decoded_ansi(b.subrange(at + 32, at + 112)) {
            Some(ansi) => Some(
                RecordPlace {
                    segment_id: le_u32(b.skip(at)),
                    start: le_u64(b.skip(at + 8)),
                    offset: le_u64(b.skip(at + 16)),
                    len: le_u64(b.skip(at + 24)),
                    ansi,
                },
            ),
            None => None,
        }
    }
}

/// The record's payload lies within its segment.
pub open spec fn place_ok(record: RecordPlace, segments: Seq<FileStamp>) -> bool {
    &&& record.segment_id < segments.len()
    &&& record.offset >= HEADER_SIZE
    &&& sat_add(record.offset as int, record.len as int) <= segments[record.segment_id as int].len
    &&& record.len <= MAX_RECORD_SIZE
}

pub open spec fn places_end(records: Seq<RecordPlace>) -> int {
    if records.len() == 0 {
        0
    } else {
        records.last().end()
    }
}

/// `count` records from `at` on, each beginning where the one before ends.
pub open spec fn places_at(b: Seq<u8>, at: int, count: int, segments: Seq<FileStamp>) -> Option<
    Seq<RecordPlace>,
>
    decreases count,
{
    if count <= 0 {
        Some(Seq::empty())
    } else {
        match places_at(b, at, count - 1, segments) {
            None => None,
            Some(before) => match place_at(b, at + (count - 1) * CACHE_RECORD_BYTES) {
                None => None,
                Some(record) => if record.start == places_end(before) && place_ok(record, segments) {
                    Some(before.push(record))
                } else {
                    None
                },
            },
        }
    }
}

/// Ends that grow and lie within the stream.
pub open spec fn ends_ok(ends: Seq<u64>, base: u64, logical_bytes: u64) -> bool {
    &&& forall|i: int, j: int| 0 <= i && j == i + 1 && j < ends.len() ==> #[trigger] ends[i]
        < #[trigger] ends[j]
    &&& ends.len() > 0
    &&& sat_add(base as int, ends.last() as int) < logical_bytes
}

#[verifier::opaque]
pub open spec fn narrow_of(payload: Seq<u8>) -> Seq<u32> {
    choose|ends: Seq<u32>| #[trigger] narrow_bytes(ends) == payload
}

#[verifier::opaque]
pub open spec fn wide_of(payload: Seq<u8>) -> Seq<u64> {
    choose|ends: Seq<u64>| #[trigger] wide_bytes(ends) == payload
}

pub proof fn lemma_narrow_of(ends: Seq<u32>)
    ensures
        narrow_of(narrow_bytes(ends)) == ends,
{
    reveal(narrow_of);
    lemma_narrow_bytes_injective(narrow_of(narrow_bytes(ends)), ends);
}

pub proof fn lemma_wide_of(ends: Seq<u64>)
    ensures
        wide_of(wide_bytes(ends)) == ends,
{
    reveal(wide_of);
    lemma_wide_bytes_injective(wide_of(wide_bytes(ends)), ends);
}

/// What is known of a block in front of its ends.
#[derive(Clone, Copy, Debug)]
pub struct BlockHead {
    pub base: u64,
    pub count: u32,
    pub width: u8,
    pub kind: u8,
    pub reserved: u16,
    pub offset: u64,
    pub checksum: u32,
    pub length: u32,
}

pub open spec fn block_head(b: Seq<u8>, at: int) -> BlockHead {
    BlockHead {
        base: le_u64(b.skip(at)),
        count: le_u32(b.skip(at + 8)),
        width: b[at + 12],
        kind: b[at + 13],
        reserved: le_u16(b.skip(at + 14)),
        offset: le_u64(b.skip(at + 16)),
        checksum: le_u32(b.skip(at + 24)),
        length: le_u32(b.skip(at + 28)),
    }
}

/// The limits that the blocks of an image are held against.
pub struct BlockLimits {
    pub lines: int,
    pub logical_bytes: u64,
    pub store_len: u64,
}

pub open spec fn head_ok(
    head: BlockHead,
    index: int,
    previous: Option<u64>,
    limits: BlockLimits,
) -> bool {
    &&& head.reserved == 0
    &&& head.count == block_count_at(limits.lines, index)
    &&& head.count > 0
    &&& (head.width == 4 || head.width == 8)
    &&& head.length == head.count * head.width
    &&& match previous {
        Some(base) => base < head.base,
        None => true,
    }
    &&& head.base < limits.logical_bytes
}

/// Block `index` of an image, with the place behind it.
pub open spec fn block_at(
    b: Seq<u8>,
    at: int,
    index: int,
    previous: Option<u64>,
    limits: BlockLimits,
) -> Option<(BlockModel, int)> {
    let head = block_head(b, at);
    let start = at + CACHE_LINE_BLOCK_BYTES;
    let next = start + head.length;
    let payload = b.subrange(start, next);
    if start > b.len() || !head_ok(head, index, previous, limits) {
        None
    } else if head.kind == CACHE_BLOCK_NARROW && head.width == 4 && head.offset == 0 {
        if next <= b.len() && crc32(payload) == head.checksum && ends_ok(
            EndsModel::Narrow(narrow_of(payload)).values(),
            head.base,
            limits.logical_bytes,
        ) {
            Some(
                (BlockModel { base: head.base, ends: EndsModel::Narrow(narrow_of(payload)) }, next),
            )
        } else {
            None
        }
    } else if head.kind == CACHE_BLOCK_WIDE && head.width == 8 && head.offset == 0 {
        if next <= b.len() && crc32(payload) == head.checksum && ends_ok(
            wide_of(payload),
            head.base,
            limits.logical_bytes,
        ) {
            Some((BlockModel { base: head.base, ends: EndsModel::Wide(wide_of(payload)) }, next))
        } else {
            None
        }
    } else if head.kind == CACHE_BLOCK_COLD && head.count == LINE_BLOCK_SIZE && head.offset
        >= LINE_BLOCK_HEADER_BYTES && sat_add(head.offset as int, head.length as int)
        <= limits.store_len {
        Some(
            (
                BlockModel {
                    base: head.base,
                    ends: EndsModel::Cold(
                        ColdLineBlock {
                            block_id: index as u64,
                            logical_base: head.base,
                            payload_offset: head.offset,
                            count: head.count as usize,
                            width: head.width,
                            checksum: head.checksum,
                        },
                    ),
                },
                start,
            ),
        )
    } else {
        None
    }
}

pub open spec fn last_base(blocks: Seq<BlockModel>) -> Option<u64> {
    if blocks.len() == 0 {
        None
    } else {
        Some(blocks.last().base)
    }
}

/// `count` blocks from `at` on, with the place behind them.
pub open spec fn blocks_at(b: Seq<u8>, at: int, count: int, limits: BlockLimits) -> Option<
    (Seq<BlockModel>, int),
>
    decreases count,
{
    if count <= 0 {
        Some((Seq::empty(), at))
    } else {
        match blocks_at(b, at, count - 1, limits) {
            None => None,
            Some((before, place)) => match block_at(b, place, count - 1, last_base(before), limits) {
                None => None,
                Some((block, next)) => Some((before.push(block), next)),
            },
        }
    }
}

/// The store that the image was made with is still there.
pub open spec fn store_matches(code: FileStamp, store: Option<FileStamp>) -> bool {
    code.len == u64::MAX || store == Some(code)
}

pub open spec fn store_len(code: FileStamp) -> u64 {
    if code.len == u64::MAX {
        0
    } else {
        code.len
    }
}

pub open spec fn any_cold(blocks: Seq<BlockModel>) -> bool {
    exists|i: int| 0 <= i < blocks.len() && (#[trigger] blocks[i]).ends is Cold
}

pub open spec fn sequence_of(code: u64) -> Option<u64> {
    if code == u64::MAX {
        None
    } else {
        Some(code)
    }
}

/// Records are numbered from zero without gaps.
pub open spec fn expected_last_sequence(records: int) -> Option<u64> {
    if records == 0 {
        None
    } else {
        Some((records - 1) as u64)
    }
}

/// What reading a checkpoint comes to, apart from where the open line begins.
pub enum CacheReading {
    Refused,
    SegmentMissing(u32),
    Index(LineIndexModel),
}

/// The index that the tables behind the front describe.
pub open spec fn tables_of(
    b: Seq<u8>,
    front: Front,
    segments: Seq<FileStamp>,
    store: Option<FileStamp>,
) -> Option<LineIndexModel> {
    let records_start = CACHE_HEADER_BYTES + front.segments * CACHE_SEGMENT_BYTES;
    let blocks_start = records_start + front.records * CACHE_RECORD_BYTES;
    let limits = BlockLimits {
        lines: front.lines as int,
        logical_bytes: front.logical_bytes,
        store_len: store_len(front.store),
    };
    if !segments_match(b, segments) {
        None
    } else {
        match places_at(b, records_start, front.records as int, segments) {
            None => None,
            Some(records) => if places_end(records) != front.logical_bytes || total_len(segments)
                != front.revision || !store_matches(front.store, store) || front.blocks
                != blocks_needed(front.lines as int) {
                None
            } else {
                match blocks_at(b, blocks_start, front.blocks as int, limits) {
                    None => None,
                    Some((blocks, end)) => if end != b.len() || (any_cold(blocks)
                        && front.store.len == u64::MAX) || sequence_of(front.last_sequence)
                        != expected_last_sequence(records.len() as int) || front.open_line_start
                        > front.logical_bytes {
                        None
                    } else {
                        Some(
                            LineIndexModel {
                                revision: front.revision,
                                logical_bytes: front.logical_bytes,
                                open_line_start: front.open_line_start,
                                last_sequence: sequence_of(front.last_sequence),
                                records,
                                lines: IndexModel {
                                    blocks,
                                    len: front.lines as int,
                                    stored: true,
                                    next_store_offset: store_len(front.store),
                                },
                                fault: None,
                                ansi: front.ansi,
                            },
                        )
                    },
                }
            },
        }
    }
}

/// What a checkpoint says of `segments` and of a store with stamp `store`.
pub open spec fn read_cache(
    bytes: Seq<u8>,
    segments: Seq<FileStamp>,
    store: Option<FileStamp>,
) -> CacheReading {
    let b = bytes.take(bytes.len() - 4);
    if bytes.len() < CACHE_HEADER_BYTES + 4 || bytes.len() > MAX_CACHE_BYTES || le_u32(
        bytes.skip(bytes.len() - 4),
    ) != crc32(b) {
        CacheReading::Refused
    } else {
        match front_of(b) {
            None => CacheReading::Refused,
            Some(front) => if !front_fits(front, b.len() as int) {
                CacheReading::Refused
            } else if front.segments > segments.len() {
                CacheReading::SegmentMissing(segments.len() as u32)
            } else if front.segments < segments.len() {
                CacheReading::Refused
            } else {
                match tables_of(b, front, segments, store) {
                    None => CacheReading::Refused,
                    Some(index) => CacheReading::Index(index),
                }
            },
        }
    }
}


// ---------------------------------------------------------------------------
// The reader.

/// What `tables_of` and well-formedness need of the numbers at the front.
struct FrontNumbers {
    revision: u64,
    logical_bytes: u64,
    open_line_start: u64,
    last_sequence: u64,
    segments: usize,
    records: usize,
    lines: usize,
    blocks: usize,
    store: FileStamp,
    ansi: AnsiState,
}

spec fn same_front(numbers: FrontNumbers, front: Front) -> bool {
    &&& numbers.revision == front.revision
    &&& numbers.logical_bytes == front.logical_bytes
    &&& numbers.open_line_start == front.open_line_start
    &&& numbers.last_sequence == front.last_sequence
    &&& numbers.segments == front.segments
    &&& numbers.records == front.records
    &&& numbers.lines == front.lines
    &&& numbers.lines < usize::MAX
    &&& numbers.blocks == front.blocks
    &&& numbers.store == front.store
    &&& numbers.ansi@ == front.ansi
    &&& numbers.ansi@.wf()
}

/// Reads the front of an image, if it is one that can be held in memory.
fn read_front(b: &[u8]) -> (numbers: Option<FrontNumbers>)
    requires
        b@.len() >= CACHE_HEADER_BYTES,
    ensures
        match numbers {
            Some(numbers) => match front_of(b@) {
                Some(front) => same_front(numbers, front),
                None => false,
            },
            None => match front_of(b@) {
                Some(front) => front.records > usize::MAX || front.lines >= usize::MAX
                    || front.blocks > usize::MAX,
                None => true,
            },
        },
{
    if b[0] != 0x43 || b[1] != 0x53 || b[2] != 0x49 || b[3] != 0x58 || read_u16(b, 4)
        != CACHE_VERSION || read_u16(b, 6) != 0 || read_u32(b, 88) != 0 {
        return None;
    }
    let ansi = match decode_ansi(vstd::slice::slice_subrange(b, 92, 172)) {
        Some(ansi) => ansi,
        None => return None,
    };
    let records: u64 = read_u64(b, 44);
    let lines: u64 = read_u64(b, 52);
    let blocks: u64 = read_u64(b, 60);
    if records > usize::MAX as u64 || lines >= usize::MAX as u64 || blocks > usize::MAX as u64 {
        return None;
    }
    Some(
        FrontNumbers {
            revision: read_u64(b, 8),
            logical_bytes: read_u64(b, 16),
            open_line_start: read_u64(b, 24),
            last_sequence: read_u64(b, 32),
            segments: read_u32(b, 40) as usize,
            records: records as usize,
            lines: lines as usize,
            blocks: blocks as usize,
            store: FileStamp {
                len: read_u64(b, 68),
                modified_seconds: read_u64(b, 76),
                modified_nanos: read_u32(b, 84),
            },
            ansi,
        },
    )
}

/// Holds the segments against their stamps in the image and adds up their
/// lengths.
fn check_segments(cursor: &mut CacheCursor<'_>, segments: &Vec<FileStamp>) -> (total: Option<u64>)
    requires
        old(cursor).wf(),
        old(cursor).position == CACHE_HEADER_BYTES,
        CACHE_HEADER_BYTES + segments@.len() * CACHE_SEGMENT_BYTES <= old(cursor).bytes@.len(),
    ensures
        final(cursor).bytes == old(cursor).bytes,
        match total {
            Some(total) => segments_match(old(cursor).bytes@, segments@) && total == total_len(
                segments@,
            ) && final(cursor).wf() && final(cursor).position == CACHE_HEADER_BYTES
                + segments@.len() * CACHE_SEGMENT_BYTES,
            None => !segments_match(old(cursor).bytes@, segments@) || total_len(segments@)
                > u64::MAX,
        },
{
    let ghost b = cursor.bytes@;
    let mut total: u64 = 0;
    let mut index: usize = 0;
    assert(segments@.take(0) =~= Seq::empty());
    while index < segments.len()
        invariant
            index <= segments@.len(),
            cursor.wf(),
            cursor.bytes == old(cursor).bytes,
            b == cursor.bytes@,
            cursor.position == CACHE_HEADER_BYTES + index * CACHE_SEGMENT_BYTES,
            CACHE_HEADER_BYTES + segments@.len() * CACHE_SEGMENT_BYTES <= b.len(),
            total == total_len(segments@.take(index as int)),
            forall|i: int| 0 <= i < index ==> #[trigger] segment_matches(b, i, segments@[i]),
        decreases segments@.len() - index,
    {
        let ghost at = cursor.position as int;
        let stamp = segments[index];
        let (id, len, seconds, nanos) = (cursor.u32(), cursor.u64(), cursor.u64(), cursor.u32());
        match (id, len, seconds, nanos) {
            (Some(id), Some(len), Some(seconds), Some(nanos)) => {
                if id as usize != index || len != stamp.len || seconds != stamp.modified_seconds
                    || nanos != stamp.modified_nanos {
                    proof {
                        assert(!segment_matches(b, index as int, segments@[index as int]));
                    }
                    return None;
                }
            },
            _ => {
                assert(false);
                return None;
            },
        }
        proof {
            assert(segments@.take(index + 1).drop_last() =~= segments@.take(index as int));
            assert(segment_matches(b, index as int, segments@[index as int]));
        }
        match total.checked_add(stamp.len) {
            Some(sum) => total = sum,
            None => {
                proof {
                    lemma_total_grows(segments@, index + 1);
                }
                return None;
            },
        }
        index += 1;
    }
    assert(segments@.take(segments@.len() as int) =~= segments@);
    Some(total)
}

proof fn lemma_total_grows(stamps: Seq<FileStamp>, count: int)
    requires
        0 <= count <= stamps.len(),
    ensures
        total_len(stamps.take(count)) <= total_len(stamps),
    decreases stamps.len(),
{
    if count == stamps.len() {
        assert(stamps.take(count) =~= stamps);
    } else {
        assert(stamps.drop_last().take(count) =~= stamps.take(count));
        lemma_total_grows(stamps.drop_last(), count);
    }
}

proof fn lemma_places_stop(
    b: Seq<u8>,
    at: int,
    count: int,
    total: int,
    segments: Seq<FileStamp>,
)
    requires
        count <= total,
        places_at(b, at, count, segments) is None,
    ensures
        places_at(b, at, total, segments) is None,
    decreases total - count,
{
    if count < total {
        lemma_places_stop(b, at, count, total - 1, segments);
    }
}

fn read_record(cursor: &mut CacheCursor<'_>) -> (record: Option<RecordLocation>)
    requires
        old(cursor).wf(),
        old(cursor).position + CACHE_RECORD_BYTES <= old(cursor).bytes@.len(),
    ensures
        final(cursor).bytes == old(cursor).bytes,
        match record {
            Some(record) => place_at(old(cursor).bytes@, old(cursor).position as int) == Some(
                record@,
            ) && record@.ansi.wf() && final(cursor).moved(
                *old(cursor),
                CACHE_RECORD_BYTES as int,
            ),
            None => place_at(old(cursor).bytes@, old(cursor).position as int) is None,
        },
{
    let ghost b = cursor.bytes@;
    let ghost at = cursor.position as int;
    let (segment_id, reserved) = (cursor.u32(), cursor.u32());
    let (start, offset, len) = (cursor.u64(), cursor.u64(), cursor.u64());
    let state = cursor.take(ANSI_STATE_BYTES);
    match (segment_id, reserved, start, offset, len, state) {
        (
            Some(segment_id),
            Some(reserved),
            Some(logical_start),
            Some(payload_file_offset),
            Some(payload_len),
            Some(state),
        ) => {
            assert(state@ =~= b.subrange(at + 32, at + 112));
            if reserved != 0 {
                return None;
            }
            match decode_ansi(state) {
                Some(ansi_state) => Some(
                    RecordLocation {
                        segment_id,
                        logical_start,
                        payload_file_offset,
                        payload_len,
                        ansi_state,
                    },
                ),
                None => None,
            }
        },
        _ => {
            assert(false);
            None
        },
    }
}

/// Reads the table of records.
fn read_records(cursor: &mut CacheCursor<'_>, count: usize, segments: &Vec<FileStamp>) -> (
    records: Option<Vec<RecordLocation>>)
    requires
        old(cursor).wf(),
        old(cursor).position + count * CACHE_RECORD_BYTES <= old(cursor).bytes@.len(),
    ensures
        final(cursor).bytes == old(cursor).bytes,
        match records {
            Some(records) => places_at(
                old(cursor).bytes@,
                old(cursor).position as int,
                count as int,
                segments@,
            ) == Some(place_views(records@)) && records@.len() == count && records_in_order(
                place_views(records@),
                places_end(place_views(records@)),
            ) && final(cursor).moved(*old(cursor), count * CACHE_RECORD_BYTES),
            None => places_at(
                old(cursor).bytes@,
                old(cursor).position as int,
                count as int,
                segments@,
            ) is None,
        },
{
    let ghost b = cursor.bytes@;
    let ghost at = cursor.position as int;
    let mut records: Vec<RecordLocation> = Vec::new();
    let mut expected: u64 = 0;
    let mut index: usize = 0;
    assert(place_views(records@) =~= Seq::empty());
    while index < count
        invariant
            index <= count,
            cursor.moved(*old(cursor), index * CACHE_RECORD_BYTES),
            b == cursor.bytes@,
            at == old(cursor).position,
            at + count * CACHE_RECORD_BYTES <= b.len(),
            records@.len() == index,
            places_at(b, at, index as int, segments@) == Some(place_views(records@)),
            expected == places_end(place_views(records@)),
            records_in_order(place_views(records@), expected as int),
        decreases count - index,
    {
        let ghost before = place_views(records@);
        let record = match read_record(cursor) {
            Some(record) => record,
            None => {
                proof {
                    lemma_places_stop(b, at, index + 1, count as int, segments@);
                }
                return None;
            },
        };
        let id: usize = record.segment_id as usize;
        if record.logical_start != expected || id >= segments.len() || record.payload_file_offset
            < HEADER_SIZE as u64 || record.payload_file_offset.saturating_add(record.payload_len)
            > segments[id].len || record.payload_len > MAX_RECORD_SIZE as u64 {
            proof {
                assert(!(record@.start == places_end(before) && place_ok(record@, segments@)));
                lemma_places_stop(b, at, index + 1, count as int, segments@);
            }
            return None;
        }
        expected = expected.saturating_add(record.payload_len);
        records.push(record);
        proof {
            let after = place_views(records@);
            assert(after =~= before.push(record@));
            assert forall|i: int, j: int| 0 <= i && j == i + 1 && j < after.len() implies (
            #[trigger] after[i]).end() == (#[trigger] after[j]).start by {
                assert(after[i] == before[i]);
                if j < before.len() {
                    assert(after[j] == before[j]);
                }
            }
            assert forall|i: int| 0 <= i < after.len() implies (#[trigger] after[i]).ansi.wf() by {
                if i < before.len() {
                    assert(after[i] == before[i]);
                }
            }
            if before.len() > 0 {
                assert(after[0] == before[0]);
            }
        }
        index += 1;
    }
    Some(records)
}


pub fn valid_relative_ends_u32(values: &Vec<u32>, logical_base: u64, logical_bytes: u64) -> (ok: bool)
    ensures
        ok == ends_ok(EndsModel::Narrow(values@).values(), logical_base, logical_bytes),
{
    let ghost ends = EndsModel::Narrow(values@).values();
    let count: usize = values.len();
    if count == 0 {
        return false;
    }
    let mut index: usize = 1;
    while index < count
        invariant
            1 <= index <= count,
            count == values@.len(),
            ends == EndsModel::Narrow(values@).values(),
            forall|i: int, j: int| 0 <= i && j == i + 1 && j < index ==> #[trigger] ends[i]
                < #[trigger] ends[j],
        decreases count - index,
    {
        if values[index - 1] >= values[index] {
            assert(ends[index - 1] >= ends[index as int]);
            return false;
        }
        index += 1;
    }
    logical_base.saturating_add(values[count - 1] as u64) < logical_bytes
}

pub fn valid_relative_ends_u64(values: &Vec<u64>, logical_base: u64, logical_bytes: u64) -> (ok: bool)
    ensures
        ok == ends_ok(values@, logical_base, logical_bytes),
{
    let count: usize = values.len();
    if count == 0 {
        return false;
    }
    let mut index: usize = 1;
    while index < count
        invariant
            1 <= index <= count,
            count == values@.len(),
            forall|i: int, j: int| 0 <= i && j == i + 1 && j < index ==> #[trigger] values@[i]
                < #[trigger] values@[j],
        decreases count - index,
    {
        if values[index - 1] >= values[index] {
            assert(values@[index - 1] >= values@[index as int]);
            return false;
        }
        index += 1;
    }
    logical_base.saturating_add(values[count - 1]) < logical_bytes
}

/// Reads what stands in front of a block's ends.
fn read_block_head(cursor: &mut CacheCursor<'_>) -> (head: BlockHead)
    requires
        old(cursor).wf(),
        old(cursor).position + CACHE_LINE_BLOCK_BYTES <= old(cursor).bytes@.len(),
    ensures
        head == block_head(old(cursor).bytes@, old(cursor).position as int),
        final(cursor).moved(*old(cursor), CACHE_LINE_BLOCK_BYTES as int),
{
    let at: usize = cursor.position;
    let bytes = cursor.bytes;
    assert(at + CACHE_LINE_BLOCK_BYTES <= bytes.len());
    let head = BlockHead {
        base: read_u64(bytes, at),
        count: read_u32(bytes, at + 8),
        width: bytes[at + 12],
        kind: bytes[at + 13],
        reserved: read_u16(bytes, at + 14),
        offset: read_u64(bytes, at + 16),
        checksum: read_u32(bytes, at + 24),
        length: read_u32(bytes, at + 28),
    };
    cursor.position = at + CACHE_LINE_BLOCK_BYTES;
    head
}

/// Reads one block of the table of blocks.
fn read_block(
    cursor: &mut CacheCursor<'_>,
    index: usize,
    expected_count: usize,
    previous: Option<u64>,
    logical_bytes: u64,
    store_len: u64,
    Ghost(limits): Ghost<BlockLimits>,
) -> (block: Option<LineBlock>)
    requires
        old(cursor).wf(),
        expected_count == block_count_at(limits.lines, index as int),
        limits.logical_bytes == logical_bytes,
        limits.store_len == store_len,
    ensures
        final(cursor).bytes == old(cursor).bytes,
        final(cursor).wf(),
        match block {
            Some(block) => block_at(
                old(cursor).bytes@,
                old(cursor).position as int,
                index as int,
                previous,
                limits,
            ) == Some((block@, final(cursor).position as int)) && block_wf(
                block@,
                limits.lines,
                index as int,
            ),
            None => block_at(
                old(cursor).bytes@,
                old(cursor).position as int,
                index as int,
                previous,
                limits,
            ) is None,
        },
{
    let ghost b = cursor.bytes@;
    let ghost at = cursor.position as int;
    let ghost head = block_head(b, at);
    if cursor.remaining() < CACHE_LINE_BLOCK_BYTES {
        return None;
    }
    let BlockHead { base, count, width, kind, reserved, offset, checksum, length } =
        read_block_head(cursor);
    let ordered = match previous {
        Some(previous) => previous < base,
        None => true,
    };
    if reserved != 0 || count as usize != expected_count || count == 0 || (width != 4 && width != 8)
        || !ordered || base >= logical_bytes {
        return None;
    }
    let expected_length: u64 = if width == 4 {
        count as u64 * 4
    } else {
        count as u64 * 8
    };
    assert(expected_length == count * width);
    if length as u64 != expected_length {
        return None;
    }
    if kind == CACHE_BLOCK_NARROW && width == 4 && offset == 0 {
        let payload = match cursor.take(length as usize) {
            Some(payload) => payload,
            None => return None,
        };
        assert(payload@ =~= b.subrange(at + 32, at + 32 + length));
        if crc32fast::hash(payload) != checksum {
            return None;
        }
        let values = read_narrow(payload);
        proof {
            lemma_narrow_of(values@);
        }
        if !valid_relative_ends_u32(&values, base, logical_bytes) {
            return None;
        }
        Some(LineBlock { logical_base: base, ends: LineBlockEnds::Narrow(values) })
    } else if kind == CACHE_BLOCK_WIDE && width == 8 && offset == 0 {
        let payload = match cursor.take(length as usize) {
            Some(payload) => payload,
            None => return None,
        };
        assert(payload@ =~= b.subrange(at + 32, at + 32 + length));
        if crc32fast::hash(payload) != checksum {
            return None;
        }
        let values = read_wide(payload);
        proof {
            lemma_wide_of(values@);
        }
        if !valid_relative_ends_u64(&values, base, logical_bytes) {
            return None;
        }
        Some(LineBlock { logical_base: base, ends: LineBlockEnds::Wide(values) })
    } else if kind == CACHE_BLOCK_COLD && count as usize == LINE_BLOCK_SIZE && offset
        >= LINE_BLOCK_HEADER_BYTES as u64 && offset.saturating_add(length as u64) <= store_len {
        Some(
            LineBlock {
                logical_base: base,
                ends: LineBlockEnds::Cold(
                    ColdLineBlock {
                        block_id: index as u64,
                        logical_base: base,
                        payload_offset: offset,
                        count: count as usize,
                        width,
                        checksum,
                    },
                ),
            },
        )
    } else {
        None
    }
}

proof fn lemma_blocks_stop(b: Seq<u8>, at: int, count: int, total: int, limits: BlockLimits)
    requires
        count <= total,
        blocks_at(b, at, count, limits) is None,
    ensures
        blocks_at(b, at, total, limits) is None,
    decreases total - count,
{
    if count < total {
        lemma_blocks_stop(b, at, count, total - 1, limits);
    }
}

impl BlockedLineIndex {
    /// Reads the table of blocks of a directory of `line_count` lines.
    pub fn decode_cache_blocks(
        cursor: &mut CacheCursor<'_>,
        store_len: u64,
        line_count: usize,
        block_count: usize,
        logical_bytes: u64,
    ) -> (index: Option<Self>)
        requires
            old(cursor).wf(),
        ensures
            final(cursor).bytes == old(cursor).bytes,
            final(cursor).wf(),
            ({
                let limits = BlockLimits { lines: line_count as int, logical_bytes, store_len };
                let found = blocks_at(
                    old(cursor).bytes@,
                    old(cursor).position as int,
                    block_count as int,
                    limits,
                );
                match index {
                    Some(index) => {
                        &&& block_count == blocks_needed(line_count as int)
                        &&& found == Some((index@.blocks, final(cursor).position as int))
                        &&& index@ == (IndexModel {
                            blocks: index@.blocks,
                            len: line_count as int,
                            stored: true,
                            next_store_offset: store_len,
                        })
                        &&& index@.wf()
                    },
                    None => block_count != blocks_needed(line_count as int) || found is None,
                }
            }),
    {
        let needed: usize = line_count / LINE_BLOCK_SIZE + if line_count % LINE_BLOCK_SIZE == 0 {
            0
        } else {
            1
        };
        assert(needed == blocks_needed(line_count as int));
        if block_count != needed {
            return None;
        }
        let ghost limits = BlockLimits { lines: line_count as int, logical_bytes, store_len };
        let ghost b = cursor.bytes@;
        let ghost at = cursor.position as int;
        let mut blocks: Vec<LineBlock> = Vec::new();
        let mut left: usize = line_count;
        let mut previous: Option<u64> = None;
        let mut index: usize = 0;
        assert(crate::line_blocks::block_views(blocks@) =~= Seq::empty());
        while index < block_count
            invariant
                index <= block_count,
                block_count == blocks_needed(line_count as int),
                cursor.wf(),
                cursor.bytes == old(cursor).bytes,
                b == cursor.bytes@,
                at == old(cursor).position,
                limits == (BlockLimits { lines: line_count as int, logical_bytes, store_len }),
                blocks@.len() == index,
                left == if index < block_count {
                    line_count - index * LINE_BLOCK_SIZE
                } else {
                    0
                },
                previous == last_base(crate::line_blocks::block_views(blocks@)),
                blocks_at(b, at, index as int, limits) == Some(
                    (crate::line_blocks::block_views(blocks@), cursor.position as int),
                ),
                forall|i: int|
                    0 <= i < index ==> block_wf(
                        #[trigger] crate::line_blocks::block_views(blocks@)[i],
                        line_count as int,
                        i,
                    ),
            decreases block_count - index,
        {
            let expected: usize = if left < LINE_BLOCK_SIZE {
                left
            } else {
                LINE_BLOCK_SIZE
            };
            let ghost before = crate::line_blocks::block_views(blocks@);
            let block = match read_block(
                cursor,
                index,
                expected,
                previous,
                logical_bytes,
                store_len,
                Ghost(limits),
            ) {
                Some(block) => block,
                None => {
                    proof {
                        lemma_blocks_stop(b, at, index + 1, block_count as int, limits);
                    }
                    return None;
                },
            };
            previous = Some(block.logical_base);
            blocks.push(block);
            proof {
                let after = crate::line_blocks::block_views(blocks@);
                assert(after =~= before.push(block@));
                assert forall|i: int| 0 <= i < index + 1 implies block_wf(
                    #[trigger] after[i],
                    line_count as int,
                    i,
                ) by {
                    if i < index {
                        assert(after[i] == before[i]);
                    }
                }
            }
            left = left - expected;
            index += 1;
        }
        let index = BlockedLineIndex {
            blocks,
            len: line_count,
            stored: true,
            next_store_offset: store_len,
        };
        proof {
            reveal(IndexModel::wf);
        }
        Some(index)
    }

    /// Where the last line ends, unless the last block is in the store.
    pub fn last_end(&self) -> (end: Result<Option<u64>, ColdLineBlock>)
        ensures
            match end {
                Ok(end) => end == last_end_of(self@.blocks, Seq::empty()) && !(self@.blocks.len() > 0
                    && self@.blocks.last().ends is Cold),
                Err(cold) => self@.blocks.len() > 0 && self@.blocks.last().ends == EndsModel::Cold(
                    cold,
                ),
            },
    {
        let count: usize = self.blocks.len();
        if count == 0 {
            return Ok(None);
        }
        let block = &self.blocks[count - 1];
        assert(self@.blocks.last() == block@);
        match &block.ends {
            LineBlockEnds::Narrow(ends) => if ends.len() == 0 {
                Ok(None)
            } else {
                Ok(Some(block.logical_base.saturating_add(ends[ends.len() - 1] as u64)))
            },
            LineBlockEnds::Wide(ends) => if ends.len() == 0 {
                Ok(None)
            } else {
                Ok(Some(block.logical_base.saturating_add(ends[ends.len() - 1])))
            },
            LineBlockEnds::Cold(cold) => Err(*cold),
        }
    }
}

/// Where the last line ends; `loaded` are the ends of a last block that is in
/// the store.
pub open spec fn last_end_of(blocks: Seq<BlockModel>, loaded: Seq<u64>) -> Option<u64> {
    if blocks.len() == 0 {
        None
    } else {
        let ends = if blocks.last().ends is Cold {
            loaded
        } else {
            blocks.last().ends.values()
        };
        if ends.len() == 0 {
            None
        } else {
            Some(sat_add(blocks.last().base as int, ends.last() as int) as u64)
        }
    }
}

/// The open line begins behind the newline of the last complete one.
pub open spec fn open_line_ok(index: LineIndexModel, loaded: Seq<u64>) -> bool {
    index.open_line_start == match last_end_of(index.lines.blocks, loaded) {
        Some(end) => sat_add(end as int, 1),
        None => 0,
    }
}

pub open spec fn last_block_stored(index: LineIndexModel) -> bool {
    index.lines.blocks.len() > 0 && index.lines.blocks.last().ends is Cold
}

/// What became of a checkpoint.
#[derive(Debug)]
pub enum CacheLoad {
    /// It cannot be used; the journal has to be read.
    Refused,
    /// It can be used.
    Usable(JournalLineIndexState),
    /// It can be used if the last block, which is in the store, ends where
    /// the open line begins.
    CheckLastBlock(JournalLineIndexState, ColdLineBlock),
}

/// Reads a checkpoint of an index over `segments`, given the stamp of the
/// store, if there is one.
pub fn load_segmented_cache(
    bytes: &[u8],
    segments: &Vec<FileStamp>,
    store: Option<FileStamp>,
) -> (load: Result<CacheLoad, JournalError>)
    ensures
        match read_cache(bytes@, segments@, store) {
            CacheReading::Refused => load matches Ok(CacheLoad::Refused),
            CacheReading::SegmentMissing(id) => load matches Err(
                JournalError::MissingSegment { segment_id },
            ) && segment_id == id,
            CacheReading::Index(index) => if last_block_stored(index) {
                load matches Ok(CacheLoad::CheckLastBlock(state, cold)) && state@ == index
                    && state@.lines.blocks.last().ends == EndsModel::Cold(cold)
            } else if open_line_ok(index, Seq::empty()) {
                load matches Ok(CacheLoad::Usable(state)) && state@ == index
            } else {
                load matches Ok(CacheLoad::Refused)
            },
        },
        match load {
            Ok(CacheLoad::Usable(state)) => state@.wf(),
            Ok(CacheLoad::CheckLastBlock(state, _)) => state@.wf(),
            _ => true,
        },
{
    let length: usize = bytes.len();
    if length < CACHE_HEADER_BYTES + 4 || length as u64 > MAX_CACHE_BYTES {
        return Ok(CacheLoad::Refused);
    }
    let image = vstd::slice::slice_subrange(bytes, 0, length - 4);
    let ghost b = image@;
    assert(b =~= bytes@.take(bytes@.len() - 4));
    if read_u32(bytes, length - 4) != crc32fast::hash(image) {
        return Ok(CacheLoad::Refused);
    }
    let front = match read_front(image) {
        Some(front) => front,
        None => {
            assert(b.len() == image.len());
            return Ok(CacheLoad::Refused);
        },
    };
    let wanted: u128 = CACHE_HEADER_BYTES as u128 + front.segments as u128
        * CACHE_SEGMENT_BYTES as u128 + front.records as u128 * CACHE_RECORD_BYTES as u128
        + front.blocks as u128 * CACHE_LINE_BLOCK_BYTES as u128;
    if wanted > image.len() as u128 {
        return Ok(CacheLoad::Refused);
    }
    if front.segments > segments.len() {
        return Err(JournalError::MissingSegment { segment_id: segments.len() as u32 });
    }
    if front.segments < segments.len() {
        return Ok(CacheLoad::Refused);
    }
    let mut cursor = CacheCursor { bytes: image, position: CACHE_HEADER_BYTES };
    let total: u64 = match check_segments(&mut cursor, segments) {
        Some(total) => total,
        None => return Ok(CacheLoad::Refused),
    };
    let records = match read_records(&mut cursor, front.records, segments) {
        Some(records) => records,
        None => return Ok(CacheLoad::Refused),
    };
    let count: usize = records.len();
    let reached: u64 = if count == 0 {
        0
    } else {
        records[count - 1].logical_end()
    };
    assert(count > 0 ==> place_views(records@).last() == records@[count - 1]@);
    let stored_at: u64 = if front.store.len == u64::MAX {
        0
    } else {
        front.store.len
    };
    let store_is_there = front.store.len == u64::MAX || match store {
        Some(stamp) => stamp == front.store,
        None => false,
    };
    if reached != front.logical_bytes || total != front.revision || !store_is_there {
        return Ok(CacheLoad::Refused);
    }
    let completed_lines = match BlockedLineIndex::decode_cache_blocks(
        &mut cursor,
        stored_at,
        front.lines,
        front.blocks,
        front.logical_bytes,
    ) {
        Some(lines) => lines,
        None => return Ok(CacheLoad::Refused),
    };
    if cursor.remaining() != 0 || (front.store.len == u64::MAX
        && completed_lines.has_cold_blocks()) {
        return Ok(CacheLoad::Refused);
    }
    let last_sequence: Option<u64> = if front.last_sequence == u64::MAX {
        None
    } else {
        Some(front.last_sequence)
    };
    let expected: Option<u64> = if count == 0 {
        None
    } else {
        Some((count - 1) as u64)
    };
    if last_sequence != expected || front.open_line_start > front.logical_bytes {
        return Ok(CacheLoad::Refused);
    }
    let state = JournalLineIndexState {
        revision: front.revision,
        logical_bytes: front.logical_bytes,
        open_line_start: front.open_line_start,
        last_sequence,
        records,
        completed_lines,
        integrity_error: None,
        ansi_state: front.ansi,
    };
    proof {
        let parsed = front_of(b).unwrap();
        let index = tables_of(b, parsed, segments@, store);
        assert(index is Some);
        assert(state@ =~= index.unwrap());
    }
    match state.completed_lines.last_end() {
        Err(cold) => Ok(CacheLoad::CheckLastBlock(state, cold)),
        Ok(end) => {
            let expected_start: u64 = match end {
                Some(end) => end.saturating_add(1),
                None => 0,
            };
            if state.open_line_start == expected_start {
                Ok(CacheLoad::Usable(state))
            } else {
                Ok(CacheLoad::Refused)
            }
        },
    }
}

/// Whether a checkpoint can be used whose last block, read from the store,
/// holds `ends`.
pub fn confirm_last_block(state: &JournalLineIndexState, ends: &Vec<u64>) -> (usable: bool)
    requires
        last_block_stored(state@),
    ensures
        usable == open_line_ok(state@, ends@),
{
    let count: usize = state.completed_lines.blocks.len();
    assert(state@.lines.blocks.last() == state.completed_lines.blocks@[count - 1]@);
    let base: u64 = state.completed_lines.blocks[count - 1].logical_base;
    let expected: u64 = if ends.len() == 0 {
        0
    } else {
        base.saturating_add(ends[ends.len() - 1]).saturating_add(1)
    };
    state.open_line_start == expected
}


// ---------------------------------------------------------------------------
// The writer.

fn push_stamps(out: &mut Vec<u8>, segments: &Vec<FileStamp>)
    requires
        segments@.len() <= u32::MAX,
    ensures
        final(out)@ == old(out)@ + stamps_bytes(segments@),
{
    let mut index: usize = 0;
    assert(segments@.take(0) =~= Seq::empty());
    assert(out@ + Seq::<u8>::empty() =~= out@);
    while index < segments.len()
        invariant
            index <= segments@.len() <= u32::MAX,
            out@ == old(out)@ + stamps_bytes(segments@.take(index as int)),
        decreases segments@.len() - index,
    {
        let stamp = segments[index];
        push_u32(out, index as u32);
        push_u64(out, stamp.len);
        push_u64(out, stamp.modified_seconds);
        push_u32(out, stamp.modified_nanos);
        proof {
            assert(segments@.take(index + 1).drop_last() =~= segments@.take(index as int));
            let before = stamps_bytes(segments@.take(index as int));
            assert(out@ =~= old(out)@ + (before + stamp_bytes(index as int, stamp)));
        }
        index += 1;
    }
    assert(segments@.take(segments@.len() as int) =~= segments@);
}

fn push_places(out: &mut Vec<u8>, records: &Vec<RecordLocation>)
    requires
        forall|i: int| 0 <= i < records@.len() ==> (#[trigger] records@[i]).ansi_state@.wf(),
    ensures
        final(out)@ == old(out)@ + places_bytes(place_views(records@)),
{
    let ghost places = place_views(records@);
    let mut index: usize = 0;
    assert(places.take(0) =~= Seq::empty());
    assert(out@ + Seq::<u8>::empty() =~= out@);
    while index < records.len()
        invariant
            index <= records@.len(),
            places == place_views(records@),
            forall|i: int| 0 <= i < records@.len() ==> (#[trigger] records@[i]).ansi_state@.wf(),
            out@ == old(out)@ + places_bytes(places.take(index as int)),
        decreases records@.len() - index,
    {
        let record = records[index];
        push_u32(out, record.segment_id);
        push_u32(out, 0);
        push_u64(out, record.logical_start);
        push_u64(out, record.payload_file_offset);
        push_u64(out, record.payload_len);
        assert(records@[index as int].ansi_state@.wf());
        record.ansi_state.encode(out);
        proof {
            assert(places.take(index + 1).drop_last() =~= places.take(index as int));
            assert(places.take(index + 1).last() == record@);
            let before = places_bytes(places.take(index as int));
            assert(out@ =~= old(out)@ + (before + place_bytes(record@)));
        }
        index += 1;
    }
    assert(places.take(places.len() as int) =~= places);
}

fn push_block(out: &mut Vec<u8>, block: &LineBlock)
    requires
        block@.ends.count() <= LINE_BLOCK_SIZE,
        ends_width(block@.ends) <= 8,
    ensures
        final(out)@ == old(out)@ + block_bytes(block@),
{
    let mut payload: Vec<u8> = Vec::new();
    let (count, width, kind, offset, checksum): (usize, u8, u8, u64, u32) = match &block.ends {
        LineBlockEnds::Narrow(ends) => {
            push_narrow(&mut payload, ends);
            assert(payload@ =~= narrow_bytes(ends@));
            (ends.len(), 4, CACHE_BLOCK_NARROW, 0, crc32fast::hash(payload.as_slice()))
        },
        LineBlockEnds::Wide(ends) => {
            push_wide(&mut payload, ends);
            assert(payload@ =~= wide_bytes(ends@));
            (ends.len(), 8, CACHE_BLOCK_WIDE, 0, crc32fast::hash(payload.as_slice()))
        },
        LineBlockEnds::Cold(cold) => (
            cold.count,
            cold.width,
            CACHE_BLOCK_COLD,
            cold.payload_offset,
            cold.checksum,
        ),
    };
    assert(count * width <= 4096 * 8) by (nonlinear_arith)
        requires
            count <= 4096,
            width <= 8,
    ;
    push_u64(out, block.logical_base);
    push_u32(out, count as u32);
    let ghost front = out@;
    out.push(width);
    out.push(kind);
    assert(out@ =~= front + seq![width, kind]);
    push_u16(out, 0);
    push_u64(out, offset);
    push_u32(out, checksum);
    push_u32(out, count as u32 * width as u32);
    let ghost head = out@;
    out.extend_from_slice(payload.as_slice());
    proof {
        assert(out@ =~= head + payload@);
        let model = block@;
        let tail = u64_le(model.base) + u32_le(count as u32) + seq![width, kind] + u16_le(0)
            + u64_le(offset) + u32_le(checksum) + u32_le((count * width) as u32) + payload@;
        assert(tail == block_bytes(model));
        assert(out@ =~= old(out)@ + tail);
    }
}

impl BlockedLineIndex {
    /// Appends the table of blocks.
    pub fn encode_cache_blocks(&self, output: &mut Vec<u8>)
        requires
            self@.wf(),
        ensures
            final(output)@ == old(output)@ + blocks_bytes(self@.blocks),
    {
        let ghost models = self@.blocks;
        let mut index: usize = 0;
        assert(models.take(0) =~= Seq::empty());
        assert(output@ + Seq::<u8>::empty() =~= output@);
        while index < self.blocks.len()
            invariant
                index <= self.blocks@.len(),
                models == self@.blocks,
                self@.wf(),
                output@ == old(output)@ + blocks_bytes(models.take(index as int)),
            decreases self.blocks@.len() - index,
        {
            proof {
                reveal(IndexModel::wf);
                assert(block_wf(models[index as int], self@.len, index as int));
                assert(models[index as int] == self.blocks@[index as int]@);
                assert(block_count_at(self@.len, index as int) <= LINE_BLOCK_SIZE);
            }
            push_block(output, &self.blocks[index]);
            proof {
                assert(models.take(index + 1).drop_last() =~= models.take(index as int));
                let before = blocks_bytes(models.take(index as int));
                crate::bytes::lemma_concat_associative(
                    old(output)@,
                    before,
                    block_bytes(models[index as int]),
                );
            }
            index += 1;
        }
        assert(models.take(models.len() as int) =~= models);
    }
}

/// The checkpoint of an index.
pub fn write_segmented_cache(
    state: &JournalLineIndexState,
    segments: &Vec<FileStamp>,
    store: Option<FileStamp>,
) -> (bytes: Vec<u8>)
    requires
        state@.wf(),
        segments@.len() <= u32::MAX,
    ensures
        bytes@ == cache_bytes(state@, segments@, store),
{
    let stamp: FileStamp = match store {
        Some(stamp) => stamp,
        None => FileStamp { len: u64::MAX, modified_seconds: 0, modified_nanos: 0 },
    };
    let last: u64 = match state.last_sequence {
        Some(last) => last,
        None => u64::MAX,
    };
    let mut bytes: Vec<u8> = Vec::new();
    bytes.push(0x43);
    bytes.push(0x53);
    bytes.push(0x49);
    bytes.push(0x58);
    assert(bytes@ =~= seq![0x43u8, 0x53u8, 0x49u8, 0x58u8]);
    push_u16(&mut bytes, CACHE_VERSION);
    push_u16(&mut bytes, 0);
    push_u64(&mut bytes, state.revision);
    push_u64(&mut bytes, state.logical_bytes);
    push_u64(&mut bytes, state.open_line_start);
    push_u64(&mut bytes, last);
    push_u32(&mut bytes, segments.len() as u32);
    push_u64(&mut bytes, state.records.len() as u64);
    push_u64(&mut bytes, state.completed_lines.len as u64);
    push_u64(&mut bytes, state.completed_lines.blocks.len() as u64);
    push_u64(&mut bytes, stamp.len);
    push_u64(&mut bytes, stamp.modified_seconds);
    push_u32(&mut bytes, stamp.modified_nanos);
    push_u32(&mut bytes, 0);
    state.ansi_state.encode(&mut bytes);
    proof {
        reveal(front_bytes);
        assert(bytes@ == front_bytes(state@, segments@.len() as int, store));
        assert forall|i: int| 0 <= i < state.records@.len() implies (
        #[trigger] state.records@[i]).ansi_state@.wf() by {
            assert(state@.records[i].ansi.wf());
        }
    }
    push_stamps(&mut bytes, segments);
    push_places(&mut bytes, &state.records);
    state.completed_lines.encode_cache_blocks(&mut bytes);
    let checksum: u32 = crc32fast::hash(bytes.as_slice());
    push_u32(&mut bytes, checksum);
    bytes
}

} // verus!
