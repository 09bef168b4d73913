//! What files hold, byte by byte.
use crate::ansi::{color_bytes, state_bytes, style_bytes, AnsiModel, JournalColor, JournalStyle};
use crate::bytes::{le_u16, le_u32, u16_le, u32_le, u64_le};
use crate::checkpoint::front_bytes;
use crate::journal::{
    fits, header_bytes, header_of, parse_record, record_bytes, IntegrityFault, ParsedRecord,
    RecordModel,
};
use crate::line_blocks::{block_header, narrow_bytes, wide_bytes, ColdLineBlock};
use crate::line_index::LineIndexModel;
use crate::outside::crc32;
use vstd::prelude::*;

verus! {

/// The number that `count` bytes from `at` on write, the lowest first.
pub open spec fn number_at(bytes: Seq<u8>, at: int, count: nat) -> int
    decreases count,
{
    if count == 0 {
        0
    } else {
        bytes[at] + 256 * number_at(bytes, at + 1, (count - 1) as nat)
    }
}

proof fn lemma_number_within(bytes: Seq<u8>, at: int, count: nat, part: Seq<u8>, start: int)
    requires
        0 <= at,
        at + count <= bytes.len(),
        0 <= start,
        start + count <= part.len(),
        forall|i: int| 0 <= i < count ==> #[trigger] bytes[at + i] == part[start + i],
    ensures
        number_at(bytes, at, count) == number_at(part, start, count),
    decreases count,
{
    if count > 0 {
        assert(bytes[at + 0] == part[start + 0]);
        assert forall|i: int| 0 <= i < count - 1 implies #[trigger] bytes[at + 1 + i] == part[start
            + 1 + i] by {
            assert(bytes[at + (i + 1)] == part[start + (i + 1)]);
        }
        lemma_number_within(bytes, at + 1, (count - 1) as nat, part, start + 1);
    }
}

/// Numbers are written with their lowest byte first.
pub proof fn law_numbers_are_written_lowest_byte_first(small: u16, middle: u32, large: u64)
    ensures
        u16_le(small).len() == 2 && number_at(u16_le(small), 0, 2) == small,
        u32_le(middle).len() == 4 && number_at(u32_le(middle), 0, 4) == middle,
        u64_le(large).len() == 8 && number_at(u64_le(large), 0, 8) == large,
{
    reveal(u16_le);
    reveal_with_fuel(number_at, 9);
    lemma_middle(middle);
    let low = (large % 0x1_0000_0000) as u32;
    let high = (large / 0x1_0000_0000) as u32;
    lemma_middle(low);
    lemma_middle(high);
    reveal(u64_le);
    let all = u64_le(large);
    let (l, h) = (u32_le(low), u32_le(high));
    assert(all =~= l + h);
    assert(all[0] == l[0] && all[1] == l[1] && all[2] == l[2] && all[3] == l[3]);
    assert(all[4] == h[0] && all[5] == h[1] && all[6] == h[2] && all[7] == h[3]);
}

proof fn lemma_middle(middle: u32)
    ensures
        u32_le(middle).len() == 4,
        number_at(u32_le(middle), 0, 4) == middle,
        middle == u32_le(middle)[0] + 256 * (u32_le(middle)[1] + 256 * (u32_le(middle)[2] + 256
            * u32_le(middle)[3])),
{
    reveal(u32_le);
    reveal_with_fuel(number_at, 5);
}

/// The number at a place where one was written.
proof fn lemma_written(bytes: Seq<u8>, at: int, part: Seq<u8>)
    requires
        0 <= at,
        at + part.len() <= bytes.len(),
        bytes.subrange(at, at + part.len()) == part,
    ensures
        number_at(bytes, at, part.len()) == number_at(part, 0, part.len()),
{
    assert forall|i: int| 0 <= i < part.len() implies #[trigger] bytes[at + i] == part[0 + i] by {
        assert(bytes.subrange(at, at + part.len())[i] == bytes[at + i]);
    }
    lemma_number_within(bytes, at, part.len(), part, 0);
}

/// A record of a journal: the letters CSJR, version 1, two bytes of nothing,
/// the sequence number, the length of the payload, its checksum, and from byte
/// 24 on the payload.
pub proof fn law_record_layout(record: RecordModel)
    requires
        fits(record),
    ensures
        ({
            let bytes = record_bytes(record);
            &&& bytes.len() == 24 + record.payload.len()
            &&& bytes[0] == 0x43 && bytes[1] == 0x53 && bytes[2] == 0x4a && bytes[3] == 0x52
            &&& number_at(bytes, 4, 2) == 1
            &&& number_at(bytes, 6, 2) == 0
            &&& number_at(bytes, 8, 8) == record.sequence
            &&& number_at(bytes, 16, 4) == record.payload.len()
            &&& number_at(bytes, 20, 4) == crc32(record.payload)
            &&& bytes.skip(24) == record.payload
        }),
{
    reveal(header_bytes);
    let bytes = record_bytes(record);
    let length = record.payload.len() as u32;
    let sum = crc32(record.payload);
    law_numbers_are_written_lowest_byte_first(1, length, record.sequence);
    law_numbers_are_written_lowest_byte_first(0, sum, 0);
    assert(bytes.subrange(4, 6) =~= u16_le(1));
    assert(bytes.subrange(6, 8) =~= u16_le(0));
    assert(bytes.subrange(8, 16) =~= u64_le(record.sequence));
    assert(bytes.subrange(16, 20) =~= u32_le(length));
    assert(bytes.subrange(20, 24) =~= u32_le(sum));
    lemma_written(bytes, 4, u16_le(1));
    lemma_written(bytes, 6, u16_le(0));
    lemma_written(bytes, 8, u64_le(record.sequence));
    lemma_written(bytes, 16, u32_le(length));
    lemma_written(bytes, 20, u32_le(sum));
    assert(bytes.skip(24) =~= record.payload);
}

/// The header of a stored block: the letters CSLB, the version, how wide an end
/// is, the number of the block, where it begins in the stream, how many ends it
/// has, how many bytes they take and their checksum.
pub proof fn law_block_header_layout(cold: ColdLineBlock)
    requires
        cold.count <= u32::MAX,
        cold.count * cold.width <= u32::MAX,
    ensures
        ({
            let bytes = block_header(cold);
            &&& bytes.len() == 40
            &&& bytes[0] == 0x43 && bytes[1] == 0x53 && bytes[2] == 0x4c && bytes[3] == 0x42
            &&& number_at(bytes, 4, 2) == crate::line_blocks::LINE_BLOCK_VERSION
            &&& bytes[6] == cold.width
            &&& number_at(bytes, 8, 8) == cold.block_id
            &&& number_at(bytes, 16, 8) == cold.logical_base
            &&& number_at(bytes, 24, 4) == cold.count
            &&& number_at(bytes, 28, 4) == cold.count * cold.width
            &&& number_at(bytes, 32, 4) == cold.checksum
        }),
{
    reveal(block_header);
    let bytes = block_header(cold);
    let version = crate::line_blocks::LINE_BLOCK_VERSION;
    let count = cold.count as u32;
    let length = (cold.count * cold.width) as u32;
    law_numbers_are_written_lowest_byte_first(version, count, cold.block_id);
    law_numbers_are_written_lowest_byte_first(0, length, cold.logical_base);
    law_numbers_are_written_lowest_byte_first(0, cold.checksum, 0);
    assert(bytes.subrange(4, 6) =~= u16_le(version));
    assert(bytes.subrange(8, 16) =~= u64_le(cold.block_id));
    assert(bytes.subrange(16, 24) =~= u64_le(cold.logical_base));
    assert(bytes.subrange(24, 28) =~= u32_le(count));
    assert(bytes.subrange(28, 32) =~= u32_le(length));
    assert(bytes.subrange(32, 36) =~= u32_le(cold.checksum));
    lemma_written(bytes, 4, u16_le(version));
    lemma_written(bytes, 8, u64_le(cold.block_id));
    lemma_written(bytes, 16, u64_le(cold.logical_base));
    lemma_written(bytes, 24, u32_le(count));
    lemma_written(bytes, 28, u32_le(length));
    lemma_written(bytes, 32, u32_le(cold.checksum));
}

/// The ends of a block stand one behind the other, each in four bytes.
pub proof fn law_narrow_ends_layout(ends: Seq<u32>, index: int)
    requires
        0 <= index < ends.len(),
    ensures
        narrow_bytes(ends).len() == 4 * ends.len(),
        number_at(narrow_bytes(ends), 4 * index, 4) == ends[index],
    decreases ends.len(),
{
    let front = ends.drop_last();
    let all = narrow_bytes(ends);
    let before = narrow_bytes(front);
    law_numbers_are_written_lowest_byte_first(0, ends.last(), 0);
    if front.len() > 0 {
        law_narrow_ends_layout(front, 0);
    }
    if index < front.len() {
        law_narrow_ends_layout(front, index);
        lemma_number_within(all, 4 * index, 4, before, 4 * index);
    } else {
        assert(all.subrange(4 * index, 4 * index + 4) =~= u32_le(ends.last()));
        lemma_written(all, 4 * index, u32_le(ends.last()));
    }
}

/// Ends that need more stand one behind the other in eight bytes each.
pub proof fn law_wide_ends_layout(ends: Seq<u64>, index: int)
    requires
        0 <= index < ends.len(),
    ensures
        wide_bytes(ends).len() == 8 * ends.len(),
        number_at(wide_bytes(ends), 8 * index, 8) == ends[index],
    decreases ends.len(),
{
    let front = ends.drop_last();
    let all = wide_bytes(ends);
    let before = wide_bytes(front);
    law_numbers_are_written_lowest_byte_first(0, 0, ends.last());
    if front.len() > 0 {
        law_wide_ends_layout(front, 0);
    }
    if index < front.len() {
        law_wide_ends_layout(front, index);
        lemma_number_within(all, 8 * index, 8, before, 8 * index);
    } else {
        assert(all.subrange(8 * index, 8 * index + 8) =~= u64_le(ends.last()));
        lemma_written(all, 8 * index, u64_le(ends.last()));
    }
}

/// A color is a kind and three bytes: none, one of a number, or one of levels
/// of red, green and blue.
pub open spec fn is_color(bytes: Seq<u8>, at: int, color: JournalColor) -> bool {
    match color {
        JournalColor::Default => bytes[at] == 0 && bytes[at + 1] == 0 && bytes[at + 2] == 0
            && bytes[at + 3] == 0,
        JournalColor::Indexed(index) => bytes[at] == 1 && bytes[at + 1] == index && bytes[at + 2]
            == 0 && bytes[at + 3] == 0,
        JournalColor::Rgb(red, green, blue) => bytes[at] == 2 && bytes[at + 1] == red && bytes[at
            + 2] == green && bytes[at + 3] == blue,
    }
}

/// A style: its foreground, its background, and a bit each for bold, italic,
/// underlined and inverse, from the lowest on.
pub proof fn law_style_layout(style: JournalStyle)
    ensures
        ({
            let bytes = style_bytes(style);
            let flags = bytes[8] as int;
            &&& bytes.len() == 9
            &&& is_color(bytes, 0, style.foreground)
            &&& is_color(bytes, 4, style.background)
            &&& flags % 2 == 1 <==> style.bold
            &&& (flags / 2) % 2 == 1 <==> style.italic
            &&& (flags / 4) % 2 == 1 <==> style.underline
            &&& flags / 8 == 1 <==> style.inverse
            &&& flags < 16
        }),
{
    let front = color_bytes(style.foreground);
    let back = color_bytes(style.background);
    let bytes = style_bytes(style);
    assert(front.len() == 4 && back.len() == 4);
    assert(bytes[0] == front[0] && bytes[1] == front[1] && bytes[2] == front[2] && bytes[3]
        == front[3]);
    assert(bytes[4] == back[0] && bytes[5] == back[1] && bytes[6] == back[2] && bytes[7]
        == back[3]);
}

/// The machine in a checkpoint takes eighty bytes: what it is in the middle of,
/// how many bytes of parameters it has, whether there were too many, the bytes
/// themselves, and the style.
pub proof fn law_machine_layout(state: AnsiModel)
    requires
        state.wf(),
    ensures
        ({
            let bytes = state_bytes(state);
            &&& bytes.len() == 80
            &&& bytes[0] == state.machine.code()
            &&& bytes[1] == state.csi_len
            &&& bytes[2] == 1 <==> state.csi_overflow
            &&& bytes.subrange(4, 68) == state.csi
            &&& bytes.subrange(68, 77) == style_bytes(state.style)
        }),
{
    let bytes = state_bytes(state);
    law_style_layout(state.style);
    assert(bytes.subrange(4, 68) =~= state.csi);
    assert(bytes.subrange(68, 77) =~= style_bytes(state.style));
}

/// The front of a checkpoint: the letters CSIX, the version, and the numbers of
/// the index, each in its place.
pub proof fn law_checkpoint_layout(index: LineIndexModel, segments: u32)
    requires
        index.ansi.wf(),
        index.records.len() <= u64::MAX,
        index.lines.len <= u64::MAX,
        0 <= index.lines.len,
        index.lines.blocks.len() <= u64::MAX,
    ensures
        ({
            let bytes = front_bytes(index, segments as int, None);
            &&& bytes.len() == 172
            &&& bytes[0] == 0x43 && bytes[1] == 0x53 && bytes[2] == 0x49 && bytes[3] == 0x58
            &&& number_at(bytes, 4, 2) == crate::checkpoint::CACHE_VERSION
            &&& number_at(bytes, 8, 8) == index.revision
            &&& number_at(bytes, 16, 8) == index.logical_bytes
            &&& number_at(bytes, 24, 8) == index.open_line_start
            &&& number_at(bytes, 40, 4) == segments
            &&& number_at(bytes, 44, 8) == index.records.len()
            &&& number_at(bytes, 52, 8) == index.lines.len
            &&& number_at(bytes, 60, 8) == index.lines.blocks.len()
            &&& bytes.subrange(92, 172) == state_bytes(index.ansi)
        }),
{
    reveal(front_bytes);
    let bytes = front_bytes(index, segments as int, None);
    let version = crate::checkpoint::CACHE_VERSION;
    let stamp = crate::checkpoint::store_code(None);
    law_machine_layout(index.ansi);
    law_numbers_are_written_lowest_byte_first(version, segments, index.revision);
    law_numbers_are_written_lowest_byte_first(0, stamp.modified_nanos, index.logical_bytes);
    law_numbers_are_written_lowest_byte_first(0, 0, index.open_line_start);
    law_numbers_are_written_lowest_byte_first(0, 0, index.records.len() as u64);
    law_numbers_are_written_lowest_byte_first(0, 0, index.lines.len as u64);
    law_numbers_are_written_lowest_byte_first(0, 0, index.lines.blocks.len() as u64);
    law_numbers_are_written_lowest_byte_first(0, 0, stamp.len);
    law_numbers_are_written_lowest_byte_first(0, 0, stamp.modified_seconds);
    law_numbers_are_written_lowest_byte_first(
        0,
        0,
        crate::checkpoint::last_sequence_code(index.last_sequence),
    );
    assert(bytes.subrange(4, 6) =~= u16_le(version));
    assert(bytes.subrange(8, 16) =~= u64_le(index.revision));
    assert(bytes.subrange(16, 24) =~= u64_le(index.logical_bytes));
    assert(bytes.subrange(24, 32) =~= u64_le(index.open_line_start));
    assert(bytes.subrange(40, 44) =~= u32_le(segments));
    assert(bytes.subrange(44, 52) =~= u64_le(index.records.len() as u64));
    assert(bytes.subrange(52, 60) =~= u64_le(index.lines.len as u64));
    assert(bytes.subrange(60, 68) =~= u64_le(index.lines.blocks.len() as u64));
    assert(bytes.subrange(92, 172) =~= state_bytes(index.ansi));
    lemma_written(bytes, 4, u16_le(version));
    lemma_written(bytes, 8, u64_le(index.revision));
    lemma_written(bytes, 16, u64_le(index.logical_bytes));
    lemma_written(bytes, 24, u64_le(index.open_line_start));
    lemma_written(bytes, 40, u32_le(segments));
    lemma_written(bytes, 44, u64_le(index.records.len() as u64));
    lemma_written(bytes, 52, u64_le(index.lines.len as u64));
    lemma_written(bytes, 60, u64_le(index.lines.blocks.len() as u64));
}

// ---------------------------------------------------------------------------
// Reading records.

proof fn lemma_read_u16(bytes: Seq<u8>, at: int)
    requires
        0 <= at,
        at + 2 <= bytes.len(),
    ensures
        le_u16(bytes.skip(at)) == number_at(bytes, at, 2),
{
    reveal(le_u16);
    reveal_with_fuel(number_at, 3);
    let rest = bytes.skip(at);
    assert(rest[0] == bytes[at] && rest[1] == bytes[at + 1]);
}

proof fn lemma_read_u32(bytes: Seq<u8>, at: int)
    requires
        0 <= at,
        at + 4 <= bytes.len(),
    ensures
        le_u32(bytes.skip(at)) == number_at(bytes, at, 4),
{
    reveal(le_u32);
    reveal_with_fuel(number_at, 5);
    let rest = bytes.skip(at);
    assert(rest[0] == bytes[at] && rest[1] == bytes[at + 1] && rest[2] == bytes[at + 2] && rest[3]
        == bytes[at + 3]);
}

/// A header is read where it begins with the letters CSJR, is of version 1 and
/// tells of a payload of at most 16 MiB, and what is wrong with it otherwise is
/// told: the letters before the version before the length.
pub proof fn law_header_is_read(header: Seq<u8>)
    requires
        header.len() == 24,
    ensures
        ({
            let named = header[0] == 0x43 && header[1] == 0x53 && header[2] == 0x4a && header[3]
                == 0x52;
            let version = number_at(header, 4, 2);
            let length = number_at(header, 16, 4);
            match header_of(header) {
                Ok(read) => {
                    &&& named && version == 1 && length <= 16 * 1024 * 1024
                    &&& read.payload_len == length
                    &&& read.checksum == number_at(header, 20, 4)
                },
                Err(IntegrityFault::InvalidMagic) => !named,
                Err(IntegrityFault::UnsupportedVersion(told)) => named && version != 1 && told
                    == version,
                Err(IntegrityFault::OversizedRecord) => named && version == 1 && length > 16 * 1024
                    * 1024,
                Err(_) => false,
            }
        }),
{
    lemma_read_u16(header, 4);
    lemma_read_u32(header, 16);
    lemma_read_u32(header, 20);
    let start = header.take(4);
    assert(start[0] == header[0] && start[1] == header[1] && start[2] == header[2] && start[3]
        == header[3]);
    if header[0] == 0x43 && header[1] == 0x53 && header[2] == 0x4a && header[3] == 0x52 {
        assert(start =~= crate::journal::magic());
    }
}

/// Where a journal breaks off in the middle of a header or of a payload, or the
/// payload is not the one that its checksum was taken of, that is what is told
/// of it, and nothing behind it is read.
pub proof fn law_torn_records_are_told(bytes: Seq<u8>, at: int)
    requires
        0 <= at <= bytes.len(),
    ensures
        parse_record(bytes, at) == ParsedRecord::End <==> at == bytes.len(),
        0 < bytes.len() - at < 24 ==> parse_record(bytes, at) == ParsedRecord::Fault(
            IntegrityFault::PartialHeader,
        ),
        parse_record(bytes, at) matches ParsedRecord::Record(record, next) ==> {
            &&& next == at + 24 + record.payload.len()
            &&& next <= bytes.len()
            &&& record.payload == bytes.subrange(at + 24, next)
            &&& crc32(record.payload) == number_at(bytes, at + 20, 4)
            &&& record.payload.len() == number_at(bytes, at + 16, 4)
        },
{
    if at + 24 <= bytes.len() {
        let header = bytes.subrange(at, at + 24);
        law_header_is_read(header);
        assert forall|i: int| 0 <= i < 4 implies #[trigger] bytes[at + 20 + i] == header[20
            + i] by {}
        assert forall|i: int| 0 <= i < 4 implies #[trigger] bytes[at + 16 + i] == header[16
            + i] by {}
        lemma_number_within(bytes, at + 20, 4, header, 20);
        lemma_number_within(bytes, at + 16, 4, header, 16);
    }
}

} // verus!
