//! The directory of completed lines: where each line ends, in blocks of fixed
//! size that can be moved to a store on disk.
use crate::bytes::{
    law_le_u32_bytes, law_le_u64_bytes, law_u16_round_trip, law_u32_round_trip, law_u64_round_trip, le_u16, le_u32, le_u64,
    lemma_prefix_decides, push_u16, push_u32, push_u64, read_u16, read_u32, read_u64, u16_le,
    u32_le, u64_le,
};
use crate::journal::JournalError;
use crate::outside::crc32;
use crate::text::{decimal_text, join, u64_text};
use vstd::prelude::*;
use vstd::string::StringExecFns;

verus! {

broadcast use crate::bytes::group_le_len;

pub const LINE_BLOCK_SIZE: usize = 4096;

pub const LINE_BLOCK_VERSION: u16 = 1;

pub const LINE_BLOCK_HEADER_BYTES: usize = 40;

/// `left + right`, stopping at the largest number.
pub open spec fn sat_add(left: int, right: int) -> int {
    if left + right > u64::MAX {
        u64::MAX as int
    } else {
        left + right
    }
}

/// `left - right`, stopping at zero.
pub open spec fn sat_sub(left: int, right: int) -> int {
    if left < right {
        0
    } else {
        left - right
    }
}

/// A line's bytes in the stream, without its newline.
#[derive(Clone, Copy, Debug, PartialEq, Eq, Structural)]
pub struct LineLocation {
    pub start: u64,
    pub end: u64,
}

impl LineLocation {
    pub open spec fn length(self) -> int {
        sat_sub(self.end as int, self.start as int)
    }

    pub fn len(self) -> (length: u64)
        ensures
            length == self.length(),
    {
        self.end.saturating_sub(self.start)
    }
}

/// A block whose line ends are in the store.
#[derive(Clone, Copy, Debug, PartialEq, Eq, Structural)]
pub struct ColdLineBlock {
    pub block_id: u64,
    pub logical_base: u64,
    pub payload_offset: u64,
    pub count: usize,
    pub width: u8,
    pub checksum: u32,
}

/// Line ends relative to the block's base.
#[derive(Debug)]
pub enum LineBlockEnds {
    Narrow(Vec<u32>),
    Wide(Vec<u64>),
    Cold(ColdLineBlock),
}

#[derive(Debug)]
pub struct LineBlock {
    pub logical_base: u64,
    pub ends: LineBlockEnds,
}

#[verifier::ext_equal]
pub enum EndsModel {
    Narrow(Seq<u32>),
    Wide(Seq<u64>),
    Cold(ColdLineBlock),
}

#[verifier::ext_equal]
pub struct BlockModel {
    pub base: u64,
    pub ends: EndsModel,
}

pub open spec fn widened(ends: Seq<u32>) -> Seq<u64> {
    Seq::new(ends.len(), |i: int| ends[i] as u64)
}

impl EndsModel {
    /// The relative ends that are held in memory.
    pub open spec fn values(self) -> Seq<u64> {
        match self {
            EndsModel::Narrow(ends) => widened(ends),
            EndsModel::Wide(ends) => ends,
            EndsModel::Cold(_) => Seq::empty(),
        }
    }

    /// How many lines the block covers.
    pub open spec fn count(self) -> int {
        match self {
            EndsModel::Cold(cold) => cold.count as int,
            _ => self.values().len() as int,
        }
    }
}

impl View for LineBlockEnds {
    type V = EndsModel;

    open spec fn view(&self) -> EndsModel {
        match self {
            LineBlockEnds::Narrow(ends) => EndsModel::Narrow(ends@),
            LineBlockEnds::Wide(ends) => EndsModel::Wide(ends@),
            LineBlockEnds::Cold(cold) => EndsModel::Cold(*cold),
        }
    }
}

impl View for LineBlock {
    type V = BlockModel;

    open spec fn view(&self) -> BlockModel {
        BlockModel { base: self.logical_base, ends: self.ends@ }
    }
}

/// The end of line `index` of a block that is held in memory.
pub open spec fn block_end(block: BlockModel, index: int) -> Option<u64> {
    let values = block.ends.values();
    if 0 <= index < values.len() {
        Some(sat_add(block.base as int, values[index] as int) as u64)
    } else {
        None
    }
}

/// The block with a line that ends at `end` added; ends that do not fit in
/// four bytes make the block a wide one.
pub open spec fn push_end(block: BlockModel, end: u64) -> BlockModel {
    let relative = sat_sub(end as int, block.base as int) as u64;
    BlockModel {
        ends: match block.ends {
            EndsModel::Narrow(ends) => if relative <= u32::MAX {
                EndsModel::Narrow(ends.push(relative as u32))
            } else {
                EndsModel::Wide(widened(ends).push(relative))
            },
            EndsModel::Wide(ends) => EndsModel::Wide(ends.push(relative)),
            EndsModel::Cold(cold) => EndsModel::Cold(cold),
        },
        ..block
    }
}

impl LineBlock {
    pub fn end(&self, index: usize) -> (end: Option<u64>)
        ensures
            end == block_end(self@, index as int),
    {
        match &self.ends {
            LineBlockEnds::Narrow(ends) => if index < ends.len() {
                Some(self.logical_base.saturating_add(ends[index] as u64))
            } else {
                None
            },
            LineBlockEnds::Wide(ends) => if index < ends.len() {
                Some(self.logical_base.saturating_add(ends[index]))
            } else {
                None
            },
            LineBlockEnds::Cold(_) => None,
        }
    }

    pub fn push(&mut self, end: u64)
        ensures
            final(self)@ == push_end(old(self)@, end),
    {
        let relative: u64 = end.saturating_sub(self.logical_base);
        let mut upgraded: Option<Vec<u64>> = None;
        match &mut self.ends {
            LineBlockEnds::Narrow(ends) => {
                if relative <= u32::MAX as u64 {
                    ends.push(relative as u32);
                } else {
                    let mut wide: Vec<u64> = Vec::with_capacity(LINE_BLOCK_SIZE);
                    let mut index: usize = 0;
                    while index < ends.len()
                        invariant
                            index <= ends@.len(),
                            wide@.len() == index,
                            forall|i: int| 0 <= i < index ==> wide@[i] == ends@[i] as u64,
                        decreases ends@.len() - index,
                    {
                        wide.push(ends[index] as u64);
                        index += 1;
                    }
                    assert(wide@ =~= widened(ends@));
                    wide.push(relative);
                    upgraded = Some(wide);
                }
            },
            LineBlockEnds::Wide(ends) => {
                ends.push(relative);
            },
            LineBlockEnds::Cold(_) => {},
        }
        if let Some(wide) = upgraded {
            self.ends = LineBlockEnds::Wide(wide);
        }
    }
}


// ---------------------------------------------------------------------------
// The directory.

/// The ends of a block, read back from the store.
#[derive(Debug)]
pub struct LoadedLineBlock {
    pub block_index: usize,
    pub ends: Vec<u64>,
}

/// The blocks that have been read back, by block index.
pub open spec fn loaded_map(loaded: Seq<LoadedLineBlock>) -> Map<int, Seq<u64>>
    decreases loaded.len(),
{
    if loaded.len() == 0 {
        Map::empty()
    } else {
        loaded_map(loaded.drop_last()).insert(
            loaded.last().block_index as int,
            loaded.last().ends@,
        )
    }
}

/// The position in `loaded` of the newest copy of a block.
pub fn find_loaded(loaded: &Vec<LoadedLineBlock>, block_index: usize) -> (found: Option<usize>)
    ensures
        match found {
            Some(at) => at < loaded@.len() && loaded_map(loaded@).contains_pair(
                block_index as int,
                loaded@[at as int].ends@,
            ),
            None => !loaded_map(loaded@).contains_key(block_index as int),
        },
{
    let mut index: usize = loaded.len();
    assert(loaded@.take(loaded@.len() as int) =~= loaded@);
    while index > 0
        invariant
            index <= loaded@.len(),
            loaded_map(loaded@).contains_key(block_index as int) <==> loaded_map(
                loaded@.take(index as int),
            ).contains_key(block_index as int),
            loaded_map(loaded@).contains_key(block_index as int) ==> loaded_map(
                loaded@,
            )[block_index as int] == loaded_map(loaded@.take(index as int))[block_index as int],
        decreases index,
    {
        assert(loaded@.take(index as int).drop_last() =~= loaded@.take(index - 1));
        index -= 1;
        if loaded[index].block_index == block_index {
            return Some(index);
        }
    }
    None
}

#[derive(Debug)]
pub struct BlockedLineIndex {
    pub blocks: Vec<LineBlock>,
    pub len: usize,
    pub stored: bool,
    pub next_store_offset: u64,
}

/// The directory, with its blocks as a sequence.
#[verifier::ext_equal]
pub struct IndexModel {
    pub blocks: Seq<BlockModel>,
    pub len: int,
    pub stored: bool,
    pub next_store_offset: u64,
}

pub open spec fn block_views(blocks: Seq<LineBlock>) -> Seq<BlockModel> {
    Seq::new(blocks.len(), |i: int| blocks[i]@)
}

impl View for BlockedLineIndex {
    type V = IndexModel;

    open spec fn view(&self) -> IndexModel {
        IndexModel {
            blocks: block_views(self.blocks@),
            len: self.len as int,
            stored: self.stored,
            next_store_offset: self.next_store_offset,
        }
    }
}

/// How many lines block `index` covers in a directory of `len` lines.
pub open spec fn block_count_at(len: int, index: int) -> int {
    if (index + 1) * LINE_BLOCK_SIZE <= len {
        LINE_BLOCK_SIZE as int
    } else {
        len - index * LINE_BLOCK_SIZE
    }
}

pub open spec fn blocks_needed(len: int) -> int {
    (len + LINE_BLOCK_SIZE - 1) / LINE_BLOCK_SIZE as int
}

/// A block at its place: it covers the lines it should, and one that is in
/// the store is a full one.
pub open spec fn block_wf(block: BlockModel, len: int, index: int) -> bool {
    &&& block.ends.count() == block_count_at(len, index)
    &&& match block.ends {
        EndsModel::Cold(cold) => {
            &&& cold.count == LINE_BLOCK_SIZE
            &&& cold.block_id == index
            &&& cold.logical_base == block.base
            &&& (cold.width == 4 || cold.width == 8)
        },
        _ => true,
    }
}

impl IndexModel {
    #[verifier::opaque]
    pub open spec fn wf(self) -> bool {
        &&& 0 <= self.len <= usize::MAX
        &&& self.blocks.len() == blocks_needed(self.len)
        &&& forall|i: int|
            0 <= i < self.blocks.len() ==> block_wf(#[trigger] self.blocks[i], self.len, i)
    }

    pub open spec fn empty(stored: bool) -> IndexModel {
        IndexModel { blocks: Seq::empty(), len: 0, stored, next_store_offset: 0 }
    }

    /// Where line `index` ends; the ends of stored blocks come from `loaded`.
    pub open spec fn end_of(self, index: int, loaded: Map<int, Seq<u64>>) -> Option<u64> {
        let at = index / LINE_BLOCK_SIZE as int;
        let within = index % LINE_BLOCK_SIZE as int;
        if at >= self.blocks.len() {
            None
        } else if self.blocks[at].ends is Cold {
            if loaded.contains_key(at) && within < loaded[at].len() {
                Some(sat_add(self.blocks[at].base as int, loaded[at][within] as int) as u64)
            } else {
                None
            }
        } else {
            block_end(self.blocks[at], within)
        }
    }

    /// A line begins behind the newline that ends the line before.
    pub open spec fn line_of(self, index: int, loaded: Map<int, Seq<u64>>) -> Option<LineLocation> {
        match self.end_of(index, loaded) {
            None => None,
            Some(end) => if index == 0 {
                Some(LineLocation { start: 0, end })
            } else {
                match self.end_of(index - 1, loaded) {
                    None => None,
                    Some(before) => Some(
                        LineLocation { start: sat_add(before as int, 1) as u64, end },
                    ),
                }
            },
        }
    }

    /// The directory with one more line.
    #[verifier::opaque]
    pub open spec fn with_line(self, start: u64, end: u64) -> IndexModel {
        let blocks = if self.len % LINE_BLOCK_SIZE as int == 0 {
            self.blocks.push(BlockModel { base: start, ends: EndsModel::Narrow(Seq::empty()) })
        } else {
            self.blocks
        };
        IndexModel {
            blocks: blocks.drop_last().push(push_end(blocks.last(), end)),
            len: self.len + 1,
            ..self
        }
    }

    /// The block that the last line filled, if it is to be moved to the store.
    pub open spec fn filled_block(self) -> Option<usize> {
        if self.stored && self.len > 0 && self.len % LINE_BLOCK_SIZE as int == 0 {
            Some((self.blocks.len() - 1) as usize)
        } else {
            None
        }
    }

    /// The lines end at `ends`, in order.
    #[verifier::opaque]
    pub open spec fn holds(self, loaded: Map<int, Seq<u64>>, ends: Seq<u64>) -> bool {
        &&& ends.len() == self.len
        &&& forall|i: int| 0 <= i < self.len ==> #[trigger] self.end_of(i, loaded) == Some(ends[i])
    }
}

pub proof fn lemma_with_line_wf(index: IndexModel, start: u64, end: u64)
    requires
        index.wf(),
        index.len < usize::MAX,
    ensures
        index.with_line(start, end).wf(),
        index.with_line(start, end).len == index.len + 1,
        index.with_line(start, end).stored == index.stored,
        index.with_line(start, end).blocks.len() > 0,
        index.with_line(start, end).blocks.last().base == if index.len % LINE_BLOCK_SIZE as int == 0 {
            start
        } else {
            index.blocks.last().base
        },
        index.len % LINE_BLOCK_SIZE as int != 0 ==> index.blocks.len() > 0 && !(
        index.blocks.last().ends is Cold),
{
    reveal(IndexModel::wf);
    reveal(IndexModel::with_line);
    let after = index.with_line(start, end);
    let size = LINE_BLOCK_SIZE as int;
    if index.len % size == 0 {
        assert(index.blocks.len() * size == index.len);
    } else {
        let last = index.blocks.len() - 1;
        assert(last * size < index.len < (last + 1) * size);
        assert(block_wf(index.blocks[last], index.len, last));
    }
    let last = after.blocks.len() - 1;
    assert forall|i: int| 0 <= i < after.blocks.len() implies block_wf(
        #[trigger] after.blocks[i],
        after.len,
        i,
    ) by {
        if i < last {
            assert(after.blocks[i] == index.blocks[i]);
            assert(block_wf(index.blocks[i], index.len, i));
            assert((i + 1) * size <= last * size);
        }
    }
}

/// What well-formedness says of the number of lines.
pub proof fn lemma_index_wf(index: IndexModel)
    requires
        index.wf(),
    ensures
        0 <= index.len <= usize::MAX,
        index.len > 0 ==> index.blocks.len() > 0,
        index.len == 0 ==> index.blocks.len() == 0,
{
    reveal(IndexModel::wf);
}

/// A directory never has more blocks than lines.
pub proof fn lemma_blocks_fit(index: IndexModel)
    requires
        index.wf(),
    ensures
        index.blocks.len() <= index.len,
        index.blocks.len() <= usize::MAX,
{
    reveal(IndexModel::wf);
}

/// There is no line behind the last one.
pub proof fn lemma_no_line_beyond(index: IndexModel, loaded: Map<int, Seq<u64>>, line: int)
    requires
        index.wf(),
        line >= index.len,
        forall|at: int|
            #![trigger loaded[at]]
            loaded.contains_key(at) ==> loaded[at].len() <= LINE_BLOCK_SIZE,
    ensures
        index.end_of(line, loaded) is None,
        index.line_of(line, loaded) is None,
{
    reveal(IndexModel::wf);
    let size = LINE_BLOCK_SIZE as int;
    let at = line / size;
    if at < index.blocks.len() {
        assert(block_wf(index.blocks[at], index.len, at));
        assert(at == index.blocks.len() - 1);
        assert(line % size >= index.len - at * size);
    }
}

/// An empty directory holds no lines.
pub proof fn lemma_empty_index(stored: bool)
    ensures
        IndexModel::empty(stored).wf(),
        IndexModel::empty(stored).holds(Map::empty(), Seq::empty()),
{
    reveal(IndexModel::wf);
    reveal(IndexModel::holds);
}

/// What `holds` says of each line.
pub proof fn lemma_holds_at(
    index: IndexModel,
    loaded: Map<int, Seq<u64>>,
    ends: Seq<u64>,
    line: int,
)
    requires
        index.holds(loaded, ends),
        0 <= line < index.len,
    ensures
        index.end_of(line, loaded) == Some(ends[line]),
        ends.len() == index.len,
{
    reveal(IndexModel::holds);
}

pub proof fn lemma_holds_len(index: IndexModel, loaded: Map<int, Seq<u64>>, ends: Seq<u64>)
    requires
        index.holds(loaded, ends),
    ensures
        ends.len() == index.len,
{
    reveal(IndexModel::holds);
}

/// Adding a line leaves every earlier line where it was, and the new one ends
/// where it was said to.
pub proof fn law_added_line_is_found(
    index: IndexModel,
    loaded: Map<int, Seq<u64>>,
    ends: Seq<u64>,
    start: u64,
    end: u64,
)
    requires
        index.wf(),
        index.len < usize::MAX,
        index.holds(loaded, ends),
        start <= end,
        index.len % LINE_BLOCK_SIZE as int != 0 ==> index.blocks.last().base <= end,
    ensures
        index.with_line(start, end).holds(loaded, ends.push(end)),
{
    reveal(IndexModel::wf);
    reveal(IndexModel::with_line);
    reveal(IndexModel::holds);
    let after = index.with_line(start, end);
    let size = LINE_BLOCK_SIZE as int;
    lemma_with_line_wf(index, start, end);
    let last = after.blocks.len() - 1;
    if index.len % size == 0 {
        assert(index.blocks.len() * size == index.len);
    } else {
        assert(last * size < index.len < (last + 1) * size);
        assert(block_wf(index.blocks[last], index.len, last));
    }
    assert(index.len / size == last);
    assert forall|i: int| 0 <= i < after.len implies #[trigger] after.end_of(i, loaded) == Some(
        ends.push(end)[i],
    ) by {
        let at = i / size;
        if i < index.len {
            assert(index.end_of(i, loaded) == Some(ends[i]));
            if at < last {
                assert(after.blocks[at] == index.blocks[at]);
            }
        } else {
            assert(at == last);
        }
    }
}

impl BlockedLineIndex {
    pub fn new(stored: bool) -> (index: Self)
        ensures
            index@ == IndexModel::empty(stored),
            index@.wf(),
    {
        let index = BlockedLineIndex { blocks: Vec::new(), len: 0, stored, next_store_offset: 0 };
        proof {
            reveal(IndexModel::wf);
        }
        assert(index@ =~= IndexModel::empty(stored));
        index
    }

    /// Adds the line from `start` to `end`. A block that this fills and that
    /// is to be moved to the store is named in the result.
    pub fn push(&mut self, start: u64, end: u64) -> (filled: Option<usize>)
        requires
            old(self)@.wf(),
            old(self)@.len < usize::MAX,
        ensures
            final(self)@ == old(self)@.with_line(start, end),
            final(self)@.wf(),
            final(self)@.len == old(self)@.len + 1,
            filled == final(self)@.filled_block(),
    {
        proof {
            reveal(IndexModel::wf);
            reveal(IndexModel::with_line);
            lemma_with_line_wf(self@, start, end);
        }
        if self.len % LINE_BLOCK_SIZE == 0 {
            self.blocks.push(
                LineBlock {
                    logical_base: start,
                    ends: LineBlockEnds::Narrow(Vec::with_capacity(LINE_BLOCK_SIZE)),
                },
            );
        }
        let last: usize = self.blocks.len() - 1;
        let ghost before = block_views(self.blocks@);
        proof {
            let model = BlockModel { base: start, ends: EndsModel::Narrow(Seq::empty()) };
            if old(self)@.len % LINE_BLOCK_SIZE as int == 0 {
                assert(before.last() =~= model);
                assert(before =~= old(self)@.blocks.push(model));
            } else {
                assert(before =~= old(self)@.blocks);
            }
        }
        self.blocks[last].push(end);
        self.len = self.len + 1;
        assert(self@.blocks =~= before.drop_last().push(push_end(before.last(), end)));
        assert(self@ =~= old(self)@.with_line(start, end));
        if self.stored && self.len % LINE_BLOCK_SIZE == 0 {
            Some(last)
        } else {
            None
        }
    }

    pub fn end(&self, index: usize, loaded: &Vec<LoadedLineBlock>) -> (end: Option<u64>)
        ensures
            end == self@.end_of(index as int, loaded_map(loaded@)),
    {
        let at: usize = index / LINE_BLOCK_SIZE;
        let within: usize = index % LINE_BLOCK_SIZE;
        if at >= self.blocks.len() {
            return None;
        }
        assert(self@.blocks[at as int] == self.blocks@[at as int]@);
        match &self.blocks[at].ends {
            LineBlockEnds::Cold(_) => match find_loaded(loaded, at) {
                Some(found) => if within < loaded[found].ends.len() {
                    Some(self.blocks[at].logical_base.saturating_add(loaded[found].ends[within]))
                } else {
                    None
                },
                None => None,
            },
            _ => self.blocks[at].end(within),
        }
    }

    pub fn line(&self, index: usize, loaded: &Vec<LoadedLineBlock>) -> (line: Option<LineLocation>)
        ensures
            line == self@.line_of(index as int, loaded_map(loaded@)),
    {
        match self.end(index, loaded) {
            None => None,
            Some(end) => if index == 0 {
                Some(LineLocation { start: 0, end })
            } else {
                match self.end(index - 1, loaded) {
                    None => None,
                    Some(before) => Some(LineLocation { start: before.saturating_add(1), end }),
                }
            },
        }
    }
}


// ---------------------------------------------------------------------------
// The store.

/// The stored blocks among those from `from` up to `to`, in order.
pub open spec fn cold_between(blocks: Seq<BlockModel>, from: int, to: int) -> Seq<
    (usize, ColdLineBlock),
>
    decreases to - from,
{
    if from >= to {
        Seq::empty()
    } else {
        let before = cold_between(blocks, from, to - 1);
        if to - 1 < blocks.len() {
            match blocks[to - 1].ends {
                EndsModel::Cold(cold) => before.push(((to - 1) as usize, cold)),
                _ => before,
            }
        } else {
            before
        }
    }
}

/// The stored blocks that the lines `start` to `end` need: the line before
/// the first one says where it begins.
pub open spec fn cold_for(index: IndexModel, start: int, end: int) -> Seq<(usize, ColdLineBlock)> {
    let first = if start > 0 {
        start - 1
    } else {
        0
    };
    if start >= end || !index.stored {
        Seq::empty()
    } else {
        cold_between(
            index.blocks,
            first / LINE_BLOCK_SIZE as int,
            (end - 1) / LINE_BLOCK_SIZE as int + 1,
        )
    }
}

pub open spec fn narrow_bytes(ends: Seq<u32>) -> Seq<u8>
    decreases ends.len(),
{
    if ends.len() == 0 {
        Seq::empty()
    } else {
        narrow_bytes(ends.drop_last()) + u32_le(ends.last())
    }
}

pub open spec fn wide_bytes(ends: Seq<u64>) -> Seq<u8>
    decreases ends.len(),
{
    if ends.len() == 0 {
        Seq::empty()
    } else {
        wide_bytes(ends.drop_last()) + u64_le(ends.last())
    }
}

/// The ends of a block in memory, as they are written.
pub open spec fn ends_bytes(ends: EndsModel) -> Seq<u8> {
    match ends {
        EndsModel::Narrow(ends) => narrow_bytes(ends),
        EndsModel::Wide(ends) => wide_bytes(ends),
        EndsModel::Cold(_) => Seq::empty(),
    }
}

/// How many bytes one end takes.
pub open spec fn ends_width(ends: EndsModel) -> u8 {
    match ends {
        EndsModel::Narrow(_) => 4,
        EndsModel::Wide(_) => 8,
        EndsModel::Cold(cold) => cold.width,
    }
}

pub proof fn lemma_narrow_bytes_len(ends: Seq<u32>)
    ensures
        narrow_bytes(ends).len() == 4 * ends.len(),
    decreases ends.len(),
{
    if ends.len() > 0 {
        lemma_narrow_bytes_len(ends.drop_last());
    }
}

pub proof fn lemma_wide_bytes_len(ends: Seq<u64>)
    ensures
        wide_bytes(ends).len() == 8 * ends.len(),
    decreases ends.len(),
{
    if ends.len() > 0 {
        lemma_wide_bytes_len(ends.drop_last());
    }
}

/// Appends ends of four bytes each.
pub fn push_narrow(out: &mut Vec<u8>, ends: &Vec<u32>)
    ensures
        final(out)@ == old(out)@ + narrow_bytes(ends@),
{
    let mut index: usize = 0;
    assert(ends@.take(0) =~= Seq::empty());
    assert(out@ + Seq::<u8>::empty() =~= out@);
    while index < ends.len()
        invariant
            index <= ends@.len(),
            out@ == old(out)@ + narrow_bytes(ends@.take(index as int)),
        decreases ends@.len() - index,
    {
        push_u32(out, ends[index]);
        proof {
            let next = ends@.take(index + 1);
            assert(next.drop_last() =~= ends@.take(index as int));
            crate::bytes::lemma_concat_associative(
                old(out)@,
                narrow_bytes(ends@.take(index as int)),
                u32_le(ends@[index as int]),
            );
        }
        index += 1;
    }
    assert(ends@.take(ends@.len() as int) =~= ends@);
}

/// Appends ends of eight bytes each.
pub fn push_wide(out: &mut Vec<u8>, ends: &Vec<u64>)
    ensures
        final(out)@ == old(out)@ + wide_bytes(ends@),
{
    let mut index: usize = 0;
    assert(ends@.take(0) =~= Seq::empty());
    assert(out@ + Seq::<u8>::empty() =~= out@);
    while index < ends.len()
        invariant
            index <= ends@.len(),
            out@ == old(out)@ + wide_bytes(ends@.take(index as int)),
        decreases ends@.len() - index,
    {
        push_u64(out, ends[index]);
        proof {
            let next = ends@.take(index + 1);
            assert(next.drop_last() =~= ends@.take(index as int));
            crate::bytes::lemma_concat_associative(
                old(out)@,
                wide_bytes(ends@.take(index as int)),
                u64_le(ends@[index as int]),
            );
        }
        index += 1;
    }
    assert(ends@.take(ends@.len() as int) =~= ends@);
}

/// Reads ends of four bytes each.
pub fn read_narrow(payload: &[u8]) -> (ends: Vec<u32>)
    requires
        payload@.len() % 4 == 0,
    ensures
        narrow_bytes(ends@) == payload@,
        ends@.len() == payload@.len() / 4,
{
    let mut ends: Vec<u32> = Vec::new();
    let mut at: usize = 0;
    assert(payload@.take(0) =~= Seq::empty());
    while at < payload.len()
        invariant
            at <= payload@.len(),
            at % 4 == 0,
            payload@.len() % 4 == 0,
            ends@.len() == at / 4,
            narrow_bytes(ends@) == payload@.take(at as int),
        decreases payload@.len() - at,
    {
        assert(at + 4 <= payload@.len());
        let value: u32 = read_u32(payload, at);
        let ghost before = ends@;
        ends.push(value);
        proof {
            assert(ends@.drop_last() =~= before);
            let encoded = payload@.subrange(at as int, at + 4);
            assert(payload@.skip(at as int) =~= encoded + payload@.skip(at + 4));
            lemma_prefix_decides(encoded, payload@.skip(at + 4));
            law_le_u32_bytes(encoded);
            assert(payload@.take(at + 4) =~= payload@.take(at as int) + encoded);
            assert(at + 4 <= payload.len());
        }
        at += 4;
    }
    assert(payload@.take(payload@.len() as int) =~= payload@);
    ends
}

/// Reads ends of eight bytes each.
pub fn read_wide(payload: &[u8]) -> (ends: Vec<u64>)
    requires
        payload@.len() % 8 == 0,
    ensures
        wide_bytes(ends@) == payload@,
        ends@.len() == payload@.len() / 8,
{
    let mut ends: Vec<u64> = Vec::new();
    let mut at: usize = 0;
    assert(payload@.take(0) =~= Seq::empty());
    while at < payload.len()
        invariant
            at <= payload@.len(),
            at % 8 == 0,
            payload@.len() % 8 == 0,
            ends@.len() == at / 8,
            wide_bytes(ends@) == payload@.take(at as int),
        decreases payload@.len() - at,
    {
        assert(at + 8 <= payload@.len());
        let value: u64 = read_u64(payload, at);
        let ghost before = ends@;
        ends.push(value);
        proof {
            assert(ends@.drop_last() =~= before);
            let encoded = payload@.subrange(at as int, at + 8);
            assert(payload@.skip(at as int) =~= encoded + payload@.skip(at + 8));
            lemma_prefix_decides(encoded, payload@.skip(at + 8));
            law_le_u64_bytes(encoded);
            assert(payload@.take(at + 8) =~= payload@.take(at as int) + encoded);
            assert(at + 8 <= payload.len());
        }
        at += 8;
    }
    assert(payload@.take(payload@.len() as int) =~= payload@);
    ends
}

pub proof fn lemma_narrow_bytes_injective(left: Seq<u32>, right: Seq<u32>)
    requires
        narrow_bytes(left) == narrow_bytes(right),
    ensures
        left == right,
    decreases left.len(),
{
    lemma_narrow_bytes_len(left);
    lemma_narrow_bytes_len(right);
    if left.len() == 0 {
        assert(left =~= right);
    } else {
        let bytes = narrow_bytes(left);
        let cut = bytes.len() - 4;
        lemma_narrow_bytes_len(left.drop_last());
        lemma_narrow_bytes_len(right.drop_last());
        assert(bytes.take(cut) =~= narrow_bytes(left.drop_last()));
        assert(bytes.take(cut) =~= narrow_bytes(right.drop_last()));
        lemma_narrow_bytes_injective(left.drop_last(), right.drop_last());
        assert(bytes.skip(cut) =~= u32_le(left.last()));
        assert(bytes.skip(cut) =~= u32_le(right.last()));
        law_u32_round_trip(left.last());
        law_u32_round_trip(right.last());
        assert(left =~= left.drop_last().push(left.last()));
        assert(right =~= right.drop_last().push(right.last()));
    }
}

pub proof fn lemma_wide_bytes_injective(left: Seq<u64>, right: Seq<u64>)
    requires
        wide_bytes(left) == wide_bytes(right),
    ensures
        left == right,
    decreases left.len(),
{
    lemma_wide_bytes_len(left);
    lemma_wide_bytes_len(right);
    if left.len() == 0 {
        assert(left =~= right);
    } else {
        let bytes = wide_bytes(left);
        let cut = bytes.len() - 8;
        lemma_wide_bytes_len(left.drop_last());
        lemma_wide_bytes_len(right.drop_last());
        assert(bytes.take(cut) =~= wide_bytes(left.drop_last()));
        assert(bytes.take(cut) =~= wide_bytes(right.drop_last()));
        lemma_wide_bytes_injective(left.drop_last(), right.drop_last());
        assert(bytes.skip(cut) =~= u64_le(left.last()));
        assert(bytes.skip(cut) =~= u64_le(right.last()));
        law_u64_round_trip(left.last());
        law_u64_round_trip(right.last());
        assert(left =~= left.drop_last().push(left.last()));
        assert(right =~= right.drop_last().push(right.last()));
    }
}

/// The header in front of a stored block.
#[verifier::opaque]
pub open spec fn block_header(cold: ColdLineBlock) -> Seq<u8> {
    seq![0x43u8, 0x53u8, 0x4cu8, 0x42u8] + u16_le(LINE_BLOCK_VERSION) + seq![cold.width, 0u8]
        + u64_le(cold.block_id) + u64_le(cold.logical_base) + u32_le(cold.count as u32) + u32_le(
        (cold.count * cold.width) as u32,
    ) + u32_le(cold.checksum) + seq![0u8, 0u8, 0u8, 0u8]
}

/// The bytes that move a block to the store, and what stands for it then.
#[derive(Debug)]
pub struct StoreWrite {
    pub offset: u64,
    pub header: Vec<u8>,
    pub payload: Vec<u8>,
    pub cold: ColdLineBlock,
}

/// What stands for block `at` once it is in the store at `offset`.
pub open spec fn sealed_block(block: BlockModel, at: int, offset: u64) -> ColdLineBlock {
    ColdLineBlock {
        block_id: at as u64,
        logical_base: block.base,
        payload_offset: sat_add(offset as int, LINE_BLOCK_HEADER_BYTES as int) as u64,
        count: LINE_BLOCK_SIZE,
        width: ends_width(block.ends),
        checksum: crc32(ends_bytes(block.ends)),
    }
}

impl IndexModel {
    /// Block `at` is full and still in memory.
    pub open spec fn can_seal(self, at: int) -> bool {
        0 <= at < self.blocks.len() && !(self.blocks[at].ends is Cold) && self.blocks[at].ends.count()
            == LINE_BLOCK_SIZE
    }

    /// The directory once block `at` has been written to the store.
    pub open spec fn with_sealed(self, at: int) -> IndexModel {
        let cold = sealed_block(self.blocks[at], at, self.next_store_offset);
        IndexModel {
            blocks: self.blocks.update(
                at,
                BlockModel { ends: EndsModel::Cold(cold), ..self.blocks[at] },
            ),
            next_store_offset: sat_add(
                cold.payload_offset as int,
                ends_bytes(self.blocks[at].ends).len() as int,
            ) as u64,
            ..self
        }
    }
}

/// Moving a block to the store keeps the directory well formed.
pub proof fn law_sealing_keeps_wf(index: IndexModel, at: int)
    requires
        index.wf(),
        index.can_seal(at),
        at <= u64::MAX,
    ensures
        index.with_sealed(at).wf(),
{
    reveal(IndexModel::wf);
    let after = index.with_sealed(at);
    assert forall|i: int| 0 <= i < after.blocks.len() implies block_wf(
        #[trigger] after.blocks[i],
        after.len,
        i,
    ) by {
        assert(block_wf(index.blocks[i], index.len, i));
    }
}

/// Moving a block to the store loses no line: with the block read back, every
/// line ends where it did.
pub proof fn law_sealing_loses_no_line(
    index: IndexModel,
    loaded: Map<int, Seq<u64>>,
    ends: Seq<u64>,
    at: int,
)
    requires
        index.wf(),
        index.can_seal(at),
        index.holds(loaded, ends),
    ensures
        index.with_sealed(at).holds(loaded.insert(at, index.blocks[at].ends.values()), ends),
{
    reveal(IndexModel::wf);
    reveal(IndexModel::holds);
    let after = index.with_sealed(at);
    let read = loaded.insert(at, index.blocks[at].ends.values());
    assert forall|i: int| 0 <= i < after.len implies #[trigger] after.end_of(i, read) == Some(
        ends[i],
    ) by {
        assert(index.end_of(i, loaded) == Some(ends[i]));
        let block = i / LINE_BLOCK_SIZE as int;
        if block != at {
            assert(after.blocks[block] == index.blocks[block]);
        }
    }
}

impl BlockedLineIndex {
    /// The stored blocks that the lines `start` to `end` need.
    pub fn cold_for_range(&self, start: usize, end: usize) -> (cold: Vec<(usize, ColdLineBlock)>)
        ensures
            cold@ == cold_for(self@, start as int, end as int),
    {
        let mut result: Vec<(usize, ColdLineBlock)> = Vec::new();
        if start >= end || !self.stored {
            return result;
        }
        let first: usize = start.saturating_sub(1) / LINE_BLOCK_SIZE;
        let last: usize = (end - 1) / LINE_BLOCK_SIZE;
        let mut index: usize = first;
        assert(self.blocks@.len() == self@.blocks.len());
        while index <= last
            invariant
                first <= index <= last + 1,
                last < usize::MAX,
                result@ == cold_between(self@.blocks, first as int, index as int),
            decreases last + 1 - index,
        {
            if index < self.blocks.len() {
                assert(self@.blocks[index as int] == self.blocks@[index as int]@);
                if let LineBlockEnds::Cold(cold) = &self.blocks[index].ends {
                    result.push((index, *cold));
                }
            }
            index += 1;
        }
        result
    }

    pub fn has_cold_blocks(&self) -> (found: bool)
        ensures
            found == exists|i: int|
                0 <= i < self@.blocks.len() && (#[trigger] self@.blocks[i]).ends is Cold,
    {
        let mut index: usize = 0;
        while index < self.blocks.len()
            invariant
                index <= self.blocks@.len(),
                forall|i: int| 0 <= i < index ==> !((#[trigger] self@.blocks[i]).ends is Cold),
            decreases self.blocks@.len() - index,
        {
            assert(self@.blocks[index as int] == self.blocks@[index as int]@);
            if let LineBlockEnds::Cold(_) = &self.blocks[index].ends {
                assert(self@.blocks[index as int].ends is Cold);
                return true;
            }
            index += 1;
        }
        false
    }

    /// What to write to move block `at` to the store.
    pub fn seal_plan(&self, at: usize) -> (write: StoreWrite)
        requires
            self@.wf(),
            self@.can_seal(at as int),
        ensures
            write.offset == self@.next_store_offset,
            write.cold == sealed_block(self@.blocks[at as int], at as int, self@.next_store_offset),
            write.header@ == block_header(write.cold),
            write.header@.len() == LINE_BLOCK_HEADER_BYTES,
            write.payload@ == ends_bytes(self@.blocks[at as int].ends),
            write.payload@.len() == LINE_BLOCK_SIZE * write.cold.width,
    {
        proof {
            reveal(IndexModel::wf);
        }
        assert(self@.blocks[at as int] == self.blocks@[at as int]@);
        let mut payload: Vec<u8> = Vec::new();
        let width: u8 = match &self.blocks[at].ends {
            LineBlockEnds::Narrow(ends) => {
                push_narrow(&mut payload, ends);
                proof {
                    lemma_narrow_bytes_len(ends@);
                    assert(payload@ =~= narrow_bytes(ends@));
                }
                4
            },
            LineBlockEnds::Wide(ends) => {
                push_wide(&mut payload, ends);
                proof {
                    lemma_wide_bytes_len(ends@);
                    assert(payload@ =~= wide_bytes(ends@));
                }
                8
            },
            LineBlockEnds::Cold(_) => 0,
        };
        let cold = ColdLineBlock {
            block_id: at as u64,
            logical_base: self.blocks[at].logical_base,
            payload_offset: self.next_store_offset.saturating_add(LINE_BLOCK_HEADER_BYTES as u64),
            count: LINE_BLOCK_SIZE,
            width,
            checksum: crc32fast::hash(payload.as_slice()),
        };
        let mut header: Vec<u8> = Vec::with_capacity(LINE_BLOCK_HEADER_BYTES);
        header.push(0x43);
        header.push(0x53);
        header.push(0x4c);
        header.push(0x42);
        assert(header@ =~= seq![0x43u8, 0x53u8, 0x4cu8, 0x42u8]);
        push_u16(&mut header, LINE_BLOCK_VERSION);
        let ghost front = header@;
        header.push(width);
        header.push(0);
        assert(header@ =~= front + seq![width, 0u8]);
        push_u64(&mut header, cold.block_id);
        push_u64(&mut header, cold.logical_base);
        push_u32(&mut header, LINE_BLOCK_SIZE as u32);
        push_u32(&mut header, payload.len() as u32);
        push_u32(&mut header, cold.checksum);
        let ghost front = header@;
        header.push(0);
        header.push(0);
        header.push(0);
        header.push(0);
        assert(header@ =~= front + seq![0u8, 0u8, 0u8, 0u8]);
        proof {
            reveal(block_header);
        }
        StoreWrite { offset: self.next_store_offset, header, payload, cold }
    }

    /// Notes that block `at` has been written as planned.
    pub fn seal_done(&mut self, at: usize, write: &StoreWrite)
        requires
            old(self)@.wf(),
            old(self)@.can_seal(at as int),
            write.cold == sealed_block(
                old(self)@.blocks[at as int],
                at as int,
                old(self)@.next_store_offset,
            ),
            write.payload@ == ends_bytes(old(self)@.blocks[at as int].ends),
        ensures
            final(self)@ == old(self)@.with_sealed(at as int),
            final(self)@.wf(),
    {
        proof {
            law_sealing_keeps_wf(self@, at as int);
            assert(self@.blocks[at as int] == self.blocks@[at as int]@);
        }
        self.next_store_offset = write.cold.payload_offset.saturating_add(
            write.payload.len() as u64,
        );
        self.blocks[at].ends = LineBlockEnds::Cold(write.cold);
        assert(self@.blocks =~= old(self)@.with_sealed(at as int).blocks);
        assert(self@ =~= old(self)@.with_sealed(at as int));
    }
}

// ---------------------------------------------------------------------------
// Reading a block back.

/// A header names the block that it stands in front of.
pub open spec fn header_names(header: Seq<u8>, cold: ColdLineBlock) -> bool {
    &&& header[0] == 0x43
    &&& header[1] == 0x53
    &&& header[2] == 0x4c
    &&& header[3] == 0x42
    &&& le_u16(header.skip(4)) == LINE_BLOCK_VERSION
    &&& header[6] == cold.width
    &&& le_u64(header.skip(8)) == cold.block_id
    &&& le_u64(header.skip(16)) == cold.logical_base
    &&& le_u32(header.skip(24)) == cold.count
    &&& le_u32(header.skip(28)) == cold.count * cold.width
    &&& le_u32(header.skip(32)) == cold.checksum
}

/// The ends that a payload of `width` bytes per end holds.
pub open spec fn payload_ends(payload: Seq<u8>, width: u8, ends: Seq<u64>) -> bool {
    if width == 4 {
        exists|narrow: Seq<u32>| #[trigger] narrow_bytes(narrow) == payload && ends == widened(narrow)
    } else {
        wide_bytes(ends) == payload
    }
}

/// The message for a block that is not what it should be.
pub open spec fn corrupt_block(block_id: u64, detail: Seq<char>, error: JournalError) -> bool {
    match error {
        JournalError::CorruptLineBlock { block_id: named, detail: text } => named == block_id
            && text@ == detail,
        _ => false,
    }
}

/// The first thing that is wrong with a block that was read.
pub open spec fn block_fault(cold: ColdLineBlock, header: Seq<u8>, payload: Seq<u8>) -> Option<
    Seq<char>,
> {
    if !header_names(header, cold) {
        Some("header metadata mismatch"@)
    } else if crc32(payload) != cold.checksum {
        Some("checksum mismatch"@)
    } else if cold.width != 4 && cold.width != 8 && payload.len() > 0 {
        Some("unsupported offset width "@ + decimal_text(cold.width as nat))
    } else {
        None
    }
}

/// What was written for a block reads back as that block.
pub proof fn law_written_header_names_block(cold: ColdLineBlock)
    requires
        cold.count <= u32::MAX,
        cold.count * cold.width <= u32::MAX,
    ensures
        block_header(cold).len() == LINE_BLOCK_HEADER_BYTES,
        header_names(block_header(cold), cold),
{
    reveal(block_header);
    let header = block_header(cold);
    let length = (cold.count * cold.width) as u32;
    law_u16_round_trip(LINE_BLOCK_VERSION);
    law_u64_round_trip(cold.block_id);
    law_u64_round_trip(cold.logical_base);
    law_u32_round_trip(cold.count as u32);
    law_u32_round_trip(length);
    law_u32_round_trip(cold.checksum);
    assert(header.skip(4) =~= u16_le(LINE_BLOCK_VERSION) + header.skip(6));
    lemma_prefix_decides(u16_le(LINE_BLOCK_VERSION), header.skip(6));
    assert(header.skip(8) =~= u64_le(cold.block_id) + header.skip(16));
    lemma_prefix_decides(u64_le(cold.block_id), header.skip(16));
    assert(header.skip(16) =~= u64_le(cold.logical_base) + header.skip(24));
    lemma_prefix_decides(u64_le(cold.logical_base), header.skip(24));
    assert(header.skip(24) =~= u32_le(cold.count as u32) + header.skip(28));
    lemma_prefix_decides(u32_le(cold.count as u32), header.skip(28));
    assert(header.skip(28) =~= u32_le(length) + header.skip(32));
    lemma_prefix_decides(u32_le(length), header.skip(32));
    assert(header.skip(32) =~= u32_le(cold.checksum) + header.skip(36));
    lemma_prefix_decides(u32_le(cold.checksum), header.skip(36));
}

/// A block that is read back from what was written for it holds the ends that
/// it had in memory.
pub proof fn law_block_round_trip(block: BlockModel, at: int, offset: u64, ends: Seq<u64>)
    requires
        !(block.ends is Cold),
        block.ends.count() == LINE_BLOCK_SIZE,
        payload_ends(ends_bytes(block.ends), ends_width(block.ends), ends),
    ensures
        block_fault(
            sealed_block(block, at, offset),
            block_header(sealed_block(block, at, offset)),
            ends_bytes(block.ends),
        ) is None,
        ends == block.ends.values(),
{
    law_written_header_names_block(sealed_block(block, at, offset));
    match block.ends {
        EndsModel::Narrow(narrow) => {
            let read = choose|read: Seq<u32>| #[trigger]
                narrow_bytes(read) == narrow_bytes(narrow) && ends == widened(read);
            lemma_narrow_bytes_injective(read, narrow);
        },
        EndsModel::Wide(wide) => {
            lemma_wide_bytes_injective(ends, wide);
        },
        EndsModel::Cold(_) => {},
    }
}

impl ColdLineBlock {
    pub fn corrupt(&self, detail: &str) -> (error: JournalError)
        ensures
            corrupt_block(self.block_id, detail@, error),
    {
        JournalError::CorruptLineBlock { block_id: self.block_id, detail: detail.to_owned() }
    }

    /// Where the block's header stands in the store and how long its payload is.
    pub fn location(&self) -> (place: Result<(u64, usize), JournalError>)
        ensures
            match place {
                Ok((offset, length)) => length == self.count * self.width
                    && self.payload_offset >= LINE_BLOCK_HEADER_BYTES && offset
                    == self.payload_offset - LINE_BLOCK_HEADER_BYTES,
                Err(error) => if self.count * self.width > usize::MAX {
                    corrupt_block(self.block_id, "payload length overflow"@, error)
                } else {
                    self.payload_offset < LINE_BLOCK_HEADER_BYTES && corrupt_block(
                        self.block_id,
                        "payload offset precedes header"@,
                        error,
                    )
                },
            },
    {
        let length: usize = match self.count.checked_mul(self.width as usize) {
            Some(length) => length,
            None => return Err(self.corrupt("payload length overflow")),
        };
        if self.payload_offset < LINE_BLOCK_HEADER_BYTES as u64 {
            return Err(self.corrupt("payload offset precedes header"));
        }
        Ok((self.payload_offset - LINE_BLOCK_HEADER_BYTES as u64, length))
    }

    /// The ends in a block that was read from the store.
    pub fn load(&self, header: &[u8], payload: &[u8]) -> (ends: Result<Vec<u64>, JournalError>)
        requires
            header@.len() == LINE_BLOCK_HEADER_BYTES,
            payload@.len() == self.count * self.width,
            self.width > 0,
        ensures
            match ends {
                Ok(ends) => block_fault(*self, header@, payload@) is None && (payload@.len() > 0
                    ==> payload_ends(payload@, self.width, ends@)) && (payload@.len() == 0
                    ==> ends@.len() == 0),
                Err(error) => match block_fault(*self, header@, payload@) {
                    Some(detail) => corrupt_block(self.block_id, detail, error),
                    None => false,
                },
            },
    {
        let named = header[0] == 0x43 && header[1] == 0x53 && header[2] == 0x4c && header[3] == 0x42
            && read_u16(header, 4) == LINE_BLOCK_VERSION && header[6] == self.width && read_u64(
            header,
            8,
        ) == self.block_id && read_u64(header, 16) == self.logical_base && read_u32(header, 24)
            as usize == self.count && read_u32(header, 28) as usize == payload.len() && read_u32(
            header,
            32,
        ) == self.checksum;
        if !named {
            return Err(self.corrupt("header metadata mismatch"));
        }
        if crc32fast::hash(payload) != self.checksum {
            return Err(self.corrupt("checksum mismatch"));
        }
        if payload.len() == 0 {
            return Ok(Vec::new());
        }
        if self.width == 4 {
            let narrow = read_narrow(payload);
            let mut ends: Vec<u64> = Vec::new();
            let mut index: usize = 0;
            while index < narrow.len()
                invariant
                    index <= narrow@.len(),
                    ends@.len() == index,
                    forall|i: int| 0 <= i < index ==> ends@[i] == narrow@[i] as u64,
                decreases narrow@.len() - index,
            {
                ends.push(narrow[index] as u64);
                index += 1;
            }
            assert(ends@ =~= widened(narrow@));
            Ok(ends)
        } else if self.width == 8 {
            Ok(read_wide(payload))
        } else {
            let number = u64_text(self.width as u64);
            Err(self.corrupt(join("unsupported offset width ", number.as_str()).as_str()))
        }
    }
}

} // verus!
