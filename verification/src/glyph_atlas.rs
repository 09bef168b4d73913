//! The atlas of glyph images: which rectangle holds which glyph, which glyphs
//! make room for others, and which pixels have to be uploaded.
use crate::outside::{
    allocate_slot, apart, atlas_area, atlas_has_room, atlas_slots, new_atlas, release_slot,
};
use crate::paint::{least, least_of, most, most_of};
use vstd::prelude::*;

verus! {

pub const ATLAS_WIDTH: u32 = 2048;

pub const ATLAS_HEIGHT: u32 = 2048;

pub const ATLAS_BYTES_PER_PIXEL: u32 = 4;

/// The side of the tile of an ASCII glyph.
pub const GLYPH_TILE: u32 = 32;

pub const GLYPH_PADDING: u32 = 2;

pub const FIRST_GLYPH: u32 = 32;

pub const LAST_GLYPH: u32 = 126;

/// The rows of pixels that the ASCII glyphs take up.
pub const STATIC_ATLAS_HEIGHT: u32 = 64;

// ---------------------------------------------------------------------------
// ASCII glyphs.

/// The glyph of a character: its own one for printable ASCII, else that of a
/// question mark.
pub open spec fn ascii_index(character: char) -> int {
    if FIRST_GLYPH <= character as u32 <= LAST_GLYPH {
        character as u32 - FIRST_GLYPH
    } else {
        '?' as u32 - FIRST_GLYPH
    }
}

pub fn ascii_glyph(character: char) -> (index: usize)
    ensures
        index == ascii_index(character),
        index <= LAST_GLYPH - FIRST_GLYPH,
{
    let code: u32 = character as u32;
    if FIRST_GLYPH <= code && code <= LAST_GLYPH {
        (code - FIRST_GLYPH) as usize
    } else {
        31
    }
}

/// The corner of the tile of an ASCII glyph.
pub open spec fn tile(index: int) -> (int, int) {
    ((index % 64) * GLYPH_TILE, (index / 64) * GLYPH_TILE)
}

pub fn tile_origin(index: usize) -> (origin: (u32, u32))
    requires
        index <= LAST_GLYPH - FIRST_GLYPH,
    ensures
        (origin.0 as int, origin.1 as int) == tile(index as int),
        origin.0 + GLYPH_TILE <= ATLAS_WIDTH,
        origin.1 + GLYPH_TILE <= STATIC_ATLAS_HEIGHT,
{
    let index: u32 = index as u32;
    ((index % 64) * GLYPH_TILE, (index / 64) * GLYPH_TILE)
}

/// Tiles of different glyphs do not overlap.
pub proof fn law_tiles_do_not_overlap(one: int, other: int)
    requires
        0 <= one <= LAST_GLYPH - FIRST_GLYPH,
        0 <= other <= LAST_GLYPH - FIRST_GLYPH,
        one != other,
    ensures
        ({
            let (left, top) = tile(one);
            let (other_left, other_top) = tile(other);
            ||| left + GLYPH_TILE <= other_left
            ||| other_left + GLYPH_TILE <= left
            ||| top + GLYPH_TILE <= other_top
            ||| other_top + GLYPH_TILE <= top
        }),
{
}

/// Whether a glyph of this size fits into a tile.
pub fn fits_tile(width: u32, height: u32) -> (fits: bool)
    ensures
        fits == (width + GLYPH_PADDING * 2 <= GLYPH_TILE && height + GLYPH_PADDING * 2
            <= GLYPH_TILE),
{
    width <= GLYPH_TILE - GLYPH_PADDING * 2 && height <= GLYPH_TILE - GLYPH_PADDING * 2
}

// ---------------------------------------------------------------------------
// Pixels.

/// What the bytes of a glyph image mean.
#[derive(Clone, Copy, Debug, PartialEq, Eq, Structural)]
pub enum GlyphContent {
    /// One byte of coverage for a pixel.
    Mask,
    /// Four bytes of color for a pixel.
    Color,
    /// Three bytes of coverage for a pixel, and one that is not used.
    SubpixelMask,
}

pub open spec fn highest(first: u8, second: u8, third: u8) -> u8 {
    if first >= second && first >= third {
        first
    } else if second >= third {
        second
    } else {
        third
    }
}

/// A pixel of the atlas from an image: coverage becomes white of that opacity.
/// Where the image has no such pixel it is clear.
pub open spec fn image_pixel(content: GlyphContent, data: Seq<u8>, index: int) -> [u8; 4] {
    match content {
        GlyphContent::Mask => [255, 255, 255, if index < data.len() {
            data[index]
        } else {
            0
        }],
        GlyphContent::Color => if index * 4 + 4 <= data.len() {
            [data[index * 4], data[index * 4 + 1], data[index * 4 + 2], data[index * 4 + 3]]
        } else {
            [0, 0, 0, 0]
        },
        GlyphContent::SubpixelMask => [255, 255, 255, if index * 4 + 4 <= data.len() {
            highest(data[index * 4], data[index * 4 + 1], data[index * 4 + 2])
        } else {
            0
        }],
    }
}

fn highest_of(first: u8, second: u8, third: u8) -> (number: u8)
    ensures
        number == highest(first, second, third),
{
    if first >= second && first >= third {
        first
    } else if second >= third {
        second
    } else {
        third
    }
}

pub fn atlas_pixel(content: GlyphContent, data: &[u8], source_index: usize) -> (pixel: [u8; 4])
    requires
        content != GlyphContent::Mask ==> source_index * 4 + 4 <= usize::MAX,
    ensures
        pixel == image_pixel(content, data@, source_index as int),
{
    match content {
        GlyphContent::Mask => {
            let coverage: u8 = if source_index < data.len() {
                data[source_index]
            } else {
                0
            };
            [255, 255, 255, coverage]
        },
        GlyphContent::Color => {
            let at: usize = source_index * 4;
            if at + 4 <= data.len() {
                [data[at], data[at + 1], data[at + 2], data[at + 3]]
            } else {
                [0, 0, 0, 0]
            }
        },
        GlyphContent::SubpixelMask => {
            let at: usize = source_index * 4;
            let coverage: u8 = if at + 4 <= data.len() {
                highest_of(data[at], data[at + 1], data[at + 2])
            } else {
                0
            };
            [255, 255, 255, coverage]
        },
    }
}

/// Where a pixel of the atlas begins among its bytes.
pub open spec fn pixel_at(x: int, y: int) -> int {
    (y * ATLAS_WIDTH + x) * 4
}

/// A byte of the atlas belongs to a pixel of the rectangle.
pub open spec fn in_rect(at: int, x: int, y: int, width: int, height: int) -> bool {
    let column = (at / 4) % 2048;
    let row = (at / 4) / 2048;
    x <= column < x + width && y <= row < y + height
}

/// The atlas with an image painted over the rectangle at `x`, `y`.
pub open spec fn with_image(
    pixels: Seq<u8>,
    x: int,
    y: int,
    width: int,
    height: int,
    content: GlyphContent,
    data: Seq<u8>,
) -> Seq<u8> {
    Seq::new(
        pixels.len(),
        |at: int|
            if in_rect(at, x, y, width, height) {
                image_pixel(
                    content,
                    data,
                    ((at / 4) / 2048 - y) * width + ((at / 4) % 2048 - x),
                )@[at % 4]
            } else {
                pixels[at]
            },
    )
}

// ---------------------------------------------------------------------------
// Dirty rectangles.

#[derive(Clone, Copy, Debug, PartialEq, Eq, Structural)]
pub struct AtlasDirtyRect {
    pub min_x: u32,
    pub min_y: u32,
    pub max_x: u32,
    pub max_y: u32,
}

/// The pixels to upload, row after row.
#[derive(Clone, Debug, PartialEq, Eq)]
pub struct AtlasUpload {
    pub origin: [u32; 2],
    pub size: [u32; 2],
    pub bytes: Vec<u8>,
}

pub open spec fn sum_capped(left: u32, right: u32, limit: u32) -> u32 {
    if left + right <= limit {
        (left + right) as u32
    } else {
        limit
    }
}

/// The rectangle of a change, as far as it lies in the atlas.
pub open spec fn change_rect(x: u32, y: u32, width: u32, height: u32) -> AtlasDirtyRect {
    AtlasDirtyRect {
        min_x: x,
        min_y: y,
        max_x: sum_capped(x, width, ATLAS_WIDTH),
        max_y: sum_capped(y, height, ATLAS_HEIGHT),
    }
}

/// The smallest rectangle around what was dirty and a change.
pub open spec fn dirty_with(dirty: Option<AtlasDirtyRect>, next: AtlasDirtyRect) -> AtlasDirtyRect {
    match dirty {
        None => next,
        Some(current) => AtlasDirtyRect {
            min_x: least(current.min_x, next.min_x),
            min_y: least(current.min_y, next.min_y),
            max_x: most(current.max_x, next.max_x),
            max_y: most(current.max_y, next.max_y),
        },
    }
}

fn add_capped(left: u32, right: u32, limit: u32) -> (sum: u32)
    ensures
        sum == sum_capped(left, right, limit),
{
    if left <= limit && right <= limit - left {
        left + right
    } else {
        limit
    }
}

pub open spec fn saturating_next(number: u64) -> u64 {
    if number < u64::MAX {
        (number + 1) as u64
    } else {
        number
    }
}

fn next_number(number: u64) -> (next: u64)
    ensures
        next == saturating_next(number),
{
    if number < u64::MAX {
        number + 1
    } else {
        number
    }
}

// ---------------------------------------------------------------------------
// Cached glyphs.

/// Where a glyph lies in the atlas and how it stands to its cell.
#[derive(Clone, Copy, Debug, PartialEq, Eq, Structural)]
pub struct GlyphInfo {
    pub atlas_x: u32,
    pub atlas_y: u32,
    pub width: u32,
    pub height: u32,
    pub left: i32,
    pub top: i32,
    pub colored: bool,
}

#[derive(Clone, Copy, Debug, PartialEq, Eq, Structural)]
pub struct CachedGlyph {
    pub key: u64,
    pub slot: u32,
    pub last_used: u64,
    /// The frame that is being made shows it.
    pub pinned: bool,
    pub glyph: GlyphInfo,
}

/// A glyph image.
pub struct GlyphImage<'a> {
    pub width: u32,
    pub height: u32,
    pub left: i32,
    pub top: i32,
    pub content: GlyphContent,
    pub data: &'a [u8],
}

/// The glyphs are in the order of their keys.
pub open spec fn keys_rise(glyphs: Seq<CachedGlyph>) -> bool {
    forall|i: int, j: int|
        0 <= i < j < glyphs.len() ==> (#[trigger] glyphs[i]).key < (#[trigger] glyphs[j]).key
}

/// The glyphs hold one with this key.
pub open spec fn has_key(glyphs: Seq<CachedGlyph>, key: u64) -> bool {
    exists|i: int| 0 <= i < glyphs.len() && (#[trigger] glyphs[i]).key == key
}

/// A glyph was looked up: the frame shows it and it was used just now, or there
/// is none with the key and no glyph has changed.
pub open spec fn looked_up(
    before: AtlasModel,
    after: AtlasModel,
    key: u64,
    glyph: Option<GlyphInfo>,
) -> bool {
    match glyph {
        Some(glyph) => exists|i: int|
            {
                &&& 0 <= i < before.glyphs.len()
                &&& (#[trigger] before.glyphs[i]).key == key
                &&& before.glyphs[i].glyph == glyph
                &&& after.glyphs == before.glyphs.update(
                    i,
                    CachedGlyph {
                        last_used: saturating_next(before.use_clock),
                        pinned: true,
                        ..before.glyphs[i]
                    },
                )
            },
        None => !has_key(before.glyphs, key) && after.glyphs == before.glyphs,
    }
}

/// The frame keeps the glyph of a key, and of the others those that it kept.
pub open spec fn keeps_for_frame(
    before: Seq<CachedGlyph>,
    after: Seq<CachedGlyph>,
    key: u64,
) -> bool {
    &&& after.len() == before.len()
    &&& forall|i: int|
        0 <= i < before.len() ==> #[trigger] after[i] == (CachedGlyph {
            pinned: before[i].pinned || before[i].key == key,
            ..before[i]
        })
}

/// The frame keeps no glyph, and all of them are still there.
pub open spec fn keeps_none(before: Seq<CachedGlyph>, after: Seq<CachedGlyph>) -> bool {
    &&& after.len() == before.len()
    &&& forall|i: int|
        0 <= i < before.len() ==> #[trigger] after[i] == (CachedGlyph {
            pinned: false,
            ..before[i]
        })
}

/// The first glyph makes room before the second.
pub open spec fn older(one: CachedGlyph, other: CachedGlyph) -> bool {
    one.last_used < other.last_used || one.last_used == other.last_used && one.key < other.key
}

/// From `before` to `after` glyphs have made room: none that the frame shows,
/// and none before one that was used longer ago.
pub open spec fn made_room(before: Seq<CachedGlyph>, after: Seq<CachedGlyph>) -> bool {
    &&& forall|glyph: CachedGlyph| after.contains(glyph) ==> #[trigger] before.contains(glyph)
    &&& forall|gone: CachedGlyph, kept: CachedGlyph|
        #![trigger before.contains(gone), after.contains(kept)]
        before.contains(gone) && !after.contains(gone) ==> !gone.pinned && (after.contains(kept)
            && !kept.pinned ==> older(gone, kept))
    &&& after.len() <= before.len()
}

/// The state of an atlas.
#[verifier::ext_equal]
pub struct AtlasModel {
    pub pixels: Seq<u8>,
    pub glyphs: Seq<CachedGlyph>,
    pub use_clock: u64,
    pub evictions: u64,
    pub revision: u64,
    pub dirty: Option<AtlasDirtyRect>,
    /// The width and the height of the part that glyphs are placed in.
    pub area: (i32, i32),
    /// What of that part is handed out.
    pub slots: guillotiere::AtlasAllocator,
}

/// One rectangle was taken back.
pub open spec fn took_back(
    before: guillotiere::AtlasAllocator,
    after: guillotiere::AtlasAllocator,
) -> bool {
    &&& atlas_area(after) == atlas_area(before)
    &&& exists|id: u32|
        atlas_slots(before).contains_key(id) && atlas_slots(after) == #[trigger] atlas_slots(
            before,
        ).remove(id)
}

/// Rectangles were taken back one after the other, each of them only because
/// there was no room yet.
pub open spec fn made_way(
    before: guillotiere::AtlasAllocator,
    after: guillotiere::AtlasAllocator,
    count: nat,
    width: i32,
    height: i32,
) -> bool
    decreases count,
{
    if count == 0 {
        after == before
    } else {
        exists|last: guillotiere::AtlasAllocator|
            #![trigger took_back(last, after)]
            made_way(before, last, (count - 1) as nat, width, height) && !atlas_has_room(
                last,
                width,
                height,
            ) && took_back(last, after)
    }
}

proof fn lemma_way_is_needed(
    before: guillotiere::AtlasAllocator,
    after: guillotiere::AtlasAllocator,
    count: nat,
    width: i32,
    height: i32,
)
    requires
        made_way(before, after, count, width, height),
        atlas_has_room(before, width, height),
    ensures
        count == 0,
    decreases count,
{
    if count > 0 {
        let last = choose|last: guillotiere::AtlasAllocator|
            #![trigger took_back(last, after)]
            made_way(before, last, (count - 1) as nat, width, height) && !atlas_has_room(
                last,
                width,
                height,
            ) && took_back(last, after);
        lemma_way_is_needed(before, last, (count - 1) as nat, width, height);
    }
}

pub struct GlyphAtlas {
    pixels: Vec<u8>,
    slots: guillotiere::AtlasAllocator,
    glyphs: Vec<CachedGlyph>,
    use_clock: u64,
    evictions: u64,
    revision: u64,
    dirty: Option<AtlasDirtyRect>,
}

impl View for GlyphAtlas {
    type V = AtlasModel;

    closed spec fn view(&self) -> AtlasModel {
        AtlasModel {
            pixels: self.pixels@,
            glyphs: self.glyphs@,
            use_clock: self.use_clock,
            evictions: self.evictions,
            revision: self.revision,
            dirty: self.dirty,
            area: atlas_area(self.slots),
            slots: self.slots,
        }
    }
}

impl AtlasModel {
    /// A rectangle finds room without a glyph going.
    pub open spec fn has_room(self, width: int, height: int) -> bool {
        atlas_has_room(self.slots, width as i32, height as i32)
    }
}

/// The glyph lies in its slot, which begins below the ASCII glyphs.
pub open spec fn lies_in(glyph: GlyphInfo, slot: (i32, i32, i32, i32)) -> bool {
    &&& slot.0 <= glyph.atlas_x
    &&& glyph.atlas_x + glyph.width <= slot.2
    &&& slot.1 + STATIC_ATLAS_HEIGHT <= glyph.atlas_y
    &&& glyph.atlas_y + glyph.height <= slot.3 + STATIC_ATLAS_HEIGHT
}

/// The slots lie in the area and overlap nowhere.
pub open spec fn slots_fit(slots: Map<u32, (i32, i32, i32, i32)>, area: (i32, i32)) -> bool {
    &&& forall|id: u32| #[trigger]
        slots.contains_key(id) ==> 0 <= slots[id].0 && slots[id].2 <= area.0 && 0 <= slots[id].1
            && slots[id].3 <= area.1
    &&& forall|one: u32, other: u32| #[trigger]
        slots.contains_key(one) && #[trigger] slots.contains_key(other) && one != other ==> apart(
            slots[one],
            slots[other],
        )
}

/// Each glyph has a slot of its own.
pub open spec fn glyphs_fit(
    glyphs: Seq<CachedGlyph>,
    slots: Map<u32, (i32, i32, i32, i32)>,
) -> bool {
    &&& forall|i: int|
        0 <= i < glyphs.len() ==> slots.contains_key((#[trigger] glyphs[i]).slot) && lies_in(
            glyphs[i].glyph,
            slots[glyphs[i].slot],
        )
    &&& forall|i: int, j: int|
        0 <= i < j < glyphs.len() ==> (#[trigger] glyphs[i]).slot != (#[trigger] glyphs[j]).slot
}

/// A glyph has the slot.
pub open spec fn slot_used(glyphs: Seq<CachedGlyph>, id: u32) -> bool {
    exists|i: int| 0 <= i < glyphs.len() && (#[trigger] glyphs[i]).slot == id
}

/// Each slot has a glyph.
pub open spec fn slots_used(
    glyphs: Seq<CachedGlyph>,
    slots: Map<u32, (i32, i32, i32, i32)>,
) -> bool {
    forall|id: u32| #[trigger] slots.contains_key(id) ==> slot_used(glyphs, id)
}

impl GlyphAtlas {
    pub closed spec fn wf(self) -> bool {
        &&& self.pixels@.len() == 16777216
        &&& 0 < atlas_area(self.slots).0 <= ATLAS_WIDTH
        &&& 0 < atlas_area(self.slots).1 <= ATLAS_HEIGHT - STATIC_ATLAS_HEIGHT
        &&& slots_fit(atlas_slots(self.slots), atlas_area(self.slots))
        &&& glyphs_fit(self.glyphs@, atlas_slots(self.slots))
        &&& slots_used(self.glyphs@, atlas_slots(self.slots))
        &&& keys_rise(self.glyphs@)
        &&& self.dirty matches Some(dirty) ==> dirty.max_x <= ATLAS_WIDTH && dirty.max_y
            <= ATLAS_HEIGHT
    }

    /// An atlas without glyphs. Its first pixel is white.
    pub fn new() -> (atlas: Self)
        ensures
            atlas.wf(),
            atlas@.glyphs.len() == 0,
            atlas@.pixels.len() == ATLAS_WIDTH * ATLAS_HEIGHT * ATLAS_BYTES_PER_PIXEL,
            forall|i: int|
                0 <= i < atlas@.pixels.len() ==> #[trigger] atlas@.pixels[i] == if i < 4 {
                    255u8
                } else {
                    0u8
                },
            atlas@.use_clock == 0,
            atlas@.evictions == 0,
            atlas@.revision == 0,
            atlas@.dirty is None,
            atlas@.area == (2048i32, 1984i32),
    {
        GlyphAtlas::with_area(2048, 1984)
    }

    /// An atlas that places glyphs only in the left top corner of its area.
    pub fn with_area(width: i32, height: i32) -> (atlas: Self)
        requires
            0 < width <= ATLAS_WIDTH,
            0 < height <= ATLAS_HEIGHT - STATIC_ATLAS_HEIGHT,
        ensures
            atlas.wf(),
            atlas@.glyphs.len() == 0,
            atlas@.pixels.len() == ATLAS_WIDTH * ATLAS_HEIGHT * ATLAS_BYTES_PER_PIXEL,
            forall|i: int|
                0 <= i < atlas@.pixels.len() ==> #[trigger] atlas@.pixels[i] == if i < 4 {
                    255u8
                } else {
                    0u8
                },
            atlas@.use_clock == 0,
            atlas@.evictions == 0,
            atlas@.revision == 0,
            atlas@.dirty is None,
            atlas@.area == (width, height),
    {
        let mut pixels: Vec<u8> = vec![0u8; 16777216];
        pixels.set(0, 255);
        pixels.set(1, 255);
        pixels.set(2, 255);
        pixels.set(3, 255);
        GlyphAtlas {
            pixels,
            slots: new_atlas(width, height),
            glyphs: Vec::new(),
            use_clock: 0,
            evictions: 0,
            revision: 0,
            dirty: None,
        }
    }

    pub fn pixels(&self) -> (pixels: &Vec<u8>)
        ensures
            pixels@ == self@.pixels,
    {
        &self.pixels
    }

    pub fn glyph_count(&self) -> (count: usize)
        ensures
            count == self@.glyphs.len(),
    {
        self.glyphs.len()
    }

    pub fn evictions(&self) -> (evictions: u64)
        ensures
            evictions == self@.evictions,
    {
        self.evictions
    }

    pub fn revision(&self) -> (revision: u64)
        ensures
            revision == self@.revision,
    {
        self.revision
    }

    /// Where a key is, or where it belongs.
    fn search(&self, key: u64) -> (place: (usize, bool))
        requires
            keys_rise(self@.glyphs),
        ensures
            place.0 <= self@.glyphs.len(),
            place.1 ==> place.0 < self@.glyphs.len() && self@.glyphs[place.0 as int].key == key,
            place.1 == has_key(self@.glyphs, key),
            forall|i: int| 0 <= i < place.0 ==> (#[trigger] self@.glyphs[i]).key < key,
            forall|i: int|
                place.0 <= i < self@.glyphs.len() ==> (#[trigger] self@.glyphs[i]).key >= key,
    {
        let mut low: usize = 0;
        let mut high: usize = self.glyphs.len();
        while low < high
            invariant
                keys_rise(self.glyphs@),
                low <= high <= self.glyphs@.len(),
                forall|i: int| 0 <= i < low ==> (#[trigger] self.glyphs@[i]).key < key,
                forall|i: int|
                    high <= i < self.glyphs@.len() ==> (#[trigger] self.glyphs@[i]).key >= key,
            decreases high - low,
        {
            let middle: usize = low + (high - low) / 2;
            if self.glyphs[middle].key < key {
                low = middle + 1;
            } else {
                high = middle;
            }
        }
        let found = low < self.glyphs.len() && self.glyphs[low].key == key;
        proof {
            if has_key(self.glyphs@, key) {
                let i = choose|i: int|
                    0 <= i < self.glyphs@.len() && (#[trigger] self.glyphs@[i]).key == key;
                assert(i >= low);
                if i > low {
                    assert(self.glyphs@[low as int].key < self.glyphs@[i].key);
                }
            }
        }
        (low, found)
    }

    pub fn contains(&self, key: u64) -> (yes: bool)
        requires
            self.wf(),
        ensures
            yes == has_key(self@.glyphs, key),
    {
        self.search(key).1
    }

    /// Begins a frame: nothing is shown yet.
    pub fn begin_frame(&mut self)
        requires
            old(self).wf(),
        ensures
            final(self).wf(),
            final(self)@ == (AtlasModel { glyphs: final(self)@.glyphs, ..old(self)@ }),
            final(self)@.glyphs.len() == old(self)@.glyphs.len(),
            forall|i: int|
                0 <= i < old(self)@.glyphs.len() ==> #[trigger] final(self)@.glyphs[i] == (
                CachedGlyph { pinned: false, ..old(self)@.glyphs[i] }),
            keeps_none(old(self)@.glyphs, final(self)@.glyphs),
    {
        let mut index: usize = 0;
        while index < self.glyphs.len()
            invariant
                old(self).wf(),
                index <= self.glyphs@.len() == old(self).glyphs@.len(),
                *self == (GlyphAtlas { glyphs: self.glyphs, ..*old(self) }),
                forall|i: int|
                    0 <= i < old(self).glyphs@.len() ==> #[trigger] self.glyphs@[i] == if i
                        < index {
                        CachedGlyph { pinned: false, ..old(self).glyphs@[i] }
                    } else {
                        old(self).glyphs@[i]
                    },
            decreases self.glyphs@.len() - index,
        {
            let glyph = CachedGlyph { pinned: false, ..self.glyphs[index] };
            self.glyphs.set(index, glyph);
            index += 1;
        }
        proof {
            let before = old(self).glyphs@;
            assert forall|i: int, j: int| 0 <= i < j < self.glyphs@.len() implies (
            #[trigger] self.glyphs@[i]).key < (#[trigger] self.glyphs@[j]).key && self.glyphs@[i].slot
                != self.glyphs@[j].slot by {
                assert(before[i].key < before[j].key);
                assert(before[i].slot != before[j].slot);
            }
            assert forall|i: int| 0 <= i < self.glyphs@.len() implies atlas_slots(
                self.slots,
            ).contains_key((#[trigger] self.glyphs@[i]).slot) && lies_in(
                self.glyphs@[i].glyph,
                atlas_slots(self.slots)[self.glyphs@[i].slot],
            ) by {
                assert(atlas_slots(self.slots).contains_key(before[i].slot));
            }
            assert forall|id: u32| #[trigger] atlas_slots(self.slots).contains_key(
                id,
            ) implies slot_used(self.glyphs@, id) by {
                let i = choose|i: int| 0 <= i < before.len() && (#[trigger] before[i]).slot == id;
                assert(self.glyphs@[i].slot == id);
            }
        }
    }

    /// The glyph of a key, which the frame then shows.
    pub fn lookup(&mut self, key: u64) -> (glyph: Option<GlyphInfo>)
        requires
            old(self).wf(),
        ensures
            final(self).wf(),
            final(self)@ == (AtlasModel {
                use_clock: saturating_next(old(self)@.use_clock),
                glyphs: final(self)@.glyphs,
                ..old(self)@
            }),
            match glyph {
                Some(glyph) => exists|i: int|
                    {
                        &&& 0 <= i < old(self)@.glyphs.len()
                        &&& (#[trigger] old(self)@.glyphs[i]).key == key
                        &&& old(self)@.glyphs[i].glyph == glyph
                        &&& final(self)@.glyphs == old(self)@.glyphs.update(
                            i,
                            CachedGlyph {
                                last_used: saturating_next(old(self)@.use_clock),
                                pinned: true,
                                ..old(self)@.glyphs[i]
                            },
                        )
                    },
                None => !has_key(old(self)@.glyphs, key) && final(self)@.glyphs == old(
                    self,
                )@.glyphs,
            },
            looked_up(old(self)@, final(self)@, key, glyph),
    {
        self.use_clock = next_number(self.use_clock);
        let (index, found) = self.search(key);
        if !found {
            return None;
        }
        let glyph = self.glyphs[index];
        let used = CachedGlyph { last_used: self.use_clock, pinned: true, ..glyph };
        self.glyphs.set(index, used);
        proof {
            assert(old(self)@.glyphs[index as int].key == key);
            lemma_update_fits(old(self).glyphs@, atlas_slots(self.slots), index as int, used);
        }
        Some(glyph.glyph)
    }

    /// Keeps the glyph of a key for the frame.
    pub fn pin(&mut self, key: u64)
        requires
            old(self).wf(),
        ensures
            final(self).wf(),
            final(self)@ == (AtlasModel { glyphs: final(self)@.glyphs, ..old(self)@ }),
            final(self)@.glyphs.len() == old(self)@.glyphs.len(),
            forall|i: int|
                0 <= i < old(self)@.glyphs.len() ==> #[trigger] final(self)@.glyphs[i] == (
                CachedGlyph {
                    pinned: old(self)@.glyphs[i].pinned || old(self)@.glyphs[i].key == key,
                    ..old(self)@.glyphs[i]
                }),
            keeps_for_frame(old(self)@.glyphs, final(self)@.glyphs, key),
    {
        let (index, found) = self.search(key);
        if found {
            let used = CachedGlyph { pinned: true, ..self.glyphs[index] };
            self.glyphs.set(index, used);
            proof {
                lemma_update_fits(old(self).glyphs@, atlas_slots(self.slots), index as int, used);
                assert forall|i: int| 0 <= i < old(self)@.glyphs.len() && i
                    != index implies old(self)@.glyphs[i].key != key by {
                    if i < index {
                        assert(old(self)@.glyphs[i].key < old(self)@.glyphs[index as int].key);
                    } else {
                        assert(old(self)@.glyphs[index as int].key < old(self)@.glyphs[i].key);
                    }
                }
            }
        }
    }

    /// The glyph that makes room next: of those that the frame does not show
    /// the one that was used longest ago.
    fn victim(&self) -> (victim: Option<usize>)
        requires
            keys_rise(self@.glyphs),
        ensures
            match victim {
                Some(at) => {
                    &&& at < self@.glyphs.len()
                    &&& !self@.glyphs[at as int].pinned
                    &&& forall|i: int|
                        0 <= i < self@.glyphs.len() && i != at && !(
                        #[trigger] self@.glyphs[i]).pinned ==> older(
                            self@.glyphs[at as int],
                            self@.glyphs[i],
                        )
                },
                None => forall|i: int|
                    0 <= i < self@.glyphs.len() ==> (#[trigger] self@.glyphs[i]).pinned,
            },
    {
        let mut best: Option<usize> = None;
        let mut index: usize = 0;
        while index < self.glyphs.len()
            invariant
                keys_rise(self.glyphs@),
                index <= self.glyphs@.len(),
                match best {
                    Some(at) => {
                        &&& at < index
                        &&& !self.glyphs@[at as int].pinned
                        &&& forall|i: int|
                            0 <= i < index && i != at && !(#[trigger] self.glyphs@[i]).pinned
                                ==> older(self.glyphs@[at as int], self.glyphs@[i])
                    },
                    None => forall|i: int|
                        0 <= i < index ==> (#[trigger] self.glyphs@[i]).pinned,
                },
            decreases self.glyphs@.len() - index,
        {
            let glyph = self.glyphs[index];
            if !glyph.pinned {
                match best {
                    None => {
                        best = Some(index);
                    },
                    Some(at) => {
                        assert(self.glyphs@[at as int].key < self.glyphs@[index as int].key);
                        if glyph.last_used < self.glyphs[at].last_used {
                            best = Some(index);
                        }
                    },
                }
            }
            index += 1;
        }
        best
    }

    /// Finds room for a rectangle, if need be by letting glyphs go that the
    /// frame does not show, those that were used longest ago first.
    fn allocate_dynamic(&mut self, width: u32, height: u32) -> (slot: Option<
        (u32, (i32, i32, i32, i32)),
    >)
        requires
            old(self).wf(),
            0 < width <= ATLAS_WIDTH,
            0 < height <= ATLAS_HEIGHT,
        ensures
            final(self)@ == (AtlasModel {
                glyphs: final(self)@.glyphs,
                evictions: final(self)@.evictions,
                slots: final(self)@.slots,
                ..old(self)@
            }),
            made_room(old(self)@.glyphs, final(self)@.glyphs),
            found_room(
                old(self)@,
                final(self)@.glyphs,
                width as int,
                height as int,
                slot is Some,
            ),
            atlas_has_room(old(self)@.slots, width as i32, height as i32) ==> slot is Some
                && final(self)@.glyphs == old(self)@.glyphs,
            final(self)@.evictions == counted(
                old(self)@.evictions,
                old(self)@.glyphs.len() - final(self)@.glyphs.len(),
            ),
            glyphs_fit(final(self).glyphs@, atlas_slots(final(self).slots)),
            keys_rise(final(self).glyphs@),
            slots_fit(atlas_slots(final(self).slots), atlas_area(final(self).slots)),
            atlas_area(final(self).slots) == atlas_area(old(self).slots),
            match slot {
                Some((id, rect)) => {
                    &&& atlas_slots(final(self).slots).contains_key(id)
                    &&& atlas_slots(final(self).slots)[id] == rect
                    &&& forall|i: int|
                        0 <= i < final(self).glyphs@.len() ==> (
                        #[trigger] final(self).glyphs@[i]).slot != id
                    &&& rect.2 - rect.0 == width
                    &&& rect.3 - rect.1 == height
                    &&& forall|other: u32| #[trigger]
                        atlas_slots(final(self).slots).contains_key(other) && other != id
                            ==> slot_used(final(self).glyphs@, other)
                },
                None => slots_used(final(self).glyphs@, atlas_slots(final(self).slots))
                    && left_no_room(final(self)@, width as int, height as int),
            },
    {
        loop
            invariant
                0 < width <= ATLAS_WIDTH,
                0 < height <= ATLAS_HEIGHT,
                old(self).wf(),
                self.wf(),
                self@ == (AtlasModel {
                    glyphs: self@.glyphs,
                    evictions: self@.evictions,
                    slots: self@.slots,
                    ..old(self)@
                }),
                made_room(old(self)@.glyphs, self@.glyphs),
                made_way(
                    old(self).slots,
                    self.slots,
                    (old(self)@.glyphs.len() - self@.glyphs.len()) as nat,
                    width as i32,
                    height as i32,
                ),
                self@.glyphs.len() == old(self)@.glyphs.len() ==> self@.glyphs
                    == old(self)@.glyphs,
                self@.evictions == counted(
                    old(self)@.evictions,
                    old(self)@.glyphs.len() - self@.glyphs.len(),
                ),
                atlas_area(self.slots) == atlas_area(old(self).slots),
            decreases self.glyphs@.len(),
        {
            let ghost before = *self;
            proof {
                if atlas_has_room(old(self).slots, width as i32, height as i32) {
                    lemma_way_is_needed(
                        old(self).slots,
                        self.slots,
                        (old(self)@.glyphs.len() - self@.glyphs.len()) as nat,
                        width as i32,
                        height as i32,
                    );
                }
            }
            if let Some((id, rect)) = allocate_slot(&mut self.slots, width as i32, height as i32) {
                proof {
                    let slots = atlas_slots(before.slots);
                    let after = atlas_slots(self.slots);
                    assert forall|i: int| 0 <= i < self.glyphs@.len() implies (
                    #[trigger] self.glyphs@[i]).slot != id && after.contains_key(
                        self.glyphs@[i].slot,
                    ) && lies_in(self.glyphs@[i].glyph, after[self.glyphs@[i].slot]) by {
                        assert(slots.contains_key(self.glyphs@[i].slot));
                    }
                    assert forall|one: u32, other: u32| #[trigger]
                        after.contains_key(one) && #[trigger] after.contains_key(other) && one
                            != other implies apart(after[one], after[other]) by {
                        if one != id {
                            assert(slots.contains_key(one));
                        }
                        if other != id {
                            assert(slots.contains_key(other));
                        }
                    }
                    assert forall|other: u32| #[trigger] after.contains_key(other) implies 0
                        <= after[other].0 && after[other].2 <= atlas_area(self.slots).0 && 0
                        <= after[other].1 && after[other].3 <= atlas_area(self.slots).1 by {
                        if other != id {
                            assert(slots.contains_key(other));
                        }
                    }
                }
                return Some((id, rect));
            }
            match self.victim() {
                None => {
                    proof {
                        if self.glyphs@.len() == 0 {
                            assert forall|id: u32| !atlas_slots(before.slots).contains_key(id) by {
                                if atlas_slots(before.slots).contains_key(id) {
                                    assert(slot_used(before.glyphs@, id));
                                }
                            }
                            assert(atlas_slots(before.slots).dom() =~= Set::<u32>::empty());
                        }
                    }
                    return None;
                },
                Some(at) => {
                    let gone = self.glyphs.remove(at);
                    proof {
                        assert(before.glyphs@[at as int] == gone);
                        assert(atlas_slots(before.slots).contains_key(gone.slot));
                    }
                    release_slot(&mut self.slots, gone.slot);
                    self.evictions = next_number(self.evictions);
                    proof {
                        assert(took_back(before.slots, self.slots)) by {
                            assert(atlas_slots(self.slots) == atlas_slots(before.slots).remove(
                                gone.slot,
                            ));
                        }
                        lemma_victim_leaves(old(self)@.glyphs, before.glyphs@, at as int);
                        lemma_glyph_leaves(
                            before.glyphs@,
                            at as int,
                            atlas_slots(before.slots),
                            atlas_area(before.slots),
                        );
                    }
                },
            }
        }
    }

    /// Lets the glyph of a key go, whether or not the frame shows it. Nothing is
    /// counted as an eviction. Says whether there was one.
    pub fn forget(&mut self, key: u64) -> (known: bool)
        requires
            old(self).wf(),
        ensures
            final(self).wf(),
            known == has_key(old(self)@.glyphs, key),
            !known ==> *final(self) == *old(self),
            !has_key(final(self)@.glyphs, key),
            final(self)@ == (AtlasModel {
                glyphs: final(self)@.glyphs,
                slots: final(self)@.slots,
                ..old(self)@
            }),
            known ==> took_back(old(self)@.slots, final(self)@.slots),
            known ==> exists|at: int|
                0 <= at < old(self)@.glyphs.len() && old(self)@.glyphs[at].key == key
                    && final(self)@.glyphs == #[trigger] old(self)@.glyphs.remove(at),
    {
        let (at, known) = self.search(key);
        if !known {
            return false;
        }
        let ghost before = *self;
        let gone = self.glyphs.remove(at);
        proof {
            assert(before.glyphs@[at as int] == gone);
            assert(atlas_slots(before.slots).contains_key(gone.slot));
        }
        release_slot(&mut self.slots, gone.slot);
        proof {
            lemma_glyph_leaves(
                before.glyphs@,
                at as int,
                atlas_slots(before.slots),
                atlas_area(before.slots),
            );
            assert(self@.glyphs == old(self)@.glyphs.remove(at as int));
        }
        true
    }

    /// Puts a glyph with a new key among the others.
    fn insert(&mut self, entry: CachedGlyph)
        requires
            keys_rise(old(self)@.glyphs),
            !has_key(old(self)@.glyphs, entry.key),
        ensures
            *final(self) == (GlyphAtlas { glyphs: final(self).glyphs, ..*old(self) }),
            keys_rise(final(self)@.glyphs),
            exists|at: int|
                0 <= at <= old(self)@.glyphs.len() && final(self)@.glyphs
                    == #[trigger] old(self)@.glyphs.insert(at, entry),
    {
        let (at, _) = self.search(entry.key);
        self.glyphs.insert(at, entry);
        proof {
            let before = old(self).glyphs@;
            let after = self.glyphs@;
            assert(after =~= before.insert(at as int, entry));
            assert forall|i: int, j: int| 0 <= i < j < after.len() implies (
            #[trigger] after[i]).key < (#[trigger] after[j]).key by {
                if i < at && j > at {
                    assert(before[i].key < before[j - 1].key);
                } else if i < at && j < at {
                    assert(before[i].key < before[j].key);
                } else if i > at {
                    assert(before[i - 1].key < before[j - 1].key);
                } else if i == at {
                    assert(before[j - 1].key >= entry.key);
                    assert(before[j - 1].key != entry.key);
                } else {
                    assert(before[i].key < entry.key);
                }
            }
        }
    }
}

/// Nothing more can make room for a rectangle: the frame shows all glyphs that
/// are left, and there are some, unless the area is too small for it.
pub open spec fn left_no_room(atlas: AtlasModel, width: int, height: int) -> bool {
    &&& forall|i: int| 0 <= i < atlas.glyphs.len() ==> (#[trigger] atlas.glyphs[i]).pinned
    &&& atlas.glyphs.len() > 0 || width > atlas.area.0 || height > atlas.area.1
}

/// So many rectangles were taken back, and there is room now or there is none.
pub open spec fn found_way(
    before: guillotiere::AtlasAllocator,
    count: nat,
    width: i32,
    height: i32,
    found: bool,
) -> bool {
    exists|after: guillotiere::AtlasAllocator|
        #![trigger atlas_has_room(after, width, height)]
        made_way(before, after, count, width, height) && atlas_has_room(after, width, height)
            == found
}

/// Glyphs made room for a rectangle, one after the other and no more than had
/// to: there is room for it now, or there is none even so.
pub open spec fn found_room(
    before: AtlasModel,
    kept: Seq<CachedGlyph>,
    width: int,
    height: int,
    found: bool,
) -> bool {
    found_way(
        before.slots,
        (before.glyphs.len() - kept.len()) as nat,
        width as i32,
        height as i32,
        found,
    )
}

/// A counter after `count` more steps, as far as it goes.
pub open spec fn counted(number: u64, count: int) -> u64 {
    if number + count <= u64::MAX {
        (number + count) as u64
    } else {
        u64::MAX
    }
}

proof fn lemma_update_fits(
    glyphs: Seq<CachedGlyph>,
    slots: Map<u32, (i32, i32, i32, i32)>,
    at: int,
    glyph: CachedGlyph,
)
    requires
        keys_rise(glyphs),
        glyphs_fit(glyphs, slots),
        slots_used(glyphs, slots),
        0 <= at < glyphs.len(),
        glyph.key == glyphs[at].key,
        glyph.slot == glyphs[at].slot,
        glyph.glyph == glyphs[at].glyph,
    ensures
        keys_rise(glyphs.update(at, glyph)),
        glyphs_fit(glyphs.update(at, glyph), slots),
        slots_used(glyphs.update(at, glyph), slots),
{
    let after = glyphs.update(at, glyph);
    assert forall|id: u32| #[trigger] slots.contains_key(id) implies slot_used(after, id) by {
        let i = choose|i: int| 0 <= i < glyphs.len() && (#[trigger] glyphs[i]).slot == id;
        assert(after[i].slot == id);
    }
    assert forall|i: int, j: int| 0 <= i < j < after.len() implies (#[trigger] after[i]).key < (
    #[trigger] after[j]).key && after[i].slot != after[j].slot by {
        assert(glyphs[i].key < glyphs[j].key);
        assert(glyphs[i].slot != glyphs[j].slot);
    }
    assert forall|i: int| 0 <= i < after.len() implies slots.contains_key(
        (#[trigger] after[i]).slot,
    ) && lies_in(after[i].glyph, slots[after[i].slot]) by {
        assert(slots.contains_key(glyphs[i].slot));
    }
}

proof fn lemma_glyph_leaves(
    glyphs: Seq<CachedGlyph>,
    at: int,
    slots: Map<u32, (i32, i32, i32, i32)>,
    area: (i32, i32),
)
    requires
        keys_rise(glyphs),
        glyphs_fit(glyphs, slots),
        slots_used(glyphs, slots),
        slots_fit(slots, area),
        0 <= at < glyphs.len(),
    ensures
        keys_rise(glyphs.remove(at)),
        !has_key(glyphs.remove(at), glyphs[at].key),
        glyphs_fit(glyphs.remove(at), slots.remove(glyphs[at].slot)),
        slots_used(glyphs.remove(at), slots.remove(glyphs[at].slot)),
        slots_fit(slots.remove(glyphs[at].slot), area),
{
    let after = glyphs.remove(at);
    let left = slots.remove(glyphs[at].slot);
    assert forall|id: u32| #[trigger] left.contains_key(id) implies slot_used(after, id) by {
        assert(slots.contains_key(id));
        let i = choose|i: int| 0 <= i < glyphs.len() && (#[trigger] glyphs[i]).slot == id;
        if i < at {
            assert(after[i].slot == id);
        } else {
            assert(i > at);
            assert(after[i - 1].slot == id);
        }
    }
    let place = |i: int| if i < at {
        i
    } else {
        i + 1
    };
    assert forall|i: int| 0 <= i < after.len() implies #[trigger] after[i] == glyphs[place(i)] by {}
    assert forall|i: int, j: int| 0 <= i < j < after.len() implies (#[trigger] after[i]).key < (
    #[trigger] after[j]).key && after[i].slot != after[j].slot by {
        assert(glyphs[place(i)].key < glyphs[place(j)].key);
        assert(glyphs[place(i)].slot != glyphs[place(j)].slot);
    }
    assert forall|i: int| 0 <= i < after.len() implies left.contains_key((#[trigger] after[i]).slot)
        && lies_in(after[i].glyph, left[after[i].slot]) by {
        let k = place(i);
        assert(slots.contains_key(glyphs[k].slot));
        if k < at {
            assert(glyphs[k].slot != glyphs[at].slot);
        } else {
            assert(glyphs[at].slot != glyphs[k].slot);
        }
    }
    assert forall|id: u32| #[trigger] left.contains_key(id) implies slots.contains_key(id)
        && left[id] == slots[id] by {}
    if has_key(after, glyphs[at].key) {
        let i = choose|i: int| 0 <= i < after.len() && (#[trigger] after[i]).key == glyphs[at].key;
        if i < at {
            assert(glyphs[i].key < glyphs[at].key);
        } else {
            assert(glyphs[at].key < glyphs[i + 1].key);
        }
    }
}

proof fn lemma_victim_leaves(start: Seq<CachedGlyph>, glyphs: Seq<CachedGlyph>, at: int)
    requires
        made_room(start, glyphs),
        0 <= at < glyphs.len(),
        !glyphs[at].pinned,
        forall|i: int|
            0 <= i < glyphs.len() && i != at && !(#[trigger] glyphs[i]).pinned ==> older(
                glyphs[at],
                glyphs[i],
            ),
    ensures
        made_room(start, glyphs.remove(at)),
{
    let after = glyphs.remove(at);
    let place = |i: int| if i < at {
        i
    } else {
        i + 1
    };
    assert forall|i: int| 0 <= i < after.len() implies #[trigger] after[i] == glyphs[place(i)] by {}
    assert forall|glyph: CachedGlyph| after.contains(glyph) implies #[trigger] start.contains(
        glyph,
    ) by {
        let i = choose|i: int| 0 <= i < after.len() && after[i] == glyph;
        assert(glyphs[place(i)] == glyph);
        assert(glyphs.contains(glyph));
    }
    assert forall|gone: CachedGlyph, kept: CachedGlyph|
        #![trigger start.contains(gone), after.contains(kept)]
        start.contains(gone) && !after.contains(gone) implies !gone.pinned && (after.contains(kept)
        && !kept.pinned ==> older(gone, kept)) by {
        if after.contains(kept) {
            let i = choose|i: int| 0 <= i < after.len() && after[i] == kept;
            assert(glyphs[place(i)] == kept);
            assert(glyphs.contains(kept));
        }
        if glyphs.contains(gone) {
            let k = choose|k: int| 0 <= k < glyphs.len() && glyphs[k] == gone;
            if k < at {
                assert(after[k] == gone);
                assert(after.contains(gone));
            } else if k > at {
                assert(after[k - 1] == gone);
                assert(after.contains(gone));
            }
        } else {
            assert(!glyphs.contains(gone) && start.contains(gone));
            if glyphs.len() > 0 {
                assert(glyphs.contains(glyphs[0]));
            }
        }
    }
}

impl GlyphAtlas {
    /// Notes that a rectangle has changed.
    pub fn mark_dirty(&mut self, x: u32, y: u32, width: u32, height: u32)
        requires
            old(self).wf(),
        ensures
            final(self).wf(),
            final(self)@ == (AtlasModel {
                dirty: Some(dirty_with(old(self)@.dirty, change_rect(x, y, width, height))),
                ..old(self)@
            }),
    {
        let next = AtlasDirtyRect {
            min_x: x,
            min_y: y,
            max_x: add_capped(x, width, ATLAS_WIDTH),
            max_y: add_capped(y, height, ATLAS_HEIGHT),
        };
        self.dirty = Some(
            match self.dirty {
                Some(current) => AtlasDirtyRect {
                    min_x: least_of(current.min_x, next.min_x),
                    min_y: least_of(current.min_y, next.min_y),
                    max_x: most_of(current.max_x, next.max_x),
                    max_y: most_of(current.max_y, next.max_y),
                },
                None => next,
            },
        );
    }

    /// The pixels of everything that has changed since the last time; none
    /// where that is no pixel at all.
    pub fn take_dirty_upload(&mut self) -> (upload: Option<AtlasUpload>)
        requires
            old(self).wf(),
        ensures
            final(self).wf(),
            final(self)@ == (AtlasModel { dirty: None, ..old(self)@ }),
            match old(self)@.dirty {
                None => upload is None,
                Some(dirty) => if dirty.min_x >= dirty.max_x || dirty.min_y >= dirty.max_y {
                    upload is None
                } else {
                    upload matches Some(upload) && uploads(upload, old(self)@.pixels, dirty)
                },
            },
    {
        let dirty = match self.dirty {
            Some(dirty) => dirty,
            None => {
                return None;
            },
        };
        self.dirty = None;
        if dirty.min_x >= dirty.max_x || dirty.min_y >= dirty.max_y {
            return None;
        }
        let width: u32 = dirty.max_x - dirty.min_x;
        let height: u32 = dirty.max_y - dirty.min_y;
        let mut bytes: Vec<u8> = Vec::new();
        let mut y: u32 = dirty.min_y;
        while y < dirty.max_y
            invariant
                dirty.min_x < dirty.max_x <= ATLAS_WIDTH,
                dirty.min_y <= y <= dirty.max_y <= ATLAS_HEIGHT,
                width == dirty.max_x - dirty.min_x,
                self.pixels@.len() == 16777216,
                bytes@ == rows_of(
                    self.pixels@,
                    dirty.min_x as int,
                    width as int,
                    dirty.min_y as int,
                    (y - dirty.min_y) as nat,
                ),
                bytes@.len() == (y - dirty.min_y) * (width * 4),
            decreases dirty.max_y - y,
        {
            let start: usize = ((y * ATLAS_WIDTH + dirty.min_x) * ATLAS_BYTES_PER_PIXEL) as usize;
            let count: usize = (width * ATLAS_BYTES_PER_PIXEL) as usize;
            let ghost earlier = bytes@;
            let mut offset: usize = 0;
            let ghost row = self.pixels@.subrange(
                pixel_at(dirty.min_x as int, y as int),
                pixel_at(dirty.min_x as int, y as int) + width * 4,
            );
            assert(earlier + row.take(0) =~= earlier);
            while offset < count
                invariant
                    offset <= count == width * 4,
                    start == pixel_at(dirty.min_x as int, y as int),
                    start + count <= self.pixels@.len() == 16777216,
                    row == self.pixels@.subrange(
                        pixel_at(dirty.min_x as int, y as int),
                        pixel_at(dirty.min_x as int, y as int) + width * 4,
                    ),
                    bytes@ == earlier + row.take(offset as int),
                decreases count - offset,
            {
                bytes.push(self.pixels[start + offset]);
                offset += 1;
                assert(earlier + row.take(offset as int) =~= (earlier + row.take(offset - 1)).push(
                    row[offset - 1],
                ));
            }
            assert(row.take(count as int) =~= row);
            proof {
                let done = y - dirty.min_y;
                assert((done + 1) * (width * 4) == done * (width * 4) + width * 4)
                    by (nonlinear_arith);
            }
            y += 1;
        }
        Some(
            AtlasUpload {
                origin: [dirty.min_x, dirty.min_y],
                size: [width, height],
                bytes,
            },
        )
    }

    /// Paints an image.
    fn blit(&mut self, x: u32, y: u32, image: &GlyphImage)
        requires
            old(self)@.pixels.len() == 16777216,
            x + image.width <= ATLAS_WIDTH,
            y + image.height <= ATLAS_HEIGHT,
        ensures
            *final(self) == (GlyphAtlas { pixels: final(self).pixels, ..*old(self) }),
            final(self)@.pixels == with_image(
                old(self)@.pixels,
                x as int,
                y as int,
                image.width as int,
                image.height as int,
                image.content,
                image.data@,
            ),
    {
        let width: u32 = image.width;
        let ghost before = self.pixels@;
        let mut row: u32 = 0;
        assert(self.pixels@ =~= with_image(
            before,
            x as int,
            y as int,
            width as int,
            0,
            image.content,
            image.data@,
        ));
        while row < image.height
            invariant
                row <= image.height,
                width == image.width,
                x + width <= ATLAS_WIDTH,
                y + image.height <= ATLAS_HEIGHT,
                before == old(self).pixels@,
                before.len() == 16777216,
                *self == (GlyphAtlas { pixels: self.pixels, ..*old(self) }),
                self.pixels@ == with_image(
                    before,
                    x as int,
                    y as int,
                    width as int,
                    row as int,
                    image.content,
                    image.data@,
                ),
            decreases image.height - row,
        {
            let mut column: u32 = 0;
            while column < width
                invariant
                    column <= width,
                    row < image.height,
                    width == image.width,
                    x + width <= ATLAS_WIDTH,
                    y + image.height <= ATLAS_HEIGHT,
                    before.len() == 16777216,
                    *self == (GlyphAtlas { pixels: self.pixels, ..*old(self) }),
                    self.pixels@.len() == before.len(),
                    forall|at: int|
                        0 <= at < before.len() ==> #[trigger] self.pixels@[at] == if in_rect(
                            at,
                            x as int,
                            y as int,
                            width as int,
                            row as int,
                        ) || in_rect(at, x as int, y + row, column as int, 1) {
                            image_pixel(
                                image.content,
                                image.data@,
                                ((at / 4) / 2048 - y) * width + ((at / 4) % 2048 - x),
                            )@[at % 4]
                        } else {
                            before[at]
                        },
                decreases width - column,
            {
                assert(row * width <= 2048 * 2048) by (nonlinear_arith)
                    requires
                        0 <= row <= 2048,
                        0 <= width <= 2048,
                ;
                let source: u32 = row * width + column;
                let pixel = atlas_pixel(image.content, image.data, source as usize);
                let at: usize = (((y + row) * ATLAS_WIDTH + x + column) * ATLAS_BYTES_PER_PIXEL)
                    as usize;
                self.pixels.set(at, pixel[0]);
                self.pixels.set(at + 1, pixel[1]);
                self.pixels.set(at + 2, pixel[2]);
                self.pixels.set(at + 3, pixel[3]);
                column += 1;
            }
            row += 1;
            assert(self.pixels@ =~= with_image(
                before,
                x as int,
                y as int,
                width as int,
                row as int,
                image.content,
                image.data@,
            ));
        }
    }

    /// Sets a pixel of an ASCII glyph to white of some opacity.
    pub fn set_coverage(&mut self, x: u32, y: u32, coverage: u8)
        requires
            old(self).wf(),
            x < ATLAS_WIDTH,
            y < STATIC_ATLAS_HEIGHT,
        ensures
            final(self).wf(),
            final(self)@ == (AtlasModel {
                pixels: old(self)@.pixels.update(pixel_at(x as int, y as int), 255u8).update(
                    pixel_at(x as int, y as int) + 1,
                    255u8,
                ).update(pixel_at(x as int, y as int) + 2, 255u8).update(
                    pixel_at(x as int, y as int) + 3,
                    coverage,
                ),
                ..old(self)@
            }),
    {
        let at: usize = ((y * ATLAS_WIDTH + x) * ATLAS_BYTES_PER_PIXEL) as usize;
        self.pixels.set(at, 255);
        self.pixels.set(at + 1, 255);
        self.pixels.set(at + 2, 255);
        self.pixels.set(at + 3, coverage);
    }

    /// Takes up a glyph that the atlas does not hold yet and paints it. There
    /// is none where the image is empty or larger than the atlas, or where the
    /// frame leaves no room for it.
    pub fn place_glyph(&mut self, key: u64, image: &GlyphImage) -> (glyph: Option<GlyphInfo>)
        requires
            old(self).wf(),
            !has_key(old(self)@.glyphs, key),
        ensures
            final(self).wf(),
            final(self)@.use_clock == old(self)@.use_clock,
            final(self)@.area == old(self)@.area,
            !placeable(image.width, image.height) ==> glyph is None && *final(self) == *old(self),
            placeable(image.width, image.height) ==> match glyph {
                None => {
                    &&& final(self)@ == (AtlasModel {
                        glyphs: final(self)@.glyphs,
                        evictions: final(self)@.evictions,
                        slots: final(self)@.slots,
                        ..old(self)@
                    })
                    &&& made_room(old(self)@.glyphs, final(self)@.glyphs)
                    &&& found_room(
                        old(self)@,
                        final(self)@.glyphs,
                        image.width + GLYPH_PADDING * 2,
                        image.height + GLYPH_PADDING * 2,
                        false,
                    )
                    &&& final(self)@.evictions == counted(
                        old(self)@.evictions,
                        old(self)@.glyphs.len() - final(self)@.glyphs.len(),
                    )
                    &&& left_no_room(
                        final(self)@,
                        image.width + GLYPH_PADDING * 2,
                        image.height + GLYPH_PADDING * 2,
                    )
                },
                Some(glyph) => {
                    &&& glyph.width == image.width
                    &&& glyph.height == image.height
                    &&& glyph.left == image.left
                    &&& glyph.top == image.top
                    &&& glyph.colored == (image.content == GlyphContent::Color)
                    &&& final(self)@.pixels == with_image(
                        old(self)@.pixels,
                        glyph.atlas_x as int,
                        glyph.atlas_y as int,
                        glyph.width as int,
                        glyph.height as int,
                        image.content,
                        image.data@,
                    )
                    &&& final(self)@.revision == saturating_next(old(self)@.revision)
                    &&& final(self)@.dirty == Some(
                        dirty_with(
                            old(self)@.dirty,
                            change_rect(
                                glyph.atlas_x,
                                glyph.atlas_y,
                                glyph.width,
                                glyph.height,
                            ),
                        ),
                    )
                    &&& took_up(
                        old(self)@,
                        final(self)@,
                        key,
                        glyph,
                        image.width + GLYPH_PADDING * 2,
                        image.height + GLYPH_PADDING * 2,
                    )
                },
            },
            placeable(image.width, image.height) && old(self)@.has_room(
                image.width + GLYPH_PADDING * 2,
                image.height + GLYPH_PADDING * 2,
            ) ==> (glyph matches Some(glyph) && took_up_by(
                old(self)@,
                final(self)@,
                old(self)@.glyphs,
                key,
                glyph,
                image.width + GLYPH_PADDING * 2,
                image.height + GLYPH_PADDING * 2,
            )),
    {
        let width: u32 = image.width;
        let height: u32 = image.height;
        if width == 0 || height == 0 {
            return None;
        }
        if width > ATLAS_WIDTH - GLYPH_PADDING * 2 || height > ATLAS_HEIGHT - STATIC_ATLAS_HEIGHT
            - GLYPH_PADDING * 2 {
            return None;
        }
        let ghost start = *self;
        let (slot, rect) = match self.allocate_dynamic(
            width + GLYPH_PADDING * 2,
            height + GLYPH_PADDING * 2,
        ) {
            Some(found) => found,
            None => {
                return None;
            },
        };
        let ghost roomy = *self;
        assert(atlas_slots(self.slots).contains_key(slot));
        let glyph = GlyphInfo {
            atlas_x: rect.0 as u32 + GLYPH_PADDING,
            atlas_y: rect.1 as u32 + STATIC_ATLAS_HEIGHT + GLYPH_PADDING,
            width,
            height,
            left: image.left,
            top: image.top,
            colored: image.content == GlyphContent::Color,
        };
        self.blit(glyph.atlas_x, glyph.atlas_y, image);
        self.revision = next_number(self.revision);
        let entry = CachedGlyph { key, slot, last_used: self.use_clock, pinned: true, glyph };
        proof {
            lemma_key_stays_new(start.glyphs@, roomy.glyphs@, key);
        }
        self.insert(entry);
        proof {
            lemma_insert_fits(
                roomy.glyphs@,
                self.glyphs@,
                entry,
                atlas_slots(self.slots),
            );
        }
        self.mark_dirty(glyph.atlas_x, glyph.atlas_y, width, height);
        proof {
            assert(stands_in(
                self@.slots,
                slot,
                glyph,
                width + GLYPH_PADDING * 2,
                height + GLYPH_PADDING * 2,
            ));
            assert(made_room(start@.glyphs, roomy@.glyphs));
            assert(took_up_by(
                start@,
                self@,
                roomy@.glyphs,
                key,
                glyph,
                width + GLYPH_PADDING * 2,
                height + GLYPH_PADDING * 2,
            ));
        }
        Some(glyph)
    }

    /// Reserves a rectangle for a glyph that the atlas does not hold yet.
    pub fn reserve(&mut self, key: u64, width: u32, height: u32) -> (glyph: Option<GlyphInfo>)
        requires
            old(self).wf(),
            !has_key(old(self)@.glyphs, key),
            0 < width <= ATLAS_WIDTH,
            0 < height <= ATLAS_HEIGHT,
        ensures
            final(self).wf(),
            final(self)@.pixels == old(self)@.pixels,
            final(self)@.revision == old(self)@.revision,
            final(self)@.dirty == old(self)@.dirty,
            final(self)@.area == old(self)@.area,
            match glyph {
                None => {
                    &&& final(self)@ == (AtlasModel {
                        glyphs: final(self)@.glyphs,
                        evictions: final(self)@.evictions,
                        slots: final(self)@.slots,
                        ..old(self)@
                    })
                    &&& made_room(old(self)@.glyphs, final(self)@.glyphs)
                    &&& found_room(
                        old(self)@,
                        final(self)@.glyphs,
                        width as int,
                        height as int,
                        false,
                    )
                    &&& final(self)@.evictions == counted(
                        old(self)@.evictions,
                        old(self)@.glyphs.len() - final(self)@.glyphs.len(),
                    )
                    &&& left_no_room(final(self)@, width as int, height as int)
                },
                Some(glyph) => {
                    &&& final(self)@.use_clock == saturating_next(old(self)@.use_clock)
                    &&& glyph.width == width
                    &&& glyph.height == height
                    &&& glyph.left == 0
                    &&& glyph.top == 0
                    &&& !glyph.colored
                    &&& glyph.atlas_x + width <= ATLAS_WIDTH
                    &&& glyph.atlas_y + height <= ATLAS_HEIGHT
                    &&& took_up(
                        AtlasModel { use_clock: final(self)@.use_clock, ..old(self)@ },
                        final(self)@,
                        key,
                        glyph,
                        width as int,
                        height as int,
                    )
                },
            },
            old(self)@.has_room(width as int, height as int) ==> (glyph matches Some(glyph)
                && took_up_by(
                AtlasModel { use_clock: final(self)@.use_clock, ..old(self)@ },
                final(self)@,
                old(self)@.glyphs,
                key,
                glyph,
                width as int,
                height as int,
            )),
    {
        let ghost start = *self;
        let (slot, rect) = match self.allocate_dynamic(width, height) {
            Some(found) => found,
            None => {
                return None;
            },
        };
        let ghost roomy = *self;
        assert(atlas_slots(self.slots).contains_key(slot));
        self.use_clock = next_number(self.use_clock);
        let glyph = GlyphInfo {
            atlas_x: rect.0 as u32,
            atlas_y: rect.1 as u32 + STATIC_ATLAS_HEIGHT,
            width,
            height,
            left: 0,
            top: 0,
            colored: false,
        };
        let entry = CachedGlyph { key, slot, last_used: self.use_clock, pinned: true, glyph };
        proof {
            lemma_key_stays_new(start.glyphs@, roomy.glyphs@, key);
        }
        self.insert(entry);
        proof {
            lemma_insert_fits(
                roomy.glyphs@,
                self.glyphs@,
                entry,
                atlas_slots(self.slots),
            );
            assert(stands_in(self@.slots, slot, glyph, width as int, height as int));
            assert(took_up_by(
                AtlasModel { use_clock: self@.use_clock, ..start@ },
                self@,
                roomy@.glyphs,
                key,
                glyph,
                width as int,
                height as int,
            ));
        }
        Some(glyph)
    }

    /// Two glyphs that the atlas holds overlap nowhere, and neither reaches
    /// into the ASCII glyphs or out of the atlas.
    pub proof fn law_glyphs_do_not_overlap(self, one: int, other: int)
        requires
            self.wf(),
            0 <= one < other < self@.glyphs.len(),
        ensures
            ({
                let first = self@.glyphs[one].glyph;
                let second = self@.glyphs[other].glyph;
                &&& first.atlas_y >= STATIC_ATLAS_HEIGHT && first.atlas_x + first.width
                    <= ATLAS_WIDTH && first.atlas_y + first.height <= ATLAS_HEIGHT
                &&& second.atlas_y >= STATIC_ATLAS_HEIGHT && second.atlas_x + second.width
                    <= ATLAS_WIDTH && second.atlas_y + second.height <= ATLAS_HEIGHT
                &&& {
                    ||| first.atlas_x + first.width <= second.atlas_x
                    ||| second.atlas_x + second.width <= first.atlas_x
                    ||| first.atlas_y + first.height <= second.atlas_y
                    ||| second.atlas_y + second.height <= first.atlas_y
                }
            }),
    {
        let slots = atlas_slots(self.slots);
        let first = self.glyphs@[one];
        let second = self.glyphs@[other];
        assert(slots.contains_key(first.slot) && lies_in(first.glyph, slots[first.slot]));
        assert(slots.contains_key(second.slot) && lies_in(second.glyph, slots[second.slot]));
        assert(first.slot != second.slot);
    }
}

/// An image of this size can be placed.
pub open spec fn placeable(width: u32, height: u32) -> bool {
    0 < width && 0 < height && width + GLYPH_PADDING * 2 <= ATLAS_WIDTH && height + GLYPH_PADDING
        * 2 <= ATLAS_HEIGHT - STATIC_ATLAS_HEIGHT
}

/// The glyph stands in the middle of a rectangle that is handed out for it, of
/// the width and height that were asked for.
pub open spec fn stands_in(
    slots: guillotiere::AtlasAllocator,
    slot: u32,
    glyph: GlyphInfo,
    width: int,
    height: int,
) -> bool {
    let rect = atlas_slots(slots)[slot];
    &&& atlas_slots(slots).contains_key(slot)
    &&& rect.2 - rect.0 == width
    &&& rect.3 - rect.1 == height
    &&& 2 * (glyph.atlas_x - rect.0) == width - glyph.width
    &&& 2 * (glyph.atlas_y - STATIC_ATLAS_HEIGHT - rect.1) == height - glyph.height
}

/// After others have made room, the glyph stands among those that are left.
pub open spec fn took_up_by(
    before: AtlasModel,
    after: AtlasModel,
    kept: Seq<CachedGlyph>,
    key: u64,
    glyph: GlyphInfo,
    width: int,
    height: int,
) -> bool {
    &&& made_room(before.glyphs, kept)
    &&& found_room(before, kept, width, height, true)
    &&& after.evictions == counted(before.evictions, before.glyphs.len() - kept.len())
    &&& exists|at: int, slot: u32|
        0 <= at <= kept.len() && stands_in(after.slots, slot, glyph, width, height) && after.glyphs
            == #[trigger] kept.insert(
            at,
            CachedGlyph { key, slot, last_used: before.use_clock, pinned: true, glyph },
        )
}

pub open spec fn took_up(
    before: AtlasModel,
    after: AtlasModel,
    key: u64,
    glyph: GlyphInfo,
    width: int,
    height: int,
) -> bool {
    exists|kept: Seq<CachedGlyph>| #[trigger]
        took_up_by(before, after, kept, key, glyph, width, height)
}

/// The bytes of `count` rows of pixels, from row `y` on.
pub open spec fn rows_of(pixels: Seq<u8>, x: int, width: int, y: int, count: nat) -> Seq<u8>
    decreases count,
{
    if count == 0 {
        Seq::empty()
    } else {
        rows_of(pixels, x, width, y, (count - 1) as nat) + pixels.subrange(
            pixel_at(x, y + count - 1),
            pixel_at(x, y + count - 1) + width * 4,
        )
    }
}

/// The upload is the part of the atlas in the rectangle.
pub open spec fn uploads(upload: AtlasUpload, pixels: Seq<u8>, dirty: AtlasDirtyRect) -> bool {
    &&& upload.origin@ == seq![dirty.min_x, dirty.min_y]
    &&& upload.size@ == seq![
        (dirty.max_x - dirty.min_x) as u32,
        (dirty.max_y - dirty.min_y) as u32,
    ]
    &&& upload.bytes@ == rows_of(
        pixels,
        dirty.min_x as int,
        dirty.max_x - dirty.min_x,
        dirty.min_y as int,
        (dirty.max_y - dirty.min_y) as nat,
    )
    &&& upload.bytes@.len() == (dirty.max_y - dirty.min_y) * ((dirty.max_x - dirty.min_x) * 4)
}

proof fn lemma_key_stays_new(before: Seq<CachedGlyph>, after: Seq<CachedGlyph>, key: u64)
    requires
        made_room(before, after),
        !has_key(before, key),
    ensures
        !has_key(after, key),
{
    assert forall|i: int| 0 <= i < after.len() implies (#[trigger] after[i]).key != key by {
        assert(after.contains(after[i]));
        assert(before.contains(after[i]));
        let k = choose|k: int| 0 <= k < before.len() && before[k] == after[i];
        assert(before[k].key != key);
    }
}

proof fn lemma_insert_fits(
    before: Seq<CachedGlyph>,
    after: Seq<CachedGlyph>,
    entry: CachedGlyph,
    slots: Map<u32, (i32, i32, i32, i32)>,
)
    requires
        glyphs_fit(before, slots),
        forall|id: u32| #[trigger]
            slots.contains_key(id) && id != entry.slot ==> slot_used(before, id),
        slots.contains_key(entry.slot),
        lies_in(entry.glyph, slots[entry.slot]),
        forall|i: int| 0 <= i < before.len() ==> (#[trigger] before[i]).slot != entry.slot,
        exists|at: int|
            0 <= at <= before.len() && after == #[trigger] before.insert(at, entry),
    ensures
        glyphs_fit(after, slots),
        slots_used(after, slots),
{
    let at = choose|at: int|
        0 <= at <= before.len() && after == #[trigger] before.insert(at, entry);
    assert forall|id: u32| #[trigger] slots.contains_key(id) implies slot_used(after, id) by {
        if id == entry.slot {
            assert(after[at].slot == id);
        } else {
            let i = choose|i: int| 0 <= i < before.len() && (#[trigger] before[i]).slot == id;
            if i < at {
                assert(after[i].slot == id);
            } else {
                assert(after[i + 1].slot == id);
            }
        }
    }
    assert forall|i: int| 0 <= i < after.len() implies slots.contains_key(
        (#[trigger] after[i]).slot,
    ) && lies_in(after[i].glyph, slots[after[i].slot]) by {
        if i < at {
            assert(slots.contains_key(before[i].slot));
        } else if i > at {
            assert(slots.contains_key(before[i - 1].slot));
        }
    }
    assert forall|i: int, j: int| 0 <= i < j < after.len() implies (#[trigger] after[i]).slot != (
    #[trigger] after[j]).slot by {
        if i < at && j < at {
            assert(before[i].slot != before[j].slot);
        } else if i < at && j > at {
            assert(before[i].slot != before[j - 1].slot);
        } else if i > at {
            assert(before[i - 1].slot != before[j - 1].slot);
        } else if i == at {
            assert(before[j - 1].slot != entry.slot);
        } else {
            assert(before[i].slot != entry.slot);
        }
    }
}

/// Painting a glyph changes no pixel of another one that lies apart from it.
pub proof fn law_painting_keeps_other_glyphs(
    pixels: Seq<u8>,
    painted: GlyphInfo,
    other: GlyphInfo,
    content: GlyphContent,
    data: Seq<u8>,
    at: int,
)
    requires
        0 <= at < pixels.len(),
        painted.atlas_x + painted.width <= other.atlas_x || other.atlas_x + other.width
            <= painted.atlas_x || painted.atlas_y + painted.height <= other.atlas_y
            || other.atlas_y + other.height <= painted.atlas_y,
        in_rect(
            at,
            other.atlas_x as int,
            other.atlas_y as int,
            other.width as int,
            other.height as int,
        ),
    ensures
        with_image(
            pixels,
            painted.atlas_x as int,
            painted.atlas_y as int,
            painted.width as int,
            painted.height as int,
            content,
            data,
        )[at] == pixels[at],
{
}

// ---------------------------------------------------------------------------
// Wearing the atlas out.

/// What was uploaded so far.
#[derive(Clone, Copy, Debug, PartialEq, Eq, Structural)]
pub struct UploadTally {
    pub operations: u64,
    pub bytes: u64,
    pub largest: usize,
    /// Every upload lay in the atlas and had as many bytes as its size says.
    pub integrity: bool,
}

impl Default for UploadTally {
    fn default() -> (tally: Self)
        ensures
            tally == (UploadTally { operations: 0, bytes: 0, largest: 0, integrity: true }),
    {
        UploadTally { operations: 0, bytes: 0, largest: 0, integrity: true }
    }
}

/// The bytes of an upload of the rectangle.
pub open spec fn upload_len(dirty: Option<AtlasDirtyRect>) -> int {
    match dirty {
        Some(dirty) => if dirty.min_x < dirty.max_x && dirty.min_y < dirty.max_y {
            (dirty.max_y - dirty.min_y) * ((dirty.max_x - dirty.min_x) * 4)
        } else {
            0
        },
        None => 0,
    }
}

/// Takes what has changed and adds it up. No upload is ever found to be
/// wrong.
pub fn drain_atlas_upload(atlas: &mut GlyphAtlas, tally: UploadTally) -> (after: UploadTally)
    requires
        old(atlas).wf(),
    ensures
        final(atlas).wf(),
        final(atlas)@ == (AtlasModel { dirty: None, ..old(atlas)@ }),
        after.integrity == tally.integrity,
        ({
            let length = upload_len(old(atlas)@.dirty);
            if length == 0 {
                after == tally
            } else {
                &&& after.operations == saturating_next(tally.operations)
                &&& after.bytes == counted(tally.bytes, length)
                &&& after.largest == if length > tally.largest {
                    length
                } else {
                    tally.largest as int
                }
            }
        }),
{
    let ghost dirty = atlas@.dirty;
    match atlas.take_dirty_upload() {
        None => {
            tally
        },
        Some(upload) => {
            let length: usize = upload.bytes.len();
            let width: u32 = upload.size[0];
            let height: u32 = upload.size[1];
            proof {
                let rect = dirty->0;
                assert(width == rect.max_x - rect.min_x && height == rect.max_y - rect.min_y);
                assert(height * (width * 4) == width * height * 4 && 0 < height * (width * 4)
                    && width * height * 4 <= 16777216 && width * height <= 4194304)
                    by (nonlinear_arith)
                    requires
                        0 < width <= 2048,
                        0 < height <= 2048,
                ;
            }
            let valid = length == (width * height * ATLAS_BYTES_PER_PIXEL) as usize
                && upload.origin[0] <= ATLAS_WIDTH && width <= ATLAS_WIDTH - upload.origin[0]
                && upload.origin[1] <= ATLAS_HEIGHT && height <= ATLAS_HEIGHT - upload.origin[1];
            UploadTally {
                operations: next_number(tally.operations),
                bytes: if length as u64 <= u64::MAX - tally.bytes {
                    tally.bytes + length as u64
                } else {
                    u64::MAX
                },
                largest: if length > tally.largest {
                    length
                } else {
                    tally.largest
                },
                integrity: tally.integrity && valid,
            }
        },
    }
}

/// What came of wearing an atlas out.
#[derive(Clone, Copy, Debug, PartialEq, Eq, Structural)]
pub struct AtlasChurn {
    /// How many glyphs the atlas held when the first one had to go.
    pub capacity: usize,
    /// How many glyphs were taken up in all.
    pub reserved: u64,
    pub tally: UploadTally,
    pub first_key: Option<u64>,
    pub end: ChurnEnd,
}

/// Why an atlas is worn no further.
#[derive(Clone, Copy, Debug, PartialEq, Eq, Structural)]
pub enum ChurnEnd {
    /// Enough glyphs have made room.
    Worn,
    /// There are no more glyphs to try.
    OutOfKeys,
    /// Nothing can make room any more.
    NoRoom,
}

/// The width of the glyph that is tried as the `index`th.
pub open spec fn churn_width(index: int) -> int {
    20 + index % 6 * 4
}

pub open spec fn churn_height(index: int) -> int {
    20 + (index * 5) % 6 * 4
}

/// The bytes that the first `count` glyphs take.
pub open spec fn churn_bytes(count: nat) -> int
    decreases count,
{
    if count == 0 {
        0
    } else {
        churn_bytes((count - 1) as nat) + churn_height(count as int) * (churn_width(count as int)
            * 4)
    }
}

/// The bytes of the largest of the first `count` glyphs, or of what was larger
/// before.
pub open spec fn churn_largest(earlier: int, count: nat) -> int
    decreases count,
{
    if count == 0 {
        earlier
    } else {
        let largest = churn_largest(earlier, (count - 1) as nat);
        let length = churn_height(count as int) * (churn_width(count as int) * 4);
        if length > largest {
            length
        } else {
            largest
        }
    }
}

proof fn lemma_churn_bytes(count: nat)
    ensures
        churn_bytes(count) >= 0,
        0 < churn_height(count as int) * (churn_width(count as int) * 4),
    decreases count,
{
    let width = churn_width(count as int);
    let height = churn_height(count as int);
    assert(0 < height * (width * 4)) by (nonlinear_arith)
        requires
            width >= 20,
            height >= 20,
    ;
    if count > 0 {
        lemma_churn_bytes((count - 1) as nat);
    }
}

/// How many glyphs have to make room before an atlas counts as worn.
pub open spec fn churn_target(requested: u64) -> u64 {
    if requested >= 1 {
        requested
    } else {
        1
    }
}

/// An atlas at the beginning of a frame that shows only the first glyph.
pub open spec fn churn_framed(before: AtlasModel, turn: int) -> AtlasModel {
    AtlasModel {
        glyphs: Seq::new(
            before.glyphs.len(),
            |i: int|
                CachedGlyph {
                    pinned: turn > 1 && before.glyphs[i].key == 1,
                    ..before.glyphs[i]
                },
        ),
        use_clock: saturating_next(before.use_clock),
        ..before
    }
}

/// The atlas takes up the glyph that is tried as the `turn`th.
pub open spec fn churn_turn(before: AtlasModel, after: AtlasModel, turn: int) -> bool {
    let framed = churn_framed(before, turn);
    &&& after == (AtlasModel {
        glyphs: after.glyphs,
        evictions: after.evictions,
        slots: after.slots,
        ..framed
    })
    &&& exists|glyph: GlyphInfo| #[trigger]
        took_up(
            framed,
            after,
            turn as u64,
            glyph,
            churn_width(turn),
            churn_height(turn),
        )
}

/// What an atlas was after each of the glyphs that it took up.
pub open spec fn churned(history: Seq<AtlasModel>) -> bool
    decreases history.len(),
{
    history.len() <= 1 || churned(history.drop_last()) && churn_turn(
        history[history.len() - 2],
        history.last(),
        history.len() - 1,
    )
}

/// How many glyphs the atlas held right after the first time that glyphs had
/// to go; none where none had to.
pub open spec fn worn_capacity(history: Seq<AtlasModel>) -> int
    decreases history.len(),
{
    if history.len() == 0 {
        0
    } else {
        let earlier = worn_capacity(history.drop_last());
        if earlier == 0 && history.last().evictions > 0 {
            history.last().glyphs.len() as int
        } else {
            earlier
        }
    }
}

/// What wearing an atlas out did to it, glyph by glyph.
pub open spec fn churn_story(
    history: Seq<AtlasModel>,
    before: AtlasModel,
    after: AtlasModel,
    churn: AtlasChurn,
) -> bool {
    let next = churn.reserved + 1;
    &&& history.len() == churn.reserved + 1
    &&& history[0] == before
    &&& churned(history)
    &&& churn.capacity == worn_capacity(history)
    &&& if churn.end == ChurnEnd::NoRoom {
        let framed = churn_framed(history.last(), next);
        made_room(framed.glyphs, after.glyphs) && found_room(
            framed,
            after.glyphs,
            churn_width(next),
            churn_height(next),
            false,
        )
    } else {
        history.last() == after
    }
}

/// Takes up glyphs of many sizes until enough of them had to make room, or
/// until the atlas finds no room any more. The first one is kept throughout.
#[verifier::rlimit(50)]
pub fn churn_atlas(atlas: &mut GlyphAtlas, requested: u64, earlier: UploadTally) -> (churn:
    AtlasChurn)
    requires
        old(atlas).wf(),
        old(atlas)@.glyphs.len() == 0,
        old(atlas)@.evictions == 0,
        old(atlas)@.dirty is None,
    ensures
        final(atlas).wf(),
        final(atlas)@ == (AtlasModel {
            glyphs: final(atlas)@.glyphs,
            evictions: final(atlas)@.evictions,
            use_clock: final(atlas)@.use_clock,
            slots: final(atlas)@.slots,
            ..old(atlas)@
        }),
        exists|history: Seq<AtlasModel>| #[trigger]
            churn_story(history, old(atlas)@, final(atlas)@, churn),
        churn.reserved <= 65534,
        churn.reserved == final(atlas)@.glyphs.len() + final(atlas)@.evictions,
        forall|i: int|
            0 <= i < final(atlas)@.glyphs.len() ==> (#[trigger] final(atlas)@.glyphs[i]).key
                <= churn.reserved,
        churn.first_key == (if churn.reserved > 0 {
            Some(1u64)
        } else {
            None
        }),
        churn.reserved > 0 ==> has_key(final(atlas)@.glyphs, 1),
        final(atlas)@.evictions == 0 ==> churn.capacity == 0,
        churn.end != ChurnEnd::NoRoom && final(atlas)@.evictions > 0 ==> churn.capacity > 0,
        churn.capacity < churn.reserved || churn.capacity == 0,
        churn.tally.operations == counted(earlier.operations, churn.reserved as int),
        churn.tally.bytes == counted(earlier.bytes, churn_bytes(churn.reserved as nat)),
        churn.tally.largest == churn_largest(earlier.largest as int, churn.reserved as nat),
        churn.tally.integrity == earlier.integrity,
        match churn.end {
            ChurnEnd::Worn => final(atlas)@.evictions >= churn_target(requested),
            ChurnEnd::OutOfKeys => final(atlas)@.evictions < churn_target(requested)
                && churn.reserved == 65534,
            ChurnEnd::NoRoom => churn.reserved < 65534 && left_no_room(
                final(atlas)@,
                churn_width(churn.reserved + 1),
                churn_height(churn.reserved + 1),
            ),
        },
{
    let target: u64 = if requested >= 1 {
        requested
    } else {
        1
    };
    let mut tally = earlier;
    let mut capacity: usize = 0;
    let mut first_key: Option<u64> = None;
    let mut index: u32 = 1;
    let ghost mut history = seq![atlas@];
    assert(history.drop_last() =~= Seq::empty());
    assert(worn_capacity(history.drop_last()) == 0);
    while atlas.evictions < target && index < 65535
        invariant
            atlas.wf(),
            atlas@ == (AtlasModel {
                glyphs: atlas@.glyphs,
                evictions: atlas@.evictions,
                use_clock: atlas@.use_clock,
                slots: atlas@.slots,
                ..old(atlas)@
            }),
            old(atlas)@.dirty is None,
            1 <= index <= 65535,
            target == churn_target(requested),
            atlas@.glyphs.len() + atlas@.evictions == index - 1,
            tally.integrity == earlier.integrity,
            tally.operations == counted(earlier.operations, index - 1),
            tally.bytes == counted(earlier.bytes, churn_bytes((index - 1) as nat)),
            tally.largest == churn_largest(earlier.largest as int, (index - 1) as nat),
            history.len() == index,
            history[0] == old(atlas)@,
            history.last() == atlas@,
            churned(history),
            capacity == worn_capacity(history),
            capacity == 0 <==> atlas@.evictions == 0,
            capacity < index - 1 || capacity == 0,
            forall|i: int| 0 <= i < atlas@.glyphs.len() ==> (#[trigger] atlas@.glyphs[i]).key < index,
            first_key == (if index > 1 {
                Some(1u64)
            } else {
                None
            }),
            index > 1 ==> has_key(atlas@.glyphs, 1),
        decreases 65535 - index,
    {
        let ghost before = atlas@.glyphs;
        let ghost resting = atlas@;
        atlas.begin_frame();
        if let Some(key) = first_key {
            atlas.pin(key);
        }
        let ghost framed = atlas@.glyphs;
        let ghost start = atlas@;
        proof {
            assert forall|i: int| 0 <= i < framed.len() implies (#[trigger] framed[i]).key
                == before[i].key by {}
            if first_key is Some {
                let i = choose|i: int| 0 <= i < before.len() && (#[trigger] before[i]).key == 1;
                assert(framed[i].key == 1 && framed[i].pinned);
            }
            assert(!has_key(framed, index as u64));
        }
        let width: u32 = 20 + index % 6 * 4;
        let height: u32 = 20 + (index * 5) % 6 * 4;
        let evictions: u64 = atlas.evictions;
        let key: u64 = index as u64;
        match atlas.reserve(key, width, height) {
            None => {
                proof {
                    if first_key is Some {
                        let i = choose|i: int|
                            0 <= i < framed.len() && (#[trigger] framed[i]).key == 1;
                        lemma_pinned_stays(framed, atlas@.glyphs, i);
                    }
                    assert forall|i: int| 0 <= i < atlas@.glyphs.len() implies (
                    #[trigger] atlas@.glyphs[i]).key < index by {
                        assert(atlas@.glyphs.contains(atlas@.glyphs[i]));
                        assert(framed.contains(atlas@.glyphs[i]));
                        let j = choose|j: int|
                            0 <= j < framed.len() && framed[j] == atlas@.glyphs[i];
                        assert(framed[j].key < index);
                    }
                }
                let churn = AtlasChurn {
                    capacity,
                    reserved: key - 1,
                    tally,
                    first_key,
                    end: ChurnEnd::NoRoom,
                };
                proof {
                    assert(framed =~= churn_framed(resting, index as int).glyphs);
                    assert(churn_story(history, old(atlas)@, atlas@, churn));
                }
                return churn;
            },
            Some(glyph) => {
                proof {
                    let entered = AtlasModel { use_clock: atlas@.use_clock, ..start };
                    let kept = choose|kept: Seq<CachedGlyph>| #[trigger]
                        took_up_by(
                            entered,
                            atlas@,
                            kept,
                            key,
                            glyph,
                            width as int,
                            height as int,
                        );
                    assert(took_up_by(
                        entered,
                        atlas@,
                        kept,
                        key,
                        glyph,
                        width as int,
                        height as int,
                    ));
                    lemma_reserved(framed, kept, atlas@.glyphs, key, glyph, entered.use_clock);
                    assert(atlas@.glyphs.len() == kept.len() + 1);
                }
                if first_key.is_none() {
                    first_key = Some(key);
                }
                if evictions == 0 && atlas.evictions > 0 {
                    capacity = atlas.glyphs.len();
                }
                atlas.mark_dirty(glyph.atlas_x, glyph.atlas_y, width, height);
                proof {
                    lemma_churn_bytes(index as nat);
                    lemma_churn_bytes((index - 1) as nat);
                }
                tally = drain_atlas_upload(atlas, tally);
                proof {
                    let entered = churn_framed(resting, index as int);
                    assert(framed =~= entered.glyphs);
                    assert(took_up(
                        entered,
                        atlas@,
                        key,
                        glyph,
                        churn_width(index as int),
                        churn_height(index as int),
                    ));
                    assert(churn_turn(resting, atlas@, index as int));
                    let longer = history.push(atlas@);
                    assert(longer.drop_last() =~= history);
                    history = longer;
                }
            },
        }
        index += 1;
    }
    let end = if atlas.evictions >= target {
        ChurnEnd::Worn
    } else {
        ChurnEnd::OutOfKeys
    };
    let churn = AtlasChurn { capacity, reserved: index as u64 - 1, tally, first_key, end };
    assert(churn_story(history, old(atlas)@, atlas@, churn));
    churn
}

/// A glyph that the frame shows does not make room.
proof fn lemma_pinned_stays(before: Seq<CachedGlyph>, after: Seq<CachedGlyph>, at: int)
    requires
        made_room(before, after),
        0 <= at < before.len(),
        before[at].pinned,
    ensures
        after.contains(before[at]),
        has_key(after, before[at].key),
{
    let glyph = before[at];
    assert(before.contains(glyph));
    if !after.contains(glyph) {
        assert(!glyph.pinned);
    }
    let i = choose|i: int| 0 <= i < after.len() && after[i] == glyph;
    assert(after[i].key == glyph.key);
}

proof fn lemma_reserved(
    framed: Seq<CachedGlyph>,
    kept: Seq<CachedGlyph>,
    after: Seq<CachedGlyph>,
    key: u64,
    glyph: GlyphInfo,
    clock: u64,
)
    requires
        made_room(framed, kept),
        forall|i: int| 0 <= i < framed.len() ==> (#[trigger] framed[i]).key < key,
        exists|at: int, slot: u32|
            0 <= at <= kept.len() && after == #[trigger] kept.insert(
                at,
                CachedGlyph { key, slot, last_used: clock, pinned: true, glyph },
            ),
    ensures
        forall|i: int| 0 <= i < after.len() ==> (#[trigger] after[i]).key <= key,
        has_key(after, key),
        forall|i: int|
            0 <= i < framed.len() && (#[trigger] framed[i]).pinned ==> has_key(
                after,
                framed[i].key,
            ),
{
    let (at, slot) = choose|at: int, slot: u32|
        0 <= at <= kept.len() && after == #[trigger] kept.insert(
            at,
            CachedGlyph { key, slot, last_used: clock, pinned: true, glyph },
        );
    assert(after[at].key == key);
    assert forall|i: int| 0 <= i < after.len() implies (#[trigger] after[i]).key <= key by {
        if i != at {
            let k = if i < at {
                i
            } else {
                i - 1
            };
            assert(after[i] == kept[k]);
            assert(kept.contains(kept[k]));
            assert(framed.contains(kept[k]));
            let j = choose|j: int| 0 <= j < framed.len() && framed[j] == kept[k];
            assert(framed[j].key < key);
        }
    }
    assert forall|i: int| 0 <= i < framed.len() && (#[trigger] framed[i]).pinned implies has_key(
        after,
        framed[i].key,
    ) by {
        lemma_pinned_stays(framed, kept, i);
        let k = choose|k: int| 0 <= k < kept.len() && kept[k] == framed[i];
        if k < at {
            assert(after[k].key == framed[i].key);
        } else {
            assert(after[k + 1].key == framed[i].key);
        }
    }
}

} // verus!
