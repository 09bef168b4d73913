//! What an atlas holds, pixel by pixel.
use crate::glyph_atlas::{
    ascii_index, change_rect, dirty_with, keeps_for_frame, keeps_none, looked_up, made_room,
    pixel_at, rows_of, tile, uploads, with_image, AtlasDirtyRect, AtlasModel, AtlasUpload,
    CachedGlyph, GlyphContent, GlyphInfo,
};
use vstd::prelude::*;

verus! {

proof fn lemma_pixel_place(x: int, y: int, channel: int)
    requires
        0 <= x < 2048,
        0 <= y < 2048,
        0 <= channel < 4,
    ensures
        ((pixel_at(x, y) + channel) / 4) % 2048 == x,
        ((pixel_at(x, y) + channel) / 4) / 2048 == y,
        (pixel_at(x, y) + channel) % 4 == channel,
        0 <= pixel_at(x, y) + channel < 16777216,
{
    let at = (y * 2048 + x) * 4 + channel;
    assert(at / 4 == y * 2048 + x && at % 4 == channel);
}

/// An image is painted where its glyph stands, pixel for pixel: coverage as
/// white of that opacity, colors as they are, and of the coverage of three
/// subpixels the highest.
pub proof fn law_image_is_painted(
    pixels: Seq<u8>,
    x: int,
    y: int,
    width: int,
    height: int,
    content: GlyphContent,
    data: Seq<u8>,
    column: int,
    row: int,
)
    requires
        pixels.len() == 16777216,
        0 <= x,
        0 <= y,
        x + width <= 2048,
        y + height <= 2048,
        0 <= column < width,
        0 <= row < height,
        data.len() == if content == GlyphContent::Mask {
            width * height
        } else {
            width * height * 4
        },
    ensures
        ({
            let painted = with_image(pixels, x, y, width, height, content, data);
            let at = pixel_at(x + column, y + row);
            let from = row * width + column;
            match content {
                GlyphContent::Mask => painted[at] == 255 && painted[at + 1] == 255 && painted[at
                    + 2] == 255 && painted[at + 3] == data[from],
                GlyphContent::Color => painted[at] == data[4 * from] && painted[at + 1] == data[4
                    * from + 1] && painted[at + 2] == data[4 * from + 2] && painted[at + 3]
                    == data[4 * from + 3],
                GlyphContent::SubpixelMask => {
                    &&& painted[at] == 255 && painted[at + 1] == 255 && painted[at + 2] == 255
                    &&& painted[at + 3] >= data[4 * from]
                    &&& painted[at + 3] >= data[4 * from + 1]
                    &&& painted[at + 3] >= data[4 * from + 2]
                    &&& painted[at + 3] == data[4 * from] || painted[at + 3] == data[4 * from + 1]
                        || painted[at + 3] == data[4 * from + 2]
                },
            }
        }),
{
    let from = row * width + column;
    assert(0 <= from < width * height) by (nonlinear_arith)
        requires
            0 <= column < width,
            0 <= row < height,
            from == row * width + column,
    ;
    assert(4 * from + 4 <= width * height * 4);
    lemma_pixel_place(x + column, y + row, 0);
    lemma_pixel_place(x + column, y + row, 1);
    lemma_pixel_place(x + column, y + row, 2);
    lemma_pixel_place(x + column, y + row, 3);
}

/// Nothing outside the rectangle of a glyph is painted over.
pub proof fn law_nothing_else_is_painted(
    pixels: Seq<u8>,
    x: int,
    y: int,
    width: int,
    height: int,
    content: GlyphContent,
    data: Seq<u8>,
    column: int,
    row: int,
    channel: int,
)
    requires
        pixels.len() == 16777216,
        0 <= column < 2048,
        0 <= row < 2048,
        0 <= channel < 4,
        !(x <= column < x + width && y <= row < y + height),
    ensures
        with_image(pixels, x, y, width, height, content, data).len() == pixels.len(),
        with_image(pixels, x, y, width, height, content, data)[pixel_at(column, row) + channel]
            == pixels[pixel_at(column, row) + channel],
{
    lemma_pixel_place(column, row, channel);
}

/// The rectangle holds a pixel.
pub open spec fn holds(rect: AtlasDirtyRect, x: int, y: int) -> bool {
    rect.min_x <= x < rect.max_x && rect.min_y <= y < rect.max_y
}

/// Every pixel of a change is among those that are uploaded next, and none that
/// was waiting is lost.
pub proof fn law_changes_are_gathered(
    dirty: Option<AtlasDirtyRect>,
    x: u32,
    y: u32,
    width: u32,
    height: u32,
    column: int,
    row: int,
)
    requires
        column < 2048,
        row < 2048,
    ensures
        x <= column < x + width && y <= row < y + height ==> holds(
            dirty_with(dirty, change_rect(x, y, width, height)),
            column,
            row,
        ),
        (dirty matches Some(waiting) && holds(waiting, column, row)) ==> holds(
            dirty_with(dirty, change_rect(x, y, width, height)),
            column,
            row,
        ),
        dirty is None && holds(
            dirty_with(dirty, change_rect(x, y, width, height)),
            column,
            row,
        ) ==> x <= column < x + width && y <= row < y + height,
{
}

proof fn lemma_rows(pixels: Seq<u8>, x: int, width: int, y: int, count: nat, at: int, row: int)
    requires
        pixels.len() == 16777216,
        0 <= x,
        0 <= y,
        0 <= width,
        x + width <= 2048,
        y + count <= 2048,
        0 <= row < count,
        0 <= at < width * 4,
    ensures
        rows_of(pixels, x, width, y, count).len() == count * (width * 4),
        0 <= row * (width * 4) + at < rows_of(pixels, x, width, y, count).len(),
        rows_of(pixels, x, width, y, count)[row * (width * 4) + at] == pixels[pixel_at(x, y + row)
            + at],
    decreases count,
{
    let line = width * 4;
    let before = rows_of(pixels, x, width, y, (count - 1) as nat);
    lemma_rows_length(pixels, x, width, y, (count - 1) as nat);
    lemma_rows_length(pixels, x, width, y, count);
    assert(0 <= row * line && row * line + line <= count * line) by (nonlinear_arith)
        requires
            0 <= row < count,
            0 <= line,
    ;
    assert((count - 1) * line == count * line - line) by (nonlinear_arith);
    if row < count - 1 {
        lemma_rows(pixels, x, width, y, (count - 1) as nat, at, row);
    } else {
        assert(before.len() == row * line);
    }
}

proof fn lemma_rows_length(pixels: Seq<u8>, x: int, width: int, y: int, count: nat)
    requires
        pixels.len() == 16777216,
        0 <= x,
        0 <= y,
        0 <= width,
        x + width <= 2048,
        y + count <= 2048,
    ensures
        rows_of(pixels, x, width, y, count).len() == count * (width * 4),
    decreases count,
{
    let line = width * 4;
    if count > 0 {
        lemma_rows_length(pixels, x, width, y, (count - 1) as nat);
        assert((count - 1) * line == count * line - line) by (nonlinear_arith);
    } else {
        assert(count * line == 0) by (nonlinear_arith)
            requires
                count == 0,
        ;
    }
}

/// An upload holds the pixels of its rectangle, row by row.
pub proof fn law_upload_holds_its_pixels(
    upload: AtlasUpload,
    pixels: Seq<u8>,
    dirty: AtlasDirtyRect,
    column: int,
    row: int,
    channel: int,
)
    requires
        uploads(upload, pixels, dirty),
        pixels.len() == 16777216,
        dirty.max_x <= 2048,
        dirty.max_y <= 2048,
        holds(dirty, column, row),
        0 <= channel < 4,
    ensures
        ({
            let width = upload.size@[0] as int;
            let at = ((row - upload.origin@[1]) * width + (column - upload.origin@[0])) * 4
                + channel;
            &&& width == dirty.max_x - dirty.min_x
            &&& upload.size@[1] == dirty.max_y - dirty.min_y
            &&& upload.origin@[0] == dirty.min_x && upload.origin@[1] == dirty.min_y
            &&& 0 <= at < upload.bytes@.len()
            &&& upload.bytes@[at] == pixels[pixel_at(column, row) + channel]
        }),
{
    let width = dirty.max_x - dirty.min_x;
    let height = (dirty.max_y - dirty.min_y) as nat;
    let (c, r) = (column - dirty.min_x, row - dirty.min_y);
    lemma_rows(
        pixels,
        dirty.min_x as int,
        width,
        dirty.min_y as int,
        height,
        c * 4 + channel,
        r,
    );
    assert((r * width + c) * 4 + channel == r * (width * 4) + (c * 4 + channel))
        by (nonlinear_arith);
}

/// A glyph that the frame shows never makes room, and one that makes room was
/// used no later than any that is kept and that the frame does not show.
pub proof fn law_oldest_glyphs_make_room(
    before: Seq<CachedGlyph>,
    after: Seq<CachedGlyph>,
    gone: CachedGlyph,
    kept: CachedGlyph,
)
    requires
        made_room(before, after),
        before.contains(gone),
        !after.contains(gone),
    ensures
        !gone.pinned,
        after.contains(kept) && !kept.pinned ==> gone.last_used <= kept.last_used,
        after.contains(kept) ==> before.contains(kept),
{
}

/// Every printable ASCII character has a glyph of its own in a tile of its own,
/// and any other character is shown as a question mark.
pub proof fn law_ascii_glyphs(one: char, other: char)
    ensures
        0x20 <= one as u32 <= 0x7e ==> 0 <= ascii_index(one) < 95,
        0x20 <= one as u32 <= 0x7e && 0x20 <= other as u32 <= 0x7e && one != other ==> tile(
            ascii_index(one),
        ) != tile(ascii_index(other)),
        !(0x20 <= one as u32 <= 0x7e) ==> ascii_index(one) == ascii_index('?'),
{
    let (a, b) = (ascii_index(one), ascii_index(other));
    assert(a == 64 * (a / 64) + a % 64);
    assert(b == 64 * (b / 64) + b % 64);
}

// ---------------------------------------------------------------------------
// Glyphs of a frame.

/// A glyph that was looked up is the one with that key, stays for the frame
/// however many others have to make room, and is looked up only if there is
/// one.
pub proof fn law_glyph_that_is_shown_stays(
    before: AtlasModel,
    after: AtlasModel,
    key: u64,
    glyph: GlyphInfo,
    kept: Seq<CachedGlyph>,
)
    requires
        looked_up(before, after, key, Some(glyph)),
        made_room(after.glyphs, kept),
    ensures
        exists|i: int|
            0 <= i < before.glyphs.len() && (#[trigger] before.glyphs[i]).key == key
                && before.glyphs[i].glyph == glyph,
        exists|i: int|
            0 <= i < kept.len() && (#[trigger] kept[i]).key == key && kept[i].glyph == glyph,
        before.use_clock < u64::MAX ==> exists|i: int|
            0 <= i < after.glyphs.len() && (#[trigger] after.glyphs[i]).key == key
                && after.glyphs[i].last_used == before.use_clock + 1,
{
    let i = choose|i: int|
        {
            &&& 0 <= i < before.glyphs.len()
            &&& (#[trigger] before.glyphs[i]).key == key
            &&& before.glyphs[i].glyph == glyph
            &&& after.glyphs == before.glyphs.update(
                i,
                CachedGlyph {
                    last_used: crate::glyph_atlas::saturating_next(before.use_clock),
                    pinned: true,
                    ..before.glyphs[i]
                },
            )
        };
    let shown = after.glyphs[i];
    assert(after.glyphs.contains(shown));
    assert(shown.key == key && shown.pinned);
    assert(kept.contains(shown)) by {
        if !kept.contains(shown) {
            assert(!shown.pinned);
        }
    }
    let k = choose|k: int| 0 <= k < kept.len() && kept[k] == shown;
    assert(kept[k].key == key && kept[k].glyph == glyph);
}

/// A key that no glyph has is not found, and nothing changes for it.
pub proof fn law_unknown_key_finds_nothing(
    before: AtlasModel,
    after: AtlasModel,
    key: u64,
    glyph: Option<GlyphInfo>,
)
    requires
        looked_up(before, after, key, glyph),
    ensures
        glyph is None <==> forall|i: int|
            0 <= i < before.glyphs.len() ==> (#[trigger] before.glyphs[i]).key != key,
        glyph is None ==> after.glyphs == before.glyphs,
{
}

/// A glyph that the frame keeps stays however many others have to make room.
pub proof fn law_glyph_that_is_kept_stays(
    before: Seq<CachedGlyph>,
    after: Seq<CachedGlyph>,
    key: u64,
    index: int,
    kept: Seq<CachedGlyph>,
)
    requires
        keeps_for_frame(before, after, key),
        made_room(after, kept),
        0 <= index < before.len(),
        before[index].key == key || before[index].pinned,
    ensures
        kept.contains(CachedGlyph { pinned: true, ..before[index] }),
{
    let shown = after[index];
    assert(after.contains(shown));
    assert(shown == (CachedGlyph { pinned: true, ..before[index] }));
    if !kept.contains(shown) {
        assert(!shown.pinned);
    }
}

/// A new frame shows nothing yet: every glyph may make room again, and none is
/// lost by that.
pub proof fn law_new_frame_keeps_nothing(
    before: Seq<CachedGlyph>,
    after: Seq<CachedGlyph>,
    index: int,
)
    requires
        keeps_none(before, after),
        0 <= index < before.len(),
    ensures
        after.len() == before.len(),
        !after[index].pinned,
        after[index].key == before[index].key,
        after[index].glyph == before[index].glyph,
        after[index].slot == before[index].slot,
        after[index].last_used == before[index].last_used,
{
}

} // verus!
