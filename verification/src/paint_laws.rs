//! What colors, cells and log rows look like.
use crate::log_reflow::{cluster_end, LogRow, LogVisualRow};
use crate::outside::{cuts_text, grapheme_starts};
use crate::log_surface::LogSurfaceFrame;
use crate::paint::{
    active_range, cell_paints, entry_cell, ink, paint_if, painted, palette, row_paints, search_layer, step_for, style_inks,
    CellPaint, ClusterPaint, Ink, LogDecorations, RenderOutcome, SurfaceStatus, SurfaceStep,
};
use crate::terminal::{Cell, Color, CursorShape, FrameSnapshot, Style};
use crate::terminal_interaction::TerminalSearchMatch;
use crate::text::text_between;
use vstd::prelude::*;

verus! {

// ---------------------------------------------------------------------------
// Colors.

/// The color cube: six levels of red, green and blue, none being zero and the
/// others forty apart, up to 255.
pub proof fn law_color_cube(red: int, green: int, blue: int)
    requires
        0 <= red < 6,
        0 <= green < 6,
        0 <= blue < 6,
    ensures
        ({
            let color = palette((16 + 36 * red + 6 * green + blue) as u8);
            let level = |step: int|
                if step == 0 {
                    0int
                } else {
                    255 - 40 * (5 - step)
                };
            &&& color@[0] == level(red)
            &&& color@[1] == level(green)
            &&& color@[2] == level(blue)
        }),
{
    let index = (16 + 36 * red + 6 * green + blue) as u8;
    let cube = index - 16;
    assert(cube / 36 == red && cube % 36 == 6 * green + blue);
    assert((cube % 36) / 6 == green);
    assert(cube % 6 == blue);
}

/// The last twenty-four colors are grays, from dark to light in steps of ten.
pub proof fn law_grays(step: int)
    requires
        0 <= step < 24,
    ensures
        ({
            let color = palette((232 + step) as u8);
            color@[0] == 8 + 10 * step && color@[1] == 8 + 10 * step && color@[2] == 8 + 10 * step
        }),
{
}

/// The sixteen named colors: an odd number has red in it, 2 and 3 of every
/// four green, 4 to 7 of every eight blue, and a channel that is in a color is
/// stronger than one that is not. The second eight are the first eight, only
/// brighter.
pub proof fn law_named_colors(index: int)
    requires
        0 <= index < 8,
    ensures
        ({
            let dark = palette(index as u8)@;
            let bright = palette((index + 8) as u8)@;
            let red = index % 2 == 1;
            let green = (index / 2) % 2 == 1;
            let blue = index / 4 == 1;
            &&& red && !green ==> dark[0] > dark[1] && bright[0] > bright[1]
            &&& red && !blue ==> dark[0] > dark[2] && bright[0] > bright[2]
            &&& green && !red ==> dark[1] > dark[0] && bright[1] > bright[0]
            &&& green && !blue ==> dark[1] > dark[2] && bright[1] > bright[2]
            &&& blue && !red ==> dark[2] > dark[0] && bright[2] > bright[0]
            &&& blue && !green ==> dark[2] > dark[1] && bright[2] > bright[1]
            &&& dark[0] < bright[0] && dark[1] < bright[1] && dark[2] < bright[2]
            &&& index == 0 ==> dark[0] == 0 && dark[1] == 0 && dark[2] == 0
            &&& index == 7 ==> bright[0] == 255 && bright[1] == 255 && bright[2] == 255
        }),
{
    if index == 0 {
    } else if index == 1 {
    } else if index == 2 {
    } else if index == 3 {
    } else if index == 4 {
    } else if index == 5 {
    } else if index == 6 {
    } else {
        assert(index == 7);
    }
}

/// Text is always painted in some color, a background only where it has one;
/// an explicit color is painted as it is, a numbered one as in the palette.
pub proof fn law_inks(index: u8, red: u8, green: u8, blue: u8, foreground: bool)
    ensures
        ink(Color::Default, false) == Ink::Clear,
        ink(Color::Default, true) != Ink::Clear,
        ink(Color::Rgb(red, green, blue), foreground) == (Ink::Solid { red, green, blue }),
        ink(Color::Indexed(index), foreground) == (Ink::Solid {
            red: palette(index)@[0],
            green: palette(index)@[1],
            blue: palette(index)@[2],
        }),
{
}

/// An inverse style paints text in the color that the background would have
/// and the background in that of the text.
pub proof fn law_inverse_swaps(style: Style)
    ensures
        style_inks(Style { inverse: false, ..style }) == (
            ink(style.foreground, true),
            ink(style.background, false),
        ),
        style_inks(Style { inverse: true, ..style }) == (
            ink(style.background, false),
            ink(style.foreground, true),
        ),
{
}

// ---------------------------------------------------------------------------
// Terminal cells.

/// A match covers a cell of the grid; one that lies behind the last column is
/// shown in it.
pub open spec fn match_covers(
    found: TerminalSearchMatch,
    row: u16,
    column: u16,
    cols: u16,
) -> bool {
    &&& found.start.row == row
    &&& {
        ||| found.start.column <= column <= found.end.column
        ||| found.start.column >= cols && column == cols - 1
    }
}

proof fn lemma_layer(
    matches: Seq<TerminalSearchMatch>,
    active: Option<usize>,
    row: u16,
    column: u16,
    cols: u16,
    count: nat,
)
    requires
        column < cols,
        count <= matches.len() <= usize::MAX,
        forall|i: int|
            0 <= i < matches.len() ==> (#[trigger] matches[i]).start.column <= matches[i].end.column,
    ensures
        ({
            let layer = search_layer(matches, active, row, column, cols, count);
            &&& layer == 0 <==> forall|i: int|
                0 <= i < count ==> !match_covers(#[trigger] matches[i], row, column, cols)
            &&& layer == 2 <==> exists|i: int|
                0 <= i < count && match_covers(#[trigger] matches[i], row, column, cols) && active
                    == Some(i as usize) && forall|j: int|
                    i < j < count ==> !match_covers(#[trigger] matches[j], row, column, cols)
            &&& layer <= 2
        }),
    decreases count,
{
    if count > 0 {
        lemma_layer(matches, active, row, column, cols, (count - 1) as nat);
        let last = count - 1;
        assert(crate::paint::marks(matches[last], row, column, cols) == match_covers(
            matches[last],
            row,
            column,
            cols,
        ));
        let before = search_layer(matches, active, row, column, cols, (count - 1) as nat);
        let layer = search_layer(matches, active, row, column, cols, count);
        if match_covers(matches[last], row, column, cols) {
            if layer == 2 {
                assert(match_covers(matches[last], row, column, cols) && active == Some(
                    last as usize,
                ));
            }
        } else {
            if before == 2 {
                let i = choose|i: int|
                    0 <= i < last && match_covers(#[trigger] matches[i], row, column, cols)
                        && active == Some(i as usize) && forall|j: int|
                        i < j < last ==> !match_covers(#[trigger] matches[j], row, column, cols);
                assert(forall|j: int|
                    i < j < count ==> !match_covers(#[trigger] matches[j], row, column, cols));
            }
        }
    }
}

/// A cell is marked where a search match covers it, and marked as the active
/// one where the last match that covers it is the active match.
pub proof fn law_matches_are_marked(
    matches: Seq<TerminalSearchMatch>,
    active: Option<usize>,
    row: u16,
    column: u16,
    cols: u16,
)
    requires
        column < cols,
        matches.len() <= usize::MAX,
        forall|i: int|
            0 <= i < matches.len() ==> (#[trigger] matches[i]).start.column <= matches[i].end.column,
    ensures
        ({
            let layer = search_layer(matches, active, row, column, cols, matches.len());
            &&& layer == 0 <==> forall|i: int|
                0 <= i < matches.len() ==> !match_covers(#[trigger] matches[i], row, column, cols)
            &&& layer == 2 <==> exists|i: int|
                0 <= i < matches.len() && match_covers(#[trigger] matches[i], row, column, cols)
                    && active == Some(i as usize) && forall|j: int|
                    i < j < matches.len() ==> !match_covers(#[trigger] matches[j], row, column, cols)
            &&& layer <= 2
        }),
{
    lemma_layer(matches, active, row, column, cols, matches.len());
}

/// How far up in a cell a thing is painted.
pub open spec fn height(paint: CellPaint) -> int {
    match paint {
        CellPaint::Background(_) => 0,
        CellPaint::SearchMatch => 1,
        CellPaint::ActiveSearchMatch => 2,
        CellPaint::Selection => 3,
        CellPaint::CursorBlock(_) => 4,
        CellPaint::Glyphs(_) => 5,
        CellPaint::Underline(_) => 6,
        CellPaint::Cursor(_, _) => 7,
    }
}

/// Things are painted from the bottom up, each kind at most once, and all of
/// them below `limit`.
pub open spec fn bottom_up(paints: Seq<CellPaint>, limit: int) -> bool {
    &&& forall|i: int, j: int|
        0 <= i < j < paints.len() ==> height(#[trigger] paints[i]) < height(#[trigger] paints[j])
    &&& forall|i: int| 0 <= i < paints.len() ==> height(#[trigger] paints[i]) < limit
}

proof fn lemma_added(paints: Seq<CellPaint>, painted: bool, paint: CellPaint)
    requires
        bottom_up(paints, height(paint)),
    ensures
        bottom_up(paints + paint_if(painted, paint), height(paint) + 1),
{
}

proof fn lemma_holds(paints: Seq<CellPaint>, painted: bool, paint: CellPaint, other: CellPaint)
    ensures
        (paints + paint_if(painted, paint)).contains(other) <==> paints.contains(other) || painted
            && other == paint,
{
    let all = paints + paint_if(painted, paint);
    if paints.contains(other) {
        let i = choose|i: int| 0 <= i < paints.len() && paints[i] == other;
        assert(all[i] == other);
    }
    if painted && other == paint {
        assert(all[paints.len() as int] == other);
    }
}

/// The eight things that may be painted, and whether each of them is.
spec fn all_paints(
    b0: bool,
    p0: CellPaint,
    b1: bool,
    p1: CellPaint,
    b2: bool,
    p2: CellPaint,
    b3: bool,
    p3: CellPaint,
    b4: bool,
    p4: CellPaint,
    b5: bool,
    p5: CellPaint,
    b6: bool,
    p6: CellPaint,
    b7: bool,
    p7: CellPaint,
) -> Seq<CellPaint> {
    paint_if(b0, p0) + paint_if(b1, p1) + paint_if(b2, p2) + paint_if(b3, p3) + paint_if(b4, p4)
        + paint_if(b5, p5) + paint_if(b6, p6) + paint_if(b7, p7)
}

proof fn lemma_all_ordered(
    b0: bool,
    p0: CellPaint,
    b1: bool,
    p1: CellPaint,
    b2: bool,
    p2: CellPaint,
    b3: bool,
    p3: CellPaint,
    b4: bool,
    p4: CellPaint,
    b5: bool,
    p5: CellPaint,
    b6: bool,
    p6: CellPaint,
    b7: bool,
    p7: CellPaint,
)
    requires
        height(p0) == 0,
        height(p1) == 1,
        height(p2) == 2,
        height(p3) == 3,
        height(p4) == 4,
        height(p5) == 5,
        height(p6) == 6,
        height(p7) == 7,
    ensures
        bottom_up(
            all_paints(b0, p0, b1, p1, b2, p2, b3, p3, b4, p4, b5, p5, b6, p6, b7, p7),
            8,
        ),
{
    let s0 = paint_if(b0, p0);
    let s1 = s0 + paint_if(b1, p1);
    let s2 = s1 + paint_if(b2, p2);
    let s3 = s2 + paint_if(b3, p3);
    let s4 = s3 + paint_if(b4, p4);
    let s5 = s4 + paint_if(b5, p5);
    let s6 = s5 + paint_if(b6, p6);
    assert(bottom_up(s0, 1));
    lemma_added(s0, b1, p1);
    lemma_added(s1, b2, p2);
    lemma_added(s2, b3, p3);
    lemma_added(s3, b4, p4);
    lemma_added(s4, b5, p5);
    lemma_added(s5, b6, p6);
    lemma_added(s6, b7, p7);
}

proof fn lemma_all_held(
    b0: bool,
    p0: CellPaint,
    b1: bool,
    p1: CellPaint,
    b2: bool,
    p2: CellPaint,
    b3: bool,
    p3: CellPaint,
    b4: bool,
    p4: CellPaint,
    b5: bool,
    p5: CellPaint,
    b6: bool,
    p6: CellPaint,
    b7: bool,
    p7: CellPaint,
    other: CellPaint,
)
    ensures
        all_paints(b0, p0, b1, p1, b2, p2, b3, p3, b4, p4, b5, p5, b6, p6, b7, p7).contains(other)
            <==> {
            ||| b0 && other == p0
            ||| b1 && other == p1
            ||| b2 && other == p2
            ||| b3 && other == p3
            ||| b4 && other == p4
            ||| b5 && other == p5
            ||| b6 && other == p6
            ||| b7 && other == p7
        },
{
    let s0 = paint_if(b0, p0);
    let s1 = s0 + paint_if(b1, p1);
    let s2 = s1 + paint_if(b2, p2);
    let s3 = s2 + paint_if(b3, p3);
    let s4 = s3 + paint_if(b4, p4);
    let s5 = s4 + paint_if(b5, p5);
    let s6 = s5 + paint_if(b6, p6);
    assert(s0.contains(other) <==> b0 && other == p0) by {
        if b0 {
            assert(s0[0] == p0);
        }
    }
    lemma_holds(s0, b1, p1, other);
    lemma_holds(s1, b2, p2, other);
    lemma_holds(s2, b3, p3, other);
    lemma_holds(s3, b4, p4, other);
    lemma_holds(s4, b5, p5, other);
    lemma_holds(s5, b6, p6, other);
    lemma_holds(s6, b7, p7, other);
}

/// What a cell shows, from the bottom up: its background where it has one, the
/// mark of a search match, the selection, a block cursor, the characters, their
/// underline and any other cursor, each of them at most once. Characters under
/// a block cursor are in the color of the background, or black.
pub proof fn law_cell_is_painted(
    snapshot: FrameSnapshot,
    cell: Cell,
    row: u16,
    column: u16,
    layer: u8,
    selected: bool,
    cursor_visible: bool,
    color: Ink,
    shape: CursorShape,
)
    ensures
        ({
            let paints = cell_paints(
                snapshot,
                cell,
                row,
                column,
                layer,
                selected,
                cursor_visible,
            );
            let front = if cell.style.inverse {
                ink(cell.style.background, false)
            } else {
                ink(cell.style.foreground, true)
            };
            let back = if cell.style.inverse {
                ink(cell.style.foreground, true)
            } else {
                ink(cell.style.background, false)
            };
            let here = cursor_visible && snapshot.cursor_row == row && snapshot.cursor_col == column;
            let form = snapshot.cursor_appearance.shape;
            let own = snapshot.cursor_appearance.color;
            let under_block = here && form == CursorShape::Block;
            let text = if under_block {
                if back == Ink::Clear {
                    Ink::Solid { red: 0, green: 0, blue: 0 }
                } else {
                    back
                }
            } else {
                front
            };
            &&& bottom_up(paints, 8)
            &&& paints.contains(CellPaint::Background(color)) <==> color == back && color
                != Ink::Clear
            &&& paints.contains(CellPaint::SearchMatch) <==> layer == 1
            &&& paints.contains(CellPaint::ActiveSearchMatch) <==> layer == 2
            &&& paints.contains(CellPaint::Selection) <==> selected
            &&& paints.contains(CellPaint::CursorBlock(color)) <==> under_block && color == (
            match own {
                Some(tint) => ink(tint, true),
                None => front,
            })
            &&& paints.contains(CellPaint::Glyphs(color)) <==> color == text && cell.character
                != ' ' && cell.character != '\0' && !cell.spacer()
            &&& paints.contains(CellPaint::Underline(color)) <==> color == text
                && cell.style.underline
            &&& paints.contains(CellPaint::Cursor(shape, color)) <==> here && shape == form && form
                != CursorShape::Block && form != CursorShape::Hidden && color == (match own {
                Some(tint) => ink(tint, true),
                None => front,
            })
        }),
{
    let (foreground, background) = style_inks(cell.style);
    let cursor = crate::paint::cursor_in(snapshot, row, column, cursor_visible);
    let block = cursor == Some(CursorShape::Block);
    let text = if !block {
        foreground
    } else if background != Ink::Clear {
        background
    } else {
        Ink::Solid { red: 0, green: 0, blue: 0 }
    };
    let tint = |fallback: Ink|
        match snapshot.cursor_appearance.color {
            Some(color) => ink(color, true),
            None => fallback,
        };
    let (b0, p0) = (background != Ink::Clear, CellPaint::Background(background));
    let (b1, p1) = (layer == 1, CellPaint::SearchMatch);
    let (b2, p2) = (layer == 2, CellPaint::ActiveSearchMatch);
    let (b3, p3) = (selected, CellPaint::Selection);
    let (b4, p4) = (block, CellPaint::CursorBlock(tint(foreground)));
    let (b5, p5) = (
        cell.character != ' ' && cell.character != '\0' && !cell.spacer(),
        CellPaint::Glyphs(text),
    );
    let (b6, p6) = (cell.style.underline, CellPaint::Underline(text));
    let b7 = cursor matches Some(shape) && shape != CursorShape::Block && shape
        != CursorShape::Hidden;
    let p7 = CellPaint::Cursor(cursor->0, tint(text));
    let paints = cell_paints(snapshot, cell, row, column, layer, selected, cursor_visible);
    assert(paints == all_paints(b0, p0, b1, p1, b2, p2, b3, p3, b4, p4, b5, p5, b6, p6, b7, p7));
    lemma_all_ordered(b0, p0, b1, p1, b2, p2, b3, p3, b4, p4, b5, p5, b6, p6, b7, p7);
    lemma_all_held(b0, p0, b1, p1, b2, p2, b3, p3, b4, p4, b5, p5, b6, p6, b7, p7, CellPaint::Background(color));
    lemma_all_held(b0, p0, b1, p1, b2, p2, b3, p3, b4, p4, b5, p5, b6, p6, b7, p7, CellPaint::SearchMatch);
    lemma_all_held(b0, p0, b1, p1, b2, p2, b3, p3, b4, p4, b5, p5, b6, p6, b7, p7, CellPaint::ActiveSearchMatch);
    lemma_all_held(b0, p0, b1, p1, b2, p2, b3, p3, b4, p4, b5, p5, b6, p6, b7, p7, CellPaint::Selection);
    lemma_all_held(b0, p0, b1, p1, b2, p2, b3, p3, b4, p4, b5, p5, b6, p6, b7, p7, CellPaint::CursorBlock(color));
    lemma_all_held(b0, p0, b1, p1, b2, p2, b3, p3, b4, p4, b5, p5, b6, p6, b7, p7, CellPaint::Glyphs(color));
    lemma_all_held(b0, p0, b1, p1, b2, p2, b3, p3, b4, p4, b5, p5, b6, p6, b7, p7, CellPaint::Underline(color));
    lemma_all_held(b0, p0, b1, p1, b2, p2, b3, p3, b4, p4, b5, p5, b6, p6, b7, p7, CellPaint::Cursor(shape, color));
}

// ---------------------------------------------------------------------------
// Log rows.

/// The characters that are painted follow one another without a gap in the
/// text.
pub open spec fn runs_on(paints: Seq<ClusterPaint>) -> bool {
    forall|i: int, j: int|
        0 <= i && j == i + 1 && j < paints.len() ==> (#[trigger] paints[i]).end_byte == (
        #[trigger] paints[j]).start_byte
}

/// Each character begins at the cell behind the one before it, and the first
/// one at `cell`.
pub open spec fn side_by_side(paints: Seq<ClusterPaint>, cell: int) -> bool {
    &&& paints.len() > 0 ==> paints[0].cell == cell
    &&& forall|i: int, j: int|
        0 <= i && j == i + 1 && j < paints.len() ==> (#[trigger] paints[j]).cell == (
        #[trigger] paints[i]).cell + paints[i].columns
}

proof fn lemma_painted(
    row: LogRow,
    visual: LogVisualRow,
    first_cell: int,
    active: Option<(u32, u32)>,
    count: nat,
)
    requires
        ({
            let text = text_between(row.text@, visual.start_byte as int, visual.end_byte as int);
            cuts_text(grapheme_starts(text), text) && count <= grapheme_starts(text).len()
        }),
        crate::paint::shows_text(row, visual),
        0 <= first_cell,
        visual.end_cell + 8 <= u32::MAX,
    ensures
        ({
            let text = text_between(row.text@, visual.start_byte as int, visual.end_byte as int);
            let done = painted(row, visual, first_cell, active, count);
            &&& runs_on(done.paints)
            &&& done.cell >= visual.start_cell
            &&& !done.full && done.paints.len() > 0 ==> count > 0 && done.paints.last().end_byte
                == visual.start_byte + cluster_end(text, count - 1) && done.cell > first_cell
            &&& !done.full && done.paints.len() == 0 ==> done.cell <= first_cell || count == 0
            &&& forall|i: int|
                0 <= i < done.paints.len() ==> shown_as_styled(
                    row,
                    visual,
                    active,
                    #[trigger] done.paints[i],
                )
            &&& done.cell <= visual.end_cell + 8 || done.cell == visual.start_cell
            &&& first_cell <= visual.start_cell ==> {
                &&& side_by_side(done.paints, visual.start_cell - first_cell)
                &&& !done.full && done.paints.len() > 0 ==> done.cell == first_cell
                    + done.paints.last().cell + done.paints.last().columns
                &&& !done.full && done.paints.len() == 0 ==> count == 0
            }
        }),
    decreases count,
{
    let text = text_between(row.text@, visual.start_byte as int, visual.end_byte as int);
    let starts = grapheme_starts(text);
    lemma_text_length(row, visual);
    if count > 0 {
        lemma_painted(row, visual, first_cell, active, (count - 1) as nat);
        let before = painted(row, visual, first_cell, active, (count - 1) as nat);
        let done = painted(row, visual, first_cell, active, count);
        assert(crate::log_reflow::cluster_cells(
            crate::log_reflow::cluster(text, count - 1),
            before.cell,
        ) >= 0);
        assert(starts[count - 1] < cluster_end(text, count - 1) <= crate::text::utf8(text).len());
        if count > 1 {
            assert(cluster_end(text, count - 2) == starts[count - 1]);
        }
    }
}

/// A painted character has the style of its first byte, and is highlighted
/// where the active match begins before its end and ends behind its beginning.
pub open spec fn shown_as_styled(
    row: LogRow,
    visual: LogVisualRow,
    active: Option<(u32, u32)>,
    paint: ClusterPaint,
) -> bool {
    &&& visual.start_byte <= paint.start_byte < paint.end_byte <= visual.end_byte
    &&& match active {
        Some((from, to)) => paint.highlighted <==> from < paint.end_byte && paint.start_byte < to,
        None => !paint.highlighted,
    }
    &&& paint.foreground == style_inks(paint.style).0
    &&& paint.background == style_inks(paint.style).1
    &&& paint.style == crate::paint::style_at(row, paint.start_byte as int)
}

proof fn lemma_text_length(row: LogRow, visual: LogVisualRow)
    requires
        crate::paint::shows_text(row, visual),
    ensures
        crate::text::utf8(
            text_between(row.text@, visual.start_byte as int, visual.end_byte as int),
        ).len() == visual.end_byte - visual.start_byte,
{
    let bytes = crate::text::utf8(row.text@);
    crate::text::lemma_utf8_valid(row.text@);
    crate::text::lemma_boundary_in_part(
        bytes,
        visual.start_byte as int,
        visual.end_byte as int,
        visual.start_byte as int,
    );
    vstd::utf8::decode_utf8_encode_utf8(
        bytes.subrange(visual.start_byte as int, visual.end_byte as int),
    );
}

/// What a row of the screen paints: characters of its part of the line, without
/// a gap, each in its style, and those of the active match highlighted. Where
/// the row is not cut off at its left, they stand side by side from its first
/// cell on.
pub proof fn law_row_shows_its_characters(
    row: LogRow,
    visual: LogVisualRow,
    first_cell: int,
    active: Option<(u32, u32)>,
)
    requires
        ({
            let text = text_between(row.text@, visual.start_byte as int, visual.end_byte as int);
            cuts_text(grapheme_starts(text), text)
        }),
        crate::paint::shows_text(row, visual),
        0 <= first_cell,
        visual.end_cell + 8 <= u32::MAX,
    ensures
        ({
            let paints = row_paints(row, visual, first_cell, active);
            &&& runs_on(paints)
            &&& forall|i: int|
                0 <= i < paints.len() ==> shown_as_styled(row, visual, active, #[trigger] paints[i])
            &&& first_cell <= visual.start_cell ==> side_by_side(
                paints,
                visual.start_cell - first_cell,
            )
        }),
{
    let text = text_between(row.text@, visual.start_byte as int, visual.end_byte as int);
    lemma_painted(row, visual, first_cell, active, grapheme_starts(text).len());
}

// ---------------------------------------------------------------------------
// Surfaces.

/// A frame is drawn where the surface can be drawn on, and left out otherwise;
/// it fails only on a surface that is not valid, and a surface is made anew
/// only where it was lost. A frame that was presented needs nothing more, and
/// one that was left out for a time was skipped.
pub proof fn law_frames_end(status: SurfaceStatus)
    ensures
        step_for(status) is Draw <==> status == SurfaceStatus::Ready || status
            == SurfaceStatus::Suboptimal,
        step_for(status) == SurfaceStep::Fail <==> status == SurfaceStatus::Invalid,
        step_for(status) == (SurfaceStep::Reconfigure { recreate: true }) <==> status
            == SurfaceStatus::Lost,
        step_for(status).ends_as() == Some(RenderOutcome::Presented) <==> status
            == SurfaceStatus::Ready,
        step_for(status).ends_as() == Some(RenderOutcome::Skipped) <==> status
            == SurfaceStatus::Timeout || status == SurfaceStatus::Occluded,
        step_for(status).ends_as() == Some(RenderOutcome::Reconfigured) <==> status
            == SurfaceStatus::Suboptimal || status == SurfaceStatus::Outdated || status
            == SurfaceStatus::Lost,
        step_for(status).ends_as() is None <==> status == SurfaceStatus::Invalid,
{
}

/// The active match is shown in its own line, all of it, and in no other.
pub proof fn law_active_match_is_shown_in_its_line(decorations: LogDecorations, line_id: u64)
    ensures
        match decorations.active_search_match {
            Some(found) => {
                &&& line_id == found.line_id ==> active_range(decorations, line_id) == Some(
                    (found.byte_range.start, found.byte_range.end),
                )
                &&& line_id != found.line_id ==> active_range(decorations, line_id) is None
            },
            None => active_range(decorations, line_id) is None,
        },
{
}

/// Only the row at the top of the screen is cut off at its left, where the view
/// begins in the middle of it; every other one is shown from its first cell on.
pub proof fn law_only_the_top_row_is_cut(
    frame: LogSurfaceFrame,
    relative_row: usize,
    visual: LogVisualRow,
)
    ensures
        relative_row != frame.first_viewport_row ==> entry_cell(frame, relative_row, visual)
            == visual.start_cell,
        relative_row == frame.first_viewport_row ==> {
            let cell = entry_cell(frame, relative_row, visual);
            &&& cell >= visual.start_cell && cell >= frame.cell_offset
            &&& cell == visual.start_cell || cell == frame.cell_offset
        },
{
}

} // verus!
