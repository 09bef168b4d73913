//! What is painted where: colors, the layers of a terminal cell and the
//! characters of a log row.
use crate::log_reflow::{
    cells_of, cluster, cluster_cells, cluster_end, spans_fit, span_fits, LogRow, LogVisualRow,
};
use crate::log_surface::LogSurfaceFrame;
use crate::outside::{cuts_text, find_graphemes, grapheme_starts};
use crate::surface::TerminalSurfaceFrame;
use crate::terminal::{plain, Cell, Color, CursorShape, FrameSnapshot, Style};
use crate::terminal_interaction::{TerminalDecorations, TerminalSearchMatch};
use crate::text::{byte_len, lemma_boundary_at_ends, lemma_utf8_valid, slice_text, text_between, utf8};
use std::ops::Range;
use vstd::prelude::*;
use vstd::utf8::is_char_boundary;

verus! {

// ---------------------------------------------------------------------------
// Viewports.

/// How a frame ended.
#[derive(Clone, Copy, Debug, PartialEq, Eq, Structural)]
pub enum RenderOutcome {
    Presented,
    Skipped,
    Reconfigured,
}

/// A part of a window, in pixels.
#[derive(Clone, Copy, Debug, PartialEq, Eq, Structural)]
pub struct TerminalViewport {
    pub x: u32,
    pub y: u32,
    pub width: u32,
    pub height: u32,
}

impl Default for TerminalViewport {
    fn default() -> (viewport: Self)
        ensures
            viewport == (TerminalViewport { x: 0, y: 0, width: 0, height: 0 }),
    {
        TerminalViewport { x: 0, y: 0, width: 0, height: 0 }
    }
}

pub open spec fn least(left: u32, right: u32) -> u32 {
    if left <= right {
        left
    } else {
        right
    }
}

pub open spec fn most(left: u32, right: u32) -> u32 {
    if left <= right {
        right
    } else {
        left
    }
}

pub fn least_of(left: u32, right: u32) -> (number: u32)
    ensures
        number == least(left, right),
{
    if left <= right {
        left
    } else {
        right
    }
}

pub fn most_of(left: u32, right: u32) -> (number: u32)
    ensures
        number == most(left, right),
{
    if left <= right {
        right
    } else {
        left
    }
}

/// The viewport holds a pixel.
pub open spec fn holds_pixel(viewport: TerminalViewport, x: int, y: int) -> bool {
    viewport.x <= x < viewport.x + viewport.width && viewport.y <= y < viewport.y + viewport.height
}

impl TerminalViewport {
    /// The viewport between two corners; empty where they are out of order.
    pub fn from_corners(min_x: u32, min_y: u32, max_x: u32, max_y: u32) -> (viewport: Self)
        ensures
            viewport.x == min_x,
            viewport.y == min_y,
            viewport.width == if max_x >= min_x {
                max_x - min_x
            } else {
                0
            },
            viewport.height == if max_y >= min_y {
                max_y - min_y
            } else {
                0
            },
            forall|x: int, y: int|
                holds_pixel(viewport, x, y) <==> min_x <= x < max_x && min_y <= y < max_y,
    {
        TerminalViewport {
            x: min_x,
            y: min_y,
            width: if max_x >= min_x {
                max_x - min_x
            } else {
                0
            },
            height: if max_y >= min_y {
                max_y - min_y
            } else {
                0
            },
        }
    }

    /// The part of the viewport that lies on a surface.
    pub fn clamp(self, width: u32, height: u32) -> (clamped: Self)
        ensures
            clamped.x == least(self.x, width),
            clamped.y == least(self.y, height),
            clamped.width == least(self.width, (width - clamped.x) as u32),
            clamped.height == least(self.height, (height - clamped.y) as u32),
            clamped.x + clamped.width <= width,
            clamped.y + clamped.height <= height,
            forall|x: int, y: int|
                holds_pixel(clamped, x, y) <==> holds_pixel(self, x, y) && x < width && y < height,
    {
        let x: u32 = least_of(self.x, width);
        let y: u32 = least_of(self.y, height);
        TerminalViewport {
            x,
            y,
            width: least_of(self.width, width - x),
            height: least_of(self.height, height - y),
        }
    }

    pub fn is_empty(self) -> (empty: bool)
        ensures
            empty == (self.width == 0 || self.height == 0),
            empty <==> forall|x: int, y: int| !holds_pixel(self, x, y),
    {
        proof {
            if self.width != 0 && self.height != 0 {
                assert(holds_pixel(self, self.x as int, self.y as int));
            }
        }
        self.width == 0 || self.height == 0
    }
}

/// What a surface says when a frame is to be drawn on it.
#[derive(Clone, Copy, Debug, PartialEq, Eq, Structural)]
pub enum SurfaceStatus {
    Ready,
    Suboptimal,
    Timeout,
    Occluded,
    Outdated,
    Lost,
    Invalid,
}

/// What is done with a surface for a frame.
#[derive(Clone, Copy, Debug, PartialEq, Eq, Structural)]
pub enum SurfaceStep {
    /// Draw the frame and present it; set the surface up again afterwards
    /// where that is asked for.
    Draw { reconfigure: bool },
    /// Leave the frame out.
    Skip,
    /// Set the surface up again, or make a new one first, and leave the frame
    /// out.
    Reconfigure { recreate: bool },
    /// Give up.
    Fail,
}

/// What is done with a surface that says this.
pub open spec fn step_for(status: SurfaceStatus) -> SurfaceStep {
    match status {
        SurfaceStatus::Ready => SurfaceStep::Draw { reconfigure: false },
        SurfaceStatus::Suboptimal => SurfaceStep::Draw { reconfigure: true },
        SurfaceStatus::Timeout | SurfaceStatus::Occluded => SurfaceStep::Skip,
        SurfaceStatus::Outdated => SurfaceStep::Reconfigure { recreate: false },
        SurfaceStatus::Lost => SurfaceStep::Reconfigure { recreate: true },
        SurfaceStatus::Invalid => SurfaceStep::Fail,
    }
}

pub fn surface_step(status: SurfaceStatus) -> (step: SurfaceStep)
    ensures
        step == match status {
            SurfaceStatus::Ready => SurfaceStep::Draw { reconfigure: false },
            SurfaceStatus::Suboptimal => SurfaceStep::Draw { reconfigure: true },
            SurfaceStatus::Timeout | SurfaceStatus::Occluded => SurfaceStep::Skip,
            SurfaceStatus::Outdated => SurfaceStep::Reconfigure { recreate: false },
            SurfaceStatus::Lost => SurfaceStep::Reconfigure { recreate: true },
            SurfaceStatus::Invalid => SurfaceStep::Fail,
        },
        step == step_for(status),
{
    match status {
        SurfaceStatus::Ready => SurfaceStep::Draw { reconfigure: false },
        SurfaceStatus::Suboptimal => SurfaceStep::Draw { reconfigure: true },
        SurfaceStatus::Timeout | SurfaceStatus::Occluded => SurfaceStep::Skip,
        SurfaceStatus::Outdated => SurfaceStep::Reconfigure { recreate: false },
        SurfaceStatus::Lost => SurfaceStep::Reconfigure { recreate: true },
        SurfaceStatus::Invalid => SurfaceStep::Fail,
    }
}

impl SurfaceStep {
    /// How the frame ends.
    pub open spec fn ends_as(self) -> Option<RenderOutcome> {
        match self {
            SurfaceStep::Draw { reconfigure } => if reconfigure {
                Some(RenderOutcome::Reconfigured)
            } else {
                Some(RenderOutcome::Presented)
            },
            SurfaceStep::Skip => Some(RenderOutcome::Skipped),
            SurfaceStep::Reconfigure { recreate: _ } => Some(RenderOutcome::Reconfigured),
            SurfaceStep::Fail => None,
        }
    }

    /// How the frame ends; `None` where it fails.
    pub fn outcome(self) -> (outcome: Option<RenderOutcome>)
        ensures
            outcome == match self {
                SurfaceStep::Draw { reconfigure: false } => Some(RenderOutcome::Presented),
                SurfaceStep::Draw { reconfigure: true } => Some(RenderOutcome::Reconfigured),
                SurfaceStep::Skip => Some(RenderOutcome::Skipped),
                SurfaceStep::Reconfigure { recreate: _ } => Some(RenderOutcome::Reconfigured),
                SurfaceStep::Fail => None,
            },
            outcome == self.ends_as(),
    {
        match self {
            SurfaceStep::Draw { reconfigure } => if reconfigure {
                Some(RenderOutcome::Reconfigured)
            } else {
                Some(RenderOutcome::Presented)
            },
            SurfaceStep::Skip => Some(RenderOutcome::Skipped),
            SurfaceStep::Reconfigure { recreate: _ } => Some(RenderOutcome::Reconfigured),
            SurfaceStep::Fail => None,
        }
    }
}

// ---------------------------------------------------------------------------
// Colors.

/// The sixteen named colors.
pub open spec fn named_color(index: u8) -> [u8; 3] {
    if index == 0 {
        [0, 0, 0]
    } else if index == 1 {
        [205, 49, 49]
    } else if index == 2 {
        [13, 188, 121]
    } else if index == 3 {
        [229, 229, 16]
    } else if index == 4 {
        [36, 114, 200]
    } else if index == 5 {
        [188, 63, 188]
    } else if index == 6 {
        [17, 168, 205]
    } else if index == 7 {
        [229, 229, 229]
    } else if index == 8 {
        [102, 102, 102]
    } else if index == 9 {
        [241, 76, 76]
    } else if index == 10 {
        [35, 209, 139]
    } else if index == 11 {
        [245, 245, 67]
    } else if index == 12 {
        [59, 142, 234]
    } else if index == 13 {
        [214, 112, 214]
    } else if index == 14 {
        [41, 184, 219]
    } else {
        [255, 255, 255]
    }
}

/// The six levels of a color in the cube.
pub open spec fn cube_level(step: int) -> u8 {
    if step == 0 {
        0
    } else {
        (55 + step * 40) as u8
    }
}

/// The color of a palette index: sixteen named ones, a cube of six levels of
/// red, green and blue, and twenty-four grays.
pub open spec fn palette(index: u8) -> [u8; 3] {
    if index < 16 {
        named_color(index)
    } else if index < 232 {
        let cube = index - 16;
        [cube_level(cube / 36), cube_level((cube % 36) / 6), cube_level(cube % 6)]
    } else {
        let gray = (8 + (index - 232) * 10) as u8;
        [gray, gray, gray]
    }
}

fn level_of(step: u8) -> (level: u8)
    requires
        step < 6,
    ensures
        level == cube_level(step as int),
{
    if step == 0 {
        0
    } else {
        55 + step * 40
    }
}

pub fn xterm_color(index: u8) -> (rgb: [u8; 3])
    ensures
        rgb == palette(index),
{
    if index >= 232 {
        let gray: u8 = 8 + (index - 232) * 10;
        return [gray, gray, gray];
    }
    if index >= 16 {
        let cube: u8 = index - 16;
        return [level_of(cube / 36), level_of((cube % 36) / 6), level_of(cube % 6)];
    }
    match index {
        0 => [0, 0, 0],
        1 => [205, 49, 49],
        2 => [13, 188, 121],
        3 => [229, 229, 16],
        4 => [36, 114, 200],
        5 => [188, 63, 188],
        6 => [17, 168, 205],
        7 => [229, 229, 229],
        8 => [102, 102, 102],
        9 => [241, 76, 76],
        10 => [35, 209, 139],
        11 => [245, 245, 67],
        12 => [59, 142, 234],
        13 => [214, 112, 214],
        14 => [41, 184, 219],
        _ => [255, 255, 255],
    }
}

/// A color to paint with, or nothing.
#[derive(Clone, Copy, Debug, PartialEq, Eq, Structural)]
pub enum Ink {
    Clear,
    Solid { red: u8, green: u8, blue: u8 },
}

pub open spec fn solid(rgb: [u8; 3]) -> Ink {
    Ink::Solid { red: rgb@[0], green: rgb@[1], blue: rgb@[2] }
}

/// The ink of a color. Text without one is light gray, a background without
/// one is not painted.
pub open spec fn ink(color: Color, foreground: bool) -> Ink {
    match color {
        Color::Default => if foreground {
            Ink::Solid { red: 216, green: 222, blue: 233 }
        } else {
            Ink::Clear
        },
        Color::Indexed(index) => solid(palette(index)),
        Color::Rgb(red, green, blue) => Ink::Solid { red, green, blue },
    }
}

pub fn resolve_color(color: Color, foreground: bool) -> (resolved: Ink)
    ensures
        resolved == ink(color, foreground),
{
    match color {
        Color::Default => if foreground {
            Ink::Solid { red: 216, green: 222, blue: 233 }
        } else {
            Ink::Clear
        },
        Color::Indexed(index) => {
            let rgb = xterm_color(index);
            Ink::Solid { red: rgb[0], green: rgb[1], blue: rgb[2] }
        },
        Color::Rgb(red, green, blue) => Ink::Solid { red, green, blue },
    }
}

/// The inks of text and background in a style.
pub open spec fn style_inks(style: Style) -> (Ink, Ink) {
    let foreground = ink(style.foreground, true);
    let background = ink(style.background, false);
    if style.inverse {
        (background, foreground)
    } else {
        (foreground, background)
    }
}

pub fn resolve_style(style: Style) -> (inks: (Ink, Ink))
    ensures
        inks == style_inks(style),
{
    let foreground = resolve_color(style.foreground, true);
    let background = resolve_color(style.background, false);
    if style.inverse {
        (background, foreground)
    } else {
        (foreground, background)
    }
}

// ---------------------------------------------------------------------------
// Terminal cells.

/// One thing that is painted in a cell.
#[derive(Clone, Copy, Debug, PartialEq, Eq, Structural)]
pub enum CellPaint {
    Background(Ink),
    SearchMatch,
    ActiveSearchMatch,
    Selection,
    CursorBlock(Ink),
    Glyphs(Ink),
    Underline(Ink),
    Cursor(CursorShape, Ink),
}

/// The match covers a column of its row, with the columns beyond the last one
/// counted as the last.
pub open spec fn marks(found: TerminalSearchMatch, row: u16, column: u16, cols: u16) -> bool {
    let last = if cols == 0 {
        0
    } else {
        cols - 1
    };
    let first_column = if found.start.column <= last {
        found.start.column as int
    } else {
        last
    };
    let last_column = if found.end.column <= last {
        found.end.column as int
    } else {
        last
    };
    found.start.row == row && first_column <= column <= last_column
}

/// The layer of a cell in the first `count` matches: 0 where none covers it,
/// else 1, or 2 where the last one that covers it is the active one.
pub open spec fn search_layer(
    matches: Seq<TerminalSearchMatch>,
    active: Option<usize>,
    row: u16,
    column: u16,
    cols: u16,
    count: nat,
) -> u8
    decreases count,
{
    if count == 0 {
        0
    } else if marks(matches[count - 1], row, column, cols) {
        if active == Some((count - 1) as usize) {
            2
        } else {
            1
        }
    } else {
        search_layer(matches, active, row, column, cols, (count - 1) as nat)
    }
}

/// The layer of every cell of the rows from `first_row` up to `end_row`.
pub fn search_layers(decorations: &TerminalDecorations, cols: u16, first_row: u16, end_row: u16) -> (
    layers: Vec<u8>)
    requires
        cols > 0 || forall|i: int|
            0 <= i < decorations.search.matches@.len() ==> !(first_row <= (
            #[trigger] decorations.search.matches@[i]).start.row < end_row),
    ensures
        layers@.len() == if end_row >= first_row {
            (end_row - first_row) * cols
        } else {
            0
        },
        forall|row: u16, column: u16|
            first_row <= row < end_row && column < cols ==> #[trigger] layers@[(row - first_row)
                * cols + column] == search_layer(
                decorations.search.matches@,
                decorations.active_search_match,
                row,
                column,
                cols,
                decorations.search.matches@.len(),
            ),
{
    let rows: u32 = if end_row >= first_row {
        (end_row - first_row) as u32
    } else {
        0
    };
    if cols == 0 {
        assert((end_row - first_row) * cols == 0) by (nonlinear_arith)
            requires
                cols == 0,
        ;
        return Vec::new();
    }
    assert(rows * cols <= u32::MAX) by (nonlinear_arith)
        requires
            rows <= 0xffff,
            cols <= 0xffff,
    ;
    let total: u32 = rows * cols as u32;
    let mut layers: Vec<u8> = Vec::new();
    let mut cell: u32 = 0;
    while cell < total
        invariant
            cell <= total,
            layers@.len() == cell,
            forall|i: int| 0 <= i < cell ==> layers@[i] == 0,
        decreases total - cell,
    {
        layers.push(0);
        cell += 1;
    }
    proof {
        assert forall|row: u16, column: u16|
            first_row <= row < end_row && column < cols implies #[trigger] layers@[(row
            - first_row) * cols + column] == 0 by {
            lemma_cell_index(row - first_row, column as int, rows as int, cols as int);
        }
    }
    let matches = &decorations.search.matches;
    let mut index: usize = 0;
    while index < matches.len()
        invariant
            index <= matches@.len(),
            matches@ == decorations.search.matches@,
            cols > 0,
            rows == if end_row >= first_row {
                end_row - first_row
            } else {
                0
            },
            layers@.len() == rows * cols <= u32::MAX,
            forall|row: u16, column: u16|
                first_row <= row < end_row && column < cols ==> #[trigger] layers@[(row
                    - first_row) * cols + column] == search_layer(
                    matches@,
                    decorations.active_search_match,
                    row,
                    column,
                    cols,
                    index as nat,
                ),
        decreases matches@.len() - index,
    {
        let found = matches[index];
        let active = match decorations.active_search_match {
            Some(active) => active == index,
            None => false,
        };
        mark_layer(&mut layers, found, active, cols, first_row, end_row);
        index += 1;
    }
    layers
}

proof fn lemma_cell_index(row: int, column: int, rows: int, cols: int)
    requires
        0 <= row < rows,
        0 <= column < cols,
    ensures
        0 <= row * cols + column < rows * cols,
{
    assert(0 <= row * cols && row * cols + cols <= rows * cols) by (nonlinear_arith)
        requires
            0 <= row < rows,
            0 < cols,
    ;
}

proof fn lemma_cell_index_unique(row: int, column: int, other_row: int, other: int, cols: int)
    requires
        0 <= column < cols,
        0 <= other < cols,
        row * cols + column == other_row * cols + other,
    ensures
        row == other_row,
        column == other,
{
    if row < other_row {
        assert(row * cols + cols <= other_row * cols) by (nonlinear_arith)
            requires
                row < other_row,
                0 < cols,
        ;
    }
    if other_row < row {
        assert(other_row * cols + cols <= row * cols) by (nonlinear_arith)
            requires
                other_row < row,
                0 < cols,
        ;
    }
}

/// Marks the cells of one match.
fn mark_layer(
    layers: &mut Vec<u8>,
    found: TerminalSearchMatch,
    active: bool,
    cols: u16,
    first_row: u16,
    end_row: u16,
)
    requires
        cols > 0,
        old(layers)@.len() == if end_row >= first_row {
            (end_row - first_row) * cols
        } else {
            0
        },
        old(layers)@.len() <= u32::MAX,
    ensures
        final(layers)@.len() == old(layers)@.len(),
        forall|row: u16, column: u16|
            first_row <= row < end_row && column < cols ==> #[trigger] final(layers)@[(row
                - first_row) * cols + column] == if marks(found, row, column, cols) {
                if active {
                    2u8
                } else {
                    1u8
                }
            } else {
                old(layers)@[(row - first_row) * cols + column]
            },
{
    if found.start.row < first_row || found.start.row >= end_row {
        return;
    }
    let last: u16 = cols - 1;
    let first_column: u16 = if found.start.column <= last {
        found.start.column
    } else {
        last
    };
    let last_column: u16 = if found.end.column <= last {
        found.end.column
    } else {
        last
    };
    let layer: u8 = if active {
        2
    } else {
        1
    };
    let ghost place = found.start.row - first_row;
    assert(place * cols <= u32::MAX) by (nonlinear_arith)
        requires
            0 <= place <= 0xffff,
            0 <= cols <= 0xffff,
    ;
    let offset: u32 = (found.start.row - first_row) as u32 * cols as u32;
    if first_column > last_column {
        return;
    }
    let ghost before = layers@;
    let mut column: u16 = first_column;
    while column <= last_column
        invariant
            first_column <= column <= last_column + 1,
            last_column < cols,
            cols <= u16::MAX,
            first_row <= found.start.row < end_row,
            place == found.start.row - first_row,
            offset == place * cols,
            before.len() == (end_row - first_row) * cols <= u32::MAX,
            layers@.len() == before.len(),
            forall|i: int|
                0 <= i < before.len() ==> #[trigger] layers@[i] == if offset + first_column <= i
                    < offset + column {
                    layer
                } else {
                    before[i]
                },
        decreases last_column + 1 - column,
    {
        proof {
            lemma_cell_index(place, column as int, end_row - first_row, cols as int);
        }
        layers.set((offset + column as u32) as usize, layer);
        column += 1;
    }
    proof {
        assert forall|row: u16, column: u16|
            first_row <= row < end_row && column < cols implies #[trigger] layers@[(row
            - first_row) * cols + column] == if marks(found, row, column, cols) {
            layer
        } else {
            before[(row - first_row) * cols + column]
        } by {
            lemma_cell_index(row - first_row, column as int, end_row - first_row, cols as int);
            let i = (row - first_row) * cols + column;
            if offset + first_column <= i <= offset + last_column {
                lemma_cell_index_unique(
                    row - first_row,
                    column as int,
                    place,
                    i - offset,
                    cols as int,
                );
            } else if row == found.start.row {
                assert(row - first_row == place);
            }
        }
    }
}

/// One paint, or none.
pub open spec fn paint_if(painted: bool, paint: CellPaint) -> Seq<CellPaint> {
    if painted {
        seq![paint]
    } else {
        Seq::empty()
    }
}

/// The cursor that a cell shows.
pub open spec fn cursor_in(
    snapshot: FrameSnapshot,
    row: u16,
    column: u16,
    visible: bool,
) -> Option<CursorShape> {
    if visible && row == snapshot.cursor_row && column == snapshot.cursor_col {
        Some(snapshot.cursor_appearance.shape)
    } else {
        None
    }
}

/// What is painted in a cell, from the bottom up: the background, the search
/// match, the selection, the block of a cursor, the characters, their
/// underline, and any other cursor. Under a block cursor the characters take
/// the color of the background, or black.
pub open spec fn cell_paints(
    snapshot: FrameSnapshot,
    cell: Cell,
    row: u16,
    column: u16,
    layer: u8,
    selected: bool,
    cursor_visible: bool,
) -> Seq<CellPaint> {
    let (foreground, background) = style_inks(cell.style);
    let cursor = cursor_in(snapshot, row, column, cursor_visible);
    let block = cursor == Some(CursorShape::Block);
    let text = if !block {
        foreground
    } else if background != Ink::Clear {
        background
    } else {
        Ink::Solid { red: 0, green: 0, blue: 0 }
    };
    let tint = |fallback: Ink|
        match snapshot.cursor_appearance.color {
            Some(color) => ink(color, true),
            None => fallback,
        };
    paint_if(background != Ink::Clear, CellPaint::Background(background))
        + paint_if(layer == 1, CellPaint::SearchMatch)
        + paint_if(layer == 2, CellPaint::ActiveSearchMatch)
        + paint_if(selected, CellPaint::Selection)
        + paint_if(block, CellPaint::CursorBlock(tint(foreground)))
        + paint_if(
        cell.character != ' ' && cell.character != '\0' && !cell.spacer(),
        CellPaint::Glyphs(text),
    ) + paint_if(cell.style.underline, CellPaint::Underline(text)) + paint_if(
        cursor matches Some(shape) && shape != CursorShape::Block && shape != CursorShape::Hidden,
        CellPaint::Cursor(cursor->0, tint(text)),
    )
}

fn add_paint(paints: &mut Vec<CellPaint>, painted: bool, paint: CellPaint)
    ensures
        final(paints)@ == old(paints)@ + paint_if(painted, paint),
{
    if painted {
        paints.push(paint);
    }
    assert(paints@ =~= old(paints)@ + paint_if(painted, paint));
}

fn cursor_ink(snapshot: &FrameSnapshot, fallback: Ink) -> (tint: Ink)
    ensures
        tint == match snapshot.cursor_appearance.color {
            Some(color) => ink(color, true),
            None => fallback,
        },
{
    match snapshot.cursor_appearance.color {
        Some(color) => resolve_color(color, true),
        None => fallback,
    }
}

/// What is painted in a cell, from the bottom up.
pub fn plan_cell(
    snapshot: &FrameSnapshot,
    cell: &Cell,
    row: u16,
    column: u16,
    layer: u8,
    selected: bool,
    cursor_visible: bool,
) -> (paints: Vec<CellPaint>)
    ensures
        paints@ == cell_paints(*snapshot, *cell, row, column, layer, selected, cursor_visible),
{
    let (foreground, background) = resolve_style(cell.style);
    let cursor = if cursor_visible && row == snapshot.cursor_row && column == snapshot.cursor_col {
        Some(snapshot.cursor_appearance.shape)
    } else {
        None
    };
    let block = match cursor {
        Some(shape) => shape == CursorShape::Block,
        None => false,
    };
    let text = if !block {
        foreground
    } else if background != Ink::Clear {
        background
    } else {
        Ink::Solid { red: 0, green: 0, blue: 0 }
    };
    let mut paints: Vec<CellPaint> = Vec::new();
    assert(paints@ + paint_if(
        background != Ink::Clear,
        CellPaint::Background(background),
    ) =~= paint_if(background != Ink::Clear, CellPaint::Background(background)));
    add_paint(&mut paints, background != Ink::Clear, CellPaint::Background(background));
    add_paint(&mut paints, layer == 1, CellPaint::SearchMatch);
    add_paint(&mut paints, layer == 2, CellPaint::ActiveSearchMatch);
    add_paint(&mut paints, selected, CellPaint::Selection);
    add_paint(&mut paints, block, CellPaint::CursorBlock(cursor_ink(snapshot, foreground)));
    add_paint(
        &mut paints,
        cell.character != ' ' && cell.character != '\0' && !cell.is_spacer(),
        CellPaint::Glyphs(text),
    );
    add_paint(&mut paints, cell.style.underline, CellPaint::Underline(text));
    if let Some(shape) = cursor {
        add_paint(
            &mut paints,
            shape != CursorShape::Block && shape != CursorShape::Hidden,
            CellPaint::Cursor(shape, cursor_ink(snapshot, text)),
        );
    } else {
        assert(paints@ + Seq::<CellPaint>::empty() =~= paints@);
    }
    paints
}

// ---------------------------------------------------------------------------
// Log rows.

/// A match in a line of a log.
#[derive(Debug, PartialEq, Eq)]
pub struct LogSearchMatch {
    pub line_id: u64,
    pub byte_range: Range<u32>,
}

#[derive(Debug, PartialEq, Eq)]
pub struct LogDecorations {
    pub revision: u64,
    pub active_search_match: Option<LogSearchMatch>,
}

impl Default for LogDecorations {
    fn default() -> (decorations: Self)
        ensures
            decorations.revision == 0,
            decorations.active_search_match is None,
    {
        LogDecorations { revision: 0, active_search_match: None }
    }
}

/// A character of a log row on the screen.
#[derive(Clone, Copy, Debug, PartialEq, Eq, Structural)]
pub struct ClusterPaint {
    /// Its bytes in the row's text.
    pub start_byte: usize,
    pub end_byte: usize,
    /// The cell at which it begins, counted from the first one on the screen.
    pub cell: u32,
    pub columns: u32,
    pub style: Style,
    pub foreground: Ink,
    pub background: Ink,
    /// It lies in the active search match, which has colors of its own.
    pub highlighted: bool,
    /// It has something to draw besides its background.
    pub has_glyphs: bool,
}

/// The style of a byte of a row.
pub open spec fn style_at(row: LogRow, byte: int) -> Style {
    let spans = row.style_spans@;
    if exists|i: int|
        0 <= i < spans.len() && (#[trigger] spans[i]).byte_range.start <= byte
            < spans[i].byte_range.end {
        spans[choose|i: int|
            0 <= i < spans.len() && (#[trigger] spans[i]).byte_range.start <= byte
                < spans[i].byte_range.end].style
    } else {
        plain()
    }
}

/// What is painted for a character.
pub open spec fn cluster_paint(
    row: LogRow,
    active: Option<(u32, u32)>,
    start: int,
    end: int,
    text: Seq<char>,
    cell: int,
    columns: int,
    first_cell: int,
) -> ClusterPaint {
    let style = style_at(row, start);
    let (foreground, background) = style_inks(style);
    ClusterPaint {
        start_byte: start as usize,
        end_byte: end as usize,
        cell: (if cell >= first_cell {
            cell - first_cell
        } else {
            0
        }) as u32,
        columns: columns as u32,
        style,
        foreground,
        background,
        highlighted: active matches Some((from, to)) && from < end && start < to,
        has_glyphs: text != seq!['\t'] && text != seq![' '],
    }
}

/// The state of painting a row: the next cell, whether the row's last cell has
/// been reached, and what has been painted.
#[verifier::ext_equal]
pub struct RowPainting {
    pub cell: int,
    pub full: bool,
    pub paints: Seq<ClusterPaint>,
}

/// A number, or the largest one that a `u32` holds.
pub open spec fn capped_cell(number: int) -> int {
    if number <= u32::MAX {
        number
    } else {
        u32::MAX as int
    }
}

/// Paints the first `count` characters of the part of the row that the screen
/// row shows. Those that end at `first_cell` or before are left out.
pub open spec fn painted(
    row: LogRow,
    visual: LogVisualRow,
    first_cell: int,
    active: Option<(u32, u32)>,
    count: nat,
) -> RowPainting
    decreases count,
{
    if count == 0 {
        RowPainting { cell: visual.start_cell as int, full: false, paints: Seq::empty() }
    } else {
        let before = painted(row, visual, first_cell, active, (count - 1) as nat);
        let text = text_between(row.text@, visual.start_byte as int, visual.end_byte as int);
        let shown = cluster(text, count - 1);
        let columns = cluster_cells(shown, before.cell);
        let next = capped_cell(before.cell + columns);
        if before.full || before.cell >= visual.end_cell {
            RowPainting { full: true, ..before }
        } else if next <= first_cell {
            RowPainting { cell: next, ..before }
        } else {
            RowPainting {
                cell: next,
                full: false,
                paints: before.paints.push(
                    cluster_paint(
                        row,
                        active,
                        visual.start_byte + grapheme_starts(text)[count - 1],
                        visual.start_byte + cluster_end(text, count - 1),
                        shown,
                        before.cell,
                        columns,
                        first_cell,
                    ),
                ),
            }
        }
    }
}

/// The bytes of a row that a screen row shows are whole characters.
pub open spec fn shows_text(row: LogRow, visual: LogVisualRow) -> bool {
    let bytes = utf8(row.text@);
    &&& visual.start_byte <= visual.end_byte <= bytes.len()
    &&& is_char_boundary(bytes, visual.start_byte as int)
    &&& is_char_boundary(bytes, visual.end_byte as int)
}

/// What a screen row paints.
pub open spec fn row_paints(
    row: LogRow,
    visual: LogVisualRow,
    first_cell: int,
    active: Option<(u32, u32)>,
) -> Seq<ClusterPaint> {
    let text = text_between(row.text@, visual.start_byte as int, visual.end_byte as int);
    painted(row, visual, first_cell, active, grapheme_starts(text).len()).paints
}

proof fn lemma_painted_full(
    row: LogRow,
    visual: LogVisualRow,
    first_cell: int,
    active: Option<(u32, u32)>,
    count: nat,
    total: nat,
)
    requires
        count <= total,
        painted(row, visual, first_cell, active, count).cell >= visual.end_cell,
    ensures
        painted(row, visual, first_cell, active, total).paints == painted(
            row,
            visual,
            first_cell,
            active,
            count,
        ).paints,
        painted(row, visual, first_cell, active, total).cell >= visual.end_cell,
    decreases total,
{
    if count < total {
        lemma_painted_full(row, visual, first_cell, active, count, (total - 1) as nat);
    }
}

/// The style of a byte.
fn find_style(row: &LogRow, byte: usize) -> (style: Style)
    requires
        spans_fit(*row),
    ensures
        style == style_at(*row, byte as int),
{
    let spans = &row.style_spans;
    let mut low: usize = 0;
    let mut high: usize = spans.len();
    while low < high
        invariant
            spans@ == row.style_spans@,
            spans_fit(*row),
            low <= high <= spans@.len(),
            forall|i: int| 0 <= i < low ==> (#[trigger] spans@[i]).byte_range.end <= byte,
            forall|i: int| high <= i < spans@.len() ==> (#[trigger] spans@[i]).byte_range.end > byte,
        decreases high - low,
    {
        let middle: usize = low + (high - low) / 2;
        if spans[middle].byte_range.end as usize <= byte {
            proof {
                assert forall|i: int| 0 <= i <= middle implies (
                #[trigger] spans@[i]).byte_range.end <= byte by {
                    lemma_spans_rise(*row, i, middle as int);
                }
            }
            low = middle + 1;
        } else {
            proof {
                assert forall|i: int| middle <= i < spans@.len() implies (
                #[trigger] spans@[i]).byte_range.end > byte by {
                    lemma_spans_rise(*row, middle as int, i);
                }
            }
            high = middle;
        }
    }
    if low < spans.len() && spans[low].byte_range.start as usize <= byte {
        proof {
            assert(spans@[low as int].byte_range.start <= byte < spans@[low as int].byte_range.end);
            let chosen = choose|i: int|
                0 <= i < spans@.len() && (#[trigger] spans@[i]).byte_range.start <= byte
                    < spans@[i].byte_range.end;
            if chosen < low {
                assert(spans@[chosen].byte_range.end <= byte);
            } else if chosen > low {
                lemma_spans_rise(*row, low as int, chosen);
            }
        }
        spans[low].style
    } else {
        proof {
            assert forall|i: int| 0 <= i < spans@.len() implies !((
            #[trigger] spans@[i]).byte_range.start <= byte < spans@[i].byte_range.end) by {
                if i > low {
                    lemma_spans_rise(*row, low as int, i);
                    assert(spans@[low as int].byte_range.start > byte);
                }
            }
        }
        Style::default()
    }
}

/// The spans of a row go up.
proof fn lemma_spans_rise(row: LogRow, low: int, high: int)
    requires
        spans_fit(row),
        0 <= low <= high < row.style_spans@.len(),
    ensures
        row.style_spans@[low].byte_range.end <= row.style_spans@[high].byte_range.end,
        row.style_spans@[low].byte_range.start <= row.style_spans@[high].byte_range.start,
        low < high ==> row.style_spans@[low].byte_range.end
            <= row.style_spans@[high].byte_range.start,
        row.style_spans@[low].byte_range.start < row.style_spans@[low].byte_range.end,
    decreases high - low,
{
    assert(span_fits(row, low));
    if low < high {
        lemma_spans_rise(row, low, high - 1);
        assert(span_fits(row, high));
        assert(span_fits(row, high - 1));
    }
}

proof fn lemma_single(text: Seq<char>, character: char, byte: u8)
    requires
        character as u32 == byte,
        byte < 128,
    ensures
        text == seq![character] <==> utf8(text) == seq![byte],
{
    let single = seq![character];
    assert(vstd::utf8::is_ascii_chars(single));
    vstd::utf8::is_ascii_chars_encode_utf8(single);
    assert(utf8(single) =~= seq![byte]);
    if utf8(text) == seq![byte] {
        crate::text::lemma_utf8_injective(text, single);
    }
}

/// Whether a character has something to draw besides its background.
fn draws(cluster: &str) -> (yes: bool)
    ensures
        yes == (cluster@ != seq!['\t'] && cluster@ != seq![' ']),
{
    proof {
        lemma_single(cluster@, '\t', 9);
        lemma_single(cluster@, ' ', 32);
    }
    let bytes = cluster.as_bytes();
    if bytes.len() == 1 {
        assert(bytes@ =~= seq![bytes@[0]]);
        bytes[0] != 9 && bytes[0] != 32
    } else {
        true
    }
}

/// What a screen row paints, from its first cell on the screen.
pub fn plan_log_row(
    row: &LogRow,
    visual: LogVisualRow,
    first_cell: u32,
    active: Option<(u32, u32)>,
) -> (paints: Vec<ClusterPaint>)
    requires
        spans_fit(*row),
        shows_text(*row, visual),
    ensures
        paints@ == row_paints(*row, visual, first_cell as int, active),
{
    let start: usize = visual.start_byte as usize;
    let text = slice_text(row.text.as_str(), start, visual.end_byte as usize);
    let starts = find_graphemes(text);
    let length: usize = byte_len(text);
    let mut paints: Vec<ClusterPaint> = Vec::new();
    let mut cell: u32 = visual.start_cell;
    let mut index: usize = 0;
    proof {
        lemma_utf8_valid(text@);
        lemma_boundary_at_ends(utf8(text@));
    }
    while index < starts.len()
        invariant
            index <= starts@.len(),
            spans_fit(*row),
            shows_text(*row, visual),
            start == visual.start_byte,
            text@ == text_between(row.text@, visual.start_byte as int, visual.end_byte as int),
            starts@ == grapheme_starts(text@),
            cuts_text(starts@, text@),
            length == utf8(text@).len() == visual.end_byte - visual.start_byte,
            is_char_boundary(utf8(text@), length as int),
            painted(*row, visual, first_cell as int, active, index as nat) == (RowPainting {
                cell: cell as int,
                full: false,
                paints: paints@,
            }),
        decreases starts@.len() - index,
    {
        if cell >= visual.end_cell {
            proof {
                lemma_painted_full(
                    *row,
                    visual,
                    first_cell as int,
                    active,
                    index as nat,
                    starts@.len(),
                );
            }
            return paints;
        }
        let begin: usize = starts[index];
        let end: usize = if index + 1 < starts.len() {
            starts[index + 1]
        } else {
            length
        };
        assert(begin < end <= length);
        let shown = slice_text(text, begin, end);
        let columns: u32 = cells_of(shown, cell);
        let next: u32 = if cell <= u32::MAX - columns {
            cell + columns
        } else {
            u32::MAX
        };
        index += 1;
        if next <= first_cell {
            cell = next;
        } else {
            let style = find_style(row, start + begin);
            let (foreground, background) = resolve_style(style);
            let highlighted = match active {
                Some((from, to)) => (from as usize) < start + end && start + begin < to as usize,
                None => false,
            };
            paints.push(
                ClusterPaint {
                    start_byte: start + begin,
                    end_byte: start + end,
                    cell: if cell >= first_cell {
                        cell - first_cell
                    } else {
                        0
                    },
                    columns,
                    style,
                    foreground,
                    background,
                    highlighted,
                    has_glyphs: draws(shown),
                },
            );
            cell = next;
        }
    }
    paints
}

/// The first cell of a screen row that is on the screen: the topmost one
/// begins at the anchor.
pub open spec fn entry_cell(frame: LogSurfaceFrame, relative_row: usize, visual: LogVisualRow) -> u32 {
    if relative_row == frame.first_viewport_row {
        most(visual.start_cell, frame.cell_offset)
    } else {
        visual.start_cell
    }
}

/// The part of a line that the active match covers.
pub open spec fn active_range(decorations: LogDecorations, line_id: u64) -> Option<(u32, u32)> {
    match decorations.active_search_match {
        Some(found) => if found.line_id == line_id {
            Some((found.byte_range.start, found.byte_range.end))
        } else {
            None
        },
        None => None,
    }
}

/// What a row of a frame paints; `None` where the frame does not hold that row
/// or its bytes are not whole characters.
pub fn plan_frame_row(
    frame: &LogSurfaceFrame,
    relative_row: usize,
    decorations: &LogDecorations,
) -> (paints: Option<Vec<ClusterPaint>>)
    requires
        forall|i: int|
            0 <= i < frame.page.rows@.len() ==> spans_fit(#[trigger] frame.page.rows@[i]),
    ensures
        ({
            let at = frame.visible_rows.start + relative_row;
            if at >= frame.visible_rows.end || at >= frame.visual_rows@.len() {
                paints is None
            } else {
                let visual = frame.visual_rows@[at];
                let logical = visual.logical_row_index as int;
                if logical >= frame.page.rows@.len() || !shows_text(
                    frame.page.rows@[logical],
                    visual,
                ) {
                    paints is None
                } else {
                    let row = frame.page.rows@[logical];
                    paints matches Some(paints) && paints@ == row_paints(
                        row,
                        visual,
                        entry_cell(*frame, relative_row, visual) as int,
                        active_range(*decorations, row.line_id),
                    )
                }
            }
        }),
{
    if frame.visible_rows.start >= frame.visible_rows.end || relative_row
        >= frame.visible_rows.end - frame.visible_rows.start {
        return None;
    }
    let at: usize = frame.visible_rows.start + relative_row;
    if at >= frame.visual_rows.len() {
        return None;
    }
    let visual = frame.visual_rows[at];
    let logical: usize = visual.logical_row_index as usize;
    if logical >= frame.page.rows.len() {
        return None;
    }
    let row = &frame.page.rows[logical];
    let length: usize = byte_len(row.text.as_str());
    let start: usize = visual.start_byte as usize;
    let end: usize = visual.end_byte as usize;
    if start > end || end > length || !row.text.as_str().is_char_boundary(start)
        || !row.text.as_str().is_char_boundary(end) {
        return None;
    }
    let first_cell: u32 = if relative_row == frame.first_viewport_row {
        most_of(visual.start_cell, frame.cell_offset)
    } else {
        visual.start_cell
    };
    let active = match &decorations.active_search_match {
        Some(found) => if found.line_id == row.line_id {
            Some((found.byte_range.start, found.byte_range.end))
        } else {
            None
        },
        None => None,
    };
    Some(plan_log_row(row, visual, first_cell, active))
}

// ---------------------------------------------------------------------------
// When geometry is made anew.

/// What the geometry of a frame depends on.
#[derive(Clone, Copy, Debug, PartialEq, Eq, Structural)]
pub enum GeometryKey {
    Terminal {
        generation: u64,
        decorations_revision: u64,
        cursor_visible: bool,
        surface_width: u32,
        surface_height: u32,
        viewport: TerminalViewport,
        first_row: u16,
        last_row: u16,
    },
    Log {
        source_id: u64,
        revision: u64,
        decorations_revision: u64,
        surface_width: u32,
        surface_height: u32,
        viewport: TerminalViewport,
        first_row: usize,
        last_row: usize,
        first_viewport_row: usize,
        cell_offset: u32,
        layout_columns: u16,
    },
}

/// The key of a frame of a log.
pub fn log_geometry_key(
    frame: &LogSurfaceFrame,
    decorations: &LogDecorations,
    surface_width: u32,
    surface_height: u32,
    viewport: TerminalViewport,
) -> (key: GeometryKey)
    ensures
        key == (GeometryKey::Log {
            source_id: frame.page.source_id.0,
            revision: frame.page.revision,
            decorations_revision: decorations.revision,
            surface_width,
            surface_height,
            viewport,
            first_row: frame.visible_rows.start,
            last_row: frame.visible_rows.end,
            first_viewport_row: frame.first_viewport_row,
            cell_offset: frame.cell_offset,
            layout_columns: frame.layout_columns,
        }),
{
    GeometryKey::Log {
        source_id: frame.page.source_id.0,
        revision: frame.page.revision,
        decorations_revision: decorations.revision,
        surface_width,
        surface_height,
        viewport,
        first_row: frame.visible_rows.start,
        last_row: frame.visible_rows.end,
        first_viewport_row: frame.first_viewport_row,
        cell_offset: frame.cell_offset,
        layout_columns: frame.layout_columns,
    }
}

/// The key of a frame of a terminal.
pub fn terminal_geometry_key(
    frame: &TerminalSurfaceFrame,
    decorations: &TerminalDecorations,
    cursor_visible: bool,
    surface_width: u32,
    surface_height: u32,
    viewport: TerminalViewport,
) -> (key: GeometryKey)
    ensures
        key == (GeometryKey::Terminal {
            generation: frame.snapshot.generation,
            decorations_revision: decorations.revision,
            cursor_visible,
            surface_width,
            surface_height,
            viewport,
            first_row: frame.plan.visible_rows.start,
            last_row: frame.plan.visible_rows.end,
        }),
{
    GeometryKey::Terminal {
        generation: frame.snapshot.generation,
        decorations_revision: decorations.revision,
        cursor_visible,
        surface_width,
        surface_height,
        viewport,
        first_row: frame.plan.visible_rows.start,
        last_row: frame.plan.visible_rows.end,
    }
}

} // verus!
