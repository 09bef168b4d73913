//! What a terminal shows: cells with their styles, the cursor, and snapshots of
//! the grid.
use vstd::prelude::*;

verus! {

#[derive(Clone, Copy, Debug, PartialEq, Eq, Structural)]
pub enum Color {
    Default,
    Indexed(u8),
    Rgb(u8, u8, u8),
}

#[derive(Clone, Copy, Debug, PartialEq, Eq, Structural)]
pub struct Style {
    pub foreground: Color,
    pub background: Color,
    pub bold: bool,
    pub italic: bool,
    pub underline: bool,
    pub inverse: bool,
}

/// The style of text that nothing has been set for.
pub open spec fn plain() -> Style {
    Style {
        foreground: Color::Default,
        background: Color::Default,
        bold: false,
        italic: false,
        underline: false,
        inverse: false,
    }
}

impl Default for Style {
    fn default() -> (style: Self)
        ensures
            style == plain(),
    {
        Style {
            foreground: Color::Default,
            background: Color::Default,
            bold: false,
            italic: false,
            underline: false,
            inverse: false,
        }
    }
}

/// How a cell takes part in a character of two columns.
#[derive(Clone, Copy, Debug, PartialEq, Eq, Structural)]
pub enum CellWidth {
    Single,
    Wide,
    WideSpacer,
    LeadingWideSpacer,
}

#[derive(Clone, Debug, PartialEq, Eq)]
pub struct Cell {
    pub character: char,
    /// The characters that are drawn over the first one.
    pub marks: Vec<char>,
    pub width: CellWidth,
    pub style: Style,
}

impl Default for Cell {
    fn default() -> (cell: Self)
        ensures
            cell.character == ' ',
            cell.marks@.len() == 0,
            cell.width == CellWidth::Single,
            cell.style == plain(),
    {
        Cell {
            character: ' ',
            marks: Vec::new(),
            width: CellWidth::Single,
            style: Style::default(),
        }
    }
}

impl Cell {
    pub fn new(character: char, width: CellWidth, style: Style) -> (cell: Self)
        ensures
            cell.character == character,
            cell.marks@.len() == 0,
            cell.width == width,
            cell.style == style,
    {
        Cell { character, marks: Vec::new(), width, style }
    }

    pub fn with_zerowidth(
        character: char,
        marks: Vec<char>,
        width: CellWidth,
        style: Style,
    ) -> (cell: Self)
        ensures
            cell.character == character,
            cell.marks == marks,
            cell.width == width,
            cell.style == style,
    {
        Cell { character, marks, width, style }
    }

    /// The characters of the cell.
    pub open spec fn chars(self) -> Seq<char> {
        seq![self.character] + self.marks@
    }

    /// The cell only fills up the columns of a wide character.
    pub open spec fn spacer(self) -> bool {
        self.width == CellWidth::WideSpacer || self.width == CellWidth::LeadingWideSpacer
    }

    pub fn is_spacer(&self) -> (yes: bool)
        ensures
            yes == self.spacer(),
    {
        self.width == CellWidth::WideSpacer || self.width == CellWidth::LeadingWideSpacer
    }
}

#[derive(Clone, Copy, Debug, PartialEq, Eq, Structural)]
pub enum CursorShape {
    Block,
    Underline,
    Beam,
    HollowBlock,
    Hidden,
}

#[derive(Clone, Copy, Debug, PartialEq, Eq, Structural)]
pub struct CursorAppearance {
    pub shape: CursorShape,
    pub blinking: bool,
    pub color: Option<Color>,
}

impl Default for CursorAppearance {
    fn default() -> (appearance: Self)
        ensures
            appearance.shape == CursorShape::Block,
            !appearance.blinking,
            appearance.color is None,
    {
        CursorAppearance { shape: CursorShape::Block, blinking: false, color: None }
    }
}

/// The grid of a terminal at one moment, row after row.
#[derive(Clone, Debug)]
pub struct FrameSnapshot {
    pub generation: u64,
    pub rows: u16,
    pub cols: u16,
    pub cursor_row: u16,
    pub cursor_col: u16,
    pub cursor_appearance: CursorAppearance,
    pub cells: Vec<Cell>,
}

impl FrameSnapshot {
    /// The cells of row `row`; none where the grid does not hold that row.
    pub open spec fn row_cells(self, row: int) -> Option<Seq<Cell>> {
        if 0 <= row < self.rows && (row + 1) * self.cols <= self.cells@.len() {
            Some(self.cells@.subrange(row * self.cols, (row + 1) * self.cols))
        } else {
            None
        }
    }

    pub fn row(&self, row: u16) -> (cells: Option<&[Cell]>)
        ensures
            match cells {
                Some(cells) => self.row_cells(row as int) == Some(cells@) && cells@.len()
                    == self.cols,
                None => self.row_cells(row as int) is None,
            },
    {
        if row >= self.rows {
            return None;
        }
        let cols: u16 = self.cols;
        assert(0 <= row * cols && (row + 1) * cols - row * cols == cols && (row + 1) * cols
            <= 0x1_0000_0000) by (nonlinear_arith)
            requires
                0 <= row <= 0xffff,
                0 <= cols <= 0xffff,
        ;
        let start: u64 = row as u64 * cols as u64;
        let end: u64 = (row as u64 + 1) * cols as u64;
        if end > self.cells.len() as u64 {
            return None;
        }
        Some(vstd::slice::slice_subrange(self.cells.as_slice(), start as usize, end as usize))
    }
}

} // verus!
