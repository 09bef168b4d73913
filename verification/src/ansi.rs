//! A byte machine that reads terminal output, tracks the text style set by
//! escape sequences, and keeps only what is text.
use vstd::prelude::*;

verus! {

pub const ANSI_STATE_BYTES: usize = 80;

pub const MAX_CSI_BYTES: usize = 64;

pub const MAX_SGR_PARAMETERS: usize = 32;

pub const MAX_SGR_FIELDS: usize = 8;

#[derive(Clone, Copy, Debug, PartialEq, Eq, Structural)]
pub enum JournalColor {
    Default,
    Indexed(u8),
    Rgb(u8, u8, u8),
}

impl Default for JournalColor {
    fn default() -> (color: Self)
        ensures
            color == JournalColor::Default,
    {
        JournalColor::Default
    }
}

#[derive(Clone, Copy, Debug, PartialEq, Eq, Structural)]
pub struct JournalStyle {
    pub foreground: JournalColor,
    pub background: JournalColor,
    pub bold: bool,
    pub italic: bool,
    pub underline: bool,
    pub inverse: bool,
}

/// The style of text before any escape sequence has set one.
pub open spec fn plain_style() -> JournalStyle {
    JournalStyle {
        foreground: JournalColor::Default,
        background: JournalColor::Default,
        bold: false,
        italic: false,
        underline: false,
        inverse: false,
    }
}

impl Default for JournalStyle {
    fn default() -> (style: Self)
        ensures
            style == plain_style(),
    {
        JournalStyle {
            foreground: JournalColor::Default,
            background: JournalColor::Default,
            bold: false,
            italic: false,
            underline: false,
            inverse: false,
        }
    }
}

#[derive(Clone, Copy, Debug, PartialEq, Eq, Structural)]
pub enum MachineState {
    Ground,
    Escape,
    Csi,
    Osc,
    OscEscape,
    ControlString,
    ControlStringEscape,
}

impl MachineState {
    /// The byte that stands for the state in a checkpoint.
    pub open spec fn code(self) -> u8 {
        match self {
            MachineState::Ground => 0,
            MachineState::Escape => 1,
            MachineState::Csi => 2,
            MachineState::Osc => 3,
            MachineState::OscEscape => 4,
            MachineState::ControlString => 5,
            MachineState::ControlStringEscape => 6,
        }
    }

    pub fn encode(self) -> (value: u8)
        ensures
            value == self.code(),
    {
        match self {
            MachineState::Ground => 0,
            MachineState::Escape => 1,
            MachineState::Csi => 2,
            MachineState::Osc => 3,
            MachineState::OscEscape => 4,
            MachineState::ControlString => 5,
            MachineState::ControlStringEscape => 6,
        }
    }

    pub fn decode(value: u8) -> (state: Option<Self>)
        ensures
            match state {
                Some(state) => state.code() == value,
                None => value > 6,
            },
    {
        match value {
            0 => Some(MachineState::Ground),
            1 => Some(MachineState::Escape),
            2 => Some(MachineState::Csi),
            3 => Some(MachineState::Osc),
            4 => Some(MachineState::OscEscape),
            5 => Some(MachineState::ControlString),
            6 => Some(MachineState::ControlStringEscape),
            _ => None,
        }
    }
}

// ---------------------------------------------------------------------------
// Numbers and fields of a style sequence.

pub open spec fn is_digit(byte: u8) -> bool {
    0x30 <= byte <= 0x39
}

pub open spec fn all_digits(s: Seq<u8>) -> bool {
    forall|i: int| 0 <= i < s.len() ==> is_digit(#[trigger] s[i])
}

/// The decimal number that a sequence of digits writes.
pub open spec fn decimal(s: Seq<u8>) -> nat
    decreases s.len(),
{
    if s.len() == 0 {
        0
    } else {
        decimal(s.drop_last()) * 10 + (s.last() - 0x30) as nat
    }
}

/// What follows an optional plus sign.
pub open spec fn unsigned_part(s: Seq<u8>) -> Seq<u8> {
    if s.len() > 0 && s[0] == 0x2b {
        s.skip(1)
    } else {
        s
    }
}

/// A number of one field: digits with an optional plus sign, at most 65535.
/// An empty field counts as zero where `empty_is_zero` holds.
pub open spec fn sgr_number(s: Seq<u8>, empty_is_zero: bool) -> Option<u16> {
    let digits = unsigned_part(s);
    if s.len() == 0 {
        if empty_is_zero {
            Some(0u16)
        } else {
            None
        }
    } else if digits.len() > 0 && all_digits(digits) && decimal(digits) <= 0xffff {
        Some(decimal(digits) as u16)
    } else {
        None
    }
}

proof fn lemma_decimal_grows(s: Seq<u8>, end: int)
    requires
        0 <= end <= s.len(),
        all_digits(s),
    ensures
        decimal(s.take(end)) <= decimal(s),
    decreases s.len(),
{
    if end < s.len() {
        assert(s.drop_last().take(end) =~= s.take(end));
        lemma_decimal_grows(s.drop_last(), end);
    } else {
        assert(s.take(end) =~= s);
    }
}

pub fn parse_sgr_number(input: &[u8], empty_is_zero: bool) -> (number: Option<u16>)
    ensures
        number == sgr_number(input@, empty_is_zero),
{
    if input.len() == 0 {
        return if empty_is_zero {
            Some(0)
        } else {
            None
        };
    }
    let start: usize = if input[0] == 0x2b {
        1
    } else {
        0
    };
    let ghost digits = unsigned_part(input@);
    assert(digits =~= input@.skip(start as int));
    if start == input.len() {
        return None;
    }
    let mut value: u32 = 0;
    let mut index: usize = start;
    assert(digits.take(0) =~= Seq::<u8>::empty());
    while index < input.len()
        invariant
            start <= index <= input@.len(),
            digits == input@.skip(start as int),
            digits == unsigned_part(input@),
            input@.len() > 0,
            digits.len() > 0,
            value <= 0xffff,
            all_digits(digits.take(index - start)),
            value == decimal(digits.take(index - start)),
        decreases input@.len() - index,
    {
        let byte: u8 = input[index];
        let ghost position = index - start;
        assert(digits[position] == byte);
        if byte < 0x30 || byte > 0x39 {
            assert(!is_digit(digits[position]));
            return None;
        }
        proof {
            assert(digits.take(position + 1).drop_last() =~= digits.take(position));
            assert forall|i: int| 0 <= i < position + 1 implies is_digit(
                #[trigger] digits.take(position + 1)[i],
            ) by {
                if i < position {
                    assert(digits.take(position + 1)[i] == digits.take(position)[i]);
                }
            }
        }
        value = value * 10 + (byte - 0x30) as u32;
        if value > 0xffff {
            proof {
                if all_digits(digits) {
                    lemma_decimal_grows(digits, position + 1);
                }
            }
            return None;
        }
        index += 1;
    }
    assert(digits.take(digits.len() as int) =~= digits);
    Some(value as u16)
}

/// The fields of `s` between occurrences of `separator`; always at least one.
pub open spec fn split_on(s: Seq<u8>, separator: u8) -> Seq<Seq<u8>>
    decreases s.len(),
{
    if s.len() == 0 {
        seq![Seq::<u8>::empty()]
    } else {
        let fields = split_on(s.drop_last(), separator);
        if s.last() == separator {
            fields.push(Seq::<u8>::empty())
        } else {
            fields.drop_last().push(fields.last().push(s.last()))
        }
    }
}

/// The views of a list of slices.
pub open spec fn slice_views(fields: Seq<&[u8]>) -> Seq<Seq<u8>> {
    Seq::new(fields.len(), |i: int| fields[i]@)
}

pub fn split_fields(input: &[u8], separator: u8) -> (fields: Vec<&[u8]>)
    ensures
        slice_views(fields@) == split_on(input@, separator),
        fields@.len() > 0,
{
    let mut fields: Vec<&[u8]> = Vec::new();
    let mut start: usize = 0;
    let mut index: usize = 0;
    assert(input@.subrange(0, 0) =~= Seq::<u8>::empty());
    assert(slice_views(fields@).push(input@.subrange(0, 0)) =~= split_on(
        input@.take(0),
        separator,
    ));
    while index < input.len()
        invariant
            start <= index <= input@.len(),
            slice_views(fields@).push(input@.subrange(start as int, index as int)) == split_on(
                input@.take(index as int),
                separator,
            ),
        decreases input@.len() - index,
    {
        let ghost before = split_on(input@.take(index as int), separator);
        let ghost old_views = slice_views(fields@);
        assert(input@.take(index + 1).drop_last() =~= input@.take(index as int));
        assert(before.drop_last() =~= old_views);
        if input[index] == separator {
            fields.push(vstd::slice::slice_subrange(input, start, index));
            start = index + 1;
            assert(slice_views(fields@) =~= before);
            assert(input@.subrange(start as int, index + 1) =~= Seq::<u8>::empty());
        } else {
            assert(input@.subrange(start as int, index + 1) =~= before.last().push(
                input@[index as int],
            ));
        }
        index += 1;
    }
    fields.push(vstd::slice::slice_subrange(input, start, input.len()));
    assert(input@.take(input@.len() as int) =~= input@);
    assert(slice_views(fields@) =~= split_on(input@, separator));
    fields
}

// ---------------------------------------------------------------------------
// Style changes.

pub open spec fn clamped(value: u16) -> u8 {
    if value > 255 {
        255
    } else {
        value as u8
    }
}

pub open spec fn clamped_color(value: Option<u16>) -> Option<u8> {
    match value {
        Some(value) => Some(clamped(value)),
        None => None,
    }
}

pub fn clamp_color(value: Option<u16>) -> (color: Option<u8>)
    ensures
        color == clamped_color(value),
{
    match value {
        Some(value) => Some(
            if value > 255 {
                255
            } else {
                value as u8
            },
        ),
        None => None,
    }
}

/// A true color, where all three channels are given.
pub open spec fn true_color(
    red: Option<u16>,
    green: Option<u16>,
    blue: Option<u16>,
) -> Option<JournalColor> {
    match (red, green, blue) {
        (Some(red), Some(green), Some(blue)) => Some(
            JournalColor::Rgb(clamped(red), clamped(green), clamped(blue)),
        ),
        _ => None,
    }
}

pub fn rgb_color(red: Option<u16>, green: Option<u16>, blue: Option<u16>) -> (color: Option<
    JournalColor,
>)
    ensures
        color == true_color(red, green, blue),
{
    match (clamp_color(red), clamp_color(green), clamp_color(blue)) {
        (Some(red), Some(green), Some(blue)) => Some(JournalColor::Rgb(red, green, blue)),
        _ => None,
    }
}

pub open spec fn with_color(style: JournalStyle, foreground: bool, color: JournalColor) -> JournalStyle {
    if foreground {
        JournalStyle { foreground: color, ..style }
    } else {
        JournalStyle { background: color, ..style }
    }
}

pub fn set_color(style: &mut JournalStyle, foreground: bool, color: JournalColor)
    ensures
        *final(style) == with_color(*old(style), foreground, color),
{
    if foreground {
        style.foreground = color;
    } else {
        style.background = color;
    }
}

/// The style after one basic style code.
pub open spec fn basic_sgr(style: JournalStyle, value: u16) -> JournalStyle {
    if value == 0 {
        plain_style()
    } else if value == 1 {
        JournalStyle { bold: true, ..style }
    } else if value == 3 {
        JournalStyle { italic: true, ..style }
    } else if value == 4 {
        JournalStyle { underline: true, ..style }
    } else if value == 7 {
        JournalStyle { inverse: true, ..style }
    } else if value == 22 {
        JournalStyle { bold: false, ..style }
    } else if value == 23 {
        JournalStyle { italic: false, ..style }
    } else if value == 24 {
        JournalStyle { underline: false, ..style }
    } else if value == 27 {
        JournalStyle { inverse: false, ..style }
    } else if 30 <= value <= 37 {
        JournalStyle { foreground: JournalColor::Indexed((value - 30) as u8), ..style }
    } else if value == 39 {
        JournalStyle { foreground: JournalColor::Default, ..style }
    } else if 40 <= value <= 47 {
        JournalStyle { background: JournalColor::Indexed((value - 40) as u8), ..style }
    } else if value == 49 {
        JournalStyle { background: JournalColor::Default, ..style }
    } else if 90 <= value <= 97 {
        JournalStyle { foreground: JournalColor::Indexed((value - 82) as u8), ..style }
    } else if 100 <= value <= 107 {
        JournalStyle { background: JournalColor::Indexed((value - 92) as u8), ..style }
    } else {
        style
    }
}

/// The color that the fields after a color code name, if they name one.
pub open spec fn colon_color(fields: Seq<Seq<u8>>) -> Option<JournalColor> {
    let number = |i: int| sgr_number(fields[i], false);
    if number(1) == Some(5u16) && fields.len() == 3 {
        match number(2) {
            Some(value) => Some(JournalColor::Indexed(clamped(value))),
            None => None,
        }
    } else if number(1) == Some(2u16) && fields.len() == 5 {
        true_color(number(2), number(3), number(4))
    } else if number(1) == Some(2u16) && fields.len() == 6 && (number(2) is None || number(2)
        == Some(0u16)) {
        true_color(number(3), number(4), number(5))
    } else {
        None
    }
}

/// The style after one parameter whose fields are separated by colons.
pub open spec fn colon_sgr(style: JournalStyle, parameter: Seq<u8>) -> JournalStyle {
    let fields = split_on(parameter, 0x3a);
    match sgr_number(fields[0], false) {
        Some(code) => if fields.len() > MAX_SGR_FIELDS {
            style
        } else if fields.len() == 1 {
            basic_sgr(style, code)
        } else if code == 4 {
            JournalStyle { underline: true, ..style }
        } else if code == 38 || code == 48 {
            match colon_color(fields) {
                Some(color) => with_color(style, code == 38, color),
                None => style,
            }
        } else {
            style
        },
        None => style,
    }
}

/// The color that starts `index + 1` parameters in, and how many parameters
/// the whole color code takes.
pub open spec fn semicolon_color(parameters: Seq<Seq<u8>>, index: int) -> Option<
    (JournalColor, int),
> {
    let number = |i: int| sgr_number(parameters[i], true);
    if index + 2 < parameters.len() && number(index + 1) == Some(5u16) {
        match number(index + 2) {
            Some(value) => Some((JournalColor::Indexed(clamped(value)), 3)),
            None => None,
        }
    } else if index + 4 < parameters.len() && number(index + 1) == Some(2u16) {
        match true_color(number(index + 2), number(index + 3), number(index + 4)) {
            Some(color) => Some((color, 5)),
            None => None,
        }
    } else {
        None
    }
}

/// The style after the parameters from `index` on, taken in order. A
/// parameter that is no number ends the sequence.
pub open spec fn sgr_from(style: JournalStyle, parameters: Seq<Seq<u8>>, index: int) -> JournalStyle
    decreases parameters.len() - index,
{
    if index < 0 || index >= parameters.len() {
        style
    } else if parameters[index].contains(0x3a) {
        sgr_from(colon_sgr(style, parameters[index]), parameters, index + 1)
    } else {
        match sgr_number(parameters[index], true) {
            None => style,
            Some(value) => if value == 38 || value == 48 {
                match semicolon_color(parameters, index) {
                    Some((color, taken)) => if taken == 5 {
                        sgr_from(with_color(style, value == 38, color), parameters, index + 5)
                    } else {
                        sgr_from(with_color(style, value == 38, color), parameters, index + 3)
                    },
                    None => sgr_from(style, parameters, index + 1),
                }
            } else {
                sgr_from(basic_sgr(style, value), parameters, index + 1)
            },
        }
    }
}

/// The style after a whole style sequence; one with too many parameters
/// changes nothing.
pub open spec fn sgr(style: JournalStyle, sequence: Seq<u8>) -> JournalStyle {
    let parameters = split_on(sequence, 0x3b);
    if sequence.len() == 0 {
        plain_style()
    } else if parameters.len() > MAX_SGR_PARAMETERS {
        style
    } else {
        sgr_from(style, parameters, 0)
    }
}

fn contains_byte(input: &[u8], wanted: u8) -> (found: bool)
    ensures
        found == input@.contains(wanted),
{
    let mut index: usize = 0;
    while index < input.len()
        invariant
            index <= input@.len(),
            forall|i: int| 0 <= i < index ==> input@[i] != wanted,
        decreases input@.len() - index,
    {
        if input[index] == wanted {
            assert(input@[index as int] == wanted);
            return true;
        }
        index += 1;
    }
    false
}

// ---------------------------------------------------------------------------
// The machine.

#[derive(Clone, Copy, Debug, PartialEq, Eq)]
pub struct AnsiState {
    pub machine: MachineState,
    pub csi: [u8; 64],
    pub csi_len: u8,
    pub csi_overflow: bool,
    pub style: JournalStyle,
}

/// The machine's state, with the buffer as a sequence.
#[verifier::ext_equal]
pub struct AnsiModel {
    pub machine: MachineState,
    pub csi: Seq<u8>,
    pub csi_len: int,
    pub csi_overflow: bool,
    pub style: JournalStyle,
}

impl View for AnsiState {
    type V = AnsiModel;

    open spec fn view(&self) -> AnsiModel {
        AnsiModel {
            machine: self.machine,
            csi: self.csi@,
            csi_len: self.csi_len as int,
            csi_overflow: self.csi_overflow,
            style: self.style,
        }
    }
}

impl AnsiModel {
    /// The buffer has its fixed size and the used part lies within it.
    pub open spec fn wf(self) -> bool {
        self.csi.len() == MAX_CSI_BYTES && 0 <= self.csi_len <= MAX_CSI_BYTES
    }

    pub open spec fn initial() -> AnsiModel {
        AnsiModel {
            machine: MachineState::Ground,
            csi: Seq::new(64, |i: int| 0u8),
            csi_len: 0,
            csi_overflow: false,
            style: plain_style(),
        }
    }
}

/// The state after a byte inside a control sequence.
pub open spec fn csi_step(state: AnsiModel, byte: u8) -> AnsiModel {
    if 0x40 <= byte <= 0x7e {
        AnsiModel {
            machine: MachineState::Ground,
            csi_len: 0,
            csi_overflow: false,
            style: if byte == 0x6d && !state.csi_overflow {
                sgr(state.style, state.csi.take(state.csi_len))
            } else {
                state.style
            },
            ..state
        }
    } else if 0x20 <= byte <= 0x3f {
        if state.csi_len < MAX_CSI_BYTES {
            AnsiModel {
                csi: state.csi.update(state.csi_len, byte),
                csi_len: state.csi_len + 1,
                ..state
            }
        } else {
            AnsiModel { csi_overflow: true, ..state }
        }
    } else {
        state
    }
}

/// The state after one byte.
#[verifier::opaque]
pub open spec fn step(state: AnsiModel, byte: u8) -> AnsiModel {
    match state.machine {
        MachineState::Ground => if byte == 0x1b {
            AnsiModel { machine: MachineState::Escape, ..state }
        } else {
            state
        },
        MachineState::Escape => if byte == 0x5b {
            AnsiModel { machine: MachineState::Csi, csi_len: 0, csi_overflow: false, ..state }
        } else if byte == 0x5d {
            AnsiModel { machine: MachineState::Osc, ..state }
        } else if byte == 0x50 || byte == 0x58 || byte == 0x5e || byte == 0x5f {
            AnsiModel { machine: MachineState::ControlString, ..state }
        } else {
            AnsiModel { machine: MachineState::Ground, ..state }
        },
        MachineState::Csi => csi_step(state, byte),
        MachineState::Osc => if byte == 0x07 {
            AnsiModel { machine: MachineState::Ground, ..state }
        } else if byte == 0x1b {
            AnsiModel { machine: MachineState::OscEscape, ..state }
        } else {
            state
        },
        MachineState::OscEscape => if byte == 0x5c {
            AnsiModel { machine: MachineState::Ground, ..state }
        } else {
            AnsiModel { machine: MachineState::Osc, ..state }
        },
        MachineState::ControlString => if byte == 0x1b {
            AnsiModel { machine: MachineState::ControlStringEscape, ..state }
        } else {
            state
        },
        MachineState::ControlStringEscape => if byte == 0x5c {
            AnsiModel { machine: MachineState::Ground, ..state }
        } else {
            AnsiModel { machine: MachineState::ControlString, ..state }
        },
    }
}

/// The state after all bytes of `input`, in order.
pub open spec fn run(state: AnsiModel, input: Seq<u8>) -> AnsiModel
    decreases input.len(),
{
    if input.len() == 0 {
        state
    } else {
        step(run(state, input.drop_last()), input.last())
    }
}

/// The bytes that count as text: tab, printable ASCII, and everything above.
pub open spec fn visible(byte: u8) -> bool {
    byte == 0x09 || 0x20 <= byte <= 0x7e || byte >= 0x80
}

pub fn is_visible_byte(byte: u8) -> (shown: bool)
    ensures
        shown == visible(byte),
{
    byte == 0x09 || (0x20 <= byte && byte <= 0x7e) || byte >= 0x80
}

pub proof fn lemma_step_keeps_wf(state: AnsiModel, byte: u8)
    requires
        state.wf(),
    ensures
        step(state, byte).wf(),
{
    reveal(step);
}

/// The buffer's invariant holds after any input.
pub proof fn law_run_keeps_wf(state: AnsiModel, input: Seq<u8>)
    requires
        state.wf(),
    ensures
        run(state, input).wf(),
    decreases input.len(),
{
    if input.len() > 0 {
        law_run_keeps_wf(state, input.drop_last());
        lemma_step_keeps_wf(run(state, input.drop_last()), input.last());
    }
}

/// Output may be handed over in pieces: reading two pieces one after the
/// other leaves the same state as reading them joined.
pub proof fn law_run_splits(state: AnsiModel, first: Seq<u8>, second: Seq<u8>)
    ensures
        run(state, first + second) == run(run(state, first), second),
    decreases second.len(),
{
    if second.len() == 0 {
        assert(first + second =~= first);
    } else {
        assert((first + second).drop_last() =~= first + second.drop_last());
        law_run_splits(state, first, second.drop_last());
    }
}

impl Default for AnsiState {
    fn default() -> (state: Self)
        ensures
            state@ == AnsiModel::initial(),
            state@.wf(),
    {
        let state = AnsiState {
            machine: MachineState::Ground,
            csi: [0u8; 64],
            csi_len: 0,
            csi_overflow: false,
            style: JournalStyle::default(),
        };
        assert(state@ =~= AnsiModel::initial());
        state
    }
}

impl AnsiState {
    pub fn apply_basic_sgr(&mut self, value: u16)
        ensures
            final(self)@ == (AnsiModel { style: basic_sgr(old(self).style, value), ..old(self)@ }),
    {
        if value == 0 {
            self.style = JournalStyle::default();
        } else if value == 1 {
            self.style.bold = true;
        } else if value == 3 {
            self.style.italic = true;
        } else if value == 4 {
            self.style.underline = true;
        } else if value == 7 {
            self.style.inverse = true;
        } else if value == 22 {
            self.style.bold = false;
        } else if value == 23 {
            self.style.italic = false;
        } else if value == 24 {
            self.style.underline = false;
        } else if value == 27 {
            self.style.inverse = false;
        } else if 30 <= value && value <= 37 {
            self.style.foreground = JournalColor::Indexed((value - 30) as u8);
        } else if value == 39 {
            self.style.foreground = JournalColor::Default;
        } else if 40 <= value && value <= 47 {
            self.style.background = JournalColor::Indexed((value - 40) as u8);
        } else if value == 49 {
            self.style.background = JournalColor::Default;
        } else if 90 <= value && value <= 97 {
            self.style.foreground = JournalColor::Indexed((value - 90 + 8) as u8);
        } else if 100 <= value && value <= 107 {
            self.style.background = JournalColor::Indexed((value - 100 + 8) as u8);
        }
    }

    pub fn apply_colon_sgr(&mut self, parameter: &[u8])
        ensures
            final(self)@ == (AnsiModel {
                style: colon_sgr(old(self).style, parameter@),
                ..old(self)@
            }),
    {
        let fields = split_fields(parameter, 0x3a);
        let ghost views = split_on(parameter@, 0x3a);
        let count: usize = fields.len();
        assert(views[0] == fields@[0]@);
        let code: u16 = match parse_sgr_number(fields[0], false) {
            Some(code) => code,
            None => return ,
        };
        if count > MAX_SGR_FIELDS {
            return;
        }
        if count == 1 {
            self.apply_basic_sgr(code);
            return;
        }
        if code == 4 {
            self.style.underline = true;
            return;
        }
        if code != 38 && code != 48 {
            return;
        }
        let mut numbers: Vec<Option<u16>> = Vec::new();
        let mut index: usize = 0;
        while index < count
            invariant
                index <= count,
                count == fields@.len(),
                slice_views(fields@) == views,
                numbers@.len() == index,
                forall|i: int|
                    0 <= i < index ==> #[trigger] numbers@[i] == sgr_number(views[i], false),
            decreases count - index,
        {
            assert(views[index as int] == fields@[index as int]@);
            numbers.push(parse_sgr_number(fields[index], false));
            index += 1;
        }
        let mode: Option<u16> = numbers[1];
        let color: Option<JournalColor> = if mode == Some(5u16) && count == 3 {
            match clamp_color(numbers[2]) {
                Some(value) => Some(JournalColor::Indexed(value)),
                None => None,
            }
        } else if mode == Some(2u16) && count == 5 {
            rgb_color(numbers[2], numbers[3], numbers[4])
        } else if mode == Some(2u16) && count == 6 && (numbers[2].is_none() || numbers[2] == Some(
            0u16,
        )) {
            rgb_color(numbers[3], numbers[4], numbers[5])
        } else {
            None
        };
        assert(color == colon_color(views));
        if let Some(color) = color {
            set_color(&mut self.style, code == 38, color);
        }
    }

    pub fn apply_sgr(&mut self, parameters: &[u8])
        ensures
            final(self)@ == (AnsiModel { style: sgr(old(self).style, parameters@), ..old(self)@ }),
    {
        if parameters.len() == 0 {
            self.apply_basic_sgr(0);
            return;
        }
        let fields = split_fields(parameters, 0x3b);
        let ghost views = split_on(parameters@, 0x3b);
        let count: usize = fields.len();
        if count > MAX_SGR_PARAMETERS {
            return;
        }
        let mut index: usize = 0;
        while index < count
            invariant
                index <= count,
                count == fields@.len(),
                count <= MAX_SGR_PARAMETERS,
                views.len() == count,
                slice_views(fields@) == views,
                parameters@.len() > 0,
                views == split_on(parameters@, 0x3b),
                sgr(old(self).style, parameters@) == sgr_from(self.style, views, index as int),
                self@ == (AnsiModel { style: self.style, ..old(self)@ }),
            decreases count - index,
        {
            let parameter = fields[index];
            assert(views[index as int] == parameter@);
            if contains_byte(parameter, 0x3a) {
                self.apply_colon_sgr(parameter);
                index += 1;
                continue;
            }
            let value: u16 = match parse_sgr_number(parameter, true) {
                Some(value) => value,
                None => return ,
            };
            if value == 38 || value == 48 {
                let foreground = value == 38;
                assert(forall|i: int| 0 <= i < count ==> views[i] == #[trigger] fields@[i]@);
                let mode: Option<u16> = if index + 1 < count {
                    parse_sgr_number(fields[index + 1], true)
                } else {
                    None
                };
                if mode == Some(5u16) && index + 2 < count {
                    if let Some(value) = parse_sgr_number(fields[index + 2], true) {
                        let color = JournalColor::Indexed(
                            if value > 255 {
                                255
                            } else {
                                value as u8
                            },
                        );
                        set_color(&mut self.style, foreground, color);
                        index += 3;
                        continue;
                    }
                } else if mode == Some(2u16) && index + 4 < count {
                    let color = rgb_color(
                        parse_sgr_number(fields[index + 2], true),
                        parse_sgr_number(fields[index + 3], true),
                        parse_sgr_number(fields[index + 4], true),
                    );
                    if let Some(color) = color {
                        set_color(&mut self.style, foreground, color);
                        index += 5;
                        continue;
                    }
                }
                assert(semicolon_color(views, index as int) is None);
            } else {
                self.apply_basic_sgr(value);
            }
            index += 1;
        }
    }
}


// ---------------------------------------------------------------------------
// Checkpoints.

pub open spec fn color_bytes(color: JournalColor) -> Seq<u8> {
    match color {
        JournalColor::Default => seq![0u8, 0u8, 0u8, 0u8],
        JournalColor::Indexed(value) => seq![1u8, value, 0u8, 0u8],
        JournalColor::Rgb(red, green, blue) => seq![2u8, red, green, blue],
    }
}

pub open spec fn flag(set: bool, value: u8) -> u8 {
    if set {
        value
    } else {
        0
    }
}

/// One bit for each of bold, italic, underline and inverse.
pub open spec fn style_flags(style: JournalStyle) -> u8 {
    (flag(style.bold, 1) + flag(style.italic, 2) + flag(style.underline, 4) + flag(
        style.inverse,
        8,
    )) as u8
}

pub open spec fn style_bytes(style: JournalStyle) -> Seq<u8> {
    color_bytes(style.foreground) + color_bytes(style.background) + seq![style_flags(style)]
}

/// The bytes of a checkpoint of the machine.
pub open spec fn state_bytes(state: AnsiModel) -> Seq<u8> {
    seq![
        state.machine.code(),
        state.csi_len as u8,
        flag(state.csi_overflow, 1),
        0u8,
    ] + state.csi + style_bytes(state.style) + seq![0u8, 0u8, 0u8]
}

pub fn encode_color(color: JournalColor, output: &mut Vec<u8>)
    ensures
        final(output)@ == old(output)@ + color_bytes(color),
{
    let (kind, first, second, third): (u8, u8, u8, u8) = match color {
        JournalColor::Default => (0, 0, 0, 0),
        JournalColor::Indexed(value) => (1, value, 0, 0),
        JournalColor::Rgb(red, green, blue) => (2, red, green, blue),
    };
    output.push(kind);
    output.push(first);
    output.push(second);
    output.push(third);
    assert(output@ =~= old(output)@ + color_bytes(color));
}

pub fn encode_style(style: JournalStyle, output: &mut Vec<u8>)
    ensures
        final(output)@ == old(output)@ + style_bytes(style),
{
    encode_color(style.foreground, output);
    encode_color(style.background, output);
    let mut flags: u8 = 0;
    if style.bold {
        flags = flags + 1;
    }
    if style.italic {
        flags = flags + 2;
    }
    if style.underline {
        flags = flags + 4;
    }
    if style.inverse {
        flags = flags + 8;
    }
    output.push(flags);
    assert(output@ =~= old(output)@ + style_bytes(style));
}

pub fn decode_color(input: &[u8]) -> (color: Option<JournalColor>)
    ensures
        match color {
            Some(color) => input@ == color_bytes(color),
            None => forall|color: JournalColor| input@ != #[trigger] color_bytes(color),
        },
{
    if input.len() != 4 {
        return None;
    }
    let (kind, first, second, third) = (input[0], input[1], input[2], input[3]);
    if kind == 0 && first == 0 && second == 0 && third == 0 {
        assert(input@ =~= color_bytes(JournalColor::Default));
        Some(JournalColor::Default)
    } else if kind == 1 && second == 0 && third == 0 {
        assert(input@ =~= color_bytes(JournalColor::Indexed(first)));
        Some(JournalColor::Indexed(first))
    } else if kind == 2 {
        assert(input@ =~= color_bytes(JournalColor::Rgb(first, second, third)));
        Some(JournalColor::Rgb(first, second, third))
    } else {
        assert forall|color: JournalColor| input@ != #[trigger] color_bytes(color) by {
            let encoded = color_bytes(color);
            assert(encoded[0] != kind || encoded[1] != first || encoded[2] != second || encoded[3]
                != third);
        }
        None
    }
}

pub fn decode_style(input: &[u8]) -> (style: Option<JournalStyle>)
    requires
        input@.len() == 9,
    ensures
        match style {
            Some(style) => input@ == style_bytes(style),
            None => forall|style: JournalStyle| input@ != #[trigger] style_bytes(style),
        },
{
    let flags: u8 = input[8];
    if flags > 0x0f {
        assert forall|style: JournalStyle| input@ != #[trigger] style_bytes(style) by {
            assert(style_bytes(style)[8] == style_flags(style));
        }
        return None;
    }
    let front = vstd::slice::slice_subrange(input, 0, 4);
    let back = vstd::slice::slice_subrange(input, 4, 8);
    let foreground = match decode_color(front) {
        Some(color) => color,
        None => {
            assert forall|style: JournalStyle| input@ != #[trigger] style_bytes(style) by {
                assert(style_bytes(style).subrange(0, 4) =~= color_bytes(style.foreground));
            }
            return None;
        },
    };
    let background = match decode_color(back) {
        Some(color) => color,
        None => {
            assert forall|style: JournalStyle| input@ != #[trigger] style_bytes(style) by {
                assert(style_bytes(style).subrange(4, 8) =~= color_bytes(style.background));
            }
            return None;
        },
    };
    let style = JournalStyle {
        foreground,
        background,
        bold: flags % 2 != 0,
        italic: (flags / 2) % 2 != 0,
        underline: (flags / 4) % 2 != 0,
        inverse: (flags / 8) % 2 != 0,
    };
    assert(style_flags(style) == flags);
    assert(input@ =~= style_bytes(style));
    Some(style)
}

/// Different styles have different encodings.
pub proof fn law_style_bytes_injective(left: JournalStyle, right: JournalStyle)
    requires
        style_bytes(left) == style_bytes(right),
    ensures
        left == right,
{
    assert(style_bytes(left).subrange(0, 4) =~= color_bytes(left.foreground));
    assert(style_bytes(right).subrange(0, 4) =~= color_bytes(right.foreground));
    assert(style_bytes(left).subrange(4, 8) =~= color_bytes(left.background));
    assert(style_bytes(right).subrange(4, 8) =~= color_bytes(right.background));
    let lf = color_bytes(left.foreground);
    let rf = color_bytes(right.foreground);
    assert(lf[0] == rf[0] && lf[1] == rf[1] && lf[2] == rf[2] && lf[3] == rf[3]);
    let lb = color_bytes(left.background);
    let rb = color_bytes(right.background);
    assert(lb[0] == rb[0] && lb[1] == rb[1] && lb[2] == rb[2] && lb[3] == rb[3]);
    assert(style_bytes(left)[8] == style_flags(left));
    assert(style_bytes(right)[8] == style_flags(right));
}

/// A checkpoint names one state: two states with the same bytes are equal.
pub proof fn law_state_bytes_injective(left: AnsiModel, right: AnsiModel)
    requires
        left.wf(),
        right.wf(),
        state_bytes(left) == state_bytes(right),
    ensures
        left == right,
{
    let l = state_bytes(left);
    let r = state_bytes(right);
    assert(l[0] == left.machine.code() && l[1] == left.csi_len as u8 && l[2] == flag(
        left.csi_overflow,
        1,
    ));
    assert(r[0] == right.machine.code() && r[1] == right.csi_len as u8 && r[2] == flag(
        right.csi_overflow,
        1,
    ));
    assert(l.subrange(4, 68) =~= left.csi);
    assert(r.subrange(4, 68) =~= right.csi);
    assert(l.subrange(68, 77) =~= style_bytes(left.style));
    assert(r.subrange(68, 77) =~= style_bytes(right.style));
    law_style_bytes_injective(left.style, right.style);
    assert(left.machine == right.machine);
}

impl AnsiState {
    /// Appends a checkpoint of the machine.
    pub fn encode(self, output: &mut Vec<u8>)
        requires
            self@.wf(),
        ensures
            final(output)@ == old(output)@ + state_bytes(self@),
            state_bytes(self@).len() == ANSI_STATE_BYTES,
    {
        output.push(self.machine.encode());
        output.push(self.csi_len);
        output.push(
            if self.csi_overflow {
                1
            } else {
                0
            },
        );
        output.push(0);
        output.extend_from_slice(self.csi.as_slice());
        encode_style(self.style, output);
        output.push(0);
        output.push(0);
        output.push(0);
        assert(output@ =~= old(output)@ + state_bytes(self@));
    }

    /// Reads a checkpoint back. Bytes that no state encodes to are refused.
    pub fn decode(input: &[u8]) -> (state: Option<Self>)
        ensures
            match state {
                Some(state) => state@.wf() && input@ == state_bytes(state@),
                None => forall|state: AnsiModel|
                    state.wf() ==> input@ != #[trigger] state_bytes(state),
            },
    {
        if input.len() != ANSI_STATE_BYTES {
            return None;
        }
        proof {
            assert forall|state: AnsiModel| state.wf() implies {
                let bytes = #[trigger] state_bytes(state);
                &&& bytes[0] == state.machine.code()
                &&& bytes[1] == state.csi_len
                &&& bytes[2] == flag(state.csi_overflow, 1)
                &&& bytes[3] == 0
                &&& bytes.subrange(68, 77) == style_bytes(state.style)
                &&& bytes[77] == 0
                &&& bytes[78] == 0
                &&& bytes[79] == 0
            } by {
                assert(state_bytes(state).subrange(68, 77) =~= style_bytes(state.style));
            }
        }
        if input[3] != 0 || input[77] != 0 || input[78] != 0 || input[79] != 0 {
            return None;
        }
        let machine = match MachineState::decode(input[0]) {
            Some(machine) => machine,
            None => return None,
        };
        let csi_len: u8 = input[1];
        if csi_len as usize > MAX_CSI_BYTES || input[2] > 1 {
            return None;
        }
        let mut csi: [u8; 64] = [0u8; 64];
        let mut index: usize = 0;
        while index < MAX_CSI_BYTES
            invariant
                index <= MAX_CSI_BYTES,
                input@.len() == ANSI_STATE_BYTES,
                csi@.len() == 64,
                forall|i: int| 0 <= i < index ==> csi@[i] == input@[i + 4],
            decreases MAX_CSI_BYTES - index,
        {
            csi[index] = input[index + 4];
            index += 1;
        }
        let style_part = vstd::slice::slice_subrange(input, 68, 77);
        let style = match decode_style(style_part) {
            Some(style) => style,
            None => return None,
        };
        let state = AnsiState { machine, csi, csi_len, csi_overflow: input[2] != 0, style };
        assert(input@.subrange(68, 77) =~= style_bytes(style));
        assert(input@ =~= state_bytes(state@)) by {
            assert forall|i: int| 0 <= i < 80 implies input@[i] == state_bytes(state@)[i] by {
                if 68 <= i < 77 {
                    assert(input@[i] == input@.subrange(68, 77)[i - 68]);
                }
            }
        }
        Some(state)
    }
}

/// Encoding a state and decoding the bytes gives the state back, so a reader
/// that restarts from a checkpoint goes on as if it had never stopped.
pub proof fn law_checkpoint_round_trip(state: AnsiModel, decoded: AnsiModel)
    requires
        state.wf(),
        decoded.wf(),
        state_bytes(decoded) == state_bytes(state),
    ensures
        decoded == state,
        forall|input: Seq<u8>| #[trigger] run(decoded, input) == run(state, input),
{
    law_state_bytes_injective(decoded, state);
}

// ---------------------------------------------------------------------------
// Reading.

impl AnsiState {
    /// Reads one byte.
    pub fn process(&mut self, byte: u8)
        requires
            old(self)@.wf(),
        ensures
            final(self)@ == step(old(self)@, byte),
            final(self)@.wf(),
    {
        proof {
            reveal(step);
        }
        match self.machine {
            MachineState::Ground => {
                if byte == 0x1b {
                    self.machine = MachineState::Escape;
                }
            },
            MachineState::Escape => {
                if byte == 0x5b {
                    self.csi_len = 0;
                    self.csi_overflow = false;
                    self.machine = MachineState::Csi;
                } else if byte == 0x5d {
                    self.machine = MachineState::Osc;
                } else if byte == 0x50 || byte == 0x58 || byte == 0x5e || byte == 0x5f {
                    self.machine = MachineState::ControlString;
                } else {
                    self.machine = MachineState::Ground;
                }
            },
            MachineState::Csi => {
                if 0x40 <= byte && byte <= 0x7e {
                    if byte == 0x6d && !self.csi_overflow {
                        let buffer: [u8; 64] = self.csi;
                        let parameters = vstd::slice::slice_subrange(
                            buffer.as_slice(),
                            0,
                            self.csi_len as usize,
                        );
                        self.apply_sgr(parameters);
                        assert(parameters@ =~= old(self)@.csi.take(old(self)@.csi_len));
                    }
                    self.machine = MachineState::Ground;
                    self.csi_len = 0;
                    self.csi_overflow = false;
                } else if 0x20 <= byte && byte <= 0x3f {
                    let index: usize = self.csi_len as usize;
                    if index < MAX_CSI_BYTES {
                        self.csi[index] = byte;
                        self.csi_len = self.csi_len + 1;
                    } else {
                        self.csi_overflow = true;
                    }
                }
            },
            MachineState::Osc => {
                if byte == 0x07 {
                    self.machine = MachineState::Ground;
                } else if byte == 0x1b {
                    self.machine = MachineState::OscEscape;
                }
            },
            MachineState::OscEscape => {
                self.machine = if byte == 0x5c {
                    MachineState::Ground
                } else {
                    MachineState::Osc
                };
            },
            MachineState::ControlString => {
                if byte == 0x1b {
                    self.machine = MachineState::ControlStringEscape;
                }
            },
            MachineState::ControlStringEscape => {
                self.machine = if byte == 0x5c {
                    MachineState::Ground
                } else {
                    MachineState::ControlString
                };
            },
        }
        assert(self@ =~= step(old(self)@, byte));
    }

    /// Reads all of `input`, keeping only the state it leaves.
    pub fn advance(&mut self, input: &[u8])
        requires
            old(self)@.wf(),
        ensures
            final(self)@ == run(old(self)@, input@),
            final(self)@.wf(),
    {
        let mut position: usize = 0;
        assert(input@.take(0) =~= Seq::<u8>::empty());
        while position < input.len()
            invariant
                position <= input@.len(),
                self@.wf(),
                self@ == run(old(self)@, input@.take(position as int)),
            decreases input@.len() - position,
        {
            if self.machine == MachineState::Ground {
                let rest = vstd::slice::slice_subrange(input, position, input.len());
                match memchr::memchr(0x1b, rest) {
                    Some(escape) => {
                        proof {
                            assert forall|i: int| position <= i < position + escape implies input@[i]
                                != 0x1b by {
                                assert(rest@[i - position] != 0x1b);
                            }
                            lemma_ground_skips(
                                old(self)@,
                                input@,
                                position as int,
                                position + escape,
                            );
                        }
                        position = position + escape;
                    },
                    None => {
                        proof {
                            assert forall|i: int| position <= i < input@.len() implies input@[i]
                                != 0x1b by {
                                assert(rest@[i - position] != 0x1b);
                            }
                            lemma_ground_skips(
                                old(self)@,
                                input@,
                                position as int,
                                input@.len() as int,
                            );
                            assert(input@.take(input@.len() as int) =~= input@);
                        }
                        return;
                    },
                }
            }
            proof {
                assert(input@.take(position + 1).drop_last() =~= input@.take(position as int));
            }
            self.process(input[position]);
            position += 1;
        }
        assert(input@.take(input@.len() as int) =~= input@);
    }
}

/// Outside a sequence, bytes other than the escape byte change nothing.
proof fn lemma_ground_skips(state: AnsiModel, input: Seq<u8>, from: int, to: int)
    requires
        0 <= from <= to <= input.len(),
        run(state, input.take(from)).machine == MachineState::Ground,
        forall|i: int| from <= i < to ==> input[i] != 0x1b,
    ensures
        run(state, input.take(to)) == run(state, input.take(from)),
    decreases to - from,
{
    reveal(step);
    if from < to {
        lemma_ground_skips(state, input, from, to - 1);
        assert(input.take(to).drop_last() =~= input.take(to - 1));
    }
}

} // verus!
