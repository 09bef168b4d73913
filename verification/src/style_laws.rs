//! What escape sequences do to the style of text, told by their bytes.
use crate::ansi::{
    all_digits, basic_sgr, colon_sgr, decimal, is_digit, law_run_splits, plain_style, run,
    semicolon_color, sgr, sgr_from, sgr_number, split_on, step, unsigned_part, AnsiModel,
    JournalColor, JournalStyle, MachineState, MAX_SGR_PARAMETERS,
};
use vstd::prelude::*;

verus! {

/// The digit that writes a number below ten.
pub open spec fn digit(number: int) -> u8 {
    (48 + number) as u8
}

/// A style sequence: escape, bracket, the parameters and an m.
pub open spec fn style_sequence(parameters: Seq<u8>) -> Seq<u8> {
    seq![0x1bu8, 0x5bu8] + parameters + seq![0x6du8]
}

/// The machine stands outside sequences.
pub open spec fn at_rest(state: AnsiModel) -> bool {
    state.wf() && state.machine == MachineState::Ground
}

/// The machine is back outside sequences, with this style.
pub open spec fn leaves(after: AnsiModel, style: JournalStyle) -> bool {
    at_rest(after) && after.style == style
}

// ---------------------------------------------------------------------------
// Reading a sequence.

proof fn lemma_run_two(state: AnsiModel)
    requires
        at_rest(state),
    ensures
        run(state, seq![0x1bu8, 0x5bu8]) == (AnsiModel {
            machine: MachineState::Csi,
            csi_len: 0,
            csi_overflow: false,
            ..state
        }),
{
    reveal(step);
    let both = seq![0x1bu8, 0x5bu8];
    assert(both.drop_last() =~= seq![0x1bu8]);
    assert(both.drop_last().drop_last() =~= Seq::<u8>::empty());
    assert(run(state, both.drop_last().drop_last()) == state);
    assert(run(state, both.drop_last()) == step(state, 0x1b));
}

pub proof fn lemma_run_parameters(state: AnsiModel, parameters: Seq<u8>)
    requires
        at_rest(state),
        parameters.len() <= 64,
        forall|i: int| 0 <= i < parameters.len() ==> 0x20 <= #[trigger] parameters[i] <= 0x3f,
    ensures
        ({
            let after = run(state, seq![0x1bu8, 0x5bu8] + parameters);
            &&& after.machine == MachineState::Csi
            &&& after.wf()
            &&& after.csi_len == parameters.len()
            &&& after.csi.take(after.csi_len) == parameters
            &&& !after.csi_overflow
            &&& after.style == state.style
        }),
    decreases parameters.len(),
{
    reveal(step);
    let start = seq![0x1bu8, 0x5bu8];
    if parameters.len() == 0 {
        assert(start + parameters =~= start);
        lemma_run_two(state);
        assert(run(state, start).csi.take(0) =~= parameters);
    } else {
        let front = parameters.drop_last();
        assert forall|i: int| 0 <= i < front.len() implies 0x20 <= #[trigger] front[i] <= 0x3f by {
            assert(front[i] == parameters[i]);
        }
        lemma_run_parameters(state, front);
        assert((start + parameters).drop_last() =~= start + front);
        let before = run(state, start + front);
        let last = parameters[parameters.len() - 1];
        assert((start + parameters).last() == last);
        let after = step(before, last);
        assert(after.csi.take(after.csi_len) =~= parameters) by {
            assert forall|i: int| 0 <= i < parameters.len() implies after.csi[i]
                == parameters[i] by {
                if i < front.len() {
                    assert(before.csi.take(before.csi_len)[i] == front[i]);
                }
            }
        }
    }
}

/// Reading a style sequence applies its parameters.
proof fn lemma_style_sequence(state: AnsiModel, parameters: Seq<u8>)
    requires
        at_rest(state),
        parameters.len() <= 64,
        forall|i: int| 0 <= i < parameters.len() ==> 0x20 <= #[trigger] parameters[i] <= 0x3f,
    ensures
        leaves(run(state, style_sequence(parameters)), sgr(state.style, parameters)),
{
    reveal(step);
    lemma_run_parameters(state, parameters);
    let all = style_sequence(parameters);
    assert(all.drop_last() =~= seq![0x1bu8, 0x5bu8] + parameters);
    assert(all.last() == 0x6d);
}

// ---------------------------------------------------------------------------
// Single parameters.

proof fn lemma_split_whole(parameters: Seq<u8>, separator: u8)
    requires
        !parameters.contains(separator),
    ensures
        split_on(parameters, separator) == seq![parameters],
    decreases parameters.len(),
{
    if parameters.len() == 0 {
        assert(parameters =~= Seq::<u8>::empty());
    } else {
        let front = parameters.drop_last();
        assert(!front.contains(separator)) by {
            if front.contains(separator) {
                let i = choose|i: int| 0 <= i < front.len() && front[i] == separator;
                assert(parameters[i] == separator);
            }
        }
        lemma_split_whole(front, separator);
        assert(parameters[parameters.len() - 1] != separator);
        assert(split_on(parameters, separator) =~= seq![parameters]) by {
            assert(front.push(parameters.last()) =~= parameters);
        }
    }
}

proof fn lemma_split_joined(first: Seq<u8>, rest: Seq<u8>, separator: u8)
    requires
        !first.contains(separator),
    ensures
        split_on(first.push(separator) + rest, separator) == seq![first] + split_on(rest, separator),
        split_on(rest, separator).len() > 0,
    decreases rest.len(),
{
    let all = first.push(separator) + rest;
    if rest.len() == 0 {
        assert(all.drop_last() =~= first);
        lemma_split_whole(first, separator);
        assert(all.last() == separator);
        assert(split_on(all, separator) =~= seq![first] + split_on(rest, separator));
    } else {
        assert(all.drop_last() =~= first.push(separator) + rest.drop_last());
        lemma_split_joined(first, rest.drop_last(), separator);
        let before = split_on(rest.drop_last(), separator);
        let joined = seq![first] + before;
        assert(joined.last() == before.last());
        assert(joined.drop_last() =~= seq![first] + before.drop_last());
        assert(split_on(all, separator) =~= seq![first] + split_on(rest, separator));
    }
}

/// A parameter of digits alone is the number that they write.
proof fn lemma_number(digits: Seq<u8>, number: int, empty_is_zero: bool)
    requires
        digits.len() > 0,
        all_digits(digits),
        decimal(digits) == number,
        number <= 0xffff,
    ensures
        sgr_number(digits, empty_is_zero) == Some(number as u16),
        !digits.contains(0x3a),
        !digits.contains(0x3b),
{
    assert(is_digit(digits[0]));
    assert(unsigned_part(digits) == digits);
    if digits.contains(0x3a) {
        let i = choose|i: int| 0 <= i < digits.len() && digits[i] == 0x3a;
        assert(is_digit(digits[i]));
    }
    if digits.contains(0x3b) {
        let i = choose|i: int| 0 <= i < digits.len() && digits[i] == 0x3b;
        assert(is_digit(digits[i]));
    }
}

proof fn lemma_digits_one(a: int)
    requires
        0 <= a < 10,
    ensures
        all_digits(seq![digit(a)]),
        decimal(seq![digit(a)]) == a,
{
    let one = seq![digit(a)];
    assert(one.drop_last() =~= Seq::<u8>::empty());
    assert(decimal(one.drop_last()) == 0);
}

proof fn lemma_digits_two(a: int, b: int)
    requires
        0 <= a < 10,
        0 <= b < 10,
    ensures
        all_digits(seq![digit(a), digit(b)]),
        decimal(seq![digit(a), digit(b)]) == 10 * a + b,
{
    let two = seq![digit(a), digit(b)];
    lemma_digits_one(a);
    assert(two.drop_last() =~= seq![digit(a)]);
}

proof fn lemma_digits_three(a: int, b: int, c: int)
    requires
        0 <= a < 10,
        0 <= b < 10,
        0 <= c < 10,
    ensures
        all_digits(seq![digit(a), digit(b), digit(c)]),
        decimal(seq![digit(a), digit(b), digit(c)]) == 100 * a + 10 * b + c,
{
    let three = seq![digit(a), digit(b), digit(c)];
    lemma_digits_two(a, b);
    assert(three.drop_last() =~= seq![digit(a), digit(b)]);
}

/// A sequence of one number applies the number.
proof fn lemma_one_code(state: AnsiModel, digits: Seq<u8>, number: int)
    requires
        at_rest(state),
        0 < digits.len() <= 64,
        all_digits(digits),
        decimal(digits) == number,
        number <= 0xffff,
    ensures
        leaves(
            run(state, style_sequence(digits)),
            if number == 38 || number == 48 {
                state.style
            } else {
                basic_sgr(state.style, number as u16)
            },
        ),
{
    assert forall|i: int| 0 <= i < digits.len() implies 0x20 <= #[trigger] digits[i] <= 0x3f by {
        assert(is_digit(digits[i]));
    }
    lemma_style_sequence(state, digits);
    lemma_number(digits, number, true);
    lemma_split_whole(digits, 0x3b);
    let parameters = split_on(digits, 0x3b);
    assert(parameters[0] == digits);
    assert(semicolon_color(parameters, 0) is None);
    let next = if number == 38 || number == 48 {
        state.style
    } else {
        basic_sgr(state.style, number as u16)
    };
    assert(sgr_from(next, parameters, 1) == next);
    assert(sgr_from(state.style, parameters, 0) == next);
}

// ---------------------------------------------------------------------------
// Laws.

/// The eight colors and their bright forms: 30 to 37 and 90 to 97 set the
/// foreground, 40 to 47 and 100 to 107 the background, and nothing else.
pub proof fn law_color_codes_set_one_color(state: AnsiModel, n: int)
    requires
        at_rest(state),
        0 <= n < 8,
    ensures
        leaves(
            run(state, style_sequence(seq![0x33u8, digit(n)])),
            JournalStyle { foreground: JournalColor::Indexed(n as u8), ..state.style },
        ),
        leaves(
            run(state, style_sequence(seq![0x34u8, digit(n)])),
            JournalStyle { background: JournalColor::Indexed(n as u8), ..state.style },
        ),
        leaves(
            run(state, style_sequence(seq![0x39u8, digit(n)])),
            JournalStyle { foreground: JournalColor::Indexed((n + 8) as u8), ..state.style },
        ),
        leaves(
            run(state, style_sequence(seq![0x31u8, 0x30u8, digit(n)])),
            JournalStyle { background: JournalColor::Indexed((n + 8) as u8), ..state.style },
        ),
{
    lemma_digits_two(3, n);
    lemma_one_code(state, seq![digit(3), digit(n)], 30 + n);
    lemma_digits_two(4, n);
    lemma_one_code(state, seq![digit(4), digit(n)], 40 + n);
    lemma_digits_two(9, n);
    lemma_one_code(state, seq![digit(9), digit(n)], 90 + n);
    lemma_digits_three(1, 0, n);
    lemma_one_code(state, seq![digit(1), digit(0), digit(n)], 100 + n);
}

/// 39 and 49 give the foreground and the background back their default, and
/// change nothing else.
pub proof fn law_default_color_codes(state: AnsiModel)
    requires
        at_rest(state),
    ensures
        leaves(
            run(state, style_sequence(seq![0x33u8, 0x39u8])),
            JournalStyle { foreground: JournalColor::Default, ..state.style },
        ),
        leaves(
            run(state, style_sequence(seq![0x34u8, 0x39u8])),
            JournalStyle { background: JournalColor::Default, ..state.style },
        ),
{
    lemma_digits_two(3, 9);
    lemma_one_code(state, seq![digit(3), digit(9)], 39);
    lemma_digits_two(4, 9);
    lemma_one_code(state, seq![digit(4), digit(9)], 49);
}

/// 1, 3, 4 and 7 make text bold, italic, underlined and inverse; 22, 23, 24
/// and 27 undo each its own. None changes anything else.
pub proof fn law_flag_codes_set_one_flag(state: AnsiModel)
    requires
        at_rest(state),
    ensures
        leaves(
            run(state, style_sequence(seq![0x31u8])),
            JournalStyle { bold: true, ..state.style },
        ),
        leaves(
            run(state, style_sequence(seq![0x33u8])),
            JournalStyle { italic: true, ..state.style },
        ),
        leaves(
            run(state, style_sequence(seq![0x34u8])),
            JournalStyle { underline: true, ..state.style },
        ),
        leaves(
            run(state, style_sequence(seq![0x37u8])),
            JournalStyle { inverse: true, ..state.style },
        ),
        leaves(
            run(state, style_sequence(seq![0x32u8, 0x32u8])),
            JournalStyle { bold: false, ..state.style },
        ),
        leaves(
            run(state, style_sequence(seq![0x32u8, 0x33u8])),
            JournalStyle { italic: false, ..state.style },
        ),
        leaves(
            run(state, style_sequence(seq![0x32u8, 0x34u8])),
            JournalStyle { underline: false, ..state.style },
        ),
        leaves(
            run(state, style_sequence(seq![0x32u8, 0x37u8])),
            JournalStyle { inverse: false, ..state.style },
        ),
{
    lemma_digits_one(1);
    lemma_one_code(state, seq![digit(1)], 1);
    lemma_digits_one(3);
    lemma_one_code(state, seq![digit(3)], 3);
    lemma_digits_one(4);
    lemma_one_code(state, seq![digit(4)], 4);
    lemma_digits_one(7);
    lemma_one_code(state, seq![digit(7)], 7);
    lemma_digits_two(2, 2);
    lemma_one_code(state, seq![digit(2), digit(2)], 22);
    lemma_digits_two(2, 3);
    lemma_one_code(state, seq![digit(2), digit(3)], 23);
    lemma_digits_two(2, 4);
    lemma_one_code(state, seq![digit(2), digit(4)], 24);
    lemma_digits_two(2, 7);
    lemma_one_code(state, seq![digit(2), digit(7)], 27);
}

/// A sequence without parameters, and one with a zero, make text plain:
/// default colors, not bold, not italic, not underlined, not inverse.
pub proof fn law_reset_makes_text_plain(state: AnsiModel)
    requires
        at_rest(state),
    ensures
        ({
            let plain = JournalStyle {
                foreground: JournalColor::Default,
                background: JournalColor::Default,
                bold: false,
                italic: false,
                underline: false,
                inverse: false,
            };
            &&& leaves(run(state, style_sequence(Seq::empty())), plain)
            &&& leaves(run(state, style_sequence(seq![0x30u8])), plain)
            &&& AnsiModel::initial().style == plain
        }),
{
    lemma_style_sequence(state, Seq::empty());
    lemma_digits_one(0);
    lemma_one_code(state, seq![digit(0)], 0);
}

/// Numbers that mean nothing change nothing.
pub proof fn law_unknown_codes_change_nothing(state: AnsiModel, a: int, b: int, c: int)
    requires
        at_rest(state),
        0 <= a < 10,
        0 <= b < 10,
        0 <= c < 10,
        ({
            let code = 100 * a + 10 * b + c;
            &&& ![0int, 1, 3, 4, 7, 22, 23, 24, 27]@.contains(code)
            &&& !(30 <= code <= 37) && code != 39
            &&& !(40 <= code <= 47) && code != 49
            &&& !(90 <= code <= 97) && !(100 <= code <= 107)
        }),
    ensures
        leaves(run(state, style_sequence(seq![digit(a), digit(b), digit(c)])), state.style),
{
    let code = 100 * a + 10 * b + c;
    let known = [0int, 1, 3, 4, 7, 22, 23, 24, 27]@;
    assert(known[0] == 0 && known[1] == 1 && known[2] == 3 && known[3] == 4 && known[4] == 7
        && known[5] == 22 && known[6] == 23 && known[7] == 24 && known[8] == 27);
    lemma_digits_three(a, b, c);
    lemma_one_code(state, seq![digit(a), digit(b), digit(c)], code);
}

proof fn lemma_shifted(style: JournalStyle, first: Seq<u8>, rest: Seq<Seq<u8>>, index: int)
    requires
        0 <= index <= rest.len(),
    ensures
        sgr_from(style, seq![first] + rest, index + 1) == sgr_from(style, rest, index),
    decreases rest.len() - index,
{
    let all = seq![first] + rest;
    if index < rest.len() {
        assert(all[index + 1] == rest[index]);
        assert(index + 2 < rest.len() ==> all[index + 2] == rest[index + 1] && all[index + 3]
            == rest[index + 2]);
        assert(index + 4 < rest.len() ==> all[index + 4] == rest[index + 3] && all[index + 5]
            == rest[index + 4]);
        assert(semicolon_color(all, index + 1) == semicolon_color(rest, index));
        if rest[index].contains(0x3a) {
            lemma_shifted(colon_sgr(style, rest[index]), first, rest, index + 1);
        } else {
            match sgr_number(rest[index], true) {
                None => {},
                Some(value) => {
                    if value == 38 || value == 48 {
                        match semicolon_color(rest, index) {
                            Some((color, taken)) => {
                                let next = crate::ansi::with_color(style, value == 38, color);
                                if taken == 5 {
                                    lemma_shifted(next, first, rest, index + 5);
                                } else {
                                    lemma_shifted(next, first, rest, index + 3);
                                }
                            },
                            None => {
                                lemma_shifted(style, first, rest, index + 1);
                            },
                        }
                    } else {
                        lemma_shifted(basic_sgr(style, value), first, rest, index + 1);
                    }
                },
            }
        }
    }
}

/// Codes in one sequence are applied one after the other, as if each stood in
/// a sequence of its own: a code other than 38 and 48, and what follows it
/// behind a semicolon.
pub proof fn law_codes_follow_one_another(state: AnsiModel, code: Seq<u8>, rest: Seq<u8>)
    requires
        at_rest(state),
        code.len() > 0,
        forall|i: int| 0 <= i < code.len() ==> 0x30 <= #[trigger] code[i] <= 0x39,
        forall|i: int| 0 <= i < rest.len() ==> 0x20 <= #[trigger] rest[i] <= 0x3f,
        code.len() + 1 + rest.len() <= 64,
        sgr_number(code, true) is Some,
        sgr_number(code, true) != Some(38u16),
        sgr_number(code, true) != Some(48u16),
        split_on(rest, 0x3b).len() < MAX_SGR_PARAMETERS,
    ensures
        leaves(
            run(state, style_sequence(code.push(0x3b) + rest)),
            run(run(state, style_sequence(code)), style_sequence(rest)).style,
        ),
{
    let all = code.push(0x3b) + rest;
    assert forall|i: int| 0 <= i < all.len() implies 0x20 <= #[trigger] all[i] <= 0x3f by {
        if i < code.len() {
            assert(all[i] == code[i]);
        } else if i > code.len() {
            assert(all[i] == rest[i - code.len() - 1]);
        }
    }
    assert forall|i: int| 0 <= i < code.len() implies 0x20 <= #[trigger] code[i] <= 0x3f by {}
    lemma_style_sequence(state, all);
    lemma_style_sequence(state, code);
    let middle = run(state, style_sequence(code));
    lemma_style_sequence(middle, rest);
    assert(!code.contains(0x3b)) by {
        if code.contains(0x3b) {
            let i = choose|i: int| 0 <= i < code.len() && code[i] == 0x3b;
            assert(code[i] <= 0x39);
        }
    }
    assert(!code.contains(0x3a)) by {
        if code.contains(0x3a) {
            let i = choose|i: int| 0 <= i < code.len() && code[i] == 0x3a;
            assert(code[i] <= 0x39);
        }
    }
    lemma_split_joined(code, rest, 0x3b);
    lemma_split_whole(code, 0x3b);
    let value = sgr_number(code, true)->0;
    let next = basic_sgr(state.style, value);
    let parameters = split_on(all, 0x3b);
    let others = split_on(rest, 0x3b);
    assert(parameters[0] == code);
    lemma_shifted(next, code, others, 0);
    assert(sgr_from(state.style, parameters, 0) == sgr_from(next, parameters, 1));
    assert(split_on(code, 0x3b)[0] == code);
    assert(sgr_from(next, split_on(code, 0x3b), 1) == next);
    assert(sgr(state.style, code) == next);
    if rest.len() == 0 {
        assert(others[0] == rest);
        assert(!rest.contains(0x3a));
        assert(sgr_number(rest, true) == Some(0u16));
        assert(sgr_from(plain_style(), others, 1) == plain_style());
        assert(sgr_from(next, others, 0) == plain_style());
    }
}

/// The bytes of a color code: 38 or 48.
pub open spec fn color_code(foreground: bool) -> Seq<u8> {
    if foreground {
        seq![0x33u8, 0x38u8]
    } else {
        seq![0x34u8, 0x38u8]
    }
}

/// The style with a color for the foreground or for the background.
pub open spec fn colored(style: JournalStyle, foreground: bool, color: JournalColor) -> JournalStyle {
    if foreground {
        JournalStyle { foreground: color, ..style }
    } else {
        JournalStyle { background: color, ..style }
    }
}

proof fn lemma_color_code(foreground: bool)
    ensures
        all_digits(color_code(foreground)),
        decimal(color_code(foreground)) == if foreground {
            38int
        } else {
            48
        },
{
    lemma_digits_two(3, 8);
    lemma_digits_two(4, 8);
}

/// The parameters of a sequence whose fields are digits, joined by a separator.
proof fn lemma_three_fields(first: Seq<u8>, second: Seq<u8>, third: Seq<u8>, separator: u8)
    requires
        all_digits(first),
        all_digits(second),
        all_digits(third),
        separator == 0x3a || separator == 0x3b,
    ensures
        split_on(first.push(separator) + (second.push(separator) + third), separator) == seq![
            first,
            second,
            third,
        ],
        forall|i: int|
            0 <= i < (first.push(separator) + (second.push(separator) + third)).len() ==> 0x20
                <= #[trigger] (first.push(separator) + (second.push(separator) + third))[i] <= 0x3f,
{
    lemma_no_separator(first, separator);
    lemma_no_separator(second, separator);
    lemma_no_separator(third, separator);
    lemma_split_whole(third, separator);
    lemma_split_joined(second, third, separator);
    lemma_split_joined(first, second.push(separator) + third, separator);
    assert(seq![first] + (seq![second] + seq![third]) =~= seq![first, second, third]);
    let all = first.push(separator) + (second.push(separator) + third);
    assert forall|i: int| 0 <= i < all.len() implies 0x20 <= #[trigger] all[i] <= 0x3f by {
        let j = i - first.len() - 1;
        let k = j - second.len() - 1;
        if i < first.len() {
            assert(is_digit(first[i]));
        } else if 0 <= j < second.len() {
            assert(is_digit(second[j]));
        } else if 0 <= k {
            assert(is_digit(third[k]));
        }
    }
}

proof fn lemma_no_separator(digits: Seq<u8>, separator: u8)
    requires
        all_digits(digits),
        separator == 0x3a || separator == 0x3b,
    ensures
        !digits.contains(separator),
{
    if digits.contains(separator) {
        let i = choose|i: int| 0 <= i < digits.len() && digits[i] == separator;
        assert(is_digit(digits[i]));
    }
}

/// The fields of a color, one of digits after the other.
proof fn lemma_color_fields(foreground: bool, five: Seq<u8>, number: Seq<u8>, value: int)
    requires
        five == seq![0x35u8],
        number.len() > 0,
        all_digits(number),
        decimal(number) == value,
        value <= 255,
    ensures
        ({
            let code = color_code(foreground);
            &&& all_digits(code)
            &&& all_digits(five)
            &&& !code.contains(0x3a)
            &&& sgr_number(code, true) == Some(if foreground {
                38u16
            } else {
                48u16
            })
            &&& sgr_number(code, false) == sgr_number(code, true)
            &&& sgr_number(five, true) == Some(5u16)
            &&& sgr_number(five, false) == Some(5u16)
            &&& sgr_number(number, true) == Some(value as u16)
            &&& sgr_number(number, false) == Some(value as u16)
        }),
{
    let code = color_code(foreground);
    lemma_number(number, value, true);
    lemma_number(number, value, false);
    lemma_color_code(foreground);
    lemma_number(code, decimal(code) as int, true);
    lemma_number(code, decimal(code) as int, false);
    lemma_digits_one(5);
    assert(five =~= seq![digit(5)]);
    lemma_number(five, 5, true);
    lemma_number(five, 5, false);
}

/// 38 and 48, a 5 and a number, with semicolons between them, set the
/// foreground and the background to the color with that number, and change
/// nothing else.
pub proof fn law_indexed_color(state: AnsiModel, foreground: bool, a: int, b: int, c: int)
    requires
        at_rest(state),
        0 <= a < 10,
        0 <= b < 10,
        0 <= c < 10,
        100 * a + 10 * b + c <= 255,
    ensures
        leaves(
            run(
                state,
                style_sequence(
                    color_code(foreground).push(0x3b) + (seq![0x35u8].push(0x3b) + seq![
                        digit(a),
                        digit(b),
                        digit(c),
                    ]),
                ),
            ),
            colored(
                state.style,
                foreground,
                JournalColor::Indexed((100 * a + 10 * b + c) as u8),
            ),
        ),
{
    let number = seq![digit(a), digit(b), digit(c)];
    let value = 100 * a + 10 * b + c;
    let code = color_code(foreground);
    let five = seq![0x35u8];
    let color = JournalColor::Indexed(value as u8);
    lemma_digits_three(a, b, c);
    lemma_color_fields(foreground, five, number, value);
    let apart = code.push(0x3b) + (five.push(0x3b) + number);
    lemma_three_fields(code, five, number, 0x3b);
    assert(apart.len() == 8);
    lemma_style_sequence(state, apart);
    let parameters = seq![code, five, number];
    let next = colored(state.style, foreground, color);
    assert(parameters[0] == code && parameters[1] == five && parameters[2] == number);
    assert(semicolon_color(parameters, 0) == Some((color, 3int)));
    assert(sgr_from(next, parameters, 3) == next);
    assert(sgr_from(state.style, parameters, 0) == next);
}

/// Colons may stand in place of the semicolons.
pub proof fn law_indexed_color_with_colons(
    state: AnsiModel,
    foreground: bool,
    a: int,
    b: int,
    c: int,
)
    requires
        at_rest(state),
        0 <= a < 10,
        0 <= b < 10,
        0 <= c < 10,
        100 * a + 10 * b + c <= 255,
    ensures
        leaves(
            run(
                state,
                style_sequence(
                    color_code(foreground).push(0x3a) + (seq![0x35u8].push(0x3a) + seq![
                        digit(a),
                        digit(b),
                        digit(c),
                    ]),
                ),
            ),
            colored(
                state.style,
                foreground,
                JournalColor::Indexed((100 * a + 10 * b + c) as u8),
            ),
        ),
{
    let number = seq![digit(a), digit(b), digit(c)];
    let value = 100 * a + 10 * b + c;
    let code = color_code(foreground);
    let five = seq![0x35u8];
    lemma_digits_three(a, b, c);
    lemma_color_fields(foreground, five, number, value);
    let close = code.push(0x3a) + (five.push(0x3a) + number);
    lemma_three_fields(code, five, number, 0x3a);
    assert(close.len() == 8);
    lemma_style_sequence(state, close);
    assert(close[2] == 0x3a);
    assert(close.contains(0x3a));
    assert(!close.contains(0x3b)) by {
        assert(close =~= seq![
            code[0],
            code[1],
            0x3au8,
            0x35u8,
            0x3au8,
            digit(a),
            digit(b),
            digit(c),
        ]);
        if close.contains(0x3b) {
            let i = choose|i: int| 0 <= i < close.len() && close[i] == 0x3b;
            assert(i < 8);
        }
    }
    lemma_colon_parameter(state.style, close);
    let parts = seq![code, five, number];
    assert(parts[0] == code && parts[1] == five && parts[2] == number);
}

/// A sequence of one parameter with colons applies the parameter.
proof fn lemma_colon_parameter(style: JournalStyle, parameter: Seq<u8>)
    requires
        parameter.contains(0x3a),
        !parameter.contains(0x3b),
    ensures
        sgr(style, parameter) == colon_sgr(style, parameter),
{
    lemma_split_whole(parameter, 0x3b);
    let parameters = split_on(parameter, 0x3b);
    assert(parameters[0] == parameter);
    let next = colon_sgr(style, parameter);
    assert(sgr_from(next, parameters, 1) == next);
}

/// A number below a thousand in three digits.
pub open spec fn three(number: int) -> Seq<u8> {
    seq![digit(number / 100), digit((number / 10) % 10), digit(number % 10)]
}

proof fn lemma_three(number: int)
    requires
        0 <= number <= 255,
    ensures
        three(number).len() == 3,
        all_digits(three(number)),
        sgr_number(three(number), true) == Some(number as u16),
        sgr_number(three(number), false) == Some(number as u16),
        !three(number).contains(0x3a),
        !three(number).contains(0x3b),
{
    let (a, b, c) = (number / 100, (number / 10) % 10, number % 10);
    assert(number == 100 * a + 10 * b + c);
    lemma_digits_three(a, b, c);
    lemma_number(three(number), number, true);
    lemma_number(three(number), number, false);
}

/// The fields of an explicit color, with a separator between them.
pub open spec fn color_fields(
    foreground: bool,
    red: u8,
    green: u8,
    blue: u8,
    separator: u8,
) -> Seq<u8> {
    color_code(foreground).push(separator) + (seq![0x32u8].push(separator) + (three(
        red as int,
    ).push(separator) + (three(green as int).push(separator) + three(blue as int))))
}

proof fn lemma_color_fields_split(
    foreground: bool,
    red: u8,
    green: u8,
    blue: u8,
    separator: u8,
)
    requires
        separator == 0x3a || separator == 0x3b,
    ensures
        ({
            let all = color_fields(foreground, red, green, blue, separator);
            &&& split_on(all, separator) == seq![
                color_code(foreground),
                seq![0x32u8],
                three(red as int),
                three(green as int),
                three(blue as int),
            ]
            &&& all.len() == 16
            &&& all[2] == separator
            &&& forall|i: int| 0 <= i < 16 ==> all[i] == separator || 0x30 <= #[trigger] all[i] <= 0x39
        }),
{
    let code = color_code(foreground);
    let two = seq![0x32u8];
    let (r, g, b) = (three(red as int), three(green as int), three(blue as int));
    lemma_color_code(foreground);
    lemma_digits_one(2);
    assert(two =~= seq![digit(2)]);
    lemma_three(red as int);
    lemma_three(green as int);
    lemma_three(blue as int);
    lemma_no_separator(code, separator);
    lemma_no_separator(two, separator);
    lemma_no_separator(r, separator);
    lemma_no_separator(g, separator);
    lemma_no_separator(b, separator);
    let tail_one = g.push(separator) + b;
    let tail_two = r.push(separator) + tail_one;
    let tail_three = two.push(separator) + tail_two;
    lemma_split_whole(b, separator);
    lemma_split_joined(g, b, separator);
    lemma_split_joined(r, tail_one, separator);
    lemma_split_joined(two, tail_two, separator);
    lemma_split_joined(code, tail_three, separator);
    assert(seq![code] + (seq![two] + (seq![r] + (seq![g] + seq![b]))) =~= seq![code, two, r, g, b]);
    let all = color_fields(foreground, red, green, blue, separator);
    assert(all =~= seq![
        code[0],
        code[1],
        separator,
        0x32u8,
        separator,
        r[0],
        r[1],
        r[2],
        separator,
        g[0],
        g[1],
        g[2],
        separator,
        b[0],
        b[1],
        b[2],
    ]);
    assert(is_digit(r[0]) && is_digit(r[1]) && is_digit(r[2]));
    assert(is_digit(g[0]) && is_digit(g[1]) && is_digit(g[2]));
    assert(is_digit(b[0]) && is_digit(b[1]) && is_digit(b[2]));
    assert(is_digit(code[0]) && is_digit(code[1]));
}

/// 38 and 48, a 2 and three numbers set the foreground and the background to
/// the color of these levels of red, green and blue, in this order, and change
/// nothing else.
pub proof fn law_explicit_color(state: AnsiModel, foreground: bool, red: u8, green: u8, blue: u8)
    requires
        at_rest(state),
    ensures
        leaves(
            run(state, style_sequence(color_fields(foreground, red, green, blue, 0x3b))),
            colored(state.style, foreground, JournalColor::Rgb(red, green, blue)),
        ),
{
    let all = color_fields(foreground, red, green, blue, 0x3b);
    lemma_color_fields_split(foreground, red, green, blue, 0x3b);
    lemma_three(red as int);
    lemma_three(green as int);
    lemma_three(blue as int);
    let code = color_code(foreground);
    let two = seq![0x32u8];
    lemma_color_code(foreground);
    lemma_number(code, decimal(code) as int, true);
    lemma_digits_one(2);
    assert(two =~= seq![digit(2)]);
    lemma_number(two, 2, true);
    lemma_style_sequence(state, all);
    let parameters = seq![
        code,
        two,
        three(red as int),
        three(green as int),
        three(blue as int),
    ];
    let color = JournalColor::Rgb(red, green, blue);
    let next = colored(state.style, foreground, color);
    assert(parameters[0] == code && parameters[1] == two && parameters[2] == three(red as int)
        && parameters[3] == three(green as int) && parameters[4] == three(blue as int));
    assert(semicolon_color(parameters, 0) == Some((color, 5int)));
    assert(sgr_from(next, parameters, 5) == next);
    assert(sgr_from(state.style, parameters, 0) == next);
}

/// Colons may stand in place of the semicolons of an explicit color.
pub proof fn law_explicit_color_with_colons(
    state: AnsiModel,
    foreground: bool,
    red: u8,
    green: u8,
    blue: u8,
)
    requires
        at_rest(state),
    ensures
        leaves(
            run(state, style_sequence(color_fields(foreground, red, green, blue, 0x3a))),
            colored(state.style, foreground, JournalColor::Rgb(red, green, blue)),
        ),
{
    let all = color_fields(foreground, red, green, blue, 0x3a);
    lemma_color_fields_split(foreground, red, green, blue, 0x3a);
    lemma_three(red as int);
    lemma_three(green as int);
    lemma_three(blue as int);
    let code = color_code(foreground);
    let two = seq![0x32u8];
    lemma_color_code(foreground);
    lemma_number(code, decimal(code) as int, false);
    lemma_digits_one(2);
    assert(two =~= seq![digit(2)]);
    lemma_number(two, 2, false);
    lemma_style_sequence(state, all);
    assert(all.contains(0x3a));
    assert(!all.contains(0x3b));
    lemma_colon_parameter(state.style, all);
    let fields = split_on(all, 0x3a);
    assert(fields[0] == code && fields[1] == two && fields[2] == three(red as int) && fields[3]
        == three(green as int) && fields[4] == three(blue as int));
}

/// A 4 with a colon and a digit behind it underlines text, in whatever form.
pub proof fn law_underline_forms(state: AnsiModel, form: int)
    requires
        at_rest(state),
        0 <= form < 10,
    ensures
        leaves(
            run(state, style_sequence(seq![0x34u8, 0x3au8, digit(form)])),
            JournalStyle { underline: true, ..state.style },
        ),
{
    let all = seq![0x34u8, 0x3au8, digit(form)];
    let four = seq![0x34u8];
    lemma_style_sequence(state, all);
    lemma_digits_one(4);
    assert(four =~= seq![digit(4)]);
    lemma_number(four, 4, false);
    lemma_digits_one(form);
    lemma_number(seq![digit(form)], form, false);
    lemma_split_whole(seq![digit(form)], 0x3a);
    lemma_split_joined(four, seq![digit(form)], 0x3a);
    assert(all =~= four.push(0x3a) + seq![digit(form)]);
    assert(all[1] == 0x3a);
    assert(all.contains(0x3a));
    assert(!all.contains(0x3b));
    lemma_colon_parameter(state.style, all);
    assert(split_on(all, 0x3a)[0] == four);
}

// ---------------------------------------------------------------------------
// Other sequences.

/// A control sequence that ends in anything but an m leaves the style alone.
pub proof fn law_other_sequences_keep_the_style(
    state: AnsiModel,
    parameters: Seq<u8>,
    ending: u8,
)
    requires
        at_rest(state),
        parameters.len() <= 64,
        forall|i: int| 0 <= i < parameters.len() ==> 0x20 <= #[trigger] parameters[i] <= 0x3f,
        0x40 <= ending <= 0x7e,
        ending != 0x6d,
    ensures
        leaves(run(state, seq![0x1bu8, 0x5bu8] + parameters + seq![ending]), state.style),
{
    reveal(step);
    lemma_run_parameters(state, parameters);
    let all = seq![0x1bu8, 0x5bu8] + parameters + seq![ending];
    assert(all.drop_last() =~= seq![0x1bu8, 0x5bu8] + parameters);
    assert(all.last() == ending);
}

proof fn lemma_run_overlong(state: AnsiModel, parameters: Seq<u8>)
    requires
        at_rest(state),
        parameters.len() > 64,
        forall|i: int| 0 <= i < parameters.len() ==> 0x20 <= #[trigger] parameters[i] <= 0x3f,
    ensures
        ({
            let after = run(state, seq![0x1bu8, 0x5bu8] + parameters);
            &&& after.machine == MachineState::Csi
            &&& after.wf()
            &&& after.csi_len == 64
            &&& after.csi_overflow
            &&& after.style == state.style
        }),
    decreases parameters.len(),
{
    reveal(step);
    let start = seq![0x1bu8, 0x5bu8];
    let front = parameters.drop_last();
    assert forall|i: int| 0 <= i < front.len() implies 0x20 <= #[trigger] front[i] <= 0x3f by {
        assert(front[i] == parameters[i]);
    }
    assert((start + parameters).drop_last() =~= start + front);
    let last = parameters[parameters.len() - 1];
    assert((start + parameters).last() == last);
    if front.len() > 64 {
        lemma_run_overlong(state, front);
    } else {
        lemma_run_parameters(state, front);
    }
}

/// A control sequence with more than sixty-four bytes of parameters is skipped
/// as a whole, whatever it ends in.
pub proof fn law_overlong_sequences_are_skipped(
    state: AnsiModel,
    parameters: Seq<u8>,
    ending: u8,
)
    requires
        at_rest(state),
        parameters.len() > 64,
        forall|i: int| 0 <= i < parameters.len() ==> 0x20 <= #[trigger] parameters[i] <= 0x3f,
        0x40 <= ending <= 0x7e,
    ensures
        leaves(run(state, seq![0x1bu8, 0x5bu8] + parameters + seq![ending]), state.style),
{
    reveal(step);
    lemma_run_overlong(state, parameters);
    let all = seq![0x1bu8, 0x5bu8] + parameters + seq![ending];
    assert(all.drop_last() =~= seq![0x1bu8, 0x5bu8] + parameters);
    assert(all.last() == ending);
}

proof fn lemma_stays(state: AnsiModel, payload: Seq<u8>)
    requires
        state.machine == MachineState::Osc || state.machine == MachineState::ControlString,
        !payload.contains(0x1b),
        state.machine == MachineState::Osc ==> !payload.contains(0x07),
    ensures
        run(state, payload) == state,
    decreases payload.len(),
{
    reveal(step);
    if payload.len() > 0 {
        let front = payload.drop_last();
        let last = payload[payload.len() - 1];
        assert(payload.contains(last));
        if front.contains(0x1b) {
            let i = choose|i: int| 0 <= i < front.len() && front[i] == 0x1b;
            assert(payload[i] == 0x1b);
        }
        if front.contains(0x07) {
            let i = choose|i: int| 0 <= i < front.len() && front[i] == 0x07;
            assert(payload[i] == 0x07);
        }
        lemma_stays(state, front);
    }
}

/// The machine behind an escape and one more byte.
proof fn lemma_after_escape(state: AnsiModel, opening: u8)
    requires
        at_rest(state),
    ensures
        run(state, seq![0x1bu8, opening]) == step(
            AnsiModel { machine: MachineState::Escape, ..state },
            opening,
        ),
{
    reveal(step);
    let both = seq![0x1bu8, opening];
    assert(both.drop_last() =~= seq![0x1bu8]);
    assert(both.drop_last().drop_last() =~= Seq::<u8>::empty());
    assert(run(state, both.drop_last().drop_last()) == state);
    assert(run(state, both.drop_last()) == step(state, 0x1b));
}

/// A command to the terminal, such as the title of its window, ends at a bell
/// or at an escape with a backslash, and leaves the style alone.
pub proof fn law_titles_are_skipped(state: AnsiModel, payload: Seq<u8>)
    requires
        at_rest(state),
        !payload.contains(0x07),
        !payload.contains(0x1b),
    ensures
        leaves(run(state, seq![0x1bu8, 0x5du8] + (payload + seq![0x07u8])), state.style),
        leaves(run(state, seq![0x1bu8, 0x5du8] + (payload + seq![0x1bu8, 0x5cu8])), state.style),
{
    reveal(step);
    let opening = seq![0x1bu8, 0x5du8];
    lemma_after_escape(state, 0x5d);
    let inside = run(state, opening);
    lemma_stays(inside, payload);
    law_run_splits(state, opening, payload + seq![0x07u8]);
    law_run_splits(inside, payload, seq![0x07u8]);
    let bell = seq![0x07u8];
    assert(bell.drop_last() =~= Seq::<u8>::empty());
    assert(run(inside, bell.drop_last()) == inside);
    law_run_splits(state, opening, payload + seq![0x1bu8, 0x5cu8]);
    law_run_splits(inside, payload, seq![0x1bu8, 0x5cu8]);
    let ending = seq![0x1bu8, 0x5cu8];
    assert(ending.drop_last() =~= seq![0x1bu8]);
    assert(ending.drop_last().drop_last() =~= Seq::<u8>::empty());
    assert(run(inside, ending.drop_last().drop_last()) == inside);
    assert(run(inside, ending.drop_last()) == step(inside, 0x1b));
}

/// A control string ends at an escape with a backslash only, and leaves the
/// style alone.
pub proof fn law_control_strings_are_skipped(state: AnsiModel, opening: u8, payload: Seq<u8>)
    requires
        at_rest(state),
        opening == 0x50 || opening == 0x58 || opening == 0x5e || opening == 0x5f,
        !payload.contains(0x1b),
    ensures
        leaves(
            run(state, seq![0x1bu8, opening] + (payload + seq![0x1bu8, 0x5cu8])),
            state.style,
        ),
        run(state, seq![0x1bu8, opening] + payload).machine != MachineState::Ground,
{
    reveal(step);
    let start = seq![0x1bu8, opening];
    lemma_after_escape(state, opening);
    let inside = run(state, start);
    lemma_stays(inside, payload);
    law_run_splits(state, start, payload);
    law_run_splits(state, start, payload + seq![0x1bu8, 0x5cu8]);
    law_run_splits(inside, payload, seq![0x1bu8, 0x5cu8]);
    let ending = seq![0x1bu8, 0x5cu8];
    assert(ending.drop_last() =~= seq![0x1bu8]);
    assert(ending.drop_last().drop_last() =~= Seq::<u8>::empty());
    assert(run(inside, ending.drop_last().drop_last()) == inside);
    assert(run(inside, ending.drop_last()) == step(inside, 0x1b));
}

/// An escape with any other byte is skipped.
pub proof fn law_short_escapes_are_skipped(state: AnsiModel, byte: u8)
    requires
        at_rest(state),
        byte != 0x5b,
        byte != 0x5d,
        byte != 0x50,
        byte != 0x58,
        byte != 0x5e,
        byte != 0x5f,
    ensures
        leaves(run(state, seq![0x1bu8, byte]), state.style),
{
    reveal(step);
    lemma_after_escape(state, byte);
}

/// Bytes without an escape among them change nothing outside sequences.
pub proof fn law_text_changes_nothing(state: AnsiModel, text: Seq<u8>)
    requires
        at_rest(state),
        !text.contains(0x1b),
    ensures
        run(state, text) == state,
    decreases text.len(),
{
    reveal(step);
    if text.len() > 0 {
        let front = text.drop_last();
        assert(text.contains(text[text.len() - 1]));
        if front.contains(0x1b) {
            let i = choose|i: int| 0 <= i < front.len() && front[i] == 0x1b;
            assert(text[i] == 0x1b);
        }
        law_text_changes_nothing(state, front);
    }
}

} // verus!
