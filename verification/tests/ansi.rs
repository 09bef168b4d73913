use cshell::ansi::{AnsiState, JournalColor, JournalStyle, ANSI_STATE_BYTES};
use cshell::collector::MAX_STYLE_SEGMENTS;

#[test]
fn decodes_sgr_true_color_and_sanitizes_control_strings() {
    let mut state = AnsiState::default();
    let output = state.decode_text(
        b"plain \x1b[1;38;2;1;2;3mred\x1b]0;hidden\x07!\x1b[0m end",
        1024,
    );
    assert_eq!(output.text, "plain red! end");
    assert_eq!(output.style_spans.len(), 1);
    assert_eq!(
        &output.text[output.style_spans[0].start as usize..output.style_spans[0].end as usize],
        "red!"
    );
    assert_eq!(
        output.style_spans[0].style,
        JournalStyle {
            foreground: JournalColor::Rgb(1, 2, 3),
            bold: true,
            ..JournalStyle::default()
        }
    );
}

#[test]
fn decodes_colon_sgr_colors_in_sequence_order() {
    let output = AnsiState::default().decode_text(
        b"\x1b[31mred\x1b[38:2::1:2:3mtrue\x1b[48:5:200mbg\x1b[0;38:2:4:5:6mshort\x1b[4:3munder",
        1024,
    );
    assert_eq!(output.text, "redtruebgshortunder");
    assert_eq!(output.style_spans.len(), 5);
    assert_eq!(output.style_spans[0].style.foreground, JournalColor::Indexed(1));
    assert_eq!(output.style_spans[1].style.foreground, JournalColor::Rgb(1, 2, 3));
    assert_eq!(output.style_spans[2].style.background, JournalColor::Indexed(200));
    assert_eq!(output.style_spans[3].style.foreground, JournalColor::Rgb(4, 5, 6));
    assert!(output.style_spans[4].style.underline);
}

#[test]
fn unsupported_colon_color_space_does_not_change_the_current_color() {
    let output =
        AnsiState::default().decode_text(b"\x1b[32mgreen\x1b[38:2:1:9:8:7mstill-green", 1024);
    assert_eq!(output.text, "greenstill-green");
    assert_eq!(output.style_spans.len(), 1);
    assert_eq!(output.style_spans[0].style.foreground, JournalColor::Indexed(2));
}

#[test]
fn state_round_trip_preserves_a_split_colon_csi_sequence() {
    let mut state = AnsiState::default();
    state.advance(b"\x1b[38:2::10:");
    let mut encoded = Vec::new();
    state.encode(&mut encoded);
    let mut restored = AnsiState::decode(&encoded).unwrap();
    let output = restored.decode_text(b"20:30mcolored", 64);
    assert_eq!(output.text, "colored");
    assert_eq!(output.style_spans[0].style.foreground, JournalColor::Rgb(10, 20, 30));
}

#[test]
fn state_round_trip_preserves_a_split_csi_sequence() {
    let mut state = AnsiState::default();
    state.advance(b"\x1b[38;5;");
    let mut encoded = Vec::new();
    state.encode(&mut encoded);
    let mut restored = AnsiState::decode(&encoded).unwrap();
    let output = restored.decode_text(b"196mred", 64);
    assert_eq!(output.text, "red");
    assert_eq!(output.style_spans[0].style.foreground, JournalColor::Indexed(196));
}

#[test]
fn style_spans_expand_to_grapheme_boundaries() {
    let mut state = AnsiState::default();
    let output = state.decode_text(b"\x1b[31me\x1b[0m\xcc\x81", 64);
    assert_eq!(output.text, "e\u{301}");
    assert_eq!(output.style_spans[0].start, 0);
    assert_eq!(output.style_spans[0].end as usize, output.text.len());
}

#[test]
fn adversarial_style_switches_remain_bounded() {
    let mut input = Vec::new();
    for index in 0..20_000 {
        if index % 2 == 0 {
            input.extend_from_slice(b"\x1b[31mx");
        } else {
            input.extend_from_slice(b"\x1b[0mx");
        }
    }
    let output = AnsiState::default().decode_text(&input, 1_000_000);
    assert_eq!(output.text.len(), 20_000);
    assert!(output.style_spans.len() <= MAX_STYLE_SEGMENTS);
    assert!(output.truncated);
}

#[test]
fn malformed_states_are_refused() {
    let mut encoded = Vec::new();
    AnsiState::default().encode(&mut encoded);
    assert_eq!(encoded.len(), ANSI_STATE_BYTES);
    assert!(AnsiState::decode(&encoded).is_some());
    assert!(AnsiState::decode(&encoded[1..]).is_none());
    encoded[0] = 7;
    assert!(AnsiState::decode(&encoded).is_none());
}

#[test]
fn bytes_that_are_no_text_are_replaced() {
    let output = AnsiState::default().decode_text(b"a\xffb", 64);
    assert_eq!(output.text, "a\u{fffd}b");
}

#[test]
fn text_is_cut_at_the_limit() {
    let output = AnsiState::default().decode_text(b"abcdef", 4);
    assert_eq!(output.text, "abcd");
    assert!(output.truncated);
}

#[test]
fn a_smaller_maximum_leaves_the_longest_prefix() {
    let input = "plain \u{1b}[31mr\u{f6}t\u{1b}[0m \u{20ac}uro \u{1f980}\u{1b}[1mend".as_bytes();
    let whole = AnsiState::default().decode_text(input, 1 << 20);
    assert_eq!(whole.text, "plain r\u{f6}t \u{20ac}uro \u{1f980}end");
    assert!(!whole.truncated);
    for maximum in 0..whole.text.len() + 3 {
        let part = AnsiState::default().decode_text(input, maximum);
        let mut end = maximum.min(whole.text.len());
        while !whole.text.is_char_boundary(end) {
            end -= 1;
        }
        assert_eq!(part.text, whole.text[..end]);
        assert_eq!(part.truncated, whole.text.len() > maximum);
    }
}

#[test]
fn decoded_text_holds_no_control_but_the_tab() {
    let input: Vec<u8> = (0u8..=0xff).filter(|byte| *byte != 0x1b).collect();
    let output = AnsiState::default().decode_text(&input, 4096);
    for character in output.text.chars() {
        assert!(!character.is_ascii() || character == '\t' || !character.is_ascii_control());
    }
    assert!(output.text.contains('\t'));
    assert!(output.text.contains('~'));
    assert!(output.text.contains('\u{fffd}'));
    let torn = AnsiState::default().decode_text(b"a\xe2\x01\x82\x7fb", 64);
    assert!(torn.text.starts_with('a') && torn.text.ends_with('b'));
    assert!(!torn.text.contains('\u{1}') && !torn.text.contains('\u{7f}'));
}

#[test]
fn a_short_line_of_any_bytes_is_cut_between_characters() {
    let whole = AnsiState::default().decode_text(b"a\xffb\xe2\x82", 1 << 20);
    for maximum in 1..whole.text.len() + 1 {
        let part = AnsiState::default().decode_text(b"a\xffb\xe2\x82", maximum);
        let mut end = maximum;
        while !whole.text.is_char_boundary(end) {
            end -= 1;
        }
        assert_eq!(part.text, whole.text[..end]);
        assert_eq!(part.truncated, whole.text.len() > maximum);
    }
}
