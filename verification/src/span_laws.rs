//! Which text a line shows, and in which styles.
use crate::ansi::{run, step, AnsiModel, JournalStyle, MachineState};
use crate::collector::{
    add_grapheme, collected_spans, collected_text, decoded_bytes, grapheme_end, grapheme_spans,
    range_spans, ranges_in_order, style_at, styled_ranges, Collected, JournalStyleSpan,
};
use crate::decode_laws::{shown, shown_run, Shown};
use crate::outside::{cuts_text, grapheme_starts, lossy_text};
use crate::style_laws::{at_rest, law_text_changes_nothing};
use crate::text::utf8;
use vstd::prelude::*;
use vstd::utf8::is_ascii_chars;

verus! {

// ---------------------------------------------------------------------------
// What is shown.

/// Pieces of a line show what they show one after the other.
pub proof fn law_pieces_show_the_whole(at: (AnsiModel, Shown), first: Seq<u8>, second: Seq<u8>)
    ensures
        shown_run(at, first + second) == shown_run(shown_run(at, first), second),
    decreases second.len(),
{
    if second.len() == 0 {
        assert(first + second =~= first);
    } else {
        assert((first + second).drop_last() =~= first + second.drop_last());
        law_pieces_show_the_whole(at, first, second.drop_last());
    }
}

proof fn lemma_shown_advances(at: (AnsiModel, Shown), input: Seq<u8>)
    ensures
        shown_run(at, input).0 == run(at.0, input),
    decreases input.len(),
{
    if input.len() > 0 {
        lemma_shown_advances(at, input.drop_last());
    }
}

/// Tabs, printable ASCII and everything above ASCII.
pub open spec fn is_text(bytes: Seq<u8>) -> bool {
    forall|i: int|
        0 <= i < bytes.len() ==> (#[trigger] bytes[i] == 0x09 || 0x20 <= bytes[i] <= 0x7e
            || bytes[i] >= 0x80)
}

/// Text outside sequences is shown as it is, in the style in force.
pub proof fn law_text_is_shown_in_its_style(state: AnsiModel, text: Seq<u8>)
    requires
        at_rest(state),
        is_text(text),
    ensures
        shown(state, text).segments == if text.len() == 0 {
            Seq::empty()
        } else {
            seq![(state.style, text)]
        },
        !shown(state, text).degraded,
    decreases text.len(),
{
    reveal(step);
    if text.len() > 0 {
        let front = text.drop_last();
        assert forall|i: int| 0 <= i < front.len() implies (#[trigger] front[i] == 0x09 || 0x20
            <= front[i] <= 0x7e || front[i] >= 0x80) by {
            assert(front[i] == text[i]);
        }
        law_text_is_shown_in_its_style(state, front);
        let start = (state, Shown { segments: Seq::empty(), degraded: false });
        lemma_shown_advances(start, front);
        if front.contains(0x1b) {
            let i = choose|i: int| 0 <= i < front.len() && front[i] == 0x1b;
            assert(text[i] == 0x1b);
        }
        law_text_changes_nothing(state, front);
        let last = text[text.len() - 1];
        if front.len() > 0 {
            assert(front + seq![last] =~= text);
            assert(seq![(state.style, front)].drop_last() =~= Seq::<(JournalStyle, Seq<u8>)>::empty());
            assert(shown(state, text).segments =~= seq![(state.style, text)]);
        } else {
            assert(seq![last] =~= text);
            assert(shown(state, text).segments =~= seq![(state.style, text)]);
        }
    }
}

/// The bytes are read without any of them being shown.
pub open spec fn quiet(state: AnsiModel, bytes: Seq<u8>) -> bool {
    forall|k: int|
        0 <= k < bytes.len() ==> (#[trigger] run(state, bytes.take(k))).machine
            != MachineState::Ground || bytes[k] < 0x20 && bytes[k] != 0x09 || bytes[k] == 0x7f
}

proof fn lemma_quiet(at: (AnsiModel, Shown), bytes: Seq<u8>)
    requires
        quiet(at.0, bytes),
    ensures
        shown_run(at, bytes) == (run(at.0, bytes), at.1),
    decreases bytes.len(),
{
    if bytes.len() > 0 {
        let front = bytes.drop_last();
        assert(bytes.take(bytes.len() - 1) =~= front);
        assert forall|k: int| 0 <= k < front.len() implies (
        #[trigger] run(at.0, front.take(k))).machine != MachineState::Ground || front[k] < 0x20
            && front[k] != 0x09 || front[k] == 0x7f by {
            assert(front.take(k) =~= bytes.take(k));
        }
        lemma_quiet(at, front);
        assert(run(at.0, bytes.take(bytes.len() - 1)) == run(at.0, front));
    }
}

/// Control characters outside sequences, but for tabs, are not shown.
pub proof fn law_control_characters_are_not_shown(state: AnsiModel, bytes: Seq<u8>)
    requires
        at_rest(state),
        forall|i: int|
            0 <= i < bytes.len() ==> (#[trigger] bytes[i] < 0x20 && bytes[i] != 0x09 && bytes[i]
                != 0x1b || bytes[i] == 0x7f),
    ensures
        shown(state, bytes).segments.len() == 0,
{
    assert(quiet(state, bytes));
    lemma_quiet((state, Shown { segments: Seq::empty(), degraded: false }), bytes);
}

/// Nothing of a style sequence is shown.
pub proof fn law_style_sequences_are_not_shown(state: AnsiModel, parameters: Seq<u8>)
    requires
        at_rest(state),
        parameters.len() <= 64,
        forall|i: int| 0 <= i < parameters.len() ==> 0x20 <= #[trigger] parameters[i] <= 0x3f,
    ensures
        quiet(state, crate::style_laws::style_sequence(parameters)),
        shown(state, crate::style_laws::style_sequence(parameters)).segments.len() == 0,
{
    let all = crate::style_laws::style_sequence(parameters);
    assert forall|k: int| 0 <= k < all.len() implies (
    #[trigger] run(state, all.take(k))).machine != MachineState::Ground || all[k] < 0x20 && all[k]
        != 0x09 || all[k] == 0x7f by {
        if k == 0 {
            assert(all[0] == 0x1b);
        } else if k == 1 {
            reveal(step);
            assert(all.take(1).drop_last() =~= Seq::<u8>::empty());
            assert(run(state, all.take(1).drop_last()) == state);
            assert(all.take(1).last() == 0x1b);
        } else {
            let front = parameters.take(k - 2);
            assert forall|i: int| 0 <= i < front.len() implies 0x20 <= #[trigger] front[i]
                <= 0x3f by {
                assert(front[i] == parameters[i]);
            }
            assert(all.take(k) =~= seq![0x1bu8, 0x5bu8] + front);
            crate::style_laws::lemma_run_parameters(state, front);
        }
    }
    lemma_quiet((state, Shown { segments: Seq::empty(), degraded: false }), all);
}

/// Text before and behind a sequence is shown in the style that was in force
/// before it and in the one that it leaves.
pub proof fn law_sequence_changes_the_style_behind_it(
    state: AnsiModel,
    before: Seq<u8>,
    sequence: Seq<u8>,
    behind: Seq<u8>,
)
    requires
        at_rest(state),
        is_text(before),
        is_text(behind),
        before.len() > 0,
        behind.len() > 0,
        quiet(state, sequence),
        at_rest(run(state, sequence)),
    ensures
        ({
            let after = run(state, sequence).style;
            shown(state, before + sequence + behind).segments == if after == state.style {
                seq![(state.style, before + behind)]
            } else {
                seq![(state.style, before), (after, behind)]
            }
        }),
{
    let start = (state, Shown { segments: Seq::empty(), degraded: false });
    law_pieces_show_the_whole(start, before + sequence, behind);
    law_pieces_show_the_whole(start, before, sequence);
    law_text_is_shown_in_its_style(state, before);
    lemma_shown_advances(start, before);
    if before.contains(0x1b) {
        let i = choose|i: int| 0 <= i < before.len() && before[i] == 0x1b;
        assert(before[i] == 0x1b);
    }
    law_text_changes_nothing(state, before);
    let one = shown_run(start, before);
    assert(one.0 == state);
    lemma_quiet(one, sequence);
    let two = shown_run(one, sequence);
    lemma_text_added(two, state.style, before, behind);
}

proof fn lemma_text_added(
    at: (AnsiModel, Shown),
    style: JournalStyle,
    before: Seq<u8>,
    behind: Seq<u8>,
)
    requires
        at_rest(at.0),
        at.1.segments == seq![(style, before)],
        is_text(behind),
    ensures
        shown_run(at, behind).1.segments == if behind.len() == 0 {
            seq![(style, before)]
        } else if at.0.style == style {
            seq![(style, before + behind)]
        } else {
            seq![(style, before), (at.0.style, behind)]
        },
    decreases behind.len(),
{
    reveal(step);
    if behind.len() > 0 {
        let front = behind.drop_last();
        let last = behind[behind.len() - 1];
        assert forall|i: int| 0 <= i < front.len() implies (#[trigger] front[i] == 0x09 || 0x20
            <= front[i] <= 0x7e || front[i] >= 0x80) by {
            assert(front[i] == behind[i]);
        }
        lemma_text_added(at, style, before, front);
        lemma_shown_advances(at, front);
        if front.contains(0x1b) {
            let i = choose|i: int| 0 <= i < front.len() && front[i] == 0x1b;
            assert(behind[i] == 0x1b);
        }
        law_text_changes_nothing(at.0, front);
        let segments = shown_run(at, front).1.segments;
        assert(front + seq![last] =~= behind);
        let after = shown_run(at, behind).1.segments;
        if at.0.style == style {
            if front.len() > 0 {
                assert(before + front + seq![last] =~= before + behind);
            } else {
                assert(before + seq![last] =~= before + behind);
            }
            assert(after =~= seq![(style, before + behind)]);
        } else {
            if front.len() == 0 {
                assert(seq![last] =~= behind);
            }
            assert(after =~= seq![(style, before), (at.0.style, behind)]);
        }
    }
}

// ---------------------------------------------------------------------------
// Spans.

/// The style of the segment in which byte `k` of the text lies.
pub open spec fn written_style(segments: Seq<(JournalStyle, Seq<u8>)>, k: int) -> JournalStyle
    decreases segments.len(),
{
    if segments.len() == 0 {
        crate::ansi::plain_style()
    } else if k >= decoded_bytes(segments.drop_last()).len() {
        segments.last().0
    } else {
        written_style(segments.drop_last(), k)
    }
}

/// The spans give a byte this style: a span of it holds the byte, or none does
/// where the style is the plain one.
pub open spec fn has_style(spans: Seq<JournalStyleSpan>, k: int, style: JournalStyle) -> bool {
    if style == crate::ansi::plain_style() {
        forall|i: int|
            0 <= i < spans.len() ==> !((#[trigger] spans[i]).start <= k < spans[i].end)
    } else {
        exists|i: int|
            0 <= i < spans.len() && (#[trigger] spans[i]).start <= k < spans[i].end
                && spans[i].style == style
    }
}

proof fn lemma_span_grows(spans: Seq<JournalStyleSpan>, end: u32, k: int, style: JournalStyle)
    requires
        spans.len() > 0,
        spans.last().end <= end,
        has_style(spans, k, style),
        k < spans.last().end,
    ensures
        has_style(crate::collector::with_end(spans, end), k, style),
{
    let after = crate::collector::with_end(spans, end);
    if style == crate::ansi::plain_style() {
        assert forall|i: int| 0 <= i < after.len() implies !((#[trigger] after[i]).start <= k
            < after[i].end) by {
            assert(!(spans[i].start <= k < spans[i].end));
        }
    } else {
        let i = choose|i: int|
            0 <= i < spans.len() && (#[trigger] spans[i]).start <= k < spans[i].end
                && spans[i].style == style;
        assert(after[i].start <= k < after[i].end && after[i].style == style);
    }
}

proof fn lemma_span_added(
    spans: Seq<JournalStyleSpan>,
    added: JournalStyleSpan,
    k: int,
    style: JournalStyle,
)
    requires
        has_style(spans, k, style),
        k < added.start,
    ensures
        has_style(spans.push(added), k, style),
{
    let after = spans.push(added);
    if style == crate::ansi::plain_style() {
        assert forall|i: int| 0 <= i < after.len() implies !((#[trigger] after[i]).start <= k
            < after[i].end) by {
            if i < spans.len() {
                assert(!(spans[i].start <= k < spans[i].end));
            }
        }
    } else {
        let i = choose|i: int|
            0 <= i < spans.len() && (#[trigger] spans[i]).start <= k < spans[i].end
                && spans[i].style == style;
        assert(after[i].start <= k < after[i].end && after[i].style == style);
    }
}

/// All spans end at `end` or before.
spec fn end_by(spans: Seq<JournalStyleSpan>, end: int) -> bool {
    forall|i: int| 0 <= i < spans.len() ==> (#[trigger] spans[i]).end <= end
}

proof fn lemma_range_spans(segments: Seq<(JournalStyle, Seq<u8>)>, length: int)
    requires
        decoded_bytes(segments).len() <= u32::MAX,
        0 <= length,
    ensures
        ({
            let made = range_spans(styled_ranges(segments), length);
            let total = decoded_bytes(segments).len();
            &&& !made.overflow
            &&& end_by(made.spans, total as int)
            &&& forall|k: int|
                0 <= k < total && k < length ==> #[trigger] has_style(
                    made.spans,
                    k,
                    written_style(segments, k),
                )
        }),
    decreases segments.len(),
{
    if segments.len() > 0 {
        let front = segments.drop_last();
        let start = decoded_bytes(front).len() as int;
        let total = decoded_bytes(segments).len() as int;
        let style = segments.last().0;
        lemma_range_spans(front, length);
        let ranges = styled_ranges(segments);
        let before = range_spans(styled_ranges(front), length);
        let made = range_spans(ranges, length);
        if style != crate::ansi::plain_style() && start < total {
            assert(ranges.drop_last() =~= styled_ranges(front));
            let end = if total < length {
                total
            } else {
                length
            };
            if start < end {
                let added = JournalStyleSpan { start: start as u32, end: end as u32, style };
                if crate::collector::continues(before.spans, start, style) {
                    assert(made.spans == crate::collector::with_end(before.spans, end as u32));
                } else {
                    assert(made.spans == before.spans.push(added));
                }
            }
            assert forall|k: int| 0 <= k < total && k < length implies #[trigger] has_style(
                made.spans,
                k,
                written_style(segments, k),
            ) by {
                if k < start {
                    assert(has_style(before.spans, k, written_style(front, k)));
                    if start < end {
                        if crate::collector::continues(before.spans, start, style) {
                            lemma_span_grows(before.spans, end as u32, k, written_style(front, k));
                        } else {
                            lemma_span_added(
                                before.spans,
                                JournalStyleSpan { start: start as u32, end: end as u32, style },
                                k,
                                written_style(front, k),
                            );
                        }
                    }
                } else {
                    let last = made.spans.len() - 1;
                    assert(made.spans[last].start <= k < made.spans[last].end
                        && made.spans[last].style == style) by {
                        if crate::collector::continues(before.spans, start, style) {
                            lemma_last_start(segments.drop_last(), length);
                        }
                    }
                }
            }
        } else {
            assert forall|k: int| 0 <= k < total && k < length implies #[trigger] has_style(
                made.spans,
                k,
                written_style(segments, k),
            ) by {
                if k < start {
                    assert(has_style(before.spans, k, written_style(front, k)));
                }
            }
        }
    }
}

/// Spans are not empty.
proof fn lemma_last_start(segments: Seq<(JournalStyle, Seq<u8>)>, length: int)
    requires
        decoded_bytes(segments).len() <= u32::MAX,
        0 <= length,
    ensures
        ({
            let made = range_spans(styled_ranges(segments), length);
            forall|i: int|
                0 <= i < made.spans.len() ==> (#[trigger] made.spans[i]).start < made.spans[i].end
                    <= decoded_bytes(segments).len()
        }),
    decreases segments.len(),
{
    if segments.len() > 0 {
        let front = segments.drop_last();
        lemma_last_start(front, length);
        let ranges = styled_ranges(segments);
        if segments.last().0 != crate::ansi::plain_style() && decoded_bytes(front).len()
            < decoded_bytes(segments).len() {
            assert(ranges.drop_last() =~= styled_ranges(front));
            let before = range_spans(styled_ranges(front), length);
            let made = range_spans(ranges, length);
            assert forall|i: int| 0 <= i < made.spans.len() implies (
            #[trigger] made.spans[i]).start < made.spans[i].end <= decoded_bytes(
                segments,
            ).len() by {
                if i < before.spans.len() {
                    assert(before.spans[i].start < before.spans[i].end);
                }
            }
        }
    }
}

/// Where a text is ASCII, the spans give every byte the style of the segment
/// that it was written in.
pub proof fn law_spans_of_ascii_tell_the_styles(from: Collected, k: int)
    requires
        decoded_bytes(from.segments).len() <= u32::MAX,
        is_ascii_chars(collected_text(from)),
        0 <= k < utf8(collected_text(from)).len(),
        k < decoded_bytes(from.segments).len(),
    ensures
        has_style(collected_spans(from).spans, k, written_style(from.segments, k)),
{
    lemma_range_spans(from.segments, utf8(collected_text(from)).len() as int);
    assert(has_style(
        range_spans(styled_ranges(from.segments), utf8(collected_text(from)).len() as int).spans,
        k,
        written_style(from.segments, k),
    ));
}

proof fn lemma_style_in_range(ranges: Seq<(usize, usize, JournalStyle)>, at: int, i: int)
    requires
        ranges_in_order(ranges),
        0 <= i < ranges.len(),
        ranges[i].0 <= at < ranges[i].1,
    ensures
        style_at(ranges, at) == ranges[i].2,
    decreases i,
{
    if i > 0 {
        assert(ranges[0].1 <= ranges[i].0);
        let rest = ranges.skip(1);
        assert forall|n: int| 0 <= n < rest.len() implies (#[trigger] rest[n]).0 < rest[n].1 by {
            assert(rest[n] == ranges[n + 1]);
        }
        assert forall|n: int, m: int| 0 <= n < m < rest.len() implies (#[trigger] rest[n]).1 <= (
        #[trigger] rest[m]).0 by {
            assert(rest[n] == ranges[n + 1] && rest[m] == ranges[m + 1]);
        }
        assert(rest[i - 1] == ranges[i]);
        lemma_style_in_range(rest, at, i - 1);
    }
}

proof fn lemma_style_outside(ranges: Seq<(usize, usize, JournalStyle)>, at: int)
    requires
        forall|i: int|
            0 <= i < ranges.len() ==> !((#[trigger] ranges[i]).0 <= at < ranges[i].1),
    ensures
        style_at(ranges, at) == crate::ansi::plain_style(),
    decreases ranges.len(),
{
    if ranges.len() > 0 {
        let rest = ranges.skip(1);
        assert(!(ranges[0].0 <= at < ranges[0].1));
        assert forall|i: int| 0 <= i < rest.len() implies !((#[trigger] rest[i]).0 <= at
            < rest[i].1) by {
            assert(rest[i] == ranges[i + 1]);
        }
        lemma_style_outside(rest, at);
    }
}

/// The ranges of segments lie in order, and each holds the bytes of a segment.
proof fn lemma_ranges_of(segments: Seq<(JournalStyle, Seq<u8>)>)
    requires
        decoded_bytes(segments).len() <= u32::MAX,
    ensures
        ({
            let ranges = styled_ranges(segments);
            &&& ranges_in_order(ranges)
            &&& forall|i: int|
                0 <= i < ranges.len() ==> (#[trigger] ranges[i]).1 <= decoded_bytes(segments).len()
        }),
    decreases segments.len(),
{
    if segments.len() > 0 {
        lemma_ranges_of(segments.drop_last());
    }
}

proof fn lemma_style_written(segments: Seq<(JournalStyle, Seq<u8>)>, k: int)
    requires
        decoded_bytes(segments).len() <= u32::MAX,
        0 <= k < decoded_bytes(segments).len(),
    ensures
        style_at(styled_ranges(segments), k) == written_style(segments, k),
    decreases segments.len(),
{
    let front = segments.drop_last();
    let ranges = styled_ranges(segments);
    let earlier = styled_ranges(front);
    lemma_ranges_of(segments);
    lemma_ranges_of(front);
    let start = decoded_bytes(front).len() as int;
    if k >= start {
        if segments.last().0 != crate::ansi::plain_style() {
            let last = ranges.len() - 1;
            lemma_style_in_range(ranges, k, last);
        } else {
            assert forall|i: int| 0 <= i < ranges.len() implies !((#[trigger] ranges[i]).0 <= k
                < ranges[i].1) by {
                assert(earlier[i].1 <= start);
            }
            lemma_style_outside(ranges, k);
        }
    } else {
        lemma_style_written(front, k);
        if exists|i: int| 0 <= i < earlier.len() && (#[trigger] earlier[i]).0 <= k < earlier[i].1 {
            let i = choose|i: int|
                0 <= i < earlier.len() && (#[trigger] earlier[i]).0 <= k < earlier[i].1;
            lemma_style_in_range(earlier, k, i);
            assert(ranges[i] == earlier[i]);
            lemma_style_in_range(ranges, k, i);
        } else {
            lemma_style_outside(earlier, k);
            assert forall|i: int| 0 <= i < ranges.len() implies !((#[trigger] ranges[i]).0 <= k
                < ranges[i].1) by {
                if i < earlier.len() {
                    assert(ranges[i] == earlier[i]);
                }
            }
            lemma_style_outside(ranges, k);
        }
    }
}

proof fn lemma_grapheme_spans(
    ranges: Seq<(usize, usize, JournalStyle)>,
    starts: Seq<usize>,
    length: int,
    count: int,
)
    requires
        0 <= count <= starts.len(),
        length <= u32::MAX,
        forall|i: int, j: int| 0 <= i < j < starts.len() ==> starts[i] < starts[j],
        forall|i: int| 0 <= i < starts.len() ==> #[trigger] starts[i] < length,
        starts.len() > 0 ==> starts[0] == 0,
    ensures
        ({
            let made = grapheme_spans(ranges, starts, length, count);
            let end = if count == 0 {
                0
            } else {
                grapheme_end(starts, length, count - 1)
            };
            &&& !made.overflow
            &&& forall|i: int|
                0 <= i < made.spans.len() ==> (#[trigger] made.spans[i]).start < made.spans[i].end
                    <= end
            &&& forall|n: int, k: int|
                0 <= n < count && starts[n] <= k < grapheme_end(starts, length, n)
                    ==> #[trigger] has_style(made.spans, k, style_at(ranges, starts[n] as int))
        }),
    decreases count,
{
    if count > 0 {
        lemma_grapheme_spans(ranges, starts, length, count - 1);
        let before = grapheme_spans(ranges, starts, length, count - 1);
        let made = grapheme_spans(ranges, starts, length, count);
        let last = count - 1;
        let start = starts[last] as int;
        let end = grapheme_end(starts, length, last);
        let style = style_at(ranges, start);
        if count > 1 {
            assert(grapheme_end(starts, length, count - 2) == start);
        }
        assert(start < end <= length);
        assert(made == add_grapheme(before, start, end, style));
        let added = JournalStyleSpan { start: start as u32, end: end as u32, style };
        assert forall|n: int, k: int|
            0 <= n < count && starts[n] <= k < grapheme_end(
                starts,
                length,
                n,
            ) implies #[trigger] has_style(made.spans, k, style_at(ranges, starts[n] as int)) by {
            let other = style_at(ranges, starts[n] as int);
            if n < last {
                assert(has_style(before.spans, k, other));
                assert(grapheme_end(starts, length, n) <= start) by {
                    if n + 1 < last {
                        assert(starts[n + 1] < starts[last]);
                    }
                }
                if style != crate::ansi::plain_style() {
                    if crate::collector::continues(before.spans, start, style) {
                        lemma_span_grows(before.spans, end as u32, k, other);
                    } else {
                        lemma_span_added(before.spans, added, k, other);
                    }
                }
            } else if style != crate::ansi::plain_style() {
                let at = made.spans.len() - 1;
                if crate::collector::continues(before.spans, start, style) {
                    assert(before.spans[at].start < before.spans[at].end);
                }
                assert(made.spans[at].start <= k < made.spans[at].end && made.spans[at].style
                    == style);
            }
        }
    }
}

/// Where a text is not ASCII, the spans give every character as a reader sees
/// it, as a whole, the style of the segment that its first byte was written in.
pub proof fn law_spans_tell_the_styles_of_characters(from: Collected, n: int, k: int)
    requires
        decoded_bytes(from.segments).len() <= u32::MAX,
        styled_ranges(from.segments).len() > 0,
        ({
            let text = collected_text(from);
            let starts = grapheme_starts(text);
            let length = utf8(text).len() as int;
            &&& !is_ascii_chars(text)
            &&& cuts_text(starts, text)
            &&& 0 <= n < starts.len()
            &&& starts[n] <= k < grapheme_end(starts, length, n)
            &&& length <= decoded_bytes(from.segments).len()
        }),
    ensures
        has_style(
            collected_spans(from).spans,
            k,
            written_style(from.segments, grapheme_starts(collected_text(from))[n] as int),
        ),
{
    let text = collected_text(from);
    let starts = grapheme_starts(text);
    let length = utf8(text).len() as int;
    let ranges = styled_ranges(from.segments);
    lemma_grapheme_spans(ranges, starts, length, starts.len() as int);
    assert(has_style(
        grapheme_spans(ranges, starts, length, starts.len() as int).spans,
        k,
        style_at(ranges, starts[n] as int),
    ));
    lemma_style_written(from.segments, starts[n] as int);
}

/// Segments lie in the text one behind the other: the bytes of a segment are
/// written in its style.
pub proof fn law_segment_is_written_in_its_style(
    segments: Seq<(JournalStyle, Seq<u8>)>,
    index: int,
    k: int,
)
    requires
        0 <= index < segments.len(),
        decoded_bytes(segments.take(index)).len() <= k < decoded_bytes(segments.take(index)).len()
            + utf8(lossy_text(segments[index].1)).len(),
    ensures
        written_style(segments, k) == segments[index].0,
    decreases segments.len(),
{
    let front = segments.drop_last();
    if index == segments.len() - 1 {
        assert(segments.take(index) =~= front);
    } else {
        assert(front.take(index) =~= segments.take(index));
        law_segment_is_written_in_its_style(front, index, k);
        lemma_decoded_grows(front, index + 1);
        assert(front.take(index + 1).drop_last() =~= front.take(index));
    }
}

proof fn lemma_decoded_grows(segments: Seq<(JournalStyle, Seq<u8>)>, count: int)
    requires
        0 <= count <= segments.len(),
    ensures
        decoded_bytes(segments.take(count)).len() <= decoded_bytes(segments).len(),
    decreases segments.len(),
{
    if count == segments.len() {
        assert(segments.take(count) =~= segments);
    } else {
        lemma_decoded_grows(segments.drop_last(), count);
        assert(segments.drop_last().take(count) =~= segments.take(count));
    }
}

} // verus!
