//! Collecting decoded text with its styles, within fixed bounds.
use crate::ansi::{
    is_visible_byte, plain_style, run, step, visible, AnsiModel, AnsiState, JournalStyle,
    MachineState,
};
use crate::decode_laws::{
    all_start_as_read, lemma_decoded_within, lost_within, shown, starts_as_read, taken_in,
    text_within,
};
use crate::outside::{find_graphemes, grapheme_starts, lossy_text, read_lossy};
use crate::text::{
    byte_len, clip_bytes, clip_text, floor_char_boundary, lemma_floor_char_boundary,
    lemma_utf8_concat, lemma_utf8_valid, utf8,
};
use vstd::prelude::*;
use vstd::string::StringExecFns;
use vstd::utf8::{decode_utf8, is_ascii_chars};

verus! {

pub const MAX_STYLE_SEGMENTS: usize = 16384;

#[derive(Clone, Copy, Debug, PartialEq, Eq, Structural)]
pub struct JournalStyleSpan {
    pub start: u32,
    pub end: u32,
    pub style: JournalStyle,
}

#[derive(Clone, Debug, PartialEq, Eq)]
pub struct StyledLogText {
    pub text: String,
    pub style_spans: Vec<JournalStyleSpan>,
    pub truncated: bool,
}

/// What has been collected: runs of bytes of one style.
#[verifier::ext_equal]
pub struct Collected {
    pub maximum: int,
    pub count: int,
    pub segments: Seq<(JournalStyle, Seq<u8>)>,
    pub discarded: bool,
    pub degraded: bool,
}

impl Collected {
    pub open spec fn empty(maximum: usize) -> Collected {
        Collected {
            maximum: maximum as int,
            count: 0,
            segments: Seq::empty(),
            discarded: false,
            degraded: false,
        }
    }

    /// A few bytes more than the maximum are kept, so that the cut can be
    /// made between characters.
    pub open spec fn limit(self) -> int {
        if self.maximum + 4 > usize::MAX {
            usize::MAX as int
        } else {
            self.maximum + 4
        }
    }
}

/// The segments with `bytes` added in `style`; once there are too many
/// segments, the last one takes them in.
pub open spec fn extend_segments(
    segments: Seq<(JournalStyle, Seq<u8>)>,
    bytes: Seq<u8>,
    style: JournalStyle,
) -> Seq<(JournalStyle, Seq<u8>)> {
    if segments.len() > 0 && (segments.last().0 == style || segments.len() >= MAX_STYLE_SEGMENTS) {
        segments.drop_last().push((segments.last().0, segments.last().1 + bytes))
    } else {
        segments.push((style, bytes))
    }
}

/// Collecting one byte.
pub open spec fn collect(into: Collected, byte: u8, style: JournalStyle) -> Collected {
    if into.count >= into.limit() {
        Collected { discarded: true, ..into }
    } else {
        Collected {
            count: into.count + 1,
            segments: extend_segments(into.segments, seq![byte], style),
            degraded: into.degraded || (into.segments.len() >= MAX_STYLE_SEGMENTS
                && into.segments.last().0 != style),
            ..into
        }
    }
}

/// Collecting bytes of one style, in order.
pub open spec fn collect_all(into: Collected, bytes: Seq<u8>, style: JournalStyle) -> Collected
    decreases bytes.len(),
{
    if bytes.len() == 0 {
        into
    } else {
        collect(collect_all(into, bytes.drop_last(), style), bytes.last(), style)
    }
}

/// Collecting bytes of one style at once.
spec fn collect_slice(into: Collected, bytes: Seq<u8>, style: JournalStyle) -> Collected {
    let room = if into.limit() > into.count {
        into.limit() - into.count
    } else {
        0
    };
    let accepted = if bytes.len() < room {
        bytes.len() as int
    } else {
        room
    };
    if accepted == 0 {
        Collected { discarded: into.discarded || bytes.len() > 0, ..into }
    } else {
        Collected {
            count: into.count + accepted,
            segments: extend_segments(into.segments, bytes.take(accepted), style),
            discarded: into.discarded || accepted < bytes.len(),
            degraded: into.degraded || (into.segments.len() >= MAX_STYLE_SEGMENTS
                && into.segments.last().0 != style),
            ..into
        }
    }
}

proof fn lemma_collect_slice(into: Collected, bytes: Seq<u8>, style: JournalStyle)
    ensures
        collect_all(into, bytes, style) == collect_slice(into, bytes, style),
    decreases bytes.len(),
{
    if bytes.len() > 0 {
        let front = bytes.drop_last();
        lemma_collect_slice(into, front, style);
        let before = collect_slice(into, front, style);
        let room = if into.limit() > into.count {
            into.limit() - into.count
        } else {
            0
        };
        if front.len() < room {
            assert(front.take(front.len() as int) =~= front);
            assert(bytes.take(bytes.len() as int) =~= bytes);
            if front.len() > 0 {
                assert(into.segments.push((style, front)).drop_last() =~= into.segments);
                if into.segments.len() > 0 {
                    let joined = (into.segments.last().0, into.segments.last().1 + front);
                    assert(into.segments.drop_last().push(joined).drop_last()
                        =~= into.segments.drop_last());
                    assert(into.segments.last().1 + front + seq![bytes.last()]
                        =~= into.segments.last().1 + bytes);
                }
                assert(front + seq![bytes.last()] =~= bytes);
            } else {
                assert(seq![bytes.last()] =~= bytes);
            }
            assert(collect(before, bytes.last(), style) =~= collect_slice(into, bytes, style));
        } else {
            assert(bytes.take(room) =~= front.take(room));
        }
    }
}

pub struct Collector {
    pub maximum_bytes: usize,
    pub collected_bytes: usize,
    pub segments: Vec<(JournalStyle, Vec<u8>)>,
    pub discarded: bool,
    pub style_degraded: bool,
}

pub open spec fn segment_views(segments: Seq<(JournalStyle, Vec<u8>)>) -> Seq<
    (JournalStyle, Seq<u8>),
> {
    Seq::new(segments.len(), |i: int| (segments[i].0, segments[i].1@))
}

impl View for Collector {
    type V = Collected;

    open spec fn view(&self) -> Collected {
        Collected {
            maximum: self.maximum_bytes as int,
            count: self.collected_bytes as int,
            segments: segment_views(self.segments@),
            discarded: self.discarded,
            degraded: self.style_degraded,
        }
    }
}

impl Collector {
    pub fn new(maximum_bytes: usize) -> (collector: Self)
        ensures
            collector@ == Collected::empty(maximum_bytes),
    {
        let collector = Collector {
            maximum_bytes,
            collected_bytes: 0,
            segments: Vec::new(),
            discarded: false,
            style_degraded: false,
        };
        assert(collector@ =~= Collected::empty(maximum_bytes));
        collector
    }

    pub fn push(&mut self, byte: u8, style: JournalStyle)
        ensures
            final(self)@ == collect(old(self)@, byte, style),
    {
        let bytes: [u8; 1] = [byte];
        self.push_slice(bytes.as_slice(), style);
        proof {
            assert(bytes@ =~= seq![byte]);
            assert(bytes@.drop_last() =~= Seq::<u8>::empty());
            reveal_with_fuel(collect_all, 2);
        }
    }

    pub fn push_slice(&mut self, bytes_to_add: &[u8], style: JournalStyle)
        ensures
            final(self)@ == collect_all(old(self)@, bytes_to_add@, style),
            final(self).maximum_bytes == old(self).maximum_bytes,
            old(self).segments@.len() <= MAX_STYLE_SEGMENTS ==> final(self).segments@.len()
                <= MAX_STYLE_SEGMENTS,
    {
        proof {
            lemma_collect_slice(self@, bytes_to_add@, style);
        }
        let remaining: usize = self.maximum_bytes.saturating_add(4).saturating_sub(
            self.collected_bytes,
        );
        let accepted: usize = if bytes_to_add.len() < remaining {
            bytes_to_add.len()
        } else {
            remaining
        };
        if accepted < bytes_to_add.len() {
            self.discarded = true;
        }
        if accepted == 0 {
            return;
        }
        let kept = vstd::slice::slice_subrange(bytes_to_add, 0, accepted);
        let count: usize = self.segments.len();
        if count > 0 && (self.segments[count - 1].0 == style || count >= MAX_STYLE_SEGMENTS) {
            if self.segments[count - 1].0 != style {
                self.style_degraded = true;
            }
            self.segments[count - 1].1.extend_from_slice(kept);
        } else {
            self.segments.push((style, vstd::slice::slice_to_vec(kept)));
        }
        self.collected_bytes = self.collected_bytes + accepted;
        assert(kept@ =~= bytes_to_add@.take(accepted as int));
        assert(self@.segments =~~= extend_segments(old(self)@.segments, kept@, style));
        assert(self@ =~= collect_slice(old(self)@, bytes_to_add@, style));
    }
}


// ---------------------------------------------------------------------------
// From segments to text and spans.

/// The bytes of the text that the segments decode to.
pub open spec fn decoded_bytes(segments: Seq<(JournalStyle, Seq<u8>)>) -> Seq<u8>
    decreases segments.len(),
{
    if segments.len() == 0 {
        Seq::empty()
    } else {
        decoded_bytes(segments.drop_last()) + utf8(lossy_text(segments.last().1))
    }
}

/// Where the decoded segments that have a style of their own lie.
pub open spec fn styled_ranges(segments: Seq<(JournalStyle, Seq<u8>)>) -> Seq<
    (usize, usize, JournalStyle),
>
    decreases segments.len(),
{
    if segments.len() == 0 {
        Seq::empty()
    } else {
        let before = styled_ranges(segments.drop_last());
        let start = decoded_bytes(segments.drop_last()).len();
        let end = decoded_bytes(segments).len();
        if segments.last().0 != plain_style() && start < end {
            before.push((start as usize, end as usize, segments.last().0))
        } else {
            before
        }
    }
}

/// Spans put together so far, and whether one did not fit.
#[verifier::ext_equal]
pub struct Spans {
    pub spans: Seq<JournalStyleSpan>,
    pub overflow: bool,
}

pub open spec fn continues(spans: Seq<JournalStyleSpan>, start: int, style: JournalStyle) -> bool {
    spans.len() > 0 && spans.last().end == start && spans.last().style == style
}

pub open spec fn with_end(spans: Seq<JournalStyleSpan>, end: u32) -> Seq<JournalStyleSpan> {
    spans.drop_last().push(JournalStyleSpan { end, ..spans.last() })
}

/// Adding a styled range of a text of `length` ASCII characters. A range
/// that goes on where the last span of its style ended makes it longer.
pub open spec fn add_range(into: Spans, range: (usize, usize, JournalStyle), length: int) -> Spans {
    let (start, range_end, style) = range;
    let end = if range_end < length {
        range_end as int
    } else {
        length
    };
    if into.overflow || start >= end {
        into
    } else if start > u32::MAX || end > u32::MAX {
        Spans { overflow: true, ..into }
    } else if continues(into.spans, start as int, style) {
        Spans { spans: with_end(into.spans, end as u32), ..into }
    } else {
        Spans {
            spans: into.spans.push(
                JournalStyleSpan { start: start as u32, end: end as u32, style },
            ),
            ..into
        }
    }
}

pub open spec fn range_spans(ranges: Seq<(usize, usize, JournalStyle)>, length: int) -> Spans
    decreases ranges.len(),
{
    if ranges.len() == 0 {
        Spans { spans: Seq::empty(), overflow: false }
    } else {
        add_range(range_spans(ranges.drop_last(), length), ranges.last(), length)
    }
}

/// The style of the range that holds byte `at`.
pub open spec fn style_at(ranges: Seq<(usize, usize, JournalStyle)>, at: int) -> JournalStyle
    decreases ranges.len(),
{
    if ranges.len() == 0 {
        plain_style()
    } else if ranges[0].1 <= at {
        style_at(ranges.skip(1), at)
    } else if ranges[0].0 <= at {
        ranges[0].2
    } else {
        plain_style()
    }
}

/// Adding the grapheme from `start` to `end`, which has one style.
pub open spec fn add_grapheme(into: Spans, start: int, end: int, style: JournalStyle) -> Spans {
    if into.overflow || style == plain_style() {
        into
    } else if continues(into.spans, start, style) {
        Spans { spans: with_end(into.spans, end as u32), ..into }
    } else if start <= u32::MAX && end <= u32::MAX {
        Spans {
            spans: into.spans.push(
                JournalStyleSpan { start: start as u32, end: end as u32, style },
            ),
            ..into
        }
    } else {
        Spans { overflow: true, ..into }
    }
}

pub open spec fn grapheme_end(starts: Seq<usize>, length: int, index: int) -> int {
    if index + 1 < starts.len() {
        starts[index + 1] as int
    } else {
        length
    }
}

/// The spans of the first `count` graphemes; a grapheme takes the style of
/// its first byte as a whole.
pub open spec fn grapheme_spans(
    ranges: Seq<(usize, usize, JournalStyle)>,
    starts: Seq<usize>,
    length: int,
    count: int,
) -> Spans
    decreases count,
{
    if count <= 0 {
        Spans { spans: Seq::empty(), overflow: false }
    } else {
        add_grapheme(
            grapheme_spans(ranges, starts, length, count - 1),
            starts[count - 1] as int,
            grapheme_end(starts, length, count - 1),
            style_at(ranges, starts[count - 1] as int),
        )
    }
}

/// The text of what was collected, cut at the maximum.
pub open spec fn collected_text(from: Collected) -> Seq<char> {
    decode_utf8(clip_bytes(decoded_bytes(from.segments), from.maximum))
}

pub open spec fn collected_spans(from: Collected) -> Spans {
    let text = collected_text(from);
    let length = utf8(text).len() as int;
    let ranges = styled_ranges(from.segments);
    if ranges.len() == 0 || is_ascii_chars(text) {
        range_spans(ranges, length)
    } else {
        let starts = grapheme_starts(text);
        grapheme_spans(ranges, starts, length, starts.len() as int)
    }
}

/// Whether anything was lost: bytes, styles, or text beyond the maximum.
pub open spec fn collected_truncated(from: Collected) -> bool {
    from.discarded || from.degraded || decoded_bytes(from.segments).len() > from.maximum
        || collected_spans(from).overflow
}

/// Ranges lie one behind the other.
pub open spec fn ranges_in_order(ranges: Seq<(usize, usize, JournalStyle)>) -> bool {
    &&& forall|i: int| 0 <= i < ranges.len() ==> (#[trigger] ranges[i]).0 < ranges[i].1
    &&& forall|i: int, j: int|
        0 <= i < j < ranges.len() ==> (#[trigger] ranges[i]).1 <= (#[trigger] ranges[j]).0
}

/// A place between graphemes that begin at `starts`, in a text of `length`
/// bytes.
pub open spec fn between_graphemes(starts: Seq<usize>, length: int, at: int) -> bool {
    at == length || exists|i: int| 0 <= i < starts.len() && #[trigger] starts[i] == at
}

/// Spans lie in a text of `length` bytes, one behind the other. Each has a
/// style of its own, and those that touch differ in it.
pub open spec fn spans_in_order(spans: Seq<JournalStyleSpan>, length: int) -> bool {
    &&& forall|i: int|
        0 <= i < spans.len() ==> (#[trigger] spans[i]).start < spans[i].end <= length
            && spans[i].style != plain_style()
    &&& forall|i: int, j: int|
        0 <= i < j < spans.len() ==> (#[trigger] spans[i]).end <= (#[trigger] spans[j]).start && (
        spans[i].end == spans[j].start ==> spans[i].style != spans[j].style)
}

/// Spans begin and end between graphemes.
pub open spec fn spans_cut_graphemes(
    spans: Seq<JournalStyleSpan>,
    starts: Seq<usize>,
    length: int,
) -> bool {
    forall|i: int|
        0 <= i < spans.len() ==> between_graphemes(
            starts,
            length,
            (#[trigger] spans[i]).start as int,
        ) && between_graphemes(starts, length, spans[i].end as int)
}

/// The spans of a text are in order, and cut no grapheme of one that is not
/// ASCII.
pub open spec fn spans_fit_text(spans: Seq<JournalStyleSpan>, text: Seq<char>) -> bool {
    let length = utf8(text).len() as int;
    &&& spans_in_order(spans, length)
    &&& is_ascii_chars(text) || spans_cut_graphemes(spans, grapheme_starts(text), length)
}

proof fn lemma_span_is_added(
    spans: Seq<JournalStyleSpan>,
    start: int,
    end: int,
    style: JournalStyle,
    length: int,
)
    requires
        spans_in_order(spans, length),
        spans.len() > 0 ==> spans.last().end <= start,
        0 <= start < end <= length <= u32::MAX,
        style != plain_style(),
    ensures
        continues(spans, start, style) ==> spans_in_order(with_end(spans, end as u32), length),
        !continues(spans, start, style) ==> spans_in_order(
            spans.push(JournalStyleSpan { start: start as u32, end: end as u32, style }),
            length,
        ),
{
    if continues(spans, start, style) {
        let after = with_end(spans, end as u32);
        assert forall|i: int| 0 <= i < after.len() implies (#[trigger] after[i]).start
            < after[i].end <= length && after[i].style != plain_style() by {
            assert(spans[i].start < spans[i].end);
        }
        assert forall|i: int, j: int| 0 <= i < j < after.len() implies (#[trigger] after[i]).end
            <= (#[trigger] after[j]).start && (after[i].end == after[j].start ==> after[i].style
            != after[j].style) by {
            assert(spans[i].end <= spans[j].start);
        }
    } else {
        let after = spans.push(JournalStyleSpan { start: start as u32, end: end as u32, style });
        assert forall|i: int, j: int| 0 <= i < j < after.len() implies (#[trigger] after[i]).end
            <= (#[trigger] after[j]).start && (after[i].end == after[j].start ==> after[i].style
            != after[j].style) by {
            if j == spans.len() && i < spans.len() - 1 {
                assert(spans[i].end <= spans[spans.len() - 1].start);
                assert(spans[spans.len() - 1].start < spans[spans.len() - 1].end);
            }
        }
    }
}

proof fn lemma_range_spans(ranges: Seq<(usize, usize, JournalStyle)>, length: int)
    requires
        ranges_in_order(ranges),
        forall|i: int| 0 <= i < ranges.len() ==> (#[trigger] ranges[i]).2 != plain_style(),
        0 <= length <= u32::MAX,
    ensures
        ({
            let spans = range_spans(ranges, length).spans;
            &&& !range_spans(ranges, length).overflow
            &&& spans_in_order(spans, length)
            &&& spans.len() > 0 ==> ranges.len() > 0 && spans.last().end <= ranges.last().1
        }),
    decreases ranges.len(),
{
    if ranges.len() > 0 {
        let front = ranges.drop_last();
        assert forall|i: int| 0 <= i < front.len() implies (#[trigger] front[i]).0 < front[i].1
            && front[i].2 != plain_style() by {
            assert(ranges[i].0 < ranges[i].1);
        }
        assert forall|i: int, j: int| 0 <= i < j < front.len() implies (#[trigger] front[i]).1
            <= (#[trigger] front[j]).0 by {
            assert(ranges[i].1 <= ranges[j].0);
        }
        lemma_range_spans(front, length);
        let before = range_spans(front, length).spans;
        let (start, range_end, style) = ranges.last();
        let end = if range_end < length {
            range_end as int
        } else {
            length
        };
        if front.len() > 0 {
            assert(ranges[ranges.len() - 2].1 <= ranges[ranges.len() - 1].0);
        }
        assert(ranges[ranges.len() - 1].0 < ranges[ranges.len() - 1].1);
        if start < end {
            lemma_span_is_added(before, start as int, end, style, length);
        }
    }
}

proof fn lemma_grapheme_spans(
    ranges: Seq<(usize, usize, JournalStyle)>,
    starts: Seq<usize>,
    length: int,
    count: int,
)
    requires
        0 <= count <= starts.len(),
        0 <= length <= u32::MAX,
        forall|i: int, j: int| 0 <= i < j < starts.len() ==> starts[i] < starts[j],
        forall|i: int| 0 <= i < starts.len() ==> #[trigger] starts[i] < length,
    ensures
        ({
            let spans = grapheme_spans(ranges, starts, length, count).spans;
            &&& spans_in_order(spans, length)
            &&& spans_cut_graphemes(spans, starts, length)
            &&& spans.len() > 0 ==> count > 0 && spans.last().end <= grapheme_end(
                starts,
                length,
                count - 1,
            )
        }),
    decreases count,
{
    if count > 0 {
        lemma_grapheme_spans(ranges, starts, length, count - 1);
        let before = grapheme_spans(ranges, starts, length, count - 1);
        let start = starts[count - 1] as int;
        let end = grapheme_end(starts, length, count - 1);
        let style = style_at(ranges, start);
        assert(between_graphemes(starts, length, start));
        if count < starts.len() {
            assert(starts[count - 1] < starts[count]);
            assert(starts[count] == end);
        }
        assert(between_graphemes(starts, length, end));
        if style != plain_style() {
            lemma_span_is_added(before.spans, start, end, style, length);
            let after = grapheme_spans(ranges, starts, length, count).spans;
            assert forall|i: int| 0 <= i < after.len() implies between_graphemes(
                starts,
                length,
                (#[trigger] after[i]).start as int,
            ) && between_graphemes(starts, length, after[i].end as int) by {
                if i < before.spans.len() {
                    assert(between_graphemes(starts, length, before.spans[i].start as int));
                    assert(between_graphemes(starts, length, before.spans[i].end as int));
                }
            }
        }
    }
}

/// The ranges that begin at `at` or before.
spec fn begun(ranges: Seq<(usize, usize, JournalStyle)>, at: int) -> int
    decreases ranges.len(),
{
    if ranges.len() == 0 {
        0
    } else {
        begun(ranges.drop_last(), at) + if ranges.last().0 <= at {
            1int
        } else {
            0
        }
    }
}

proof fn lemma_begun(ranges: Seq<(usize, usize, JournalStyle)>, one: int, other: int)
    requires
        one <= other,
    ensures
        0 <= begun(ranges, one) <= begun(ranges, other) <= ranges.len(),
        (exists|i: int| 0 <= i < ranges.len() && one < (#[trigger] ranges[i]).0 <= other)
            ==> begun(ranges, one) < begun(ranges, other),
    decreases ranges.len(),
{
    if ranges.len() > 0 {
        let front = ranges.drop_last();
        lemma_begun(front, one, other);
        if exists|i: int| 0 <= i < ranges.len() && one < (#[trigger] ranges[i]).0 <= other {
            let i = choose|i: int|
                0 <= i < ranges.len() && one < (#[trigger] ranges[i]).0 <= other;
            if i < front.len() {
                assert(front[i] == ranges[i]);
            }
        }
    }
}

/// A byte has a style of its own where a range holds it, and then it has the
/// style of that range.
proof fn lemma_style_of_range(ranges: Seq<(usize, usize, JournalStyle)>, at: int)
    requires
        ranges_in_order(ranges),
    ensures
        style_at(ranges, at) != plain_style() ==> exists|i: int|
            0 <= i < ranges.len() && (#[trigger] ranges[i]).0 <= at < ranges[i].1,
        forall|i: int|
            0 <= i < ranges.len() && (#[trigger] ranges[i]).0 <= at < ranges[i].1 ==> style_at(
                ranges,
                at,
            ) == ranges[i].2,
    decreases ranges.len(),
{
    if ranges.len() > 0 {
        let rest = ranges.skip(1);
        assert forall|i: int| 0 <= i < rest.len() implies (#[trigger] rest[i]).0 < rest[i].1 by {
            assert(rest[i] == ranges[i + 1]);
        }
        assert forall|i: int, j: int| 0 <= i < j < rest.len() implies (#[trigger] rest[i]).1 <= (
        #[trigger] rest[j]).0 by {
            assert(ranges[i + 1].1 <= ranges[j + 1].0);
        }
        lemma_style_of_range(rest, at);
        if ranges[0].1 <= at {
            if style_at(ranges, at) != plain_style() {
                let i = choose|i: int|
                    0 <= i < rest.len() && (#[trigger] rest[i]).0 <= at < rest[i].1;
                assert(ranges[i + 1].0 <= at < ranges[i + 1].1);
            }
            assert forall|i: int|
                0 <= i < ranges.len() && (#[trigger] ranges[i]).0 <= at
                    < ranges[i].1 implies style_at(ranges, at) == ranges[i].2 by {
                assert(rest[i - 1] == ranges[i]);
            }
        } else {
            assert forall|i: int|
                0 <= i < ranges.len() && (#[trigger] ranges[i]).0 <= at
                    < ranges[i].1 implies style_at(ranges, at) == ranges[i].2 by {
                if i > 0 {
                    assert(ranges[0].1 <= ranges[i].0);
                }
            }
        }
    }
}

/// There are no more spans than ranges.
proof fn lemma_spans_are_few(
    ranges: Seq<(usize, usize, JournalStyle)>,
    starts: Seq<usize>,
    length: int,
    count: int,
)
    requires
        0 <= count <= starts.len(),
        0 <= length <= u32::MAX,
        ranges_in_order(ranges),
        forall|i: int, j: int| 0 <= i < j < starts.len() ==> starts[i] < starts[j],
        forall|i: int| 0 <= i < starts.len() ==> #[trigger] starts[i] < length,
    ensures
        ({
            let found = grapheme_spans(ranges, starts, length, count);
            let at = starts[count - 1] as int;
            &&& !found.overflow
            &&& found.spans.len() <= ranges.len()
            &&& count == 0 ==> found.spans.len() == 0
            &&& count > 0 ==> found.spans.len() <= begun(ranges, at)
            &&& count > 0 && style_at(ranges, at) != plain_style() ==> found.spans.len() > 0
                && found.spans.last().end == grapheme_end(starts, length, count - 1)
                && found.spans.last().style == style_at(ranges, at)
        }),
    decreases count,
{
    if count > 0 {
        lemma_spans_are_few(ranges, starts, length, count - 1);
        let before = grapheme_spans(ranges, starts, length, count - 1).spans;
        let at = starts[count - 1] as int;
        let style = style_at(ranges, at);
        lemma_begun(ranges, at, at);
        lemma_style_of_range(ranges, at);
        if count < starts.len() {
            assert(starts[count - 1] < starts[count]);
        }
        if count > 1 {
            let previous = starts[count - 2] as int;
            assert(starts[count - 2] < starts[count - 1]);
            lemma_begun(ranges, previous, at);
            lemma_style_of_range(ranges, previous);
            if style != plain_style() {
                let i = choose|i: int|
                    0 <= i < ranges.len() && (#[trigger] ranges[i]).0 <= at < ranges[i].1;
                if ranges[i].0 <= previous {
                    assert(style_at(ranges, previous) == ranges[i].2);
                    assert(continues(before, at, style));
                } else {
                    assert(previous < ranges[i].0 <= at);
                }
            }
        } else if style != plain_style() {
            let i = choose|i: int|
                0 <= i < ranges.len() && (#[trigger] ranges[i]).0 <= at < ranges[i].1;
            lemma_begun(ranges, -1, at);
        }
    }
}

proof fn lemma_range_spans_are_few(ranges: Seq<(usize, usize, JournalStyle)>, length: int)
    ensures
        range_spans(ranges, length).spans.len() <= ranges.len(),
    decreases ranges.len(),
{
    if ranges.len() > 0 {
        lemma_range_spans_are_few(ranges.drop_last(), length);
    }
}

proof fn lemma_style_at_skips(ranges: Seq<(usize, usize, JournalStyle)>, index: int, at: int)
    requires
        0 <= index <= ranges.len(),
        forall|i: int| 0 <= i < index ==> (#[trigger] ranges[i]).1 <= at,
    ensures
        style_at(ranges, at) == style_at(ranges.skip(index), at),
    decreases index,
{
    if index == 0 {
        assert(ranges.skip(0) =~= ranges);
    } else {
        let rest = ranges.skip(1);
        assert forall|i: int| 0 <= i < index - 1 implies (#[trigger] rest[i]).1 <= at by {
            assert(rest[i] == ranges[i + 1]);
        }
        lemma_style_at_skips(rest, index - 1, at);
        assert(rest.skip(index - 1) =~= ranges.skip(index));
        assert(ranges[0].1 <= at);
    }
}

/// Graphemes behind all ranges add nothing.
proof fn lemma_plain_graphemes_add_nothing(
    ranges: Seq<(usize, usize, JournalStyle)>,
    starts: Seq<usize>,
    length: int,
    from: int,
    to: int,
)
    requires
        0 <= from <= to <= starts.len(),
        forall|i: int, j: int|
            from <= i < to && 0 <= j < ranges.len() ==> (#[trigger] ranges[j]).1
                <= #[trigger] starts[i],
    ensures
        grapheme_spans(ranges, starts, length, to) == grapheme_spans(ranges, starts, length, from),
    decreases to - from,
{
    if from < to {
        lemma_plain_graphemes_add_nothing(ranges, starts, length, from, to - 1);
        lemma_style_at_skips(ranges, ranges.len() as int, starts[to - 1] as int);
        assert(ranges.skip(ranges.len() as int) =~= Seq::empty());
    }
}

proof fn lemma_overflow_stays(
    ranges: Seq<(usize, usize, JournalStyle)>,
    starts: Seq<usize>,
    length: int,
    from: int,
    to: int,
)
    requires
        0 <= from <= to <= starts.len(),
        grapheme_spans(ranges, starts, length, from).overflow,
    ensures
        grapheme_spans(ranges, starts, length, to) == grapheme_spans(ranges, starts, length, from),
    decreases to - from,
{
    if from < to {
        lemma_overflow_stays(ranges, starts, length, from, to - 1);
    }
}

proof fn lemma_range_overflow_stays(
    ranges: Seq<(usize, usize, JournalStyle)>,
    length: int,
    from: int,
)
    requires
        0 <= from <= ranges.len(),
        range_spans(ranges.take(from), length).overflow,
    ensures
        range_spans(ranges, length) == range_spans(ranges.take(from), length),
    decreases ranges.len() - from,
{
    if from < ranges.len() {
        assert(ranges.take(from + 1).drop_last() =~= ranges.take(from));
        lemma_range_overflow_stays(ranges, length, from + 1);
    } else {
        assert(ranges.take(from) =~= ranges);
    }
}

/// The spans of an ASCII text of `length` bytes.
fn spans_of_ranges(ranges: &Vec<(usize, usize, JournalStyle)>, length: usize) -> (result: (
    Vec<JournalStyleSpan>,
    bool,
))
    ensures
        (Spans { spans: result.0@, overflow: result.1 }) == range_spans(ranges@, length as int),
{
    let mut spans: Vec<JournalStyleSpan> = Vec::new();
    let mut index: usize = 0;
    assert(ranges@.take(0) =~= Seq::empty());
    while index < ranges.len()
        invariant
            index <= ranges@.len(),
            (Spans { spans: spans@, overflow: false }) == range_spans(
                ranges@.take(index as int),
                length as int,
            ),
        decreases ranges@.len() - index,
    {
        let (start, range_end, style) = ranges[index];
        let end: usize = if range_end < length {
            range_end
        } else {
            length
        };
        let ghost before = spans@;
        proof {
            assert(ranges@.take(index + 1).drop_last() =~= ranges@.take(index as int));
        }
        index += 1;
        if start >= end {
            continue;
        }
        if start > u32::MAX as usize || end > u32::MAX as usize {
            proof {
                lemma_range_overflow_stays(ranges@, length as int, index as int);
            }
            return (spans, true);
        }
        let count: usize = spans.len();
        if count > 0 && spans[count - 1].end as usize == start && spans[count - 1].style == style {
            spans[count - 1].end = end as u32;
            assert(spans@ =~= with_end(before, end as u32));
        } else {
            spans.push(JournalStyleSpan { start: start as u32, end: end as u32, style });
        }
    }
    assert(ranges@.take(ranges@.len() as int) =~= ranges@);
    (spans, false)
}

/// The spans of a text of `length` bytes whose graphemes begin at `starts`.
fn spans_of_graphemes(
    ranges: &Vec<(usize, usize, JournalStyle)>,
    starts: &Vec<usize>,
    length: usize,
) -> (result: (Vec<JournalStyleSpan>, bool))
    requires
        ranges@.len() > 0,
        ranges_in_order(ranges@),
        forall|i: int, j: int| 0 <= i < j < starts@.len() ==> starts@[i] < starts@[j],
    ensures
        (Spans { spans: result.0@, overflow: result.1 }) == grapheme_spans(
            ranges@,
            starts@,
            length as int,
            starts@.len() as int,
        ),
{
    let last_styled_end: usize = ranges[ranges.len() - 1].1;
    let mut spans: Vec<JournalStyleSpan> = Vec::new();
    let mut range_index: usize = 0;
    let mut index: usize = 0;
    while index < starts.len()
        invariant
            index <= starts@.len(),
            range_index <= ranges@.len(),
            ranges@.len() > 0,
            ranges_in_order(ranges@),
            last_styled_end == ranges@.last().1,
            forall|i: int, j: int| 0 <= i < j < starts@.len() ==> starts@[i] < starts@[j],
            forall|i: int|
                0 <= i < range_index && index < starts@.len() ==> (#[trigger] ranges@[i]).1
                    <= starts@[index as int],
            (Spans { spans: spans@, overflow: false }) == grapheme_spans(
                ranges@,
                starts@,
                length as int,
                index as int,
            ),
        decreases starts@.len() - index,
    {
        let start: usize = starts[index];
        if start >= last_styled_end {
            proof {
                assert forall|i: int, j: int|
                    index <= i < starts@.len() && 0 <= j < ranges@.len() implies (
                #[trigger] ranges@[j]).1 <= #[trigger] starts@[i] by {
                    if j < ranges@.len() - 1 {
                        assert(ranges@[j].1 <= ranges@[ranges@.len() - 1].0);
                        assert(ranges@[ranges@.len() - 1].0 < ranges@[ranges@.len() - 1].1);
                    }
                    if i > index {
                        assert(starts@[index as int] < starts@[i]);
                    }
                }
                lemma_plain_graphemes_add_nothing(
                    ranges@,
                    starts@,
                    length as int,
                    index as int,
                    starts@.len() as int,
                );
            }
            return (spans, false);
        }
        let end: usize = if index + 1 < starts.len() {
            starts[index + 1]
        } else {
            length
        };
        while range_index < ranges.len() && ranges[range_index].1 <= start
            invariant
                range_index <= ranges@.len(),
                forall|i: int| 0 <= i < range_index ==> (#[trigger] ranges@[i]).1 <= start,
            decreases ranges@.len() - range_index,
        {
            range_index += 1;
        }
        let style: JournalStyle = if range_index < ranges.len() && ranges[range_index].0 <= start
            && start < ranges[range_index].1 {
            ranges[range_index].2
        } else {
            JournalStyle::default()
        };
        proof {
            lemma_style_at_skips(ranges@, range_index as int, start as int);
            let rest = ranges@.skip(range_index as int);
            if range_index < ranges@.len() {
                assert(rest[0] == ranges@[range_index as int]);
            }
            assert(style == style_at(ranges@, start as int));
            if index + 1 < starts@.len() {
                assert(starts@[index as int] < starts@[index + 1]);
            }
        }
        let ghost before = spans@;
        index += 1;
        if style == JournalStyle::default() {
            continue;
        }
        let count: usize = spans.len();
        if count > 0 && spans[count - 1].end as usize == start && spans[count - 1].style == style {
            spans[count - 1].end = end as u32;
            assert(spans@ =~= with_end(before, end as u32));
        } else if start <= u32::MAX as usize && end <= u32::MAX as usize {
            spans.push(JournalStyleSpan { start: start as u32, end: end as u32, style });
        } else {
            proof {
                lemma_overflow_stays(
                    ranges@,
                    starts@,
                    length as int,
                    index as int,
                    starts@.len() as int,
                );
            }
            return (spans, true);
        }
    }
    (spans, false)
}

/// All the bytes of the segments count as text.
pub open spec fn all_visible(segments: Seq<(JournalStyle, Seq<u8>)>) -> bool {
    forall|i: int, k: int|
        0 <= i < segments.len() && 0 <= k < segments[i].1.len() ==> visible(
            #[trigger] segments[i].1[k],
        )
}

/// The text holds no ASCII control character but the tab.
pub open spec fn no_controls(text: Seq<char>) -> bool {
    forall|i: int|
        0 <= i < text.len() && (#[trigger] text[i] as u32) < 128 ==> visible(text[i] as u8)
}

proof fn lemma_piece_is_visible(
    segments: Seq<(JournalStyle, Seq<u8>)>,
    index: int,
    piece: Seq<char>,
)
    requires
        all_visible(segments),
        0 <= index < segments.len(),
        forall|i: int|
            0 <= i < piece.len() && (#[trigger] piece[i] as u32) < 128 ==> segments[index].1.contains(
                piece[i] as u8,
            ),
    ensures
        no_controls(piece),
{
    assert forall|i: int| 0 <= i < piece.len() && (#[trigger] piece[i] as u32) < 128 implies visible(
        piece[i] as u8,
    ) by {
        let bytes = segments[index].1;
        let k = choose|k: int| 0 <= k < bytes.len() && bytes[k] == piece[i] as u8;
        assert(visible(segments[index].1[k]));
    }
}

/// What is left of a text when it is cut is its beginning.
proof fn lemma_clip_is_prefix(whole: Seq<char>, part: Seq<char>, limit: int)
    requires
        utf8(part) == clip_bytes(utf8(whole), limit),
        0 <= limit,
    ensures
        part.is_prefix_of(whole),
{
    let bytes = utf8(whole);
    lemma_utf8_valid(whole);
    lemma_utf8_valid(part);
    if bytes.len() > limit {
        let at = floor_char_boundary(bytes, limit);
        lemma_floor_char_boundary(bytes, limit);
        vstd::utf8::decode_utf8_split(bytes, at);
        assert(bytes.take(at) =~= bytes.subrange(0, at));
        assert(part =~= whole.subrange(0, part.len() as int));
    } else {
        assert(part =~= whole.subrange(0, part.len() as int));
    }
}

impl Collector {
    /// The collected text, cut to the maximum, with its style spans.
    pub fn finish(self) -> (result: StyledLogText)
        ensures
            result.text@ == collected_text(self@),
            result.style_spans@ == collected_spans(self@).spans,
            result.truncated == collected_truncated(self@),
            utf8(result.text@).len() <= self.maximum_bytes,
            utf8(result.text@).len() <= u32::MAX ==> spans_fit_text(
                result.style_spans@,
                result.text@,
            ) && result.style_spans@.len() <= self.segments@.len() && !collected_spans(
                self@,
            ).overflow,
            all_visible(self@.segments) ==> no_controls(result.text@),
            all_start_as_read(self@.segments),
    {
        let ghost segments = self@.segments;
        let mut text = String::new();
        let mut ranges: Vec<(usize, usize, JournalStyle)> = Vec::new();
        let mut index: usize = 0;
        assert(segments.take(0) =~= Seq::empty());
        assert(utf8(text@) =~= decoded_bytes(segments.take(0)));
        while index < self.segments.len()
            invariant
                index <= self.segments@.len(),
                segments == segment_views(self.segments@),
                utf8(text@) == decoded_bytes(segments.take(index as int)),
                ranges@ == styled_ranges(segments.take(index as int)),
                ranges_in_order(ranges@),
                ranges@.len() <= index,
                all_visible(segments) ==> no_controls(text@),
                forall|i: int| 0 <= i < index ==> starts_as_read((#[trigger] segments[i]).1),
                forall|i: int|
                    0 <= i < ranges@.len() ==> (#[trigger] ranges@[i]).1 <= utf8(text@).len()
                        && ranges@[i].2 != plain_style(),
            decreases self.segments@.len() - index,
        {
            let start: usize = byte_len(text.as_str());
            let style: JournalStyle = self.segments[index].0;
            let piece = read_lossy(self.segments[index].1.as_slice());
            proof {
                lemma_utf8_concat(text@, piece@);
                assert(segments.take(index + 1).drop_last() =~= segments.take(index as int));
                assert(segments.take(index + 1).last() == segments[index as int]);
                assert(segments[index as int].1 == self.segments@[index as int].1@);
                if all_visible(segments) {
                    lemma_piece_is_visible(segments, index as int, piece@);
                }
            }
            text.append(piece.as_str());
            let end: usize = byte_len(text.as_str());
            if style != JournalStyle::default() && start < end {
                ranges.push((start, end, style));
            }
            index += 1;
        }
        assert(segments.take(segments.len() as int) =~= segments);
        let full_length: usize = byte_len(text.as_str());
        let mut truncated = self.discarded || self.style_degraded || full_length
            > self.maximum_bytes;
        let ghost whole = text@;
        let text = clip_text(text.as_str(), self.maximum_bytes);
        proof {
            lemma_clip_is_prefix(whole, text@, self.maximum_bytes as int);
            lemma_utf8_valid(text@);
            assert(text@ == collected_text(self@));
        }
        let length: usize = byte_len(text.as_str());
        let style_spans: Vec<JournalStyleSpan>;
        let overflow: bool;
        if ranges.len() == 0 || text.as_str().is_ascii() {
            let (spans, beyond) = spans_of_ranges(&ranges, length);
            proof {
                lemma_range_spans_are_few(ranges@, length as int);
                if length <= u32::MAX {
                    lemma_range_spans(ranges@, length as int);
                }
            }
            style_spans = spans;
            overflow = beyond;
        } else {
            let starts = find_graphemes(text.as_str());
            let (spans, beyond) = spans_of_graphemes(&ranges, &starts, length);
            proof {
                if length <= u32::MAX {
                    lemma_grapheme_spans(
                        ranges@,
                        starts@,
                        length as int,
                        starts@.len() as int,
                    );
                    lemma_spans_are_few(
                        ranges@,
                        starts@,
                        length as int,
                        starts@.len() as int,
                    );
                }
            }
            style_spans = spans;
            overflow = beyond;
        }
        if overflow {
            truncated = true;
        }
        StyledLogText { text, style_spans, truncated }
    }
}

// ---------------------------------------------------------------------------
// Decoding a line.

/// The state and what has been collected, after one more byte: text is
/// collected only outside escape sequences.
pub open spec fn decode_step(at: (AnsiModel, Collected), byte: u8) -> (AnsiModel, Collected) {
    let (state, into) = at;
    (
        step(state, byte),
        if state.machine == MachineState::Ground && visible(byte) {
            collect(into, byte, state.style)
        } else {
            into
        },
    )
}

pub open spec fn decode_run(at: (AnsiModel, Collected), input: Seq<u8>) -> (AnsiModel, Collected)
    decreases input.len(),
{
    if input.len() == 0 {
        at
    } else {
        decode_step(decode_run(at, input.drop_last()), input.last())
    }
}

/// Decoding text leaves the machine in the state that reading the same bytes
/// without collecting them leaves.
pub proof fn law_decoding_advances_the_machine(at: (AnsiModel, Collected), input: Seq<u8>)
    ensures
        decode_run(at, input).0 == run(at.0, input),
    decreases input.len(),
{
    if input.len() > 0 {
        law_decoding_advances_the_machine(at, input.drop_last());
    }
}

/// Only bytes that count as text are collected.
proof fn lemma_collects_visible(at: (AnsiModel, Collected), input: Seq<u8>)
    requires
        all_visible(at.1.segments),
    ensures
        all_visible(decode_run(at, input).1.segments),
    decreases input.len(),
{
    if input.len() > 0 {
        lemma_collects_visible(at, input.drop_last());
        let (state, into) = decode_run(at, input.drop_last());
        let after = decode_run(at, input).1.segments;
        if state.machine == MachineState::Ground && visible(input.last()) && into.count
            < into.limit() {
            let before = into.segments;
            assert forall|i: int, k: int|
                0 <= i < after.len() && 0 <= k < after[i].1.len() implies visible(
                #[trigger] after[i].1[k],
            ) by {
                if i < before.len() && k < before[i].1.len() {
                    assert(after[i].1[k] == before[i].1[k]);
                } else {
                    assert(after[i].1[k] == input.last());
                }
            }
        }
    }
}

/// Outside sequences, text is collected in the current style.
proof fn lemma_ground_collects(at: (AnsiModel, Collected), input: Seq<u8>, from: int, to: int)
    requires
        0 <= from <= to <= input.len(),
        decode_run(at, input.take(from)).0.machine == MachineState::Ground,
        forall|i: int| from <= i < to ==> visible(#[trigger] input[i]),
    ensures
        ({
            let before = decode_run(at, input.take(from));
            decode_run(at, input.take(to)) == (
                before.0,
                collect_all(before.1, input.subrange(from, to), before.0.style),
            )
        }),
    decreases to - from,
{
    reveal(step);
    if from < to {
        lemma_ground_collects(at, input, from, to - 1);
        assert(input.take(to).drop_last() =~= input.take(to - 1));
        assert(input.subrange(from, to).drop_last() =~= input.subrange(from, to - 1));
        assert(visible(input[to - 1]));
    } else {
        assert(input.subrange(from, to) =~= Seq::empty());
    }
}

impl AnsiState {
    /// Decodes `input`, going on from the current state, to text of at most
    /// `maximum_bytes` bytes with its styles. Of a line in UTF-8, and of one that
    /// is hardly longer than the maximum, that is as much of what it shows as the
    /// maximum leaves. What is read of other lines where they are cut is left to
    /// how bytes that are not UTF-8 are read.
    pub fn decode_text(&mut self, input: &[u8], maximum_bytes: usize) -> (result: StyledLogText)
        requires
            old(self)@.wf(),
        ensures
            final(self)@ == run(old(self)@, input@),
            final(self)@.wf(),
            ({
                let collected = decode_run(
                    (old(self)@, Collected::empty(maximum_bytes)),
                    input@,
                ).1;
                &&& result.text@ == collected_text(collected)
                &&& result.style_spans@ == collected_spans(collected).spans
                &&& result.truncated == collected_truncated(collected)
            }),
            utf8(result.text@).len() <= maximum_bytes,
            utf8(result.text@).len() <= u32::MAX ==> spans_fit_text(
                result.style_spans@,
                result.text@,
            ) && result.style_spans@.len() <= MAX_STYLE_SEGMENTS,
            no_controls(result.text@),
            taken_in(shown(old(self)@, input@), maximum_bytes as int) ==> utf8(result.text@)
                == text_within(
                shown(old(self)@, input@),
                maximum_bytes as int,
            ),
            taken_in(shown(old(self)@, input@), maximum_bytes as int) && utf8(result.text@).len()
                <= u32::MAX ==> result.truncated == lost_within(
                shown(old(self)@, input@),
                maximum_bytes as int,
            ),
    {
        let ghost start = (self@, Collected::empty(maximum_bytes));
        let mut collector = Collector::new(maximum_bytes);
        assert(collector@.segments.len() == 0);
        let mut position: usize = 0;
        assert(input@.take(0) =~= Seq::<u8>::empty());
        while position < input.len()
            invariant
                position <= input@.len(),
                self@.wf(),
                (self@, collector@) == decode_run(start, input@.take(position as int)),
                collector.maximum_bytes == maximum_bytes,
                collector.segments@.len() <= MAX_STYLE_SEGMENTS,
            decreases input@.len() - position,
        {
            if self.machine == MachineState::Ground && is_visible_byte(input[position]) {
                let from: usize = position;
                while position < input.len() && is_visible_byte(input[position])
                    invariant
                        from <= position <= input@.len(),
                        forall|i: int| from <= i < position ==> visible(#[trigger] input@[i]),
                        from < input@.len(),
                        visible(input@[from as int]),
                    ensures
                        position > from,
                    decreases input@.len() - position,
                {
                    position += 1;
                }
                collector.push_slice(
                    vstd::slice::slice_subrange(input, from, position),
                    self.style,
                );
                proof {
                    lemma_ground_collects(start, input@, from as int, position as int);
                }
            } else {
                proof {
                    assert(input@.take(position + 1).drop_last() =~= input@.take(position as int));
                }
                self.process(input[position]);
                position += 1;
            }
        }
        proof {
            assert(input@.take(input@.len() as int) =~= input@);
            law_decoding_advances_the_machine(start, input@);
        }
        let result = collector.finish();
        proof {
            lemma_collects_visible(start, input@);
            if taken_in(shown(start.0, input@), maximum_bytes as int) {
                lemma_decoded_within(start.0, maximum_bytes, input@);
            }
        }
        result
    }
}

} // verus!
