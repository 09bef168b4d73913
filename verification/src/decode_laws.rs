//! What a line shows before any limit is put on it, and what a limit leaves.
use crate::ansi::{step, visible, AnsiModel, JournalStyle, MachineState};
use crate::collector::{
    decode_run, decode_step, decoded_bytes, extend_segments, Collected,
    MAX_STYLE_SEGMENTS,
};
use crate::outside::lossy_text;
use crate::text::{
    clip_bytes, floor_char_boundary, lemma_boundary_at_ends, lemma_floor_char_boundary,
    lemma_utf8_concat, utf8,
};
use vstd::prelude::*;
use vstd::utf8::{
    decode_utf8, is_char_boundary, length_of_first_scalar, pop_first_scalar, valid_utf8,
};

verus! {

/// The text of a line: runs of bytes of one style, and whether a style gave
/// way because there were too many runs.
#[verifier::ext_equal]
pub struct Shown {
    pub segments: Seq<(JournalStyle, Seq<u8>)>,
    pub degraded: bool,
}

pub open spec fn shown_step(at: (AnsiModel, Shown), byte: u8) -> (AnsiModel, Shown) {
    let (state, into) = at;
    (
        step(state, byte),
        if state.machine == MachineState::Ground && visible(byte) {
            Shown {
                segments: extend_segments(into.segments, seq![byte], state.style),
                degraded: into.degraded || (into.segments.len() >= MAX_STYLE_SEGMENTS
                    && into.segments.last().0 != state.style),
            }
        } else {
            into
        },
    )
}

pub open spec fn shown_run(at: (AnsiModel, Shown), input: Seq<u8>) -> (AnsiModel, Shown)
    decreases input.len(),
{
    if input.len() == 0 {
        at
    } else {
        shown_step(shown_run(at, input.drop_last()), input.last())
    }
}

/// What `input` shows, read from `state` on.
pub open spec fn shown(state: AnsiModel, input: Seq<u8>) -> Shown {
    shown_run((state, Shown { segments: Seq::empty(), degraded: false }), input).1
}

/// The bytes of all the segments, one after the other.
pub open spec fn joined(segments: Seq<(JournalStyle, Seq<u8>)>) -> Seq<u8>
    decreases segments.len(),
{
    if segments.len() == 0 {
        Seq::empty()
    } else {
        joined(segments.drop_last()) + segments.last().1
    }
}

/// Every segment is UTF-8.
pub open spec fn readable(segments: Seq<(JournalStyle, Seq<u8>)>) -> bool {
    forall|i: int| 0 <= i < segments.len() ==> valid_utf8((#[trigger] segments[i]).1)
}

/// The bytes of the text that is shown: those of the segments where they are
/// UTF-8, and else those that the segments are read as.
pub open spec fn shown_bytes(what: Shown) -> Seq<u8> {
    if readable(what.segments) {
        joined(what.segments)
    } else {
        decoded_bytes(what.segments)
    }
}

/// A text of at most `maximum` bytes is as much as it can be of what is shown:
/// it is UTF-8, or so short that all its bytes are read.
pub open spec fn taken_in(what: Shown, maximum: int) -> bool {
    readable(what.segments) || joined(what.segments).len() <= maximum + 4
}

/// The text that `maximum` bytes leave of what is shown.
pub open spec fn text_within(what: Shown, maximum: int) -> Seq<u8> {
    clip_bytes(shown_bytes(what), maximum)
}

/// Whether `maximum` bytes leave less than what is shown.
pub open spec fn lost_within(what: Shown, maximum: int) -> bool {
    what.degraded || shown_bytes(what).len() > maximum
}

/// UTF-8 at the beginning of `bytes` is read as it is.
pub open spec fn starts_as_read(bytes: Seq<u8>) -> bool {
    &&& valid_utf8(bytes) ==> lossy_text(bytes) == decode_utf8(bytes)
    &&& forall|count: int|
        0 <= count <= bytes.len() && valid_utf8(#[trigger] bytes.take(count)) ==> decode_utf8(
            bytes.take(count),
        ).is_prefix_of(lossy_text(bytes))
}

pub open spec fn all_start_as_read(segments: Seq<(JournalStyle, Seq<u8>)>) -> bool {
    forall|i: int| 0 <= i < segments.len() ==> starts_as_read((#[trigger] segments[i]).1)
}

// ---------------------------------------------------------------------------
// Character boundaries.

/// A boundary is never more than three bytes away.
proof fn lemma_boundary_is_near(bytes: Seq<u8>, near: int) -> (at: int)
    requires
        valid_utf8(bytes),
        0 <= near <= bytes.len(),
    ensures
        0 <= at <= near <= at + 3,
        is_char_boundary(bytes, at),
    decreases bytes.len(),
{
    lemma_boundary_at_ends(bytes);
    if bytes.len() == 0 {
        0
    } else {
        let length = length_of_first_scalar(bytes);
        if near < length {
            0
        } else {
            let at = lemma_boundary_is_near(pop_first_scalar(bytes), near - length);
            assert(is_char_boundary(bytes, at + length));
            at + length
        }
    }
}

/// A boundary below the limit is not above the one that is found.
proof fn lemma_floor_is_largest(bytes: Seq<u8>, limit: int, at: int)
    requires
        0 <= at <= limit,
        is_char_boundary(bytes, at),
    ensures
        at <= floor_char_boundary(bytes, limit),
    decreases limit,
{
    if limit > 0 && !is_char_boundary(bytes, limit) {
        lemma_floor_is_largest(bytes, limit - 1, at);
    }
}

/// Where two texts agree beyond the limit, they are cut at the same place.
proof fn lemma_floor_is_shared(one: Seq<u8>, other: Seq<u8>, limit: int)
    requires
        valid_utf8(one),
        valid_utf8(other),
        0 <= limit < one.len(),
        limit < other.len(),
        forall|i: int| 0 <= i <= limit ==> one[i] == other[i],
    ensures
        floor_char_boundary(one, limit) == floor_char_boundary(other, limit),
    decreases limit,
{
    vstd::utf8::is_char_boundary_iff_not_is_continuation_byte(one, limit);
    vstd::utf8::is_char_boundary_iff_not_is_continuation_byte(other, limit);
    if limit > 0 {
        lemma_floor_is_shared(one, other, limit - 1);
    }
}

proof fn lemma_clip_is_shared(one: Seq<u8>, other: Seq<u8>, limit: int)
    requires
        valid_utf8(one),
        valid_utf8(other),
        0 <= limit < one.len(),
        limit < other.len(),
        forall|i: int| 0 <= i <= limit ==> one[i] == other[i],
    ensures
        clip_bytes(one, limit) == clip_bytes(other, limit),
{
    lemma_floor_is_shared(one, other, limit);
    lemma_floor_char_boundary(one, limit);
    assert(clip_bytes(one, limit) =~= clip_bytes(other, limit));
}

proof fn lemma_clip_is_valid(bytes: Seq<u8>, limit: int)
    requires
        valid_utf8(bytes),
        0 <= limit,
    ensures
        valid_utf8(clip_bytes(bytes, limit)),
        clip_bytes(bytes, limit).is_prefix_of(bytes),
        clip_bytes(bytes, limit).len() <= limit,
{
    if bytes.len() > limit {
        lemma_floor_char_boundary(bytes, limit);
        let at = floor_char_boundary(bytes, limit);
        vstd::utf8::valid_utf8_split(bytes, at);
        assert(bytes.take(at) =~= bytes.subrange(0, at));
    }
}

// ---------------------------------------------------------------------------
// Joined segments.

proof fn lemma_joined_grows(
    segments: Seq<(JournalStyle, Seq<u8>)>,
    bytes: Seq<u8>,
    style: JournalStyle,
)
    ensures
        joined(extend_segments(segments, bytes, style)) == joined(segments) + bytes,
{
    let grown = extend_segments(segments, bytes, style);
    if segments.len() > 0 && (segments.last().0 == style || segments.len() >= MAX_STYLE_SEGMENTS) {
        assert(grown.drop_last() =~= segments.drop_last());
    } else {
        assert(grown.drop_last() =~= segments);
    }
    assert(joined(grown) =~= joined(segments) + bytes);
}

proof fn lemma_joined_front(segments: Seq<(JournalStyle, Seq<u8>)>, count: int)
    requires
        0 <= count <= segments.len(),
    ensures
        joined(segments.take(count)).is_prefix_of(joined(segments)),
    decreases segments.len() - count,
{
    if count == segments.len() {
        assert(segments.take(count) =~= segments);
    } else {
        lemma_joined_front(segments, count + 1);
        let more = segments.take(count + 1);
        assert(more.drop_last() =~= segments.take(count));
        assert(joined(more) == joined(segments.take(count)) + segments[count].1);
        assert(joined(segments.take(count)) =~= joined(segments).subrange(
            0,
            joined(segments.take(count)).len() as int,
        ));
    }
}

/// Segments of UTF-8 are read as they are.
proof fn lemma_joined_is_read(segments: Seq<(JournalStyle, Seq<u8>)>)
    requires
        readable(segments),
        all_start_as_read(segments),
    ensures
        decoded_bytes(segments) == joined(segments),
        valid_utf8(joined(segments)),
    decreases segments.len(),
{
    if segments.len() > 0 {
        let front = segments.drop_last();
        assert forall|i: int| 0 <= i < front.len() implies valid_utf8((#[trigger] front[i]).1)
            && starts_as_read(front[i].1) by {
            assert(front[i] == segments[i]);
        }
        lemma_joined_is_read(front);
        let last = segments[segments.len() - 1].1;
        assert(starts_as_read(last));
        vstd::utf8::decode_utf8_encode_utf8(last);
        vstd::utf8::valid_utf8_concat(joined(front), last);
    }
}

proof fn lemma_decoded_is_valid(segments: Seq<(JournalStyle, Seq<u8>)>)
    ensures
        valid_utf8(decoded_bytes(segments)),
    decreases segments.len(),
{
    if segments.len() > 0 {
        lemma_decoded_is_valid(segments.drop_last());
        let last = lossy_text(segments.last().1);
        vstd::utf8::encode_utf8_valid_utf8(last);
        vstd::utf8::valid_utf8_concat(decoded_bytes(segments.drop_last()), utf8(last));
    }
}

/// `part` is what is left of `whole` where the bytes end early.
spec fn cut_of(
    part: Seq<(JournalStyle, Seq<u8>)>,
    whole: Seq<(JournalStyle, Seq<u8>)>,
) -> bool {
    &&& 0 < part.len() <= whole.len()
    &&& forall|i: int| 0 <= i < part.len() - 1 ==> #[trigger] part[i] == whole[i]
    &&& part.last().1.is_prefix_of(whole[part.len() - 1].1)
}

/// Cut segments are read as the whole ones are, but for the character that
/// the cut splits.
proof fn lemma_cut_is_read(
    part: Seq<(JournalStyle, Seq<u8>)>,
    whole: Seq<(JournalStyle, Seq<u8>)>,
    sure: int,
)
    requires
        cut_of(part, whole),
        readable(whole),
        all_start_as_read(part),
        0 <= sure <= joined(part).len() - 3,
    ensures
        sure <= decoded_bytes(part).len(),
        sure <= joined(whole).len(),
        forall|i: int| 0 <= i < sure ==> decoded_bytes(part)[i] == joined(whole)[i],
{
    let last = part.len() - 1;
    let front = part.drop_last();
    let cut = part[last].1;
    let full = whole[last].1;
    assert forall|i: int| 0 <= i < front.len() implies valid_utf8((#[trigger] front[i]).1)
        && starts_as_read(front[i].1) by {
        assert(part[i] == whole[i]);
        assert(valid_utf8(whole[i].1));
    }
    lemma_joined_is_read(front);
    assert(valid_utf8(full));
    let kept = lemma_boundary_is_near(full, cut.len() as int);
    vstd::utf8::valid_utf8_split(full, kept);
    assert(full.subrange(0, kept) =~= cut.take(kept));
    assert(starts_as_read(cut));
    let text = lossy_text(cut);
    let begin = decode_utf8(cut.take(kept));
    assert(begin.is_prefix_of(text));
    let rest = text.skip(begin.len() as int);
    assert(text =~= begin + rest);
    lemma_utf8_concat(begin, rest);
    vstd::utf8::decode_utf8_encode_utf8(cut.take(kept));
    assert(utf8(text) == cut.take(kept) + utf8(rest));
    assert(decoded_bytes(part) == joined(front) + utf8(text));
    assert(whole.take(last) =~= front);
    lemma_joined_front(whole, last + 1);
    let longer = whole.take(last + 1);
    assert(longer.drop_last() =~= front);
    assert(joined(longer) == joined(front) + full);
    assert forall|i: int| 0 <= i < sure implies decoded_bytes(part)[i] == joined(whole)[i] by {
        assert(joined(whole)[i] == joined(longer)[i]);
    }
}

// ---------------------------------------------------------------------------
// What is collected of what is shown.

/// What is collected is what is shown, up to the limit.
spec fn limited(into: Collected, what: Shown) -> bool {
    let length = joined(what.segments).len();
    if length <= into.limit() {
        &&& into.segments == what.segments
        &&& into.count == length
        &&& !into.discarded
        &&& into.degraded == what.degraded
    } else {
        &&& into.count == into.limit()
        &&& into.discarded
        &&& into.degraded ==> what.degraded
        &&& joined(into.segments).len() == into.limit()
        &&& cut_of(into.segments, what.segments)
    }
}

proof fn lemma_still_limited(
    before: (AnsiModel, Collected),
    shown_before: (AnsiModel, Shown),
    byte: u8,
)
    requires
        before.0 == shown_before.0,
        before.1.maximum >= 0,
        limited(before.1, shown_before.1),
    ensures
        decode_step(before, byte).0 == shown_step(shown_before, byte).0,
        limited(decode_step(before, byte).1, shown_step(shown_before, byte).1),
        decode_step(before, byte).1.maximum == before.1.maximum,
        joined(shown_step(shown_before, byte).1.segments).len() <= joined(
            shown_before.1.segments,
        ).len() + 1,
{
    let state = before.0;
    if state.machine == MachineState::Ground && visible(byte) {
        let into = before.1;
        let what = shown_before.1;
        let next = shown_step(shown_before, byte).1;
        lemma_joined_grows(what.segments, seq![byte], state.style);
        if joined(what.segments).len() >= into.limit() {
            assert(cut_of(into.segments, next.segments)) by {
                let last = into.segments.len() - 1;
                assert(into.segments.len() > 0);
                assert(into.segments.last().1.is_prefix_of(what.segments[last].1));
                assert forall|i: int| 0 <= i < last implies #[trigger] into.segments[i]
                    == next.segments[i] by {
                    assert(into.segments[i] == what.segments[i]);
                }
                assert(what.segments[last].1.is_prefix_of(next.segments[last].1));
            }
        }
    }
}

proof fn lemma_limited(state: AnsiModel, maximum: usize, input: Seq<u8>)
    ensures
        ({
            let collected = decode_run((state, Collected::empty(maximum)), input);
            let all = shown_run(
                (state, Shown { segments: Seq::empty(), degraded: false }),
                input,
            );
            &&& collected.0 == all.0
            &&& collected.1.maximum == maximum
            &&& limited(collected.1, all.1)
            &&& joined(all.1.segments).len() <= input.len()
        }),
    decreases input.len(),
{
    if input.len() > 0 {
        lemma_limited(state, maximum, input.drop_last());
        lemma_still_limited(
            decode_run((state, Collected::empty(maximum)), input.drop_last()),
            shown_run(
                (state, Shown { segments: Seq::empty(), degraded: false }),
                input.drop_last(),
            ),
            input.last(),
        );
    }
}

/// The text that is decoded within a maximum is what the maximum leaves of
/// what is shown.
pub(crate) proof fn lemma_decoded_within(state: AnsiModel, maximum: usize, input: Seq<u8>)
    requires
        input.len() <= usize::MAX,
        taken_in(shown(state, input), maximum as int),
        all_start_as_read(decode_run((state, Collected::empty(maximum)), input).1.segments),
    ensures
        ({
            let collected = decode_run((state, Collected::empty(maximum)), input).1;
            let decoded = decoded_bytes(collected.segments);
            let what = shown(state, input);
            &&& collected.maximum == maximum
            &&& utf8(decode_utf8(clip_bytes(decoded, maximum as int))) == text_within(
                what,
                maximum as int,
            )
            &&& (collected.discarded || collected.degraded || decoded.len() > maximum)
                == lost_within(what, maximum as int)
        }),
{
    lemma_limited(state, maximum, input);
    let collected = decode_run((state, Collected::empty(maximum)), input).1;
    let decoded = decoded_bytes(collected.segments);
    let what = shown(state, input);
    let all = joined(what.segments);
    lemma_decoded_is_valid(collected.segments);
    lemma_clip_is_valid(decoded, maximum as int);
    vstd::utf8::decode_utf8_encode_utf8(clip_bytes(decoded, maximum as int));
    if all.len() <= collected.limit() {
        if readable(what.segments) {
            lemma_joined_is_read(what.segments);
        }
    } else {
        lemma_cut_is_read(collected.segments, what.segments, maximum + 1);
        lemma_readable_is_valid(what.segments);
        lemma_clip_is_shared(decoded, all, maximum as int);
    }
}

proof fn lemma_readable_is_valid(segments: Seq<(JournalStyle, Seq<u8>)>)
    requires
        readable(segments),
    ensures
        valid_utf8(joined(segments)),
    decreases segments.len(),
{
    if segments.len() > 0 {
        let front = segments.drop_last();
        assert forall|i: int| 0 <= i < front.len() implies valid_utf8((#[trigger] front[i]).1) by {
            assert(front[i] == segments[i]);
        }
        lemma_readable_is_valid(front);
        assert(valid_utf8(segments[segments.len() - 1].1));
        vstd::utf8::valid_utf8_concat(joined(front), segments.last().1);
    }
}

/// A smaller maximum leaves the longest part of the text that a larger one
/// leaves: the longest one that begins it, ends between characters and is not
/// too long. It loses something if and only if the larger one does or what the
/// larger one leaves is too long.
pub proof fn law_smaller_maximum_leaves_a_prefix(what: Shown, smaller: int, larger: int)
    requires
        0 <= smaller <= larger,
    ensures
        ({
            let short = text_within(what, smaller);
            let long = text_within(what, larger);
            &&& short.is_prefix_of(long)
            &&& short.len() <= smaller
            &&& is_char_boundary(long, short.len() as int)
            &&& forall|at: int|
                0 <= at <= smaller && #[trigger] is_char_boundary(long, at) ==> at <= short.len()
            &&& lost_within(what, smaller) == (lost_within(what, larger) || long.len() > smaller)
        }),
{
    let all = shown_bytes(what);
    let short = text_within(what, smaller);
    let long = text_within(what, larger);
    lemma_decoded_is_valid(what.segments);
    if readable(what.segments) {
        lemma_readable_is_valid(what.segments);
    }
    lemma_clip_is_valid(all, smaller);
    lemma_clip_is_valid(all, larger);
    lemma_boundary_at_ends(long);
    if long.len() > smaller {
        if all.len() > larger {
            lemma_clip_is_shared(all, long, smaller);
        }
        lemma_floor_char_boundary(long, smaller);
        assert(short == clip_bytes(long, smaller));
        assert forall|at: int| 0 <= at <= smaller && #[trigger] is_char_boundary(
            long,
            at,
        ) implies at <= short.len() by {
            lemma_floor_is_largest(long, smaller, at);
        }
    } else {
        if all.len() > smaller {
            lemma_floor_char_boundary(all, larger);
            lemma_floor_char_boundary(all, smaller);
            lemma_floor_is_largest(all, smaller, long.len() as int);
            lemma_floor_is_largest(all, larger, short.len() as int);
        }
        assert(short =~= long);
        assert forall|at: int| 0 <= at <= smaller && #[trigger] is_char_boundary(
            long,
            at,
        ) implies at <= short.len() by {
            lemma_boundary_is_within(long, at);
        }
    }
}

proof fn lemma_boundary_is_within(bytes: Seq<u8>, at: int)
    requires
        valid_utf8(bytes),
        is_char_boundary(bytes, at),
    ensures
        0 <= at <= bytes.len(),
{
}

} // verus!
