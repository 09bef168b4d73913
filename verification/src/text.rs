//! Text as bytes: lengths, clipping at character boundaries, and the parts of
//! Unicode handling that other crates supply.
use vstd::prelude::*;
use vstd::string::StrSliceExecFns;
use vstd::string::StringExecFns;
use vstd::utf8::{is_ascii_chars, decode_utf8, encode_utf8, is_char_boundary, valid_utf8};

verus! {

/// The UTF-8 bytes of a text.
pub open spec fn utf8(text: Seq<char>) -> Seq<u8> {
    encode_utf8(text)
}

/// The length of `text` in bytes.
pub fn byte_len(text: &str) -> (length: usize)
    ensures
        length == utf8(text@).len(),
{
    text.as_bytes().len()
}

/// A character takes at least a byte.
pub proof fn lemma_utf8_len(text: Seq<char>)
    ensures
        text.len() <= utf8(text).len(),
    decreases text.len(),
{
    if text.len() > 0 {
        lemma_utf8_len(text.drop_first());
    }
}

/// The largest character boundary of `bytes` that is not above `limit`.
pub open spec fn floor_char_boundary(bytes: Seq<u8>, limit: int) -> int
    decreases limit,
{
    if limit <= 0 || is_char_boundary(bytes, limit) {
        limit
    } else {
        floor_char_boundary(bytes, limit - 1)
    }
}

/// `bytes` cut down to at most `limit` bytes without splitting a character.
pub open spec fn clip_bytes(bytes: Seq<u8>, limit: int) -> Seq<u8> {
    if bytes.len() > limit {
        bytes.take(floor_char_boundary(bytes, limit))
    } else {
        bytes
    }
}

pub proof fn lemma_boundary_at_ends(bytes: Seq<u8>)
    requires
        valid_utf8(bytes),
    ensures
        is_char_boundary(bytes, 0),
        is_char_boundary(bytes, bytes.len() as int),
{
    broadcast use vstd::utf8::is_char_boundary_start_end_of_seq;
}

pub proof fn lemma_floor_char_boundary(bytes: Seq<u8>, limit: int)
    requires
        valid_utf8(bytes),
        0 <= limit,
    ensures
        0 <= floor_char_boundary(bytes, limit) <= limit,
        is_char_boundary(bytes, floor_char_boundary(bytes, limit)),
    decreases limit,
{
    lemma_boundary_at_ends(bytes);
    if limit > 0 && !is_char_boundary(bytes, limit) {
        lemma_floor_char_boundary(bytes, limit - 1);
    }
}

pub proof fn lemma_utf8_valid(text: Seq<char>)
    ensures
        valid_utf8(utf8(text)),
        decode_utf8(utf8(text)) == text,
{
    broadcast use {vstd::utf8::encode_utf8_valid_utf8, vstd::utf8::encode_utf8_decode_utf8};
}

/// Two texts with the same bytes are the same text.
pub proof fn lemma_utf8_injective(left: Seq<char>, right: Seq<char>)
    requires
        utf8(left) == utf8(right),
    ensures
        left == right,
{
    lemma_utf8_valid(left);
    lemma_utf8_valid(right);
}

/// The bytes of joined texts are the joined bytes.
pub proof fn lemma_utf8_concat(left: Seq<char>, right: Seq<char>)
    ensures
        utf8(left + right) == utf8(left) + utf8(right),
    decreases left.len(),
{
    if left.len() == 0 {
        assert(left + right =~= right);
        assert(utf8(left) + utf8(right) =~= utf8(right));
    } else {
        assert((left + right).drop_first() =~= left.drop_first() + right);
        lemma_utf8_concat(left.drop_first(), right);
        assert(utf8(left + right) =~= utf8(left) + utf8(right));
    }
}

/// The part of `text` before byte `end`.
pub fn take_bytes(text: &str, end: usize) -> (part: String)
    requires
        is_char_boundary(utf8(text@), end as int),
        end <= utf8(text@).len(),
    ensures
        utf8(part@) == utf8(text@).take(end as int),
{
    let (front, _) = text.split_at(end);
    front.to_owned()
}

/// A boundary of a text is one of every part of it that holds it.
pub proof fn lemma_boundary_in_part(bytes: Seq<u8>, start: int, end: int, at: int)
    requires
        valid_utf8(bytes),
        0 <= start <= at <= end <= bytes.len(),
        is_char_boundary(bytes, start),
        is_char_boundary(bytes, end),
        is_char_boundary(bytes, at),
    ensures
        valid_utf8(bytes.subrange(start, end)),
        is_char_boundary(bytes.subrange(start, end), at - start),
{
    let front = bytes.take(end);
    vstd::utf8::valid_utf8_split(bytes, end);
    assert(bytes.subrange(0, end) =~= front);
    lemma_boundary_at_ends(front);
    if start < end {
        vstd::utf8::is_char_boundary_iff_not_is_continuation_byte(bytes, start);
        vstd::utf8::is_char_boundary_iff_not_is_continuation_byte(front, start);
    }
    vstd::utf8::valid_utf8_split(front, start);
    let part = bytes.subrange(start, end);
    assert(front.subrange(start, front.len() as int) =~= part);
    lemma_boundary_at_ends(part);
    if at < end {
        vstd::utf8::is_char_boundary_iff_not_is_continuation_byte(bytes, at);
        vstd::utf8::is_char_boundary_iff_not_is_continuation_byte(part, at - start);
    }
}

/// The text between two character boundaries.
pub open spec fn text_between(text: Seq<char>, start: int, end: int) -> Seq<char> {
    decode_utf8(utf8(text).subrange(start, end))
}

/// The part of `text` from byte `start` to byte `end`.
pub fn slice_text(text: &str, start: usize, end: usize) -> (part: &str)
    requires
        start <= end <= utf8(text@).len(),
        is_char_boundary(utf8(text@), start as int),
        is_char_boundary(utf8(text@), end as int),
    ensures
        utf8(part@) == utf8(text@).subrange(start as int, end as int),
        part@ == text_between(text@, start as int, end as int),
{
    proof {
        lemma_utf8_valid(text@);
        lemma_boundary_at_ends(utf8(text@));
        lemma_boundary_in_part(utf8(text@), 0, end as int, start as int);
    }
    let (front, _) = text.split_at(end);
    let (_, part) = front.split_at(start);
    proof {
        lemma_utf8_valid(part@);
        assert(utf8(part@) =~= utf8(text@).subrange(start as int, end as int));
    }
    part
}

/// `text` cut down to at most `limit` bytes without splitting a character.
pub fn clip_text(text: &str, limit: usize) -> (clipped: String)
    ensures
        utf8(clipped@) == clip_bytes(utf8(text@), limit as int),
        utf8(clipped@).len() <= limit,
{
    if byte_len(text) <= limit {
        return text.to_owned();
    }
    proof {
        lemma_utf8_valid(text@);
        lemma_boundary_at_ends(utf8(text@));
    }
    let mut boundary: usize = limit;
    while boundary > 0 && !text.is_char_boundary(boundary)
        invariant
            boundary <= limit,
            floor_char_boundary(utf8(text@), boundary as int) == floor_char_boundary(
                utf8(text@),
                limit as int,
            ),
        decreases boundary,
    {
        boundary -= 1;
    }
    take_bytes(text, boundary)
}


// ---------------------------------------------------------------------------
// Numbers.

/// The character of a decimal digit.
pub open spec fn digit_char(digit: nat) -> char {
    (0x30 + digit) as char
}

/// A number in decimal, without leading zeros.
pub open spec fn decimal_text(number: nat) -> Seq<char>
    decreases number,
{
    if number < 10 {
        seq![digit_char(number)]
    } else {
        decimal_text(number / 10).push(digit_char(number % 10))
    }
}

fn digit_text(digit: u8) -> (text: &'static str)
    requires
        digit < 10,
    ensures
        text@ == seq![digit_char(digit as nat)],
{
    proof {
        reveal_strlit("0");
        reveal_strlit("1");
        reveal_strlit("2");
        reveal_strlit("3");
        reveal_strlit("4");
        reveal_strlit("5");
        reveal_strlit("6");
        reveal_strlit("7");
        reveal_strlit("8");
        reveal_strlit("9");
    }
    let text = match digit {
        0 => "0",
        1 => "1",
        2 => "2",
        3 => "3",
        4 => "4",
        5 => "5",
        6 => "6",
        7 => "7",
        8 => "8",
        _ => "9",
    };
    assert(text@ =~= seq![digit_char(digit as nat)]);
    text
}

/// `number` in decimal.
pub fn u64_text(number: u64) -> (text: String)
    ensures
        text@ == decimal_text(number as nat),
    decreases number,
{
    if number < 10 {
        digit_text(number as u8).to_owned()
    } else {
        let mut text = u64_text(number / 10);
        text.append(digit_text((number % 10) as u8));
        assert(text@ =~= decimal_text(number as nat));
        text
    }
}

/// `left` followed by `right`.
pub fn join(left: &str, right: &str) -> (text: String)
    ensures
        text@ == left@ + right@,
{
    let mut text = left.to_owned();
    text.append(right);
    text
}


/// A text of decimal digits.
pub open spec fn is_decimal(text: Seq<char>) -> bool {
    forall|i: int| 0 <= i < text.len() ==> '0' <= #[trigger] text[i] <= '9'
}

pub proof fn lemma_decimal_text(number: nat)
    ensures
        is_decimal(decimal_text(number)),
        decimal_text(number).len() > 0,
    decreases number,
{
    if number >= 10 {
        lemma_decimal_text(number / 10);
    }
}

/// Digits take one byte each.
pub proof fn lemma_decimal_len(text: Seq<char>)
    requires
        is_decimal(text),
    ensures
        utf8(text).len() == text.len(),
{
    assert(is_ascii_chars(text));
    vstd::utf8::is_ascii_chars_encode_utf8(text);
}

// ---------------------------------------------------------------------------
// Characters.

/// The last character of a text.
pub fn last_char(text: &str) -> (last: Option<char>)
    ensures
        last == if text@.len() == 0 {
            None
        } else {
            Some(text@.last())
        },
{
    let count: usize = text.unicode_len();
    if count == 0 {
        None
    } else {
        Some(text.get_char(count - 1))
    }
}

/// The characters of a text.
pub fn chars_of(text: &str) -> (chars: Vec<char>)
    ensures
        chars@ == text@,
{
    let mut chars: Vec<char> = Vec::new();
    for character in iter: text.chars()
        invariant
            iter.seq() == text@,
            chars@ == text@.take(iter.index() as int),
    {
        chars.push(character);
        assert(chars@ =~= text@.take(iter.index() + 1));
    }
    assert(text@.take(text@.len() as int) =~= text@);
    chars
}

/// The text of some characters.
pub fn text_from(chars: &Vec<char>, start: usize, end: usize) -> (text: String)
    requires
        start <= end <= chars@.len(),
    ensures
        text@ == chars@.subrange(start as int, end as int),
{
    let mut text = String::new();
    let mut index: usize = start;
    assert(chars@.subrange(start as int, start as int) =~= Seq::empty());
    while index < end
        invariant
            start <= index <= end <= chars@.len(),
            text@ == chars@.subrange(start as int, index as int),
        decreases end - index,
    {
        text.push(chars[index]);
        index += 1;
        assert(text@ =~= chars@.subrange(start as int, index as int));
    }
    text
}

/// Whether two texts are the same.
pub fn same_text(left: &str, right: &str) -> (same: bool)
    ensures
        same == (left@ == right@),
{
    let same = crate::bytes::same_bytes(left.as_bytes(), right.as_bytes());
    proof {
        if utf8(left@) == utf8(right@) {
            lemma_utf8_injective(left@, right@);
        }
    }
    same
}

// ---------------------------------------------------------------------------
// Words and lines.

/// The characters that Unicode counts as white space.
pub open spec fn space(character: char) -> bool {
    let code = character as u32;
    ||| 0x09 <= code <= 0x0d || code == 0x20 || code == 0x85 || code == 0xa0
    ||| code == 0x1680 || 0x2000 <= code <= 0x200a || code == 0x2028 || code == 0x2029
    ||| code == 0x202f || code == 0x205f || code == 0x3000
}

pub fn is_space(character: char) -> (yes: bool)
    ensures
        yes == space(character),
{
    let code: u32 = character as u32;
    0x09 <= code && code <= 0x0d || code == 0x20 || code == 0x85 || code == 0xa0 || code == 0x1680
        || 0x2000 <= code && code <= 0x200a || code == 0x2028 || code == 0x2029 || code == 0x202f
        || code == 0x205f || code == 0x3000
}

/// One text stands before another in the order of their characters, which is
/// that of their bytes.
pub open spec fn text_before(one: Seq<char>, other: Seq<char>) -> bool {
    exists|at: int| #[trigger] parts_before(one, other, at)
}

/// Two texts are the same up to a place where the first one ends or has the
/// smaller character.
pub open spec fn parts_before(one: Seq<char>, other: Seq<char>, at: int) -> bool {
    &&& 0 <= at <= one.len()
    &&& at < other.len()
    &&& forall|i: int| 0 <= i < at ==> #[trigger] one[i] == other[i]
    &&& at == one.len() || one[at] < other[at]
}

/// Texts stand in rising order; so none is there twice.
pub open spec fn rising(texts: Seq<Seq<char>>) -> bool {
    forall|i: int, j: int|
        0 <= i < j < texts.len() ==> text_before(#[trigger] texts[i], #[trigger] texts[j])
}

pub proof fn lemma_not_before_itself(text: Seq<char>)
    ensures
        !text_before(text, text),
{
}

pub proof fn lemma_before_follows(one: Seq<char>, middle: Seq<char>, other: Seq<char>)
    requires
        text_before(one, middle),
        text_before(middle, other),
    ensures
        text_before(one, other),
{
    let first = choose|at: int| #[trigger] parts_before(one, middle, at);
    let second = choose|at: int| #[trigger] parts_before(middle, other, at);
    let at = if first < second {
        first
    } else {
        second
    };
    assert forall|i: int| 0 <= i < at implies #[trigger] one[i] == other[i] by {
        assert(one[i] == middle[i]);
        assert(middle[i] == other[i]);
    }
    if first < second {
        assert(middle[first] == other[first]);
    } else if second < first {
        assert(one[second] == middle[second]);
    }
    assert(parts_before(one, other, at));
}

/// Of two texts that are not the same, one stands before the other.
pub proof fn lemma_before_or_behind(one: Seq<char>, other: Seq<char>, at: int)
    requires
        one != other,
        0 <= at <= one.len(),
        at <= other.len(),
        forall|i: int| 0 <= i < at ==> #[trigger] one[i] == other[i],
    ensures
        text_before(one, other) || text_before(other, one),
    decreases one.len() - at,
{
    if at == one.len() {
        if at == other.len() {
            assert(one =~= other);
        }
        assert(parts_before(one, other, at));
    } else if at == other.len() || other[at] < one[at] {
        assert(parts_before(other, one, at));
    } else if one[at] < other[at] {
        assert(parts_before(one, other, at));
    } else {
        lemma_before_or_behind(one, other, at + 1);
    }
}

/// Whether a text stands before another.
pub fn comes_before(one: &str, other: &str) -> (yes: bool)
    ensures
        yes == text_before(one@, other@),
{
    let left = chars_of(one);
    let right = chars_of(other);
    let mut at: usize = 0;
    while at < left.len() && at < right.len() && left[at] == right[at]
        invariant
            left@ == one@,
            right@ == other@,
            at <= left@.len(),
            at <= right@.len(),
            forall|i: int| 0 <= i < at ==> #[trigger] left@[i] == right@[i],
        decreases left@.len() - at,
    {
        at += 1;
    }
    let yes = at < right.len() && (at == left.len() || left[at] < right[at]);
    proof {
        if yes {
            assert(parts_before(one@, other@, at as int));
        } else {
            assert forall|k: int| !(#[trigger] parts_before(one@, other@, k)) by {
                if parts_before(one@, other@, k) {
                    if k > at {
                        assert(one@[at as int] == other@[at as int]);
                    } else if k < at {
                        assert(left@[k] == right@[k]);
                    }
                }
            }
        }
    }
    yes
}

/// The words of a line: what stands between white space.
pub open spec fn words(line: Seq<char>) -> Seq<Seq<char>>
    decreases line.len(),
{
    if line.len() == 0 {
        Seq::empty()
    } else {
        let earlier = words(line.drop_last());
        let last = line.last();
        if space(last) {
            earlier
        } else if line.len() == 1 || space(line[line.len() - 2]) {
            earlier.push(seq![last])
        } else {
            earlier.drop_last().push(earlier.last().push(last))
        }
    }
}

/// A word is being read at the end of a line.
pub open spec fn in_word(line: Seq<char>) -> bool {
    line.len() > 0 && !space(line.last())
}

/// A line that ends in a word has one.
pub proof fn lemma_in_word(line: Seq<char>)
    requires
        in_word(line),
    ensures
        words(line).len() > 0,
    decreases line.len(),
{
    if line.len() > 1 && !space(line[line.len() - 2]) {
        lemma_in_word(line.drop_last());
    }
}

pub open spec fn string_views(texts: Seq<String>) -> Seq<Seq<char>> {
    texts.map_values(|text: String| text@)
}

/// The words of some characters.
pub fn words_of(chars: &Vec<char>, start: usize, end: usize) -> (found: Vec<String>)
    requires
        start <= end <= chars@.len(),
    ensures
        string_views(found@) == words(chars@.subrange(start as int, end as int)),
{
    let mut found: Vec<String> = Vec::new();
    let mut open = String::new();
    let mut reading = false;
    let mut index: usize = start;
    assert(chars@.subrange(start as int, start as int) =~= Seq::empty());
    assert(string_views(found@) =~= Seq::empty());
    while index < end
        invariant
            start <= index <= end <= chars@.len(),
            reading == in_word(chars@.subrange(start as int, index as int)),
            words(chars@.subrange(start as int, index as int)) == if reading {
                string_views(found@).push(open@)
            } else {
                string_views(found@)
            },
            !reading ==> open@.len() == 0,
        decreases end - index,
    {
        let character = chars[index];
        let ghost shorter = chars@.subrange(start as int, index as int);
        let ghost longer = chars@.subrange(start as int, index + 1);
        proof {
            assert(longer.drop_last() =~= shorter);
            if index > start {
                assert(longer[longer.len() - 2] == shorter.last());
            }
        }
        if is_space(character) {
            if reading {
                let ghost before = string_views(found@);
                let ghost word = open@;
                found.push(open);
                open = String::new();
                assert(string_views(found@) =~= before.push(word));
            }
            reading = false;
        } else {
            let ghost word = open@;
            open.push(character);
            proof {
                if reading {
                    let before = string_views(found@);
                    assert(before.push(word).drop_last() =~= before);
                } else {
                    assert(open@ =~= seq![character]);
                }
            }
            reading = true;
        }
        index += 1;
    }
    if reading {
        let ghost before = string_views(found@);
        let ghost word = open@;
        found.push(open);
        assert(string_views(found@) =~= before.push(word));
    }
    found
}

/// A text cut at each `mark`.
pub open spec fn pieces(text: Seq<char>, mark: char) -> Seq<Seq<char>>
    decreases text.len(),
{
    if text.len() == 0 {
        seq![Seq::empty()]
    } else {
        let earlier = pieces(text.drop_last(), mark);
        if text.last() == mark {
            earlier.push(Seq::empty())
        } else {
            earlier.drop_last().push(earlier.last().push(text.last()))
        }
    }
}

pub proof fn lemma_pieces(text: Seq<char>, mark: char)
    ensures
        pieces(text, mark).len() > 0,
    decreases text.len(),
{
    if text.len() > 0 {
        lemma_pieces(text.drop_last(), mark);
    }
}

/// The characters in ASCII lower case.
pub open spec fn lower_char(character: char) -> char {
    if 'A' <= character <= 'Z' {
        (character as u32 + 32) as char
    } else {
        character
    }
}

pub open spec fn ascii_lower(text: Seq<char>) -> Seq<char> {
    text.map_values(|character: char| lower_char(character))
}

pub fn lower_case(character: char) -> (lower: char)
    ensures
        lower == lower_char(character),
{
    if 'A' <= character && character <= 'Z' {
        (character as u8 + 32) as char
    } else {
        character
    }
}

/// A text in ASCII lower case.
pub fn lower_text(text: &str) -> (lower: String)
    ensures
        lower@ == ascii_lower(text@),
{
    let chars = chars_of(text);
    let mut lower = String::new();
    let mut index: usize = 0;
    assert(lower@ =~= ascii_lower(chars@.take(0)));
    while index < chars.len()
        invariant
            index <= chars@.len(),
            chars@ == text@,
            lower@ == ascii_lower(chars@.take(index as int)),
        decreases chars@.len() - index,
    {
        lower.push(lower_case(chars[index]));
        index += 1;
        assert(lower@ =~= ascii_lower(chars@.take(index as int)));
    }
    assert(chars@.take(index as int) =~= chars@);
    lower
}

// ---------------------------------------------------------------------------
// Facts about pieces and words.

/// A text without the mark is one piece.
pub proof fn lemma_one_piece(text: Seq<char>, mark: char)
    requires
        !text.contains(mark),
    ensures
        pieces(text, mark) == seq![text],
    decreases text.len(),
{
    if text.len() == 0 {
        assert(text =~= Seq::empty());
    } else {
        let rest = text.drop_last();
        assert(text.last() != mark) by {
            assert(text.contains(text.last()));
        }
        assert(!rest.contains(mark)) by {
            if rest.contains(mark) {
                let i = choose|i: int| 0 <= i < rest.len() && rest[i] == mark;
                assert(text[i] == mark);
            }
        }
        lemma_one_piece(rest, mark);
        assert(rest.push(text.last()) =~= text);
        assert(seq![rest].drop_last().push(rest.push(text.last())) =~= seq![text]);
    }
}

/// A mark ends a piece: what follows it is cut by itself.
pub proof fn lemma_pieces_after_mark(left: Seq<char>, right: Seq<char>, mark: char)
    requires
        left.len() == 0 || left.last() == mark,
    ensures
        pieces(left + right, mark) == pieces(left, mark).drop_last() + pieces(right, mark),
    decreases right.len(),
{
    lemma_pieces(left, mark);
    lemma_pieces(right, mark);
    if right.len() == 0 {
        assert(left + right =~= left);
        assert(right =~= Seq::empty());
        let all = pieces(left, mark);
        assert(all.last() =~= Seq::empty());
        assert(all =~= all.drop_last() + seq![Seq::<char>::empty()]);
    } else {
        let rest = right.drop_last();
        lemma_pieces(rest, mark);
        lemma_pieces_after_mark(left, rest, mark);
        assert((left + right).drop_last() =~= left + rest);
        assert((left + right).last() == right.last());
        let start = pieces(left, mark).drop_last();
        let earlier = pieces(rest, mark);
        assert((start + earlier).last() == earlier.last());
        assert((start + earlier).drop_last() =~= start + earlier.drop_last());
        if right.last() == mark {
            assert((start + earlier).push(Seq::empty()) =~= start + earlier.push(Seq::empty()));
        } else {
            let last = earlier.last().push(right.last());
            assert((start + earlier.drop_last()).push(last) =~= start + earlier.drop_last().push(
                last,
            ));
        }
    }
}

/// A text without white space is one word.
pub proof fn lemma_one_word(text: Seq<char>)
    requires
        text.len() > 0,
        forall|i: int| 0 <= i < text.len() ==> !space(#[trigger] text[i]),
    ensures
        words(text) == seq![text],
    decreases text.len(),
{
    let rest = text.drop_last();
    if text.len() == 1 {
        assert(words(rest) =~= Seq::empty());
        assert(seq![text.last()] =~= text);
        assert(words(rest).push(text) =~= seq![text]);
    } else {
        assert forall|i: int| 0 <= i < rest.len() implies !space(#[trigger] rest[i]) by {
            assert(rest[i] == text[i]);
        }
        lemma_one_word(rest);
        assert(!space(text[text.len() - 2]));
        assert(rest.push(text.last()) =~= text);
        assert(seq![rest].drop_last().push(text) =~= seq![text]);
    }
}

/// White space ends a word: what follows it has words of its own.
pub proof fn lemma_words_after_space(left: Seq<char>, right: Seq<char>)
    requires
        left.len() > 0,
        space(left.last()),
    ensures
        words(left + right) == words(left) + words(right),
    decreases right.len(),
{
    let both = left + right;
    if right.len() == 0 {
        assert(both =~= left);
        assert(words(right) =~= Seq::empty());
        assert(words(left) + words(right) =~= words(left));
    } else {
        let rest = right.drop_last();
        lemma_words_after_space(left, rest);
        assert(both.drop_last() =~= left + rest);
        assert(both.last() == right.last());
        let start = words(left);
        let earlier = words(rest);
        if space(right.last()) {
        } else if right.len() == 1 {
            assert(both[both.len() - 2] == left.last());
            assert(earlier =~= Seq::empty());
            assert((start + earlier).push(seq![right.last()]) =~= start + earlier.push(
                seq![right.last()],
            ));
        } else {
            assert(both[both.len() - 2] == right[right.len() - 2]);
            if space(right[right.len() - 2]) {
                assert((start + earlier).push(seq![right.last()]) =~= start + earlier.push(
                    seq![right.last()],
                ));
            } else {
                assert(rest.last() == right[right.len() - 2]);
                lemma_in_word(rest);
                let last = earlier.last().push(right.last());
                assert((start + earlier).last() == earlier.last());
                assert((start + earlier).drop_last().push(last) =~= start
                    + earlier.drop_last().push(last));
            }
        }
    }
}

/// A line that is cut off keeps its words, but perhaps the last one.
pub proof fn lemma_words_of_cut(line: Seq<char>, cut: int)
    requires
        0 <= cut <= line.len(),
    ensures
        words(line.take(cut)).len() <= words(line).len(),
        forall|i: int|
            0 <= i < words(line.take(cut)).len() - 1 ==> #[trigger] words(line.take(cut))[i]
                == words(line)[i],
    decreases line.len(),
{
    if cut == line.len() {
        assert(line.take(cut) =~= line);
    } else {
        let rest = line.drop_last();
        assert(rest.take(cut) =~= line.take(cut));
        lemma_words_of_cut(rest, cut);
        if in_word(line) && line.len() > 1 && !space(line[line.len() - 2]) {
            lemma_in_word(rest);
        }
    }
}

/// The first word of a line that starts with one starts with the line.
pub proof fn lemma_first_word(line: Seq<char>)
    requires
        line.len() > 0,
        !space(line[0]),
    ensures
        words(line).len() > 0,
        words(line)[0].len() > 0,
        words(line)[0][0] == line[0],
    decreases line.len(),
{
    if line.len() > 1 {
        let rest = line.drop_last();
        assert(rest[0] == line[0]);
        lemma_first_word(rest);
        let earlier = words(rest);
        if !space(line.last()) && !space(line[line.len() - 2]) && earlier.len() == 1 {
            assert(earlier.drop_last().push(earlier.last().push(line.last()))[0]
                == earlier[0].push(line.last()));
        }
    } else {
        assert(words(line.drop_last()) =~= Seq::empty());
        assert(words(line) =~= seq![seq![line[0]]]);
    }
}

} // verus!
