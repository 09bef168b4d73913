//! How texts are cut, told by what the parts hold.
use crate::known_hosts::{list_line, HostMarker, LineModel};
use crate::text::{clip_bytes, floor_char_boundary, pieces, space, words};
use vstd::prelude::*;
use vstd::utf8::{is_char_boundary, valid_utf8};

verus! {

// ---------------------------------------------------------------------------
// Cutting off.

proof fn lemma_floor_is_highest(bytes: Seq<u8>, limit: int, other: int)
    requires
        0 <= other <= limit,
        is_char_boundary(bytes, other),
    ensures
        other <= floor_char_boundary(bytes, limit),
    decreases limit,
{
    if limit > 0 && !is_char_boundary(bytes, limit) {
        lemma_floor_is_highest(bytes, limit - 1, other);
    }
}

/// A text that is cut keeps as much of its beginning as fits without a
/// character being split: it is a beginning of the text, it is not too long,
/// it ends between characters, and no longer one would do.
pub proof fn law_cut_text_is_the_longest_beginning(bytes: Seq<u8>, limit: int, other: int)
    requires
        valid_utf8(bytes),
        0 <= limit,
    ensures
        ({
            let cut = clip_bytes(bytes, limit);
            &&& cut.is_prefix_of(bytes)
            &&& cut.len() <= limit
            &&& is_char_boundary(bytes, cut.len() as int)
            &&& 0 <= other <= limit && other <= bytes.len() && is_char_boundary(bytes, other)
                ==> other <= cut.len()
            &&& bytes.len() <= limit ==> cut == bytes
        }),
{
    crate::text::lemma_boundary_at_ends(bytes);
    crate::text::lemma_floor_char_boundary(bytes, limit);
    if 0 <= other <= limit && is_char_boundary(bytes, other) {
        lemma_floor_is_highest(bytes, limit, other);
    }
}

// ---------------------------------------------------------------------------
// Lines and words.

/// Pieces put together again, with a mark between each two.
pub open spec fn rejoined(parts: Seq<Seq<char>>, mark: char) -> Seq<char>
    decreases parts.len(),
{
    if parts.len() == 0 {
        Seq::empty()
    } else if parts.len() == 1 {
        parts[0]
    } else {
        rejoined(parts.drop_last(), mark) + seq![mark] + parts.last()
    }
}

/// A text that is cut at a mark is its pieces with a mark between each two, and
/// no piece holds one.
pub proof fn law_pieces_are_what_stands_between_marks(text: Seq<char>, mark: char)
    ensures
        pieces(text, mark).len() > 0,
        rejoined(pieces(text, mark), mark) == text,
        forall|i: int|
            0 <= i < pieces(text, mark).len() ==> !(#[trigger] pieces(text, mark)[i]).contains(mark),
    decreases text.len(),
{
    let parts = pieces(text, mark);
    if text.len() == 0 {
        assert(rejoined(parts, mark) =~= text);
    } else {
        let front = text.drop_last();
        let last = text[text.len() - 1];
        law_pieces_are_what_stands_between_marks(front, mark);
        let earlier = pieces(front, mark);
        if last == mark {
            assert(parts.drop_last() =~= earlier);
            assert(front + seq![mark] + Seq::<char>::empty() =~= text);
            assert forall|i: int| 0 <= i < parts.len() implies !(
            #[trigger] parts[i]).contains(mark) by {
                if i < earlier.len() {
                    assert(parts[i] == earlier[i]);
                }
            }
        } else {
            assert(parts.drop_last() =~= earlier.drop_last());
            let word = earlier.last();
            if earlier.len() == 1 {
                assert(parts[0] =~= front.push(last));
                assert(front.push(last) =~= text);
            } else {
                let before = rejoined(earlier.drop_last(), mark) + seq![mark];
                assert(before + word.push(last) =~= (before + word).push(last));
                assert((before + word).push(last) =~= text);
            }
            assert forall|i: int| 0 <= i < parts.len() implies !(
            #[trigger] parts[i]).contains(mark) by {
                if i < earlier.len() - 1 {
                    assert(parts[i] == earlier[i]);
                } else {
                    assert(!earlier[i].contains(mark));
                    let longer = word.push(last);
                    if longer.contains(mark) {
                        let k = choose|k: int| 0 <= k < longer.len() && longer[k] == mark;
                        assert(word[k] == mark);
                        assert(word.contains(mark));
                    }
                }
            }
        }
    }
}

/// A text without white space.
pub open spec fn is_word(text: Seq<char>) -> bool {
    text.len() > 0 && forall|i: int| 0 <= i < text.len() ==> !space(#[trigger] text[i])
}

/// A text of white space alone.
pub open spec fn is_blank(text: Seq<char>) -> bool {
    forall|i: int| 0 <= i < text.len() ==> space(#[trigger] text[i])
}

/// Every word of a line has a character at least and no white space.
pub proof fn law_words_hold_no_space(line: Seq<char>)
    ensures
        forall|i: int| 0 <= i < words(line).len() ==> is_word(#[trigger] words(line)[i]),
        line.len() > 0 && !space(line.last()) ==> words(line).len() > 0,
    decreases line.len(),
{
    if line.len() > 0 {
        let front = line.drop_last();
        law_words_hold_no_space(front);
        let earlier = words(front);
        let all = words(line);
        let last = line[line.len() - 1];
        if !space(last) {
            if line.len() == 1 || space(line[line.len() - 2]) {
                assert forall|i: int| 0 <= i < all.len() implies is_word(#[trigger] all[i]) by {
                    if i < earlier.len() {
                        assert(all[i] == earlier[i]);
                    }
                }
            } else {
                assert(front.last() == line[line.len() - 2]);
                assert(earlier.len() > 0);
                assert forall|i: int| 0 <= i < all.len() implies is_word(#[trigger] all[i]) by {
                    assert(is_word(earlier[i]));
                }
            }
        }
    }
}

/// White space at the end of a line makes no difference to its words.
pub proof fn law_trailing_space_is_ignored(line: Seq<char>, blank: Seq<char>)
    requires
        is_blank(blank),
    ensures
        words(line + blank) == words(line),
    decreases blank.len(),
{
    if blank.len() == 0 {
        assert(line + blank =~= line);
    } else {
        let front = blank.drop_last();
        assert forall|i: int| 0 <= i < front.len() implies space(#[trigger] front[i]) by {
            assert(space(blank[i]));
        }
        law_trailing_space_is_ignored(line, front);
        let whole = line + blank;
        assert(whole.drop_last() =~= line + front);
        assert(whole.last() == blank[blank.len() - 1]);
        assert(space(blank[blank.len() - 1]));
    }
}

/// A word behind white space, or at the beginning of a line, is one more word
/// of the line.
pub proof fn law_word_is_added(line: Seq<char>, word: Seq<char>)
    requires
        is_word(word),
        line.len() == 0 || space(line.last()),
    ensures
        words(line + word) == words(line).push(word),
    decreases word.len(),
{
    let whole = line + word;
    let last = word[word.len() - 1];
    assert(whole.last() == last);
    if word.len() == 1 {
        assert(whole.drop_last() =~= line);
        assert(seq![last] =~= word);
        if line.len() > 0 {
            assert(whole[whole.len() - 2] == line.last());
        }
    } else {
        let front = word.drop_last();
        assert forall|i: int| 0 <= i < front.len() implies !space(#[trigger] front[i]) by {
            assert(!space(word[i]));
        }
        law_word_is_added(line, front);
        assert(whole.drop_last() =~= line + front);
        assert(whole[whole.len() - 2] == word[word.len() - 2]);
        assert(!space(word[word.len() - 2]));
        let earlier = words(line).push(front);
        assert(earlier.drop_last() =~= words(line));
        assert(front.push(last) =~= word);
    }
}

/// A line of a list of hosts that is blank or a comment says nothing, whichever
/// host is looked for; one that begins with a marker that is not known is not
/// well formed.
pub proof fn law_comments_say_nothing(line: Seq<char>, host: Seq<char>)
    ensures
        words(line).len() == 0 ==> list_line(line, host) == LineModel::Nothing,
        words(line).len() > 0 && words(line)[0][0] == '#' ==> list_line(line, host)
            == LineModel::Nothing,
        words(line).len() > 0 && words(line)[0][0] == '@' && words(line)[0] != "@revoked"@ && words(
            line,
        )[0] != "@cert-authority"@ ==> list_line(line, host) == LineModel::Invalid,
{
}

/// An entry of a line has the marker that stands before the hosts, and none
/// where none does.
pub proof fn law_markers_are_told(line: Seq<char>, host: Seq<char>)
    requires
        list_line(line, host) is Entry,
    ensures
        ({
            let entry = list_line(line, host)->Entry_0;
            let first = words(line)[0];
            &&& words(line).len() >= 3
            &&& entry.marker == Some(HostMarker::Revoked) <==> first == "@revoked"@
            &&& entry.marker == Some(HostMarker::CertAuthority) <==> first == "@cert-authority"@
            &&& entry.marker is None <==> first[0] != '@'
        }),
{
    reveal_strlit("@revoked");
    reveal_strlit("@cert-authority");
    assert("@revoked"@[0] == '@');
    assert("@cert-authority"@[0] == '@');
    assert("@revoked"@.len() != "@cert-authority"@.len());
}

} // verus!
