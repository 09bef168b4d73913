//! Known hosts: reading a list of them, checking a server's key against it,
//! and adding the key of a host that is not in it.
use crate::bytes::same_bytes;
use crate::outside::{
    canonical_key, certificate_facts, certificate_holds, check_certificate, has_code, hash_prefix,
    hashed_host, hmac_sha1, key_comment, key_fingerprint, listed_patterns, public_key_of,
    read_certificate, read_hosts, read_public_key, read_utf8, HostList, ReadKey,
    MAX_KEY_TEXT_BYTES,
};
use crate::text::{
    ascii_lower, byte_len, chars_of, decimal_text, in_word, is_space, join,
    lemma_in_word, lemma_pieces, lemma_utf8_concat, lemma_utf8_len, lower_text, pieces,
    same_text, space, string_views, u64_text, utf8, words, words_of,
};
use vstd::prelude::*;
use vstd::string::StringExecFns;
use vstd::utf8::{decode_utf8, valid_utf8};

verus! {

pub const MAX_KNOWN_HOSTS_BYTES: usize = 8388608;

#[derive(Clone, Copy, Debug, PartialEq, Eq, Structural)]
pub enum HostKeyCheck {
    Trusted,
    Unknown,
    Changed,
    Revoked,
}

#[derive(Clone, Copy, Debug, PartialEq, Eq, Structural)]
pub enum KnownHostsError {
    TooLarge,
    InvalidEntry { line: usize },
    InvalidPort,
}

// ---------------------------------------------------------------------------
// Patterns.

/// Two bytes are the same but for the case of ASCII letters.
pub open spec fn same_letter(left: u8, right: u8) -> bool {
    lower_byte(left) == lower_byte(right)
}

pub open spec fn lower_byte(byte: u8) -> u8 {
    if 0x41 <= byte <= 0x5a {
        (byte + 32) as u8
    } else {
        byte
    }
}

fn is_same_letter(left: u8, right: u8) -> (same: bool)
    ensures
        same == same_letter(left, right),
{
    let left: u8 = if 0x41 <= left && left <= 0x5a {
        left + 32
    } else {
        left
    };
    let right: u8 = if 0x41 <= right && right <= 0x5a {
        right + 32
    } else {
        right
    };
    left == right
}

/// A byte of a pattern stands for a byte of a name.
pub open spec fn stands_for(pattern: u8, byte: u8) -> bool {
    pattern == 0x3f || same_letter(pattern, byte)
}

/// A pattern matches a name: a question mark stands for any byte, a star for
/// any number of bytes, and any other byte for itself.
pub open spec fn matches_name(pattern: Seq<u8>, name: Seq<u8>) -> bool
    decreases pattern.len(), name.len(),
{
    if pattern.len() == 0 {
        name.len() == 0
    } else if pattern[0] == 0x2a {
        matches_name(pattern.drop_first(), name) || name.len() > 0 && matches_name(
            pattern,
            name.drop_first(),
        )
    } else {
        name.len() > 0 && stands_for(pattern[0], name[0]) && matches_name(
            pattern.drop_first(),
            name.drop_first(),
        )
    }
}

/// How far the end of a pattern is from its last star that was met.
pub open spec fn stars_left(length: int, star: Option<int>) -> int {
    match star {
        None => length + 1,
        Some(at) => length - at,
    }
}

/// How a name is held against a pattern from left to right: `p` and `v` are
/// the places in the pattern and in the name. A star is first taken for as few
/// bytes as possible; `star` is the last one, and `from` the place up to which
/// it has been tried. A star in the name itself is a byte like any other.
pub open spec fn glob_run(
    pattern: Seq<u8>,
    name: Seq<u8>,
    p: int,
    v: int,
    star: Option<int>,
    from: int,
) -> bool
    decreases
        stars_left(pattern.len() as int, star),
        name.len() - from,
        name.len() - v,
        pattern.len() - p,
    when 0 <= p <= pattern.len() && 0 <= v <= name.len() && 0 <= from <= v && (star is Some ==> 0
        <= star->0 < p)
{
    if v < name.len() {
        if p < pattern.len() && stands_for(pattern[p], name[v]) {
            glob_run(pattern, name, p + 1, v + 1, star, from)
        } else if p < pattern.len() && pattern[p] == 0x2a {
            glob_run(pattern, name, p + 1, v, Some(p), v)
        } else if star is Some {
            glob_run(pattern, name, star->0 + 1, from + 1, star, from + 1)
        } else {
            false
        }
    } else {
        forall|i: int| p <= i < pattern.len() ==> pattern[i] == 0x2a
    }
}

/// Whether a pattern matches a name.
pub fn glob_match(pattern: &[u8], value: &[u8]) -> (matched: bool)
    ensures
        matched == glob_run(pattern@, value@, 0, 0, None, 0),
        !value@.contains(0x2a) ==> matched == matches_name(pattern@, value@),
{
    proof {
        if !value@.contains(0x2a) {
            assert forall|i: int| 0 <= i < value@.len() implies value@[i] != 0x2a by {
                assert(value@.contains(value@[i]));
            }
            law_glob_finds_every_match(pattern@, value@);
        }
    }
    let mut p: usize = 0;
    let mut v: usize = 0;
    let mut star: Option<usize> = None;
    let mut from: usize = 0;
    while v < value.len()
        invariant
            !value@.contains(0x2a) ==> glob_run(pattern@, value@, 0, 0, None, 0) == matches_name(
                pattern@,
                value@,
            ),
            p <= pattern@.len(),
            v <= value@.len(),
            from <= v,
            star matches Some(saved) ==> saved < p,
            glob_run(pattern@, value@, 0, 0, None, 0) == glob_run(
                pattern@,
                value@,
                p as int,
                v as int,
                match star {
                    Some(saved) => Some(saved as int),
                    None => None,
                },
                from as int,
            ),
        decreases
                stars_left(
                    pattern@.len() as int,
                    match star {
                        Some(saved) => Some(saved as int),
                        None => None,
                    },
                ),
                value@.len() - from,
                value@.len() - v,
                pattern@.len() - p,
    {
        if p < pattern.len() && (pattern[p] == 0x3f || is_same_letter(pattern[p], value[v])) {
            p += 1;
            v += 1;
        } else if p < pattern.len() && pattern[p] == 0x2a {
            star = Some(p);
            p += 1;
            from = v;
        } else if let Some(saved) = star {
            from += 1;
            v = from;
            p = saved + 1;
        } else {
            return false;
        }
    }
    let ghost start = p;
    while p < pattern.len() && pattern[p] == 0x2a
        invariant
            start <= p <= pattern@.len(),
            forall|i: int| start <= i < p ==> pattern@[i] == 0x2a,
        decreases pattern@.len() - p,
    {
        p += 1;
    }
    p == pattern.len()
}

/// The rest of a pattern matches the rest of a name.
spec fn rest_matches(pattern: Seq<u8>, name: Seq<u8>, p: int, v: int) -> bool {
    matches_name(pattern.skip(p), name.skip(v))
}

/// Some later part of the name matches.
spec fn later_matches(pattern: Seq<u8>, name: Seq<u8>, p: int, from: int) -> bool {
    exists|k: int| from <= k <= name.len() && #[trigger] rest_matches(pattern, name, p, k)
}

proof fn lemma_step(pattern: Seq<u8>, name: Seq<u8>, p: int, v: int)
    requires
        0 <= p < pattern.len(),
        0 <= v <= name.len(),
    ensures
        pattern[p] == 0x2a ==> rest_matches(pattern, name, p, v) == (rest_matches(
            pattern,
            name,
            p + 1,
            v,
        ) || v < name.len() && rest_matches(pattern, name, p, v + 1)),
        pattern[p] != 0x2a ==> rest_matches(pattern, name, p, v) == (v < name.len() && stands_for(
            pattern[p],
            name[v],
        ) && rest_matches(pattern, name, p + 1, v + 1)),
{
    assert(pattern.skip(p).drop_first() =~= pattern.skip(p + 1));
    if v < name.len() {
        assert(name.skip(v).drop_first() =~= name.skip(v + 1));
    }
}

/// A star matches where what follows it matches somewhere later.
proof fn lemma_star(pattern: Seq<u8>, name: Seq<u8>, p: int, v: int)
    requires
        0 <= p < pattern.len(),
        pattern[p] == 0x2a,
        0 <= v <= name.len(),
    ensures
        rest_matches(pattern, name, p, v) == later_matches(pattern, name, p + 1, v),
    decreases name.len() - v,
{
    lemma_step(pattern, name, p, v);
    if v < name.len() {
        lemma_star(pattern, name, p, v + 1);
        if later_matches(pattern, name, p + 1, v + 1) {
            let k = choose|k: int|
                v + 1 <= k <= name.len() && #[trigger] rest_matches(pattern, name, p + 1, k);
            assert(rest_matches(pattern, name, p + 1, k));
        }
        if later_matches(pattern, name, p + 1, v) && !rest_matches(pattern, name, p + 1, v) {
            let k = choose|k: int|
                v <= k <= name.len() && #[trigger] rest_matches(pattern, name, p + 1, k);
            assert(rest_matches(pattern, name, p + 1, k));
            assert(k >= v + 1);
        }
    }
}

/// Without a star a part of a pattern takes as many bytes as it has.
proof fn lemma_segment(pattern: Seq<u8>, name: Seq<u8>, start: int, p: int, v: int)
    requires
        0 <= start <= p <= pattern.len(),
        0 <= v <= name.len(),
        forall|i: int| start <= i < p ==> pattern[i] != 0x2a,
        rest_matches(pattern, name, start, v),
    ensures
        v + (p - start) <= name.len(),
        rest_matches(pattern, name, p, v + (p - start)),
    decreases p - start,
{
    if start < p {
        lemma_step(pattern, name, start, v);
        lemma_segment(pattern, name, start + 1, p, v + 1);
    }
}

proof fn lemma_end(pattern: Seq<u8>, name: Seq<u8>, p: int)
    requires
        0 <= p <= pattern.len(),
    ensures
        rest_matches(pattern, name, p, name.len() as int) == forall|i: int|
            p <= i < pattern.len() ==> pattern[i] == 0x2a,
    decreases pattern.len() - p,
{
    assert(name.skip(name.len() as int) =~= Seq::empty());
    if p == pattern.len() {
        assert(pattern.skip(p) =~= Seq::empty());
    } else {
        lemma_step(pattern, name, p, name.len() as int);
        lemma_end(pattern, name, p + 1);
        if pattern[p] == 0x2a && (forall|i: int| p + 1 <= i < pattern.len() ==> pattern[i] == 0x2a)
        {
            assert forall|i: int| p <= i < pattern.len() implies pattern[i] == 0x2a by {}
        }
    }
}

proof fn lemma_glob_run(
    pattern: Seq<u8>,
    name: Seq<u8>,
    p: int,
    v: int,
    star: Option<int>,
    from: int,
)
    requires
        0 <= p <= pattern.len(),
        0 <= v <= name.len(),
        0 <= from <= v,
        forall|i: int| 0 <= i < name.len() ==> name[i] != 0x2a,
        star matches Some(at) ==> {
            &&& 0 <= at < p
            &&& p - (at + 1) == v - from
            &&& forall|i: int| at + 1 <= i < p ==> pattern[i] != 0x2a
        },
    ensures
        glob_run(pattern, name, p, v, star, from) == (rest_matches(pattern, name, p, v) || (
        star matches Some(at) && later_matches(pattern, name, at + 1, from + 1))),
    decreases
            stars_left(pattern.len() as int, star),
            name.len() - from,
            name.len() - v,
            pattern.len() - p,
{
    if v < name.len() {
        if p < pattern.len() && stands_for(pattern[p], name[v]) {
            assert(pattern[p] != 0x2a);
            lemma_step(pattern, name, p, v);
            lemma_glob_run(pattern, name, p + 1, v + 1, star, from);
        } else if p < pattern.len() && pattern[p] == 0x2a {
            lemma_glob_run(pattern, name, p + 1, v, Some(p), v);
            lemma_star(pattern, name, p, v);
            if later_matches(pattern, name, p + 1, v) && !rest_matches(pattern, name, p + 1, v) {
                let k = choose|k: int|
                    v <= k <= name.len() && #[trigger] rest_matches(pattern, name, p + 1, k);
                assert(rest_matches(pattern, name, p + 1, k) && k >= v + 1);
            }
            if later_matches(pattern, name, p + 1, v + 1) {
                let k = choose|k: int|
                    v + 1 <= k <= name.len() && #[trigger] rest_matches(pattern, name, p + 1, k);
                assert(rest_matches(pattern, name, p + 1, k));
            }
            if star is Some && later_matches(pattern, name, star->0 + 1, from + 1) {
                let start = star->0 + 1;
                let k = choose|k: int|
                    from + 1 <= k <= name.len() && #[trigger] rest_matches(
                        pattern,
                        name,
                        start,
                        k,
                    );
                lemma_segment(pattern, name, start, p, k);
                let later = k + (p - start);
                lemma_star(pattern, name, p, later);
                let j = choose|j: int|
                    later <= j <= name.len() && #[trigger] rest_matches(pattern, name, p + 1, j);
                assert(rest_matches(pattern, name, p + 1, j) && v <= j);
            }
        } else {
            if p < pattern.len() {
                lemma_step(pattern, name, p, v);
            } else {
                assert(pattern.skip(p) =~= Seq::empty());
            }
            if star is Some {
                let start = star->0 + 1;
                lemma_glob_run(pattern, name, start, from + 1, star, from + 1);
                if later_matches(pattern, name, start, from + 1) && !rest_matches(
                    pattern,
                    name,
                    start,
                    from + 1,
                ) {
                    let k = choose|k: int|
                        from + 1 <= k <= name.len() && #[trigger] rest_matches(
                            pattern,
                            name,
                            start,
                            k,
                        );
                    assert(rest_matches(pattern, name, start, k) && k >= from + 2);
                }
                if later_matches(pattern, name, start, from + 2) {
                    let k = choose|k: int|
                        from + 2 <= k <= name.len() && #[trigger] rest_matches(
                            pattern,
                            name,
                            start,
                            k,
                        );
                    assert(rest_matches(pattern, name, start, k));
                }
                if rest_matches(pattern, name, start, from + 1) {
                    assert(later_matches(pattern, name, start, from + 1));
                }
            }
        }
    } else {
        lemma_end(pattern, name, p);
        if star is Some && later_matches(pattern, name, star->0 + 1, from + 1) {
            let start = star->0 + 1;
            let k = choose|k: int|
                from + 1 <= k <= name.len() && #[trigger] rest_matches(pattern, name, start, k);
            lemma_segment(pattern, name, start, p, k);
        }
    }
}

/// A name without stars is matched by the patterns that match it: nothing is
/// missed by trying a star on few bytes first.
pub proof fn law_glob_finds_every_match(pattern: Seq<u8>, name: Seq<u8>)
    requires
        forall|i: int| 0 <= i < name.len() ==> name[i] != 0x2a,
    ensures
        glob_run(pattern, name, 0, 0, None, 0) == matches_name(pattern, name),
{
    lemma_glob_run(pattern, name, 0, 0, None, 0);
    assert(pattern.skip(0) =~= pattern);
    assert(name.skip(0) =~= name);
}

// ---------------------------------------------------------------------------
// Hosts.

/// The name under which a host is looked up: by itself at the usual port, else
/// with the port.
pub open spec fn lookup_name(host: Seq<char>, port: u16) -> Seq<char> {
    let lower = ascii_lower(host);
    if port == 22 {
        lower
    } else {
        seq!['['] + lower + seq![']', ':'] + decimal_text(port as nat)
    }
}

pub fn lookup_text(host: &str, port: u16) -> (name: String)
    ensures
        name@ == lookup_name(host@, port),
{
    let lower = lower_text(host);
    if port == 22 {
        return lower;
    }
    let mut name = String::new();
    name.push('[');
    name.append(lower.as_str());
    name.push(']');
    name.push(':');
    let number = u64_text(port as u64);
    name.append(number.as_str());
    assert(name@ =~= lookup_name(host@, port));
    name
}

/// A pattern that excludes a host matches it.
pub open spec fn excludes(pattern: Seq<char>, host: Seq<char>) -> bool {
    pattern.len() > 0 && pattern[0] == '!' && glob_run(
        utf8(pattern.skip(1)),
        utf8(host),
        0,
        0,
        None,
        0,
    )
}

/// A pattern that includes a host matches it.
pub open spec fn includes_host(pattern: Seq<char>, host: Seq<char>) -> bool {
    !(pattern.len() > 0 && pattern[0] == '!') && glob_run(utf8(pattern), utf8(host), 0, 0, None, 0)
}

/// A list of patterns is about a host: one includes it and none excludes it.
pub open spec fn patterns_match(patterns: Seq<Seq<char>>, host: Seq<char>) -> bool {
    &&& exists|i: int| 0 <= i < patterns.len() && includes_host(#[trigger] patterns[i], host)
    &&& forall|i: int| 0 <= i < patterns.len() ==> !excludes(#[trigger] patterns[i], host)
}

/// The hosts of a line; none where they are not well formed.
pub open spec fn hosts_match(text: Seq<char>, host: Seq<char>) -> Option<bool> {
    if hash_prefix().is_prefix_of(text) {
        match hashed_host(text.skip(3)) {
            Some((salt, hash)) => Some(hmac_sha1(salt, utf8(host)) == hash),
            None => None,
        }
    } else if text.len() == 0 {
        None
    } else {
        Some(patterns_match(listed_patterns(text), host))
    }
}

fn patterns_hold(patterns: &Vec<String>, host: &str) -> (yes: bool)
    ensures
        yes == patterns_match(string_views(patterns@), host@),
{
    let ghost models = string_views(patterns@);
    let mut positive = false;
    let mut index: usize = 0;
    while index < patterns.len()
        invariant
            index <= patterns@.len(),
            models == string_views(patterns@),
            positive == exists|i: int| 0 <= i < index && includes_host(#[trigger] models[i], host@),
            forall|i: int| 0 <= i < index ==> !excludes(#[trigger] models[i], host@),
        decreases patterns@.len() - index,
    {
        let pattern = patterns[index].as_str();
        assert(models[index as int] == pattern@);
        let chars = chars_of(pattern);
        if chars.len() > 0 && chars[0] == '!' {
            let rest = crate::text::text_from(&chars, 1, chars.len());
            assert(rest@ =~= pattern@.skip(1));
            if glob_match(rest.as_str().as_bytes(), host.as_bytes()) {
                assert(excludes(models[index as int], host@));
                return false;
            }
        } else if glob_match(pattern.as_bytes(), host.as_bytes()) {
            assert(includes_host(models[index as int], host@));
            positive = true;
        }
        index += 1;
    }
    positive
}

/// Whether the hosts of a line hold a host; none where they are not well
/// formed.
pub fn host_matches(hosts: &str, host: &str) -> (held: Option<bool>)
    ensures
        held == hosts_match(hosts@, host@),
{
    match read_hosts(hosts) {
        None => None,
        Some(HostList::Hashed { salt, hash }) => Some(
            has_code(salt.as_slice(), host.as_bytes(), hash.as_slice()),
        ),
        Some(HostList::Patterns(patterns)) => Some(patterns_hold(&patterns, host)),
    }
}

// ---------------------------------------------------------------------------
// Lists.

/// What a line says about its key.
#[derive(Clone, Copy, Debug, PartialEq, Eq, Structural)]
pub enum HostMarker {
    CertAuthority,
    Revoked,
}

/// An entry of a list that is about the host.
#[derive(Clone, Debug)]
pub struct HostEntry {
    pub marker: Option<HostMarker>,
    pub algorithm: String,
    pub key: Vec<u8>,
}

#[verifier::ext_equal]
pub struct EntryModel {
    pub marker: Option<HostMarker>,
    pub algorithm: Seq<char>,
    pub key: Seq<u8>,
}

impl View for HostEntry {
    type V = EntryModel;

    open spec fn view(&self) -> EntryModel {
        EntryModel { marker: self.marker, algorithm: self.algorithm@, key: self.key@ }
    }
}

pub open spec fn entry_views(entries: Seq<HostEntry>) -> Seq<EntryModel> {
    entries.map_values(|entry: HostEntry| entry@)
}

/// The algorithm and the encoding of the key in a text; a text that is too long
/// holds none.
pub open spec fn key_in(text: Seq<char>) -> Option<(Seq<char>, Seq<u8>)> {
    if utf8(text).len() <= MAX_KEY_TEXT_BYTES {
        public_key_of(text)
    } else {
        None
    }
}

/// Reads the key in a text; an error as its text.
fn read_key_text(text: &str) -> (key: Result<ReadKey, String>)
    ensures
        match key_in(text@) {
            Some((algorithm, bytes)) => {
                &&& key matches Ok(key)
                &&& key.algorithm@ == algorithm
                &&& key.bytes@ == bytes
                &&& key.comment@ == key_comment(text@)
                &&& key.line@ == canonical_key(text@)
                &&& key.fingerprint@ == key_fingerprint(bytes)
                &&& words(key.line@).len() >= 2
                &&& public_key_of(words(key.line@)[0].push(' ') + words(key.line@)[1])
                    == public_key_of(text@)
                &&& !text@.contains('\n') ==> !key.line@.contains('\n')
                &&& !key.fingerprint@.contains('\n')
            },
            None => key is Err,
        },
{
    if byte_len(text) > MAX_KEY_TEXT_BYTES {
        return Err("public key is too long".to_owned());
    }
    read_public_key(text)
}

/// What a line of a list gives.
pub enum LineModel {
    /// Nothing that is about the host.
    Nothing,
    Entry(EntryModel),
    Invalid,
}

pub open spec fn marker_of(word: Seq<char>) -> Option<HostMarker> {
    if word == "@cert-authority"@ {
        Some(HostMarker::CertAuthority)
    } else if word == "@revoked"@ {
        Some(HostMarker::Revoked)
    } else {
        None
    }
}

/// A line about hosts: the hosts, the kind of the key and the key.
pub open spec fn entry_line(
    marker: Option<HostMarker>,
    fields: Seq<Seq<char>>,
    host: Seq<char>,
) -> LineModel {
    if fields.len() < 3 {
        LineModel::Invalid
    } else {
        match hosts_match(fields[0], host) {
            None => LineModel::Invalid,
            Some(false) => LineModel::Nothing,
            Some(true) => match key_in(fields[1].push(' ') + fields[2]) {
                None => LineModel::Invalid,
                Some((algorithm, key)) => LineModel::Entry(EntryModel { marker, algorithm, key }),
            },
        }
    }
}

/// A line of a list. Empty lines and comments give nothing; a marker may stand
/// before the hosts.
pub open spec fn list_line(line: Seq<char>, host: Seq<char>) -> LineModel {
    let fields = words(line);
    if fields.len() == 0 || fields[0][0] == '#' {
        LineModel::Nothing
    } else if fields[0][0] == '@' {
        match marker_of(fields[0]) {
            None => LineModel::Invalid,
            marker => entry_line(marker, fields.drop_first(), host),
        }
    } else {
        entry_line(None, fields, host)
    }
}

/// The entries of the lines of a list that are about the host, or the number
/// of the first line that is not well formed.
pub open spec fn list_entries(lines: Seq<Seq<char>>, host: Seq<char>) -> Result<
    Seq<EntryModel>,
    int,
>
    decreases lines.len(),
{
    if lines.len() == 0 {
        Ok(Seq::empty())
    } else {
        match list_entries(lines.drop_last(), host) {
            Err(line) => Err(line),
            Ok(earlier) => match list_line(lines.last(), host) {
                LineModel::Nothing => Ok(earlier),
                LineModel::Entry(entry) => Ok(earlier.push(entry)),
                LineModel::Invalid => Err(lines.len() as int),
            },
        }
    }
}

proof fn lemma_words_not_empty(line: Seq<char>)
    ensures
        forall|i: int| 0 <= i < words(line).len() ==> (#[trigger] words(line)[i]).len() > 0,
    decreases line.len(),
{
    if line.len() > 0 {
        lemma_words_not_empty(line.drop_last());
        if in_word(line) && line.len() > 1 && !crate::text::space(line[line.len() - 2]) {
            crate::text::lemma_in_word(line.drop_last());
        }
    }
}

proof fn lemma_invalid_line_stays(lines: Seq<Seq<char>>, host: Seq<char>, count: int)
    requires
        0 <= count <= lines.len(),
        list_entries(lines.take(count), host) is Err,
    ensures
        list_entries(lines, host) == list_entries(lines.take(count), host),
    decreases lines.len() - count,
{
    if count == lines.len() {
        assert(lines.take(count) =~= lines);
    } else {
        assert(lines.take(count + 1).drop_last() =~= lines.take(count));
        lemma_invalid_line_stays(lines, host, count + 1);
    }
}

/// What a line of a list gives.
enum ListLine {
    Nothing,
    Entry(HostEntry),
    Invalid,
}

impl ListLine {
    spec fn model(self) -> LineModel {
        match self {
            ListLine::Nothing => LineModel::Nothing,
            ListLine::Entry(entry) => LineModel::Entry(entry@),
            ListLine::Invalid => LineModel::Invalid,
        }
    }
}

fn read_entry(marker: Option<HostMarker>, fields: &Vec<String>, first: usize, host: &str) -> (line:
    ListLine)
    requires
        first <= fields@.len(),
    ensures
        line.model() == entry_line(marker, string_views(fields@).skip(first as int), host@),
{
    let count: usize = fields.len();
    if count - first < 3 {
        return ListLine::Invalid;
    }
    let ghost models = string_views(fields@).skip(first as int);
    assert(models[0] == fields@[first as int]@);
    assert(models[1] == fields@[first + 1]@);
    assert(models[2] == fields@[first + 2]@);
    match host_matches(fields[first].as_str(), host) {
        None => ListLine::Invalid,
        Some(false) => ListLine::Nothing,
        Some(true) => {
            let mut text = fields[first + 1].clone();
            text.push(' ');
            text.append(fields[first + 2].as_str());
            match read_key_text(text.as_str()) {
                Err(_) => ListLine::Invalid,
                Ok(key) => ListLine::Entry(
                    HostEntry { marker, algorithm: key.algorithm, key: key.bytes },
                ),
            }
        },
    }
}

fn first_char(text: &str) -> (first: char)
    requires
        text@.len() > 0,
    ensures
        first == text@[0],
{
    vstd::string::StrSliceExecFns::get_char(text, 0)
}

fn read_line(chars: &Vec<char>, start: usize, end: usize, host: &str) -> (line: ListLine)
    requires
        start <= end <= chars@.len(),
    ensures
        line.model() == list_line(chars@.subrange(start as int, end as int), host@),
{
    let fields = words_of(chars, start, end);
    let ghost models = string_views(fields@);
    proof {
        lemma_words_not_empty(chars@.subrange(start as int, end as int));
    }
    if fields.len() == 0 {
        return ListLine::Nothing;
    }
    assert(models[0] == fields@[0]@);
    let first = first_char(fields[0].as_str());
    if first == '#' {
        return ListLine::Nothing;
    }
    if first == '@' {
        let marker = if same_text(fields[0].as_str(), "@cert-authority") {
            HostMarker::CertAuthority
        } else if same_text(fields[0].as_str(), "@revoked") {
            HostMarker::Revoked
        } else {
            return ListLine::Invalid;
        };
        assert(models.skip(1) =~= models.drop_first());
        return read_entry(Some(marker), &fields, 1, host);
    }
    assert(models.skip(0) =~= models);
    read_entry(None, &fields, 0, host)
}

/// The entries of a list of known hosts that are about one host.
#[derive(Clone, Debug)]
pub struct KnownHostsVerifier {
    host: String,
    port: u16,
    entries: Vec<HostEntry>,
}

impl KnownHostsVerifier {
    /// The host, in lower case.
    pub closed spec fn host(self) -> Seq<char> {
        self.host@
    }

    pub closed spec fn port(self) -> u16 {
        self.port
    }

    pub closed spec fn entries(self) -> Seq<EntryModel> {
        entry_views(self.entries@)
    }

    /// Reads a list.
    pub fn parse(contents: &str, host: &str, port: u16) -> (verifier: Result<
        Self,
        KnownHostsError,
    >)
        ensures
            ({
                let listed = list_entries(pieces(contents@, '\n'), lookup_name(host@, port));
                match verifier {
                    Ok(verifier) => {
                        &&& port != 0
                        &&& utf8(contents@).len() <= MAX_KNOWN_HOSTS_BYTES
                        &&& listed == Ok::<_, int>(verifier.entries())
                        &&& verifier.host() == ascii_lower(host@)
                        &&& verifier.port() == port
                    },
                    Err(error) => if port == 0 {
                        error == KnownHostsError::InvalidPort
                    } else if utf8(contents@).len() > MAX_KNOWN_HOSTS_BYTES {
                        error == KnownHostsError::TooLarge
                    } else {
                        error matches KnownHostsError::InvalidEntry { line } && listed == Err::<
                            Seq<EntryModel>,
                            _,
                        >(line as int)
                    },
                }
            }),
    {
        if port == 0 {
            return Err(KnownHostsError::InvalidPort);
        }
        if byte_len(contents) > MAX_KNOWN_HOSTS_BYTES {
            return Err(KnownHostsError::TooLarge);
        }
        let lookup = lookup_text(host, port);
        let chars = chars_of(contents);
        let length: usize = chars.len();
        proof {
            lemma_utf8_len(contents@);
        }
        let ghost lines = pieces(contents@, '\n');
        let mut entries: Vec<HostEntry> = Vec::new();
        let mut start: usize = 0;
        let mut index: usize = 0;
        let mut number: usize = 0;
        proof {
            lemma_pieces(chars@.take(0), '\n');
            assert(entry_views(entries@) =~= Seq::empty());
            assert(chars@.take(0) =~= Seq::empty());
            assert(pieces(chars@.take(0), '\n').drop_last() =~= Seq::empty());
            assert(chars@.subrange(0, 0) =~= Seq::empty());
        }
        while index < length
            invariant
                start <= index <= length == chars@.len(),
                chars@ == contents@,
                lines == pieces(contents@, '\n'),
                port != 0,
                utf8(contents@).len() <= MAX_KNOWN_HOSTS_BYTES,
                lookup@ == lookup_name(host@, port),
                number <= index,
                length <= MAX_KNOWN_HOSTS_BYTES,
                ({
                    let read = pieces(chars@.take(index as int), '\n');
                    &&& read.len() == number + 1
                    &&& read.last() == chars@.subrange(start as int, index as int)
                    &&& list_entries(read.drop_last(), lookup@) == Ok::<_, int>(
                        entry_views(entries@),
                    )
                }),
            decreases length - index,
        {
            let ghost read = pieces(chars@.take(index as int), '\n');
            let ghost longer = pieces(chars@.take(index + 1), '\n');
            assert(chars@.take(index + 1).drop_last() =~= chars@.take(index as int));
            if chars[index] == '\n' {
                let line = read_line(&chars, start, index, lookup.as_str());
                proof {
                    assert(longer =~= read.push(Seq::empty()));
                    assert(longer.drop_last() =~= read);
                    assert(list_line(read.last(), lookup@) == line.model());
                }
                number += 1;
                match line {
                    ListLine::Nothing => {},
                    ListLine::Entry(entry) => {
                        let ghost before = entry_views(entries@);
                        let ghost model = entry@;
                        entries.push(entry);
                        assert(entry_views(entries@) =~= before.push(model));
                    },
                    ListLine::Invalid => {
                        proof {
                            lemma_pieces_grow(chars@, '\n', index + 1);
                            assert(chars@.take(length as int) =~= chars@);
                            lemma_invalid_line_stays(lines, lookup@, number as int);
                        }
                        return Err(KnownHostsError::InvalidEntry { line: number });
                    },
                }
                start = index + 1;
                assert(chars@.subrange(start as int, index + 1) =~= Seq::empty());
            } else {
                proof {
                    lemma_pieces(chars@.take(index as int), '\n');
                    assert(longer.drop_last() =~= read.drop_last());
                    assert(chars@.subrange(start as int, index + 1) =~= chars@.subrange(
                        start as int,
                        index as int,
                    ).push(chars@[index as int]));
                }
            }
            index += 1;
        }
        assert(chars@.take(length as int) =~= chars@);
        let line = read_line(&chars, start, length, lookup.as_str());
        assert(list_line(lines.last(), lookup@) == line.model());
        match line {
            ListLine::Nothing => {},
            ListLine::Entry(entry) => {
                let ghost before = entry_views(entries@);
                let ghost model = entry@;
                entries.push(entry);
                assert(entry_views(entries@) =~= before.push(model));
            },
            ListLine::Invalid => {
                return Err(KnownHostsError::InvalidEntry { line: number + 1 });
            },
        }
        Ok(KnownHostsVerifier { host: lower_text(host), port, entries })
    }

    pub fn target(&self) -> (target: (&str, u16))
        ensures
            target.0@ == self.host(),
            target.1 == self.port(),
    {
        (self.host.as_str(), self.port)
    }

    pub fn has_matching_entries(&self) -> (yes: bool)
        ensures
            yes == (self.entries().len() > 0),
    {
        self.entries.len() > 0
    }
}

/// The lines before the last one stay as a text goes on.
proof fn lemma_pieces_grow(text: Seq<char>, mark: char, count: int)
    requires
        0 <= count <= text.len(),
    ensures
        pieces(text.take(count), mark).len() <= pieces(text, mark).len(),
        pieces(text, mark).take(pieces(text.take(count), mark).len() - 1) == pieces(
            text.take(count),
            mark,
        ).drop_last(),
    decreases text.len() - count,
{
    lemma_pieces(text.take(count), mark);
    if count == text.len() {
        assert(text.take(count) =~= text);
        assert(pieces(text, mark).take(pieces(text, mark).len() - 1) =~= pieces(
            text,
            mark,
        ).drop_last());
    } else {
        lemma_pieces_grow(text, mark, count + 1);
        let shorter = pieces(text.take(count), mark);
        let longer = pieces(text.take(count + 1), mark);
        assert(text.take(count + 1).drop_last() =~= text.take(count));
        assert(longer.take(shorter.len() - 1) =~= shorter.drop_last());
        assert(pieces(text, mark).take(shorter.len() - 1) =~= pieces(text, mark).take(
            longer.len() - 1,
        ).take(shorter.len() - 1));
        if text[count] != mark {
            assert(longer.drop_last() =~= shorter.drop_last());
        } else {
            assert(longer.drop_last() =~= shorter);
            assert(shorter.take(shorter.len() - 1) =~= shorter.drop_last());
        }
    }
}

// ---------------------------------------------------------------------------
// Keys.

/// A certificate for the key of a server.
#[derive(Clone, Debug)]
pub struct HostCertificate {
    pub for_host: bool,
    pub has_options: bool,
    pub principals: Vec<String>,
    pub authority: Vec<u8>,
    /// It is signed as it should be, and its time has come and is not over.
    pub holds: bool,
}

/// The key that a server shows.
#[derive(Clone, Debug)]
pub struct ServerKey {
    pub algorithm: String,
    pub key: Vec<u8>,
    pub comment: Vec<u8>,
    pub certificate: Option<HostCertificate>,
}

#[verifier::ext_equal]
pub struct HostCertificateModel {
    pub for_host: bool,
    pub has_options: bool,
    pub principals: Seq<Seq<char>>,
    pub authority: Seq<u8>,
    pub holds: bool,
}

#[verifier::ext_equal]
pub struct ServerKeyModel {
    pub algorithm: Seq<char>,
    pub key: Seq<u8>,
    pub comment: Seq<u8>,
    pub certificate: Option<HostCertificateModel>,
}

impl View for HostCertificate {
    type V = HostCertificateModel;

    open spec fn view(&self) -> HostCertificateModel {
        HostCertificateModel {
            for_host: self.for_host,
            has_options: self.has_options,
            principals: string_views(self.principals@),
            authority: self.authority@,
            holds: self.holds,
        }
    }
}

impl View for ServerKey {
    type V = ServerKeyModel;

    open spec fn view(&self) -> ServerKeyModel {
        ServerKeyModel {
            algorithm: self.algorithm@,
            key: self.key@,
            comment: self.comment@,
            certificate: match self.certificate {
                Some(certificate) => Some(certificate@),
                None => None,
            },
        }
    }
}

impl ServerKey {
    /// The key in a line as OpenSSH writes it; an error as its text.
    pub fn read_key(line: &str) -> (key: Result<Self, String>)
        ensures
            match key_in(line@) {
                Some((algorithm, bytes)) => key matches Ok(key) && key@ == (ServerKeyModel {
                    algorithm,
                    key: bytes,
                    comment: key_comment(line@),
                    certificate: None,
                }),
                None => key is Err,
            },
    {
        match read_key_text(line) {
            Ok(key) => Ok(
                ServerKey {
                    algorithm: key.algorithm,
                    key: key.bytes,
                    comment: key.comment,
                    certificate: None,
                },
            ),
            Err(error) => Err(error),
        }
    }

    /// The key that the certificate in a line is about, at a time in seconds
    /// since the epoch; an error as its text. A text that is too long is read
    /// as none.
    pub fn read_certificate(line: &str, seconds: u64) -> (key: Result<Self, String>)
        ensures
            match certificate_facts(line@) {
                Some(facts) if utf8(line@).len() <= MAX_KEY_TEXT_BYTES => key matches Ok(key)
                    && key@ == (ServerKeyModel {
                    algorithm: Seq::empty(),
                    key: facts.public,
                    comment: Seq::empty(),
                    certificate: Some(
                        HostCertificateModel {
                            for_host: !facts.for_user,
                            has_options: facts.options.len() > 0,
                            principals: facts.principals,
                            authority: facts.authority,
                            holds: certificate_holds(line@, seconds),
                        },
                    ),
                }),
                _ => key is Err,
            },
    {
        if byte_len(line) > MAX_KEY_TEXT_BYTES {
            return Err("certificate is too long".to_owned());
        }
        match read_certificate(line) {
            Ok((_, facts)) => {
                let holds = check_certificate(line, seconds);
                let certificate = HostCertificate {
                    for_host: !facts.for_user,
                    has_options: facts.options.len() > 0,
                    principals: facts.principals,
                    authority: facts.authority,
                    holds,
                };
                Ok(
                    ServerKey {
                        algorithm: String::new(),
                        key: facts.public,
                        comment: Vec::new(),
                        certificate: Some(certificate),
                    },
                )
            },
            Err(error) => Err(error),
        }
    }
}

/// An entry lists the key of a server. Listed keys have no comment, and keys
/// with different comments are different keys.
pub open spec fn lists(entry: EntryModel, server: ServerKeyModel) -> bool {
    entry.key == server.key && server.comment.len() == 0
}

/// An entry takes back the key of a server or the key that signed its
/// certificate.
pub open spec fn revokes(entry: EntryModel, server: ServerKeyModel) -> bool {
    entry.marker == Some(HostMarker::Revoked) && (lists(entry, server) || (
    server.certificate matches Some(certificate) && entry.key == certificate.authority))
}

pub open spec fn is_revoked(entries: Seq<EntryModel>, server: ServerKeyModel) -> bool {
    exists|i: int| 0 <= i < entries.len() && revokes(#[trigger] entries[i], server)
}

/// An entry lets the key sign certificates.
pub open spec fn authorizes(entry: EntryModel, authority: Seq<u8>) -> bool {
    entry.marker == Some(HostMarker::CertAuthority) && entry.key == authority
}

/// A certificate is good for the host: it is one for hosts, without critical
/// options, and names the host where it names any.
pub open spec fn certifies(certificate: HostCertificateModel, host: Seq<char>) -> bool {
    &&& certificate.for_host
    &&& !certificate.has_options
    &&& certificate.principals.len() == 0 || exists|i: int|
        0 <= i < certificate.principals.len() && ascii_lower(#[trigger] certificate.principals[i])
            == ascii_lower(host)
}

/// What the entries about a host say of the key of a server.
pub open spec fn checked_key(
    entries: Seq<EntryModel>,
    host: Seq<char>,
    server: ServerKeyModel,
) -> HostKeyCheck {
    if is_revoked(entries, server) {
        HostKeyCheck::Revoked
    } else {
        match server.certificate {
            Some(certificate) => if !certifies(certificate, host) {
                HostKeyCheck::Changed
            } else if exists|i: int|
                0 <= i < entries.len() && authorizes(
                    #[trigger] entries[i],
                    certificate.authority,
                ) {
                if certificate.holds {
                    HostKeyCheck::Trusted
                } else {
                    HostKeyCheck::Changed
                }
            } else {
                HostKeyCheck::Unknown
            },
            None => if exists|i: int|
                0 <= i < entries.len() && (#[trigger] entries[i]).marker is None && lists(
                    entries[i],
                    server,
                ) {
                HostKeyCheck::Trusted
            } else if exists|i: int|
                0 <= i < entries.len() && (#[trigger] entries[i]).marker is None
                    && entries[i].algorithm == server.algorithm {
                HostKeyCheck::Changed
            } else {
                HostKeyCheck::Unknown
            },
        }
    }
}

/// Two texts are the same but for the case of ASCII letters.
fn same_name(left: &str, right: &str) -> (same: bool)
    ensures
        same == (ascii_lower(left@) == ascii_lower(right@)),
{
    let left = lower_text(left);
    let right = lower_text(right);
    same_text(left.as_str(), right.as_str())
}

fn names_host(principals: &Vec<String>, host: &str) -> (yes: bool)
    ensures
        yes == exists|i: int|
            0 <= i < principals@.len() && ascii_lower(#[trigger] string_views(principals@)[i])
                == ascii_lower(host@),
{
    let ghost names = string_views(principals@);
    let mut index: usize = 0;
    while index < principals.len()
        invariant
            index <= principals@.len(),
            names == string_views(principals@),
            forall|i: int|
                0 <= i < index ==> ascii_lower(#[trigger] names[i]) != ascii_lower(host@),
        decreases principals@.len() - index,
    {
        assert(names[index as int] == principals@[index as int]@);
        if same_name(principals[index].as_str(), host) {
            return true;
        }
        index += 1;
    }
    false
}

impl KnownHostsVerifier {
    /// Some entry takes the key back.
    fn finds_revoked(&self, server: &ServerKey) -> (yes: bool)
        ensures
            yes == is_revoked(self.entries(), server@),
    {
        let ghost entries = self.entries();
        let mut index: usize = 0;
        while index < self.entries.len()
            invariant
                index <= self.entries@.len(),
                entries == self.entries(),
                forall|i: int| 0 <= i < index ==> !revokes(#[trigger] entries[i], server@),
            decreases self.entries@.len() - index,
        {
            let entry = &self.entries[index];
            assert(entries[index as int] == entry@);
            let revoked = match entry.marker {
                Some(HostMarker::Revoked) => true,
                _ => false,
            };
            if revoked {
                if server.comment.len() == 0 && same_bytes(
                    entry.key.as_slice(),
                    server.key.as_slice(),
                ) {
                    return true;
                }
                if let Some(certificate) = &server.certificate {
                    if same_bytes(entry.key.as_slice(), certificate.authority.as_slice()) {
                        return true;
                    }
                }
            }
            index += 1;
        }
        false
    }

    /// Some entry lets the key sign certificates.
    fn finds_authority(&self, authority: &Vec<u8>) -> (yes: bool)
        ensures
            yes == exists|i: int|
                0 <= i < self.entries().len() && authorizes(
                    #[trigger] self.entries()[i],
                    authority@,
                ),
    {
        let ghost entries = self.entries();
        let mut index: usize = 0;
        while index < self.entries.len()
            invariant
                index <= self.entries@.len(),
                entries == self.entries(),
                forall|i: int| 0 <= i < index ==> !authorizes(#[trigger] entries[i], authority@),
            decreases self.entries@.len() - index,
        {
            let entry = &self.entries[index];
            assert(entries[index as int] == entry@);
            let signs = match entry.marker {
                Some(HostMarker::CertAuthority) => true,
                _ => false,
            };
            if signs && same_bytes(entry.key.as_slice(), authority.as_slice()) {
                return true;
            }
            index += 1;
        }
        false
    }

    /// Checks the key that a server shows.
    pub fn check(&self, server_key: &ServerKey) -> (checked: HostKeyCheck)
        ensures
            checked == checked_key(self.entries(), self.host(), server_key@),
    {
        if self.finds_revoked(server_key) {
            return HostKeyCheck::Revoked;
        }
        if let Some(certificate) = &server_key.certificate {
            if !certificate.for_host || certificate.has_options || (certificate.principals.len() > 0
                && !names_host(&certificate.principals, self.host.as_str())) {
                return HostKeyCheck::Changed;
            }
            return if !self.finds_authority(&certificate.authority) {
                HostKeyCheck::Unknown
            } else if certificate.holds {
                HostKeyCheck::Trusted
            } else {
                HostKeyCheck::Changed
            };
        }
        let ghost entries = self.entries();
        let mut same_algorithm = false;
        let mut index: usize = 0;
        while index < self.entries.len()
            invariant
                index <= self.entries@.len(),
                entries == self.entries(),
                server_key.certificate is None,
                !is_revoked(entries, server_key@),
                forall|i: int|
                    0 <= i < index ==> !((#[trigger] entries[i]).marker is None && lists(
                        entries[i],
                        server_key@,
                    )),
                same_algorithm == exists|i: int|
                    0 <= i < index && (#[trigger] entries[i]).marker is None && entries[i].algorithm
                        == server_key@.algorithm,
            decreases self.entries@.len() - index,
        {
            let entry = &self.entries[index];
            assert(entries[index as int] == entry@);
            if entry.marker.is_none() {
                if server_key.comment.len() == 0 && same_bytes(
                    entry.key.as_slice(),
                    server_key.key.as_slice(),
                ) {
                    return HostKeyCheck::Trusted;
                }
                if same_text(entry.algorithm.as_str(), server_key.algorithm.as_str()) {
                    same_algorithm = true;
                }
            }
            index += 1;
        }
        if same_algorithm {
            HostKeyCheck::Changed
        } else {
            HostKeyCheck::Unknown
        }
    }
}

/// A key that an entry takes back is never trusted, whatever the other entries
/// say.
pub proof fn law_revoked_key_is_never_trusted(
    entries: Seq<EntryModel>,
    host: Seq<char>,
    server: ServerKeyModel,
    index: int,
)
    requires
        0 <= index < entries.len(),
        revokes(entries[index], server),
    ensures
        checked_key(entries, host, server) == HostKeyCheck::Revoked,
{
}

/// A key is trusted only on the word of an entry: one that holds it, or one
/// that lets the key sign that signed its certificate.
pub proof fn law_trust_rests_on_an_entry(
    entries: Seq<EntryModel>,
    host: Seq<char>,
    server: ServerKeyModel,
)
    requires
        checked_key(entries, host, server) == HostKeyCheck::Trusted,
    ensures
        exists|i: int|
            0 <= i < entries.len() && (match server.certificate {
                Some(certificate) => authorizes(#[trigger] entries[i], certificate.authority)
                    && certificate.holds && certifies(certificate, host),
                None => entries[i].marker is None && entries[i].key == server.key,
            }),
{
    match server.certificate {
        Some(certificate) => {
            let i = choose|i: int|
                0 <= i < entries.len() && authorizes(#[trigger] entries[i], certificate.authority);
            assert(authorizes(entries[i], certificate.authority));
        },
        None => {
            let i = choose|i: int|
                0 <= i < entries.len() && (#[trigger] entries[i]).marker is None && entries[i].key
                    == server.key;
            assert(entries[i].marker is None);
        },
    }
}

// ---------------------------------------------------------------------------
// Adding a host.

#[derive(Clone, Debug)]
pub enum HostImportError {
    InvalidName,
    InvalidKey(String),
    WrongFingerprint,
    NotUtf8,
    KnownHosts(KnownHostsError),
    AlreadyKnown,
    TooLarge,
}

/// The text of a failure to read a list.
pub open spec fn known_hosts_message(error: KnownHostsError) -> Seq<char> {
    match error {
        KnownHostsError::TooLarge => "known_hosts exceeds the 8 MiB limit"@,
        KnownHostsError::InvalidEntry { line } => "invalid known_hosts entry at line "@
            + decimal_text(line as nat),
        KnownHostsError::InvalidPort => "invalid SSH port 0"@,
    }
}

impl KnownHostsError {
    pub fn message(&self) -> (text: String)
        ensures
            text@ == known_hosts_message(*self),
    {
        match self {
            KnownHostsError::TooLarge => "known_hosts exceeds the 8 MiB limit".to_owned(),
            KnownHostsError::InvalidEntry { line } => join(
                "invalid known_hosts entry at line ",
                u64_text(*line as u64).as_str(),
            ),
            KnownHostsError::InvalidPort => "invalid SSH port 0".to_owned(),
        }
    }
}

impl HostImportError {
    pub fn message(&self) -> (text: String)
        ensures
            text@ == (match *self {
                HostImportError::InvalidName =>
                    "invalid host or Profile identifier for known_hosts"@,
                HostImportError::InvalidKey(error) => error@,
                HostImportError::WrongFingerprint =>
                    "confirmed fingerprint does not match the scanned host key"@,
                HostImportError::NotUtf8 => "known_hosts is not UTF-8"@,
                HostImportError::KnownHosts(error) => known_hosts_message(error),
                HostImportError::AlreadyKnown =>
                    "host already has a known_hosts entry; first-key import is blocked"@,
                HostImportError::TooLarge => "known_hosts exceeds the 8 MiB limit"@,
            }),
    {
        match self {
            HostImportError::InvalidName =>
                "invalid host or Profile identifier for known_hosts".to_owned(),
            HostImportError::InvalidKey(error) => error.clone(),
            HostImportError::WrongFingerprint =>
                "confirmed fingerprint does not match the scanned host key".to_owned(),
            HostImportError::NotUtf8 => "known_hosts is not UTF-8".to_owned(),
            HostImportError::KnownHosts(error) => error.message(),
            HostImportError::AlreadyKnown =>
                "host already has a known_hosts entry; first-key import is blocked".to_owned(),
            HostImportError::TooLarge => "known_hosts exceeds the 8 MiB limit".to_owned(),
        }
    }
}

/// A character that the name of a host may have in a list.
pub open spec fn host_char(character: char) -> bool {
    !space(character) && character != '#' && character != ',' && character != '*' && character
        != '!' && character != '?' && character != '|'
}

pub open spec fn hex_or_hyphen(character: char) -> bool {
    '0' <= character <= '9' || 'a' <= character <= 'f' || 'A' <= character <= 'F' || character
        == '-'
}

/// The name of a host that can be added.
pub open spec fn host_name(host: Seq<char>) -> bool {
    host.len() > 0 && forall|i: int| 0 <= i < host.len() ==> host_char(#[trigger] host[i])
}

pub open spec fn profile_name(profile: Seq<char>) -> bool {
    profile.len() > 0 && forall|i: int|
        0 <= i < profile.len() ==> hex_or_hyphen(#[trigger] profile[i])
}

fn is_host_name(host: &str) -> (yes: bool)
    ensures
        yes == host_name(host@),
{
    let chars = chars_of(host);
    let mut index: usize = 0;
    while index < chars.len()
        invariant
            index <= chars@.len(),
            chars@ == host@,
            forall|i: int| 0 <= i < index ==> host_char(#[trigger] host@[i]),
        decreases chars@.len() - index,
    {
        let character = chars[index];
        assert(host@[index as int] == character);
        if is_space(character) || character == '#' || character == ',' || character == '*'
            || character == '!' || character == '?' || character == '|' {
            return false;
        }
        index += 1;
    }
    chars.len() > 0
}

fn is_profile_name(profile: &str) -> (yes: bool)
    ensures
        yes == profile_name(profile@),
{
    let chars = chars_of(profile);
    let mut index: usize = 0;
    while index < chars.len()
        invariant
            index <= chars@.len(),
            chars@ == profile@,
            forall|i: int| 0 <= i < index ==> hex_or_hyphen(#[trigger] profile@[i]),
        decreases chars@.len() - index,
    {
        let character = chars[index];
        assert(profile@[index as int] == character);
        if !('0' <= character && character <= '9' || 'a' <= character && character <= 'f' || 'A'
            <= character && character <= 'F' || character == '-') {
            return false;
        }
        index += 1;
    }
    chars.len() > 0
}

/// A key that its user has confirmed.
#[derive(Clone, Debug)]
pub struct ConfirmedKey {
    line: String,
    fingerprint: String,
    source: String,
}

impl ConfirmedKey {
    /// The text that the key was read from.
    pub closed spec fn source(self) -> Seq<char> {
        self.source@
    }

    /// The key is one, and its line and fingerprint are its own.
    pub closed spec fn wf(self) -> bool {
        &&& key_in(self.source@) matches Some((_, bytes))
        &&& self.line@ == canonical_key(self.source@)
        &&& self.fingerprint@ == key_fingerprint(bytes)
        &&& canonical_line(self.source@)
    }
}

/// What is known of the line of a key: it starts with two words that the key
/// is read from again.
pub open spec fn canonical_line(source: Seq<char>) -> bool {
    let line = canonical_key(source);
    let parts = words(line);
    &&& key_in(source) matches Some((_, bytes))
    &&& parts.len() >= 2
    &&& key_in(parts[0].push(' ') + parts[1]) == key_in(source)
    &&& !source.contains('\n') ==> !line.contains('\n')
    &&& !key_fingerprint(bytes).contains('\n')
}

/// The fingerprint of the key in a text.
pub open spec fn source_fingerprint(source: Seq<char>) -> Seq<char> {
    match key_in(source) {
        Some((_, bytes)) => key_fingerprint(bytes),
        None => Seq::empty(),
    }
}

/// The bytes of words, each with one that ends it.
spec fn word_bytes(words: Seq<Seq<char>>) -> int
    decreases words.len(),
{
    if words.len() == 0 {
        0
    } else {
        word_bytes(words.drop_last()) + utf8(words.last()).len() + 1
    }
}

proof fn lemma_first_word_bytes(words: Seq<Seq<char>>, count: int)
    requires
        0 <= count <= words.len(),
    ensures
        word_bytes(words.take(count)) <= word_bytes(words),
    decreases words.len(),
{
    if count == words.len() {
        assert(words.take(count) =~= words);
    } else {
        lemma_first_word_bytes(words.drop_last(), count);
        assert(words.drop_last().take(count) =~= words.take(count));
    }
}

/// The words of a line take no more bytes than the line and its end.
proof fn lemma_word_bytes(line: Seq<char>)
    ensures
        word_bytes(words(line)) <= utf8(line).len() + if in_word(line) {
            1int
        } else {
            0
        },
    decreases line.len(),
{
    if line.len() > 0 {
        let front = line.drop_last();
        let last = line.last();
        lemma_word_bytes(front);
        lemma_utf8_concat(front, seq![last]);
        lemma_utf8_len(seq![last]);
        assert(front + seq![last] =~= line);
        let earlier = words(front);
        if !space(last) {
            if line.len() == 1 || space(line[line.len() - 2]) {
                assert(words(line).drop_last() =~= earlier);
            } else {
                lemma_in_word(front);
                assert(words(line).drop_last() =~= earlier.drop_last());
                lemma_utf8_concat(earlier.last(), seq![last]);
                assert(earlier.last() + seq![last] =~= earlier.last().push(last));
            }
        }
    }
}

/// The first two words of a line are no longer than the line.
proof fn lemma_first_words(line: Seq<char>)
    requires
        words(line).len() >= 2,
    ensures
        utf8(words(line)[0].push(' ') + words(line)[1]).len() <= utf8(line).len(),
{
    let parts = words(line);
    lemma_word_bytes(line);
    lemma_first_word_bytes(parts, 2);
    let two = parts.take(2);
    assert(word_bytes(two.drop_last().drop_last()) == 0);
    assert(two.drop_last().last() == parts[0]);
    assert(word_bytes(two.drop_last()) == utf8(parts[0]).len() + 1);
    assert(two.last() == parts[1]);
    lemma_utf8_concat(parts[0].push(' '), parts[1]);
    lemma_utf8_concat(parts[0], seq![' ']);
    assert(parts[0] + seq![' '] =~= parts[0].push(' '));
    assert(utf8(seq![' ']).len() == 1) by {
        vstd::utf8::is_ascii_chars_encode_utf8(seq![' ']);
    }
}

/// Checks what can be checked of a host to be added before its list is read:
/// the names, the key and that its fingerprint is the one that was confirmed. A
/// key whose line would be too long to be read again is no key.
pub fn confirm_host_key(
    host: &str,
    profile_id: &str,
    public_key_line: &str,
    confirmed_fingerprint: &str,
) -> (key: Result<ConfirmedKey, HostImportError>)
    ensures
        match key {
            Ok(key) => {
                &&& host_name(host@) && profile_name(profile_id@)
                &&& key.wf()
                &&& key.source() == public_key_line@
                &&& canonical_line(public_key_line@)
                &&& utf8(canonical_key(public_key_line@)).len() <= MAX_KEY_TEXT_BYTES
                &&& key_in(public_key_line@) matches Some((_, bytes))
                    && confirmed_fingerprint@ == key_fingerprint(bytes)
            },
            Err(error) => if !(host_name(host@) && profile_name(profile_id@)) {
                error is InvalidName
            } else {
                match key_in(public_key_line@) {
                    Some((_, bytes)) if utf8(canonical_key(public_key_line@)).len()
                        <= MAX_KEY_TEXT_BYTES => confirmed_fingerprint@ != key_fingerprint(bytes)
                        && error is WrongFingerprint,
                    _ => error is InvalidKey,
                }
            },
        },
{
    if !is_host_name(host) || !is_profile_name(profile_id) {
        return Err(HostImportError::InvalidName);
    }
    match read_key_text(public_key_line) {
        Err(error) => Err(HostImportError::InvalidKey(error)),
        Ok(key) => {
            if byte_len(key.line.as_str()) > MAX_KEY_TEXT_BYTES {
                return Err(HostImportError::InvalidKey("public key is too long".to_owned()));
            }
            proof {
                lemma_first_words(key.line@);
            }
            if !same_text(confirmed_fingerprint, key.fingerprint.as_str()) {
                return Err(HostImportError::WrongFingerprint);
            }
            Ok(
                ConfirmedKey {
                    line: key.line,
                    fingerprint: key.fingerprint,
                    source: public_key_line.to_owned(),
                },
            )
        },
    }
}

/// The line that tells of an addition.
pub open spec fn audit_line(
    seconds: u64,
    profile: Seq<char>,
    fingerprint: Seq<char>,
) -> Seq<char> {
    "# CShell host-key-import v1 utc_unix="@ + decimal_text(seconds as nat) + " profile="@ + profile
        + " fingerprint="@ + fingerprint
}

/// What is added to a list: on lines of their own, a comment that tells of the
/// addition, and the entry.
pub open spec fn import_record(
    existing: Seq<char>,
    lookup: Seq<char>,
    seconds: u64,
    profile: Seq<char>,
    fingerprint: Seq<char>,
    line: Seq<char>,
) -> Seq<char> {
    let gap = if existing.len() == 0 || existing.last() == '\n' {
        Seq::empty()
    } else {
        seq!['\n']
    };
    gap + audit_line(seconds, profile, fingerprint).push('\n') + (lookup.push(' ') + line).push('\n')
}

/// The text to add to a list for a host that it does not know yet.
pub fn host_key_record(
    existing: &[u8],
    host: &str,
    port: u16,
    key: &ConfirmedKey,
    profile_id: &str,
    seconds: u64,
) -> (record: Result<String, HostImportError>)
    requires
        key.wf(),
    ensures
        ({
            let lookup = lookup_name(host@, port);
            let text = decode_utf8(existing@);
            let listed = list_entries(pieces(text, '\n'), lookup);
            let fingerprint = source_fingerprint(key.source());
            let added = import_record(
                text,
                lookup,
                seconds,
                profile_id@,
                fingerprint,
                canonical_key(key.source()),
            );
            if !valid_utf8(existing@) {
                record matches Err(error) && error is NotUtf8
            } else if port == 0 {
                record matches Err(HostImportError::KnownHosts(KnownHostsError::InvalidPort))
            } else if existing@.len() > MAX_KNOWN_HOSTS_BYTES {
                record matches Err(HostImportError::KnownHosts(KnownHostsError::TooLarge))
            } else {
                match listed {
                    Err(number) => record matches Err(
                        HostImportError::KnownHosts(KnownHostsError::InvalidEntry { line }),
                    ) && line == number,
                    Ok(entries) => if entries.len() > 0 {
                        record matches Err(error) && error is AlreadyKnown
                    } else if existing@.len() + utf8(added).len() > MAX_KNOWN_HOSTS_BYTES {
                        record matches Err(error) && error is TooLarge
                    } else {
                        record matches Ok(record) && record@ == added
                    },
                }
            }
        }),
{
    let text = match read_utf8(existing) {
        Some(text) => text,
        None => return Err(HostImportError::NotUtf8),
    };
    proof {
        vstd::utf8::encode_utf8_decode_utf8(text@);
    }
    let verifier = match KnownHostsVerifier::parse(text.as_str(), host, port) {
        Ok(verifier) => verifier,
        Err(error) => return Err(HostImportError::KnownHosts(error)),
    };
    if verifier.has_matching_entries() {
        return Err(HostImportError::AlreadyKnown);
    }
    let chars = chars_of(text.as_str());
    let mut record = String::new();
    if chars.len() > 0 && chars[chars.len() - 1] != '\n' {
        record.push('\n');
    }
    record.append("# CShell host-key-import v1 utc_unix=");
    record.append(u64_text(seconds).as_str());
    record.append(" profile=");
    record.append(profile_id);
    record.append(" fingerprint=");
    record.append(key.fingerprint.as_str());
    record.push('\n');
    record.append(lookup_text(host, port).as_str());
    record.push(' ');
    record.append(key.line.as_str());
    record.push('\n');
    assert(record@ =~= import_record(
        text@,
        lookup_name(host@, port),
        seconds,
        profile_id@,
        key.fingerprint@,
        key.line@,
    ));
    let length: usize = byte_len(record.as_str());
    if length > MAX_KNOWN_HOSTS_BYTES - existing.len() {
        return Err(HostImportError::TooLarge);
    }
    Ok(record)
}

} // verus!
