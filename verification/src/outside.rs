//! Contracts of the functions of other crates that the library calls.
use crate::search_query::{size_words, RegexQuery};
use crate::text::{pieces, string_views, utf8, words};
use russh::keys::ssh_key::certificate::CertType;
use russh::keys::{Certificate, PublicKey};
use unicode_segmentation::UnicodeSegmentation;
use unicode_width::UnicodeWidthStr;
use vstd::prelude::*;
use vstd::utf8::{decode_utf8, encode_utf8, is_char_boundary, valid_utf8};

verus! {

/// `memchr::memchr` returns the position of the first `needle` in `haystack`,
/// or `None` where it does not occur.
pub assume_specification[ memchr::memchr ](needle: u8, haystack: &[u8]) -> (found: Option<usize>)
    ensures
        match found {
            Some(at) => at < haystack@.len() && haystack@[at as int] == needle && forall|i: int|
                0 <= i < at ==> haystack@[i] != needle,
            None => forall|i: int| 0 <= i < haystack@.len() ==> haystack@[i] != needle,
        },
;

/// The text that `String::from_utf8_lossy` reads from bytes.
pub uninterp spec fn lossy_text(bytes: Seq<u8>) -> Seq<char>;

/// `String::from_utf8_lossy` reads bytes as UTF-8 and puts a replacement
/// character where they are not valid; valid bytes come out as they decode,
/// and so do those at the beginning, before the first that is not valid. So an
/// ASCII character of the text stands for a byte. How many replacement
/// characters stand for bytes that are not valid is left open.
#[verifier::external_body]
pub(crate) fn read_lossy(bytes: &[u8]) -> (text: String)
    ensures
        text@ == lossy_text(bytes@),
        valid_utf8(bytes@) ==> text@ == decode_utf8(bytes@),
        forall|count: int|
            0 <= count <= bytes@.len() && valid_utf8(#[trigger] bytes@.take(count))
                ==> decode_utf8(bytes@.take(count)).is_prefix_of(text@),
        forall|i: int|
            0 <= i < text@.len() && (#[trigger] text@[i] as u32) < 128 ==> bytes@.contains(
                text@[i] as u8,
            ),
{
    String::from_utf8_lossy(bytes).into_owned()
}

/// The byte offsets at which the extended grapheme clusters of a text begin.
pub uninterp spec fn grapheme_starts(text: Seq<char>) -> Seq<usize>;

/// The offsets cut the text into non-empty pieces of whole characters, the
/// first one at its beginning.
pub open spec fn cuts_text(starts: Seq<usize>, text: Seq<char>) -> bool {
    let bytes = encode_utf8(text);
    &&& starts.len() == 0 <==> bytes.len() == 0
    &&& starts.len() > 0 ==> starts[0] == 0
    &&& forall|i: int, j: int| 0 <= i < j < starts.len() ==> starts[i] < starts[j]
    &&& forall|i: int|
        0 <= i < starts.len() ==> #[trigger] starts[i] < bytes.len() && is_char_boundary(
            bytes,
            starts[i] as int,
        )
}

/// `UnicodeSegmentation::grapheme_indices` with extended clusters gives each
/// cluster of the text with its byte offset, in order; the offsets are kept.
/// The clusters are non-empty and together make up the text.
#[verifier::external_body]
pub(crate) fn find_graphemes(text: &str) -> (starts: Vec<usize>)
    ensures
        starts@ == grapheme_starts(text@),
        cuts_text(starts@, text@),
{
    text.grapheme_indices(true).map(|cluster| cluster.0).collect()
}

/// The checksum that `crc32fast::hash` computes.
pub uninterp spec fn crc32(bytes: Seq<u8>) -> u32;

/// `crc32fast::hash` returns the CRC-32 of the bytes.
pub assume_specification[ crc32fast::hash ](buf: &[u8]) -> (checksum: u32)
    ensures
        checksum == crc32(buf@),
;

/// The positions of `needle`, in order.
pub open spec fn positions(haystack: Seq<u8>, needle: u8) -> Seq<usize>
    decreases haystack.len(),
{
    if haystack.len() == 0 {
        Seq::empty()
    } else {
        let before = positions(haystack.drop_last(), needle);
        if haystack.last() == needle {
            before.push((haystack.len() - 1) as usize)
        } else {
            before
        }
    }
}

/// `memchr::memchr_iter` gives every position of `needle`, first to last; the
/// positions are gathered in a list.
#[verifier::external_body]
pub(crate) fn find_all(needle: u8, haystack: &[u8]) -> (found: Vec<usize>)
    ensures
        found@ == positions(haystack@, needle),
{
    memchr::memchr_iter(needle, haystack).collect()
}

/// The characters that mean something in a regular expression.
pub open spec fn is_regex_meta(character: char) -> bool {
    ||| character == '\\' || character == '.' || character == '+' || character == '*'
    ||| character == '?' || character == '(' || character == ')' || character == '|'
    ||| character == '[' || character == ']' || character == '{' || character == '}'
    ||| character == '^' || character == '$' || character == '#' || character == '&'
    ||| character == '-' || character == '~'
}

/// A text with a backslash before each character that means something in a
/// regular expression.
pub open spec fn regex_escaped(text: Seq<char>) -> Seq<char>
    decreases text.len(),
{
    if text.len() == 0 {
        Seq::empty()
    } else {
        let before = regex_escaped(text.drop_last());
        if is_regex_meta(text.last()) {
            before.push('\\').push(text.last())
        } else {
            before.push(text.last())
        }
    }
}

/// `regex::escape` puts a backslash before each character that means something
/// in a regular expression and leaves the others as they are.
pub assume_specification[ regex::escape ](pattern: &str) -> (escaped: String)
    ensures
        escaped@ == regex_escaped(pattern@),
;

/// The byte ranges that `Regex::find_iter` finds in a text with the expression
/// `pattern`, upper and lower case alike where `ignore_case` is set.
pub uninterp spec fn regex_matches(pattern: Seq<char>, ignore_case: bool, text: Seq<char>) -> Seq<
    (usize, usize),
>;

/// The ranges lie in the text, on character boundaries, one after the other.
pub open spec fn ranges_in_text(found: Seq<(usize, usize)>, text: Seq<char>) -> bool {
    let bytes = encode_utf8(text);
    &&& forall|i: int|
        0 <= i < found.len() ==> (#[trigger] found[i]).0 <= found[i].1 <= bytes.len()
            && is_char_boundary(bytes, found[i].0 as int) && is_char_boundary(
            bytes,
            found[i].1 as int,
        )
    &&& forall|i: int, j: int|
        0 <= i < j < found.len() ==> (#[trigger] found[i]).1 <= (#[trigger] found[j]).0
}

/// What `RegexBuilder::build` finds wrong with an expression, in the words of
/// its error; none where it finds nothing wrong.
pub uninterp spec fn regex_fault(pattern: Seq<char>, ignore_case: bool) -> Option<Seq<char>>;

/// `RegexBuilder::build` reads the expression and compiles it within
/// `size_limit` bytes, and `Regex::find_iter` gives the successive matches in
/// each of the texts, which do not overlap. An error is given as its text. It
/// is either about the expression, whatever the limit, or names the limit.
/// Which of the expressions that can be read take more memory than the limit
/// is left unsaid: that differs between machines. An expression or a limit
/// above the bounds could fail in other ways.
#[verifier::external_body]
pub(crate) fn find_regex(wanted: &RegexQuery, texts: &Vec<String>) -> (found: Result<
    Vec<Vec<(usize, usize)>>,
    String,
>)
    requires
        wanted.pattern@.len() <= 0x7fff_ffff,
        wanted.size_limit <= 0x7fff_ffff,
    ensures
        match regex_fault(wanted.pattern@, wanted.ignore_case) {
            Some(words) => found matches Err(text) && text@ == words,
            None => match found {
                Ok(lists) => lists@.len() == texts@.len() && forall|i: int|
                    0 <= i < lists@.len() ==> (#[trigger] lists@[i])@ == regex_matches(
                        wanted.pattern@,
                        wanted.ignore_case,
                        texts@[i]@,
                    ) && ranges_in_text(lists@[i]@, texts@[i]@),
                Err(text) => text@ == size_words(wanted.size_limit),
            },
        },
{
    let mut builder = regex::RegexBuilder::new(&wanted.pattern);
    builder.case_insensitive(wanted.ignore_case).size_limit(wanted.size_limit);
    match builder.build() {
        Ok(regex) => Ok(
            texts.iter().map(
                |text| regex.find_iter(text).map(|found| (found.start(), found.end())).collect(),
            ).collect(),
        ),
        Err(error) => Err(error.to_string()),
    }
}

/// Whether `char::is_alphanumeric` holds of a character.
pub uninterp spec fn alphanumeric(character: char) -> bool;

/// `char::is_alphanumeric` tells letters and numbers of every script from
/// other characters.
pub assume_specification[ char::is_alphanumeric ](character: char) -> (yes: bool)
    ensures
        yes == alphanumeric(character),
;

/// The number of columns that `UnicodeWidthStr::width` gives a text.
pub uninterp spec fn text_width(text: Seq<char>) -> usize;

/// `UnicodeWidthStr::width` counts the columns that a terminal shows a text in.
#[verifier::external_body]
pub(crate) fn measure_width(text: &str) -> (columns: usize)
    ensures
        columns == text_width(text@),
{
    UnicodeWidthStr::width(text)
}

/// `String::push` appends a character.
pub assume_specification[ String::push ](text: &mut String, character: char)
    ensures
        final(text)@ == old(text)@.push(character),
;

/// `guillotiere::AtlasAllocator`, which hands out rectangles of an area.
#[verifier::external_type_specification]
#[verifier::external_body]
pub struct ExAtlasAllocator(guillotiere::AtlasAllocator);

/// The rectangles that are handed out, by the number that stands for each. A
/// rectangle is given by its left, top, right and bottom edges.
pub uninterp spec fn atlas_slots(allocator: guillotiere::AtlasAllocator) -> Map<
    u32,
    (i32, i32, i32, i32),
>;

/// The width and height of the area.
pub uninterp spec fn atlas_area(allocator: guillotiere::AtlasAllocator) -> (i32, i32);

/// Whether `AtlasAllocator::allocate` finds a rectangle of a width and height.
pub uninterp spec fn atlas_has_room(
    allocator: guillotiere::AtlasAllocator,
    width: i32,
    height: i32,
) -> bool;

/// Two rectangles have no point in common.
pub open spec fn apart(one: (i32, i32, i32, i32), other: (i32, i32, i32, i32)) -> bool {
    one.2 <= other.0 || other.2 <= one.0 || one.3 <= other.1 || other.3 <= one.1
}

/// The largest width and height of an area. The numbers that stand for
/// rectangles have room for those of an area of this size.
pub const MAX_ATLAS_SIDE: i32 = 2048;

/// `AtlasAllocator::new` makes an area of which nothing is handed out.
#[verifier::external_body]
pub(crate) fn new_atlas(width: i32, height: i32) -> (allocator: guillotiere::AtlasAllocator)
    requires
        0 < width <= MAX_ATLAS_SIDE,
        0 < height <= MAX_ATLAS_SIDE,
    ensures
        atlas_slots(allocator).dom() == Set::<u32>::empty(),
        atlas_area(allocator) == (width, height),
{
    guillotiere::AtlasAllocator::new(guillotiere::size2(width, height))
}

/// `AtlasAllocator::allocate` hands out a rectangle of the size asked for that
/// lies in the area and overlaps none that is handed out, or says that it finds
/// none. Whether it finds one goes by the rectangles that it has free and has a
/// name. Where nothing is handed out it finds one unless the area is too small.
/// Which one it finds is left unsaid.
#[verifier::external_body]
pub(crate) fn allocate_slot(
    allocator: &mut guillotiere::AtlasAllocator,
    width: i32,
    height: i32,
) -> (slot: Option<(u32, (i32, i32, i32, i32))>)
    requires
        width > 0,
        height > 0,
        atlas_area(*old(allocator)).0 <= MAX_ATLAS_SIDE,
        atlas_area(*old(allocator)).1 <= MAX_ATLAS_SIDE,
    ensures
        atlas_area(*final(allocator)) == atlas_area(*old(allocator)),
        slot is Some <==> atlas_has_room(*old(allocator), width, height),
        slot is None ==> atlas_slots(*old(allocator)).dom() != Set::<u32>::empty() || width
            > atlas_area(*old(allocator)).0 || height > atlas_area(*old(allocator)).1,
        match slot {
            None => atlas_slots(*final(allocator)) == atlas_slots(*old(allocator)),
            Some((id, rect)) => {
                &&& !atlas_slots(*old(allocator)).contains_key(id)
                &&& atlas_slots(*final(allocator)) == atlas_slots(*old(allocator)).insert(id, rect)
                &&& rect.2 - rect.0 == width
                &&& rect.3 - rect.1 == height
                &&& 0 <= rect.0 && rect.2 <= atlas_area(*old(allocator)).0
                &&& 0 <= rect.1 && rect.3 <= atlas_area(*old(allocator)).1
                &&& forall|other: u32| #[trigger]
                    atlas_slots(*old(allocator)).contains_key(other) ==> apart(
                        rect,
                        atlas_slots(*old(allocator))[other],
                    )
            },
        },
{
    let found = allocator.allocate(guillotiere::size2(width, height))?;
    let (min, max) = (found.rectangle.min, found.rectangle.max);
    Some((found.id.serialize(), (min.x, min.y, max.x, max.y)))
}

/// `AtlasAllocator::deallocate` takes back a rectangle that is handed out.
#[verifier::external_body]
pub(crate) fn release_slot(allocator: &mut guillotiere::AtlasAllocator, id: u32)
    requires
        atlas_slots(*old(allocator)).contains_key(id),
        atlas_area(*old(allocator)).0 <= MAX_ATLAS_SIDE,
        atlas_area(*old(allocator)).1 <= MAX_ATLAS_SIDE,
    ensures
        atlas_area(*final(allocator)) == atlas_area(*old(allocator)),
        atlas_slots(*final(allocator)) == atlas_slots(*old(allocator)).remove(id),
{
    allocator.deallocate(guillotiere::AllocId::deserialize(id))
}

/// What a file's mode says it is.
#[derive(Clone, Copy, Debug, PartialEq, Eq, Structural)]
pub enum ModeKind {
    Directory,
    File,
    Symlink,
    Other,
}

/// `FileAttributes::file_type` goes by the four bits of the mode that tell the
/// kinds of files apart; attributes without a mode are of no known kind.
#[verifier::external_body]
pub(crate) fn mode_kind(permissions: Option<u32>) -> (kind: ModeKind)
    ensures
        kind == match permissions {
            None => ModeKind::Other,
            Some(mode) => if mode & 0xf000 == 0x4000 {
                ModeKind::Directory
            } else if mode & 0xf000 == 0xa000 {
                ModeKind::Symlink
            } else if mode & 0xf000 == 0x8000 {
                ModeKind::File
            } else {
                ModeKind::Other
            },
        },
{
    let attributes = russh_sftp::protocol::FileAttributes { permissions, ..Default::default() };
    match attributes.file_type() {
        russh_sftp::protocol::FileType::Dir => ModeKind::Directory,
        russh_sftp::protocol::FileType::File => ModeKind::File,
        russh_sftp::protocol::FileType::Symlink => ModeKind::Symlink,
        russh_sftp::protocol::FileType::Other => ModeKind::Other,
    }
}

/// A hexadecimal digit or a hyphen.
pub open spec fn is_id_char(character: char) -> bool {
    '0' <= character <= '9' || 'a' <= character <= 'f' || character == '-'
}

/// `Uuid::now_v7` makes an identifier from the time and chance; it is given in
/// the usual notation of hexadecimal digits and hyphens.
#[verifier::external_body]
pub(crate) fn new_id() -> (id: String)
    ensures
        id@.len() == 36,
        forall|i: int| 0 <= i < id@.len() ==> is_id_char(#[trigger] id@[i]),
{
    uuid::Uuid::now_v7().to_string()
}

/// The number that `Uuid::parse_str` reads from a text; none where it reads
/// none.
pub uninterp spec fn uuid_of(text: Seq<char>) -> Option<u128>;

/// `Uuid::parse_str` reads an identifier, here as its number.
#[verifier::external_body]
pub(crate) fn read_uuid(text: &str) -> (id: Option<u128>)
    ensures
        id == uuid_of(text@),
{
    uuid::Uuid::parse_str(text).ok().map(|id| id.as_u128())
}

/// The text that `Uuid` gives for an identifier.
pub uninterp spec fn uuid_text(id: u128) -> Seq<char>;

/// `Uuid::to_string` writes an identifier, which `Uuid::parse_str` reads
/// again.
#[verifier::external_body]
pub(crate) fn write_uuid(id: u128) -> (text: String)
    ensures
        text@ == uuid_text(id),
        uuid_of(text@) == Some(id),
{
    uuid::Uuid::from_u128(id).to_string()
}

/// `russh::client::Config`, the settings of a connection.
#[verifier::external_type_specification]
#[verifier::external_body]
pub struct ExClientConfig(russh::client::Config);

/// `russh::keys::PrivateKey`, a private key.
#[verifier::external_type_specification]
#[verifier::external_body]
pub struct ExPrivateKey(russh::keys::PrivateKey);

/// `russh::keys::Certificate`, an OpenSSH certificate.
#[verifier::external_type_specification]
#[verifier::external_body]
pub struct ExCertificate(russh::keys::Certificate);

/// The longest text of a public key or of a certificate that is read, in
/// bytes. A certificate may hold the key that signed it as another certificate;
/// how deep this goes is limited by the length alone.
pub const MAX_KEY_TEXT_BYTES: usize = 16384;

/// The longest text of a private key that is read, in bytes.
pub const MAX_SECRET_TEXT_BYTES: usize = 24576;

/// The public key that `PrivateKey::public_key` gives, in its binary encoding.
pub uninterp spec fn held_public(key: russh::keys::PrivateKey) -> Seq<u8>;

/// The public key of the private key that `russh::keys::decode_secret_key`
/// reads from a text, with a passphrase where it needs one; none where it
/// reads none. A public key is given in its binary encoding.
pub uninterp spec fn secret_public_key(
    encoded: Seq<char>,
    passphrase: Option<Seq<char>>,
) -> Option<Seq<u8>>;

/// The text that `PublicKey::fingerprint` gives for a public key with SHA-256.
pub uninterp spec fn key_fingerprint(public: Seq<u8>) -> Seq<char>;

/// `russh::keys::decode_secret_key` reads a private key; its public key and
/// that one's fingerprint are given beside it, an error as its text. A text
/// above the bound could hold certificates in one another too deep for the
/// stack.
#[verifier::external_body]
pub(crate) fn read_secret_key(encoded: &str, passphrase: Option<&str>) -> (key: Result<
    (russh::keys::PrivateKey, Vec<u8>, String),
    String,
>)
    requires
        utf8(encoded@).len() <= MAX_SECRET_TEXT_BYTES,
    ensures
        ({
            let words = match passphrase {
                Some(words) => Some(words@),
                None => None,
            };
            match secret_public_key(encoded@, words) {
                Some(public) => key matches Ok((key, bytes, fingerprint)) && bytes@ == public
                    && held_public(key) == public && fingerprint@ == key_fingerprint(public),
                None => key is Err,
            }
        }),
{
    let key = match russh::keys::decode_secret_key(encoded, passphrase) {
        Ok(key) => key,
        Err(error) => return Err(error.to_string()),
    };
    match key.public_key().to_bytes() {
        Ok(public) => {
            let fingerprint = key.public_key().fingerprint(russh::keys::HashAlg::Sha256);
            Ok((key, public, fingerprint.to_string()))
        },
        Err(error) => Err(error.to_string()),
    }
}

/// What a certificate says: whether it is one for a user or for a host, the
/// public key that it is about, its name, those whom it is good for, the key
/// that signed it, and the names of its critical options.
#[derive(Debug)]
pub struct CertificateFacts {
    pub for_user: bool,
    pub public: Vec<u8>,
    pub key_id: String,
    pub principals: Vec<String>,
    pub authority: Vec<u8>,
    pub options: Vec<String>,
}

#[verifier::ext_equal]
pub struct CertificateModel {
    pub for_user: bool,
    pub public: Seq<u8>,
    pub key_id: Seq<char>,
    pub principals: Seq<Seq<char>>,
    pub authority: Seq<u8>,
    pub options: Seq<Seq<char>>,
}

impl View for CertificateFacts {
    type V = CertificateModel;

    open spec fn view(&self) -> CertificateModel {
        CertificateModel {
            for_user: self.for_user,
            public: self.public@,
            key_id: self.key_id@,
            principals: string_views(self.principals@),
            authority: self.authority@,
            options: string_views(self.options@),
        }
    }
}

/// What a certificate says, as the methods of `Certificate` give it.
pub uninterp spec fn held_facts(certificate: russh::keys::Certificate) -> CertificateModel;

/// What the certificate says that `Certificate::from_openssh` reads from a
/// text; none where it reads none.
pub uninterp spec fn certificate_facts(encoded: Seq<char>) -> Option<CertificateModel>;

/// `Certificate::from_openssh` reads a certificate; what it says is given
/// beside it, an error as its text. A text above the bound could hold
/// certificates in one another too deep for the stack.
#[verifier::external_body]
pub(crate) fn read_certificate(encoded: &str) -> (certificate: Result<
    (russh::keys::Certificate, CertificateFacts),
    String,
>)
    requires
        utf8(encoded@).len() <= MAX_KEY_TEXT_BYTES,
    ensures
        match certificate_facts(encoded@) {
            Some(model) => certificate matches Ok((certificate, facts)) && facts@ == model
                && held_facts(certificate) == model,
            None => certificate is Err,
        },
{
    let read = Certificate::from_openssh(encoded).map_err(|error| error.to_string())?;
    let for_user = match read.cert_type() {
        CertType::User => true,
        CertType::Host => false,
    };
    let public = PublicKey::from(read.public_key().clone()).to_bytes();
    let authority = PublicKey::from(read.signature_key().clone()).to_bytes();
    let public = public.map_err(|error| error.to_string())?;
    let authority = authority.map_err(|error| error.to_string())?;
    let key_id = read.key_id().to_owned();
    let principals = read.valid_principals().to_vec();
    let options = read.critical_options().keys().cloned().collect();
    Ok((read, CertificateFacts { for_user, public, key_id, principals, authority, options }))
}

/// Whether `Certificate::validate_at` accepts the certificate in a text at a
/// time, where the key that signed it is trusted.
pub uninterp spec fn certificate_holds(encoded: Seq<char>, seconds: u64) -> bool;

/// `Certificate::validate_at` checks the signature of a certificate and
/// whether a time, in seconds since the epoch, lies in its period. It is told
/// to trust the key that signed it. A text above the bound could hold
/// certificates in one another too deep for the stack.
#[verifier::external_body]
pub(crate) fn check_certificate(encoded: &str, seconds: u64) -> (holds: bool)
    requires
        utf8(encoded@).len() <= MAX_KEY_TEXT_BYTES,
    ensures
        holds == certificate_holds(encoded@, seconds),
{
    match russh::keys::Certificate::from_openssh(encoded) {
        Ok(read) => {
            let trusted = read.signature_key().fingerprint(russh::keys::HashAlg::Sha256);
            read.validate_at(seconds, [&trusted]).is_ok()
        },
        Err(_) => false,
    }
}

/// `String::from_utf8` reads bytes as UTF-8 and refuses any that are not.
#[verifier::external_body]
pub(crate) fn read_utf8(bytes: &[u8]) -> (text: Option<String>)
    ensures
        match text {
            Some(text) => valid_utf8(bytes@) && encode_utf8(text@) == bytes@,
            None => !valid_utf8(bytes@),
        },
{
    String::from_utf8(bytes.to_vec()).ok()
}

/// What `HostPatterns::from_str` reads from the part of a hashed host behind
/// its prefix: the salt and the hash; none where it is not well formed.
pub uninterp spec fn hashed_host(text: Seq<char>) -> Option<(Seq<u8>, Seq<u8>)>;

/// The hosts that a line of a list of known hosts is about.
#[derive(Debug)]
pub enum HostList {
    Patterns(Vec<String>),
    Hashed { salt: Vec<u8>, hash: Vec<u8> },
}

/// The prefix of a hashed host.
pub open spec fn hash_prefix() -> Seq<char> {
    seq!['|', '1', '|']
}

/// The patterns of a list: what stands between commas, where a comma at the
/// end is no more than an end.
pub open spec fn listed_patterns(text: Seq<char>) -> Seq<Seq<char>> {
    let all = pieces(text, ',');
    if all.last().len() == 0 {
        all.drop_last()
    } else {
        all
    }
}

/// `HostPatterns::from_str` reads a hashed host behind the prefix of one, and
/// else a list of patterns between commas, which must not be empty.
#[verifier::external_body]
pub(crate) fn read_hosts(text: &str) -> (hosts: Option<HostList>)
    ensures
        if hash_prefix().is_prefix_of(text@) {
            match hashed_host(text@.skip(3)) {
                Some((salt, hash)) => hosts matches Some(HostList::Hashed { salt: s, hash: h })
                    && s@ == salt && h@ == hash,
                None => hosts is None,
            }
        } else if text@.len() == 0 {
            hosts is None
        } else {
            hosts matches Some(HostList::Patterns(patterns)) && string_views(patterns@)
                == listed_patterns(text@)
        },
{
    match text.parse::<russh::keys::ssh_key::known_hosts::HostPatterns>().ok()? {
        russh::keys::ssh_key::known_hosts::HostPatterns::Patterns(patterns) => Some(
            HostList::Patterns(patterns),
        ),
        russh::keys::ssh_key::known_hosts::HostPatterns::HashedName { salt, hash } => Some(
            HostList::Hashed { salt, hash: hash.to_vec() },
        ),
    }
}

/// The code that `Hmac` computes with SHA-1 from a key and some data.
pub uninterp spec fn hmac_sha1(key: Seq<u8>, data: Seq<u8>) -> Seq<u8>;

/// `Mac::verify_slice` on an `Hmac` with SHA-1 says whether the code of the
/// data under the key is the given one. Keys of any length are taken.
#[verifier::external_body]
pub(crate) fn has_code(key: &[u8], data: &[u8], code: &[u8]) -> (yes: bool)
    ensures
        yes == (hmac_sha1(key@, data@) == code@),
{
    match <hmac::Hmac<sha1::Sha1> as hmac::KeyInit>::new_from_slice(key) {
        Ok(mut mac) => {
            hmac::Mac::update(&mut mac, data);
            hmac::Mac::verify_slice(mac, code).is_ok()
        },
        Err(_) => false,
    }
}

/// The algorithm and the binary encoding of the public key that
/// `PublicKey::from_openssh` reads from a text; none where it reads none.
pub uninterp spec fn public_key_of(text: Seq<char>) -> Option<(Seq<char>, Seq<u8>)>;

/// The line that `PublicKey::to_openssh` writes for the key in a text.
pub uninterp spec fn canonical_key(text: Seq<char>) -> Seq<char>;

/// The comment that `PublicKey::comment` gives of the key in a text.
pub uninterp spec fn key_comment(text: Seq<char>) -> Seq<u8>;

/// A public key as it is read from a text.
#[derive(Debug)]
pub struct ReadKey {
    pub algorithm: String,
    pub comment: Vec<u8>,
    pub bytes: Vec<u8>,
    pub line: String,
    pub fingerprint: String,
}

/// `PublicKey::from_openssh` reads a public key. Its algorithm, its comment,
/// its binary encoding, its line as `PublicKey::to_openssh` writes it and its
/// SHA-256 fingerprint are given, an error as its text. The line starts with the
/// algorithm and the encoding in Base64, from which the same key is read, and
/// ends with the comment of the text, where it has one. The fingerprint is on
/// one line. A text above the bound could hold certificates in one another too
/// deep for the stack.
#[verifier::external_body]
pub(crate) fn read_public_key(text: &str) -> (key: Result<ReadKey, String>)
    requires
        utf8(text@).len() <= MAX_KEY_TEXT_BYTES,
    ensures
        match public_key_of(text@) {
            Some((algorithm, bytes)) => key matches Ok(key) && key.algorithm@ == algorithm
                && key.comment@ == key_comment(text@) && key.bytes@ == bytes && key.line@
                == canonical_key(text@) && key.fingerprint@ == key_fingerprint(bytes),
            None => key is Err,
        },
        key matches Ok(key) ==> ({
            let parts = words(key.line@);
            &&& parts.len() >= 2
            &&& public_key_of(parts[0].push(' ') + parts[1]) == public_key_of(text@)
            &&& !text@.contains('\n') ==> !key.line@.contains('\n')
            &&& !key.fingerprint@.contains('\n')
        }),
{
    let key = match russh::keys::PublicKey::from_openssh(text) {
        Ok(key) => key,
        Err(error) => return Err(error.to_string()),
    };
    match (key.to_bytes(), key.to_openssh()) {
        (Ok(bytes), Ok(line)) => {
            let algorithm = key.algorithm().to_string();
            let comment = key.comment().as_bytes().to_vec();
            let fingerprint = key.fingerprint(russh::keys::HashAlg::Sha256).to_string();
            Ok(ReadKey { algorithm, comment, bytes, line, fingerprint })
        },
        (Err(error), _) | (_, Err(error)) => Err(error.to_string()),
    }
}

} // verus!
