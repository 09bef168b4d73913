//! Which servers are trusted, told by the lists of their keys.
use crate::known_hosts::{
    checked_key, law_glob_finds_every_match, lookup_name, matches_name, patterns_match,
    EntryModel, HostKeyCheck, HostMarker, ServerKeyModel,
};
use crate::text::{ascii_lower, decimal_text, utf8};
use vstd::prelude::*;

verus! {

// ---------------------------------------------------------------------------
// Keys.

/// An entry that takes back the key of a server, or the key that signed its
/// certificate, settles the matter, whatever else the list says.
pub proof fn law_revocation_wins(
    entries: Seq<EntryModel>,
    host: Seq<char>,
    server: ServerKeyModel,
    index: int,
)
    requires
        0 <= index < entries.len(),
        entries[index].marker == Some(HostMarker::Revoked),
        entries[index].key == server.key && server.comment.len() == 0 || (
        server.certificate matches Some(certificate) && certificate.authority
            == entries[index].key),
    ensures
        checked_key(entries, host, server) == HostKeyCheck::Revoked,
{
    assert(crate::known_hosts::revokes(entries[index], server));
}

/// Nothing is said to be taken back without an entry that takes it back.
pub proof fn law_revocation_rests_on_an_entry(
    entries: Seq<EntryModel>,
    host: Seq<char>,
    server: ServerKeyModel,
)
    requires
        checked_key(entries, host, server) == HostKeyCheck::Revoked,
    ensures
        exists|i: int|
            0 <= i < entries.len() && (#[trigger] entries[i]).marker == Some(HostMarker::Revoked)
                && (entries[i].key == server.key || (server.certificate matches Some(certificate)
                && certificate.authority == entries[i].key)),
{
    let i = choose|i: int|
        0 <= i < entries.len() && crate::known_hosts::revokes(#[trigger] entries[i], server);
    assert(entries[i].marker == Some(HostMarker::Revoked));
}

/// The list takes nothing back that the server shows.
pub open spec fn nothing_revoked(entries: Seq<EntryModel>, server: ServerKeyModel) -> bool {
    forall|i: int|
        0 <= i < entries.len() ==> (#[trigger] entries[i]).marker != Some(HostMarker::Revoked) || (
        entries[i].key != server.key && (server.certificate matches Some(certificate)
            ==> certificate.authority != entries[i].key))
}

proof fn lemma_nothing_revoked(entries: Seq<EntryModel>, server: ServerKeyModel)
    requires
        nothing_revoked(entries, server),
    ensures
        !crate::known_hosts::is_revoked(entries, server),
{
    if crate::known_hosts::is_revoked(entries, server) {
        let i = choose|i: int|
            0 <= i < entries.len() && crate::known_hosts::revokes(#[trigger] entries[i], server);
        assert(entries[i].marker == Some(HostMarker::Revoked));
    }
}

/// A server whose own key is listed without a marker is trusted; one of whose
/// kind another key is listed has changed; of any other nothing is known.
pub proof fn law_plain_key_is_held_against_the_list(
    entries: Seq<EntryModel>,
    host: Seq<char>,
    server: ServerKeyModel,
)
    requires
        nothing_revoked(entries, server),
        server.certificate is None,
        server.comment.len() == 0,
    ensures
        ({
            let check = checked_key(entries, host, server);
            let same = exists|i: int|
                0 <= i < entries.len() && (#[trigger] entries[i]).marker is None && entries[i].key
                    == server.key;
            let same_kind = exists|i: int|
                0 <= i < entries.len() && (#[trigger] entries[i]).marker is None
                    && entries[i].algorithm == server.algorithm;
            &&& check == HostKeyCheck::Trusted <==> same
            &&& check == HostKeyCheck::Changed <==> !same && same_kind
            &&& check == HostKeyCheck::Unknown <==> !same && !same_kind
        }),
{
    lemma_nothing_revoked(entries, server);
    if exists|i: int|
        0 <= i < entries.len() && (#[trigger] entries[i]).marker is None && entries[i].key
            == server.key {
        let i = choose|i: int|
            0 <= i < entries.len() && (#[trigger] entries[i]).marker is None && entries[i].key
                == server.key;
        assert(crate::known_hosts::lists(entries[i], server));
    }
}

/// Two characters are the same, or the same letter in upper and lower case.
pub open spec fn same_character(one: char, other: char) -> bool {
    ||| one == other
    ||| 'A' <= one <= 'Z' && other as int == one as int + 32
    ||| 'A' <= other <= 'Z' && one as int == other as int + 32
}

/// Two names are the same but for the case of ASCII letters.
pub open spec fn same_name(one: Seq<char>, other: Seq<char>) -> bool {
    one.len() == other.len() && forall|i: int|
        0 <= i < one.len() ==> same_character(#[trigger] one[i], other[i])
}

/// Names are compared without regard to the case of ASCII letters, and to
/// nothing else.
pub proof fn law_case_does_not_matter(one: Seq<char>, other: Seq<char>)
    ensures
        ascii_lower(one) == ascii_lower(other) <==> same_name(one, other),
{
    let (left, right) = (ascii_lower(one), ascii_lower(other));
    if left == right {
        assert(left.len() == one.len());
        assert(right.len() == other.len());
        assert forall|i: int| 0 <= i < one.len() implies same_character(
            #[trigger] one[i],
            other[i],
        ) by {
            assert(left[i] == right[i]);
        }
    }
    if same_name(one, other) {
        assert forall|i: int| 0 <= i < one.len() implies left[i] == right[i] by {
            assert(same_character(one[i], other[i]));
        }
        assert(left =~= right);
    }
}

/// A certificate makes a server trusted only if it is one for hosts, has no
/// options that are not understood, names the host where it names any, holds,
/// and is signed by a key that the list lets sign; and if all of that is so it
/// does, unless something was taken back.
pub proof fn law_certificate_is_held_against_the_list(
    entries: Seq<EntryModel>,
    host: Seq<char>,
    server: ServerKeyModel,
)
    requires
        nothing_revoked(entries, server),
        server.certificate is Some,
    ensures
        ({
            let certificate = server.certificate->0;
            let check = checked_key(entries, host, server);
            let good = certificate.for_host && !certificate.has_options && (
            certificate.principals.len() == 0 || exists|i: int|
                0 <= i < certificate.principals.len() && same_name(
                    #[trigger] certificate.principals[i],
                    host,
                ));
            let signed = exists|i: int|
                0 <= i < entries.len() && (#[trigger] entries[i]).marker == Some(
                    HostMarker::CertAuthority,
                ) && entries[i].key == certificate.authority;
            &&& check == HostKeyCheck::Trusted <==> good && signed && certificate.holds
            &&& check == HostKeyCheck::Unknown <==> good && !signed
            &&& check == HostKeyCheck::Changed <==> !good || signed && !certificate.holds
        }),
{
    lemma_nothing_revoked(entries, server);
    let certificate = server.certificate->0;
    assert forall|i: int| 0 <= i < certificate.principals.len() implies (ascii_lower(
        #[trigger] certificate.principals[i],
    ) == ascii_lower(host)) == same_name(certificate.principals[i], host) by {
        law_case_does_not_matter(certificate.principals[i], host);
    }
    if exists|i: int|
        0 <= i < entries.len() && (#[trigger] entries[i]).marker == Some(HostMarker::CertAuthority)
            && entries[i].key == certificate.authority {
        let i = choose|i: int|
            0 <= i < entries.len() && (#[trigger] entries[i]).marker == Some(
                HostMarker::CertAuthority,
            ) && entries[i].key == certificate.authority;
        assert(crate::known_hosts::authorizes(entries[i], certificate.authority));
    }
    if exists|i: int|
        0 <= i < certificate.principals.len() && same_name(
            #[trigger] certificate.principals[i],
            host,
        ) {
        let i = choose|i: int|
            0 <= i < certificate.principals.len() && same_name(
                #[trigger] certificate.principals[i],
                host,
            );
        assert(ascii_lower(certificate.principals[i]) == ascii_lower(host));
    }
}

// ---------------------------------------------------------------------------
// Patterns.

/// Two bytes are the same, or the same ASCII letter in upper and lower case.
pub open spec fn same_byte(one: u8, other: u8) -> bool {
    ||| one == other
    ||| 0x41 <= one <= 0x5a && other == one + 32
    ||| 0x41 <= other <= 0x5a && one == other + 32
}

/// A pattern without wildcards matches the name that it spells, in any case,
/// and no other; a question mark in it stands for any one byte.
pub proof fn law_pattern_without_stars(pattern: Seq<u8>, name: Seq<u8>)
    requires
        forall|i: int| 0 <= i < pattern.len() ==> #[trigger] pattern[i] != 0x2a,
    ensures
        matches_name(pattern, name) <==> pattern.len() == name.len() && forall|i: int|
            0 <= i < pattern.len() ==> (#[trigger] pattern[i] == 0x3f || same_byte(
                pattern[i],
                name[i],
            )),
    decreases pattern.len(),
{
    if pattern.len() > 0 {
        let rest = pattern.drop_first();
        assert forall|i: int| 0 <= i < rest.len() implies #[trigger] rest[i] != 0x2a by {
            assert(pattern[i + 1] != 0x2a);
        }
        if name.len() > 0 {
            let later = name.drop_first();
            law_pattern_without_stars(rest, later);
            assert(pattern[0] != 0x2a);
            if matches_name(pattern, name) {
                assert forall|i: int| 0 <= i < pattern.len() implies (#[trigger] pattern[i] == 0x3f
                    || same_byte(pattern[i], name[i])) by {
                    if i > 0 {
                        assert(rest[i - 1] == pattern[i] && later[i - 1] == name[i]);
                    }
                }
            }
            if pattern.len() == name.len() && forall|i: int|
                0 <= i < pattern.len() ==> (#[trigger] pattern[i] == 0x3f || same_byte(
                    pattern[i],
                    name[i],
                )) {
                assert forall|i: int| 0 <= i < rest.len() implies (#[trigger] rest[i] == 0x3f
                    || same_byte(rest[i], later[i])) by {
                    assert(pattern[i + 1] == 0x3f || same_byte(pattern[i + 1], name[i + 1]));
                }
                assert(pattern[0] == 0x3f || same_byte(pattern[0], name[0]));
            }
        } else {
            assert(pattern[0] != 0x2a);
        }
    }
}

/// A star at the beginning of a pattern stands for any number of bytes: the
/// rest of the pattern has to match what some of them leave.
pub proof fn law_star_stands_for_anything(rest: Seq<u8>, name: Seq<u8>)
    ensures
        matches_name(seq![0x2au8] + rest, name) <==> exists|k: int|
            0 <= k <= name.len() && #[trigger] matches_name(rest, name.skip(k)),
    decreases name.len(),
{
    let pattern = seq![0x2au8] + rest;
    assert(pattern.drop_first() =~= rest);
    assert(name.skip(0) =~= name);
    if matches_name(rest, name) {
        assert(matches_name(rest, name.skip(0)));
    }
    if name.len() > 0 {
        let later = name.drop_first();
        law_star_stands_for_anything(rest, later);
        if matches_name(pattern, later) {
            let k = choose|k: int|
                0 <= k <= later.len() && #[trigger] matches_name(rest, later.skip(k));
            assert(later.skip(k) =~= name.skip(k + 1));
            assert(matches_name(rest, name.skip(k + 1)));
        }
        if exists|k: int| 0 <= k <= name.len() && #[trigger] matches_name(rest, name.skip(k)) {
            let k = choose|k: int|
                0 <= k <= name.len() && #[trigger] matches_name(rest, name.skip(k));
            if k > 0 {
                assert(later.skip(k - 1) =~= name.skip(k));
                assert(matches_name(rest, later.skip(k - 1)));
            }
        }
    }
}

/// A pattern is the list's word on a host: one that matches includes the host,
/// and one that matches behind an exclamation mark excludes it, wherever the
/// two stand.
pub proof fn law_host_is_included_and_not_excluded(
    patterns: Seq<Seq<char>>,
    host: Seq<char>,
)
    requires
        forall|i: int| 0 <= i < utf8(host).len() ==> utf8(host)[i] != 0x2a,
    ensures
        patterns_match(patterns, host) <==> {
            &&& exists|i: int|
                0 <= i < patterns.len() && #[trigger] names(patterns[i], host)
            &&& forall|i: int|
                0 <= i < patterns.len() ==> !(#[trigger] bars(patterns[i], host))
        },
{
    assert forall|i: int| 0 <= i < patterns.len() implies #[trigger] crate::known_hosts::excludes(
        patterns[i],
        host,
    ) == bars(patterns[i], host) by {
        law_glob_finds_every_match(utf8(patterns[i].skip(1)), utf8(host));
    }
    assert forall|i: int| 0 <= i < patterns.len() implies
        #[trigger] crate::known_hosts::includes_host(patterns[i], host) == names(
        patterns[i],
        host,
    ) by {
        law_glob_finds_every_match(utf8(patterns[i]), utf8(host));
    }
    if exists|i: int| 0 <= i < patterns.len() && #[trigger] names(patterns[i], host) {
        let i = choose|i: int| 0 <= i < patterns.len() && #[trigger] names(patterns[i], host);
        assert(crate::known_hosts::includes_host(patterns[i], host));
    }
    if forall|i: int| 0 <= i < patterns.len() ==> !(#[trigger] bars(patterns[i], host)) {
        assert forall|i: int| 0 <= i < patterns.len() implies
            !crate::known_hosts::excludes(#[trigger] patterns[i], host) by {
            assert(!bars(patterns[i], host));
            assert(crate::known_hosts::excludes(patterns[i], host) == bars(patterns[i], host));
        }
    }
    if patterns_match(patterns, host) {
        let i = choose|i: int|
            0 <= i < patterns.len() && crate::known_hosts::includes_host(
                #[trigger] patterns[i],
                host,
            );
        assert(crate::known_hosts::includes_host(patterns[i], host) == names(patterns[i], host));
        assert forall|n: int| 0 <= n < patterns.len() implies !(#[trigger] bars(
            patterns[n],
            host,
        )) by {
            assert(crate::known_hosts::excludes(patterns[n], host) == bars(patterns[n], host));
        }
    }
}

/// A pattern without an exclamation mark that matches a host.
pub open spec fn names(pattern: Seq<char>, host: Seq<char>) -> bool {
    &&& pattern.len() == 0 || pattern[0] != '!'
    &&& matches_name(utf8(pattern), utf8(host))
}

/// An exclamation mark before a pattern that matches a host.
pub open spec fn bars(pattern: Seq<char>, host: Seq<char>) -> bool {
    &&& pattern.len() > 0
    &&& pattern[0] == '!'
    &&& matches_name(utf8(pattern.skip(1)), utf8(host))
}

// ---------------------------------------------------------------------------
// Names.

/// The number that digits write.
pub open spec fn number_of(digits: Seq<char>) -> int
    decreases digits.len(),
{
    if digits.len() == 0 {
        0
    } else {
        10 * number_of(digits.drop_last()) + (digits.last() as int - '0' as int)
    }
}

/// A number is written in digits that give it back, without a zero before it.
pub proof fn law_number_is_written_in_digits(number: nat)
    ensures
        number_of(decimal_text(number)) == number,
        decimal_text(number).len() > 0,
        forall|i: int|
            0 <= i < decimal_text(number).len() ==> '0' <= #[trigger] decimal_text(number)[i]
                <= '9',
        number > 0 ==> decimal_text(number)[0] != '0',
    decreases number,
{
    if number < 10 {
        let one = decimal_text(number);
        assert(one.drop_last() =~= Seq::<char>::empty());
        assert(number_of(one.drop_last()) == 0);
    } else {
        law_number_is_written_in_digits(number / 10);
        let front = decimal_text(number / 10);
        let all = decimal_text(number);
        assert(all.drop_last() =~= front);
        assert(all[0] == front[0]);
        assert forall|i: int| 0 <= i < all.len() implies '0' <= #[trigger] all[i] <= '9' by {
            if i < front.len() {
                assert(all[i] == front[i]);
            }
        }
    }
}

/// A host is looked up by its name at the usual port and with the port at any
/// other, so that no two ports of it are looked up alike; the case of its name
/// does not matter.
pub proof fn law_every_port_is_looked_up_apart(
    host: Seq<char>,
    other_host: Seq<char>,
    port: u16,
    other: u16,
)
    ensures
        lookup_name(host, 22).len() == host.len(),
        port != 22 ==> lookup_name(host, port).len() > host.len() + 3 && lookup_name(host, port)[0]
            == '[',
        lookup_name(host, port) == lookup_name(host, other) ==> port == other,
        same_name(host, other_host) ==> lookup_name(host, port) == lookup_name(other_host, port),
{
    law_case_does_not_matter(host, other_host);
    law_number_is_written_in_digits(port as nat);
    law_number_is_written_in_digits(other as nat);
    let lower = ascii_lower(host);
    assert(lower.len() == host.len());
    if port != 22 && other != 22 && lookup_name(host, port) == lookup_name(host, other) {
        let n = (lower.len() + 3) as int;
        assert(lookup_name(host, port).skip(n) =~= decimal_text(port as nat));
        assert(lookup_name(host, other).skip(n) =~= decimal_text(other as nat));
    }
}

} // verus!
