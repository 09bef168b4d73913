//! What adding a host to a list gives back when the list is read again.
use crate::known_hosts::{
    audit_line, canonical_line, checked_key, glob_run, host_char, host_name, hosts_match,
    import_record, includes_host, key_in, list_entries, list_line, lookup_name, patterns_match,
    profile_name, source_fingerprint, EntryModel, HostKeyCheck, LineModel, ServerKeyModel,
};
use crate::outside::{canonical_key, hash_prefix, listed_patterns};
use crate::text::{
    ascii_lower, decimal_text, lemma_decimal_text, lemma_first_word, lemma_one_piece,
    lemma_one_word, lemma_pieces, lemma_pieces_after_mark, lemma_words_after_space,
    lemma_words_of_cut, lower_char, pieces, space, utf8, words,
};
use vstd::prelude::*;

verus! {

/// A pattern matches the name that it is.
proof fn lemma_glob_self(name: Seq<u8>, at: int)
    requires
        0 <= at <= name.len(),
    ensures
        glob_run(name, name, at, at, None, 0),
    decreases name.len() - at,
{
    if at < name.len() {
        lemma_glob_self(name, at + 1);
    }
}

/// The name under which a host is looked up is a word that a list can hold.
proof fn lemma_lookup_name(host: Seq<char>, port: u16)
    requires
        host_name(host),
    ensures
        host_name(lookup_name(host, port)),
        lookup_name(host, port)[0] == (if port == 22 {
            lower_char(host[0])
        } else {
            '['
        }),
{
    let lower = ascii_lower(host);
    let name = lookup_name(host, port);
    assert forall|i: int| 0 <= i < lower.len() implies host_char(#[trigger] lower[i]) by {
        assert(host_char(host[i]));
    }
    if port != 22 {
        let number = decimal_text(port as nat);
        lemma_decimal_text(port as nat);
        assert forall|i: int| 0 <= i < name.len() implies host_char(#[trigger] name[i]) by {
            let at = i - 3 - lower.len();
            if 1 <= i <= lower.len() {
                assert(name[i] == lower[i - 1]);
            } else if at >= 0 {
                assert(name[i] == number[at]);
            }
        }
    }
}

/// The name of a host, as the hosts of a line, holds the host.
proof fn lemma_own_line(name: Seq<char>)
    requires
        host_name(name),
    ensures
        hosts_match(name, name) == Some(true),
{
    assert(host_char(name[0]));
    assert(!hash_prefix().is_prefix_of(name));
    assert(!name.contains(',')) by {
        if name.contains(',') {
            let i = choose|i: int| 0 <= i < name.len() && name[i] == ',';
            assert(host_char(name[i]));
        }
    }
    lemma_one_piece(name, ',');
    let patterns = listed_patterns(name);
    assert(patterns =~= seq![name]);
    lemma_glob_self(utf8(name), 0);
    assert(includes_host(patterns[0], name));
    assert(patterns_match(patterns, name));
}

/// A line of a list gives the entry that was written.
proof fn lemma_entry_line(name: Seq<char>, line: Seq<char>)
    requires
        host_name(name),
        name[0] != '@',
        words(line).len() >= 2,
        key_in(words(line)[0].push(' ') + words(line)[1]) is Some,
    ensures
        ({
            let key = key_in(words(line)[0].push(' ') + words(line)[1])->0;
            list_line(name.push(' ') + line, name) == LineModel::Entry(
                EntryModel { marker: None, algorithm: key.0, key: key.1 },
            )
        }),
{
    assert forall|i: int| 0 <= i < name.len() implies !space(#[trigger] name[i]) by {
        assert(host_char(name[i]));
    }
    lemma_one_word(name);
    let start = name.push(' ');
    assert(start.drop_last() =~= name);
    assert(words(start) == words(name));
    lemma_words_after_space(start, line);
    let fields = words(start + line);
    assert(fields =~= seq![name] + words(line));
    assert(fields[0] == name);
    assert(fields[1] == words(line)[0]);
    assert(fields[2] == words(line)[1]);
    assert(host_char(name[0]));
    lemma_own_line(name);
}

/// The comment that tells of an addition is on one line and gives nothing.
proof fn lemma_audit_line(seconds: u64, profile: Seq<char>, fingerprint: Seq<char>, host: Seq<char>)
    requires
        profile_name(profile),
        !fingerprint.contains('\n'),
    ensures
        !audit_line(seconds, profile, fingerprint).contains('\n'),
        list_line(audit_line(seconds, profile, fingerprint), host) == LineModel::Nothing,
{
    reveal_strlit("# CShell host-key-import v1 utc_unix=");
    reveal_strlit(" profile=");
    reveal_strlit(" fingerprint=");
    let line = audit_line(seconds, profile, fingerprint);
    let first = "# CShell host-key-import v1 utc_unix="@;
    let number = decimal_text(seconds as nat);
    let second = " profile="@;
    let third = " fingerprint="@;
    lemma_decimal_text(seconds as nat);
    assert(line[0] == '#');
    lemma_first_word(line);
    assert forall|i: int| 0 <= i < line.len() implies #[trigger] line[i] != '\n' by {
        let a = i - first.len();
        let b = a - number.len();
        let c = b - second.len();
        let d = c - profile.len();
        let e = d - third.len();
        if a < 0 {
            assert(line[i] == first[i]);
        } else if b < 0 {
            assert(line[i] == number[a]);
        } else if c < 0 {
            assert(line[i] == second[b]);
        } else if d < 0 {
            assert(line[i] == profile[c]);
        } else if e < 0 {
            assert(line[i] == third[d]);
        } else {
            assert(line[i] == fingerprint[e]);
            assert(fingerprint.contains(fingerprint[e]));
        }
    }
}

/// A list that gives nothing, and then these two lines and an end.
proof fn lemma_two_lines(
    before: Seq<Seq<char>>,
    comment: Seq<char>,
    line: Seq<char>,
    host: Seq<char>,
    entry: EntryModel,
)
    requires
        list_entries(before, host) == Ok::<Seq<EntryModel>, int>(Seq::empty()),
        list_line(comment, host) == LineModel::Nothing,
        list_line(line, host) == LineModel::Entry(entry),
    ensures
        list_entries(before + seq![comment, line, Seq::empty()], host) == Ok::<
            Seq<EntryModel>,
            int,
        >(seq![entry]),
{
    let all = before + seq![comment, line, Seq::empty()];
    let two = before + seq![comment, line];
    let one = before + seq![comment];
    assert(all.drop_last() =~= two);
    assert(two.drop_last() =~= one);
    assert(one.drop_last() =~= before);
    assert(words(Seq::<char>::empty()) =~= Seq::empty());
    assert(list_line(all.last(), host) == LineModel::Nothing);
    assert(list_entries(one, host) == Ok::<Seq<EntryModel>, int>(Seq::empty()));
    assert(Seq::<EntryModel>::empty().push(entry) =~= seq![entry]);
    assert(list_entries(two, host) == Ok::<Seq<EntryModel>, int>(seq![entry]));
}

/// Two lines with their ends are two pieces and an empty one.
proof fn lemma_record_pieces(comment: Seq<char>, line: Seq<char>)
    requires
        !comment.contains('\n'),
        !line.contains('\n'),
    ensures
        pieces(comment.push('\n') + line.push('\n'), '\n') == seq![comment, line, Seq::empty()],
{
    lemma_one_piece(comment, '\n');
    lemma_one_piece(line, '\n');
    let first = comment.push('\n');
    let second = line.push('\n');
    assert(first.drop_last() =~= comment);
    assert(second.drop_last() =~= line);
    lemma_pieces_after_mark(first, second, '\n');
    assert(pieces(first, '\n') =~= seq![comment, Seq::empty()]);
    assert(pieces(second, '\n') =~= seq![line, Seq::empty()]);
    assert(pieces(first, '\n').drop_last() + pieces(second, '\n') =~= seq![
        comment,
        line,
        Seq::empty(),
    ]);
}

/// A comment and a line behind a list that knows nothing of the host.
proof fn lemma_added_lines(
    existing: Seq<char>,
    comment: Seq<char>,
    line: Seq<char>,
    host: Seq<char>,
    entry: EntryModel,
)
    requires
        !comment.contains('\n'),
        !line.contains('\n'),
        list_entries(pieces(existing, '\n'), host) == Ok::<Seq<EntryModel>, int>(Seq::empty()),
        list_line(comment, host) == LineModel::Nothing,
        list_line(line, host) == LineModel::Entry(entry),
    ensures
        ({
            let gap = if existing.len() == 0 || existing.last() == '\n' {
                Seq::empty()
            } else {
                seq!['\n']
            };
            list_entries(
                pieces(existing + (gap + comment.push('\n') + line.push('\n')), '\n'),
                host,
            ) == Ok::<Seq<EntryModel>, int>(seq![entry])
        }),
{
    let added = comment.push('\n') + line.push('\n');
    lemma_record_pieces(comment, line);
    lemma_pieces(existing, '\n');
    if existing.len() == 0 || existing.last() == '\n' {
        assert(existing + (Seq::empty() + comment.push('\n') + line.push('\n')) =~= existing
            + added);
        lemma_pieces_after_mark(existing, added, '\n');
        let all = pieces(existing, '\n');
        assert(all.last() =~= Seq::empty());
        assert(words(all.last()) =~= Seq::empty());
        assert(list_line(all.last(), host) == LineModel::Nothing);
        assert(list_entries(all.drop_last(), host) == Ok::<Seq<EntryModel>, int>(Seq::empty()));
        lemma_two_lines(all.drop_last(), comment, line, host, entry);
    } else {
        let ended = existing.push('\n');
        assert(existing + (seq!['\n'] + comment.push('\n') + line.push('\n')) =~= ended + added);
        assert(ended.drop_last() =~= existing);
        lemma_pieces_after_mark(ended, added, '\n');
        assert(pieces(ended, '\n').drop_last() =~= pieces(existing, '\n'));
        lemma_two_lines(pieces(existing, '\n'), comment, line, host, entry);
    }
}

/// A host's line is one line if its key is.
proof fn lemma_host_line(name: Seq<char>, line: Seq<char>)
    requires
        host_name(name),
        !line.contains('\n'),
    ensures
        !(name.push(' ') + line).contains('\n'),
{
    let whole = name.push(' ') + line;
    if whole.contains('\n') {
        let i = choose|i: int| 0 <= i < whole.len() && whole[i] == '\n';
        if i < name.len() {
            assert(host_char(name[i]));
        } else if i > name.len() {
            assert(line[i - name.len() - 1] == '\n');
        }
    }
}

/// A host that was added is known: the list, read again for it, holds the key
/// and no other, and a server that shows the key is trusted. The key's comment
/// must not run over lines, and the name must not look like a marker.
pub proof fn law_added_host_is_trusted(
    existing: Seq<char>,
    host: Seq<char>,
    port: u16,
    seconds: u64,
    profile: Seq<char>,
    source: Seq<char>,
)
    requires
        host_name(host),
        profile_name(profile),
        canonical_line(source),
        !source.contains('\n'),
        port == 22 ==> host[0] != '@',
        list_entries(pieces(existing, '\n'), lookup_name(host, port)) == Ok::<
            Seq<EntryModel>,
            int,
        >(Seq::empty()),
    ensures
        ({
            let lookup = lookup_name(host, port);
            let record = import_record(
                existing,
                lookup,
                seconds,
                profile,
                source_fingerprint(source),
                canonical_key(source),
            );
            let key = key_in(source)->0;
            let entry = EntryModel { marker: None, algorithm: key.0, key: key.1 };
            let server = ServerKeyModel {
                algorithm: key.0,
                key: key.1,
                comment: Seq::empty(),
                certificate: None,
            };
            &&& list_entries(pieces(existing + record, '\n'), lookup) == Ok::<
                Seq<EntryModel>,
                int,
            >(seq![entry])
            &&& checked_key(seq![entry], ascii_lower(host), server) == HostKeyCheck::Trusted
        }),
{
    let lookup = lookup_name(host, port);
    let fingerprint = source_fingerprint(source);
    let line = canonical_key(source);
    let record = import_record(existing, lookup, seconds, profile, fingerprint, line);
    let key = key_in(source)->0;
    let entry = EntryModel { marker: None, algorithm: key.0, key: key.1 };
    lemma_lookup_name(host, port);
    lemma_audit_line(seconds, profile, fingerprint, lookup);
    lemma_entry_line(lookup, line);
    let comment = audit_line(seconds, profile, fingerprint);
    let host_line = lookup.push(' ') + line;
    lemma_host_line(lookup, line);
    lemma_added_lines(existing, comment, host_line, lookup, entry);
    assert(seq![entry][0].key == key.1);
}

/// Two lines of which the end is cut off.
proof fn lemma_torn_pieces(comment: Seq<char>, line: Seq<char>, cut: int)
    requires
        !comment.contains('\n'),
        !line.contains('\n'),
        0 <= cut <= comment.len() + 1 + line.len(),
    ensures
        pieces((comment.push('\n') + line.push('\n')).take(cut), '\n') == if cut <= comment.len() {
            seq![comment.take(cut)]
        } else {
            seq![comment, line.take(cut - comment.len() - 1)]
        },
{
    let torn = (comment.push('\n') + line.push('\n')).take(cut);
    if cut <= comment.len() {
        assert(torn =~= comment.take(cut));
        assert(!torn.contains('\n')) by {
            if torn.contains('\n') {
                let i = choose|i: int| 0 <= i < torn.len() && torn[i] == '\n';
                assert(comment[i] == '\n');
            }
        }
        lemma_one_piece(torn, '\n');
    } else {
        let rest = line.take(cut - comment.len() - 1);
        let first = comment.push('\n');
        assert(torn =~= first + rest);
        assert(!rest.contains('\n')) by {
            if rest.contains('\n') {
                let i = choose|i: int| 0 <= i < rest.len() && rest[i] == '\n';
                assert(line[i] == '\n');
            }
        }
        lemma_one_piece(comment, '\n');
        lemma_one_piece(rest, '\n');
        assert(first.drop_last() =~= comment);
        lemma_pieces_after_mark(first, rest, '\n');
        assert(pieces(first, '\n') =~= seq![comment, Seq::empty()]);
        assert(pieces(first, '\n').drop_last() + seq![rest] =~= seq![comment, rest]);
    }
}

/// A comment that is cut off gives nothing either.
proof fn lemma_torn_comment(comment: Seq<char>, cut: int, host: Seq<char>)
    requires
        comment.len() > 0,
        comment[0] == '#',
        0 <= cut <= comment.len(),
    ensures
        list_line(comment.take(cut), host) == LineModel::Nothing,
{
    let torn = comment.take(cut);
    if cut == 0 {
        assert(torn =~= Seq::empty());
        assert(words(torn) =~= Seq::empty());
    } else {
        assert(torn[0] == '#');
        lemma_first_word(torn);
    }
}

/// What a list gives that ends in the line about a host, cut off.
pub open spec fn torn_line_gives(
    torn: Seq<char>,
    whole: Seq<char>,
    entry: EntryModel,
    listed: Result<Seq<EntryModel>, int>,
) -> bool {
    &&& torn.len() == 0 ==> listed == Ok::<Seq<EntryModel>, int>(Seq::empty())
    &&& torn.len() > 0 && words(torn).len() < 3 ==> listed is Err
    &&& words(torn).len() >= 3 && words(torn)[2] == words(whole)[2] ==> listed == Ok::<
        Seq<EntryModel>,
        int,
    >(seq![entry])
}

proof fn lemma_torn_line(
    before: Seq<Seq<char>>,
    name: Seq<char>,
    line: Seq<char>,
    cut: int,
    entry: EntryModel,
)
    requires
        list_entries(before, name) == Ok::<Seq<EntryModel>, int>(Seq::empty()),
        host_name(name),
        name[0] != '@',
        words(line).len() >= 2,
        key_in(words(line)[0].push(' ') + words(line)[1]) == Some(
            (entry.algorithm, entry.key),
        ),
        entry.marker is None,
        0 <= cut <= name.len() + 1 + line.len(),
    ensures
        ({
            let whole = name.push(' ') + line;
            torn_line_gives(
                whole.take(cut),
                whole,
                entry,
                list_entries(before.push(whole.take(cut)), name),
            )
        }),
{
    let start = name.push(' ');
    let whole = start + line;
    let torn = whole.take(cut);
    let all = before.push(torn);
    assert(all.drop_last() =~= before);
    assert forall|i: int| 0 <= i < name.len() implies !space(#[trigger] name[i]) by {
        assert(host_char(name[i]));
    }
    assert(host_char(name[0]));
    lemma_one_word(name);
    assert(start.drop_last() =~= name);
    assert(words(start) == words(name));
    lemma_words_after_space(start, line);
    assert(words(whole) =~= seq![name] + words(line));
    if cut == 0 {
        assert(torn =~= Seq::empty());
        assert(words(torn) =~= Seq::empty());
    } else {
        assert(torn[0] == name[0]);
        lemma_first_word(torn);
        lemma_words_of_cut(whole, cut);
        if words(torn).len() >= 3 && words(torn)[2] == words(whole)[2] {
            assert(words(torn)[0] == words(whole)[0]);
            assert(words(torn)[1] == words(whole)[1]);
            assert(words(whole)[0] == name);
            assert(words(whole)[1] == words(line)[0]);
            assert(words(whole)[2] == words(line)[1]);
            lemma_own_line(name);
            assert(Seq::<EntryModel>::empty().push(entry) =~= seq![entry]);
        }
    }
}

/// A record of which the end was not written does no harm: where it breaks off
/// in its comment, the host is as unknown as before; where it breaks off in
/// the line about the host before the key begins, the list is not read at all;
/// and where the key is whole, it is the key that was added. What a key gives
/// that breaks off in the middle is for the reader of keys to say.
pub proof fn law_torn_record_fails_closed(
    existing: Seq<char>,
    host: Seq<char>,
    port: u16,
    seconds: u64,
    profile: Seq<char>,
    source: Seq<char>,
    cut: int,
)
    requires
        host_name(host),
        profile_name(profile),
        canonical_line(source),
        !source.contains('\n'),
        port == 22 ==> host[0] != '@',
        list_entries(pieces(existing, '\n'), lookup_name(host, port)) == Ok::<
            Seq<EntryModel>,
            int,
        >(Seq::empty()),
        0 <= cut < import_record(
            existing,
            lookup_name(host, port),
            seconds,
            profile,
            source_fingerprint(source),
            canonical_key(source),
        ).len(),
    ensures
        ({
            let lookup = lookup_name(host, port);
            let whole = lookup.push(' ') + canonical_key(source);
            let record = import_record(
                existing,
                lookup,
                seconds,
                profile,
                source_fingerprint(source),
                canonical_key(source),
            );
            let reached = cut - (record.len() - whole.len() - 1);
            let key = key_in(source)->0;
            let entry = EntryModel { marker: None, algorithm: key.0, key: key.1 };
            torn_line_gives(
                whole.take(if reached < 0 {
                    0
                } else {
                    reached
                }),
                whole,
                entry,
                list_entries(pieces(existing + record.take(cut), '\n'), lookup),
            )
        }),
{
    let lookup = lookup_name(host, port);
    let fingerprint = source_fingerprint(source);
    let line = canonical_key(source);
    let record = import_record(existing, lookup, seconds, profile, fingerprint, line);
    let key = key_in(source)->0;
    let entry = EntryModel { marker: None, algorithm: key.0, key: key.1 };
    lemma_lookup_name(host, port);
    lemma_audit_line(seconds, profile, fingerprint, lookup);
    let comment = audit_line(seconds, profile, fingerprint);
    reveal_strlit("# CShell host-key-import v1 utc_unix=");
    assert(comment[0] == '#');
    let whole = lookup.push(' ') + line;
    lemma_host_line(lookup, line);
    let added = comment.push('\n') + whole.push('\n');
    lemma_pieces(existing, '\n');
    let gap = record.len() - added.len();
    if cut < gap {
        assert(record.take(cut) =~= Seq::empty());
        assert(existing + record.take(cut) =~= existing);
        assert(whole.take(0) =~= Seq::empty());
    } else {
        let (ended, before) = if gap == 0 {
            (existing, pieces(existing, '\n').drop_last())
        } else {
            (existing.push('\n'), pieces(existing, '\n'))
        };
        assert(existing + record.take(cut) =~= ended + added.take(cut - gap));
        if gap == 0 {
            let all = pieces(existing, '\n');
            assert(all.last() =~= Seq::empty());
            assert(words(all.last()) =~= Seq::empty());
        } else {
            assert(ended.drop_last() =~= existing);
            assert(pieces(ended, '\n').drop_last() =~= before);
        }
        assert(list_entries(before, lookup) == Ok::<Seq<EntryModel>, int>(Seq::empty()));
        lemma_pieces_after_mark(ended, added.take(cut - gap), '\n');
        lemma_torn_pieces(comment, whole, cut - gap);
        if cut - gap <= comment.len() {
            let torn = comment.take(cut - gap);
            lemma_torn_comment(comment, cut - gap, lookup);
            assert(before + seq![torn] =~= before.push(torn));
            assert(before.push(torn).drop_last() =~= before);
            assert(whole.take(0) =~= Seq::empty());
        } else {
            let torn = whole.take(cut - gap - comment.len() - 1);
            let one = before.push(comment);
            assert(one.drop_last() =~= before);
            assert(before + seq![comment, torn] =~= one.push(torn));
            lemma_torn_line(one, lookup, line, cut - gap - comment.len() - 1, entry);
        }
    }
}

} // verus!
