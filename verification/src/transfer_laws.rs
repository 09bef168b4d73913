//! What file transfers and listings owe: packets, paths and entries.
use crate::sftp::{
    chunk_of, joined_path, last_slash, listed, metadata_of, page_limit_fits, split_path,
    temporary_name, temporary_of, within_limits, EntryModel, RemoteAttributes, RemoteFileType, RemoteName,
};
use crate::sftp::{Limits, TransferFault, TransferOutcome};
use crate::transfer::{
    download_asks, download_next, publish_next, upload_asks, upload_next, DownloadAction,
    DownloadEvent, DownloadState, PublishEvent, PublishState, UploadAction, UploadEvent,
    UploadState,
};
use vstd::prelude::*;

verus! {

/// As much is carried at once as the limits allow: the amount keeps to them, a
/// larger one would not, and where nothing is carried nothing could be.
pub proof fn law_chunk_is_the_largest_allowed(
    packet: Option<u64>,
    overhead: int,
    limit: Option<u64>,
    other: int,
)
    requires
        0 <= overhead,
    ensures
        match chunk_of(packet, overhead, limit) {
            Some(chunk) => {
                &&& within_limits(chunk, packet, overhead, limit)
                &&& within_limits(other, packet, overhead, limit) ==> other <= chunk
            },
            None => !within_limits(other, packet, overhead, limit),
        },
{
}

/// Limits mean what they say: something is carried, it and what comes with it
/// fit into the packet that the server takes and into 256 KiB, it is no more
/// than the server takes at once and no more than 32 KiB.
pub proof fn law_chunk_keeps_to_every_limit(
    packet: Option<u64>,
    overhead: int,
    limit: Option<u64>,
    chunk: int,
)
    requires
        0 <= overhead,
        chunk_of(packet, overhead, limit) == Some(chunk),
    ensures
        0 < chunk <= 32 * 1024,
        overhead + chunk <= 256 * 1024,
        packet matches Some(length) ==> overhead + chunk <= length,
        limit matches Some(limit) ==> chunk <= limit,
{
}

// ---------------------------------------------------------------------------
// Paths.

proof fn lemma_last_slash(path: Seq<char>, at: int)
    requires
        0 <= at < path.len(),
        path[at] == '/',
        forall|i: int| at < i < path.len() ==> #[trigger] path[i] != '/',
    ensures
        last_slash(path) == Some(at),
    decreases path.len(),
{
    if at < path.len() - 1 {
        let front = path.drop_last();
        assert(path[path.len() - 1] != '/');
        assert forall|i: int| at < i < front.len() implies #[trigger] front[i] != '/' by {
            assert(path[i] != '/');
        }
        lemma_last_slash(front, at);
    }
}

proof fn lemma_no_slash(path: Seq<char>)
    requires
        !path.contains('/'),
    ensures
        last_slash(path) is None,
    decreases path.len(),
{
    if path.len() > 0 {
        let front = path.drop_last();
        assert(path.contains(path[path.len() - 1]));
        if front.contains('/') {
            let i = choose|i: int| 0 <= i < front.len() && front[i] == '/';
            assert(path[i] == '/');
        }
        lemma_no_slash(front);
    }
}

/// A directory and a name with a slash between them split into the two again.
proof fn lemma_split_joined(parent: Seq<char>, name: Seq<char>)
    requires
        !name.contains('/'),
    ensures
        split_path(parent.push('/') + name) == (parent, name),
{
    let path = parent.push('/') + name;
    let at = parent.len() as int;
    assert forall|i: int| at < i < path.len() implies #[trigger] path[i] != '/' by {
        assert(path[i] == name[i - at - 1]);
        assert(name.contains(name[i - at - 1]));
    }
    lemma_last_slash(path, at);
    assert(path.take(at) =~= parent);
    assert(path.skip(at + 1) =~= name);
}

/// The path of a file in a directory leads to that name in that directory,
/// whether or not the directory was written with a slash at its end, and a
/// name without a directory is its own path.
pub proof fn law_joined_path_leads_to_the_file(directory: Seq<char>, name: Seq<char>)
    requires
        !name.contains('/'),
    ensures
        joined_path(directory.push('/'), name) == directory + seq!['/'] + name,
        split_path(joined_path(directory.push('/'), name)) == (directory, name),
        directory.len() > 0 && directory.last() != '/' ==> split_path(
            joined_path(directory, name),
        ) == (directory, name),
        joined_path(Seq::empty(), name) == name,
{
    lemma_split_joined(directory, name);
    assert(directory.push('/') + name =~= directory + seq!['/'] + name);
}

/// A file is written in the directory in which it will lie, hidden and under
/// another name than its own, and under different names in different attempts.
pub proof fn law_file_is_written_next_to_its_place(
    directory: Seq<char>,
    name: Seq<char>,
    id: Seq<char>,
    other: Seq<char>,
)
    requires
        directory.len() > 0,
        directory != seq!['/'],
        !name.contains('/'),
        !id.contains('/'),
    ensures
        ({
            let path = directory.push('/') + name;
            let written = split_path(temporary_of(path, id));
            &&& written.0 == directory
            &&& written.1.len() > name.len()
            &&& written.1[0] == '.'
            &&& written.1 != name
            &&& temporary_of(path, id) != path
            &&& temporary_of(path, id) == temporary_of(path, other) ==> id == other
        }),
{
    let path = directory.push('/') + name;
    let hidden = temporary_name(name, id);
    lemma_split_joined(directory, name);
    reveal_strlit(".cshell-");
    reveal_strlit(".tmp");
    assert(!hidden.contains('/')) by {
        if hidden.contains('/') {
            let i = choose|i: int| 0 <= i < hidden.len() && hidden[i] == '/';
            let (n, m) = (name.len() as int, id.len() as int);
            if 1 <= i < 1 + n {
                assert(hidden[i] == name[i - 1]);
                assert(name.contains(name[i - 1]));
            } else if 9 + n <= i < 9 + n + m {
                assert(hidden[i] == id[i - 9 - n]);
                assert(id.contains(id[i - 9 - n]));
            } else if i == 0 {
                assert(hidden[0] == '.');
            } else if i < 9 + n {
                assert(hidden[i] == ".cshell-"@[i - 1 - n]);
            } else {
                assert(hidden[i] == ".tmp"@[i - 9 - n - m]);
            }
        }
    }
    lemma_split_joined(directory, hidden);
    assert(temporary_of(path, id) == directory.push('/') + hidden);
    assert(hidden[0] == '.');
    assert((directory.push('/') + hidden).len() > path.len());
    if temporary_of(path, id) == temporary_of(path, other) {
        let second = temporary_name(name, other);
        let whole = directory.push('/') + hidden;
        let both = directory.push('/') + second;
        assert(temporary_of(path, other) == both);
        assert(whole.len() == both.len());
        assert(id.len() == other.len());
        assert forall|i: int| 0 <= i < id.len() implies id[i] == other[i] by {
            let at = directory.len() + 1 + 9 + name.len() + i;
            assert(whole[at] == id[i]);
            assert(both[at] == other[i]);
        }
        assert(id =~= other);
    }
}

// ---------------------------------------------------------------------------
// Listings.

/// The entry that a name of a directory gives.
pub open spec fn entry_of(directory: Seq<char>, name: RemoteName) -> EntryModel {
    EntryModel {
        name: name.name@,
        path: joined_path(directory, name.name@),
        metadata: metadata_of(name.attributes),
    }
}

/// The name is neither that of the directory itself nor that of the one above.
pub open spec fn is_listed(name: RemoteName) -> bool {
    name.name@ != seq!['.'] && name.name@ != seq!['.', '.']
}

/// A listing has an entry for every name but the directory itself and the one
/// above it, and no other entry.
pub proof fn law_listing_shows_every_name(
    directory: Seq<char>,
    names: Seq<RemoteName>,
    entry: EntryModel,
)
    ensures
        listed(directory, names).contains(entry) <==> exists|i: int|
            0 <= i < names.len() && is_listed(#[trigger] names[i]) && entry == entry_of(
                directory,
                names[i],
            ),
    decreases names.len(),
{
    if names.len() > 0 {
        let front = names.drop_last();
        let last = names.len() - 1;
        law_listing_shows_every_name(directory, front, entry);
        let before = listed(directory, front);
        let after = listed(directory, names);
        if after.contains(entry) {
            let k = choose|k: int| 0 <= k < after.len() && after[k] == entry;
            if k < before.len() {
                assert(before[k] == entry);
                assert(before.contains(entry));
                let i = choose|i: int|
                    0 <= i < front.len() && is_listed(#[trigger] front[i]) && entry == entry_of(
                        directory,
                        front[i],
                    );
                assert(names[i] == front[i]);
            } else {
                assert(is_listed(names[last]));
            }
        }
        if exists|i: int|
            0 <= i < names.len() && is_listed(#[trigger] names[i]) && entry == entry_of(
                directory,
                names[i],
            ) {
            let i = choose|i: int|
                0 <= i < names.len() && is_listed(#[trigger] names[i]) && entry == entry_of(
                    directory,
                    names[i],
                );
            if i < last {
                assert(front[i] == names[i]);
                assert(before.contains(entry));
                let k = choose|k: int| 0 <= k < before.len() && before[k] == entry;
                assert(after[k] == entry);
            } else {
                assert(after[after.len() - 1] == entry);
            }
        }
    }
}

/// The entries stand in the order in which the server gave their names: of two
/// listings one after the other, the entries of the first come first.
pub proof fn law_listing_keeps_the_order(
    directory: Seq<char>,
    first: Seq<RemoteName>,
    second: Seq<RemoteName>,
)
    ensures
        listed(directory, first + second) == listed(directory, first) + listed(directory, second),
    decreases second.len(),
{
    if second.len() == 0 {
        assert(first + second =~= first);
        assert(listed(directory, first) + Seq::<EntryModel>::empty() =~= listed(directory, first));
    } else {
        assert((first + second).drop_last() =~= first + second.drop_last());
        law_listing_keeps_the_order(directory, first, second.drop_last());
        assert(listed(directory, first + second) =~= listed(directory, first) + listed(
            directory,
            second,
        ));
    }
}

/// A file's attributes are handed on as the server gave them, each in its
/// place, and its kind is that of the upper four bits of its mode: a directory
/// has a 4 there, a file an 8, a symbolic link a 10.
pub proof fn law_attributes_are_handed_on(attributes: RemoteAttributes, mode: u32)
    requires
        attributes.permissions == Some(mode),
        mode <= 0xffff,
    ensures
        ({
            let told = metadata_of(attributes);
            &&& told.size == attributes.size
            &&& told.uid == attributes.uid
            &&& told.gid == attributes.gid
            &&& told.permissions == Some(mode)
            &&& told.accessed_unix_seconds == attributes.atime
            &&& told.modified_unix_seconds == attributes.mtime
            &&& told.file_type == RemoteFileType::Directory <==> mode / 4096 == 4
            &&& told.file_type == RemoteFileType::File <==> mode / 4096 == 8
            &&& told.file_type == RemoteFileType::Symlink <==> mode / 4096 == 10
        }),
{
    assert(mode <= 0xffff ==> (mode & 0xf000) == (mode / 4096) * 4096) by (bit_vector);
}

// ---------------------------------------------------------------------------
// Uploads.

/// An upload after some more events.
pub open spec fn upload_goes_on(
    state: UploadState,
    limits: Limits,
    expected: Option<u64>,
    events: Seq<UploadEvent>,
) -> UploadState
    decreases events.len(),
{
    if events.len() == 0 {
        state
    } else {
        upload_goes_on(
            upload_next(state, limits, expected, events[0]),
            limits,
            expected,
            events.skip(1),
        )
    }
}

/// The sum of some counts.
pub open spec fn total_of(counts: Seq<usize>) -> int
    decreases counts.len(),
{
    if counts.len() == 0 {
        0
    } else {
        counts[0] + total_of(counts.skip(1))
    }
}

/// Pieces of a file are read and written one after the other.
pub open spec fn pieces_written(counts: Seq<usize>) -> Seq<UploadEvent>
    decreases counts.len(),
{
    if counts.len() == 0 {
        Seq::empty()
    } else {
        seq![
            UploadEvent::Read { count: counts[0], cancelled: false },
            UploadEvent::Done,
            UploadEvent::Reported { cancelled: false },
        ] + pieces_written(counts.skip(1))
    }
}

proof fn lemma_goes_on_joined(
    state: UploadState,
    limits: Limits,
    expected: Option<u64>,
    first: Seq<UploadEvent>,
    second: Seq<UploadEvent>,
)
    ensures
        upload_goes_on(state, limits, expected, first + second) == upload_goes_on(
            upload_goes_on(state, limits, expected, first),
            limits,
            expected,
            second,
        ),
    decreases first.len(),
{
    if first.len() == 0 {
        assert(first + second =~= second);
    } else {
        assert((first + second).skip(1) =~= first.skip(1) + second);
        lemma_goes_on_joined(
            upload_next(state, limits, expected, first[0]),
            limits,
            expected,
            first.skip(1),
            second,
        );
    }
}

proof fn lemma_total_of(counts: Seq<usize>)
    ensures
        0 <= total_of(counts),
    decreases counts.len(),
{
    if counts.len() > 0 {
        lemma_total_of(counts.skip(1));
    }
}

/// A piece that was read is written where the last one ended, and what is
/// reported is how far the file has come.
pub proof fn law_piece_is_written_where_it_belongs(
    limits: Limits,
    expected: Option<u64>,
    chunk: usize,
    offset: u64,
    count: usize,
)
    requires
        count > 0,
        offset + count <= u64::MAX,
        expected matches Some(size) ==> offset + count <= size,
    ensures
        ({
            let reading = UploadState::Reading { chunk, offset };
            let read = UploadEvent::Read { count, cancelled: false };
            let writing = upload_next(reading, limits, expected, read);
            let telling = upload_next(writing, limits, expected, UploadEvent::Done);
            let told = UploadEvent::Reported { cancelled: false };
            &&& upload_asks(reading) == (UploadAction::Read { chunk })
            &&& upload_asks(writing) == (UploadAction::Write { offset, count })
            &&& upload_asks(telling) == (UploadAction::Report { bytes: (offset + count) as u64 })
            &&& upload_next(telling, limits, expected, told) == (UploadState::Reading {
                chunk,
                offset: (offset + count) as u64,
            })
        }),
{
}

proof fn lemma_pieces_written(
    limits: Limits,
    expected: Option<u64>,
    chunk: usize,
    offset: u64,
    counts: Seq<usize>,
)
    requires
        forall|i: int| 0 <= i < counts.len() ==> #[trigger] counts[i] > 0,
        offset + total_of(counts) <= u64::MAX,
        expected matches Some(size) ==> offset + total_of(counts) <= size,
    ensures
        upload_goes_on(
            UploadState::Reading { chunk, offset },
            limits,
            expected,
            pieces_written(counts),
        ) == (UploadState::Reading { chunk, offset: (offset + total_of(counts)) as u64 }),
    decreases counts.len(),
{
    if counts.len() > 0 {
        let rest = counts.skip(1);
        lemma_total_of(rest);
        assert(counts[0] > 0);
        assert forall|i: int| 0 <= i < rest.len() implies #[trigger] rest[i] > 0 by {
            assert(counts[i + 1] > 0);
        }
        law_piece_is_written_where_it_belongs(limits, expected, chunk, offset, counts[0]);
        let head = seq![
            UploadEvent::Read { count: counts[0], cancelled: false },
            UploadEvent::Done,
            UploadEvent::Reported { cancelled: false },
        ];
        lemma_goes_on_joined(
            UploadState::Reading { chunk, offset },
            limits,
            expected,
            head,
            pieces_written(rest),
        );
        reveal_with_fuel(upload_goes_on, 4);
        assert(head.skip(1) =~= seq![head[1], head[2]]);
        assert(head.skip(1).skip(1) =~= seq![head[2]]);
        assert(head.skip(1).skip(1).skip(1) =~= Seq::<UploadEvent>::empty());
        lemma_pieces_written(limits, expected, chunk, (offset + counts[0]) as u64, rest);
    }
}

proof fn lemma_one_event(
    state: UploadState,
    limits: Limits,
    expected: Option<u64>,
    event: UploadEvent,
    rest: Seq<UploadEvent>,
)
    ensures
        upload_goes_on(state, limits, expected, seq![event] + rest) == upload_goes_on(
            upload_next(state, limits, expected, event),
            limits,
            expected,
            rest,
        ),
{
    assert((seq![event] + rest).skip(1) =~= rest);
}

proof fn lemma_upload_begins(limits: Limits, expected: Option<u64>, handle_bytes: usize)
    requires
        chunk_of(limits.packet_len, 25 + handle_bytes, limits.write_len) is Some,
    ensures
        upload_goes_on(
            UploadState::Checking,
            limits,
            expected,
            seq![
                UploadEvent::Missing,
                UploadEvent::Opened { handle_bytes },
                UploadEvent::Reported { cancelled: false },
            ],
        ) == (UploadState::Reading {
            chunk: chunk_of(
                limits.packet_len,
                25 + handle_bytes,
                limits.write_len,
            )->0 as usize,
            offset: 0,
        }),
{
    let chunk = chunk_of(limits.packet_len, 25 + handle_bytes, limits.write_len)->0 as usize;
    let (e0, e1, e2) = (
        UploadEvent::Missing,
        UploadEvent::Opened { handle_bytes },
        UploadEvent::Reported { cancelled: false },
    );
    let none = Seq::<UploadEvent>::empty();
    lemma_one_event(UploadState::Checking, limits, expected, e0, seq![e1, e2]);
    lemma_one_event(UploadState::Opening, limits, expected, e1, seq![e2]);
    let starting = UploadState::Starting { chunk: Some(chunk) };
    lemma_one_event(starting, limits, expected, e2, none);
    assert(seq![e0] + seq![e1, e2] =~= seq![e0, e1, e2]);
    assert(seq![e1] + seq![e2] =~= seq![e1, e2]);
    assert(seq![e2] + none =~= seq![e2]);
}

proof fn lemma_upload_ends(
    limits: Limits,
    expected: Option<u64>,
    chunk: usize,
    total: u64,
    cancelled: bool,
)
    requires
        expected matches Some(size) ==> total == size,
    ensures
        upload_goes_on(
            UploadState::Reading { chunk, offset: total },
            limits,
            expected,
            seq![
                UploadEvent::Read { count: 0, cancelled },
                UploadEvent::Done,
                UploadEvent::Exists { size: Some(total) },
                UploadEvent::Missing,
                UploadEvent::Done,
            ],
        ) == (UploadState::Done { offset: total }),
{
    let (e0, e1, e2, e3) = (
        UploadEvent::Read { count: 0, cancelled },
        UploadEvent::Done,
        UploadEvent::Exists { size: Some(total) },
        UploadEvent::Missing,
    );
    let none = Seq::<UploadEvent>::empty();
    let reading = UploadState::Reading { chunk, offset: total };
    lemma_one_event(reading, limits, expected, e0, seq![e1, e2, e3, e1]);
    let closing = UploadState::Closing { offset: total, fault: None };
    lemma_one_event(closing, limits, expected, e1, seq![e2, e3, e1]);
    lemma_one_event(UploadState::Measuring { offset: total }, limits, expected, e2, seq![e3, e1]);
    lemma_one_event(UploadState::Rechecking { offset: total }, limits, expected, e3, seq![e1]);
    lemma_one_event(UploadState::Renaming { offset: total }, limits, expected, e1, none);
    assert(seq![e0] + seq![e1, e2, e3, e1] =~= seq![e0, e1, e2, e3, e1]);
    assert(seq![e1] + seq![e2, e3, e1] =~= seq![e1, e2, e3, e1]);
    assert(seq![e2] + seq![e3, e1] =~= seq![e2, e3, e1]);
    assert(seq![e3] + seq![e1] =~= seq![e3, e1]);
    assert(seq![e1] + none =~= seq![e1]);
}

/// An upload in which nothing goes wrong succeeds: the pieces are written, the
/// temporary file has their size, nothing has the name, and the renaming is
/// done.
pub proof fn law_good_upload_succeeds(
    limits: Limits,
    expected: Option<u64>,
    handle_bytes: usize,
    counts: Seq<usize>,
    cancelled: bool,
)
    requires
        forall|i: int| 0 <= i < counts.len() ==> #[trigger] counts[i] > 0,
        total_of(counts) <= u64::MAX,
        expected matches Some(size) ==> total_of(counts) == size,
        chunk_of(limits.packet_len, 25 + handle_bytes, limits.write_len) is Some,
    ensures
        ({
            let start = seq![
                UploadEvent::Missing,
                UploadEvent::Opened { handle_bytes },
                UploadEvent::Reported { cancelled: false },
            ];
            let end = seq![
                UploadEvent::Read { count: 0, cancelled },
                UploadEvent::Done,
                UploadEvent::Exists { size: Some(total_of(counts) as u64) },
                UploadEvent::Missing,
                UploadEvent::Done,
            ];
            upload_asks(
                upload_goes_on(
                    UploadState::Checking,
                    limits,
                    expected,
                    start + (pieces_written(counts) + end),
                ),
            ) == (UploadAction::Succeed { bytes: total_of(counts) as u64 })
        }),
{
    lemma_total_of(counts);
    let start = seq![
        UploadEvent::Missing,
        UploadEvent::Opened { handle_bytes },
        UploadEvent::Reported { cancelled: false },
    ];
    let total = total_of(counts) as u64;
    let end = seq![
        UploadEvent::Read { count: 0, cancelled },
        UploadEvent::Done,
        UploadEvent::Exists { size: Some(total) },
        UploadEvent::Missing,
        UploadEvent::Done,
    ];
    let checking = UploadState::Checking;
    lemma_goes_on_joined(checking, limits, expected, start, pieces_written(counts) + end);
    let begun = upload_goes_on(checking, limits, expected, start);
    let chunk = chunk_of(limits.packet_len, 25 + handle_bytes, limits.write_len)->0 as usize;
    lemma_upload_begins(limits, expected, handle_bytes);
    lemma_goes_on_joined(begun, limits, expected, pieces_written(counts), end);
    lemma_pieces_written(limits, expected, chunk, 0, counts);
    let written = UploadState::Reading { chunk, offset: total };
    lemma_upload_ends(limits, expected, chunk, total, cancelled);
    assert(upload_goes_on(written, limits, expected, end) == (UploadState::Done {
        offset: total,
    }));
}

/// The temporary file is removed next and the fault is told, whatever comes of
/// the removal; where it did not succeed, that something was left is told too.
pub open spec fn is_cleaned_up(
    state: UploadState,
    limits: Limits,
    expected: Option<u64>,
    fault: TransferFault,
) -> bool {
    &&& upload_asks(state) == UploadAction::RemoveTemporary
    &&& forall|event: UploadEvent|
        upload_asks(#[trigger] upload_next(state, limits, expected, event)) == (
        UploadAction::Fail {
            fault,
            leftover: event != UploadEvent::Done && event != UploadEvent::Missing,
        })
}

/// The temporary file is closed next, and whatever comes of that, removed.
pub open spec fn is_closed_and_cleaned_up(
    state: UploadState,
    limits: Limits,
    expected: Option<u64>,
    fault: TransferFault,
) -> bool {
    &&& upload_asks(state) == UploadAction::CloseTemporary
    &&& forall|event: UploadEvent|
        is_cleaned_up(
            #[trigger] upload_next(state, limits, expected, event),
            limits,
            expected,
            fault,
        )
}

/// Whatever goes wrong while the temporary file is open, the file is closed and
/// removed and the upload tells what it was: a failure of the step, that it
/// was called off, or that the file has not the size it should have.
pub proof fn law_upload_that_goes_wrong_is_cleaned_up(
    limits: Limits,
    expected: Option<u64>,
    chunk: usize,
    offset: u64,
    count: usize,
)
    requires
        count > 0,
    ensures
        ({
            let reading = UploadState::Reading { chunk, offset };
            let writing = UploadState::Writing { chunk, offset, count };
            let telling = UploadState::Reporting { chunk, offset };
            let failed = UploadEvent::Failed;
            let off = UploadEvent::Reported { cancelled: true };
            let off_reading = UploadEvent::Read { count, cancelled: true };
            let wrong = |state: UploadState, fault: TransferFault|
                is_closed_and_cleaned_up(state, limits, expected, fault);
            &&& wrong(upload_next(reading, limits, expected, failed), TransferFault::Reported)
            &&& wrong(upload_next(writing, limits, expected, failed), TransferFault::Reported)
            &&& wrong(upload_next(telling, limits, expected, failed), TransferFault::Reported)
            &&& wrong(
                upload_next(telling, limits, expected, off),
                TransferFault::TransferCancelled,
            )
            &&& wrong(
                upload_next(reading, limits, expected, off_reading),
                TransferFault::TransferCancelled,
            )
        }),
        expected matches Some(size) && size != offset ==> is_closed_and_cleaned_up(
            upload_next(
                UploadState::Reading { chunk, offset },
                limits,
                expected,
                UploadEvent::Read { count: 0, cancelled: false },
            ),
            limits,
            expected,
            TransferFault::SizeMismatch { expected: expected->0, actual: offset },
        ),
        (expected matches Some(size) && size < offset + count) && offset + count <= u64::MAX
            ==> is_closed_and_cleaned_up(
            upload_next(
                UploadState::Writing { chunk, offset, count },
                limits,
                expected,
                UploadEvent::Done,
            ),
            limits,
            expected,
            TransferFault::SizeMismatch {
                expected: expected->0,
                actual: (offset + count) as u64,
            },
        ),
{
}

/// A file that was written is not published where the temporary one has another
/// size or none, or something has the name by now: it is removed and the fault
/// is told.
pub proof fn law_upload_is_not_published_over_a_fault(
    limits: Limits,
    expected: Option<u64>,
    offset: u64,
    actual: u64,
    found: Option<u64>,
)
    requires
        actual != offset,
    ensures
        is_cleaned_up(
            upload_next(
                UploadState::Measuring { offset },
                limits,
                expected,
                UploadEvent::Exists { size: Some(actual) },
            ),
            limits,
            expected,
            TransferFault::SizeMismatch { expected: offset, actual },
        ),
        is_cleaned_up(
            upload_next(
                UploadState::Measuring { offset },
                limits,
                expected,
                UploadEvent::Exists { size: None },
            ),
            limits,
            expected,
            TransferFault::MissingRemoteSize,
        ),
        is_cleaned_up(
            upload_next(
                UploadState::Rechecking { offset },
                limits,
                expected,
                UploadEvent::Exists { size: found },
            ),
            limits,
            expected,
            TransferFault::DestinationExists,
        ),
        is_cleaned_up(
            upload_next(UploadState::Renaming { offset }, limits, expected, UploadEvent::Failed),
            limits,
            expected,
            TransferFault::Reported,
        ),
        upload_asks(
            upload_next(
                UploadState::Checking,
                limits,
                expected,
                UploadEvent::Exists { size: found },
            ),
        ) == (UploadAction::Fail { fault: TransferFault::DestinationExists, leftover: false }),
{
}

// ---------------------------------------------------------------------------
// Downloads.

/// A piece that was read is stored, and what is reported and read next is how
/// far the file has come.
pub proof fn law_piece_is_read_where_the_last_one_ended(
    limits: Limits,
    total: Option<u64>,
    offset: u64,
    count: usize,
    chunk: int,
)
    requires
        count > 0,
        offset + count <= u64::MAX,
        chunk_of(limits.packet_len, 13, limits.read_len) == Some(chunk),
    ensures
        ({
            let reading = DownloadState::Reading { total, offset };
            let storing = download_next(
                reading,
                limits,
                DownloadEvent::Read { count, cancelled: false },
            );
            let telling = download_next(storing, limits, DownloadEvent::Done);
            let next = download_next(
                telling,
                limits,
                DownloadEvent::Reported { cancelled: false },
            );
            &&& download_asks(reading, limits) == (DownloadAction::Read {
                offset,
                chunk: chunk as u32,
            })
            &&& download_asks(storing, limits) == DownloadAction::Store
            &&& download_asks(telling, limits) == (DownloadAction::Report {
                bytes: (offset + count) as u64,
                total,
            })
            &&& next == (DownloadState::Reading { total, offset: (offset + count) as u64 })
        }),
{
}

/// At the end of a file it is flushed and closed, and the download succeeds
/// with what was stored, unless the server gave the file another size.
pub proof fn law_end_of_a_download(limits: Limits, total: Option<u64>, offset: u64)
    ensures
        ({
            let flushing = download_next(
                DownloadState::Reading { total, offset },
                limits,
                DownloadEvent::End,
            );
            let closing = download_next(flushing, limits, DownloadEvent::Done);
            let done = download_next(closing, limits, DownloadEvent::Done);
            &&& download_asks(flushing, limits) == DownloadAction::Flush
            &&& download_asks(closing, limits) == DownloadAction::CloseFile
            &&& download_asks(done, limits) == if total matches Some(size) && size != offset {
                DownloadAction::Fail {
                    fault: TransferFault::SizeMismatch { expected: total->0, actual: offset },
                }
            } else {
                DownloadAction::Succeed {
                    outcome: TransferOutcome { bytes_transferred: offset, total_bytes: total },
                }
            }
        }),
{
}

/// The file is closed next, and whatever comes of that the fault is told.
pub open spec fn download_is_closed(
    state: DownloadState,
    limits: Limits,
    fault: TransferFault,
) -> bool {
    &&& download_asks(state, limits) == DownloadAction::CloseFile
    &&& forall|event: DownloadEvent|
        download_asks(#[trigger] download_next(state, limits, event), limits) == (
        DownloadAction::Fail { fault })
}

/// Whatever goes wrong while the file is open, it is closed and the download
/// tells what it was.
pub proof fn law_download_that_goes_wrong_is_closed(
    limits: Limits,
    total: Option<u64>,
    offset: u64,
    count: usize,
)
    requires
        count > 0,
    ensures
        ({
            let reading = DownloadState::Reading { total, offset };
            let storing = DownloadState::Storing { total, offset, count };
            let telling = DownloadState::Reporting { total, offset };
            let failed = DownloadEvent::Failed;
            &&& download_is_closed(
                download_next(reading, limits, failed),
                limits,
                TransferFault::Reported,
            )
            &&& download_is_closed(
                download_next(storing, limits, failed),
                limits,
                TransferFault::Reported,
            )
            &&& download_is_closed(
                download_next(telling, limits, failed),
                limits,
                TransferFault::Reported,
            )
            &&& download_is_closed(
                download_next(telling, limits, DownloadEvent::Reported { cancelled: true }),
                limits,
                TransferFault::TransferCancelled,
            )
            &&& download_is_closed(
                download_next(reading, limits, DownloadEvent::Read { count, cancelled: true }),
                limits,
                TransferFault::TransferCancelled,
            )
            &&& download_is_closed(
                download_next(
                    reading,
                    limits,
                    DownloadEvent::Read { count: 0, cancelled: false },
                ),
                limits,
                TransferFault::EmptyRead,
            )
        }),
{
}

/// A download into a file in which nothing goes wrong gives the file its name
/// and takes the temporary one away, with the outcome of the download.
pub proof fn law_good_download_is_published(outcome: TransferOutcome)
    ensures
        ({
            let creating = publish_next(PublishState::Checking, PublishEvent::Missing);
            let downloading = publish_next(creating, PublishEvent::Done);
            let syncing = publish_next(downloading, PublishEvent::Downloaded { outcome });
            let linking = publish_next(syncing, PublishEvent::Done);
            let removing = publish_next(linking, PublishEvent::Done);
            publish_next(removing, PublishEvent::Done) == (PublishState::Done { outcome })
        }),
{
}

/// A download into a file that goes wrong removes the temporary file and tells
/// what went wrong; nothing is put over a file that exists.
pub proof fn law_download_that_goes_wrong_is_not_published(
    outcome: TransferOutcome,
    fault: TransferFault,
    event: PublishEvent,
)
    ensures
        publish_next(PublishState::Checking, PublishEvent::Exists) == (PublishState::Failed {
            fault: TransferFault::DestinationExists,
            leftover: false,
        }),
        publish_next(PublishState::Downloading, PublishEvent::DownloadFailed { fault }) == (
        PublishState::Cleaning { fault }),
        publish_next(PublishState::Syncing { outcome }, PublishEvent::Failed) == (
        PublishState::Cleaning { fault: TransferFault::Reported }),
        publish_next(PublishState::Linking { outcome }, PublishEvent::Failed) == (
        PublishState::Cleaning { fault: TransferFault::Reported }),
        publish_next(PublishState::Cleaning { fault }, event) == (PublishState::Failed {
            fault,
            leftover: event != PublishEvent::Done && event != PublishEvent::Missing,
        }),
        publish_next(PublishState::Removing { outcome }, PublishEvent::Failed)
            == PublishState::DoneWithLeftover,
{
}

/// A page of a directory has at least one entry and at most 4096.
pub proof fn law_pages_of_directories(max_entries: usize)
    ensures
        page_limit_fits(max_entries) <==> 0 < max_entries <= 4096,
{
}

} // verus!
