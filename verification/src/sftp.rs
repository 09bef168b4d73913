//! File transfer: how much goes into a packet, where temporary files lie, what
//! a listing shows, and the steps of uploads and downloads.
use crate::outside::{is_id_char, mode_kind, new_id, ModeKind};
use crate::text::{chars_of, last_char, same_text, text_from};
use std::sync::atomic::AtomicBool;
use std::sync::Arc;
use vstd::prelude::*;
use vstd::string::StringExecFns;

verus! {

pub const SFTP_MAX_PACKET_BYTES: u32 = 262144;

pub const SFTP_TRANSFER_CHUNK_BYTES: usize = 32768;

pub const MAX_DIRECTORY_PAGE_ENTRIES: usize = 4096;

/// A switch by which a transfer is called off from elsewhere. Once it is
/// thrown it stays so. What another thread has done with it is not known to
/// any contract here.
#[derive(Clone, Debug)]
pub struct TransferControl {
    cancelled: Arc<AtomicBool>,
}

impl Default for TransferControl {
    fn default() -> Self {
        TransferControl { cancelled: Arc::new(AtomicBool::new(false)) }
    }
}

impl TransferControl {
    pub fn cancel(&self) {
        self.cancelled.store(true, std::sync::atomic::Ordering::Release);
    }

    pub fn is_cancelled(&self) -> bool {
        self.cancelled.load(std::sync::atomic::Ordering::Acquire)
    }
}

#[derive(Clone, Copy, Debug, PartialEq, Eq, Structural)]
pub struct TransferProgress {
    pub bytes_transferred: u64,
    pub total_bytes: Option<u64>,
}

#[derive(Clone, Copy, Debug, PartialEq, Eq, Structural)]
pub struct TransferOutcome {
    pub bytes_transferred: u64,
    pub total_bytes: Option<u64>,
}

#[derive(Clone, Copy, Debug, PartialEq, Eq, Structural)]
pub enum RemoteFileType {
    Directory,
    File,
    Symlink,
    Other,
}

#[derive(Clone, Copy, Debug, PartialEq, Eq, Structural)]
pub enum SymlinkPolicy {
    Follow,
    NoFollow,
}

#[derive(Clone, Copy, Debug, PartialEq, Eq, Structural)]
pub struct RemoteMetadata {
    pub file_type: RemoteFileType,
    pub size: Option<u64>,
    pub uid: Option<u32>,
    pub gid: Option<u32>,
    pub permissions: Option<u32>,
    pub accessed_unix_seconds: Option<u32>,
    pub modified_unix_seconds: Option<u32>,
}

#[derive(Clone, Debug, PartialEq, Eq)]
pub struct RemoteDirectoryEntry {
    pub name: String,
    pub path: String,
    pub metadata: RemoteMetadata,
}

#[derive(Clone, Debug, PartialEq, Eq)]
pub struct DirectoryPage {
    pub entries: Vec<RemoteDirectoryEntry>,
    pub truncated: bool,
}

/// Why a transfer stopped.
#[derive(Clone, Copy, Debug, PartialEq, Eq, Structural)]
pub enum TransferFault {
    EmptyRead,
    TransferCancelled,
    SizeMismatch { expected: u64, actual: u64 },
    MissingRemoteSize,
    DestinationExists,
    OffsetOverflow,
    InvalidServerLimits,
    /// The server or the local file system reported an error.
    Reported,
}

#[derive(Debug, PartialEq, Eq)]
pub enum SftpError {
    InvalidDirectoryPageLimit,
    InvalidRemotePath(String),
    InvalidServerLimits,
}

// ---------------------------------------------------------------------------
// Packets.

/// What a server says that it takes.
#[derive(Clone, Copy, Debug, PartialEq, Eq, Structural)]
pub struct Limits {
    pub packet_len: Option<u64>,
    pub read_len: Option<u64>,
    pub write_len: Option<u64>,
}

impl Default for Limits {
    fn default() -> (limits: Self)
        ensures
            limits == (Limits { packet_len: None, read_len: None, write_len: None }),
    {
        Limits { packet_len: None, read_len: None, write_len: None }
    }
}

pub open spec fn smaller(left: int, right: int) -> int {
    if left <= right {
        left
    } else {
        right
    }
}

/// How much of a file a packet carries when `overhead` bytes of it are taken
/// up otherwise; none where nothing is left.
pub open spec fn chunk_of(packet: Option<u64>, overhead: int, limit: Option<u64>) -> Option<int> {
    let whole = match packet {
        Some(length) => smaller(length as int, SFTP_MAX_PACKET_BYTES as int),
        None => SFTP_MAX_PACKET_BYTES as int,
    };
    let room = match limit {
        Some(limit) => smaller(whole - overhead, limit as int),
        None => whole - overhead,
    };
    let chunk = smaller(room, SFTP_TRANSFER_CHUNK_BYTES as int);
    if chunk > 0 {
        Some(chunk)
    } else {
        None
    }
}

/// Something is carried, no more than at most, and no more than the server
/// takes in one packet and in one operation.
pub open spec fn within_limits(
    chunk: int,
    packet: Option<u64>,
    overhead: int,
    limit: Option<u64>,
) -> bool {
    &&& 0 < chunk <= SFTP_TRANSFER_CHUNK_BYTES
    &&& overhead + chunk <= SFTP_MAX_PACKET_BYTES
    &&& packet matches Some(length) ==> overhead + chunk <= length
    &&& limit matches Some(limit) ==> chunk <= limit
}

fn chunk_bytes(packet: Option<u64>, overhead: u64, limit: Option<u64>) -> (chunk: Option<u32>)
    ensures
        match chunk {
            Some(chunk) => chunk_of(packet, overhead as int, limit) == Some(chunk as int),
            None => chunk_of(packet, overhead as int, limit) is None,
        },
{
    let whole: u64 = match packet {
        Some(length) => if length <= 262144 {
            length
        } else {
            262144
        },
        None => 262144,
    };
    if overhead >= whole {
        return None;
    }
    let mut chunk: u64 = whole - overhead;
    if let Some(limit) = limit {
        if limit < chunk {
            chunk = limit;
        }
    }
    if chunk > 32768 {
        chunk = 32768;
    }
    if chunk == 0 {
        None
    } else {
        Some(chunk as u32)
    }
}

impl Limits {
    /// How much is read at once: a packet of data spends thirteen bytes on its
    /// length, kind, number and the length of the data.
    pub fn read_chunk_bytes(&self) -> (chunk: Result<u32, SftpError>)
        ensures
            match chunk {
                Ok(chunk) => chunk_of(self.packet_len, 13, self.read_len) == Some(chunk as int),
                Err(error) => error is InvalidServerLimits && chunk_of(
                    self.packet_len,
                    13,
                    self.read_len,
                ) is None,
            },
            chunk matches Ok(chunk) ==> within_limits(
                chunk as int,
                self.packet_len,
                13,
                self.read_len,
            ),
    {
        match chunk_bytes(self.packet_len, 13, self.read_len) {
            Some(chunk) => Ok(chunk),
            None => Err(SftpError::InvalidServerLimits),
        }
    }

    /// How much is written at once to a file with a handle of so many bytes.
    /// Besides the handle such a packet spends twenty-five bytes on its length,
    /// kind, number, the length of the handle, the offset and the length of the
    /// data.
    pub fn write_chunk_bytes(&self, handle_bytes: usize) -> (chunk: Result<usize, SftpError>)
        ensures
            match chunk {
                Ok(chunk) => chunk_of(self.packet_len, 25 + handle_bytes, self.write_len) == Some(
                    chunk as int,
                ),
                Err(error) => error is InvalidServerLimits && chunk_of(
                    self.packet_len,
                    25 + handle_bytes,
                    self.write_len,
                ) is None,
            },
            chunk matches Ok(chunk) ==> within_limits(
                chunk as int,
                self.packet_len,
                25 + handle_bytes,
                self.write_len,
            ),
    {
        if handle_bytes as u64 > 262144 {
            return Err(SftpError::InvalidServerLimits);
        }
        match chunk_bytes(self.packet_len, 25 + handle_bytes as u64, self.write_len) {
            Some(chunk) => Ok(chunk as usize),
            None => Err(SftpError::InvalidServerLimits),
        }
    }
}

// ---------------------------------------------------------------------------
// Listings.

/// The attributes that a server gives a file.
#[derive(Clone, Copy, Debug, PartialEq, Eq, Structural)]
pub struct RemoteAttributes {
    pub size: Option<u64>,
    pub uid: Option<u32>,
    pub gid: Option<u32>,
    pub permissions: Option<u32>,
    pub atime: Option<u32>,
    pub mtime: Option<u32>,
}

/// What the mode of a file says it is.
pub open spec fn file_type_of(permissions: Option<u32>) -> RemoteFileType {
    match permissions {
        None => RemoteFileType::Other,
        Some(mode) => if mode & 0xf000 == 0x4000 {
            RemoteFileType::Directory
        } else if mode & 0xf000 == 0xa000 {
            RemoteFileType::Symlink
        } else if mode & 0xf000 == 0x8000 {
            RemoteFileType::File
        } else {
            RemoteFileType::Other
        },
    }
}

pub open spec fn metadata_of(attributes: RemoteAttributes) -> RemoteMetadata {
    RemoteMetadata {
        file_type: file_type_of(attributes.permissions),
        size: attributes.size,
        uid: attributes.uid,
        gid: attributes.gid,
        permissions: attributes.permissions,
        accessed_unix_seconds: attributes.atime,
        modified_unix_seconds: attributes.mtime,
    }
}

pub fn map_metadata(attributes: &RemoteAttributes) -> (metadata: RemoteMetadata)
    ensures
        metadata == metadata_of(*attributes),
{
    let file_type = match mode_kind(attributes.permissions) {
        ModeKind::Directory => RemoteFileType::Directory,
        ModeKind::File => RemoteFileType::File,
        ModeKind::Symlink => RemoteFileType::Symlink,
        ModeKind::Other => RemoteFileType::Other,
    };
    RemoteMetadata {
        file_type,
        size: attributes.size,
        uid: attributes.uid,
        gid: attributes.gid,
        permissions: attributes.permissions,
        accessed_unix_seconds: attributes.atime,
        modified_unix_seconds: attributes.mtime,
    }
}

/// The path of a file in a directory.
pub open spec fn joined_path(parent: Seq<char>, child: Seq<char>) -> Seq<char> {
    if parent.len() == 0 {
        child
    } else if parent.last() == '/' {
        parent + child
    } else {
        parent.push('/') + child
    }
}

pub fn join_remote_path(parent: &str, child: &str) -> (path: String)
    ensures
        path@ == joined_path(parent@, child@),
{
    let mut path = parent.to_owned();
    match last_char(parent) {
        None => {
            assert(parent@ + child@ =~= child@);
        },
        Some(last) => {
            if last != '/' {
                path.push('/');
            }
        },
    }
    path.append(child);
    path
}

/// A name that a server lists.
#[derive(Clone, Debug)]
pub struct RemoteName {
    pub name: String,
    pub attributes: RemoteAttributes,
}

/// An entry of a listing.
#[verifier::ext_equal]
pub struct EntryModel {
    pub name: Seq<char>,
    pub path: Seq<char>,
    pub metadata: RemoteMetadata,
}

impl View for RemoteDirectoryEntry {
    type V = EntryModel;

    open spec fn view(&self) -> EntryModel {
        EntryModel { name: self.name@, path: self.path@, metadata: self.metadata }
    }
}

pub open spec fn entry_views(entries: Seq<RemoteDirectoryEntry>) -> Seq<EntryModel> {
    entries.map_values(|entry: RemoteDirectoryEntry| entry@)
}

/// A directory lists itself and the one above it under these names.
pub open spec fn is_dots(name: Seq<char>) -> bool {
    name == seq!['.'] || name == seq!['.', '.']
}

/// The entries that the names of a directory give, without itself and the one
/// above it.
pub open spec fn listed(path: Seq<char>, names: Seq<RemoteName>) -> Seq<EntryModel>
    decreases names.len(),
{
    if names.len() == 0 {
        Seq::empty()
    } else {
        let before = listed(path, names.drop_last());
        let name = names.last();
        if is_dots(name.name@) {
            before
        } else {
            before.push(
                EntryModel {
                    name: name.name@,
                    path: joined_path(path, name.name@),
                    metadata: metadata_of(name.attributes),
                },
            )
        }
    }
}

fn names_dots(name: &str) -> (yes: bool)
    ensures
        yes == is_dots(name@),
{
    proof {
        reveal_strlit(".");
        reveal_strlit("..");
        assert("."@ =~= seq!['.']);
        assert(".."@ =~= seq!['.', '.']);
    }
    same_text(name, ".") || same_text(name, "..")
}

/// A page of a directory may have so many entries.
pub open spec fn page_limit_fits(max_entries: usize) -> bool {
    1 <= max_entries <= MAX_DIRECTORY_PAGE_ENTRIES
}

pub fn check_page_limit(max_entries: usize) -> (checked: Result<(), SftpError>)
    ensures
        checked is Ok <==> 1 <= max_entries <= MAX_DIRECTORY_PAGE_ENTRIES,
        checked is Ok <==> page_limit_fits(max_entries),
        checked matches Err(error) ==> error is InvalidDirectoryPageLimit,
{
    if max_entries == 0 || max_entries > MAX_DIRECTORY_PAGE_ENTRIES {
        return Err(SftpError::InvalidDirectoryPageLimit);
    }
    Ok(())
}

proof fn lemma_listed_grows(path: Seq<char>, names: Seq<RemoteName>, count: int)
    requires
        0 <= count <= names.len(),
    ensures
        listed(path, names.take(count)).is_prefix_of(listed(path, names)),
    decreases names.len() - count,
{
    if count == names.len() {
        assert(names.take(count) =~= names);
    } else {
        assert(names.take(count + 1).drop_last() =~= names.take(count));
        lemma_listed_grows(path, names, count + 1);
    }
}

/// Adds names that a server has listed to a page. Says whether there are more
/// than the page holds.
pub fn add_names(
    entries: &mut Vec<RemoteDirectoryEntry>,
    path: &str,
    names: &Vec<RemoteName>,
    max_entries: usize,
) -> (truncated: bool)
    requires
        old(entries)@.len() <= max_entries,
    ensures
        ({
            let all = entry_views(old(entries)@) + listed(path@, names@);
            &&& truncated == (all.len() > max_entries)
            &&& entry_views(final(entries)@) == if truncated {
                all.take(max_entries as int)
            } else {
                all
            }
        }),
{
    let ghost start = entry_views(entries@);
    let ghost all = start + listed(path@, names@);
    let mut index: usize = 0;
    assert(names@.take(0) =~= Seq::empty());
    assert(start + Seq::<EntryModel>::empty() =~= start);
    while index < names.len()
        invariant
            index <= names@.len(),
            start == entry_views(old(entries)@),
            all == start + listed(path@, names@),
            entries@.len() <= max_entries,
            entry_views(entries@) == start + listed(path@, names@.take(index as int)),
        decreases names@.len() - index,
    {
        let name = &names[index];
        proof {
            assert(names@.take(index + 1).drop_last() =~= names@.take(index as int));
            lemma_listed_grows(path@, names@, index + 1);
        }
        if !names_dots(name.name.as_str()) {
            if entries.len() == max_entries {
                proof {
                    lemma_listed_grows(path@, names@, index as int);
                    assert(entry_views(entries@).len() == entries@.len());
                    assert(entry_views(entries@) =~= all.take(max_entries as int));
                }
                return true;
            }
            let entry = RemoteDirectoryEntry {
                name: name.name.clone(),
                path: join_remote_path(path, name.name.as_str()),
                metadata: map_metadata(&name.attributes),
            };
            let ghost before = entry_views(entries@);
            let ghost model = entry@;
            entries.push(entry);
            assert(entry_views(entries@) =~= before.push(model));
            assert(entry_views(entries@) =~= start + listed(path@, names@.take(index + 1)));
        }
        index += 1;
    }
    assert(names@.take(index as int) =~= names@);
    assert(entry_views(entries@).len() == entries@.len());
    false
}

// ---------------------------------------------------------------------------
// Temporary files.

/// The place of the last slash.
pub open spec fn last_slash(path: Seq<char>) -> Option<int>
    decreases path.len(),
{
    if path.len() == 0 {
        None
    } else if path.last() == '/' {
        Some(path.len() - 1)
    } else {
        last_slash(path.drop_last())
    }
}

/// A path split into the directory and the name.
pub open spec fn split_path(path: Seq<char>) -> (Seq<char>, Seq<char>) {
    match last_slash(path) {
        Some(at) => (path.take(at), path.skip(at + 1)),
        None => (Seq::empty(), path),
    }
}

/// A file can have this path.
pub open spec fn names_file(path: Seq<char>) -> bool {
    let name = split_path(path).1;
    &&& !path.contains('\0')
    &&& name.len() > 0
    &&& !is_dots(name)
}

/// The name that a file has while it is being written.
pub open spec fn temporary_name(name: Seq<char>, id: Seq<char>) -> Seq<char> {
    seq!['.'] + name + ".cshell-"@ + id + ".tmp"@
}

/// The path that a file has while it is being written.
pub open spec fn temporary_of(path: Seq<char>, id: Seq<char>) -> Seq<char> {
    let (parent, name) = split_path(path);
    if parent.len() == 0 {
        temporary_name(name, id)
    } else if parent == seq!['/'] {
        seq!['/'] + temporary_name(name, id)
    } else {
        parent.push('/') + temporary_name(name, id)
    }
}

/// The name that a file has while it is being written.
pub fn temporary_file_name(name: &str, id: &str) -> (text: String)
    ensures
        text@ == temporary_name(name@, id@),
{
    let mut text = String::new();
    text.push('.');
    text.append(name);
    text.append(".cshell-");
    text.append(id);
    text.append(".tmp");
    assert(text@ =~= temporary_name(name@, id@));
    text
}

fn find_last_slash(chars: &Vec<char>) -> (at: Option<usize>)
    ensures
        match at {
            Some(at) => at < chars@.len() && last_slash(chars@) == Some(at as int),
            None => last_slash(chars@) is None,
        },
{
    let mut end: usize = chars.len();
    assert(chars@.take(end as int) =~= chars@);
    while end > 0
        invariant
            end <= chars@.len(),
            last_slash(chars@) == last_slash(chars@.take(end as int)),
        decreases end,
    {
        assert(chars@.take(end as int).drop_last() =~= chars@.take(end - 1));
        if chars[end - 1] == '/' {
            return Some(end - 1);
        }
        end -= 1;
    }
    None
}

/// The path for writing a file, under a given identifier.
pub fn temporary_path(destination: &str, id: &str) -> (path: Result<String, SftpError>)
    ensures
        match path {
            Ok(path) => names_file(destination@) && path@ == temporary_of(destination@, id@),
            Err(error) => !names_file(destination@) && (error matches SftpError::InvalidRemotePath(
                shown,
            ) && shown@ == destination@),
        },
{
    let chars = chars_of(destination);
    let count: usize = chars.len();
    let (parent_end, name_start) = match find_last_slash(&chars) {
        Some(at) => (at, at + 1),
        None => (0, 0),
    };
    let parent = text_from(&chars, 0, parent_end);
    let name = text_from(&chars, name_start, count);
    proof {
        assert(parent@ =~= split_path(destination@).0);
        assert(name@ =~= split_path(destination@).1);
    }
    let mut clean = true;
    let mut index: usize = 0;
    while index < chars.len()
        invariant
            index <= chars@.len(),
            clean == !chars@.take(index as int).contains('\0'),
        decreases chars@.len() - index,
    {
        proof {
            let longer = chars@.take(index + 1);
            assert(longer =~= chars@.take(index as int).push(chars@[index as int]));
            if chars@.take(index as int).contains('\0') {
                let k = choose|k: int|
                    0 <= k < index && chars@.take(index as int)[k] == '\0';
                assert(longer[k] == '\0');
            }
            if chars@[index as int] == '\0' {
                assert(longer[index as int] == '\0');
            }
            if longer.contains('\0') && chars@[index as int] != '\0' {
                let k = choose|k: int| 0 <= k < longer.len() && longer[k] == '\0';
                assert(chars@.take(index as int)[k] == '\0');
            }
        }
        if chars[index] == '\0' {
            clean = false;
        }
        index += 1;
    }
    assert(chars@.take(index as int) =~= chars@);
    if !clean || name.as_str().is_empty() || names_dots(name.as_str()) {
        return Err(SftpError::InvalidRemotePath(destination.to_owned()));
    }
    let temporary = temporary_file_name(name.as_str(), id);
    if parent.as_str().is_empty() {
        return Ok(temporary);
    }
    proof {
        reveal_strlit("/");
        assert("/"@ =~= seq!['/']);
    }
    let mut path = if same_text(parent.as_str(), "/") {
        String::new()
    } else {
        parent
    };
    path.push('/');
    path.append(temporary.as_str());
    assert(path@ =~= temporary_of(destination@, id@));
    Ok(path)
}

/// The path for writing a file, under a new identifier.
pub fn remote_temporary_path(destination: &str) -> (path: Result<String, SftpError>)
    ensures
        match path {
            Ok(path) => names_file(destination@) && exists|id: Seq<char>|
                id.len() == 36 && (forall|i: int| 0 <= i < id.len() ==> is_id_char(id[i]))
                    && path@ == #[trigger] temporary_of(destination@, id),
            Err(error) => !names_file(destination@) && (error matches SftpError::InvalidRemotePath(
                shown,
            ) && shown@ == destination@),
        },
{
    let id = new_id();
    temporary_path(destination, id.as_str())
}

} // verus!
