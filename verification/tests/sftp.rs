use cshell::sftp::{
    add_names, check_page_limit, join_remote_path, map_metadata, remote_temporary_path,
    temporary_path, Limits, RemoteAttributes, RemoteFileType, RemoteName, SftpError,
    TransferControl, TransferFault, MAX_DIRECTORY_PAGE_ENTRIES, SFTP_TRANSFER_CHUNK_BYTES,
};
use cshell::transfer::{
    upload_outcome, Download, DownloadAction, DownloadEvent, PublishEvent, PublishState, Upload,
    UploadAction, UploadEvent,
};
use std::collections::BTreeMap;

fn limits() -> Limits {
    Limits { packet_len: None, read_len: None, write_len: None }
}

fn attributes(size: u64, permissions: u32) -> RemoteAttributes {
    RemoteAttributes {
        size: Some(size),
        uid: None,
        gid: None,
        permissions: Some(permissions),
        atime: None,
        mtime: None,
    }
}

#[test]
fn directory_and_metadata_results_are_project_owned_and_bounded() {
    let metadata = map_metadata(&attributes(7, 0o100644));
    assert_eq!(metadata.file_type, RemoteFileType::File);
    assert_eq!(metadata.size, Some(7));
    assert_eq!(map_metadata(&attributes(0, 0o040755)).file_type, RemoteFileType::Directory);
    assert_eq!(map_metadata(&attributes(0, 0o120777)).file_type, RemoteFileType::Symlink);

    let names: Vec<RemoteName> = (0..8)
        .map(|index| RemoteName {
            name: format!("entry-{index:02}"),
            attributes: attributes(index, 0o100644),
        })
        .collect();
    let mut entries = Vec::new();
    assert!(add_names(&mut entries, "/", &names, 5));
    assert_eq!(entries.len(), 5);
    assert_eq!(entries[0].path, "/entry-00");
    assert!(check_page_limit(MAX_DIRECTORY_PAGE_ENTRIES).is_ok());
    assert!(matches!(
        check_page_limit(MAX_DIRECTORY_PAGE_ENTRIES + 1),
        Err(SftpError::InvalidDirectoryPageLimit)
    ));
    assert!(matches!(check_page_limit(0), Err(SftpError::InvalidDirectoryPageLimit)));
}

#[test]
fn names_of_the_directory_itself_are_left_out() {
    let names: Vec<RemoteName> = [".", "..", "kept"]
        .iter()
        .map(|name| RemoteName { name: (*name).to_owned(), attributes: attributes(0, 0o100644) })
        .collect();
    let mut entries = Vec::new();
    assert!(!add_names(&mut entries, "/home", &names, 5));
    assert_eq!(entries.len(), 1);
    assert_eq!(entries[0].path, "/home/kept");
}

#[test]
fn transfer_chunks_honor_server_packet_and_operation_limits() {
    let limits =
        Limits { packet_len: Some(1_024), read_len: Some(700), write_len: Some(600) };
    assert_eq!(limits.read_chunk_bytes().unwrap(), 700);
    assert_eq!(limits.write_chunk_bytes("handle".len()).unwrap(), 600);
    let impossible = Limits { packet_len: Some(10), read_len: None, write_len: None };
    assert!(matches!(impossible.read_chunk_bytes(), Err(SftpError::InvalidServerLimits)));
}

#[test]
fn paths_are_joined_with_one_slash() {
    assert_eq!(join_remote_path("/", "x"), "/x");
    assert_eq!(join_remote_path("/home", "x"), "/home/x");
    assert_eq!(temporary_path("/home/file", "42").unwrap(), "/home/.file.cshell-42.tmp");
    assert!(matches!(temporary_path("/home/", "42"), Err(SftpError::InvalidRemotePath(_))));
    let first = remote_temporary_path("/home/file").unwrap();
    assert!(first.starts_with("/home/.file.cshell-"));
    assert!(first.ends_with(".tmp"));
    assert_ne!(first, remote_temporary_path("/home/file").unwrap());
}

#[test]
fn transfers_can_be_called_off() {
    let control = TransferControl::default();
    let other = control.clone();
    assert!(!control.is_cancelled());
    other.cancel();
    assert!(control.is_cancelled());
}

/// Uploads to some files, as a server would keep them.
fn run_upload(
    files: &mut BTreeMap<String, Vec<u8>>,
    mut payload: &[u8],
    destination: &str,
    expected: Option<u64>,
    cancel_after: Option<u64>,
    progress: &mut Vec<u64>,
) -> UploadAction {
    let temporary = temporary_path(destination, "1").unwrap();
    let mut upload = Upload::new(limits(), expected);
    let mut cancelled = false;
    let mut buffer = Vec::new();
    loop {
        let event = match upload.action() {
            UploadAction::FindDestination => match files.get(destination) {
                Some(bytes) => UploadEvent::Exists { size: Some(bytes.len() as u64) },
                None => UploadEvent::Missing,
            },
            UploadAction::OpenTemporary => {
                files.insert(temporary.clone(), Vec::new());
                UploadEvent::Opened { handle_bytes: 6 }
            }
            UploadAction::Report { bytes } => {
                progress.push(bytes);
                cancelled |= cancel_after.is_some_and(|limit| bytes >= limit);
                UploadEvent::Reported { cancelled }
            }
            UploadAction::Read { chunk } => {
                let count = chunk.min(payload.len());
                buffer = payload[..count].to_vec();
                payload = &payload[count..];
                UploadEvent::Read { count, cancelled }
            }
            UploadAction::Write { offset, count } => {
                let file = files.get_mut(&temporary).unwrap();
                assert_eq!(file.len() as u64, offset);
                file.extend_from_slice(&buffer[..count]);
                UploadEvent::Done
            }
            UploadAction::CloseTemporary => UploadEvent::Done,
            UploadAction::FindTemporary => {
                UploadEvent::Exists { size: Some(files[&temporary].len() as u64) }
            }
            UploadAction::Rename => {
                let bytes = files.remove(&temporary).unwrap();
                files.insert(destination.to_owned(), bytes);
                UploadEvent::Done
            }
            UploadAction::RemoveTemporary => {
                files.remove(&temporary);
                UploadEvent::Done
            }
            end => return end,
        };
        upload.step(event);
    }
}

fn no_temporary_files(files: &BTreeMap<String, Vec<u8>>) -> bool {
    files.keys().all(|path| !path.contains(".cshell-") || !path.ends_with(".tmp"))
}

#[test]
fn upload_is_chunked_verified_and_atomically_renamed() {
    let mut files = BTreeMap::new();
    let payload = vec![0x5a; SFTP_TRANSFER_CHUNK_BYTES * 3 + 17];
    let mut progress = Vec::new();
    let expected = Some(payload.len() as u64);
    let end = run_upload(&mut files, &payload, "/release.bin", expected, None, &mut progress);
    assert!(matches!(end, UploadAction::Succeed { bytes } if bytes == payload.len() as u64));
    assert_eq!(progress.first(), Some(&0));
    assert!(progress.len() >= 5);
    assert_eq!(files.get("/release.bin"), Some(&payload));
    assert!(no_temporary_files(&files));
    let outcome = upload_outcome(payload.len() as u64, expected);
    assert_eq!(outcome.total_bytes, expected);
}

#[test]
fn upload_size_mismatch_removes_temporary_without_publishing() {
    let mut files = BTreeMap::new();
    let payload = vec![0x44; SFTP_TRANSFER_CHUNK_BYTES + 1];
    let end = run_upload(
        &mut files,
        &payload,
        "/incorrect.bin",
        Some(payload.len() as u64 + 1),
        None,
        &mut Vec::new(),
    );
    assert!(matches!(
        end,
        UploadAction::Fail { fault: TransferFault::SizeMismatch { .. }, leftover: false }
    ));
    assert!(!files.contains_key("/incorrect.bin"));
    assert!(no_temporary_files(&files));
}

#[test]
fn cancelled_upload_removes_temporary_and_preserves_destination() {
    let mut files = BTreeMap::new();
    files.insert("/stable.bin".to_owned(), b"stable".to_vec());
    let payload = vec![0x33; SFTP_TRANSFER_CHUNK_BYTES * 2];
    let end = run_upload(
        &mut files,
        &payload,
        "/new.bin",
        Some(payload.len() as u64),
        Some(SFTP_TRANSFER_CHUNK_BYTES as u64),
        &mut Vec::new(),
    );
    assert!(matches!(
        end,
        UploadAction::Fail { fault: TransferFault::TransferCancelled, leftover: false }
    ));
    assert_eq!(files.get("/stable.bin"), Some(&b"stable".to_vec()));
    assert!(!files.contains_key("/new.bin"));
    assert!(no_temporary_files(&files));
}

#[test]
fn uploads_do_not_replace_files() {
    let mut files = BTreeMap::new();
    files.insert("/there.bin".to_owned(), b"old".to_vec());
    let end = run_upload(&mut files, b"new", "/there.bin", None, None, &mut Vec::new());
    assert!(matches!(
        end,
        UploadAction::Fail { fault: TransferFault::DestinationExists, leftover: false }
    ));
    assert_eq!(files["/there.bin"], b"old");
}

fn run_download(
    file: &[u8],
    told: Option<u64>,
    cancel_after: Option<u64>,
    progress: &mut Vec<u64>,
) -> (DownloadAction, Vec<u8>) {
    let mut download = Download::new(limits());
    let mut stored = Vec::new();
    let mut buffer = Vec::new();
    let mut cancelled = false;
    loop {
        let event = match download.action() {
            DownloadAction::FindFile => DownloadEvent::Sized { size: told },
            DownloadAction::OpenFile => DownloadEvent::Done,
            DownloadAction::Report { bytes, .. } => {
                progress.push(bytes);
                cancelled |= cancel_after.is_some_and(|limit| bytes >= limit);
                DownloadEvent::Reported { cancelled }
            }
            DownloadAction::Read { offset, chunk } => {
                let start = offset as usize;
                if start >= file.len() {
                    DownloadEvent::End
                } else {
                    let end = file.len().min(start + chunk as usize);
                    buffer = file[start..end].to_vec();
                    DownloadEvent::Read { count: buffer.len(), cancelled }
                }
            }
            DownloadAction::Store => {
                stored.extend_from_slice(&buffer);
                DownloadEvent::Done
            }
            DownloadAction::Flush | DownloadAction::CloseFile => DownloadEvent::Done,
            end => return (end, stored),
        };
        download.step(event);
    }
}

#[test]
fn download_streams_chunks_and_checks_remote_size() {
    let payload = vec![0xa5; SFTP_TRANSFER_CHUNK_BYTES * 2 + 11];
    let mut progress = Vec::new();
    let (end, stored) =
        run_download(&payload, Some(payload.len() as u64), None, &mut progress);
    assert_eq!(stored, payload);
    assert!(matches!(end, DownloadAction::Succeed { outcome }
        if outcome.bytes_transferred == payload.len() as u64));
    assert_eq!(progress.first(), Some(&0));
    assert!(progress.len() >= 4);

    let (end, _) = run_download(&payload, Some(1), None, &mut Vec::new());
    assert!(matches!(
        end,
        DownloadAction::Fail { fault: TransferFault::SizeMismatch { .. } }
    ));
}

#[test]
fn cancelled_downloads_fail() {
    let payload = vec![0x19; SFTP_TRANSFER_CHUNK_BYTES * 3];
    let (end, stored) = run_download(
        &payload,
        Some(payload.len() as u64),
        Some(SFTP_TRANSFER_CHUNK_BYTES as u64),
        &mut Vec::new(),
    );
    assert!(matches!(
        end,
        DownloadAction::Fail { fault: TransferFault::TransferCancelled }
    ));
    assert!(stored.len() < payload.len());
}

#[test]
fn atomic_local_download_publishes_only_complete_content() {
    let outcome = upload_outcome(3, Some(3));
    let state = PublishState::Checking
        .step(PublishEvent::Missing)
        .step(PublishEvent::Done)
        .step(PublishEvent::Downloaded { outcome })
        .step(PublishEvent::Done)
        .step(PublishEvent::Done)
        .step(PublishEvent::Done);
    assert!(matches!(state, PublishState::Done { outcome } if outcome.bytes_transferred == 3));
}

#[test]
fn cancelled_atomic_local_download_removes_partial_file() {
    let state = PublishState::Checking
        .step(PublishEvent::Missing)
        .step(PublishEvent::Done)
        .step(PublishEvent::DownloadFailed { fault: TransferFault::TransferCancelled });
    assert!(matches!(state, PublishState::Cleaning { .. }));
    assert!(matches!(
        state.step(PublishEvent::Done),
        PublishState::Failed { fault: TransferFault::TransferCancelled, leftover: false }
    ));
    assert!(matches!(
        PublishState::Checking.step(PublishEvent::Exists),
        PublishState::Failed { fault: TransferFault::DestinationExists, leftover: false }
    ));
}
