//! The steps of uploads and downloads. Each machine says what is to be done
//! next and takes what came of it; a file appears under its name only when all
//! of it is there.
use crate::sftp::{chunk_of, Limits, TransferFault, TransferOutcome};
use vstd::prelude::*;

verus! {

// ---------------------------------------------------------------------------
// Uploads.

/// What an upload waits for.
#[derive(Clone, Copy, Debug, PartialEq, Eq, Structural)]
pub enum UploadState {
    /// Whether the destination exists.
    Checking,
    /// The temporary file to be opened.
    Opening,
    /// The beginning to be reported.
    Starting { chunk: Option<usize> },
    /// More of the file.
    Reading { chunk: usize, offset: u64 },
    /// What was read to be written.
    Writing { chunk: usize, offset: u64, count: usize },
    /// The progress to be reported.
    Reporting { chunk: usize, offset: u64 },
    /// The temporary file to be closed.
    Closing { offset: u64, fault: Option<TransferFault> },
    /// The size of the temporary file.
    Measuring { offset: u64 },
    /// Whether the destination exists by now.
    Rechecking { offset: u64 },
    /// The temporary file to be renamed.
    Renaming { offset: u64 },
    /// The temporary file to be removed.
    Cleaning { fault: TransferFault },
    /// Nothing: the file is there.
    Done { offset: u64 },
    /// Nothing: the file is not there, and a temporary one may have been left.
    Failed { fault: TransferFault, leftover: bool },
}

/// What came of the last step.
#[derive(Clone, Copy, Debug, PartialEq, Eq, Structural)]
pub enum UploadEvent {
    /// A file is there, with this size.
    Exists { size: Option<u64> },
    /// There is no such file.
    Missing,
    /// The temporary file is open, under a handle of so many bytes.
    Opened { handle_bytes: usize },
    /// The progress is reported; the upload may have been called off.
    Reported { cancelled: bool },
    /// So many bytes were read; the upload may have been called off.
    Read { count: usize, cancelled: bool },
    /// It is done.
    Done,
    /// It could not be done.
    Failed,
}

/// What is to be done next.
#[derive(Clone, Copy, Debug, PartialEq, Eq, Structural)]
pub enum UploadAction {
    FindDestination,
    OpenTemporary,
    Report { bytes: u64 },
    Read { chunk: usize },
    Write { offset: u64, count: usize },
    CloseTemporary,
    FindTemporary,
    Rename,
    RemoveTemporary,
    Succeed { bytes: u64 },
    Fail { fault: TransferFault, leftover: bool },
}

/// The upload is given up while the temporary file is open.
pub open spec fn abandoned(offset: u64, fault: TransferFault) -> UploadState {
    UploadState::Closing { offset, fault: Some(fault) }
}

/// What an upload waits for after an event. An event that does not belong to
/// the step counts as a failure of the step.
pub open spec fn upload_next(
    state: UploadState,
    limits: Limits,
    expected: Option<u64>,
    event: UploadEvent,
) -> UploadState {
    match state {
        UploadState::Checking => match event {
            UploadEvent::Exists { size: _ } => UploadState::Failed {
                fault: TransferFault::DestinationExists,
                leftover: false,
            },
            UploadEvent::Missing => UploadState::Opening,
            _ => UploadState::Failed { fault: TransferFault::Reported, leftover: false },
        },
        UploadState::Opening => match event {
            UploadEvent::Opened { handle_bytes } => UploadState::Starting {
                chunk: match chunk_of(limits.packet_len, 25 + handle_bytes, limits.write_len) {
                    Some(chunk) => Some(chunk as usize),
                    None => None,
                },
            },
            _ => UploadState::Failed { fault: TransferFault::Reported, leftover: false },
        },
        UploadState::Starting { chunk } => match event {
            UploadEvent::Reported { cancelled } => match chunk {
                None => abandoned(0, TransferFault::InvalidServerLimits),
                Some(chunk) => if cancelled {
                    abandoned(0, TransferFault::TransferCancelled)
                } else {
                    UploadState::Reading { chunk, offset: 0 }
                },
            },
            _ => abandoned(0, TransferFault::Reported),
        },
        UploadState::Reading { chunk, offset } => match event {
            UploadEvent::Read { count, cancelled } => if count == 0 {
                match expected {
                    Some(size) => if offset != size {
                        abandoned(
                            offset,
                            TransferFault::SizeMismatch { expected: size, actual: offset },
                        )
                    } else {
                        UploadState::Closing { offset, fault: None }
                    },
                    None => UploadState::Closing { offset, fault: None },
                }
            } else if cancelled {
                abandoned(offset, TransferFault::TransferCancelled)
            } else {
                UploadState::Writing { chunk, offset, count }
            },
            _ => abandoned(offset, TransferFault::Reported),
        },
        UploadState::Writing { chunk, offset, count } => match event {
            UploadEvent::Done => {
                let after = offset + count;
                if after > u64::MAX {
                    abandoned(offset, TransferFault::OffsetOverflow)
                } else if expected matches Some(size) && after > size {
                    abandoned(
                        after as u64,
                        TransferFault::SizeMismatch { expected: expected->0, actual: after as u64 },
                    )
                } else {
                    UploadState::Reporting { chunk, offset: after as u64 }
                }
            },
            _ => abandoned(offset, TransferFault::Reported),
        },
        UploadState::Reporting { chunk, offset } => match event {
            UploadEvent::Reported { cancelled } => if cancelled {
                abandoned(offset, TransferFault::TransferCancelled)
            } else {
                UploadState::Reading { chunk, offset }
            },
            _ => abandoned(offset, TransferFault::Reported),
        },
        UploadState::Closing { offset, fault } => match fault {
            Some(fault) => UploadState::Cleaning { fault },
            None => match event {
                UploadEvent::Done => UploadState::Measuring { offset },
                _ => UploadState::Cleaning { fault: TransferFault::Reported },
            },
        },
        UploadState::Measuring { offset } => match event {
            UploadEvent::Exists { size } => match size {
                Some(actual) => if actual == offset {
                    UploadState::Rechecking { offset }
                } else {
                    UploadState::Cleaning {
                        fault: TransferFault::SizeMismatch { expected: offset, actual },
                    }
                },
                None => UploadState::Cleaning { fault: TransferFault::MissingRemoteSize },
            },
            _ => UploadState::Cleaning { fault: TransferFault::Reported },
        },
        UploadState::Rechecking { offset } => match event {
            UploadEvent::Exists { size: _ } => UploadState::Cleaning {
                fault: TransferFault::DestinationExists,
            },
            UploadEvent::Missing => UploadState::Renaming { offset },
            _ => UploadState::Cleaning { fault: TransferFault::Reported },
        },
        UploadState::Renaming { offset } => match event {
            UploadEvent::Done => UploadState::Done { offset },
            _ => UploadState::Cleaning { fault: TransferFault::Reported },
        },
        UploadState::Cleaning { fault } => UploadState::Failed {
            fault,
            leftover: event != UploadEvent::Done && event != UploadEvent::Missing,
        },
        UploadState::Done { offset } => state,
        UploadState::Failed { fault, leftover } => state,
    }
}

/// What an upload asks for while it waits.
pub open spec fn upload_asks(state: UploadState) -> UploadAction {
    match state {
        UploadState::Checking => UploadAction::FindDestination,
        UploadState::Opening => UploadAction::OpenTemporary,
        UploadState::Starting { chunk: _ } => UploadAction::Report { bytes: 0 },
        UploadState::Reading { chunk, offset: _ } => UploadAction::Read { chunk },
        UploadState::Writing { chunk: _, offset, count } => UploadAction::Write { offset, count },
        UploadState::Reporting { chunk: _, offset } => UploadAction::Report { bytes: offset },
        UploadState::Closing { offset: _, fault: _ } => UploadAction::CloseTemporary,
        UploadState::Measuring { offset: _ } => UploadAction::FindTemporary,
        UploadState::Rechecking { offset: _ } => UploadAction::FindDestination,
        UploadState::Renaming { offset: _ } => UploadAction::Rename,
        UploadState::Cleaning { fault: _ } => UploadAction::RemoveTemporary,
        UploadState::Done { offset } => UploadAction::Succeed { bytes: offset },
        UploadState::Failed { fault, leftover } => UploadAction::Fail { fault, leftover },
    }
}

/// An upload.
#[derive(Clone, Copy, Debug)]
pub struct Upload {
    state: UploadState,
    limits: Limits,
    expected: Option<u64>,
}

impl Upload {
    pub closed spec fn state(self) -> UploadState {
        self.state
    }

    pub closed spec fn limits(self) -> Limits {
        self.limits
    }

    pub closed spec fn expected(self) -> Option<u64> {
        self.expected
    }

    /// Begins an upload to a server with these limits of a file of this size,
    /// as far as that is known.
    pub fn new(limits: Limits, expected: Option<u64>) -> (upload: Self)
        ensures
            upload.state() == UploadState::Checking,
            upload.limits() == limits,
            upload.expected() == expected,
    {
        Upload { state: UploadState::Checking, limits, expected }
    }

    /// What is to be done next.
    pub fn action(&self) -> (action: UploadAction)
        ensures
            action == upload_asks(self.state()),
    {
        match self.state {
            UploadState::Checking => UploadAction::FindDestination,
            UploadState::Opening => UploadAction::OpenTemporary,
            UploadState::Starting { chunk: _ } => UploadAction::Report { bytes: 0 },
            UploadState::Reading { chunk, offset: _ } => UploadAction::Read { chunk },
            UploadState::Writing { chunk: _, offset, count } => UploadAction::Write {
                offset,
                count,
            },
            UploadState::Reporting { chunk: _, offset } => UploadAction::Report { bytes: offset },
            UploadState::Closing { offset: _, fault: _ } => UploadAction::CloseTemporary,
            UploadState::Measuring { offset: _ } => UploadAction::FindTemporary,
            UploadState::Rechecking { offset: _ } => UploadAction::FindDestination,
            UploadState::Renaming { offset: _ } => UploadAction::Rename,
            UploadState::Cleaning { fault: _ } => UploadAction::RemoveTemporary,
            UploadState::Done { offset } => UploadAction::Succeed { bytes: offset },
            UploadState::Failed { fault, leftover } => UploadAction::Fail { fault, leftover },
        }
    }

    /// Takes what came of the last step.
    pub fn step(&mut self, event: UploadEvent)
        ensures
            final(self).state() == upload_next(
                old(self).state(),
                old(self).limits(),
                old(self).expected(),
                event,
            ),
            final(self).limits() == old(self).limits(),
            final(self).expected() == old(self).expected(),
    {
        let reported = TransferFault::Reported;
        self.state = match self.state {
            UploadState::Checking => match event {
                UploadEvent::Exists { size: _ } => UploadState::Failed {
                    fault: TransferFault::DestinationExists,
                    leftover: false,
                },
                UploadEvent::Missing => UploadState::Opening,
                _ => UploadState::Failed { fault: reported, leftover: false },
            },
            UploadState::Opening => match event {
                UploadEvent::Opened { handle_bytes } => UploadState::Starting {
                    chunk: match self.limits.write_chunk_bytes(handle_bytes) {
                        Ok(chunk) => Some(chunk),
                        Err(_) => None,
                    },
                },
                _ => UploadState::Failed { fault: reported, leftover: false },
            },
            UploadState::Starting { chunk } => {
                let fault = match event {
                    UploadEvent::Reported { cancelled } => match chunk {
                        None => Some(TransferFault::InvalidServerLimits),
                        Some(_) => if cancelled {
                            Some(TransferFault::TransferCancelled)
                        } else {
                            None
                        },
                    },
                    _ => Some(reported),
                };
                match (fault, chunk) {
                    (None, Some(chunk)) => UploadState::Reading { chunk, offset: 0 },
                    (fault, _) => UploadState::Closing { offset: 0, fault },
                }
            },
            UploadState::Reading { chunk, offset } => match event {
                UploadEvent::Read { count, cancelled } => if count == 0 {
                    let fault = match self.expected {
                        Some(size) => if offset != size {
                            Some(TransferFault::SizeMismatch { expected: size, actual: offset })
                        } else {
                            None
                        },
                        None => None,
                    };
                    UploadState::Closing { offset, fault }
                } else if cancelled {
                    UploadState::Closing { offset, fault: Some(TransferFault::TransferCancelled) }
                } else {
                    UploadState::Writing { chunk, offset, count }
                },
                _ => UploadState::Closing { offset, fault: Some(reported) },
            },
            UploadState::Writing { chunk, offset, count } => match event {
                UploadEvent::Done => {
                    if count as u64 > u64::MAX - offset {
                        UploadState::Closing { offset, fault: Some(TransferFault::OffsetOverflow) }
                    } else {
                        let after: u64 = offset + count as u64;
                        match self.expected {
                            Some(size) => if after > size {
                                UploadState::Closing {
                                    offset: after,
                                    fault: Some(
                                        TransferFault::SizeMismatch {
                                            expected: size,
                                            actual: after,
                                        },
                                    ),
                                }
                            } else {
                                UploadState::Reporting { chunk, offset: after }
                            },
                            None => UploadState::Reporting { chunk, offset: after },
                        }
                    }
                },
                _ => UploadState::Closing { offset, fault: Some(reported) },
            },
            UploadState::Reporting { chunk, offset } => match event {
                UploadEvent::Reported { cancelled } => if cancelled {
                    UploadState::Closing { offset, fault: Some(TransferFault::TransferCancelled) }
                } else {
                    UploadState::Reading { chunk, offset }
                },
                _ => UploadState::Closing { offset, fault: Some(reported) },
            },
            UploadState::Closing { offset, fault } => match fault {
                Some(fault) => UploadState::Cleaning { fault },
                None => match event {
                    UploadEvent::Done => UploadState::Measuring { offset },
                    _ => UploadState::Cleaning { fault: reported },
                },
            },
            UploadState::Measuring { offset } => match event {
                UploadEvent::Exists { size } => match size {
                    Some(actual) => if actual == offset {
                        UploadState::Rechecking { offset }
                    } else {
                        UploadState::Cleaning {
                            fault: TransferFault::SizeMismatch { expected: offset, actual },
                        }
                    },
                    None => UploadState::Cleaning { fault: TransferFault::MissingRemoteSize },
                },
                _ => UploadState::Cleaning { fault: reported },
            },
            UploadState::Rechecking { offset } => match event {
                UploadEvent::Exists { size: _ } => UploadState::Cleaning {
                    fault: TransferFault::DestinationExists,
                },
                UploadEvent::Missing => UploadState::Renaming { offset },
                _ => UploadState::Cleaning { fault: reported },
            },
            UploadState::Renaming { offset } => match event {
                UploadEvent::Done => UploadState::Done { offset },
                _ => UploadState::Cleaning { fault: reported },
            },
            UploadState::Cleaning { fault } => UploadState::Failed {
                fault,
                leftover: event != UploadEvent::Done && event != UploadEvent::Missing,
            },
            UploadState::Done { offset: _ } => self.state,
            UploadState::Failed { fault: _, leftover: _ } => self.state,
        };
    }
}

/// What an upload waits for after some events.
pub open spec fn upload_run(limits: Limits, expected: Option<u64>, events: Seq<UploadEvent>) -> UploadState
    decreases events.len(),
{
    if events.len() == 0 {
        UploadState::Checking
    } else {
        upload_next(
            upload_run(limits, expected, events.drop_last()),
            limits,
            expected,
            events.last(),
        )
    }
}

/// The bytes that were written successfully in the course of some events.
pub open spec fn uploaded(limits: Limits, expected: Option<u64>, events: Seq<UploadEvent>) -> int
    decreases events.len(),
{
    if events.len() == 0 {
        0
    } else {
        uploaded(limits, expected, events.drop_last()) + match upload_run(
            limits,
            expected,
            events.drop_last(),
        ) {
            UploadState::Writing { chunk: _, offset: _, count } => if events.last()
                == UploadEvent::Done {
                count as int
            } else {
                0
            },
            _ => 0,
        }
    }
}

/// The bytes that a state accounts for.
pub open spec fn upload_offset(state: UploadState) -> Option<int> {
    match state {
        UploadState::Checking | UploadState::Opening | UploadState::Starting { chunk: _ } => Some(
            0,
        ),
        UploadState::Reading { chunk: _, offset } => Some(offset as int),
        UploadState::Writing { chunk: _, offset, count: _ } => Some(offset as int),
        UploadState::Reporting { chunk: _, offset } => Some(offset as int),
        UploadState::Closing { offset, fault } => if fault is None {
            Some(offset as int)
        } else {
            None
        },
        UploadState::Measuring { offset } => Some(offset as int),
        UploadState::Rechecking { offset } => Some(offset as int),
        UploadState::Renaming { offset } => Some(offset as int),
        UploadState::Done { offset } => Some(offset as int),
        _ => None,
    }
}

/// All of the file is in the temporary one.
pub open spec fn upload_complete(state: UploadState) -> bool {
    match state {
        UploadState::Closing { offset: _, fault } => fault is None,
        UploadState::Measuring { offset: _ } => true,
        UploadState::Rechecking { offset: _ } => true,
        UploadState::Renaming { offset: _ } => true,
        UploadState::Done { offset: _ } => true,
        _ => false,
    }
}

/// What an upload counts is what was written, and it publishes a file of known
/// size only when all of it was written.
pub proof fn law_upload_publishes_all_or_nothing(
    limits: Limits,
    expected: Option<u64>,
    events: Seq<UploadEvent>,
)
    ensures
        ({
            let state = upload_run(limits, expected, events);
            &&& upload_offset(state) matches Some(offset) ==> offset == uploaded(
                limits,
                expected,
                events,
            )
            &&& upload_complete(state) ==> (expected matches Some(size) ==> uploaded(
                limits,
                expected,
                events,
            ) == size)
        }),
    decreases events.len(),
{
    if events.len() > 0 {
        law_upload_publishes_all_or_nothing(limits, expected, events.drop_last());
    }
}

/// A file appears under its name only by the renaming, which is asked for only
/// when the temporary file has the size that was written and nothing has the
/// name yet. From the opening on, an upload fails only after it has asked for
/// the temporary file to be removed.
pub proof fn law_upload_steps(
    state: UploadState,
    limits: Limits,
    expected: Option<u64>,
    event: UploadEvent,
)
    ensures
        ({
            let next = upload_next(state, limits, expected, event);
            &&& (next matches UploadState::Done { offset }) ==> state == (UploadState::Renaming {
                offset: next->Done_offset,
            }) && event == UploadEvent::Done || state == next
            &&& (next matches UploadState::Renaming { offset }) ==> state == (
            UploadState::Rechecking { offset: next->Renaming_offset }) && event
                == UploadEvent::Missing
            &&& (next matches UploadState::Rechecking { offset }) ==> state == (
            UploadState::Measuring { offset: next->Rechecking_offset }) && event == (
            UploadEvent::Exists { size: Some(next->Rechecking_offset) })
            &&& (next is Failed) ==> state is Checking || state is Opening || state is Cleaning
                || state == next
        }),
{
}

/// An upload that is called off writes nothing more.
pub proof fn law_called_off_upload_stops(
    state: UploadState,
    limits: Limits,
    expected: Option<u64>,
    event: UploadEvent,
)
    requires
        event matches UploadEvent::Reported { cancelled: true } || event matches UploadEvent::Read {
            count: _,
            cancelled: true,
        },
    ensures
        !(upload_next(state, limits, expected, event) is Reading),
        !(upload_next(state, limits, expected, event) is Writing),
{
}

/// The outcome that is reported for an upload of so many bytes.
pub fn upload_outcome(bytes: u64, expected: Option<u64>) -> (outcome: TransferOutcome)
    ensures
        outcome == (TransferOutcome { bytes_transferred: bytes, total_bytes: expected }),
{
    TransferOutcome { bytes_transferred: bytes, total_bytes: expected }
}

// ---------------------------------------------------------------------------
// Downloads.

/// What a download waits for.
#[derive(Clone, Copy, Debug, PartialEq, Eq, Structural)]
pub enum DownloadState {
    /// The size of the file.
    Sizing,
    /// The file to be opened.
    Opening { total: Option<u64> },
    /// The beginning to be reported.
    Starting { total: Option<u64> },
    /// More of the file.
    Reading { total: Option<u64>, offset: u64 },
    /// What was read to be stored.
    Storing { total: Option<u64>, offset: u64, count: usize },
    /// The progress to be reported.
    Reporting { total: Option<u64>, offset: u64 },
    /// What was stored to be flushed.
    Flushing { total: Option<u64>, offset: u64 },
    /// The file to be closed.
    Closing { total: Option<u64>, offset: u64, fault: Option<TransferFault> },
    /// Nothing: all of the file has been stored.
    Done { total: Option<u64>, offset: u64 },
    /// Nothing.
    Failed { fault: TransferFault },
}

/// What came of the last step.
#[derive(Clone, Copy, Debug, PartialEq, Eq, Structural)]
pub enum DownloadEvent {
    /// The file is there, with this size.
    Sized { size: Option<u64> },
    /// The progress is reported; the download may have been called off.
    Reported { cancelled: bool },
    /// So many bytes were read; the download may have been called off.
    Read { count: usize, cancelled: bool },
    /// The file has no more bytes.
    End,
    /// It is done.
    Done,
    /// It could not be done.
    Failed,
}

/// What is to be done next.
#[derive(Clone, Copy, Debug, PartialEq, Eq, Structural)]
pub enum DownloadAction {
    FindFile,
    OpenFile,
    Report { bytes: u64, total: Option<u64> },
    Read { offset: u64, chunk: u32 },
    Store,
    Flush,
    CloseFile,
    Succeed { outcome: TransferOutcome },
    Fail { fault: TransferFault },
}

/// The download is given up while the file is open.
pub open spec fn given_up(total: Option<u64>, offset: u64, fault: TransferFault) -> DownloadState {
    DownloadState::Closing { total, offset, fault: Some(fault) }
}

/// What a download waits for after an event. An event that does not belong to
/// the step counts as a failure of the step.
pub open spec fn download_next(
    state: DownloadState,
    limits: Limits,
    event: DownloadEvent,
) -> DownloadState {
    match state {
        DownloadState::Sizing => match event {
            DownloadEvent::Sized { size } => DownloadState::Opening { total: size },
            _ => DownloadState::Failed { fault: TransferFault::Reported },
        },
        DownloadState::Opening { total } => match event {
            DownloadEvent::Done => DownloadState::Starting { total },
            _ => DownloadState::Failed { fault: TransferFault::Reported },
        },
        DownloadState::Starting { total } => match event {
            DownloadEvent::Reported { cancelled } => if chunk_of(
                limits.packet_len,
                13,
                limits.read_len,
            ) is None {
                given_up(total, 0, TransferFault::InvalidServerLimits)
            } else if cancelled {
                given_up(total, 0, TransferFault::TransferCancelled)
            } else {
                DownloadState::Reading { total, offset: 0 }
            },
            _ => given_up(total, 0, TransferFault::Reported),
        },
        DownloadState::Reading { total, offset } => match event {
            DownloadEvent::Read { count, cancelled } => if count == 0 {
                given_up(total, offset, TransferFault::EmptyRead)
            } else if cancelled {
                given_up(total, offset, TransferFault::TransferCancelled)
            } else {
                DownloadState::Storing { total, offset, count }
            },
            DownloadEvent::End => DownloadState::Flushing { total, offset },
            _ => given_up(total, offset, TransferFault::Reported),
        },
        DownloadState::Storing { total, offset, count } => match event {
            DownloadEvent::Done => if offset + count > u64::MAX {
                given_up(total, offset, TransferFault::OffsetOverflow)
            } else {
                DownloadState::Reporting { total, offset: (offset + count) as u64 }
            },
            _ => given_up(total, offset, TransferFault::Reported),
        },
        DownloadState::Reporting { total, offset } => match event {
            DownloadEvent::Reported { cancelled } => if cancelled {
                given_up(total, offset, TransferFault::TransferCancelled)
            } else {
                DownloadState::Reading { total, offset }
            },
            _ => given_up(total, offset, TransferFault::Reported),
        },
        DownloadState::Flushing { total, offset } => match event {
            DownloadEvent::Done => if total matches Some(size) && offset != size {
                given_up(
                    total,
                    offset,
                    TransferFault::SizeMismatch { expected: total->0, actual: offset },
                )
            } else {
                DownloadState::Closing { total, offset, fault: None }
            },
            _ => given_up(total, offset, TransferFault::Reported),
        },
        DownloadState::Closing { total, offset, fault } => match fault {
            Some(fault) => DownloadState::Failed { fault },
            None => match event {
                DownloadEvent::Done => DownloadState::Done { total, offset },
                _ => DownloadState::Failed { fault: TransferFault::Reported },
            },
        },
        DownloadState::Done { total, offset } => state,
        DownloadState::Failed { fault } => state,
    }
}

/// What a download asks for while it waits.
pub open spec fn download_asks(state: DownloadState, limits: Limits) -> DownloadAction {
    match state {
        DownloadState::Sizing => DownloadAction::FindFile,
        DownloadState::Opening { total: _ } => DownloadAction::OpenFile,
        DownloadState::Starting { total } => DownloadAction::Report { bytes: 0, total },
        DownloadState::Reading { total: _, offset } => DownloadAction::Read {
            offset,
            chunk: match chunk_of(limits.packet_len, 13, limits.read_len) {
                Some(chunk) => chunk as u32,
                None => 0,
            },
        },
        DownloadState::Storing { total: _, offset: _, count: _ } => DownloadAction::Store,
        DownloadState::Reporting { total, offset } => DownloadAction::Report {
            bytes: offset,
            total,
        },
        DownloadState::Flushing { total: _, offset: _ } => DownloadAction::Flush,
        DownloadState::Closing { total: _, offset: _, fault: _ } => DownloadAction::CloseFile,
        DownloadState::Done { total, offset } => DownloadAction::Succeed {
            outcome: TransferOutcome { bytes_transferred: offset, total_bytes: total },
        },
        DownloadState::Failed { fault } => DownloadAction::Fail { fault },
    }
}

/// A download.
#[derive(Clone, Copy, Debug)]
pub struct Download {
    state: DownloadState,
    limits: Limits,
}

impl Download {
    pub closed spec fn state(self) -> DownloadState {
        self.state
    }

    pub closed spec fn limits(self) -> Limits {
        self.limits
    }

    /// Begins a download from a server with these limits.
    pub fn new(limits: Limits) -> (download: Self)
        ensures
            download.state() == DownloadState::Sizing,
            download.limits() == limits,
    {
        Download { state: DownloadState::Sizing, limits }
    }

    /// What is to be done next.
    pub fn action(&self) -> (action: DownloadAction)
        ensures
            action == download_asks(self.state(), self.limits()),
    {
        match self.state {
            DownloadState::Sizing => DownloadAction::FindFile,
            DownloadState::Opening { total: _ } => DownloadAction::OpenFile,
            DownloadState::Starting { total } => DownloadAction::Report { bytes: 0, total },
            DownloadState::Reading { total: _, offset } => DownloadAction::Read {
                offset,
                chunk: match self.limits.read_chunk_bytes() {
                    Ok(chunk) => chunk,
                    Err(_) => 0,
                },
            },
            DownloadState::Storing { total: _, offset: _, count: _ } => DownloadAction::Store,
            DownloadState::Reporting { total, offset } => DownloadAction::Report {
                bytes: offset,
                total,
            },
            DownloadState::Flushing { total: _, offset: _ } => DownloadAction::Flush,
            DownloadState::Closing { total: _, offset: _, fault: _ } => DownloadAction::CloseFile,
            DownloadState::Done { total, offset } => DownloadAction::Succeed {
                outcome: TransferOutcome { bytes_transferred: offset, total_bytes: total },
            },
            DownloadState::Failed { fault } => DownloadAction::Fail { fault },
        }
    }

    /// Takes what came of the last step.
    pub fn step(&mut self, event: DownloadEvent)
        ensures
            final(self).state() == download_next(old(self).state(), old(self).limits(), event),
            final(self).limits() == old(self).limits(),
    {
        let reported = Some(TransferFault::Reported);
        let cancelled_fault = Some(TransferFault::TransferCancelled);
        self.state = match self.state {
            DownloadState::Sizing => match event {
                DownloadEvent::Sized { size } => DownloadState::Opening { total: size },
                _ => DownloadState::Failed { fault: TransferFault::Reported },
            },
            DownloadState::Opening { total } => match event {
                DownloadEvent::Done => DownloadState::Starting { total },
                _ => DownloadState::Failed { fault: TransferFault::Reported },
            },
            DownloadState::Starting { total } => match event {
                DownloadEvent::Reported { cancelled } => match self.limits.read_chunk_bytes() {
                    Err(_) => DownloadState::Closing {
                        total,
                        offset: 0,
                        fault: Some(TransferFault::InvalidServerLimits),
                    },
                    Ok(_) => if cancelled {
                        DownloadState::Closing { total, offset: 0, fault: cancelled_fault }
                    } else {
                        DownloadState::Reading { total, offset: 0 }
                    },
                },
                _ => DownloadState::Closing { total, offset: 0, fault: reported },
            },
            DownloadState::Reading { total, offset } => match event {
                DownloadEvent::Read { count, cancelled } => if count == 0 {
                    DownloadState::Closing { total, offset, fault: Some(TransferFault::EmptyRead) }
                } else if cancelled {
                    DownloadState::Closing { total, offset, fault: cancelled_fault }
                } else {
                    DownloadState::Storing { total, offset, count }
                },
                DownloadEvent::End => DownloadState::Flushing { total, offset },
                _ => DownloadState::Closing { total, offset, fault: reported },
            },
            DownloadState::Storing { total, offset, count } => match event {
                DownloadEvent::Done => if count as u64 > u64::MAX - offset {
                    DownloadState::Closing {
                        total,
                        offset,
                        fault: Some(TransferFault::OffsetOverflow),
                    }
                } else {
                    DownloadState::Reporting { total, offset: offset + count as u64 }
                },
                _ => DownloadState::Closing { total, offset, fault: reported },
            },
            DownloadState::Reporting { total, offset } => match event {
                DownloadEvent::Reported { cancelled } => if cancelled {
                    DownloadState::Closing { total, offset, fault: cancelled_fault }
                } else {
                    DownloadState::Reading { total, offset }
                },
                _ => DownloadState::Closing { total, offset, fault: reported },
            },
            DownloadState::Flushing { total, offset } => match event {
                DownloadEvent::Done => {
                    let fault = match total {
                        Some(size) => if offset != size {
                            Some(TransferFault::SizeMismatch { expected: size, actual: offset })
                        } else {
                            None
                        },
                        None => None,
                    };
                    DownloadState::Closing { total, offset, fault }
                },
                _ => DownloadState::Closing { total, offset, fault: reported },
            },
            DownloadState::Closing { total, offset, fault } => match fault {
                Some(fault) => DownloadState::Failed { fault },
                None => match event {
                    DownloadEvent::Done => DownloadState::Done { total, offset },
                    _ => DownloadState::Failed { fault: TransferFault::Reported },
                },
            },
            DownloadState::Done { total: _, offset: _ } => self.state,
            DownloadState::Failed { fault: _ } => self.state,
        };
    }
}

/// What a download waits for after some events.
pub open spec fn download_run(limits: Limits, events: Seq<DownloadEvent>) -> DownloadState
    decreases events.len(),
{
    if events.len() == 0 {
        DownloadState::Sizing
    } else {
        download_next(download_run(limits, events.drop_last()), limits, events.last())
    }
}

/// The bytes that were stored successfully in the course of some events.
pub open spec fn downloaded(limits: Limits, events: Seq<DownloadEvent>) -> int
    decreases events.len(),
{
    if events.len() == 0 {
        0
    } else {
        downloaded(limits, events.drop_last()) + match download_run(limits, events.drop_last()) {
            DownloadState::Storing { total: _, offset: _, count } => if events.last()
                == DownloadEvent::Done {
                count as int
            } else {
                0
            },
            _ => 0,
        }
    }
}

/// The bytes that a state accounts for.
pub open spec fn download_offset(state: DownloadState) -> Option<int> {
    match state {
        DownloadState::Sizing => Some(0),
        DownloadState::Opening { total: _ } => Some(0),
        DownloadState::Starting { total: _ } => Some(0),
        DownloadState::Reading { total: _, offset } => Some(offset as int),
        DownloadState::Storing { total: _, offset, count: _ } => Some(offset as int),
        DownloadState::Reporting { total: _, offset } => Some(offset as int),
        DownloadState::Flushing { total: _, offset } => Some(offset as int),
        DownloadState::Closing { total: _, offset, fault } => if fault is None {
            Some(offset as int)
        } else {
            None
        },
        DownloadState::Done { total: _, offset } => Some(offset as int),
        DownloadState::Failed { fault: _ } => None,
    }
}

/// A download succeeds only with as many bytes stored as the server gave the
/// file, and says how many that are.
pub proof fn law_download_is_complete(limits: Limits, events: Seq<DownloadEvent>)
    ensures
        ({
            let state = download_run(limits, events);
            &&& download_offset(state) matches Some(offset) ==> offset == downloaded(
                limits,
                events,
            )
            &&& state matches DownloadState::Closing { total: Some(size), offset, fault: None }
                ==> offset == size
            &&& state matches DownloadState::Done { total, offset } ==> offset == downloaded(
                limits,
                events,
            ) && (total matches Some(size) ==> offset == size)
        }),
    decreases events.len(),
{
    if events.len() > 0 {
        law_download_is_complete(limits, events.drop_last());
    }
}

// ---------------------------------------------------------------------------
// Downloads into a file.

/// What a download into a file waits for.
#[derive(Clone, Copy, Debug, PartialEq, Eq, Structural)]
pub enum PublishState {
    /// Whether the destination exists.
    Checking,
    /// The temporary file to be made.
    Creating,
    /// The download into it.
    Downloading,
    /// The temporary file to be written through to the disk.
    Syncing { outcome: TransferOutcome },
    /// It to be linked to its name.
    Linking { outcome: TransferOutcome },
    /// The temporary name to be removed.
    Removing { outcome: TransferOutcome },
    /// The temporary file to be removed.
    Cleaning { fault: TransferFault },
    /// Nothing: the file is there.
    Done { outcome: TransferOutcome },
    /// Nothing: the file is there, under the temporary name as well.
    DoneWithLeftover,
    /// Nothing: the file is not there, and a temporary one may have been left.
    Failed { fault: TransferFault, leftover: bool },
}

/// What came of the last step.
#[derive(Clone, Copy, Debug, PartialEq, Eq, Structural)]
pub enum PublishEvent {
    Exists,
    Missing,
    Downloaded { outcome: TransferOutcome },
    DownloadFailed { fault: TransferFault },
    Done,
    Failed,
}

/// What a download into a file waits for after an event. An event that does
/// not belong to the step counts as a failure of the step.
pub open spec fn publish_next(state: PublishState, event: PublishEvent) -> PublishState {
    match state {
        PublishState::Checking => match event {
            PublishEvent::Exists => PublishState::Failed {
                fault: TransferFault::DestinationExists,
                leftover: false,
            },
            PublishEvent::Missing => PublishState::Creating,
            _ => PublishState::Failed { fault: TransferFault::Reported, leftover: false },
        },
        PublishState::Creating => match event {
            PublishEvent::Done => PublishState::Downloading,
            _ => PublishState::Failed { fault: TransferFault::Reported, leftover: false },
        },
        PublishState::Downloading => match event {
            PublishEvent::Downloaded { outcome } => PublishState::Syncing { outcome },
            PublishEvent::DownloadFailed { fault } => PublishState::Cleaning { fault },
            _ => PublishState::Cleaning { fault: TransferFault::Reported },
        },
        PublishState::Syncing { outcome } => match event {
            PublishEvent::Done => PublishState::Linking { outcome },
            _ => PublishState::Cleaning { fault: TransferFault::Reported },
        },
        PublishState::Linking { outcome } => match event {
            PublishEvent::Done => PublishState::Removing { outcome },
            _ => PublishState::Cleaning { fault: TransferFault::Reported },
        },
        PublishState::Removing { outcome } => match event {
            PublishEvent::Done => PublishState::Done { outcome },
            _ => PublishState::DoneWithLeftover,
        },
        PublishState::Cleaning { fault } => PublishState::Failed {
            fault,
            leftover: event != PublishEvent::Done && event != PublishEvent::Missing,
        },
        PublishState::Done { outcome } => state,
        PublishState::DoneWithLeftover => state,
        PublishState::Failed { fault, leftover } => state,
    }
}

impl PublishState {
    /// What is waited for after an event.
    pub fn step(self, event: PublishEvent) -> (next: PublishState)
        ensures
            next == publish_next(self, event),
    {
        match self {
            PublishState::Checking => match event {
                PublishEvent::Exists => PublishState::Failed {
                    fault: TransferFault::DestinationExists,
                    leftover: false,
                },
                PublishEvent::Missing => PublishState::Creating,
                _ => PublishState::Failed { fault: TransferFault::Reported, leftover: false },
            },
            PublishState::Creating => match event {
                PublishEvent::Done => PublishState::Downloading,
                _ => PublishState::Failed { fault: TransferFault::Reported, leftover: false },
            },
            PublishState::Downloading => match event {
                PublishEvent::Downloaded { outcome } => PublishState::Syncing { outcome },
                PublishEvent::DownloadFailed { fault } => PublishState::Cleaning { fault },
                _ => PublishState::Cleaning { fault: TransferFault::Reported },
            },
            PublishState::Syncing { outcome } => match event {
                PublishEvent::Done => PublishState::Linking { outcome },
                _ => PublishState::Cleaning { fault: TransferFault::Reported },
            },
            PublishState::Linking { outcome } => match event {
                PublishEvent::Done => PublishState::Removing { outcome },
                _ => PublishState::Cleaning { fault: TransferFault::Reported },
            },
            PublishState::Removing { outcome } => match event {
                PublishEvent::Done => PublishState::Done { outcome },
                _ => PublishState::DoneWithLeftover,
            },
            PublishState::Cleaning { fault } => PublishState::Failed {
                fault,
                leftover: event != PublishEvent::Done && event != PublishEvent::Missing,
            },
            PublishState::Done { outcome: _ } => self,
            PublishState::DoneWithLeftover => self,
            PublishState::Failed { fault: _, leftover: _ } => self,
        }
    }
}

/// A file gets its name only by the link, which is asked for only when its
/// content is complete and on the disk. From the making of the temporary file
/// on, a download fails only after it has asked for that file to be removed.
pub proof fn law_publish_steps(state: PublishState, event: PublishEvent)
    ensures
        ({
            let next = publish_next(state, event);
            &&& (next is Removing) ==> (state matches PublishState::Linking { outcome } && next
                == (PublishState::Removing { outcome }) && event == PublishEvent::Done)
            &&& (next is Linking) ==> (state matches PublishState::Syncing { outcome } && next == (
            PublishState::Linking { outcome }) && event == PublishEvent::Done)
            &&& (next is Syncing) ==> state is Downloading && (event matches
                PublishEvent::Downloaded { outcome } && next == (PublishState::Syncing { outcome }))
            &&& (next is Done) ==> state == next || (state matches PublishState::Removing {
                outcome,
            } && next == (PublishState::Done { outcome }))
            &&& (next is Failed) ==> state is Checking || state is Creating || state is Cleaning
                || state == next
        }),
{
}

} // verus!
