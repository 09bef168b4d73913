//! Putting a new checkpoint in the place of an old one, so that one of the two
//! can always be read.
use vstd::prelude::*;

verus! {

/// What is to be done next, or how it ended.
#[derive(Clone, Copy, Debug, PartialEq, Eq, Structural)]
pub enum CacheSwap {
    /// A copy that was left behind is to be removed.
    RemoveLeftover,
    /// Whether there is an old checkpoint is to be found out.
    FindOld,
    /// The old checkpoint is to be renamed to the copy.
    SetAside,
    /// The new checkpoint is to be renamed to its place; an old one may have
    /// been set aside.
    Publish { set_aside: bool },
    /// The copy is to be renamed back.
    PutBack,
    /// The copy is to be removed.
    RemoveCopy,
    /// The new checkpoint is in its place.
    Done,
    /// The last step but the putting back failed.
    Failed,
}

/// What came of a step.
#[derive(Clone, Copy, Debug, PartialEq, Eq, Structural)]
pub enum SwapEvent {
    /// It is done, or the file is there.
    Done,
    /// There is no such file.
    Missing,
    /// It could not be done, and nothing has changed.
    Failed,
}

/// The next step.
pub open spec fn swap_next(state: CacheSwap, event: SwapEvent) -> CacheSwap {
    match (state, event) {
        (CacheSwap::Done, _) => CacheSwap::Done,
        (CacheSwap::Failed, _) => CacheSwap::Failed,
        (CacheSwap::PutBack, _) => CacheSwap::Failed,
        (CacheSwap::Publish { set_aside }, SwapEvent::Done) => if set_aside {
            CacheSwap::RemoveCopy
        } else {
            CacheSwap::Done
        },
        (CacheSwap::Publish { set_aside }, _) => if set_aside {
            CacheSwap::PutBack
        } else {
            CacheSwap::Failed
        },
        (CacheSwap::FindOld, SwapEvent::Done) => CacheSwap::SetAside,
        (CacheSwap::FindOld, _) => CacheSwap::Publish { set_aside: false },
        (CacheSwap::RemoveLeftover, SwapEvent::Failed) => CacheSwap::Failed,
        (CacheSwap::RemoveLeftover, _) => CacheSwap::FindOld,
        (CacheSwap::SetAside, SwapEvent::Done) => CacheSwap::Publish { set_aside: true },
        (CacheSwap::SetAside, _) => CacheSwap::Failed,
        (CacheSwap::RemoveCopy, SwapEvent::Failed) => CacheSwap::Failed,
        (CacheSwap::RemoveCopy, _) => CacheSwap::Done,
    }
}

impl CacheSwap {
    pub fn new() -> (swap: Self)
        ensures
            swap == CacheSwap::RemoveLeftover,
    {
        CacheSwap::RemoveLeftover
    }

    pub fn step(self, event: SwapEvent) -> (next: CacheSwap)
        ensures
            next == swap_next(self, event),
    {
        match (self, event) {
            (CacheSwap::Done, _) => CacheSwap::Done,
            (CacheSwap::Failed, _) => CacheSwap::Failed,
            (CacheSwap::PutBack, _) => CacheSwap::Failed,
            (CacheSwap::Publish { set_aside }, SwapEvent::Done) => if set_aside {
                CacheSwap::RemoveCopy
            } else {
                CacheSwap::Done
            },
            (CacheSwap::Publish { set_aside }, _) => if set_aside {
                CacheSwap::PutBack
            } else {
                CacheSwap::Failed
            },
            (CacheSwap::FindOld, SwapEvent::Done) => CacheSwap::SetAside,
            (CacheSwap::FindOld, _) => CacheSwap::Publish { set_aside: false },
            (CacheSwap::RemoveLeftover, SwapEvent::Failed) => CacheSwap::Failed,
            (CacheSwap::RemoveLeftover, _) => CacheSwap::FindOld,
            (CacheSwap::SetAside, SwapEvent::Done) => CacheSwap::Publish { set_aside: true },
            (CacheSwap::SetAside, _) => CacheSwap::Failed,
            (CacheSwap::RemoveCopy, SwapEvent::Failed) => CacheSwap::Failed,
            (CacheSwap::RemoveCopy, _) => CacheSwap::Done,
        }
    }
}

// ---------------------------------------------------------------------------
// The files.

/// What the three files of a checkpoint hold: the one in its place, the new
/// one and the copy.
#[verifier::ext_equal]
pub struct CacheFiles {
    pub primary: Option<Seq<u8>>,
    pub temporary: Option<Seq<u8>>,
    pub copy: Option<Seq<u8>>,
}

/// The files after a step.
pub open spec fn files_after(state: CacheSwap, event: SwapEvent, files: CacheFiles) -> CacheFiles {
    if event != SwapEvent::Done {
        files
    } else {
        match state {
            CacheSwap::RemoveLeftover => CacheFiles { copy: None, ..files },
            CacheSwap::RemoveCopy => CacheFiles { copy: None, ..files },
            CacheSwap::SetAside => CacheFiles { primary: None, copy: files.primary, ..files },
            CacheSwap::Publish { .. } => CacheFiles {
                primary: files.temporary,
                temporary: None,
                ..files
            },
            CacheSwap::PutBack => CacheFiles { primary: files.copy, copy: None, ..files },
            _ => files,
        }
    }
}

/// What came of a step is true of the files: a file that is said to be missing
/// is missing, and one that is said to be there is.
pub open spec fn event_fits(state: CacheSwap, event: SwapEvent, files: CacheFiles) -> bool {
    match state {
        CacheSwap::RemoveLeftover | CacheSwap::RemoveCopy => event == SwapEvent::Missing
            ==> files.copy is None,
        CacheSwap::FindOld => if event == SwapEvent::Done {
            files.primary is Some
        } else {
            files.primary is None
        },
        _ => event != SwapEvent::Missing,
    }
}

/// What holds of the files before a step, where there was an `old` checkpoint
/// or none, and a `new` one is written.
pub open spec fn swap_invariant(
    state: CacheSwap,
    files: CacheFiles,
    old_cache: Option<Seq<u8>>,
    new_cache: Seq<u8>,
) -> bool {
    match state {
        CacheSwap::RemoveLeftover => files.primary == old_cache && files.temporary == Some(
            new_cache,
        ),
        CacheSwap::FindOld => files.primary == old_cache && files.temporary == Some(new_cache)
            && files.copy is None,
        CacheSwap::SetAside => old_cache is Some && files.primary == old_cache && files.temporary
            == Some(new_cache) && files.copy is None,
        CacheSwap::Publish { set_aside } => files.primary is None && files.temporary == Some(
            new_cache,
        ) && files.copy == old_cache && set_aside == (old_cache is Some),
        CacheSwap::PutBack => files.primary is None && files.temporary == Some(new_cache)
            && files.copy == old_cache && old_cache is Some,
        CacheSwap::RemoveCopy => files.primary == Some(new_cache) && (files.copy is None
            || files.copy == old_cache),
        CacheSwap::Done => files.primary == Some(new_cache) && files.copy is None,
        CacheSwap::Failed => files.primary == Some(new_cache) || files.temporary == Some(new_cache)
            && (files.primary == old_cache || files.primary is None && files.copy == old_cache),
    }
}

/// Whatever comes of the steps, each leaves the files as the next one expects
/// them.
pub proof fn law_swap_steps(
    state: CacheSwap,
    event: SwapEvent,
    files: CacheFiles,
    old_cache: Option<Seq<u8>>,
    new_cache: Seq<u8>,
)
    requires
        swap_invariant(state, files, old_cache, new_cache),
        event_fits(state, event, files),
    ensures
        swap_invariant(
            swap_next(state, event),
            files_after(state, event, files),
            old_cache,
            new_cache,
        ),
{
}

/// At every moment the new checkpoint is in one of the files, and so is the
/// old one until the new one is in its place: wherever the work is broken off,
/// the one or the other can be read.
pub proof fn law_no_checkpoint_is_lost(
    state: CacheSwap,
    files: CacheFiles,
    old_cache: Option<Seq<u8>>,
    new_cache: Seq<u8>,
)
    requires
        swap_invariant(state, files, old_cache, new_cache),
    ensures
        files.primary == Some(new_cache) || files.temporary == Some(new_cache),
        files.primary != Some(new_cache) ==> files.primary == old_cache || files.copy == old_cache,
{
}

// ---------------------------------------------------------------------------
// Looking for a checkpoint.

/// The files of a checkpoint.
#[derive(Clone, Copy, Debug, PartialEq, Eq, Structural)]
pub enum CacheFile {
    Primary,
    Temporary,
    Copy,
}

/// The order in which a checkpoint is looked for: the file behind the one that
/// was tried last.
pub open spec fn file_behind(tried: Option<CacheFile>) -> Option<CacheFile> {
    match tried {
        None => Some(CacheFile::Primary),
        Some(CacheFile::Primary) => Some(CacheFile::Temporary),
        Some(CacheFile::Temporary) => Some(CacheFile::Copy),
        Some(CacheFile::Copy) => None,
    }
}

/// The file to try next; `None` where all have been tried.
pub fn next_candidate(tried: Option<CacheFile>) -> (next: Option<CacheFile>)
    ensures
        next == file_behind(tried),
{
    match tried {
        None => Some(CacheFile::Primary),
        Some(CacheFile::Primary) => Some(CacheFile::Temporary),
        Some(CacheFile::Temporary) => Some(CacheFile::Copy),
        Some(CacheFile::Copy) => None,
    }
}

impl CacheFiles {
    pub open spec fn held(self, file: CacheFile) -> Option<Seq<u8>> {
        match file {
            CacheFile::Primary => self.primary,
            CacheFile::Temporary => self.temporary,
            CacheFile::Copy => self.copy,
        }
    }
}

pub open spec fn files_left(tried: Option<CacheFile>) -> nat {
    match tried {
        None => 3,
        Some(CacheFile::Primary) => 2,
        Some(CacheFile::Temporary) => 1,
        Some(CacheFile::Copy) => 0,
    }
}

/// The first checkpoint behind the file that was tried last that is there and
/// can be used.
pub open spec fn found_behind(
    files: CacheFiles,
    usable: spec_fn(Seq<u8>) -> bool,
    tried: Option<CacheFile>,
) -> Option<Seq<u8>>
    decreases files_left(tried),
{
    match file_behind(tried) {
        None => None,
        Some(file) => match files.held(file) {
            Some(bytes) if usable(bytes) => Some(bytes),
            _ => found_behind(files, usable, Some(file)),
        },
    }
}

/// Wherever the work is broken off, the old checkpoint or the new one is found
/// again, where the new one can be used.
pub proof fn law_broken_swap_is_recovered(
    state: CacheSwap,
    files: CacheFiles,
    old_cache: Option<Seq<u8>>,
    new_cache: Seq<u8>,
    usable: spec_fn(Seq<u8>) -> bool,
)
    requires
        swap_invariant(state, files, old_cache, new_cache),
        usable(new_cache),
    ensures
        found_behind(files, usable, None) matches Some(found) && usable(found) && (found
            == new_cache || old_cache == Some(found)),
{
    reveal_with_fuel(found_behind, 4);
}

} // verus!
