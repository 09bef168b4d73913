//! The versions of the profile database: what is done to an older one, and
//! when a backup may take its place.
use crate::text::{join, same_text};
use vstd::prelude::*;

verus! {

/// The version that is read and written.
pub const SCHEMA_VERSION: i64 = 6;

#[derive(Clone, Copy, Debug, PartialEq, Eq, Structural)]
pub enum StorageError {
    InvalidPath,
    UnsupportedSchema(i64),
    CorruptDatabase,
    CorruptBackup,
    LiveJournal,
}

/// What is done to a database when it is opened.
#[derive(Clone, Copy, Debug, PartialEq, Eq, Structural)]
pub struct MigrationPlan {
    /// A copy is made first.
    pub backup: bool,
    /// The version that it is brought up from; the present one needs nothing.
    pub from: i64,
}

/// What is done to a database of a version.
pub open spec fn migration_plan(version: i64, existed: bool) -> Result<
    MigrationPlan,
    StorageError,
> {
    if 0 <= version < SCHEMA_VERSION {
        Ok(MigrationPlan { backup: existed, from: version })
    } else if version == SCHEMA_VERSION {
        Ok(MigrationPlan { backup: false, from: version })
    } else {
        Err(StorageError::UnsupportedSchema(version))
    }
}

/// A backup may be put back where it is whole and of a version that can be
/// opened.
pub open spec fn backup_is_good(check: Seq<char>, version: i64) -> bool {
    check == "ok"@ && 0 <= version <= SCHEMA_VERSION
}

/// Plans what is done to a database of a version. One that is older than the present
/// is copied, unless it was made just now, and brought up; one of any other
/// version is left alone.
pub fn plan_migration(version: i64, existed: bool) -> (plan: Result<MigrationPlan, StorageError>)
    ensures
        plan == migration_plan(version, existed),
{
    if version == SCHEMA_VERSION {
        Ok(MigrationPlan { backup: false, from: version })
    } else if 0 <= version && version < SCHEMA_VERSION {
        Ok(MigrationPlan { backup: existed, from: version })
    } else {
        Err(StorageError::UnsupportedSchema(version))
    }
}

/// The outcome of the integrity check of a database.
pub fn check_database(check: &str) -> (checked: Result<(), StorageError>)
    ensures
        checked == (if check@ == "ok"@ {
            Ok(())
        } else {
            Err(StorageError::CorruptDatabase)
        }),
{
    if same_text(check, "ok") {
        Ok(())
    } else {
        Err(StorageError::CorruptDatabase)
    }
}

pub fn check_backup(check: &str, version: i64) -> (checked: Result<(), StorageError>)
    ensures
        checked == (if backup_is_good(check@, version) {
            Ok(())
        } else {
            Err(StorageError::CorruptBackup)
        }),
{
    if same_text(check, "ok") && 0 <= version && version <= SCHEMA_VERSION {
        Ok(())
    } else {
        Err(StorageError::CorruptBackup)
    }
}

/// A backup may not be put in the place of a database that is in use, nor of
/// itself.
pub fn check_restore(same_file: bool, has_journal: bool) -> (checked: Result<(), StorageError>)
    ensures
        checked == (if same_file {
            Err(StorageError::InvalidPath)
        } else if has_journal {
            Err(StorageError::LiveJournal)
        } else {
            Ok(())
        }),
{
    if same_file {
        Err(StorageError::InvalidPath)
    } else if has_journal {
        Err(StorageError::LiveJournal)
    } else {
        Ok(())
    }
}

/// The files beside a database that is in use.
pub fn journal_names(database: &str) -> (names: (String, String))
    ensures
        names.0@ == database@ + "-wal"@,
        names.1@ == database@ + "-shm"@,
{
    (join(database, "-wal"), join(database, "-shm"))
}

/// The names of a backup, and of the file that it is written to first.
pub fn backup_names(file_name: &str, id: &str) -> (names: (String, String))
    ensures
        names.0@ == file_name@ + ".backup-"@ + id@ + ".sqlite"@,
        names.1@ == file_name@ + ".backup-"@ + id@ + ".tmp"@,
{
    let start = join(join(file_name, ".backup-").as_str(), id);
    (join(start.as_str(), ".sqlite"), join(start.as_str(), ".tmp"))
}

/// The name of the file that a database is restored to first.
pub fn restore_name(file_name: &str, id: &str) -> (name: String)
    ensures
        name@ == file_name@ + ".restore-"@ + id@ + ".tmp"@,
{
    join(join(join(file_name, ".restore-").as_str(), id).as_str(), ".tmp")
}

/// A database that was put back from a backup opens: its version is one that
/// is read or brought up.
pub proof fn law_restored_database_opens(check: Seq<char>, version: i64, existed: bool)
    requires
        backup_is_good(check, version),
    ensures
        migration_plan(version, existed) is Ok,
{
}

/// A database that was there before is changed only after it was copied.
pub proof fn law_nothing_is_changed_without_a_copy(version: i64, plan: MigrationPlan)
    requires
        migration_plan(version, true) == Ok::<_, StorageError>(plan),
    ensures
        plan.from != SCHEMA_VERSION ==> plan.backup,
{
}

} // verus!
