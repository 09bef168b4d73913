use cshell::migration::{
    backup_names, check_backup, check_database, check_restore, journal_names, plan_migration,
    restore_name, MigrationPlan, StorageError, SCHEMA_VERSION,
};
use cshell::profiles::{
    can_keep, check_commit, check_update, load_catalog, write_catalog, CatalogRows,
    CatalogSnapshot, LocalConnectionRecord, ProfileFolder, ProfileKind, ProfileRecord,
    ProfileRepositoryError, SshAgentBackend, SshAuthMethod, SshConnectionRecord, TagRow,
    TerminalDefaults, TerminalOverrides,
};

fn plain() -> TerminalOverrides {
    TerminalOverrides { terminal_type: None, theme: None, logging: None }
}

fn profile(id: u128, name: &str, folder_id: Option<u128>) -> ProfileRecord {
    ProfileRecord {
        id,
        name: name.to_owned(),
        kind: ProfileKind::Ssh,
        folder_id,
        tags: vec!["ops".to_owned(), "production".to_owned()],
        favorite: true,
        terminal: plain(),
    }
}

fn catalog() -> CatalogSnapshot {
    let mut child = ProfileFolder {
        id: 2,
        name: "Production".to_owned(),
        parent_id: Some(1),
        terminal: plain(),
    };
    child.terminal.logging = Some(true);
    let mut parent =
        ProfileFolder { id: 1, name: "Shared".to_owned(), parent_id: None, terminal: plain() };
    parent.terminal.theme = Some("dark".to_owned());
    let mut local = profile(11, "local", None);
    local.kind = ProfileKind::Local;
    local.favorite = false;
    local.tags = Vec::new();
    CatalogSnapshot {
        revision: 4,
        defaults: TerminalDefaults {
            terminal_type: "xterm-256color".to_owned(),
            theme: "default".to_owned(),
            logging: false,
        },
        folders: vec![parent, child],
        profiles: vec![profile(10, "web-01", Some(2)), local],
        ssh_connections: vec![SshConnectionRecord {
            profile_id: 10,
            host: "server.example.com".to_owned(),
            port: 2222,
            username: "alice".to_owned(),
            auth_method: SshAuthMethod::Certificate,
            private_key_path: Some("/keys/server".to_owned()),
            certificate_path: Some("/keys/server-cert.pub".to_owned()),
            agent_backend: SshAgentBackend::Auto,
            agent_identity: None,
            route: "{}".to_owned(),
        }],
        local_connections: vec![LocalConnectionRecord {
            profile_id: 11,
            configuration: "{\"program\":\"/shell\"}".to_owned(),
        }],
    }
}

fn corrupt(change: impl Fn(&mut CatalogRows)) -> bool {
    let mut rows = write_catalog(&catalog());
    change(&mut rows);
    matches!(load_catalog(&rows), Err(ProfileRepositoryError::Corrupt))
}

#[test]
fn catalog_round_trip_preserves_tags_and_inheritance() {
    let written = catalog();
    assert!(can_keep(&written));
    let rows = write_catalog(&written);
    assert_eq!(rows.profiles[0].id, "00000000-0000-0000-0000-00000000000a");
    assert_eq!(rows.tags.len(), 2);
    let read = load_catalog(&rows).unwrap();
    assert_eq!(format!("{read:?}"), format!("{written:?}"));
}

#[test]
fn malformed_rows_are_refused() {
    assert!(!corrupt(|_| {}));
    assert!(corrupt(|rows| rows.meta.revision = -1));
    assert!(corrupt(|rows| rows.meta.logging = 2));
    assert!(corrupt(|rows| rows.folders[0].id = "no id".to_owned()));
    assert!(corrupt(|rows| rows.folders[1].parent_id = Some("no id".to_owned())));
    assert!(corrupt(|rows| rows.folders[1].terminal.logging = Some(5)));
    assert!(corrupt(|rows| rows.profiles[0].kind = 2));
    assert!(corrupt(|rows| rows.profiles[0].favorite = 9));
    assert!(corrupt(|rows| rows.tags[0].profile_id = rows.folders[0].id.clone()));
    assert!(corrupt(|rows| rows.ssh_connections[0].port = 65_536));
    assert!(corrupt(|rows| rows.ssh_connections[0].auth_method = 4));
    assert!(corrupt(|rows| rows.ssh_connections[0].agent_backend = 3));
    assert!(corrupt(|rows| rows.local_connections[0].profile_id = String::new()));
}

#[test]
fn repeated_tags_are_taken_once() {
    let mut rows = write_catalog(&catalog());
    let again = TagRow {
        profile_id: rows.profiles[0].id.to_uppercase(),
        tag: "ops".to_owned(),
    };
    rows.tags.push(again);
    assert_eq!(load_catalog(&rows).unwrap().profiles[0].tags, ["ops", "production"]);
}

#[test]
fn catalogs_that_cannot_be_kept_are_told() {
    let mut twice = catalog();
    twice.profiles[1].id = 10;
    assert!(!can_keep(&twice));
    let mut tagged = catalog();
    tagged.profiles[0].tags = vec!["a".to_owned(), "a".to_owned()];
    assert!(!can_keep(&tagged));
    let mut late = catalog();
    late.revision = u64::MAX;
    assert!(!can_keep(&late));
}

#[test]
fn compare_and_swap_rejects_stale_writer() {
    assert_eq!(check_commit(0, 1, true), Ok((1, 0)));
    assert_eq!(check_commit(0, 2, true), Err(ProfileRepositoryError::Corrupt));
    assert_eq!(check_commit(0, 1, false), Err(ProfileRepositoryError::Corrupt));
    assert_eq!(check_commit(u64::MAX, 0, true), Err(ProfileRepositoryError::Corrupt));
    let last = i64::MAX as u64;
    assert_eq!(check_commit(last, last + 1, true), Err(ProfileRepositoryError::Corrupt));
    assert_eq!(check_update(1), Ok(()));
    assert_eq!(check_update(0), Err(ProfileRepositoryError::Conflict));
}

#[test]
fn older_databases_are_copied_and_brought_up() {
    for version in 0..SCHEMA_VERSION {
        assert_eq!(
            plan_migration(version, true),
            Ok(MigrationPlan { backup: true, from: version })
        );
    }
    assert_eq!(plan_migration(0, false), Ok(MigrationPlan { backup: false, from: 0 }));
    assert_eq!(plan_migration(6, true), Ok(MigrationPlan { backup: false, from: 6 }));
}

#[test]
fn future_schema_is_not_downgraded() {
    assert_eq!(plan_migration(7, true), Err(StorageError::UnsupportedSchema(7)));
    assert_eq!(plan_migration(-1, true), Err(StorageError::UnsupportedSchema(-1)));
}

#[test]
fn bad_copies_are_rejected() {
    assert_eq!(check_database("ok"), Ok(()));
    assert_eq!(check_database("row missing"), Err(StorageError::CorruptDatabase));
    assert_eq!(check_backup("ok", 3), Ok(()));
    assert_eq!(check_backup("ok", 7), Err(StorageError::CorruptBackup));
    assert_eq!(check_backup("broken", 1), Err(StorageError::CorruptBackup));
    assert_eq!(check_restore(true, false), Err(StorageError::InvalidPath));
    assert_eq!(check_restore(false, true), Err(StorageError::LiveJournal));
    assert_eq!(check_restore(false, false), Ok(()));
}

#[test]
fn names_of_copies_tell_their_database() {
    assert_eq!(
        backup_names("cshell.db", "7"),
        ("cshell.db.backup-7.sqlite".to_owned(), "cshell.db.backup-7.tmp".to_owned())
    );
    assert_eq!(restore_name("cshell.db", "7"), "cshell.db.restore-7.tmp");
    assert_eq!(journal_names("a.db"), ("a.db-wal".to_owned(), "a.db-shm".to_owned()));
}

#[test]
fn tags_rise_whatever_the_order_of_their_rows() {
    let mut rows = write_catalog(&catalog());
    let profile_id = rows.profiles[0].id.clone();
    for tag in ["zebra", "Ops", "ops", "\u{e4}rger", "op"] {
        rows.tags.push(TagRow { profile_id: profile_id.clone(), tag: tag.to_owned() });
    }
    let read = load_catalog(&rows).unwrap();
    let tags = ["Ops", "op", "ops", "production", "zebra", "\u{e4}rger"];
    assert_eq!(read.profiles[0].tags, tags);
    assert!(can_keep(&read));
    let written = write_catalog(&read);
    assert_eq!(written.tags.len(), tags.len());
    for (row, tag) in written.tags.iter().zip(tags) {
        assert_eq!(row.profile_id, profile_id);
        assert_eq!(row.tag, tag);
    }
    let mut falling = catalog();
    falling.profiles[0].tags = vec!["b".to_owned(), "a".to_owned()];
    assert!(!can_keep(&falling));
}
