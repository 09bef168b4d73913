//! The catalog of profiles and the rows of a database that it is kept in.
use crate::outside::{read_uuid, uuid_of, uuid_text, write_uuid};
use crate::text::{
    comes_before, lemma_before_follows, lemma_before_or_behind, lemma_not_before_itself, rising,
    same_text, string_views, text_before,
};
use std::collections::HashMap;
use vstd::prelude::*;

verus! {

broadcast use vstd::std_specs::hash::group_hash_axioms;

#[derive(Clone, Copy, Debug, PartialEq, Eq, Structural)]
pub enum ProfileRepositoryError {
    Unavailable,
    Conflict,
    Corrupt,
}

#[derive(Clone, Copy, Debug, PartialEq, Eq, Structural)]
pub enum ProfileKind {
    Ssh,
    Local,
}

#[derive(Clone, Copy, Debug, PartialEq, Eq, Structural)]
pub enum SshAuthMethod {
    Password,
    PrivateKey,
    Certificate,
    Agent,
}

#[derive(Clone, Copy, Debug, PartialEq, Eq, Structural)]
pub enum SshAgentBackend {
    Auto,
    OpenSsh,
    Pageant,
}

#[derive(Clone, Debug)]
pub struct TerminalDefaults {
    pub terminal_type: String,
    pub theme: String,
    pub logging: bool,
}

#[derive(Clone, Debug)]
pub struct TerminalOverrides {
    pub terminal_type: Option<String>,
    pub theme: Option<String>,
    pub logging: Option<bool>,
}

#[derive(Clone, Debug)]
pub struct ProfileFolder {
    pub id: u128,
    pub name: String,
    pub parent_id: Option<u128>,
    pub terminal: TerminalOverrides,
}

#[derive(Clone, Debug)]
pub struct ProfileRecord {
    pub id: u128,
    pub name: String,
    pub kind: ProfileKind,
    pub folder_id: Option<u128>,
    /// In rising order, none twice.
    pub tags: Vec<String>,
    pub favorite: bool,
    pub terminal: TerminalOverrides,
}

#[derive(Clone, Debug)]
pub struct SshConnectionRecord {
    pub profile_id: u128,
    pub host: String,
    pub port: u16,
    pub username: String,
    pub auth_method: SshAuthMethod,
    pub private_key_path: Option<String>,
    pub certificate_path: Option<String>,
    pub agent_backend: SshAgentBackend,
    pub agent_identity: Option<String>,
    /// The way to the host, as JSON.
    pub route: String,
}

#[derive(Clone, Debug)]
pub struct LocalConnectionRecord {
    pub profile_id: u128,
    /// What is started and how, as JSON.
    pub configuration: String,
}

#[derive(Clone, Debug)]
pub struct CatalogSnapshot {
    pub revision: u64,
    pub defaults: TerminalDefaults,
    pub folders: Vec<ProfileFolder>,
    pub profiles: Vec<ProfileRecord>,
    pub ssh_connections: Vec<SshConnectionRecord>,
    pub local_connections: Vec<LocalConnectionRecord>,
}

// ---------------------------------------------------------------------------
// Rows.

#[derive(Clone, Debug)]
pub struct MetaRow {
    pub revision: i64,
    pub terminal_type: String,
    pub theme: String,
    pub logging: i64,
}

#[derive(Clone, Debug)]
pub struct OverridesRow {
    pub terminal_type: Option<String>,
    pub theme: Option<String>,
    pub logging: Option<i64>,
}

#[derive(Clone, Debug)]
pub struct FolderRow {
    pub id: String,
    pub name: String,
    pub parent_id: Option<String>,
    pub terminal: OverridesRow,
}

#[derive(Clone, Debug)]
pub struct ProfileRow {
    pub id: String,
    pub name: String,
    pub kind: i64,
    pub folder_id: Option<String>,
    pub favorite: i64,
    pub terminal: OverridesRow,
}

#[derive(Clone, Debug)]
pub struct TagRow {
    pub profile_id: String,
    pub tag: String,
}

#[derive(Clone, Debug)]
pub struct SshConnectionRow {
    pub profile_id: String,
    pub host: String,
    pub port: i64,
    pub username: String,
    pub auth_method: i64,
    pub private_key_path: Option<String>,
    pub certificate_path: Option<String>,
    pub agent_backend: i64,
    pub agent_identity: Option<String>,
    pub route: String,
}

#[derive(Clone, Debug)]
pub struct LocalConnectionRow {
    pub profile_id: String,
    pub configuration: String,
}

/// All rows of a database.
#[derive(Clone, Debug)]
pub struct CatalogRows {
    pub meta: MetaRow,
    pub folders: Vec<FolderRow>,
    pub profiles: Vec<ProfileRow>,
    pub tags: Vec<TagRow>,
    pub ssh_connections: Vec<SshConnectionRow>,
    pub local_connections: Vec<LocalConnectionRow>,
}

// ---------------------------------------------------------------------------
// Models.

#[verifier::ext_equal]
pub struct OverridesModel {
    pub terminal_type: Option<Seq<char>>,
    pub theme: Option<Seq<char>>,
    pub logging: Option<bool>,
}

#[verifier::ext_equal]
pub struct FolderModel {
    pub id: u128,
    pub name: Seq<char>,
    pub parent_id: Option<u128>,
    pub terminal: OverridesModel,
}

#[verifier::ext_equal]
pub struct ProfileModel {
    pub id: u128,
    pub name: Seq<char>,
    pub kind: ProfileKind,
    pub folder_id: Option<u128>,
    pub tags: Seq<Seq<char>>,
    pub favorite: bool,
    pub terminal: OverridesModel,
}

#[verifier::ext_equal]
pub struct SshConnectionModel {
    pub profile_id: u128,
    pub host: Seq<char>,
    pub port: u16,
    pub username: Seq<char>,
    pub auth_method: SshAuthMethod,
    pub private_key_path: Option<Seq<char>>,
    pub certificate_path: Option<Seq<char>>,
    pub agent_backend: SshAgentBackend,
    pub agent_identity: Option<Seq<char>>,
    pub route: Seq<char>,
}

#[verifier::ext_equal]
pub struct DefaultsModel {
    pub terminal_type: Seq<char>,
    pub theme: Seq<char>,
    pub logging: bool,
}

#[verifier::ext_equal]
pub struct SnapshotModel {
    pub revision: u64,
    pub defaults: DefaultsModel,
    pub folders: Seq<FolderModel>,
    pub profiles: Seq<ProfileModel>,
    pub ssh_connections: Seq<SshConnectionModel>,
    pub local_connections: Seq<(u128, Seq<char>)>,
}

pub open spec fn optional_text(text: Option<String>) -> Option<Seq<char>> {
    match text {
        Some(text) => Some(text@),
        None => None,
    }
}

impl View for TerminalDefaults {
    type V = DefaultsModel;

    open spec fn view(&self) -> DefaultsModel {
        DefaultsModel {
            terminal_type: self.terminal_type@,
            theme: self.theme@,
            logging: self.logging,
        }
    }
}

impl View for TerminalOverrides {
    type V = OverridesModel;

    open spec fn view(&self) -> OverridesModel {
        OverridesModel {
            terminal_type: optional_text(self.terminal_type),
            theme: optional_text(self.theme),
            logging: self.logging,
        }
    }
}

impl View for ProfileFolder {
    type V = FolderModel;

    open spec fn view(&self) -> FolderModel {
        FolderModel {
            id: self.id,
            name: self.name@,
            parent_id: self.parent_id,
            terminal: self.terminal@,
        }
    }
}

impl View for ProfileRecord {
    type V = ProfileModel;

    open spec fn view(&self) -> ProfileModel {
        ProfileModel {
            id: self.id,
            name: self.name@,
            kind: self.kind,
            folder_id: self.folder_id,
            tags: string_views(self.tags@),
            favorite: self.favorite,
            terminal: self.terminal@,
        }
    }
}

impl View for SshConnectionRecord {
    type V = SshConnectionModel;

    open spec fn view(&self) -> SshConnectionModel {
        SshConnectionModel {
            profile_id: self.profile_id,
            host: self.host@,
            port: self.port,
            username: self.username@,
            auth_method: self.auth_method,
            private_key_path: optional_text(self.private_key_path),
            certificate_path: optional_text(self.certificate_path),
            agent_backend: self.agent_backend,
            agent_identity: optional_text(self.agent_identity),
            route: self.route@,
        }
    }
}

impl View for CatalogSnapshot {
    type V = SnapshotModel;

    open spec fn view(&self) -> SnapshotModel {
        SnapshotModel {
            revision: self.revision,
            defaults: self.defaults@,
            folders: self.folders@.map_values(|folder: ProfileFolder| folder@),
            profiles: self.profiles@.map_values(|profile: ProfileRecord| profile@),
            ssh_connections: self.ssh_connections@.map_values(
                |connection: SshConnectionRecord| connection@,
            ),
            local_connections: self.local_connections@.map_values(
                |connection: LocalConnectionRecord|
                    (connection.profile_id, connection.configuration@),
            ),
        }
    }
}

// ---------------------------------------------------------------------------
// Columns.

/// A truth value as it is kept; none where the column holds something else.
pub open spec fn bool_of(value: i64) -> Option<bool> {
    if value == 0 {
        Some(false)
    } else if value == 1 {
        Some(true)
    } else {
        None
    }
}

pub open spec fn kind_of(value: i64) -> Option<ProfileKind> {
    if value == 0 {
        Some(ProfileKind::Ssh)
    } else if value == 1 {
        Some(ProfileKind::Local)
    } else {
        None
    }
}

pub open spec fn auth_method_of(value: i64) -> Option<SshAuthMethod> {
    if value == 0 {
        Some(SshAuthMethod::Password)
    } else if value == 1 {
        Some(SshAuthMethod::PrivateKey)
    } else if value == 2 {
        Some(SshAuthMethod::Certificate)
    } else if value == 3 {
        Some(SshAuthMethod::Agent)
    } else {
        None
    }
}

pub open spec fn agent_backend_of(value: i64) -> Option<SshAgentBackend> {
    if value == 0 {
        Some(SshAgentBackend::Auto)
    } else if value == 1 {
        Some(SshAgentBackend::OpenSsh)
    } else if value == 2 {
        Some(SshAgentBackend::Pageant)
    } else {
        None
    }
}

pub fn read_bool(value: i64) -> (read: Result<bool, ProfileRepositoryError>)
    ensures
        match bool_of(value) {
            Some(value) => read == Ok::<_, ProfileRepositoryError>(value),
            None => read == Err::<bool, _>(ProfileRepositoryError::Corrupt),
        },
{
    match value {
        0 => Ok(false),
        1 => Ok(true),
        _ => Err(ProfileRepositoryError::Corrupt),
    }
}

fn write_bool(value: bool) -> (column: i64)
    ensures
        bool_of(column) == Some(value),
{
    if value {
        1
    } else {
        0
    }
}

fn read_kind(value: i64) -> (read: Option<ProfileKind>)
    ensures
        read == kind_of(value),
{
    match value {
        0 => Some(ProfileKind::Ssh),
        1 => Some(ProfileKind::Local),
        _ => None,
    }
}

fn write_kind(kind: ProfileKind) -> (column: i64)
    ensures
        kind_of(column) == Some(kind),
{
    match kind {
        ProfileKind::Ssh => 0,
        ProfileKind::Local => 1,
    }
}

fn read_auth_method(value: i64) -> (read: Option<SshAuthMethod>)
    ensures
        read == auth_method_of(value),
{
    match value {
        0 => Some(SshAuthMethod::Password),
        1 => Some(SshAuthMethod::PrivateKey),
        2 => Some(SshAuthMethod::Certificate),
        3 => Some(SshAuthMethod::Agent),
        _ => None,
    }
}

fn write_auth_method(method: SshAuthMethod) -> (column: i64)
    ensures
        auth_method_of(column) == Some(method),
{
    match method {
        SshAuthMethod::Password => 0,
        SshAuthMethod::PrivateKey => 1,
        SshAuthMethod::Certificate => 2,
        SshAuthMethod::Agent => 3,
    }
}

fn read_agent_backend(value: i64) -> (read: Option<SshAgentBackend>)
    ensures
        read == agent_backend_of(value),
{
    match value {
        0 => Some(SshAgentBackend::Auto),
        1 => Some(SshAgentBackend::OpenSsh),
        2 => Some(SshAgentBackend::Pageant),
        _ => None,
    }
}

fn write_agent_backend(backend: SshAgentBackend) -> (column: i64)
    ensures
        agent_backend_of(column) == Some(backend),
{
    match backend {
        SshAgentBackend::Auto => 0,
        SshAgentBackend::OpenSsh => 1,
        SshAgentBackend::Pageant => 2,
    }
}

fn copy_text(text: &Option<String>) -> (copy: Option<String>)
    ensures
        optional_text(copy) == optional_text(*text),
{
    match text {
        Some(text) => Some(text.clone()),
        None => None,
    }
}

/// An identifier that may be missing: missing, well formed, or not.
pub open spec fn optional_id(text: Option<String>) -> Option<Option<u128>> {
    match text {
        None => Some(None),
        Some(text) => match uuid_of(text@) {
            Some(id) => Some(Some(id)),
            None => None,
        },
    }
}

fn read_optional_id(text: &Option<String>) -> (id: Option<Option<u128>>)
    ensures
        id == optional_id(*text),
{
    match text {
        None => Some(None),
        Some(text) => match read_uuid(text.as_str()) {
            Some(id) => Some(Some(id)),
            None => None,
        },
    }
}

fn write_optional_id(id: Option<u128>) -> (text: Option<String>)
    ensures
        optional_id(text) == Some(id),
        optional_text(text) == (match id {
            Some(id) => Some(uuid_text(id)),
            None => None,
        }),
{
    match id {
        Some(id) => Some(write_uuid(id)),
        None => None,
    }
}

pub open spec fn overrides_of(row: OverridesRow) -> Option<OverridesModel> {
    let terminal_type = optional_text(row.terminal_type);
    let theme = optional_text(row.theme);
    match row.logging {
        None => Some(OverridesModel { terminal_type, theme, logging: None }),
        Some(value) => match bool_of(value) {
            Some(value) => Some(OverridesModel { terminal_type, theme, logging: Some(value) }),
            None => None,
        },
    }
}

pub fn read_overrides(row: &OverridesRow) -> (read: Result<
    TerminalOverrides,
    ProfileRepositoryError,
>)
    ensures
        match overrides_of(*row) {
            Some(model) => read matches Ok(read) && read@ == model,
            None => read == Err::<TerminalOverrides, _>(ProfileRepositoryError::Corrupt),
        },
{
    let logging = match row.logging {
        None => None,
        Some(value) => match read_bool(value) {
            Ok(value) => Some(value),
            Err(error) => return Err(error),
        },
    };
    Ok(
        TerminalOverrides {
            terminal_type: copy_text(&row.terminal_type),
            theme: copy_text(&row.theme),
            logging,
        },
    )
}

fn write_overrides(terminal: &TerminalOverrides) -> (row: OverridesRow)
    ensures
        overrides_of(row) == Some(terminal@),
{
    OverridesRow {
        terminal_type: copy_text(&terminal.terminal_type),
        theme: copy_text(&terminal.theme),
        logging: match terminal.logging {
            Some(value) => Some(write_bool(value)),
            None => None,
        },
    }
}

// ---------------------------------------------------------------------------
// Records.

pub open spec fn folder_of(row: FolderRow) -> Option<FolderModel> {
    match (uuid_of(row.id@), optional_id(row.parent_id), overrides_of(row.terminal)) {
        (Some(id), Some(parent_id), Some(terminal)) => Some(
            FolderModel { id, name: row.name@, parent_id, terminal },
        ),
        _ => None,
    }
}

pub fn read_folder(row: &FolderRow) -> (read: Result<ProfileFolder, ProfileRepositoryError>)
    ensures
        match folder_of(*row) {
            Some(model) => read matches Ok(read) && read@ == model,
            None => read == Err::<ProfileFolder, _>(ProfileRepositoryError::Corrupt),
        },
{
    match (read_uuid(row.id.as_str()), read_optional_id(&row.parent_id), read_overrides(
        &row.terminal,
    )) {
        (Some(id), Some(parent_id), Ok(terminal)) => Ok(
            ProfileFolder { id, name: row.name.clone(), parent_id, terminal },
        ),
        _ => Err(ProfileRepositoryError::Corrupt),
    }
}

pub fn write_folder(folder: &ProfileFolder) -> (row: FolderRow)
    ensures
        folder_of(row) == Some(folder@),
        row.id@ == uuid_text(folder.id),
{
    FolderRow {
        id: write_uuid(folder.id),
        name: folder.name.clone(),
        parent_id: write_optional_id(folder.parent_id),
        terminal: write_overrides(&folder.terminal),
    }
}

/// A profile, without its tags.
pub open spec fn profile_of(row: ProfileRow) -> Option<ProfileModel> {
    match (
        uuid_of(row.id@),
        kind_of(row.kind),
        optional_id(row.folder_id),
        bool_of(row.favorite),
        overrides_of(row.terminal),
    ) {
        (Some(id), Some(kind), Some(folder_id), Some(favorite), Some(terminal)) => Some(
            ProfileModel {
                id,
                name: row.name@,
                kind,
                folder_id,
                tags: Seq::empty(),
                favorite,
                terminal,
            },
        ),
        _ => None,
    }
}

/// The profile of a row, without its tags.
pub fn read_profile(row: &ProfileRow) -> (read: Result<ProfileRecord, ProfileRepositoryError>)
    ensures
        match profile_of(*row) {
            Some(model) => read matches Ok(read) && read@ == model,
            None => read == Err::<ProfileRecord, _>(ProfileRepositoryError::Corrupt),
        },
{
    match (
        read_uuid(row.id.as_str()),
        read_kind(row.kind),
        read_optional_id(&row.folder_id),
        read_bool(row.favorite),
        read_overrides(&row.terminal),
    ) {
        (Some(id), Some(kind), Some(folder_id), Ok(favorite), Ok(terminal)) => {
            let tags: Vec<String> = Vec::new();
            assert(string_views(tags@) =~= Seq::empty());
            Ok(
                ProfileRecord {
                    id,
                    name: row.name.clone(),
                    kind,
                    folder_id,
                    tags,
                    favorite,
                    terminal,
                },
            )
        },
        _ => Err(ProfileRepositoryError::Corrupt),
    }
}

/// The row of a profile; its tags have rows of their own.
pub fn write_profile(profile: &ProfileRecord) -> (row: ProfileRow)
    ensures
        profile_of(row) == Some(ProfileModel { tags: Seq::empty(), ..profile@ }),
        row.id@ == uuid_text(profile.id),
{
    ProfileRow {
        id: write_uuid(profile.id),
        name: profile.name.clone(),
        kind: write_kind(profile.kind),
        folder_id: write_optional_id(profile.folder_id),
        favorite: write_bool(profile.favorite),
        terminal: write_overrides(&profile.terminal),
    }
}

pub open spec fn ssh_connection_of(row: SshConnectionRow) -> Option<SshConnectionModel> {
    match (
        uuid_of(row.profile_id@),
        auth_method_of(row.auth_method),
        agent_backend_of(row.agent_backend),
    ) {
        (Some(profile_id), Some(auth_method), Some(agent_backend)) if 0 <= row.port <= 65535 =>
            Some(
            SshConnectionModel {
                profile_id,
                host: row.host@,
                port: row.port as u16,
                username: row.username@,
                auth_method,
                private_key_path: optional_text(row.private_key_path),
                certificate_path: optional_text(row.certificate_path),
                agent_backend,
                agent_identity: optional_text(row.agent_identity),
                route: row.route@,
            },
        ),
        _ => None,
    }
}

pub fn read_ssh_connection(row: &SshConnectionRow) -> (read: Result<
    SshConnectionRecord,
    ProfileRepositoryError,
>)
    ensures
        match ssh_connection_of(*row) {
            Some(model) => read matches Ok(read) && read@ == model,
            None => read == Err::<SshConnectionRecord, _>(ProfileRepositoryError::Corrupt),
        },
{
    if row.port < 0 || row.port > 65535 {
        return Err(ProfileRepositoryError::Corrupt);
    }
    match (
        read_uuid(row.profile_id.as_str()),
        read_auth_method(row.auth_method),
        read_agent_backend(row.agent_backend),
    ) {
        (Some(profile_id), Some(auth_method), Some(agent_backend)) => Ok(
            SshConnectionRecord {
                profile_id,
                host: row.host.clone(),
                port: row.port as u16,
                username: row.username.clone(),
                auth_method,
                private_key_path: copy_text(&row.private_key_path),
                certificate_path: copy_text(&row.certificate_path),
                agent_backend,
                agent_identity: copy_text(&row.agent_identity),
                route: row.route.clone(),
            },
        ),
        _ => Err(ProfileRepositoryError::Corrupt),
    }
}

pub fn write_ssh_connection(connection: &SshConnectionRecord) -> (row: SshConnectionRow)
    ensures
        ssh_connection_of(row) == Some(connection@),
        row.profile_id@ == uuid_text(connection.profile_id),
{
    SshConnectionRow {
        profile_id: write_uuid(connection.profile_id),
        host: connection.host.clone(),
        port: connection.port as i64,
        username: connection.username.clone(),
        auth_method: write_auth_method(connection.auth_method),
        private_key_path: copy_text(&connection.private_key_path),
        certificate_path: copy_text(&connection.certificate_path),
        agent_backend: write_agent_backend(connection.agent_backend),
        agent_identity: copy_text(&connection.agent_identity),
        route: connection.route.clone(),
    }
}

// ---------------------------------------------------------------------------
// The catalog.

/// The last place of an identifier.
pub open spec fn last_index(ids: Seq<u128>, id: u128) -> Option<int>
    decreases ids.len(),
{
    if ids.len() == 0 {
        None
    } else if ids.last() == id {
        Some(ids.len() - 1)
    } else {
        last_index(ids.drop_last(), id)
    }
}

/// The place of the profile that a tag belongs to.
pub open spec fn tag_index(row: TagRow, ids: Seq<u128>) -> Option<int> {
    match uuid_of(row.profile_id@) {
        Some(id) => last_index(ids, id),
        None => None,
    }
}

/// Tags in rising order, with one more that takes its place among them unless
/// it is there already.
pub open spec fn with_tag(tags: Seq<Seq<char>>, tag: Seq<char>) -> Seq<Seq<char>>
    decreases tags.len(),
{
    if tags.len() == 0 {
        seq![tag]
    } else if tags.last() == tag {
        tags
    } else if text_before(tags.last(), tag) {
        tags.push(tag)
    } else {
        with_tag(tags.drop_last(), tag).push(tags.last())
    }
}

/// A tag is put behind those that stand before it.
proof fn lemma_with_tag(tags: Seq<Seq<char>>, tag: Seq<char>, place: int)
    requires
        0 <= place <= tags.len(),
        forall|i: int|
            place <= i < tags.len() ==> #[trigger] tags[i] != tag && !text_before(tags[i], tag),
        place > 0 ==> tags[place - 1] == tag || text_before(tags[place - 1], tag),
    ensures
        with_tag(tags, tag) == if place > 0 && tags[place - 1] == tag {
            tags
        } else {
            tags.insert(place, tag)
        },
    decreases tags.len(),
{
    if place < tags.len() {
        let front = tags.drop_last();
        assert(tags[tags.len() - 1] != tag);
        lemma_with_tag(front, tag, place);
        if place > 0 && tags[place - 1] == tag {
            assert(front.push(tags.last()) =~= tags);
        } else {
            assert(front.insert(place, tag).push(tags.last()) =~= tags.insert(place, tag));
        }
    } else if tags.len() > 0 {
        assert(tags.insert(place, tag) =~= tags.push(tag));
    } else {
        assert(tags.insert(place, tag) =~= seq![tag]);
    }
}

/// Tags stay in rising order, and the tag and those that were there are the
/// tags that are there.
proof fn lemma_tags_rise(tags: Seq<Seq<char>>, tag: Seq<char>)
    requires
        rising(tags),
    ensures
        rising(with_tag(tags, tag)),
        with_tag(tags, tag).contains(tag),
        forall|other: Seq<char>|
            tags.contains(other) ==> #[trigger] with_tag(tags, tag).contains(other),
        forall|other: Seq<char>| #[trigger]
            with_tag(tags, tag).contains(other) ==> other == tag || tags.contains(other),
    decreases tags.len(),
{
    let all = with_tag(tags, tag);
    if tags.len() == 0 {
        assert(all[0] == tag);
    } else {
        let front = tags.drop_last();
        let last = tags.last();
        assert(tags[tags.len() - 1] == last);
        if last == tag {
        } else if text_before(last, tag) {
            assert(all[tags.len() as int] == tag);
            assert forall|i: int, j: int| 0 <= i < j < all.len() implies text_before(
                #[trigger] all[i],
                #[trigger] all[j],
            ) by {
                if j == tags.len() && i < tags.len() - 1 {
                    assert(text_before(tags[i], tags[tags.len() - 1]));
                    lemma_before_follows(tags[i], last, tag);
                }
            }
            assert forall|other: Seq<char>| tags.contains(other) implies #[trigger] all.contains(
                other,
            ) by {
                let i = choose|i: int| 0 <= i < tags.len() && tags[i] == other;
                assert(all[i] == other);
            }
        } else {
            assert forall|i: int, j: int| 0 <= i < j < front.len() implies text_before(
                #[trigger] front[i],
                #[trigger] front[j],
            ) by {
                assert(text_before(tags[i], tags[j]));
            }
            lemma_tags_rise(front, tag);
            lemma_before_or_behind(tag, last, 0);
            let more = with_tag(front, tag);
            assert forall|i: int, j: int| 0 <= i < j < all.len() implies text_before(
                #[trigger] all[i],
                #[trigger] all[j],
            ) by {
                if j < more.len() {
                    assert(text_before(more[i], more[j]));
                } else {
                    assert(more.contains(more[i]));
                    if more[i] != tag {
                        let k = choose|k: int| 0 <= k < front.len() && front[k] == more[i];
                        assert(text_before(tags[k], tags[tags.len() - 1]));
                    }
                }
            }
            let at = choose|i: int| 0 <= i < more.len() && more[i] == tag;
            assert(all[at] == tag);
            assert forall|other: Seq<char>| tags.contains(other) implies #[trigger] all.contains(
                other,
            ) by {
                let i = choose|i: int| 0 <= i < tags.len() && tags[i] == other;
                if i < front.len() {
                    assert(front[i] == other);
                    assert(more.contains(other));
                    let k = choose|k: int| 0 <= k < more.len() && more[k] == other;
                    assert(all[k] == other);
                } else {
                    assert(all[all.len() - 1] == other);
                }
            }
            assert forall|other: Seq<char>| #[trigger] all.contains(other) implies other == tag
                || tags.contains(other) by {
                let i = choose|i: int| 0 <= i < all.len() && all[i] == other;
                if i < more.len() {
                    assert(more[i] == other);
                    assert(more.contains(other));
                    if other != tag {
                        let k = choose|k: int| 0 <= k < front.len() && front[k] == other;
                        assert(tags[k] == other);
                    }
                } else {
                    assert(tags[tags.len() - 1] == other);
                }
            }
        }
    }
}

/// The tags of the profile at a place, in rising order, each once.
pub open spec fn tags_at(rows: Seq<TagRow>, ids: Seq<u128>, index: int) -> Seq<Seq<char>>
    decreases rows.len(),
{
    if rows.len() == 0 {
        Seq::empty()
    } else {
        let earlier = tags_at(rows.drop_last(), ids, index);
        if tag_index(rows.last(), ids) == Some(index) {
            with_tag(earlier, rows.last().tag@)
        } else {
            earlier
        }
    }
}

/// The tags of a profile rise, and are those of its rows.
pub proof fn law_tags_are_those_of_the_rows(rows: Seq<TagRow>, ids: Seq<u128>, index: int)
    ensures
        rising(tags_at(rows, ids, index)),
        forall|i: int|
            0 <= i < rows.len() && tag_index(#[trigger] rows[i], ids) == Some(index) ==> tags_at(
                rows,
                ids,
                index,
            ).contains(rows[i].tag@),
        forall|tag: Seq<char>| #[trigger]
            tags_at(rows, ids, index).contains(tag) ==> exists|i: int|
                0 <= i < rows.len() && tag_index(#[trigger] rows[i], ids) == Some(index)
                    && rows[i].tag@ == tag,
    decreases rows.len(),
{
    if rows.len() > 0 {
        let front = rows.drop_last();
        law_tags_are_those_of_the_rows(front, ids, index);
        let earlier = tags_at(front, ids, index);
        lemma_tags_rise(earlier, rows.last().tag@);
        assert forall|i: int|
            0 <= i < rows.len() && tag_index(#[trigger] rows[i], ids) == Some(index) implies tags_at(
            rows,
            ids,
            index,
        ).contains(rows[i].tag@) by {
            if i < front.len() {
                assert(front[i] == rows[i]);
                assert(earlier.contains(rows[i].tag@));
            }
        }
        assert forall|tag: Seq<char>| #[trigger]
            tags_at(rows, ids, index).contains(tag) implies exists|i: int|
            0 <= i < rows.len() && tag_index(#[trigger] rows[i], ids) == Some(index)
                && rows[i].tag@ == tag by {
            if earlier.contains(tag) {
                let i = choose|i: int|
                    0 <= i < front.len() && tag_index(#[trigger] front[i], ids) == Some(index)
                        && front[i].tag@ == tag;
                assert(rows[i] == front[i]);
            } else {
                assert(rows[rows.len() - 1].tag@ == tag);
            }
        }
    }
}

/// The identifiers of some rows of profiles.
pub open spec fn profile_ids(rows: Seq<ProfileRow>) -> Seq<u128> {
    rows.map_values(
        |row: ProfileRow|
            match profile_of(row) {
                Some(profile) => profile.id,
                None => 0,
            },
    )
}

/// Every row of a database is well formed, and every tag belongs to a profile.
pub open spec fn rows_are_good(rows: CatalogRows) -> bool {
    &&& rows.meta.revision >= 0
    &&& bool_of(rows.meta.logging) is Some
    &&& forall|i: int|
        0 <= i < rows.folders@.len() ==> folder_of(#[trigger] rows.folders@[i]) is Some
    &&& forall|i: int|
        0 <= i < rows.profiles@.len() ==> profile_of(#[trigger] rows.profiles@[i]) is Some
    &&& forall|i: int|
        0 <= i < rows.tags@.len() ==> tag_index(
            #[trigger] rows.tags@[i],
            profile_ids(rows.profiles@),
        ) is Some
    &&& forall|i: int|
        0 <= i < rows.ssh_connections@.len() ==> ssh_connection_of(
            #[trigger] rows.ssh_connections@[i],
        ) is Some
    &&& forall|i: int|
        0 <= i < rows.local_connections@.len() ==> uuid_of(
            (#[trigger] rows.local_connections@[i]).profile_id@,
        ) is Some
}

/// The rows of a database hold a catalog.
pub open spec fn rows_hold(rows: CatalogRows, catalog: SnapshotModel) -> bool {
    &&& rows.meta.revision == catalog.revision
    &&& catalog.defaults.terminal_type == rows.meta.terminal_type@
    &&& catalog.defaults.theme == rows.meta.theme@
    &&& bool_of(rows.meta.logging) == Some(catalog.defaults.logging)
    &&& catalog.folders.len() == rows.folders@.len()
    &&& forall|i: int|
        0 <= i < catalog.folders.len() ==> folder_of(rows.folders@[i]) == Some(
            #[trigger] catalog.folders[i],
        )
    &&& catalog.profiles.len() == rows.profiles@.len()
    &&& forall|i: int|
        0 <= i < catalog.profiles.len() ==> profile_of(rows.profiles@[i]) == Some(
            ProfileModel { tags: Seq::empty(), ..#[trigger] catalog.profiles[i] },
        )
    &&& forall|i: int|
        0 <= i < catalog.profiles.len() ==> (#[trigger] catalog.profiles[i]).tags == tags_at(
            rows.tags@,
            profile_ids(rows.profiles@),
            i,
        )
    &&& catalog.ssh_connections.len() == rows.ssh_connections@.len()
    &&& forall|i: int|
        0 <= i < catalog.ssh_connections.len() ==> ssh_connection_of(rows.ssh_connections@[i])
            == Some(#[trigger] catalog.ssh_connections[i])
    &&& catalog.local_connections.len() == rows.local_connections@.len()
    &&& forall|i: int|
        0 <= i < catalog.local_connections.len() ==> uuid_of(rows.local_connections@[i].profile_id@)
            == Some((#[trigger] catalog.local_connections[i]).0) && catalog.local_connections[i].1
            == rows.local_connections@[i].configuration@
}

/// A catalog that was written to some rows is the one that is read from them:
/// rows hold no more than one.
pub proof fn law_written_catalog_is_read(
    rows: CatalogRows,
    first: SnapshotModel,
    second: SnapshotModel,
)
    requires
        rows_hold(rows, first),
        rows_hold(rows, second),
    ensures
        first == second,
{
    assert forall|i: int| 0 <= i < first.profiles.len() implies first.profiles[i]
        == second.profiles[i] by {
        let one = first.profiles[i];
        let other = second.profiles[i];
        let empty = ProfileModel { tags: Seq::empty(), ..one };
        assert(empty == ProfileModel { tags: Seq::empty(), ..other });
        assert(one == ProfileModel { tags: one.tags, ..empty });
        assert(other == ProfileModel { tags: other.tags, ..empty });
    }
    assert(first.profiles =~= second.profiles);
    assert forall|i: int| 0 <= i < first.folders.len() implies first.folders[i]
        == second.folders[i] by {}
    assert(first.folders =~= second.folders);
    assert forall|i: int| 0 <= i < first.ssh_connections.len() implies first.ssh_connections[i]
        == second.ssh_connections[i] by {}
    assert(first.ssh_connections =~= second.ssh_connections);
    assert forall|i: int|
        0 <= i < first.local_connections.len() implies first.local_connections[i]
        == second.local_connections[i] by {
        assert(first.local_connections[i].0 == second.local_connections[i].0);
    }
    assert(first.local_connections =~= second.local_connections);
    assert(first.defaults == second.defaults);
}

/// Puts a tag in its place.
fn add_tag(tags: &mut Vec<String>, tag: &str)
    ensures
        string_views(final(tags)@) == with_tag(string_views(old(tags)@), tag@),
{
    let ghost views = string_views(tags@);
    let mut place: usize = tags.len();
    while place > 0 && !comes_before(tags[place - 1].as_str(), tag)
        invariant
            place <= tags@.len(),
            *tags == *old(tags),
            views == string_views(tags@),
            forall|i: int|
                place <= i < views.len() ==> #[trigger] views[i] != tag@ && !text_before(
                    views[i],
                    tag@,
                ),
        decreases place,
    {
        assert(views[place - 1] == tags@[place - 1]@);
        if same_text(tags[place - 1].as_str(), tag) {
            proof {
                lemma_with_tag(views, tag@, place as int);
            }
            return;
        }
        place -= 1;
    }
    proof {
        if place > 0 {
            assert(views[place - 1] == tags@[place - 1]@);
            lemma_not_before_itself(tag@);
        }
        lemma_with_tag(views, tag@, place as int);
    }
    tags.insert(place, tag.to_owned());
    assert(string_views(tags@) =~= views.insert(place as int, tag@));
}

fn read_folders(rows: &Vec<FolderRow>) -> (read: Option<Vec<ProfileFolder>>)
    ensures
        match read {
            Some(read) => {
                &&& read@.len() == rows@.len()
                &&& forall|i: int|
                    0 <= i < rows@.len() ==> folder_of(rows@[i]) == Some((#[trigger] read@[i])@)
            },
            None => exists|i: int|
                0 <= i < rows@.len() && folder_of(#[trigger] rows@[i]) is None,
        },
{
    let mut read: Vec<ProfileFolder> = Vec::new();
    let mut index: usize = 0;
    while index < rows.len()
        invariant
            index <= rows@.len(),
            read@.len() == index,
            forall|i: int| 0 <= i < index ==> folder_of(rows@[i]) == Some((#[trigger] read@[i])@),
        decreases rows@.len() - index,
    {
        match read_folder(&rows[index]) {
            Ok(folder) => read.push(folder),
            Err(_) => {
                assert(folder_of(rows@[index as int]) is None);
                return None;
            },
        }
        index += 1;
    }
    Some(read)
}

fn read_ssh_connections(rows: &Vec<SshConnectionRow>) -> (read: Option<Vec<SshConnectionRecord>>)
    ensures
        match read {
            Some(read) => {
                &&& read@.len() == rows@.len()
                &&& forall|i: int|
                    0 <= i < rows@.len() ==> ssh_connection_of(rows@[i]) == Some(
                        (#[trigger] read@[i])@,
                    )
            },
            None => exists|i: int|
                0 <= i < rows@.len() && ssh_connection_of(#[trigger] rows@[i]) is None,
        },
{
    let mut read: Vec<SshConnectionRecord> = Vec::new();
    let mut index: usize = 0;
    while index < rows.len()
        invariant
            index <= rows@.len(),
            read@.len() == index,
            forall|i: int|
                0 <= i < index ==> ssh_connection_of(rows@[i]) == Some((#[trigger] read@[i])@),
        decreases rows@.len() - index,
    {
        match read_ssh_connection(&rows[index]) {
            Ok(connection) => read.push(connection),
            Err(_) => {
                assert(ssh_connection_of(rows@[index as int]) is None);
                return None;
            },
        }
        index += 1;
    }
    Some(read)
}

fn read_local_connections(rows: &Vec<LocalConnectionRow>) -> (read: Option<
    Vec<LocalConnectionRecord>,
>)
    ensures
        match read {
            Some(read) => {
                &&& read@.len() == rows@.len()
                &&& forall|i: int|
                    0 <= i < rows@.len() ==> uuid_of(rows@[i].profile_id@) == Some(
                        (#[trigger] read@[i]).profile_id,
                    ) && read@[i].configuration@ == rows@[i].configuration@
            },
            None => exists|i: int|
                0 <= i < rows@.len() && uuid_of((#[trigger] rows@[i]).profile_id@) is None,
        },
{
    let mut read: Vec<LocalConnectionRecord> = Vec::new();
    let mut index: usize = 0;
    while index < rows.len()
        invariant
            index <= rows@.len(),
            read@.len() == index,
            forall|i: int|
                0 <= i < index ==> uuid_of(rows@[i].profile_id@) == Some(
                    (#[trigger] read@[i]).profile_id,
                ) && read@[i].configuration@ == rows@[i].configuration@,
        decreases rows@.len() - index,
    {
        match read_uuid(rows[index].profile_id.as_str()) {
            Some(profile_id) => {
                let configuration = rows[index].configuration.clone();
                read.push(LocalConnectionRecord { profile_id, configuration });
            },
            None => {
                assert(uuid_of(rows@[index as int].profile_id@) is None);
                return None;
            },
        }
        index += 1;
    }
    Some(read)
}

/// The places of some identifiers, the last one of each.
pub open spec fn indexes_match(indexes: Map<u128, usize>, ids: Seq<u128>) -> bool {
    forall|id: u128|
        match last_index(ids, id) {
            Some(index) => #[trigger] indexes.contains_key(id) && indexes[id] == index,
            None => !indexes.contains_key(id),
        }
}

proof fn lemma_last_index(ids: Seq<u128>, id: u128)
    ensures
        last_index(ids, id) matches Some(index) ==> 0 <= index < ids.len() && ids[index] == id,
        last_index(ids, id) is None ==> !ids.contains(id),
    decreases ids.len(),
{
    if ids.len() > 0 {
        lemma_last_index(ids.drop_last(), id);
        if last_index(ids, id) is None && ids.contains(id) {
            let i = choose|i: int| 0 <= i < ids.len() && ids[i] == id;
            assert(ids.drop_last()[i] == id);
        }
    }
}

fn read_profiles(rows: &Vec<ProfileRow>) -> (read: Option<
    (Vec<ProfileRecord>, HashMap<u128, usize>),
>)
    ensures
        match read {
            Some((read, indexes)) => {
                &&& read@.len() == rows@.len()
                &&& forall|i: int|
                    0 <= i < rows@.len() ==> profile_of(rows@[i]) == Some((#[trigger] read@[i])@)
                &&& indexes_match(indexes@, profile_ids(rows@))
            },
            None => exists|i: int|
                0 <= i < rows@.len() && profile_of(#[trigger] rows@[i]) is None,
        },
{
    let mut read: Vec<ProfileRecord> = Vec::new();
    let mut indexes: HashMap<u128, usize> = HashMap::new();
    let ghost ids = profile_ids(rows@);
    let mut index: usize = 0;
    assert(ids.take(0) =~= Seq::empty());
    while index < rows.len()
        invariant
            index <= rows@.len(),
            read@.len() == index,
            ids == profile_ids(rows@),
            forall|i: int| 0 <= i < index ==> profile_of(rows@[i]) == Some((#[trigger] read@[i])@),
            indexes_match(indexes@, ids.take(index as int)),
        decreases rows@.len() - index,
    {
        match read_profile(&rows[index]) {
            Ok(profile) => {
                let ghost before = indexes@;
                assert(ids[index as int] == profile.id);
                indexes.insert(profile.id, index);
                read.push(profile);
                proof {
                    assert(ids.take(index + 1).drop_last() =~= ids.take(index as int));
                    assert forall|id: u128|
                        (match last_index(ids.take(index + 1), id) {
                            Some(at) => #[trigger] indexes@.contains_key(id) && indexes@[id] == at,
                            None => !indexes@.contains_key(id),
                        }) by {
                        assert(before.contains_key(id) || !before.contains_key(id));
                    }
                }
            },
            Err(_) => {
                assert(profile_of(rows@[index as int]) is None);
                return None;
            },
        }
        index += 1;
    }
    assert(ids.take(rows@.len() as int) =~= ids);
    Some((read, indexes))
}

/// Gives the profiles their tags; whether every tag belongs to one.
fn read_tags(
    profiles: &mut Vec<ProfileRecord>,
    indexes: &HashMap<u128, usize>,
    rows: &Vec<TagRow>,
    ids: Ghost<Seq<u128>>,
) -> (good: bool)
    requires
        indexes_match(indexes@, ids@),
        old(profiles)@.len() == ids@.len(),
        forall|i: int| 0 <= i < ids@.len() ==> (#[trigger] old(profiles)@[i])@.tags.len() == 0,
    ensures
        final(profiles)@.len() == old(profiles)@.len(),
        good ==> {
            &&& forall|i: int| 0 <= i < rows@.len() ==> tag_index(#[trigger] rows@[i], ids@) is Some
            &&& forall|i: int|
                0 <= i < ids@.len() ==> (#[trigger] final(profiles)@[i])@ == (ProfileModel {
                    tags: tags_at(rows@, ids@, i),
                    ..old(profiles)@[i]@
                })
        },
        !good ==> exists|i: int|
            0 <= i < rows@.len() && tag_index(#[trigger] rows@[i], ids@) is None,
{
    let ghost start = profiles@;
    let mut at: usize = 0;
    proof {
        assert forall|i: int| 0 <= i < ids@.len() implies (#[trigger] profiles@[i])@ == (
        ProfileModel { tags: tags_at(rows@.take(0), ids@, i), ..start[i]@ }) by {
            assert(start[i]@.tags =~= Seq::empty());
        }
    }
    while at < rows.len()
        invariant
            at <= rows@.len(),
            old(profiles)@ == start,
            profiles@.len() == start.len() == ids@.len(),
            indexes_match(indexes@, ids@),
            forall|i: int| 0 <= i < at ==> tag_index(#[trigger] rows@[i], ids@) is Some,
            forall|i: int|
                0 <= i < ids@.len() ==> (#[trigger] profiles@[i])@ == (ProfileModel {
                    tags: tags_at(rows@.take(at as int), ids@, i),
                    ..start[i]@
                }),
        decreases rows@.len() - at,
    {
        let row = &rows[at];
        let ghost before = profiles@;
        assert(rows@.take(at + 1).drop_last() =~= rows@.take(at as int));
        assert(rows@.take(at + 1).last() == *row);
        let id = match read_uuid(row.profile_id.as_str()) {
            Some(id) => id,
            None => {
                assert(tag_index(rows@[at as int], ids@) is None);
                return false;
            },
        };
        let index: usize = match indexes.get(&id) {
            Some(index) => *index,
            None => {
                assert(tag_index(rows@[at as int], ids@) is None);
                return false;
            },
        };
        proof {
            lemma_last_index(ids@, id);
        }
        add_tag(&mut profiles[index].tags, row.tag.as_str());
        assert forall|i: int| 0 <= i < ids@.len() implies (#[trigger] profiles@[i])@ == (
        ProfileModel { tags: tags_at(rows@.take(at + 1), ids@, i), ..start[i]@ }) by {
            assert(before[i]@.tags == tags_at(rows@.take(at as int), ids@, i));
        }
        at += 1;
    }
    assert(rows@.take(rows@.len() as int) =~= rows@);
    true
}

/// Reads the catalog that the rows of a database hold.
pub fn load_catalog(rows: &CatalogRows) -> (read: Result<CatalogSnapshot, ProfileRepositoryError>)
    ensures
        match read {
            Ok(read) => rows_are_good(*rows) && rows_hold(*rows, read@) && forall|i: int|
                0 <= i < read@.profiles.len() ==> rising((#[trigger] read@.profiles[i]).tags),
            Err(error) => !rows_are_good(*rows) && error == ProfileRepositoryError::Corrupt,
        },
{
    if rows.meta.revision < 0 {
        return Err(ProfileRepositoryError::Corrupt);
    }
    let logging = match read_bool(rows.meta.logging) {
        Ok(logging) => logging,
        Err(error) => return Err(error),
    };
    let defaults = TerminalDefaults {
        terminal_type: rows.meta.terminal_type.clone(),
        theme: rows.meta.theme.clone(),
        logging,
    };
    let folders = match read_folders(&rows.folders) {
        Some(folders) => folders,
        None => return Err(ProfileRepositoryError::Corrupt),
    };
    let (mut profiles, indexes) = match read_profiles(&rows.profiles) {
        Some(read) => read,
        None => return Err(ProfileRepositoryError::Corrupt),
    };
    let ghost ids = profile_ids(rows.profiles@);
    let ghost bare = profiles@;
    if !read_tags(&mut profiles, &indexes, &rows.tags, Ghost(ids)) {
        return Err(ProfileRepositoryError::Corrupt);
    }
    let ssh_connections = match read_ssh_connections(&rows.ssh_connections) {
        Some(connections) => connections,
        None => return Err(ProfileRepositoryError::Corrupt),
    };
    let local_connections = match read_local_connections(&rows.local_connections) {
        Some(connections) => connections,
        None => return Err(ProfileRepositoryError::Corrupt),
    };
    let read = CatalogSnapshot {
        revision: rows.meta.revision as u64,
        defaults,
        folders,
        profiles,
        ssh_connections,
        local_connections,
    };
    proof {
        let model = read@;
        assert forall|i: int| 0 <= i < model.profiles.len() implies rising(
            (#[trigger] model.profiles[i]).tags,
        ) by {
            assert(model.profiles[i] == profiles@[i]@);
            law_tags_are_those_of_the_rows(rows.tags@, ids, i);
        }
        assert forall|i: int| 0 <= i < model.profiles.len() implies profile_of(rows.profiles@[i])
            == Some(ProfileModel { tags: Seq::empty(), ..#[trigger] model.profiles[i] }) by {
            assert(model.profiles[i] == profiles@[i]@);
            assert(bare[i]@.tags =~= Seq::empty());
        }
        assert forall|i: int| 0 <= i < rows.profiles@.len() implies profile_of(
            #[trigger] rows.profiles@[i],
        ) is Some by {
            assert(profile_of(rows.profiles@[i]) == Some(bare[i]@));
        }
        assert forall|i: int| 0 <= i < rows.folders@.len() implies folder_of(
            #[trigger] rows.folders@[i],
        ) is Some by {
            assert(folder_of(rows.folders@[i]) == Some(folders@[i]@));
        }
        assert forall|i: int| 0 <= i < rows.ssh_connections@.len() implies ssh_connection_of(
            #[trigger] rows.ssh_connections@[i],
        ) is Some by {
            assert(ssh_connection_of(rows.ssh_connections@[i]) == Some(ssh_connections@[i]@));
        }
        assert forall|i: int| 0 <= i < rows.local_connections@.len() implies uuid_of(
            (#[trigger] rows.local_connections@[i]).profile_id@,
        ) is Some by {
            assert(uuid_of(rows.local_connections@[i].profile_id@) == Some(
                local_connections@[i].profile_id,
            ));
        }
    }
    Ok(read)
}

// ---------------------------------------------------------------------------
// Writing.

/// A catalog that a database can hold: its revision fits, no two profiles have
/// one identifier, and the tags of each rise.
pub open spec fn can_be_kept(catalog: SnapshotModel) -> bool {
    &&& catalog.revision <= i64::MAX
    &&& forall|i: int, j: int|
        0 <= i < j < catalog.profiles.len() ==> (#[trigger] catalog.profiles[i]).id != (
        #[trigger] catalog.profiles[j]).id
    &&& forall|i: int|
        0 <= i < catalog.profiles.len() ==> rising((#[trigger] catalog.profiles[i]).tags)
}

proof fn lemma_unique_index(ids: Seq<u128>, index: int)
    requires
        0 <= index < ids.len(),
        forall|i: int, j: int| 0 <= i < j < ids.len() ==> #[trigger] ids[i] != #[trigger] ids[j],
    ensures
        last_index(ids, ids[index]) == Some(index),
    decreases ids.len(),
{
    if index < ids.len() - 1 {
        let rest = ids.drop_last();
        assert forall|i: int, j: int| 0 <= i < j < rest.len() implies #[trigger] rest[i]
            != #[trigger] rest[j] by {
            assert(ids[i] != ids[j]);
        }
        lemma_unique_index(rest, index);
    }
}

fn tags_rise(tags: &Vec<String>) -> (yes: bool)
    ensures
        yes == rising(string_views(tags@)),
{
    let ghost views = string_views(tags@);
    let mut index: usize = 1;
    while index < tags.len()
        invariant
            1 <= index,
            index <= tags@.len() || tags@.len() == 0,
            views == string_views(tags@),
            forall|i: int, j: int|
                0 <= i < j < index && j < views.len() ==> text_before(
                    #[trigger] views[i],
                    #[trigger] views[j],
                ),
        decreases tags@.len() - index,
    {
        assert(views[index - 1] == tags@[index - 1]@);
        assert(views[index as int] == tags@[index as int]@);
        if !comes_before(tags[index - 1].as_str(), tags[index].as_str()) {
            return false;
        }
        assert forall|i: int, j: int| 0 <= i < j < index + 1 && j < views.len() implies text_before(
            #[trigger] views[i],
            #[trigger] views[j],
        ) by {
            if j == index && i < index - 1 {
                assert(text_before(views[i], views[index - 1]));
                lemma_before_follows(views[i], views[index - 1], views[j]);
            }
        }
        index += 1;
    }
    true
}

/// Whether a database can hold a catalog.
pub fn can_keep(catalog: &CatalogSnapshot) -> (yes: bool)
    ensures
        yes == can_be_kept(catalog@),
{
    let ghost model = catalog@;
    if catalog.revision > i64::MAX as u64 {
        return false;
    }
    let profiles = &catalog.profiles;
    let mut index: usize = 0;
    while index < profiles.len()
        invariant
            index <= profiles@.len() == model.profiles.len(),
            *profiles == catalog.profiles,
            model == catalog@,
            model.revision <= i64::MAX,
            forall|i: int, j: int|
                0 <= i < index && i < j < model.profiles.len() ==> (
                #[trigger] model.profiles[i]).id != (#[trigger] model.profiles[j]).id,
            forall|i: int| 0 <= i < index ==> rising((#[trigger] model.profiles[i]).tags),
        decreases profiles@.len() - index,
    {
        assert(model.profiles[index as int] == profiles@[index as int]@);
        if !tags_rise(&profiles[index].tags) {
            return false;
        }
        let mut other: usize = index + 1;
        while other < profiles.len()
            invariant
                index < other <= profiles@.len() == model.profiles.len(),
                *profiles == catalog.profiles,
                model == catalog@,
                forall|j: int|
                    index < j < other ==> model.profiles[index as int].id != (
                    #[trigger] model.profiles[j]).id,
            decreases profiles@.len() - other,
        {
            assert(model.profiles[other as int].id == profiles@[other as int].id);
            assert(model.profiles[index as int].id == profiles@[index as int].id);
            if profiles[index].id == profiles[other].id {
                return false;
            }
            other += 1;
        }
        index += 1;
    }
    true
}

fn write_folders(folders: &Vec<ProfileFolder>) -> (rows: Vec<FolderRow>)
    ensures
        rows@.len() == folders@.len(),
        forall|i: int|
            0 <= i < folders@.len() ==> folder_of(#[trigger] rows@[i]) == Some(folders@[i]@)
                && rows@[i].id@ == uuid_text(folders@[i].id),
{
    let mut rows: Vec<FolderRow> = Vec::new();
    let mut index: usize = 0;
    while index < folders.len()
        invariant
            index <= folders@.len(),
            rows@.len() == index,
            forall|i: int|
                0 <= i < index ==> folder_of(#[trigger] rows@[i]) == Some(folders@[i]@)
                    && rows@[i].id@ == uuid_text(folders@[i].id),
        decreases folders@.len() - index,
    {
        rows.push(write_folder(&folders[index]));
        index += 1;
    }
    rows
}

fn write_profiles(profiles: &Vec<ProfileRecord>) -> (rows: Vec<ProfileRow>)
    ensures
        rows@.len() == profiles@.len(),
        forall|i: int|
            0 <= i < profiles@.len() ==> profile_of(#[trigger] rows@[i]) == Some(
                ProfileModel { tags: Seq::empty(), ..profiles@[i]@ },
            ) && rows@[i].id@ == uuid_text(profiles@[i].id),
{
    let mut rows: Vec<ProfileRow> = Vec::new();
    let mut index: usize = 0;
    while index < profiles.len()
        invariant
            index <= profiles@.len(),
            rows@.len() == index,
            forall|i: int|
                0 <= i < index ==> profile_of(#[trigger] rows@[i]) == Some(
                    ProfileModel { tags: Seq::empty(), ..profiles@[i]@ },
                ) && rows@[i].id@ == uuid_text(profiles@[i].id),
        decreases profiles@.len() - index,
    {
        rows.push(write_profile(&profiles[index]));
        index += 1;
    }
    rows
}

fn write_ssh_connections(connections: &Vec<SshConnectionRecord>) -> (rows: Vec<SshConnectionRow>)
    ensures
        rows@.len() == connections@.len(),
        forall|i: int|
            0 <= i < connections@.len() ==> ssh_connection_of(#[trigger] rows@[i]) == Some(
                connections@[i]@,
            ) && rows@[i].profile_id@ == uuid_text(connections@[i].profile_id),
{
    let mut rows: Vec<SshConnectionRow> = Vec::new();
    let mut index: usize = 0;
    while index < connections.len()
        invariant
            index <= connections@.len(),
            rows@.len() == index,
            forall|i: int|
                0 <= i < index ==> ssh_connection_of(#[trigger] rows@[i]) == Some(connections@[i]@)
                    && rows@[i].profile_id@ == uuid_text(connections@[i].profile_id),
        decreases connections@.len() - index,
    {
        rows.push(write_ssh_connection(&connections[index]));
        index += 1;
    }
    rows
}

fn write_local_connections(connections: &Vec<LocalConnectionRecord>) -> (rows: Vec<
    LocalConnectionRow,
>)
    ensures
        rows@.len() == connections@.len(),
        forall|i: int|
            0 <= i < connections@.len() ==> uuid_of((#[trigger] rows@[i]).profile_id@) == Some(
                connections@[i].profile_id,
            ) && rows@[i].configuration@ == connections@[i].configuration@
                && rows@[i].profile_id@ == uuid_text(connections@[i].profile_id),
{
    let mut rows: Vec<LocalConnectionRow> = Vec::new();
    let mut index: usize = 0;
    while index < connections.len()
        invariant
            index <= connections@.len(),
            rows@.len() == index,
            forall|i: int|
                0 <= i < index ==> uuid_of((#[trigger] rows@[i]).profile_id@) == Some(
                    connections@[i].profile_id,
                ) && rows@[i].configuration@ == connections@[i].configuration@
                    && rows@[i].profile_id@ == uuid_text(connections@[i].profile_id),
        decreases connections@.len() - index,
    {
        let profile_id = write_uuid(connections[index].profile_id);
        let configuration = connections[index].configuration.clone();
        rows.push(LocalConnectionRow { profile_id, configuration });
        index += 1;
    }
    rows
}

/// Every tag is one of a profile, which is named as its own row names it.
pub open spec fn tags_named(rows: Seq<TagRow>, ids: Seq<u128>) -> bool {
    forall|i: int|
        0 <= i < rows.len() ==> (tag_index(#[trigger] rows[i], ids) matches Some(index)
            && rows[i].profile_id@ == uuid_text(ids[index]))
}

/// No two rows give one profile the same tag.
pub open spec fn tags_differ(rows: Seq<TagRow>) -> bool {
    forall|i: int, j: int|
        0 <= i < j < rows.len() ==> (#[trigger] rows[i]).profile_id@ != (
        #[trigger] rows[j]).profile_id@ || rows[i].tag@ != rows[j].tag@
}

/// The rows of the tags of some profiles, one after the other.
fn write_tags(profiles: &Vec<ProfileRecord>, ids: Ghost<Seq<u128>>) -> (rows: Vec<TagRow>)
    requires
        ids@.len() == profiles@.len(),
        forall|i: int| 0 <= i < ids@.len() ==> #[trigger] ids@[i] == profiles@[i].id,
        forall|i: int, j: int| 0 <= i < j < ids@.len() ==> #[trigger] ids@[i] != #[trigger] ids@[j],
        forall|i: int| 0 <= i < ids@.len() ==> rising((#[trigger] profiles@[i])@.tags),
    ensures
        tags_named(rows@, ids@),
        tags_differ(rows@),
        forall|i: int|
            0 <= i < ids@.len() ==> tags_at(rows@, ids@, i) == (#[trigger] profiles@[i])@.tags,
{
    let mut rows: Vec<TagRow> = Vec::new();
    let mut index: usize = 0;
    while index < profiles.len()
        invariant
            index <= profiles@.len() == ids@.len(),
            forall|i: int| 0 <= i < ids@.len() ==> #[trigger] ids@[i] == profiles@[i].id,
            forall|i: int, j: int|
                0 <= i < j < ids@.len() ==> #[trigger] ids@[i] != #[trigger] ids@[j],
            forall|i: int| 0 <= i < ids@.len() ==> rising((#[trigger] profiles@[i])@.tags),
            tags_named(rows@, ids@),
            tags_differ(rows@),
            forall|i: int|
                0 <= i < ids@.len() ==> tags_at(rows@, ids@, i) == (if i < index {
                    (#[trigger] profiles@[i])@.tags
                } else {
                    Seq::empty()
                }),
        decreases profiles@.len() - index,
    {
        let profile = &profiles[index];
        let ghost tags = profile@.tags;
        let mut at: usize = 0;
        assert(tags.take(0) =~= Seq::empty());
        while at < profile.tags.len()
            invariant
                at <= profile.tags@.len() == tags.len(),
                index < profiles@.len() == ids@.len(),
                *profile == profiles@[index as int],
                tags == profile@.tags,
                rising(tags),
                ids@[index as int] == profile.id,
                forall|i: int, j: int|
                    0 <= i < j < ids@.len() ==> #[trigger] ids@[i] != #[trigger] ids@[j],
                tags_named(rows@, ids@),
                tags_differ(rows@),
                forall|i: int|
                    0 <= i < ids@.len() ==> tags_at(rows@, ids@, i) == (if i < index {
                        (#[trigger] profiles@[i])@.tags
                    } else if i == index {
                        tags.take(at as int)
                    } else {
                        Seq::empty()
                    }),
            decreases profile.tags@.len() - at,
        {
            let ghost before = rows@;
            let profile_id = write_uuid(profile.id);
            let tag = profile.tags[at].clone();
            assert(tags[at as int] == tag@);
            rows.push(TagRow { profile_id, tag });
            proof {
                lemma_unique_index(ids@, index as int);
                assert(rows@.drop_last() =~= before);
                assert(tag_index(rows@.last(), ids@) == Some(index as int));
                let earlier = tags.take(at as int);
                assert(earlier.push(tag@) =~= tags.take(at + 1));
                assert(profiles@[index as int]@.tags == tags);
                assert(tags_at(before, ids@, index as int) == earlier);
                if at > 0 {
                    assert(text_before(tags[at - 1], tags[at as int]));
                    lemma_not_before_itself(tag@);
                    assert(earlier.last() == tags[at - 1]);
                }
                assert(with_tag(earlier, tag@) =~= tags.take(at + 1));
                law_tags_are_those_of_the_rows(before, ids@, index as int);
                assert(tags_differ(rows@)) by {
                    assert forall|i: int, j: int| 0 <= i < j < rows@.len() implies (
                    #[trigger] rows@[i]).profile_id@ != (#[trigger] rows@[j]).profile_id@
                        || rows@[i].tag@ != rows@[j].tag@ by {
                        if j < before.len() {
                            assert(before[i] == rows@[i] && before[j] == rows@[j]);
                        } else if rows@[i].profile_id@ == rows@[j].profile_id@ {
                            assert(before[i] == rows@[i]);
                            assert(tag_index(before[i], ids@) == Some(index as int));
                            assert(earlier.contains(before[i].tag@));
                            let k = choose|k: int|
                                0 <= k < earlier.len() && earlier[k] == before[i].tag@;
                            assert(text_before(tags[k], tags[at as int]));
                            lemma_not_before_itself(tag@);
                        }
                    }
                }
                assert(tags_named(rows@, ids@)) by {
                    assert forall|i: int| 0 <= i < rows@.len() implies (tag_index(
                        #[trigger] rows@[i],
                        ids@,
                    ) matches Some(owner) && rows@[i].profile_id@ == uuid_text(ids@[owner])) by {
                        if i < before.len() {
                            assert(before[i] == rows@[i]);
                        }
                    }
                }
                assert forall|i: int| 0 <= i < ids@.len() implies tags_at(rows@, ids@, i) == (if i
                    < index {
                    (#[trigger] profiles@[i])@.tags
                } else if i == index {
                    tags.take(at + 1)
                } else {
                    Seq::empty()
                }) by {
                    assert(tags_at(before, ids@, i) == (if i < index {
                        profiles@[i]@.tags
                    } else if i == index {
                        tags.take(at as int)
                    } else {
                        Seq::empty()
                    }));
                }
            }
            at += 1;
        }
        assert(tags.take(tags.len() as int) =~= tags);
        index += 1;
    }
    rows
}

/// The rows that keep a catalog. It is read from them again as it was, and no
/// two of them say the same of a tag.
pub fn write_catalog(catalog: &CatalogSnapshot) -> (rows: CatalogRows)
    requires
        can_be_kept(catalog@),
    ensures
        rows_are_good(rows),
        rows_hold(rows, catalog@),
        forall|i: int|
            0 <= i < rows.folders@.len() ==> (#[trigger] rows.folders@[i]).id@ == uuid_text(
                catalog.folders@[i].id,
            ),
        forall|i: int|
            0 <= i < rows.profiles@.len() ==> (#[trigger] rows.profiles@[i]).id@ == uuid_text(
                catalog.profiles@[i].id,
            ),
        forall|i: int|
            0 <= i < rows.ssh_connections@.len() ==> (
            #[trigger] rows.ssh_connections@[i]).profile_id@ == uuid_text(
                catalog.ssh_connections@[i].profile_id,
            ),
        forall|i: int|
            0 <= i < rows.local_connections@.len() ==> (
            #[trigger] rows.local_connections@[i]).profile_id@ == uuid_text(
                catalog.local_connections@[i].profile_id,
            ),
        tags_named(rows.tags@, profile_ids(rows.profiles@)),
        tags_differ(rows.tags@),
{
    let ghost model = catalog@;
    let ghost ids = catalog.profiles@.map_values(|profile: ProfileRecord| profile.id);
    proof {
        assert forall|i: int, j: int| 0 <= i < j < ids.len() implies #[trigger] ids[i]
            != #[trigger] ids[j] by {
            assert(model.profiles[i].id != model.profiles[j].id);
        }
        assert forall|i: int| 0 <= i < ids.len() implies rising(
            (#[trigger] catalog.profiles@[i])@.tags,
        ) by {
            assert(rising(model.profiles[i].tags));
        }
    }
    let meta = MetaRow {
        revision: catalog.revision as i64,
        terminal_type: catalog.defaults.terminal_type.clone(),
        theme: catalog.defaults.theme.clone(),
        logging: write_bool(catalog.defaults.logging),
    };
    let rows = CatalogRows {
        meta,
        folders: write_folders(&catalog.folders),
        profiles: write_profiles(&catalog.profiles),
        tags: write_tags(&catalog.profiles, Ghost(ids)),
        ssh_connections: write_ssh_connections(&catalog.ssh_connections),
        local_connections: write_local_connections(&catalog.local_connections),
    };
    proof {
        assert(profile_ids(rows.profiles@) =~= ids);
        assert forall|i: int| 0 <= i < model.profiles.len() implies (
        #[trigger] model.profiles[i]).tags == tags_at(rows.tags@, ids, i) by {
            assert(model.profiles[i] == catalog.profiles@[i]@);
        }
    }
    rows
}

// ---------------------------------------------------------------------------
// Committing.

/// A commit may be tried: its revision follows the expected one and fits, and
/// the catalog is accepted.
pub open spec fn may_commit(expected_revision: u64, next_revision: u64, accepted: bool) -> bool {
    next_revision == expected_revision + 1 && accepted && next_revision <= i64::MAX
}

/// The revisions of a commit as they are kept: the next one and the one that
/// is expected to be there. The next revision must follow the expected one,
/// the catalog must be `accepted` by the rules for catalogs, and both revisions
/// must fit.
pub fn check_commit(expected_revision: u64, next_revision: u64, accepted: bool) -> (checked: Result<
    (i64, i64),
    ProfileRepositoryError,
>)
    ensures
        checked == (if next_revision == expected_revision + 1 && accepted && next_revision
            <= i64::MAX {
            Ok((next_revision as i64, expected_revision as i64))
        } else {
            Err(ProfileRepositoryError::Corrupt)
        }),
        checked is Ok <==> may_commit(expected_revision, next_revision, accepted),
{
    if expected_revision >= next_revision || next_revision - expected_revision != 1 || !accepted
        || next_revision > i64::MAX as u64 {
        return Err(ProfileRepositoryError::Corrupt);
    }
    Ok((next_revision as i64, expected_revision as i64))
}

/// The outcome of the change of the revision, which changes one row where the
/// expected revision is the one that is kept, and none where another commit
/// was faster.
pub fn check_update(rows_changed: u64) -> (checked: Result<(), ProfileRepositoryError>)
    ensures
        checked == (if rows_changed == 1 {
            Ok(())
        } else {
            Err(ProfileRepositoryError::Conflict)
        }),
{
    if rows_changed == 1 {
        Ok(())
    } else {
        Err(ProfileRepositoryError::Conflict)
    }
}

} // verus!
