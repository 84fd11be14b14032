//! Data model of an archived conversation and of the application's metadata.
//!
//! Attachment payloads such as embeds, stickers, reactions and mentions are
//! schema-less blobs: the core stores and forwards them without reading
//! their contents, so they are carried as opaque `serde_json::Value`s.

use vstd::prelude::*;

verus! {

/// `serde_json::Value` is used only as an opaque payload carried through the
/// store; the library never reads inside one.
#[verifier::external_type_specification]
#[verifier::external_body]
pub struct ExValue(serde_json::Value);

/// Relies on `serde_json::Value::clone` (derived `Clone` of the enum):
/// cloning a JSON value yields an equal value.
pub assume_specification[ <serde_json::Value as Clone>::clone ](
    v: &serde_json::Value,
) -> (r: serde_json::Value)
    ensures
        r == *v,
;

#[derive(Debug, Clone)]
pub struct Guild {
    pub id: String,
    pub name: String,
    pub icon_url: Option<String>,
}

#[derive(Debug, Clone)]
pub struct Channel {
    pub id: String,
    pub channel_type: String,
    pub category_id: Option<String>,
    pub category: Option<String>,
    pub name: String,
    pub topic: Option<String>,
}

#[derive(Debug, Clone)]
pub struct DateRange {
    pub after: Option<String>,
    pub before: Option<String>,
}

#[derive(Debug)]
pub struct Message {
    pub id: String,
    pub message_type: String,
    pub timestamp: String,
    pub timestamp_edited: Option<String>,
    pub call_ended_timestamp: Option<String>,
    pub is_pinned: bool,
    pub content: String,
    pub author: Author,
    pub attachments: Vec<Attachment>,
    pub embeds: Vec<serde_json::Value>,
    pub stickers: Vec<serde_json::Value>,
    pub reactions: Vec<serde_json::Value>,
    pub mentions: Vec<serde_json::Value>,
    pub inline_emojis: Vec<serde_json::Value>,
    pub reference: Option<MessageReference>,
}

#[derive(Debug)]
pub struct MessageReference {
    pub message_id: String,
    pub channel_id: Option<String>,
}

#[derive(Debug)]
pub struct Author {
    pub id: String,
    pub name: String,
    pub discriminator: String,
    pub nickname: String,
    pub color: Option<String>,
    pub is_bot: bool,
    pub roles: Vec<serde_json::Value>,
    pub avatar_url: String,
}

#[derive(Debug)]
pub struct Attachment {
    pub id: String,
    pub url: String,
    pub file_name: String,
    pub file_size_bytes: u64,
}

#[derive(Debug)]
pub struct DiscordExport {
    pub guild: Guild,
    pub channel: Channel,
    pub date_range: DateRange,
    pub exported_at: String,
    pub messages: Vec<Message>,
}

/// Equality of two optional strings, by character content.
pub open spec fn opt_str_eq(a: Option<String>, b: Option<String>) -> bool {
    match (a, b) {
        (Option::None, Option::None) => true,
        (Option::Some(x), Option::Some(y)) => x@ == y@,
        _ => false,
    }
}

/// Equality of two message references, by character content.
pub open spec fn msg_ref_eq(a: MessageReference, b: MessageReference) -> bool {
    a.message_id@ == b.message_id@ && opt_str_eq(a.channel_id, b.channel_id)
}

/// Equality of two optional message references.
pub open spec fn opt_msg_ref_eq(a: Option<MessageReference>, b: Option<MessageReference>) -> bool {
    match (a, b) {
        (Option::None, Option::None) => true,
        (Option::Some(x), Option::Some(y)) => msg_ref_eq(x, y),
        _ => false,
    }
}

/// Equality of two author snapshots, by character content; the opaque role
/// payloads must be the same values.
pub open spec fn author_eq(a: Author, b: Author) -> bool {
    &&& a.id@ == b.id@
    &&& a.name@ == b.name@
    &&& a.discriminator@ == b.discriminator@
    &&& a.nickname@ == b.nickname@
    &&& opt_str_eq(a.color, b.color)
    &&& a.is_bot == b.is_bot
    &&& a.roles@ == b.roles@
    &&& a.avatar_url@ == b.avatar_url@
}

/// Equality of two attachment records, by character content.
pub open spec fn attachment_eq(a: Attachment, b: Attachment) -> bool {
    &&& a.id@ == b.id@
    &&& a.url@ == b.url@
    &&& a.file_name@ == b.file_name@
    &&& a.file_size_bytes == b.file_size_bytes
}

/// Pointwise equality of two attachment lists.
pub open spec fn attachments_eq(a: Seq<Attachment>, b: Seq<Attachment>) -> bool {
    a.len() == b.len() && forall|i: int| 0 <= i < a.len() ==> attachment_eq(a[i], b[i])
}

impl Clone for MessageReference {
    fn clone(&self) -> (r: Self)
        ensures
            msg_ref_eq(r, *self),
    {
        MessageReference { message_id: self.message_id.clone(), channel_id: self.channel_id.clone() }
    }
}

impl Clone for Author {
    fn clone(&self) -> (r: Self)
        ensures
            author_eq(r, *self),
    {
        let r = Author {
            id: self.id.clone(),
            name: self.name.clone(),
            discriminator: self.discriminator.clone(),
            nickname: self.nickname.clone(),
            color: self.color.clone(),
            is_bot: self.is_bot,
            roles: self.roles.clone(),
            avatar_url: self.avatar_url.clone(),
        };
        proof {
            assert(r.roles@ =~= self.roles@);
        }
        r
    }
}

impl Clone for Attachment {
    fn clone(&self) -> (r: Self)
        ensures
            attachment_eq(r, *self),
    {
        Attachment {
            id: self.id.clone(),
            url: self.url.clone(),
            file_name: self.file_name.clone(),
            file_size_bytes: self.file_size_bytes,
        }
    }
}

#[derive(Debug, Clone)]
pub struct ImportMetadata {
    pub imports: Vec<ImportEntry>,
}

impl Default for ImportMetadata {
    fn default() -> (r: Self)
        ensures
            r.imports@.len() == 0,
    {
        ImportMetadata { imports: Vec::new() }
    }
}

#[derive(Debug)]
pub struct ImportEntry {
    pub id: String,
    pub alias: String,
    pub import_path: String,
    pub created_at: String,
    pub file_hash: String,
    pub channel_name: String,
    pub guild_name: String,
    pub guild_id: String,
    pub message_count: usize,
    pub avatar_path: String,
}

/// Equality of two import entries, by character content.
pub open spec fn entry_eq(a: ImportEntry, b: ImportEntry) -> bool {
    &&& a.id@ == b.id@
    &&& a.alias@ == b.alias@
    &&& a.import_path@ == b.import_path@
    &&& a.created_at@ == b.created_at@
    &&& a.file_hash@ == b.file_hash@
    &&& a.channel_name@ == b.channel_name@
    &&& a.guild_name@ == b.guild_name@
    &&& a.guild_id@ == b.guild_id@
    &&& a.message_count == b.message_count
    &&& a.avatar_path@ == b.avatar_path@
}

/// The ghost view of an import entry: every field by content.
pub struct EntryView {
    pub id: Seq<char>,
    pub alias: Seq<char>,
    pub import_path: Seq<char>,
    pub created_at: Seq<char>,
    pub file_hash: Seq<char>,
    pub channel_name: Seq<char>,
    pub guild_name: Seq<char>,
    pub guild_id: Seq<char>,
    pub message_count: int,
    pub avatar_path: Seq<char>,
}

/// The view of one import entry.
pub open spec fn entry_view(e: ImportEntry) -> EntryView {
    EntryView {
        id: e.id@,
        alias: e.alias@,
        import_path: e.import_path@,
        created_at: e.created_at@,
        file_hash: e.file_hash@,
        channel_name: e.channel_name@,
        guild_name: e.guild_name@,
        guild_id: e.guild_id@,
        message_count: e.message_count as int,
        avatar_path: e.avatar_path@,
    }
}

/// The views of a list of import entries.
pub open spec fn entry_views(s: Seq<ImportEntry>) -> Seq<EntryView> {
    s.map_values(|e: ImportEntry| entry_view(e))
}

impl Clone for ImportEntry {
    fn clone(&self) -> (r: Self)
        ensures
            entry_eq(r, *self),
    {
        ImportEntry {
            id: self.id.clone(),
            alias: self.alias.clone(),
            import_path: self.import_path.clone(),
            created_at: self.created_at.clone(),
            file_hash: self.file_hash.clone(),
            channel_name: self.channel_name.clone(),
            guild_name: self.guild_name.clone(),
            guild_id: self.guild_id.clone(),
            message_count: self.message_count,
            avatar_path: self.avatar_path.clone(),
        }
    }
}

#[derive(Debug)]
pub struct Member {
    pub id: String,
    pub name: String,
    pub discriminator: String,
    pub nickname: String,
    pub avatar_url: String,
    pub color: Option<String>,
    pub is_bot: bool,
    pub roles: Vec<serde_json::Value>,
}

/// Equality of two member records, by character content; the opaque role
/// payloads must be the same values.
pub open spec fn member_eq(a: Member, b: Member) -> bool {
    &&& a.id@ == b.id@
    &&& a.name@ == b.name@
    &&& a.discriminator@ == b.discriminator@
    &&& a.nickname@ == b.nickname@
    &&& a.avatar_url@ == b.avatar_url@
    &&& opt_str_eq(a.color, b.color)
    &&& a.is_bot == b.is_bot
    &&& a.roles@ == b.roles@
}

impl Clone for Member {
    fn clone(&self) -> (r: Self)
        ensures
            member_eq(r, *self),
    {
        let r = Member {
            id: self.id.clone(),
            name: self.name.clone(),
            discriminator: self.discriminator.clone(),
            nickname: self.nickname.clone(),
            avatar_url: self.avatar_url.clone(),
            color: self.color.clone(),
            is_bot: self.is_bot,
            roles: self.roles.clone(),
        };
        proof {
            assert(r.roles@ =~= self.roles@);
        }
        r
    }
}

#[derive(Debug, Clone)]
pub struct MemberStorage {
    pub members: Vec<Member>,
}

impl Default for MemberStorage {
    fn default() -> (r: Self)
        ensures
            r.members@.len() == 0,
    {
        MemberStorage { members: Vec::new() }
    }
}

/// Relies on `chrono::Utc::now` and `DateTime::to_rfc3339`: the current
/// wall-clock time rendered as an RFC 3339 string.  The value depends on the
/// clock, so nothing is assumed of it.
#[verifier::external_body]
fn now_rfc3339() -> String {
    chrono::Utc::now().to_rfc3339()
}

#[derive(Debug, Clone)]
pub struct ImportData {
    pub import_version: String,
    pub members: Vec<Member>,
    pub created_at: String,
    pub last_updated: String,
}

impl Default for ImportData {
    fn default() -> (r: Self)
        ensures
            r.import_version@ == crate::versioning::spec_current_version(),
            r.members@.len() == 0,
    {
        ImportData {
            import_version: crate::versioning::current_version(),
            members: Vec::new(),
            created_at: now_rfc3339(),
            last_updated: now_rfc3339(),
        }
    }
}

#[derive(Debug, Clone)]
pub struct AppConfig {
    pub theme: String,
    pub last_opened_chat: Option<String>,
    pub conversation_positions: std::collections::HashMap<String, ConversationPosition>,
    pub last_changelog_version: Option<String>,
}

#[derive(Debug, Clone, Copy)]
pub struct ConversationPosition {
    pub message_id: u64,
}

impl Default for AppConfig {
    fn default() -> (r: Self)
        ensures
            r.theme@ == "dark"@,
            r.last_opened_chat is None,
            r.last_changelog_version is None,
    {
        AppConfig {
            theme: String::from_str("dark"),
            last_opened_chat: None,
            conversation_positions: std::collections::HashMap::new(),
            last_changelog_version: None,
        }
    }
}

#[derive(Debug, Clone)]
pub struct ImportBackupResult {
    pub successful: Vec<ImportedConversation>,
    pub failed: Vec<FailedImport>,
    pub total_count: usize,
    pub success_count: usize,
    pub failed_count: usize,
}

#[derive(Debug, Clone)]
pub struct ImportedConversation {
    pub conversation_name: String,
    pub message_count: usize,
}

#[derive(Debug, Clone)]
pub struct FailedImport {
    pub conversation_name: String,
    pub error: String,
}

/// Errors of the storage and metadata layer.
#[derive(Debug, Clone, PartialEq, Eq, Structural)]
pub enum StoreError {
    /// A referenced import, member or file is absent.
    NotFound,
    /// A persisted structure could not be understood.
    InvalidData,
    /// The caller's input was rejected.
    InvalidInput,
}

#[derive(Debug, Clone, PartialEq, Eq, Structural)]
pub enum CompatibilityStatus {
    Compatible,
    Incompatible,
}

#[derive(Debug, Clone)]
pub struct VersionCompatibility {
    pub is_compatible: bool,
    pub current_version: String,
    pub import_version: String,
    pub needs_update: bool,
}

#[derive(Debug, Clone)]
pub struct ImportEntryWithCompatibility {
    pub entry: ImportEntry,
    pub compatibility: VersionCompatibility,
}

} // verus!
