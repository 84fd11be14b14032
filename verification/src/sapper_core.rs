//! The application core: import metadata bookkeeping, member records, asset
//! checks, and the normalization of an exported conversation into stored
//! messages.
//!
//! Reading and writing the `.sapper` directory is the caller's part; the
//! functions here perform every decision and transformation on the loaded
//! values: finding and updating entries, deduplicating backup merges,
//! choosing an avatar source, collecting asset references, and converting
//! raw export messages (timestamps parsed, media paths resolved, reply
//! references denormalized) into [`StoredMessage`]s.

use crate::message_storage::{StoredMessage, msg_eq, msg_shallow_eq};
use crate::models::{
    Attachment, Author, DiscordExport, EntryView, ImportEntry, ImportMetadata, Member,
    MemberStorage, Message, MessageReference, StoreError, attachments_eq, author_eq, entry_view,
    entry_views, opt_msg_ref_eq, opt_str_eq,
};
use crate::strutil::{str_eq, str_views};
use vstd::prelude::*;

verus! {

/// The application core, rooted at its data directory.
pub struct SapperCore {
    pub sapper_dir: String,
}

/// What a RFC 3339 timestamp string denotes in Unix seconds, if it parses.
/// Relied on below; the value is a function of the characters alone.
pub uninterp spec fn rfc3339_unix(s: Seq<char>) -> Option<u64>;

/// Relies on chrono's `DateTime::parse_from_rfc3339` and
/// `DateTime::timestamp`: whether a string is a valid RFC 3339 date-time,
/// and its Unix-seconds value (cast to `u64` as the archive stores it),
/// depend on the characters alone.
#[verifier::external_body]
fn parse_rfc3339_unix(s: &str) -> (r: Option<u64>)
    ensures
        r == rfc3339_unix(s@),
{
    match chrono::DateTime::parse_from_rfc3339(s) {
        Ok(dt) => Some(dt.timestamp() as u64),
        Err(_) => None,
    }
}

/// Joining a relative component appends it after a separator; joining an
/// absolute one replaces the base, as filesystem path joining does.
pub open spec fn spec_path_join(base: Seq<char>, component: Seq<char>) -> Seq<char> {
    if component.len() > 0 && component[0] == '/' {
        component
    } else {
        base + seq!['/'] + component
    }
}

/// Joins one component onto a base path.
pub fn path_join(base: &str, component: &str) -> (r: String)
    ensures
        r@ == spec_path_join(base@, component@),
{
    proof {
        reveal_strlit("/");
    }
    if component.unicode_len() > 0 && component.get_char(0) == '/' {
        component.to_owned()
    } else {
        let mut s = base.to_owned();
        s.append("/");
        s.append(component);
        proof {
            assert(s@ =~= base@ + seq!['/'] + component@);
        }
        s
    }
}

/// The first index at or after `k` whose entry has the given id.
pub open spec fn scan_entry_id(entries: Seq<ImportEntry>, id: Seq<char>, k: int) -> int
    decreases entries.len() - k,
{
    if k < 0 || k >= entries.len() {
        entries.len() as int
    } else if entries[k].id@ == id {
        k
    } else {
        scan_entry_id(entries, id, k + 1)
    }
}

/// The first entry with the given id, or the length when there is none.
pub open spec fn find_entry_idx(entries: Seq<ImportEntry>, id: Seq<char>) -> int {
    scan_entry_id(entries, id, 0)
}

proof fn lemma_scan_entry_id(entries: Seq<ImportEntry>, id: Seq<char>, k: int)
    requires
        0 <= k <= entries.len(),
    ensures
        k <= scan_entry_id(entries, id, k) <= entries.len(),
        forall|j: int|
            k <= j < scan_entry_id(entries, id, k) ==> (#[trigger] entries[j]).id@ != id,
        scan_entry_id(entries, id, k) < entries.len() ==> entries[scan_entry_id(
            entries,
            id,
            k,
        )].id@ == id,
    decreases entries.len() - k,
{
    if k < entries.len() && entries[k].id@ != id {
        lemma_scan_entry_id(entries, id, k + 1);
    }
}

#[verifier::loop_isolation(false)]
fn find_entry(entries: &Vec<ImportEntry>, id: &str) -> (r: usize)
    ensures
        r == find_entry_idx(entries@, id@),
        r <= entries@.len(),
        r < entries@.len() ==> entries@[r as int].id@ == id@,
        forall|j: int| 0 <= j < r ==> (#[trigger] entries@[j]).id@ != id@,
{
    proof {
        lemma_scan_entry_id(entries@, id@, 0);
    }
    let mut k: usize = 0;
    while k < entries.len()
        invariant
            k <= entries@.len(),
            find_entry_idx(entries@, id@) == scan_entry_id(entries@, id@, k as int),
        decreases entries@.len() - k,
    {
        if str_eq(entries[k].id.as_str(), id) {
            return k;
        }
        k = k + 1;
    }
    k
}

impl SapperCore {
    /// A core rooted at the given data directory.
    pub fn new(sapper_dir: String) -> (r: Self)
        ensures
            r.sapper_dir@ == sapper_dir@,
    {
        SapperCore { sapper_dir }
    }

    /// Where an import's original export file lives.
    pub fn get_export_path(&self, import_entry: &ImportEntry) -> (r: String)
        ensures
            r@ == spec_path_join(import_entry.import_path@, "export.json"@),
    {
        path_join(import_entry.import_path.as_str(), "export.json")
    }

    /// Renames an import.  The first entry carrying `import_id` gets the new
    /// alias, everything else is untouched; an unknown id changes nothing
    /// and is reported as [`StoreError::NotFound`].
    pub fn update_import_alias(
        &self,
        metadata: &mut ImportMetadata,
        import_id: &str,
        new_alias: String,
    ) -> (r: Result<(), StoreError>)
        ensures
            ({
                let idx = find_entry_idx(old(metadata).imports@, import_id@);
                if idx < old(metadata).imports@.len() {
                    &&& r is Ok
                    &&& final(metadata).imports@.len() == old(metadata).imports@.len()
                    &&& forall|j: int|
                        0 <= j < old(metadata).imports@.len() && j != idx
                            ==> #[trigger] final(metadata).imports@[j] == old(metadata).imports@[j]
                    &&& final(metadata).imports@[idx].alias == new_alias
                    &&& final(metadata).imports@[idx].id == old(metadata).imports@[idx].id
                    &&& final(metadata).imports@[idx].import_path == old(
                        metadata,
                    ).imports@[idx].import_path
                    &&& final(metadata).imports@[idx].created_at == old(
                        metadata,
                    ).imports@[idx].created_at
                    &&& final(metadata).imports@[idx].file_hash == old(
                        metadata,
                    ).imports@[idx].file_hash
                    &&& final(metadata).imports@[idx].channel_name == old(
                        metadata,
                    ).imports@[idx].channel_name
                    &&& final(metadata).imports@[idx].guild_name == old(
                        metadata,
                    ).imports@[idx].guild_name
                    &&& final(metadata).imports@[idx].guild_id == old(
                        metadata,
                    ).imports@[idx].guild_id
                    &&& final(metadata).imports@[idx].message_count == old(
                        metadata,
                    ).imports@[idx].message_count
                    &&& final(metadata).imports@[idx].avatar_path == old(
                        metadata,
                    ).imports@[idx].avatar_path
                } else {
                    &&& r == Result::<(), StoreError>::Err(StoreError::NotFound)
                    &&& *final(metadata) == *old(metadata)
                }
            }),
    {
        let idx = find_entry(&metadata.imports, import_id);
        if idx < metadata.imports.len() {
            let ghost before = metadata.imports@;
            let mut e = metadata.imports.remove(idx);
            e.alias = new_alias;
            metadata.imports.insert(idx, e);
            proof {
                assert forall|j: int|
                    0 <= j < before.len() && j != idx implies #[trigger] metadata.imports@[j]
                    == before[j] by {
                    if j < idx {
                        assert(metadata.imports@[j] == before.remove(idx as int).insert(
                            idx as int,
                            metadata.imports@[idx as int],
                        )[j]);
                    }
                }
            }
            Ok(())
        } else {
            Err(StoreError::NotFound)
        }
    }

    /// Removes an import from the metadata, handing back the removed entry
    /// so the caller can delete its directory; an unknown id removes
    /// nothing.  (Deleting an unknown id is not an error, matching the
    /// delete operation's tolerant behaviour.)
    pub fn delete_import(&self, metadata: &mut ImportMetadata, import_id: &str) -> (r: Option<
        ImportEntry,
    >)
        ensures
            ({
                let idx = find_entry_idx(old(metadata).imports@, import_id@);
                if idx < old(metadata).imports@.len() {
                    &&& final(metadata).imports@ == old(metadata).imports@.remove(idx)
                    &&& r == Some(old(metadata).imports@[idx])
                } else {
                    &&& *final(metadata) == *old(metadata)
                    &&& r is None
                }
            }),
    {
        let idx = find_entry(&metadata.imports, import_id);
        if idx < metadata.imports.len() {
            Some(metadata.imports.remove(idx))
        } else {
            None
        }
    }

    /// The first index at or after `k` whose member has the given id.
    pub open spec fn scan_member_id(members: Seq<Member>, id: Seq<char>, k: int) -> int
        decreases members.len() - k,
    {
        if k < 0 || k >= members.len() {
            members.len() as int
        } else if members[k].id@ == id {
            k
        } else {
            Self::scan_member_id(members, id, k + 1)
        }
    }

    /// Updates a member's editable fields.  The first member carrying
    /// `member_id` gets the new nickname and avatar where given; an unknown
    /// id changes nothing and is [`StoreError::NotFound`].
    #[verifier::loop_isolation(false)]
    pub fn update_member(
        &self,
        members: &mut MemberStorage,
        member_id: &str,
        nickname: Option<String>,
        avatar_url: Option<String>,
    ) -> (r: Result<(), StoreError>)
        ensures
            ({
                let idx = Self::scan_member_id(old(members).members@, member_id@, 0);
                if idx < old(members).members@.len() {
                    let m0 = old(members).members@[idx];
                    let m1 = final(members).members@[idx];
                    &&& r is Ok
                    &&& final(members).members@.len() == old(members).members@.len()
                    &&& forall|j: int|
                        0 <= j < old(members).members@.len() && j != idx
                            ==> #[trigger] final(members).members@[j] == old(members).members@[j]
                    &&& m1.nickname == (match nickname {
                        Some(n) => n,
                        None => m0.nickname,
                    })
                    &&& m1.avatar_url == (match avatar_url {
                        Some(a) => a,
                        None => m0.avatar_url,
                    })
                    &&& m1.id == m0.id
                    &&& m1.name == m0.name
                    &&& m1.discriminator == m0.discriminator
                    &&& m1.color == m0.color
                    &&& m1.is_bot == m0.is_bot
                    &&& m1.roles == m0.roles
                } else {
                    &&& r == Result::<(), StoreError>::Err(StoreError::NotFound)
                    &&& *final(members) == *old(members)
                }
            }),
    {
        proof {
            Self::lemma_scan_member_id(members.members@, member_id@, 0);
        }
        let ghost idx_spec = Self::scan_member_id(members.members@, member_id@, 0);
        let mut k: usize = 0;
        let n = members.members.len();
        while k < n
            invariant
                k <= n,
                n == members.members@.len(),
                *members == *old(members),
                idx_spec == Self::scan_member_id(members.members@, member_id@, k as int),
            decreases n - k,
        {
            if str_eq(members.members[k].id.as_str(), member_id) {
                let ghost before = members.members@;
                let mut m = members.members.remove(k);
                if let Some(n) = nickname {
                    m.nickname = n;
                } else {
                    // keep the current nickname
                }
                if let Some(a) = avatar_url {
                    m.avatar_url = a;
                }
                members.members.insert(k, m);
                proof {
                    assert forall|j: int|
                        0 <= j < before.len() && j != k as int implies #[trigger] members.members@[j]
                        == before[j] by {
                        if j < k as int {
                            assert(members.members@[j] == before.remove(k as int).insert(
                                k as int,
                                members.members@[k as int],
                            )[j]);
                        }
                    }
                }
                return Ok(());
            }
            k = k + 1;
        }
        Err(StoreError::NotFound)
    }

    proof fn lemma_scan_member_id(members: Seq<Member>, id: Seq<char>, k: int)
        requires
            0 <= k <= members.len(),
        ensures
            k <= Self::scan_member_id(members, id, k) <= members.len(),
            Self::scan_member_id(members, id, k) < members.len() ==> members[Self::scan_member_id(
                members,
                id,
                k,
            )].id@ == id,
        decreases members.len() - k,
    {
        if k < members.len() && members[k].id@ != id {
            Self::lemma_scan_member_id(members, id, k + 1);
        }
    }
}

/// One asset a conversation references: the path as the export names it, and
/// whether the missing-assets report deduplicates it (avatars are shared by
/// many messages; attachments are not).
pub struct AssetRef {
    pub path: String,
    pub dedup: bool,
}

/// The view of an asset reference.
pub open spec fn asset_view(a: AssetRef) -> (Seq<char>, bool) {
    (a.path@, a.dedup)
}

/// The views of an asset list.
pub open spec fn asset_views(v: Seq<AssetRef>) -> Seq<(Seq<char>, bool)> {
    v.map_values(|a: AssetRef| asset_view(a))
}

/// The assets one message references: its attachments, then its author's
/// avatar.
pub open spec fn msg_asset_views(m: Message) -> Seq<(Seq<char>, bool)> {
    m.attachments@.map_values(|a: Attachment| (a.url@, false)).push((m.author.avatar_url@, true))
}

/// Every asset an export references, in report order: the guild icon if any,
/// then each message's attachments and author avatar.
pub open spec fn spec_asset_candidates(e: DiscordExport) -> Seq<(Seq<char>, bool)> {
    (match e.guild.icon_url {
        Some(u) => seq![(u@, false)],
        None => Seq::<(Seq<char>, bool)>::empty(),
    }) + e.messages@.flat_map(|m: Message| msg_asset_views(m))
}

/// Collects every asset reference of the export, in report order.
#[verifier::loop_isolation(false)]
pub fn asset_candidates(export: &DiscordExport) -> (r: Vec<AssetRef>)
    ensures
        asset_views(r@) == spec_asset_candidates(*export),
{
    let mut out: Vec<AssetRef> = Vec::new();
    let ghost icon_part: Seq<(Seq<char>, bool)> = (match &export.guild.icon_url {
        Some(u) => seq![(u@, false)],
        None => Seq::<(Seq<char>, bool)>::empty(),
    });
    let ghost f = |m: Message| msg_asset_views(m);
    if let Some(icon) = &export.guild.icon_url {
        out.push(AssetRef { path: icon.clone(), dedup: false });
    }
    proof {
        assert(asset_views(out@) =~= icon_part);
        assert(export.messages@.take(0).flat_map(f) =~= Seq::<(Seq<char>, bool)>::empty());
        assert(asset_views(out@) =~= icon_part + export.messages@.take(0).flat_map(f));
    }
    let mut i: usize = 0;
    while i < export.messages.len()
        invariant
            i <= export.messages@.len(),
            asset_views(out@) == icon_part + export.messages@.take(i as int).flat_map(f),
        decreases export.messages@.len() - i,
    {
        let m = &export.messages[i];
        let ghost mid = asset_views(out@);
        let mut j: usize = 0;
        while j < m.attachments.len()
            invariant
                j <= m.attachments@.len(),
                asset_views(out@) == mid + m.attachments@.take(j as int).map_values(
                    |a: Attachment| (a.url@, false),
                ),
            decreases m.attachments@.len() - j,
        {
            let ghost before = out@;
            out.push(AssetRef { path: m.attachments[j].url.clone(), dedup: false });
            proof {
                assert(asset_views(out@) =~= asset_views(before).push(
                    (m.attachments@[j as int].url@, false),
                ));
                assert(m.attachments@.take(j + 1).map_values(|a: Attachment| (a.url@, false))
                    =~= m.attachments@.take(j as int).map_values(
                    |a: Attachment| (a.url@, false),
                ).push((m.attachments@[j as int].url@, false)));
                assert(asset_views(out@) =~= mid + m.attachments@.take(j + 1).map_values(
                    |a: Attachment| (a.url@, false),
                ));
            }
            j = j + 1;
        }
        let ghost before = out@;
        out.push(AssetRef { path: m.author.avatar_url.clone(), dedup: true });
        proof {
            assert(m.attachments@.take(m.attachments@.len() as int) =~= m.attachments@);
            assert(asset_views(out@) =~= asset_views(before).push((m.author.avatar_url@, true)));
            assert(asset_views(out@) =~= mid + msg_asset_views(*m));
            export.messages@.lemma_flat_map_take_append(f, i as int);
            assert(asset_views(out@) =~= icon_part + export.messages@.take(i + 1).flat_map(f));
        }
        i = i + 1;
    }
    proof {
        assert(export.messages@.take(export.messages@.len() as int) =~= export.messages@);
    }
    out
}

/// The missing-assets report over the first `n` candidates: a candidate is
/// reported when its file does not exist, except that a deduplicated
/// candidate already reported is not reported again.
pub open spec fn spec_missing_upto(
    cands: Seq<(Seq<char>, bool)>,
    exists_flags: Seq<bool>,
    n: int,
) -> Seq<Seq<char>>
    decreases n,
{
    if n <= 0 {
        Seq::empty()
    } else {
        let prev = spec_missing_upto(cands, exists_flags, n - 1);
        let c = cands[n - 1];
        if exists_flags[n - 1] {
            prev
        } else if c.1 && prev.contains(c.0) {
            prev
        } else {
            prev.push(c.0)
        }
    }
}

impl SapperCore {
    /// Check for missing assets: given the export's asset candidates and,
    /// for each, whether its file exists, reports the paths that are missing
    /// — attachments as often as they occur, shared avatars once.
    #[verifier::loop_isolation(false)]
    pub fn check_missing_assets(&self, candidates: &Vec<AssetRef>, exists_flags: &Vec<bool>) -> (r:
        Vec<String>)
        requires
            exists_flags@.len() == candidates@.len(),
        ensures
            str_views(r@) == spec_missing_upto(
                asset_views(candidates@),
                exists_flags@,
                candidates@.len() as int,
            ),
    {
        let ghost cv = asset_views(candidates@);
        let mut out: Vec<String> = Vec::new();
        let mut i: usize = 0;
        proof {
            assert(str_views(out@) =~= spec_missing_upto(cv, exists_flags@, 0));
        }
        while i < candidates.len()
            invariant
                i <= candidates@.len(),
                cv == asset_views(candidates@),
                exists_flags@.len() == candidates@.len(),
                str_views(out@) == spec_missing_upto(cv, exists_flags@, i as int),
            decreases candidates@.len() - i,
        {
            let c = &candidates[i];
            proof {
                assert(cv[i as int] == asset_view(candidates@[i as int]));
            }
            if !exists_flags[i] {
                let already = c.dedup && contains_string(&out, c.path.as_str());
                if !already {
                    let ghost before = out@;
                    out.push(c.path.clone());
                    proof {
                        assert(str_views(out@) =~= str_views(before).push(c.path@));
                    }
                }
            }
            i = i + 1;
        }
        out
    }
}

fn contains_string(v: &Vec<String>, s: &str) -> (r: bool)
    ensures
        r == str_views(v@).contains(s@),
{
    let mut i: usize = 0;
    while i < v.len()
        invariant
            i <= v@.len(),
            forall|k: int| 0 <= k < i ==> str_views(v@)[k] != s@,
        decreases v@.len() - i,
    {
        if str_eq(v[i].as_str(), s) {
            assert(str_views(v@)[i as int] == s@);
            return true;
        }
        i = i + 1;
    }
    false
}

/// The first message among the first `limit` whose author's display name is
/// the channel's name.
pub open spec fn scan_nickname(msgs: Seq<Message>, name: Seq<char>, limit: int, k: int) -> int
    decreases limit - k,
{
    if k < 0 || k >= limit {
        limit
    } else if msgs[k].author.nickname@ == name {
        k
    } else {
        scan_nickname(msgs, name, limit, k + 1)
    }
}

/// Which avatar file represents the conversation.  A direct-message export
/// (guild id `"0"`) uses the other user's avatar: the first author among the
/// first fifty messages whose display name is the channel's name, or the
/// first message's author as a fallback.  A server export uses the guild
/// icon.
#[verifier::loop_isolation(false)]
pub fn avatar_source(export: &DiscordExport) -> (r: Option<String>)
    ensures
        ({
            let msgs = export.messages@;
            let limit: int = if msgs.len() <= 50 {
                msgs.len() as int
            } else {
                50
            };
            if export.guild.id@ == "0"@ {
                {
                    let k = scan_nickname(msgs, export.channel.name@, limit, 0);
                    if k < limit {
                        match r {
                            Some(u) => u@ == msgs[k].author.avatar_url@,
                            None => false,
                        }
                    } else if msgs.len() > 0 {
                        match r {
                            Some(u) => u@ == msgs[0].author.avatar_url@,
                            None => false,
                        }
                    } else {
                        r is None
                    }
                }
            } else {
                opt_str_eq(r, export.guild.icon_url)
            }
        }),
{
    proof {
        reveal_strlit("0");
    }
    if str_eq(export.guild.id.as_str(), "0") {
        let limit: usize = if export.messages.len() <= 50 {
            export.messages.len()
        } else {
            50
        };
        let ghost limit_i = limit as int;
        let mut k: usize = 0;
        while k < limit
            invariant
                k <= limit,
                limit <= export.messages@.len(),
                limit_i == limit as int,
                scan_nickname(export.messages@, export.channel.name@, limit_i, 0) == scan_nickname(
                    export.messages@,
                    export.channel.name@,
                    limit_i,
                    k as int,
                ),
            decreases limit - k,
        {
            if str_eq(
                export.messages[k].author.nickname.as_str(),
                export.channel.name.as_str(),
            ) {
                return Some(export.messages[k].author.avatar_url.clone());
            }
            k = k + 1;
        }
        if export.messages.len() > 0 {
            Some(export.messages[0].author.avatar_url.clone())
        } else {
            None
        }
    } else {
        match &export.guild.icon_url {
            Some(u) => Some(u.clone()),
            None => None,
        }
    }
}

/// A stored message carries message `m`'s content at dense position `idx`:
/// the timestamp parsed from RFC 3339 (zero when unparsable), each
/// attachment's media path resolved under the import directory, and every
/// other field copied; the denormalized reply copy is not constrained here.
pub open spec fn msg_converted(m: Message, dir: Seq<char>, idx: int, s: StoredMessage) -> bool {
    &&& s.id == idx
    &&& s.original_id@ == m.id@
    &&& s.message_type@ == m.message_type@
    &&& s.timestamp == (match rfc3339_unix(m.timestamp@) {
        Some(t) => t,
        None => 0u64,
    })
    &&& opt_str_eq(s.timestamp_edited, m.timestamp_edited)
    &&& opt_str_eq(s.call_ended_timestamp, m.call_ended_timestamp)
    &&& s.is_pinned == m.is_pinned
    &&& s.content@ == m.content@
    &&& author_eq(s.author, m.author)
    &&& attachments_eq(s.attachments@, m.attachments@)
    &&& s.embeds@ == m.embeds@
    &&& s.stickers@ == m.stickers@
    &&& s.reactions@ == m.reactions@
    &&& s.mentions@ == m.mentions@
    &&& s.inline_emojis@ == m.inline_emojis@
    &&& str_views(s.media_refs@) == m.attachments@.map_values(
        |a: Attachment| spec_path_join(spec_path_join(dir, "attachments"@), a.url@),
    )
    &&& opt_msg_ref_eq(s.reference, m.reference)
}

/// The first message at or after `k` whose original id is `target`.
pub open spec fn scan_original_id(msgs: Seq<Message>, target: Seq<char>, k: int) -> int
    decreases msgs.len() - k,
{
    if k < 0 || k >= msgs.len() {
        msgs.len() as int
    } else if msgs[k].id@ == target {
        k
    } else {
        scan_original_id(msgs, target, k + 1)
    }
}

/// Message `i`'s reply link is resolved in `r`: absent when the message has
/// no reference or the referenced original id is not in the conversation;
/// otherwise a copy of the first message with that original id, as that
/// entry stood when `i` was processed — entries before `i` already carried
/// their own reply copies, later ones did not yet.
pub open spec fn ref_resolved(msgs: Seq<Message>, i: int, r: Seq<StoredMessage>) -> bool {
    match msgs[i].reference {
        Option::None => r[i].referenced_message is None,
        Option::Some(rf) => {
            let j = scan_original_id(msgs, rf.message_id@, 0);
            if j >= msgs.len() {
                r[i].referenced_message is None
            } else {
                match r[i].referenced_message {
                    Option::Some(inner) => {
                        &&& msg_shallow_eq(*inner, r[j])
                        &&& (j < i ==> match ((*inner).referenced_message, r[j].referenced_message) {
                            (Option::None, Option::None) => true,
                            (Option::Some(x), Option::Some(y)) => msg_eq(*x, *y),
                            _ => false,
                        })
                        &&& (j >= i ==> (*inner).referenced_message is None)
                    },
                    Option::None => false,
                }
            }
        },
    }
}

/// The first stored message at or after `k` whose original id is `target`.
pub open spec fn scan_stored_original_id(r: Seq<StoredMessage>, target: Seq<char>, k: int) -> int
    decreases r.len() - k,
{
    if k < 0 || k >= r.len() {
        r.len() as int
    } else if r[k].original_id@ == target {
        k
    } else {
        scan_stored_original_id(r, target, k + 1)
    }
}

/// Stored messages converted from `msgs` carry the same original ids, so the
/// scans agree.
proof fn lemma_scans_agree(
    msgs: Seq<Message>,
    r: Seq<StoredMessage>,
    target: Seq<char>,
    k: int,
)
    requires
        r.len() == msgs.len(),
        0 <= k <= msgs.len(),
        forall|j: int| 0 <= j < r.len() ==> (#[trigger] r[j]).original_id@ == msgs[j].id@,
    ensures
        scan_stored_original_id(r, target, k) == scan_original_id(msgs, target, k),
    decreases msgs.len() - k,
{
    if k < msgs.len() && msgs[k].id@ != target {
        lemma_scans_agree(msgs, r, target, k + 1);
    }
}

#[verifier::loop_isolation(false)]
fn find_by_original_id(r: &Vec<StoredMessage>, target: &str) -> (k: usize)
    ensures
        k == scan_stored_original_id(r@, target@, 0),
        k <= r@.len(),
        k < r@.len() ==> r@[k as int].original_id@ == target@,
{
    proof {
        lemma_scan_stored(r@, target@, 0);
    }
    let mut k: usize = 0;
    while k < r.len()
        invariant
            k <= r@.len(),
            scan_stored_original_id(r@, target@, 0) == scan_stored_original_id(
                r@,
                target@,
                k as int,
            ),
        decreases r@.len() - k,
    {
        if str_eq(r[k].original_id.as_str(), target) {
            return k;
        }
        k = k + 1;
    }
    k
}

proof fn lemma_scan_stored(r: Seq<StoredMessage>, target: Seq<char>, k: int)
    requires
        0 <= k <= r.len(),
    ensures
        k <= scan_stored_original_id(r, target, k) <= r.len(),
        scan_stored_original_id(r, target, k) < r.len() ==> r[scan_stored_original_id(
            r,
            target,
            k,
        )].original_id@ == target,
    decreases r.len() - k,
{
    if k < r.len() && r[k].original_id@ != target {
        lemma_scan_stored(r, target, k + 1);
    }
}

impl SapperCore {
    /// Normalizes an export's messages into stored messages: dense ids in
    /// input order, timestamps parsed from RFC 3339, attachment media paths
    /// resolved under the import directory, and each reply reference
    /// denormalized to a copy of the first message carrying the referenced
    /// original id (absent when the target is not in the conversation).
    #[verifier::loop_isolation(false)]
    #[verifier::rlimit(100)]
    pub fn convert_messages_to_stored(&self, export: &DiscordExport, import_dir: &str) -> (r: Vec<
        StoredMessage,
    >)
        ensures
            r@.len() == export.messages@.len(),
            forall|i: int|
                0 <= i < r@.len() ==> msg_converted(
                    export.messages@[i],
                    import_dir@,
                    i,
                    #[trigger] r@[i],
                ),
            forall|i: int| 0 <= i < r@.len() ==> ref_resolved(export.messages@, i, r@),
    {
        let ghost msgs = export.messages@;
        let ghost dir = import_dir@;
        let n = export.messages.len();
        let attachments_dir = path_join(import_dir, "attachments");
        let mut out: Vec<StoredMessage> = Vec::new();
        let mut i: usize = 0;
        while i < n
            invariant
                i <= n,
                out@.len() == i,
                attachments_dir@ == spec_path_join(dir, "attachments"@),
                forall|j: int|
                    0 <= j < i ==> msg_converted(msgs[j], dir, j, #[trigger] out@[j]) && out@[j].referenced_message is None,
            decreases n - i,
        {
            let m = &export.messages[i];
            let timestamp: u64 = match parse_rfc3339_unix(m.timestamp.as_str()) {
                Some(t) => t,
                None => 0,
            };
            let ghost path_of = |a: Attachment| spec_path_join(
                spec_path_join(dir, "attachments"@),
                a.url@,
            );
            let mut media_refs: Vec<String> = Vec::new();
            let mut j: usize = 0;
            proof {
                assert(str_views(media_refs@) =~= m.attachments@.take(0).map_values(path_of));
            }
            while j < m.attachments.len()
                invariant
                    j <= m.attachments@.len(),
                    str_views(media_refs@) == m.attachments@.take(j as int).map_values(path_of),
                decreases m.attachments@.len() - j,
            {
                let ghost before = media_refs@;
                media_refs.push(
                    path_join(attachments_dir.as_str(), m.attachments[j].url.as_str()),
                );
                proof {
                    assert(str_views(media_refs@) =~= str_views(before).push(
                        path_of(m.attachments@[j as int]),
                    ));
                    assert(m.attachments@.take(j + 1).map_values(path_of)
                        =~= m.attachments@.take(j as int).map_values(path_of).push(
                        path_of(m.attachments@[j as int]),
                    ));
                }
                j = j + 1;
            }
            proof {
                assert(m.attachments@.take(m.attachments@.len() as int) =~= m.attachments@);
            }
            let stored = StoredMessage {
                id: i as u64,
                original_id: m.id.clone(),
                message_type: m.message_type.clone(),
                timestamp,
                timestamp_edited: m.timestamp_edited.clone(),
                call_ended_timestamp: m.call_ended_timestamp.clone(),
                is_pinned: m.is_pinned,
                content: m.content.clone(),
                author: m.author.clone(),
                attachments: m.attachments.clone(),
                embeds: m.embeds.clone(),
                stickers: m.stickers.clone(),
                reactions: m.reactions.clone(),
                mentions: m.mentions.clone(),
                inline_emojis: m.inline_emojis.clone(),
                media_refs,
                reference: m.reference.clone(),
                referenced_message: None,
            };
            proof {
                assert(stored.embeds@ =~= m.embeds@);
                assert(stored.stickers@ =~= m.stickers@);
                assert(stored.reactions@ =~= m.reactions@);
                assert(stored.mentions@ =~= m.mentions@);
                assert(stored.inline_emojis@ =~= m.inline_emojis@);
                assert(msg_converted(msgs[i as int], dir, i as int, stored));
            }
            out.push(stored);
            i = i + 1;
        }
        // Second pass: denormalize reply references.
        let mut i: usize = 0;
        while i < n
            invariant
                i <= n,
                out@.len() == n,
                forall|j: int| 0 <= j < n ==> msg_converted(msgs[j], dir, j, #[trigger] out@[j]),
                forall|j: int| i <= j < n ==> (#[trigger] out@[j]).referenced_message is None,
                forall|j: int| 0 <= j < i ==> ref_resolved(msgs, j, out@),
            decreases n - i,
        {
            let target: Option<String> = match &out[i].reference {
                Some(rf) => Some(rf.message_id.clone()),
                None => None,
            };
            if let Some(t) = target {
                let ghost tview = t@;
                proof {
                    assert(msgs[i as int].reference is Some);
                    assert(tview == msgs[i as int].reference.unwrap().message_id@);
                }
                let k = find_by_original_id(&out, t.as_str());
                proof {
                    lemma_scans_agree(msgs, out@, tview, 0);
                }
                if k < n {
                    let ghost before = out@;
                    let copy = out[k].clone();
                    let mut e = out.remove(i);
                    e.referenced_message = Some(Box::new(copy));
                    out.insert(i, e);
                    proof {
                        assert forall|j: int| 0 <= j < n && j != i as int implies out@[j]
                            == before[j] by {
                            if j < i as int {
                                assert(out@[j] == before.remove(i as int).insert(
                                    i as int,
                                    out@[i as int],
                                )[j]);
                            }
                        }
                        assert(msg_converted(msgs[i as int], dir, i as int, out@[i as int]));
                        assert forall|j: int| 0 <= j < i + 1 implies ref_resolved(
                            msgs,
                            j,
                            out@,
                        ) by {
                            if j < i as int {
                                lemma_ref_resolved_stable(msgs, j, before, out@, i as int);
                            } else {
                                assert(msg_eq(*out@[i as int].referenced_message.unwrap(),
                                before[k as int]));
                            }
                        }
                    }
                }
            }
            i = i + 1;
        }
        out
    }
}

/// A resolved reply link stays resolved when a later entry's reply copy is
/// filled in: the fields it depends on are untouched.
proof fn lemma_ref_resolved_stable(
    msgs: Seq<Message>,
    j: int,
    before: Seq<StoredMessage>,
    after: Seq<StoredMessage>,
    i: int,
)
    requires
        0 <= j < i < msgs.len(),
        before.len() == msgs.len(),
        after.len() == msgs.len(),
        ref_resolved(msgs, j, before),
        forall|k: int| 0 <= k < msgs.len() && k != i ==> #[trigger] after[k] == before[k],
        msg_shallow_eq(after[i], before[i]),
    ensures
        ref_resolved(msgs, j, after),
{
    match msgs[j].reference {
        Option::Some(rf) => {
            let w = scan_original_id(msgs, rf.message_id@, 0);
            lemma_scan_original(msgs, rf.message_id@, 0);
            if w < msgs.len() {
                assert(after[j] == before[j]);
                match before[j].referenced_message {
                    Option::Some(inner) => {
                        if w != i {
                            assert(after[w] == before[w]);
                        } else {
                            assert(msg_shallow_eq(*inner, before[w]));
                            lemma_shallow_eq_trans(*inner, before[w], after[w]);
                        }
                    },
                    Option::None => {},
                }
            } else {
                assert(after[j] == before[j]);
            }
        },
        Option::None => {
            assert(after[j] == before[j]);
        },
    }
}

/// Shallow equality carries across an entry whose shallow fields are equal.
proof fn lemma_shallow_eq_trans(a: StoredMessage, b: StoredMessage, c: StoredMessage)
    requires
        msg_shallow_eq(a, b),
        msg_shallow_eq(c, b),
    ensures
        msg_shallow_eq(a, c),
{
}

proof fn lemma_scan_original(msgs: Seq<Message>, target: Seq<char>, k: int)
    requires
        0 <= k <= msgs.len(),
    ensures
        k <= scan_original_id(msgs, target, k) <= msgs.len(),
    decreases msgs.len() - k,
{
    if k < msgs.len() && msgs[k].id@ != target {
        lemma_scan_original(msgs, target, k + 1);
    }
}

/// The file hashes of a list of entries.
pub open spec fn hash_views(s: Seq<ImportEntry>) -> Seq<Seq<char>> {
    s.map_values(|e: ImportEntry| e.file_hash@)
}

/// What a backup merge appends: each source entry whose file hash is not
/// already present, re-keyed under its fresh id and a path under the data
/// directory's import root; entries with a known hash are dropped.
pub open spec fn spec_merge(
    hashes: Seq<Seq<char>>,
    src: Seq<EntryView>,
    ids: Seq<Seq<char>>,
    dir: Seq<char>,
) -> Seq<EntryView>
    decreases src.len(),
{
    if src.len() == 0 {
        Seq::empty()
    } else {
        let rest = spec_merge(hashes, src.drop_last(), ids, dir);
        let e = src.last();
        let i = src.len() - 1;
        if hashes.contains(e.file_hash) {
            rest
        } else {
            rest.push(
                EntryView {
                    id: ids[i],
                    import_path: spec_path_join(spec_path_join(dir, "imports"@), ids[i]),
                    ..e
                },
            )
        }
    }
}

impl SapperCore {
    /// The metadata restricted to the selected imports, in their stored
    /// order.
    #[verifier::loop_isolation(false)]
    pub fn filter_imports(&self, metadata: &ImportMetadata, import_ids: &Vec<String>) -> (r:
        ImportMetadata)
        ensures
            entry_views(r.imports@) == entry_views(metadata.imports@).filter(
                |v: EntryView| str_views(import_ids@).contains(v.id),
            ),
    {
        broadcast use vstd::prelude::Seq::filter_distributes_over_add;

        let ghost pred = |v: EntryView| str_views(import_ids@).contains(v.id);
        let ghost all = entry_views(metadata.imports@);
        let mut out: Vec<ImportEntry> = Vec::new();
        let mut i: usize = 0;
        proof {
            reveal(Seq::filter);
            assert(entry_views(out@) =~= all.take(0).filter(pred));
        }
        while i < metadata.imports.len()
            invariant
                i <= metadata.imports@.len(),
                entry_views(out@) == all.take(i as int).filter(pred),
            decreases metadata.imports@.len() - i,
        {
            let e = &metadata.imports[i];
            let ghost v = entry_view(metadata.imports@[i as int]);
            proof {
                reveal(Seq::filter);
                assert(all.take(i + 1) =~= all.take(i as int) + seq![v]);
                assert(seq![v].drop_last() =~= Seq::<EntryView>::empty());
                assert(Seq::<EntryView>::empty().filter(pred) =~= Seq::<EntryView>::empty());
                assert(seq![v].last() == v);
                assert(seq![v].filter(pred) =~= if pred(v) {
                    seq![v]
                } else {
                    Seq::<EntryView>::empty()
                });
                assert((all.take(i as int) + seq![v]).filter(pred) =~= all.take(i as int).filter(
                    pred,
                ) + seq![v].filter(pred));
            }
            if contains_string(import_ids, e.id.as_str()) {
                let ghost before = out@;
                out.push(e.clone());
                proof {
                    assert(entry_view(out@[out@.len() - 1]) == v);
                    assert(entry_views(out@) =~= entry_views(before).push(v));
                    assert(entry_views(out@) =~= all.take(i + 1).filter(pred));
                }
            } else {
                proof {
                    assert(all.take(i + 1).filter(pred) =~= all.take(i as int).filter(pred));
                }
            }
            i = i + 1;
        }
        proof {
            assert(all.take(metadata.imports@.len() as int) =~= all);
        }
        ImportMetadata { imports: out }
    }

    /// Merges a backup's imports into the current metadata: entries whose
    /// file hash is already present are skipped as duplicates; the rest are
    /// appended under fresh ids (one per source entry, used in order) with
    /// their directories re-pointed under this data directory.
    #[verifier::loop_isolation(false)]
    pub fn merge_imports(
        &self,
        current: &mut ImportMetadata,
        source: Vec<ImportEntry>,
        new_ids: Vec<String>,
    ) -> (count: usize)
        requires
            new_ids@.len() == source@.len(),
        ensures
            entry_views(final(current).imports@) == entry_views(old(current).imports@)
                + spec_merge(
                hash_views(old(current).imports@),
                entry_views(source@),
                str_views(new_ids@),
                self.sapper_dir@,
            ),
            final(current).imports@.len() == old(current).imports@.len() + count,
    {
        let ghost old_views = entry_views(old(current).imports@);
        let ghost hashes = hash_views(old(current).imports@);
        let ghost src_views = entry_views(source@);
        let ghost id_views = str_views(new_ids@);
        let ghost dir = self.sapper_dir@;
        let mut existing: Vec<String> = Vec::new();
        let mut i: usize = 0;
        proof {
            assert(str_views(existing@) =~= hashes.take(0));
        }
        while i < current.imports.len()
            invariant
                i <= current.imports@.len(),
                *current == *old(current),
                str_views(existing@) == hashes.take(i as int),
            decreases current.imports@.len() - i,
        {
            let ghost before = existing@;
            existing.push(current.imports[i].file_hash.clone());
            proof {
                assert(str_views(existing@) =~= str_views(before).push(
                    current.imports@[i as int].file_hash@,
                ));
                assert(hashes.take(i + 1) =~= hashes.take(i as int).push(hashes[i as int]));
            }
            i = i + 1;
        }
        proof {
            assert(hashes.take(current.imports@.len() as int) =~= hashes);
        }
        let imports_root = path_join(self.sapper_dir.as_str(), "imports");
        let mut count: usize = 0;
        let mut i: usize = 0;
        while i < source.len()
            invariant
                i <= source@.len(),
                new_ids@.len() == source@.len(),
                str_views(existing@) == hashes,
                imports_root@ == spec_path_join(dir, "imports"@),
                src_views == entry_views(source@),
                id_views == str_views(new_ids@),
                entry_views(current.imports@) == old_views + spec_merge(
                    hashes,
                    src_views.take(i as int),
                    id_views,
                    dir,
                ),
                current.imports@.len() == old(current).imports@.len() + count,
                count <= i,
            decreases source@.len() - i,
        {
            let e = &source[i];
            let ghost v = src_views[i as int];
            proof {
                assert(v == entry_view(source@[i as int]));
                assert(src_views.take(i + 1).drop_last() =~= src_views.take(i as int));
                assert(src_views.take(i + 1).last() == v);
            }
            if !contains_string(&existing, e.file_hash.as_str()) {
                let new_id = new_ids[i].clone();
                let new_path = path_join(imports_root.as_str(), new_id.as_str());
                let entry = ImportEntry {
                    id: new_id,
                    alias: e.alias.clone(),
                    import_path: new_path,
                    created_at: e.created_at.clone(),
                    file_hash: e.file_hash.clone(),
                    channel_name: e.channel_name.clone(),
                    guild_name: e.guild_name.clone(),
                    guild_id: e.guild_id.clone(),
                    message_count: e.message_count,
                    avatar_path: e.avatar_path.clone(),
                };
                let ghost before = current.imports@;
                current.imports.push(entry);
                count = count + 1;
                proof {
                    assert(entry_views(current.imports@) =~= entry_views(before).push(
                        entry_view(current.imports@[current.imports@.len() - 1]),
                    ));
                    assert(entry_view(current.imports@[current.imports@.len() - 1]) == EntryView {
                        id: id_views[i as int],
                        import_path: spec_path_join(
                            spec_path_join(dir, "imports"@),
                            id_views[i as int],
                        ),
                        ..v
                    });
                    assert(entry_views(current.imports@) =~= old_views + spec_merge(
                        hashes,
                        src_views.take(i + 1),
                        id_views,
                        dir,
                    ));
                }
            } else {
                proof {
                    assert(spec_merge(hashes, src_views.take(i + 1), id_views, dir) =~= spec_merge(
                        hashes,
                        src_views.take(i as int),
                        id_views,
                        dir,
                    ));
                }
            }
            i = i + 1;
        }
        proof {
            assert(src_views.take(source@.len() as int) =~= src_views);
        }
        count
    }
}

/// The ghost view of a member record: every field by content.
pub struct MemberView {
    pub id: Seq<char>,
    pub name: Seq<char>,
    pub discriminator: Seq<char>,
    pub nickname: Seq<char>,
    pub avatar_url: Seq<char>,
    pub color: Option<Seq<char>>,
    pub is_bot: bool,
    pub roles: Seq<serde_json::Value>,
}

/// The view of one member.
pub open spec fn member_view(m: Member) -> MemberView {
    MemberView {
        id: m.id@,
        name: m.name@,
        discriminator: m.discriminator@,
        nickname: m.nickname@,
        avatar_url: m.avatar_url@,
        color: (match m.color {
            Some(c) => Some(c@),
            None => None,
        }),
        is_bot: m.is_bot,
        roles: m.roles@,
    }
}

/// The views of a list of members.
pub open spec fn member_views(s: Seq<Member>) -> Seq<MemberView> {
    s.map_values(|m: Member| member_view(m))
}

/// The member record an author snapshot yields.
pub open spec fn member_of_author(a: Author) -> MemberView {
    MemberView {
        id: a.id@,
        name: a.name@,
        discriminator: a.discriminator@,
        nickname: a.nickname@,
        avatar_url: a.avatar_url@,
        color: (match a.color {
            Some(c) => Some(c@),
            None => None,
        }),
        is_bot: a.is_bot,
        roles: a.roles@,
    }
}

/// Does some member in `s` carry this id?
pub open spec fn has_member_id(s: Seq<MemberView>, id: Seq<char>) -> bool {
    exists|k: int| 0 <= k < s.len() && (#[trigger] s[k]).id == id
}

/// The distinct authors of the first `n` messages, each under its first
/// appearance's snapshot, in order of first appearance.
pub open spec fn spec_members_upto(msgs: Seq<Message>, n: int) -> Seq<MemberView>
    decreases n,
{
    if n <= 0 {
        Seq::empty()
    } else {
        let prev = spec_members_upto(msgs, n - 1);
        let a = msgs[n - 1].author;
        if has_member_id(prev, a.id@) {
            prev
        } else {
            prev.push(member_of_author(a))
        }
    }
}

/// Lexicographic order on the characters from position `i` on: comparing
/// code points, with a proper prefix ordered first.  This matches the byte
/// order of the strings' UTF-8 encodings.
pub open spec fn lex_le_from(a: Seq<char>, b: Seq<char>, i: int) -> bool
    decreases a.len() - i,
{
    if i < 0 || i >= a.len() {
        true
    } else if i >= b.len() {
        false
    } else if a[i] != b[i] {
        (a[i] as u32) < (b[i] as u32)
    } else {
        lex_le_from(a, b, i + 1)
    }
}

/// Lexicographic order on two character sequences.
pub open spec fn lex_le(a: Seq<char>, b: Seq<char>) -> bool {
    lex_le_from(a, b, 0)
}

proof fn lemma_lex_total(a: Seq<char>, b: Seq<char>, i: int)
    requires
        0 <= i,
    ensures
        lex_le_from(a, b, i) || lex_le_from(b, a, i),
    decreases a.len() - i,
{
    if i < a.len() && i < b.len() {
        if a[i] == b[i] {
            lemma_lex_total(a, b, i + 1);
        } else {
            // Distinct characters have distinct code points.
            vstd::utf8::char_u32_cast(a[i], a[i] as u32);
            vstd::utf8::char_u32_cast(b[i], b[i] as u32);
            assert((a[i] as u32) != (b[i] as u32));
        }
    }
}

proof fn lemma_lex_trans(a: Seq<char>, b: Seq<char>, c: Seq<char>, i: int)
    requires
        0 <= i,
        lex_le_from(a, b, i),
        lex_le_from(b, c, i),
    ensures
        lex_le_from(a, c, i),
    decreases a.len() - i,
{
    if i < a.len() {
        if a[i] == b[i] && b[i] == c[i] {
            lemma_lex_trans(a, b, c, i + 1);
        }
    }
}

/// Members sorted ascending by id.
pub open spec fn members_sorted(s: Seq<MemberView>) -> bool {
    forall|i: int, j: int| 0 <= i < j < s.len() ==> lex_le((#[trigger] s[i]).id, (#[trigger] s[j]).id)
}

/// Whether two strings are in lexicographic order.
fn str_le(a: &str, b: &str) -> (r: bool)
    ensures
        r == lex_le(a@, b@),
{
    let la = a.unicode_len();
    let lb = b.unicode_len();
    let mut i: usize = 0;
    loop
        invariant
            la == a@.len(),
            lb == b@.len(),
            i <= la,
            lex_le(a@, b@) == lex_le_from(a@, b@, i as int),
        decreases la - i,
    {
        if i >= la {
            return true;
        }
        if i >= lb {
            return false;
        }
        let ca = a.get_char(i);
        let cb = b.get_char(i);
        if ca != cb {
            return (ca as u32) < (cb as u32);
        }
        i = i + 1;
    }
}

impl SapperCore {
    /// Extract the unique members of a conversation: one record per distinct
    /// author id, carrying that author's first snapshot, sorted by id for a
    /// stable persisted order.
    #[verifier::loop_isolation(false)]
    #[verifier::rlimit(100)]
    pub fn extract_members(&self, export: &DiscordExport) -> (r: MemberStorage)
        ensures
            member_views(r.members@).to_multiset() == spec_members_upto(
                export.messages@,
                export.messages@.len() as int,
            ).to_multiset(),
            members_sorted(member_views(r.members@)),
    {
        broadcast use vstd::seq_lib::group_to_multiset_ensures;

        let ghost msgs = export.messages@;
        let mut members: Vec<Member> = Vec::new();
        let mut i: usize = 0;
        proof {
            assert(member_views(members@).to_multiset() =~= spec_members_upto(
                msgs,
                0,
            ).to_multiset());
        }
        while i < export.messages.len()
            invariant
                i <= msgs.len(),
                msgs == export.messages@,
                member_views(members@).to_multiset() == spec_members_upto(msgs, i as int)
                    .to_multiset(),
                members_sorted(member_views(members@)),
            decreases msgs.len() - i,
        {
            let a = &export.messages[i].author;
            let ghost mv = member_views(members@);
            let ghost upto = spec_members_upto(msgs, i as int);
            // Is this author already recorded?
            let mut seen = false;
            let mut k: usize = 0;
            while k < members.len()
                invariant
                    k <= members@.len(),
                    mv == member_views(members@),
                    seen ==> has_member_id(mv, a.id@),
                    !seen ==> forall|j: int| 0 <= j < k ==> (#[trigger] mv[j]).id != a.id@,
                decreases members@.len() - k,
            {
                if str_eq(members[k].id.as_str(), a.id.as_str()) {
                    proof {
                        assert(mv[k as int].id == a.id@);
                    }
                    seen = true;
                    break;
                }
                k = k + 1;
            }
            proof {
                // Containment agrees with the specification's dedup test.
                assert forall|id: Seq<char>| has_member_id(mv, id) == has_member_id(upto, id) by {
                    if has_member_id(mv, id) {
                        let w = choose|w: int| 0 <= w < mv.len() && (#[trigger] mv[w]).id == id;
                        mv.to_multiset_ensures();
                        upto.to_multiset_ensures();
                        assert(mv.to_multiset().contains(mv[w]));
                        assert(upto.contains(mv[w]));
                        let w2 = choose|w2: int| 0 <= w2 < upto.len() && upto[w2] == mv[w];
                        assert(upto[w2].id == id);
                    }
                    if has_member_id(upto, id) {
                        let w = choose|w: int| 0 <= w < upto.len() && (#[trigger] upto[w]).id == id;
                        mv.to_multiset_ensures();
                        upto.to_multiset_ensures();
                        assert(upto.to_multiset().contains(upto[w]));
                        assert(mv.contains(upto[w]));
                        let w2 = choose|w2: int| 0 <= w2 < mv.len() && mv[w2] == upto[w];
                        assert(mv[w2].id == id);
                    }
                }
            }
            if !seen {
                let m = Member {
                    id: a.id.clone(),
                    name: a.name.clone(),
                    discriminator: a.discriminator.clone(),
                    nickname: a.nickname.clone(),
                    avatar_url: a.avatar_url.clone(),
                    color: a.color.clone(),
                    is_bot: a.is_bot,
                    roles: a.roles.clone(),
                };
                proof {
                    assert(m.roles@ =~= a.roles@);
                    assert(member_view(m) == member_of_author(msgs[i as int].author));
                }
                // Insert at the sorted position.
                let mut j: usize = 0;
                while j < members.len() && str_le(members[j].id.as_str(), m.id.as_str())
                    invariant
                        j <= members@.len(),
                        mv == member_views(members@),
                        forall|t: int| 0 <= t < j ==> lex_le((#[trigger] mv[t]).id, m.id@),
                    decreases members@.len() - j,
                {
                    j = j + 1;
                }
                let ghost jj = j as int;
                proof {
                    if jj < mv.len() {
                        assert(!lex_le(mv[jj].id, m.id@));
                        lemma_lex_total(mv[jj].id, m.id@, 0);
                    }
                }
                members.insert(j, m);
                proof {
                    let nv = member_views(members@);
                    assert(nv =~= mv.insert(jj, member_view(m)));
                    assert(nv.to_multiset() == mv.to_multiset().insert(member_view(m)));
                    assert(spec_members_upto(msgs, i + 1) == upto.push(
                        member_of_author(msgs[i as int].author),
                    ));
                    assert(upto.push(member_of_author(msgs[i as int].author)).to_multiset()
                        == upto.to_multiset().insert(member_of_author(msgs[i as int].author)));
                    // Sortedness after the insertion.
                    assert forall|s: int, t: int| 0 <= s < t < nv.len() implies lex_le(
                        (#[trigger] nv[s]).id,
                        (#[trigger] nv[t]).id,
                    ) by {
                        let x = member_view(m);
                        if s < jj && t < jj {
                        } else if s < jj && t == jj {
                            assert(nv[s] == mv[s] && nv[t] == x);
                        } else if s < jj && t > jj {
                            assert(nv[s] == mv[s] && nv[t] == mv[t - 1]);
                        } else if s == jj {
                            assert(nv[s] == x && nv[t] == mv[t - 1]);
                            assert(!lex_le(mv[jj].id, x.id) || jj == mv.len());
                            assert(lex_le(x.id, mv[jj].id));
                            if t - 1 > jj {
                                assert(lex_le(mv[jj].id, mv[t - 1].id));
                                lemma_lex_trans(x.id, mv[jj].id, mv[t - 1].id, 0);
                            }
                        } else {
                            assert(nv[s] == mv[s - 1] && nv[t] == mv[t - 1]);
                        }
                    }
                }
            } else {
                proof {
                    assert(spec_members_upto(msgs, i + 1) == upto);
                }
            }
            i = i + 1;
        }
        MemberStorage { members }
    }
}

} // verus!
