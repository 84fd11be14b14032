use sapper::models::{
    Attachment, Author, Channel, DateRange, DiscordExport, Guild, ImportEntry, ImportMetadata,
    MemberStorage, Message, MessageReference, StoreError,
};
use sapper::sapper_core::{asset_candidates, avatar_source, SapperCore};

fn entry(id: &str, alias: &str, hash: &str) -> ImportEntry {
    ImportEntry {
        id: id.to_string(),
        alias: alias.to_string(),
        import_path: format!("/data/imports/{}", id),
        created_at: "2024-01-01T00:00:00+00:00".to_string(),
        file_hash: hash.to_string(),
        channel_name: "general".to_string(),
        guild_name: "guild".to_string(),
        guild_id: "42".to_string(),
        message_count: 3,
        avatar_path: "".to_string(),
    }
}

fn author(id: &str, nickname: &str) -> Author {
    Author {
        id: id.to_string(),
        name: format!("{}-name", id),
        discriminator: "0001".to_string(),
        nickname: nickname.to_string(),
        color: None,
        is_bot: false,
        roles: Vec::new(),
        avatar_url: format!("avatars/{}.png", id),
    }
}

fn message(id: &str, nickname: &str, content: &str) -> Message {
    Message {
        id: id.to_string(),
        message_type: "Default".to_string(),
        timestamp: "2021-01-01T00:00:00+00:00".to_string(),
        timestamp_edited: None,
        call_ended_timestamp: None,
        is_pinned: false,
        content: content.to_string(),
        author: author(&format!("u-{}", nickname), nickname),
        attachments: Vec::new(),
        embeds: Vec::new(),
        stickers: Vec::new(),
        reactions: Vec::new(),
        mentions: Vec::new(),
        inline_emojis: Vec::new(),
        reference: None,
    }
}

fn export(guild_id: &str, channel_name: &str, messages: Vec<Message>) -> DiscordExport {
    DiscordExport {
        guild: Guild { id: guild_id.to_string(), name: "guild".to_string(), icon_url: None },
        channel: Channel {
            id: "c1".to_string(),
            channel_type: "GuildTextChat".to_string(),
            category_id: None,
            category: None,
            name: channel_name.to_string(),
            topic: None,
        },
        date_range: DateRange { after: None, before: None },
        exported_at: "2024-01-01T00:00:00+00:00".to_string(),
        messages,
    }
}

#[test]
fn update_alias_renames_the_right_entry() {
    let core = SapperCore::new("/home/me/.sapper".to_string());
    let mut metadata = ImportMetadata { imports: vec![entry("a", "one", "h1"), entry("b", "two", "h2")] };
    let r = core.update_import_alias(&mut metadata, "b", "renamed".to_string());
    assert!(r.is_ok());
    assert_eq!(metadata.imports[0].alias, "one");
    assert_eq!(metadata.imports[1].alias, "renamed");
    assert_eq!(metadata.imports[1].id, "b");
}

#[test]
fn update_alias_of_unknown_import_is_not_found() {
    let core = SapperCore::new("/home/me/.sapper".to_string());
    let mut metadata = ImportMetadata { imports: vec![entry("a", "one", "h1")] };
    let r = core.update_import_alias(&mut metadata, "zzz", "renamed".to_string());
    assert_eq!(r, Err(StoreError::NotFound));
    assert_eq!(metadata.imports[0].alias, "one");
}

#[test]
fn delete_import_removes_and_returns_the_entry() {
    let core = SapperCore::new("/home/me/.sapper".to_string());
    let mut metadata = ImportMetadata { imports: vec![entry("a", "one", "h1"), entry("b", "two", "h2")] };
    let removed = core.delete_import(&mut metadata, "a").unwrap();
    assert_eq!(removed.import_path, "/data/imports/a");
    assert_eq!(metadata.imports.len(), 1);
    assert_eq!(metadata.imports[0].id, "b");
    assert!(core.delete_import(&mut metadata, "zzz").is_none());
    assert_eq!(metadata.imports.len(), 1);
}

#[test]
fn update_member_edits_nickname_and_avatar() {
    let core = SapperCore::new("/home/me/.sapper".to_string());
    let m = |id: &str| sapper::models::Member {
        id: id.to_string(),
        name: "n".to_string(),
        discriminator: "0001".to_string(),
        nickname: "old".to_string(),
        avatar_url: "old.png".to_string(),
        color: None,
        is_bot: false,
        roles: Vec::new(),
    };
    let mut members = MemberStorage { members: vec![m("x"), m("y")] };
    let r = core.update_member(&mut members, "y", Some("fresh".to_string()), None);
    assert!(r.is_ok());
    assert_eq!(members.members[1].nickname, "fresh");
    assert_eq!(members.members[1].avatar_url, "old.png");
    assert_eq!(members.members[0].nickname, "old");
    let r2 = core.update_member(&mut members, "nope", None, Some("p.png".to_string()));
    assert_eq!(r2, Err(StoreError::NotFound));
}

#[test]
fn missing_assets_dedup_avatars_only() {
    let mut e = export("42", "general", vec![
        message("1", "Ann", "hi"),
        message("2", "Ann", "hi again"),
    ]);
    e.guild.icon_url = Some("icons/guild.png".to_string());
    e.messages[0].attachments.push(Attachment {
        id: "at1".to_string(),
        url: "files/photo.png".to_string(),
        file_name: "photo.png".to_string(),
        file_size_bytes: 10,
    });
    let candidates = asset_candidates(&e);
    // icon, attachment, avatar of message 1, avatar of message 2.
    assert_eq!(candidates.len(), 4);
    assert_eq!(candidates[0].path, "icons/guild.png");
    assert_eq!(candidates[1].path, "files/photo.png");
    assert!(!candidates[1].dedup);
    assert!(candidates[2].dedup);
    // Nothing exists: the shared avatar is reported once.
    let core = SapperCore::new("/home/me/.sapper".to_string());
    let missing = core.check_missing_assets(&candidates, &vec![false, false, false, false]);
    assert_eq!(missing, vec!["icons/guild.png", "files/photo.png", "avatars/u-Ann.png"]);
    // Everything exists: nothing is reported.
    let none = core.check_missing_assets(&candidates, &vec![true, true, true, true]);
    assert_eq!(none.len(), 0);
}

#[test]
fn avatar_choice_for_dms_and_servers() {
    // A direct message: the first author named like the channel wins.
    let dm = export("0", "Marvin", vec![
        message("1", "Me", "hello"),
        message("2", "Marvin", "hi"),
    ]);
    assert_eq!(avatar_source(&dm).unwrap(), "avatars/u-Marvin.png");
    // No author matches: fall back to the first message's author.
    let dm2 = export("0", "Nobody", vec![message("1", "Me", "hello")]);
    assert_eq!(avatar_source(&dm2).unwrap(), "avatars/u-Me.png");
    // A server: the guild icon decides.
    let mut server = export("42", "general", vec![message("1", "Me", "hello")]);
    server.guild.icon_url = Some("icons/g.png".to_string());
    assert_eq!(avatar_source(&server).unwrap(), "icons/g.png");
}

#[test]
fn conversion_parses_timestamps_and_resolves_replies() {
    let core = SapperCore::new("/home/me/.sapper".to_string());
    let mut msgs = vec![
        message("100", "Ann", "first"),
        message("200", "Bob", "second"),
        message("300", "Ann", "third"),
    ];
    msgs[1].timestamp = "2021-01-01T00:00:00+00:00".to_string();
    msgs[2].timestamp = "not a timestamp".to_string();
    msgs[2].reference = Some(MessageReference { message_id: "100".to_string(), channel_id: None });
    msgs[1].reference = Some(MessageReference { message_id: "999".to_string(), channel_id: None });
    msgs[0].attachments.push(Attachment {
        id: "at".to_string(),
        url: "files/pic.png".to_string(),
        file_name: "pic.png".to_string(),
        file_size_bytes: 1,
    });
    let e = export("42", "general", msgs);
    let stored = core.convert_messages_to_stored(&e, "/data/imports/xyz");
    assert_eq!(stored.len(), 3);
    // Dense ids in input order; original ids preserved.
    assert_eq!(stored[0].id, 0);
    assert_eq!(stored[2].id, 2);
    assert_eq!(stored[1].original_id, "200");
    // RFC 3339 parsing, and zero for an unparsable timestamp.
    assert_eq!(stored[1].timestamp, 1609459200);
    assert_eq!(stored[2].timestamp, 0);
    // Media paths resolved under the import directory.
    assert_eq!(stored[0].media_refs, vec!["/data/imports/xyz/attachments/files/pic.png"]);
    // A reply to a message in the conversation is denormalized...
    let inner = stored[2].referenced_message.as_ref().unwrap();
    assert_eq!(inner.original_id, "100");
    assert_eq!(inner.content, "first");
    // ...and one to an unknown id is left unresolved.
    assert!(stored[1].referenced_message.is_none());
}

#[test]
fn backup_merge_skips_known_hashes() {
    let core = SapperCore::new("/home/me/.sapper".to_string());
    let mut current = ImportMetadata { imports: vec![entry("a", "one", "h1")] };
    let source = vec![entry("s1", "from-backup", "h1"), entry("s2", "fresh", "h2")];
    let ids = vec!["new1".to_string(), "new2".to_string()];
    let count = core.merge_imports(&mut current, source, ids);
    assert_eq!(count, 1);
    assert_eq!(current.imports.len(), 2);
    assert_eq!(current.imports[1].alias, "fresh");
    assert_eq!(current.imports[1].id, "new2");
    assert_eq!(current.imports[1].import_path, "/home/me/.sapper/imports/new2");
    assert_eq!(current.imports[1].file_hash, "h2");
}

#[test]
fn filter_imports_keeps_selected_entries() {
    let core = SapperCore::new("/home/me/.sapper".to_string());
    let metadata = ImportMetadata {
        imports: vec![entry("a", "one", "h1"), entry("b", "two", "h2"), entry("c", "three", "h3")],
    };
    let selected = core.filter_imports(&metadata, &vec!["c".to_string(), "a".to_string()]);
    assert_eq!(selected.imports.len(), 2);
    assert_eq!(selected.imports[0].id, "a");
    assert_eq!(selected.imports[1].id, "c");
}

#[test]
fn members_are_unique_and_sorted() {
    let core = SapperCore::new("/home/me/.sapper".to_string());
    let e = export("42", "general", vec![
        message("1", "Zoe", "a"),
        message("2", "Ann", "b"),
        message("3", "Zoe", "c"),
        message("4", "Mia", "d"),
    ]);
    let members = core.extract_members(&e);
    let ids: Vec<String> = members.members.iter().map(|m| m.id.clone()).collect();
    assert_eq!(ids, vec!["u-Ann", "u-Mia", "u-Zoe"]);
    assert_eq!(members.members[0].nickname, "Ann");
}

#[test]
fn export_path_is_under_the_import_directory() {
    let core = SapperCore::new("/home/me/.sapper".to_string());
    let e = entry("a", "one", "h1");
    assert_eq!(core.get_export_path(&e), "/data/imports/a/export.json");
}

#[test]
fn default_values_of_persisted_structures() {
    let metadata = ImportMetadata::default();
    assert_eq!(metadata.imports.len(), 0);
    let members = MemberStorage::default();
    assert_eq!(members.members.len(), 0);
    let config = sapper::models::AppConfig::default();
    assert_eq!(config.theme, "dark");
    assert!(config.last_opened_chat.is_none());
    let data = sapper::models::ImportData::default();
    assert_eq!(data.import_version, "0.3.0");
    assert_eq!(data.members.len(), 0);
}
