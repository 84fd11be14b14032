use sapper::message_storage::{
    chunks_to_load, load_messages_range, validate_index, ChunkIndex, ChunkMeta, MessageStorage,
    StoredMessage, CHUNK_SIZE,
};
use sapper::models::Author;

fn author(n: u64) -> Author {
    Author {
        id: format!("user-{}", n),
        name: format!("name-{}", n),
        discriminator: "0001".to_string(),
        nickname: format!("nick-{}", n),
        color: None,
        is_bot: false,
        roles: Vec::new(),
        avatar_url: format!("avatars/{}.png", n),
    }
}

fn message(n: u64) -> StoredMessage {
    StoredMessage {
        id: n,
        original_id: format!("orig-{}", n),
        message_type: "Default".to_string(),
        timestamp: 1_600_000_000 + n,
        timestamp_edited: None,
        call_ended_timestamp: None,
        is_pinned: false,
        content: format!("message number {}", n),
        author: author(n % 7),
        attachments: Vec::new(),
        embeds: Vec::new(),
        stickers: Vec::new(),
        reactions: Vec::new(),
        mentions: Vec::new(),
        inline_emojis: Vec::new(),
        media_refs: Vec::new(),
        reference: None,
        referenced_message: None,
    }
}

fn messages(count: u64) -> Vec<StoredMessage> {
    (0..count).map(message).collect()
}

#[test]
fn create_chunks_partitions_in_order() {
    let storage = MessageStorage::new("/data/imports/abc".to_string());
    let total: u64 = 2 * CHUNK_SIZE as u64 + 37;
    let (index, parts) = storage.create_chunks(messages(total));
    assert_eq!(index.total_messages as u64, total);
    assert_eq!(index.chunks.len(), 3);
    assert_eq!(parts.len(), 3);
    assert_eq!(parts[0].len(), CHUNK_SIZE);
    assert_eq!(parts[1].len(), CHUNK_SIZE);
    assert_eq!(parts[2].len(), 37);
    assert_eq!(index.chunks[0].start_id, 0);
    assert_eq!(index.chunks[0].end_id, CHUNK_SIZE as u64 - 1);
    assert_eq!(index.chunks[2].start_id, 2 * CHUNK_SIZE as u64);
    assert_eq!(index.chunks[2].end_id, total - 1);
    assert_eq!(index.chunks[1].chunk_id, 1);
    assert_eq!(index.chunks[1].message_count, CHUNK_SIZE);
    assert_eq!(
        index.chunks[1].file_path,
        "/data/imports/abc/chunks/chunk_1.json"
    );
    assert!(validate_index(&index));
}

#[test]
fn full_range_round_trips() {
    // The union of all chunks, concatenated in chunk order, is the input.
    let storage = MessageStorage::new("/tmp/conv".to_string());
    let total: u64 = CHUNK_SIZE as u64 + 123;
    let (index, parts) = storage.create_chunks(messages(total));
    let (first, end, _off) = chunks_to_load(&index, 0, total as usize);
    assert_eq!((first, end), (0, 2));
    let loaded = load_messages_range(&index, 0, total as usize, parts);
    assert_eq!(loaded.len() as u64, total);
    for (i, m) in loaded.iter().enumerate() {
        assert_eq!(m.id, i as u64);
        assert_eq!(m.content, format!("message number {}", i));
    }
}

#[test]
fn window_across_chunk_boundary() {
    let storage = MessageStorage::new("/tmp/conv".to_string());
    let total: u64 = 3 * CHUNK_SIZE as u64;
    let (index, mut parts) = storage.create_chunks(messages(total));
    // A window straddling the first and second chunks needs only those two.
    let start = CHUNK_SIZE - 5;
    let count = 10;
    let (first, end, off) = chunks_to_load(&index, start, count);
    assert_eq!((first, end, off), (0, 2, 0));
    parts.truncate(2);
    let loaded = load_messages_range(&index, start, count, parts);
    assert_eq!(loaded.len(), 10);
    assert_eq!(loaded[0].id, start as u64);
    assert_eq!(loaded[9].id, start as u64 + 9);
}

#[test]
fn window_lengths_clip_at_the_end() {
    // load_messages_range returns min(count, total - start) items, or none
    // when the start is past the conversation.
    let storage = MessageStorage::new("/tmp/conv".to_string());
    let (index, parts) = storage.create_chunks(messages(40));
    let (first, end, _) = chunks_to_load(&index, 30, 100);
    assert_eq!((first, end), (0, 1));
    let loaded = load_messages_range(&index, 30, 100, parts);
    assert_eq!(loaded.len(), 10);
    assert_eq!(loaded[0].id, 30);

    let (index2, _parts2) = storage.create_chunks(messages(40));
    let (f2, e2, _) = chunks_to_load(&index2, 40, 5);
    assert_eq!(f2, e2);
    let loaded2 = load_messages_range(&index2, 40, 5, Vec::new());
    assert_eq!(loaded2.len(), 0);

    // A zero count touches no chunk at all.
    let (index3, _parts3) = storage.create_chunks(messages(40));
    let (f3, e3, _) = chunks_to_load(&index3, 3, 0);
    assert_eq!((f3, e3), (0, 0));
    let loaded3 = load_messages_range(&index3, 3, 0, Vec::new());
    assert_eq!(loaded3.len(), 0);
}

#[test]
fn empty_conversation_round_trips() {
    let storage = MessageStorage::new("/tmp/conv".to_string());
    let (index, parts) = storage.create_chunks(Vec::new());
    assert_eq!(index.total_messages, 0);
    assert_eq!(index.chunks.len(), 0);
    assert_eq!(parts.len(), 0);
    let loaded = load_messages_range(&index, 0, 10, Vec::new());
    assert_eq!(loaded.len(), 0);
}

#[test]
fn find_chunk_scans_id_ranges() {
    let index = ChunkIndex {
        chunks: vec![
            ChunkMeta {
                chunk_id: 0,
                start_id: 0,
                end_id: 499,
                message_count: 500,
                file_path: "a".to_string(),
            },
            ChunkMeta {
                chunk_id: 1,
                start_id: 500,
                end_id: 749,
                message_count: 250,
                file_path: "b".to_string(),
            },
        ],
        total_messages: 750,
    };
    assert_eq!(index.find_chunk_for_message(0).unwrap().chunk_id, 0);
    assert_eq!(index.find_chunk_for_message(499).unwrap().chunk_id, 0);
    assert_eq!(index.find_chunk_for_message(500).unwrap().chunk_id, 1);
    assert!(index.find_chunk_for_message(750).is_none());
}

#[test]
fn validate_index_rejects_corrupt_counts() {
    let good = ChunkIndex::new();
    assert!(validate_index(&good));
    let bad_total = ChunkIndex {
        chunks: vec![ChunkMeta {
            chunk_id: 0,
            start_id: 0,
            end_id: 9,
            message_count: 10,
            file_path: "x".to_string(),
        }],
        total_messages: 11,
    };
    assert!(!validate_index(&bad_total));
    let bad_count = ChunkIndex {
        chunks: vec![ChunkMeta {
            chunk_id: 0,
            start_id: 0,
            end_id: 0,
            message_count: CHUNK_SIZE + 1,
            file_path: "x".to_string(),
        }],
        total_messages: CHUNK_SIZE + 1,
    };
    assert!(!validate_index(&bad_count));
}
