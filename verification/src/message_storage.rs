//! Chunked, paginated storage of an ordered message log.
//!
//! A conversation's messages are split into consecutive chunks of at most
//! [`CHUNK_SIZE`] messages; each chunk is persisted as one file and a light
//! index ([`ChunkIndex`]) records the chunk boundaries.  Arbitrary
//! offset/length windows are then served by reading only the chunks that
//! intersect the window.  The functions here compute the partition, decide
//! which chunks a window needs, and assemble the window from the loaded
//! chunk contents; reading and writing the files themselves is the caller's
//! part.

use crate::models::{
    Attachment, Author, MessageReference, attachments_eq, author_eq, opt_msg_ref_eq, opt_str_eq,
};
use crate::strutil::{dec_rep, str_views, usize_to_dec};
use vstd::prelude::*;

verus! {

/// Number of messages per persisted chunk.
pub const CHUNK_SIZE: usize = 500;

/// One archived message, at its dense position `id` in the conversation.
pub struct StoredMessage {
    pub id: u64,
    pub original_id: String,
    pub message_type: String,
    pub timestamp: u64,
    pub timestamp_edited: Option<String>,
    pub call_ended_timestamp: Option<String>,
    pub is_pinned: bool,
    pub content: String,
    pub author: Author,
    pub attachments: Vec<Attachment>,
    pub embeds: Vec<serde_json::Value>,
    pub stickers: Vec<serde_json::Value>,
    pub reactions: Vec<serde_json::Value>,
    pub mentions: Vec<serde_json::Value>,
    pub inline_emojis: Vec<serde_json::Value>,
    pub media_refs: Vec<String>,
    pub reference: Option<MessageReference>,
    pub referenced_message: Option<Box<StoredMessage>>,
}

/// Field-by-field content equality of two stored messages, leaving out the
/// denormalized reply copy.
pub open spec fn msg_shallow_eq(a: StoredMessage, b: StoredMessage) -> bool {
    &&& a.id == b.id
    &&& a.original_id@ == b.original_id@
    &&& a.message_type@ == b.message_type@
    &&& a.timestamp == b.timestamp
    &&& opt_str_eq(a.timestamp_edited, b.timestamp_edited)
    &&& opt_str_eq(a.call_ended_timestamp, b.call_ended_timestamp)
    &&& a.is_pinned == b.is_pinned
    &&& a.content@ == b.content@
    &&& author_eq(a.author, b.author)
    &&& attachments_eq(a.attachments@, b.attachments@)
    &&& a.embeds@ == b.embeds@
    &&& a.stickers@ == b.stickers@
    &&& a.reactions@ == b.reactions@
    &&& a.mentions@ == b.mentions@
    &&& a.inline_emojis@ == b.inline_emojis@
    &&& str_views(a.media_refs@) == str_views(b.media_refs@)
    &&& opt_msg_ref_eq(a.reference, b.reference)
}

/// Content equality of two stored messages, the denormalized reply copies
/// included.
pub open spec fn msg_eq(a: StoredMessage, b: StoredMessage) -> bool
    decreases a,
{
    &&& msg_shallow_eq(a, b)
    &&& match (a.referenced_message, b.referenced_message) {
        (Option::None, Option::None) => true,
        (Option::Some(x), Option::Some(y)) => msg_eq(*x, *y),
        _ => false,
    }
}

impl Clone for StoredMessage {
    /// A deep copy, equal in content to the original.
    fn clone(&self) -> (r: Self)
        ensures
            msg_eq(r, *self),
        decreases *self,
    {
        let referenced_message: Option<Box<StoredMessage>> = match &self.referenced_message {
            Some(b) => Some(Box::new((**b).clone())),
            None => None,
        };
        let r = StoredMessage {
            id: self.id,
            original_id: self.original_id.clone(),
            message_type: self.message_type.clone(),
            timestamp: self.timestamp,
            timestamp_edited: self.timestamp_edited.clone(),
            call_ended_timestamp: self.call_ended_timestamp.clone(),
            is_pinned: self.is_pinned,
            content: self.content.clone(),
            author: self.author.clone(),
            attachments: self.attachments.clone(),
            embeds: self.embeds.clone(),
            stickers: self.stickers.clone(),
            reactions: self.reactions.clone(),
            mentions: self.mentions.clone(),
            inline_emojis: self.inline_emojis.clone(),
            media_refs: self.media_refs.clone(),
            reference: self.reference.clone(),
            referenced_message,
        };
        proof {
            assert(r.embeds@ =~= self.embeds@);
            assert(r.stickers@ =~= self.stickers@);
            assert(r.reactions@ =~= self.reactions@);
            assert(r.mentions@ =~= self.mentions@);
            assert(r.inline_emojis@ =~= self.inline_emojis@);
            assert(str_views(r.media_refs@) =~= str_views(self.media_refs@));
            assert(attachments_eq(r.attachments@, self.attachments@));
        }
        r
    }
}

/// Boundaries and location of one persisted chunk.
pub struct ChunkMeta {
    pub chunk_id: usize,
    pub start_id: u64,
    pub end_id: u64,
    pub message_count: usize,
    pub file_path: String,
}

/// The authoritative record of how a conversation is chunked.
pub struct ChunkIndex {
    pub chunks: Vec<ChunkMeta>,
    pub total_messages: usize,
}

/// The views of a list of chunk contents.
pub open spec fn views_of(parts: Seq<Vec<StoredMessage>>) -> Seq<Seq<StoredMessage>> {
    parts.map_values(|v: Vec<StoredMessage>| v@)
}

/// The partition of `s` into consecutive chunks of at most `size` elements.
pub open spec fn spec_chunks<T>(s: Seq<T>, size: int) -> Seq<Seq<T>>
    decreases s.len(),
    when size > 0
{
    if s.len() == 0 {
        Seq::empty()
    } else if s.len() <= size {
        seq![s]
    } else {
        seq![s.take(size)] + spec_chunks(s.skip(size), size)
    }
}

/// The number of messages that precede chunk `i`.
pub open spec fn offset_of(metas: Seq<ChunkMeta>, i: int) -> int
    decreases i,
{
    if i <= 0 {
        0
    } else {
        offset_of(metas, i - 1) + metas[i - 1].message_count
    }
}

/// A chunk index is well formed when the chunk counts are positive, at most
/// [`CHUNK_SIZE`], and sum to the total message count.
pub open spec fn wf_index(index: ChunkIndex) -> bool {
    &&& offset_of(index.chunks@, index.chunks@.len() as int) == index.total_messages
    &&& forall|i: int|
        0 <= i < index.chunks@.len() ==> 1 <= (#[trigger] index.chunks@[i]).message_count
            <= CHUNK_SIZE
}

/// Chunk offsets never decrease.
pub proof fn lemma_offset_monotone(metas: Seq<ChunkMeta>, i: int, j: int)
    requires
        i <= j,
    ensures
        offset_of(metas, i) <= offset_of(metas, j),
    decreases j - i,
{
    if i < j {
        lemma_offset_monotone(metas, i, j - 1);
    }
}

/// Appending a chunk does not change the offsets of the chunks before it.
pub proof fn lemma_offset_push(metas: Seq<ChunkMeta>, m: ChunkMeta, i: int)
    requires
        0 <= i <= metas.len(),
    ensures
        offset_of(metas.push(m), i) == offset_of(metas, i),
    decreases i,
{
    if i > 0 {
        lemma_offset_push(metas, m, i - 1);
    }
}

/// The flattened length of chunk contents whose lengths match the metas'
/// counts is the span between the outer offsets.
proof fn lemma_flatten_len(metas: Seq<ChunkMeta>, parts: Seq<Seq<StoredMessage>>, first: int)
    requires
        0 <= first,
        first + parts.len() <= metas.len(),
        forall|i: int|
            0 <= i < parts.len() ==> (#[trigger] parts[i]).len() == metas[first + i].message_count,
    ensures
        parts.flatten().len() == offset_of(metas, first + parts.len()) - offset_of(metas, first),
    decreases parts.len(),
{
    if parts.len() == 0 {
        assert(parts.flatten() =~= Seq::<StoredMessage>::empty());
    } else {
        let rest = parts.drop_last();
        lemma_flatten_len(metas, rest, first);
        vstd::seq_lib::lemma_flatten_concat(rest, seq![parts.last()]);
        assert(rest + seq![parts.last()] =~= parts);
        seq![parts.last()].lemma_flatten_one_element();
    }
}

/// Concatenating the chunks of a sequence, in chunk order, reconstructs the
/// sequence exactly: the chunk partition loses and reorders nothing.
pub proof fn lemma_chunks_reconstruct<T>(s: Seq<T>, size: int)
    requires
        size > 0,
    ensures
        spec_chunks(s, size).flatten() == s,
    decreases s.len(),
{
    if s.len() == 0 {
        assert(spec_chunks(s, size).flatten() =~= s);
    } else if s.len() <= size {
        spec_chunks(s, size).lemma_flatten_one_element();
        assert(spec_chunks(s, size).flatten() =~= s);
    } else {
        lemma_chunks_reconstruct(s.skip(size), size);
        vstd::seq_lib::lemma_flatten_concat(seq![s.take(size)], spec_chunks(s.skip(size), size));
        seq![s.take(size)].lemma_flatten_one_element();
        assert(seq![s.take(size)] + spec_chunks(s.skip(size), size) =~= spec_chunks(s, size));
        assert(spec_chunks(s, size).flatten() =~= s.take(size) + s.skip(size));
        assert(s.take(size) + s.skip(size) =~= s);
    }
}

/// Splitting off the first chunk unfolds the chunk partition by one step.
proof fn lemma_spec_chunks_step<T>(s: Seq<T>, size: int, take: int)
    requires
        size > 0,
        s.len() > 0,
        take == if s.len() <= size { s.len() as int } else { size },
    ensures
        spec_chunks(s, size) == seq![s.take(take)] + spec_chunks(s.skip(take), size),
{
    if s.len() <= size {
        assert(s.take(take) =~= s);
        assert(s.skip(take) =~= Seq::<T>::empty());
        assert(spec_chunks(s.skip(take), size) =~= Seq::<Seq<T>>::empty());
        assert(seq![s.take(take)] + spec_chunks(s.skip(take), size) =~= seq![s]);
    }
}

/// One partition step preserves the chunk-building invariants: appending the
/// split-off chunk and its meta keeps the partition equation, the offsets,
/// and the per-chunk facts.
#[verifier::rlimit(100)]
proof fn lemma_create_chunks_step(
    orig: Seq<StoredMessage>,
    dir: Seq<char>,
    metas_before: Seq<ChunkMeta>,
    parts_before: Seq<Vec<StoredMessage>>,
    rem_before: Seq<StoredMessage>,
    metas: Seq<ChunkMeta>,
    parts: Seq<Vec<StoredMessage>>,
    remaining: Seq<StoredMessage>,
    offset_before: int,
    take: int,
)
    requires
        rem_before.len() > 0,
        0 <= offset_before,
        take == if rem_before.len() > CHUNK_SIZE { CHUNK_SIZE as int } else { rem_before.len() as int },
        offset_before + rem_before.len() == orig.len(),
        rem_before == orig.skip(offset_before),
        parts_before.len() == metas_before.len(),
        offset_of(metas_before, metas_before.len() as int) == offset_before,
        spec_chunks(orig, CHUNK_SIZE as int) == views_of(parts_before) + spec_chunks(
            rem_before,
            CHUNK_SIZE as int,
        ),
        parts.len() == parts_before.len() + 1,
        parts.drop_last() == parts_before,
        parts.last()@ == rem_before.take(take),
        metas == metas_before.push(metas.last()),
        ({
            let m = metas.last();
            &&& m.chunk_id == metas_before.len()
            &&& m.message_count == take
            &&& m.start_id == rem_before[0].id
            &&& m.end_id == rem_before[take - 1].id
            &&& m.file_path@ == spec_chunk_path(dir, metas_before.len() as int)
        }),
        remaining == rem_before.skip(take),
    ensures
        parts.len() == metas.len(),
        offset_of(metas, metas.len() as int) == offset_before + take,
        remaining == orig.skip(offset_before + take),
        spec_chunks(orig, CHUNK_SIZE as int) == views_of(parts) + spec_chunks(
            remaining,
            CHUNK_SIZE as int,
        ),
        forall|i: int|
            0 <= i <= metas_before.len() ==> #[trigger] offset_of(metas, i) == offset_of(
                metas_before,
                i,
            ),
        metas.last().start_id == orig[offset_before].id,
        metas.last().end_id == orig[offset_before + take - 1].id,
{
    let cs = CHUNK_SIZE as int;
    let part = rem_before.take(take);
    lemma_spec_chunks_step(rem_before, cs, take);
    assert(parts[parts.len() - 1]@ =~= part);
    assert(parts =~= parts_before.push(parts.last()));
    assert(views_of(parts) =~= views_of(parts_before).push(part));
    assert(views_of(parts_before).push(part) + spec_chunks(remaining, cs) =~= views_of(
        parts_before,
    ) + (seq![part] + spec_chunks(remaining, cs)));
    assert forall|i: int| 0 <= i <= metas_before.len() implies offset_of(metas, i) == offset_of(
        metas_before,
        i,
    ) by {
        lemma_offset_push(metas_before, metas[metas.len() - 1], i);
    }
    assert(offset_of(metas, metas.len() - 1) == offset_before);
    assert(offset_of(metas, metas.len() as int) == offset_before + take);
    assert(part[0] == rem_before[0]);
    assert(rem_before[0] == orig[offset_before]);
    assert(part[part.len() - 1] == rem_before[take - 1]);
    assert(rem_before[take - 1] == orig[offset_before + take - 1]);
    assert(part[0] == orig[offset_of(metas, metas.len() - 1)]);
    assert(part[part.len() - 1] == orig[offset_of(metas, metas.len() as int) - 1]);
    assert(remaining =~= orig.skip(offset_before + take));
}

/// The per-chunk facts survive appending one more chunk and its meta.
#[verifier::rlimit(100)]
proof fn lemma_create_chunks_metas(
    orig: Seq<StoredMessage>,
    dir: Seq<char>,
    metas_before: Seq<ChunkMeta>,
    parts_before: Seq<Vec<StoredMessage>>,
    metas: Seq<ChunkMeta>,
    parts: Seq<Vec<StoredMessage>>,
    part: Seq<StoredMessage>,
    offset_before: int,
    take: int,
)
    requires
        1 <= take <= CHUNK_SIZE,
        part.len() == take,
        parts_before.len() == metas_before.len(),
        forall|i: int|
            0 <= i < metas_before.len() ==> {
                let m = #[trigger] metas_before[i];
                &&& m.chunk_id == i
                &&& m.message_count == views_of(parts_before)[i].len()
                &&& 1 <= m.message_count <= CHUNK_SIZE
                &&& m.start_id == orig[offset_of(metas_before, i)].id
                &&& m.end_id == orig[offset_of(metas_before, i + 1) - 1].id
                &&& m.file_path@ == spec_chunk_path(dir, i)
            },
        metas == metas_before.push(metas.last()),
        parts.len() == parts_before.len() + 1,
        parts.drop_last() == parts_before,
        parts.last()@ == part,
        forall|i: int|
            0 <= i <= metas_before.len() ==> #[trigger] offset_of(metas, i) == offset_of(
                metas_before,
                i,
            ),
        ({
            let m = metas.last();
            &&& m.chunk_id == metas_before.len()
            &&& m.message_count == take
            &&& m.start_id == orig[offset_before].id
            &&& m.end_id == orig[offset_before + take - 1].id
            &&& m.file_path@ == spec_chunk_path(dir, metas_before.len() as int)
        }),
        offset_of(metas_before, metas_before.len() as int) == offset_before,
        offset_of(metas, metas.len() as int) == offset_before + take,
    ensures
        forall|i: int|
            0 <= i < metas.len() ==> {
                let m = #[trigger] metas[i];
                &&& m.chunk_id == i
                &&& m.message_count == views_of(parts)[i].len()
                &&& 1 <= m.message_count <= CHUNK_SIZE
                &&& m.start_id == orig[offset_of(metas, i)].id
                &&& m.end_id == orig[offset_of(metas, i + 1) - 1].id
                &&& m.file_path@ == spec_chunk_path(dir, i)
            },
{
    assert forall|i: int| 0 <= i < metas.len() implies {
        let m = #[trigger] metas[i];
        &&& m.chunk_id == i
        &&& m.message_count == views_of(parts)[i].len()
        &&& 1 <= m.message_count <= CHUNK_SIZE
        &&& m.start_id == orig[offset_of(metas, i)].id
        &&& m.end_id == orig[offset_of(metas, i + 1) - 1].id
        &&& m.file_path@ == spec_chunk_path(dir, i)
    } by {
        assert(parts =~= parts_before.push(parts.last()));
        if i < metas_before.len() {
            assert(metas[i] == metas_before[i]);
            assert(views_of(parts)[i] == views_of(parts_before)[i]);
            assert(offset_of(metas, i) == offset_of(metas_before, i));
            assert(offset_of(metas, i + 1) == offset_of(metas_before, i + 1));
        } else {
            assert(views_of(parts)[i] == part);
            assert(offset_of(metas, i) == offset_before);
            assert(offset_of(metas, i + 1) == offset_before + take);
        }
    }
}

impl ChunkIndex {
    /// An empty index: no chunks, no messages.
    pub fn new() -> (r: Self)
        ensures
            r.chunks@.len() == 0,
            r.total_messages == 0,
    {
        ChunkIndex { chunks: Vec::new(), total_messages: 0 }
    }

    /// The first chunk whose id range contains `message_id`, if any.
    pub fn find_chunk_for_message(&self, message_id: u64) -> (r: Option<&ChunkMeta>)
        ensures
            match r {
                Some(m) => exists|i: int|
                    0 <= i < self.chunks@.len() && *m == self.chunks@[i] && (
                    #[trigger] self.chunks@[i]).start_id <= message_id <= self.chunks@[i].end_id
                        && forall|k: int|
                        0 <= k < i ==> !((#[trigger] self.chunks@[k]).start_id <= message_id
                            <= self.chunks@[k].end_id),
                None => forall|k: int|
                    0 <= k < self.chunks@.len() ==> !((#[trigger] self.chunks@[k]).start_id
                        <= message_id <= self.chunks@[k].end_id),
            },
    {
        let mut i: usize = 0;
        while i < self.chunks.len()
            invariant
                i <= self.chunks@.len(),
                forall|k: int|
                    0 <= k < i ==> !((#[trigger] self.chunks@[k]).start_id <= message_id
                        <= self.chunks@[k].end_id),
            decreases self.chunks@.len() - i,
        {
            let m = &self.chunks[i];
            if m.start_id <= message_id && message_id <= m.end_id {
                return Some(m);
            }
            i = i + 1;
        }
        None
    }
}

/// Storage of one conversation's messages under one import directory.
pub struct MessageStorage {
    pub import_dir: String,
}

/// The file path of chunk `i`: `<dir>/chunks/chunk_<i>.json`.
pub open spec fn spec_chunk_path(dir: Seq<char>, i: int) -> Seq<char> {
    dir + "/chunks/chunk_"@ + dec_rep(i) + ".json"@
}

impl MessageStorage {
    /// Storage rooted at the given import directory.
    pub fn new(import_dir: String) -> (r: Self)
        ensures
            r.import_dir@ == import_dir@,
    {
        MessageStorage { import_dir }
    }

    fn chunk_path(&self, n: usize) -> (r: String)
        ensures
            r@ == spec_chunk_path(self.import_dir@, n as int),
    {
        let mut s = self.import_dir.clone();
        s.append("/chunks/chunk_");
        let num = usize_to_dec(n);
        s.append(num.as_str());
        s.append(".json");
        s
    }

    /// Partitions `messages` into consecutive chunks of at most
    /// [`CHUNK_SIZE`], and builds the index recording their boundaries.  The
    /// caller persists each returned chunk under the matching meta's
    /// `file_path`, and the index beside them.
    #[verifier::rlimit(100)]
    pub fn create_chunks(&self, messages: Vec<StoredMessage>) -> (r: (
        ChunkIndex,
        Vec<Vec<StoredMessage>>,
    ))
        ensures
            views_of(r.1@) == spec_chunks(messages@, CHUNK_SIZE as int),
            r.0.total_messages == messages@.len(),
            r.0.chunks@.len() == r.1@.len(),
            wf_index(r.0),
            forall|i: int|
                0 <= i < r.0.chunks@.len() ==> {
                    let m = #[trigger] r.0.chunks@[i];
                    &&& m.chunk_id == i
                    &&& m.message_count == views_of(r.1@)[i].len()
                    &&& m.start_id == messages@[offset_of(r.0.chunks@, i)].id
                    &&& m.end_id == messages@[offset_of(r.0.chunks@, i + 1) - 1].id
                    &&& m.file_path@ == spec_chunk_path(self.import_dir@, i)
                },
    {
        let ghost orig = messages@;
        let total = messages.len();
        let mut parts: Vec<Vec<StoredMessage>> = Vec::new();
        let mut metas: Vec<ChunkMeta> = Vec::new();
        let mut remaining = messages;
        let mut offset: usize = 0;
        while remaining.len() > 0
            invariant
                orig.len() <= usize::MAX,
                offset + remaining@.len() == orig.len(),
                remaining@ =~= orig.skip(offset as int),
                parts@.len() == metas@.len(),
                offset_of(metas@, metas@.len() as int) == offset,
                spec_chunks(orig, CHUNK_SIZE as int) == views_of(parts@) + spec_chunks(
                    remaining@,
                    CHUNK_SIZE as int,
                ),
                forall|i: int|
                    0 <= i < metas@.len() ==> {
                        let m = #[trigger] metas@[i];
                        &&& m.chunk_id == i
                        &&& m.message_count == views_of(parts@)[i].len()
                        &&& 1 <= m.message_count <= CHUNK_SIZE
                        &&& m.start_id == orig[offset_of(metas@, i)].id
                        &&& m.end_id == orig[offset_of(metas@, i + 1) - 1].id
                        &&& m.file_path@ == spec_chunk_path(self.import_dir@, i)
                    },
            decreases remaining@.len(),
        {
            let ghost metas_before = metas@;
            let ghost parts_before = parts@;
            let ghost rem_before = remaining@;
            let take: usize = if remaining.len() > CHUNK_SIZE {
                CHUNK_SIZE
            } else {
                remaining.len()
            };
            let rest = remaining.split_off(take);
            // `remaining` is now this chunk's contents; `rest` is what follows.
            let start_id = remaining[0].id;
            let end_id = remaining[remaining.len() - 1].id;
            let file_path = self.chunk_path(metas.len());
            let meta = ChunkMeta {
                chunk_id: metas.len(),
                start_id,
                end_id,
                message_count: remaining.len(),
                file_path,
            };
            metas.push(meta);
            parts.push(remaining);
            remaining = rest;
            offset = offset + take;
            proof {
                assert(remaining@ =~= rem_before.skip(take as int));
                assert(parts@.drop_last() =~= parts_before);
                assert(metas@ =~= metas_before.push(metas@.last()));
                lemma_create_chunks_step(
                    orig,
                    self.import_dir@,
                    metas_before,
                    parts_before,
                    rem_before,
                    metas@,
                    parts@,
                    remaining@,
                    (offset - take) as int,
                    take as int,
                );
                lemma_create_chunks_metas(
                    orig,
                    self.import_dir@,
                    metas_before,
                    parts_before,
                    metas@,
                    parts@,
                    rem_before.take(take as int),
                    (offset - take) as int,
                    take as int,
                );
            }
        }
        proof {
            assert(spec_chunks(remaining@, CHUNK_SIZE as int)
                =~= Seq::<Seq<StoredMessage>>::empty());
            assert(views_of(parts@) + Seq::<Seq<StoredMessage>>::empty() =~= views_of(parts@));
        }
        let index = ChunkIndex { chunks: metas, total_messages: total };
        (index, parts)
    }
}

/// Checks a loaded index for consistency: counts in range and summing to
/// the total.  A corrupt or hand-edited index file fails this check and must
/// be treated as invalid data.
#[verifier::loop_isolation(false)]
pub fn validate_index(index: &ChunkIndex) -> (r: bool)
    ensures
        r == wf_index(*index),
{
    let total = index.total_messages;
    let mut cum: usize = 0;
    let mut k: usize = 0;
    while k < index.chunks.len()
        invariant
            k <= index.chunks@.len(),
            cum == offset_of(index.chunks@, k as int),
            cum <= total,
            forall|i: int|
                0 <= i < k ==> 1 <= (#[trigger] index.chunks@[i]).message_count <= CHUNK_SIZE,
        decreases index.chunks@.len() - k,
    {
        let c = index.chunks[k].message_count;
        if c < 1 || c > CHUNK_SIZE {
            return false;
        }
        if c > total - cum {
            // The offsets would overshoot the recorded total.
            proof {
                lemma_offset_monotone(index.chunks@, k as int + 1, index.chunks@.len() as int);
            }
            return false;
        }
        cum = cum + c;
        k = k + 1;
    }
    cum == total
}

/// The first chunk at or after `k` not entirely before position `start`.
pub open spec fn scan_first(metas: Seq<ChunkMeta>, start: int, k: int) -> int
    decreases metas.len() - k,
{
    if k < 0 || k >= metas.len() {
        metas.len() as int
    } else if offset_of(metas, k + 1) <= start {
        scan_first(metas, start, k + 1)
    } else {
        k
    }
}

/// The first chunk the window starting at `start` intersects.
pub open spec fn first_chunk(metas: Seq<ChunkMeta>, start: int) -> int {
    scan_first(metas, start, 0)
}

/// The first chunk at or after `k` that starts at or past `limit`.
pub open spec fn scan_end(metas: Seq<ChunkMeta>, limit: int, k: int) -> int
    decreases metas.len() - k,
{
    if k < 0 || k >= metas.len() {
        metas.len() as int
    } else if offset_of(metas, k) >= limit {
        k
    } else {
        scan_end(metas, limit, k + 1)
    }
}

/// One past the last chunk the window `[start, start + count)` intersects
/// (for `count > 0`).
pub open spec fn end_chunk(metas: Seq<ChunkMeta>, start: int, count: int) -> int {
    scan_end(metas, start + count, first_chunk(metas, start))
}

proof fn lemma_scan_first_props(metas: Seq<ChunkMeta>, start: int, k: int)
    requires
        0 <= k <= metas.len(),
        forall|j: int| 0 <= j < k ==> #[trigger] offset_of(metas, j + 1) <= start,
    ensures
        k <= scan_first(metas, start, k) <= metas.len(),
        forall|j: int|
            0 <= j < scan_first(metas, start, k) ==> #[trigger] offset_of(metas, j + 1) <= start,
        scan_first(metas, start, k) < metas.len() ==> offset_of(
            metas,
            scan_first(metas, start, k) + 1,
        ) > start,
        offset_of(metas, scan_first(metas, start, k)) <= start || scan_first(metas, start, k) == 0,
    decreases metas.len() - k,
{
    if k < metas.len() && offset_of(metas, k + 1) <= start {
        lemma_scan_first_props(metas, start, k + 1);
    } else {
        if k > 0 {
            assert(offset_of(metas, (k - 1) + 1) <= start);
        }
    }
}

proof fn lemma_scan_end_props(metas: Seq<ChunkMeta>, limit: int, k: int)
    requires
        0 <= k <= metas.len(),
    ensures
        k <= scan_end(metas, limit, k) <= metas.len(),
        forall|j: int| k <= j < scan_end(metas, limit, k) ==> #[trigger] offset_of(metas, j) < limit,
        scan_end(metas, limit, k) < metas.len() ==> offset_of(metas, scan_end(metas, limit, k))
            >= limit,
    decreases metas.len() - k,
{
    if k < metas.len() && offset_of(metas, k) < limit {
        lemma_scan_end_props(metas, limit, k + 1);
    }
}

fn scan_first_exec(index: &ChunkIndex, start: usize) -> (r: (usize, usize))
    requires
        wf_index(*index),
    ensures
        r.0 == first_chunk(index.chunks@, start as int),
        r.1 == offset_of(index.chunks@, r.0 as int),
{
    let ghost metas = index.chunks@;
    let n = index.chunks.len();
    let mut k: usize = 0;
    let mut cum: usize = 0;
    while k < n
        invariant
            wf_index(*index),
            metas == index.chunks@,
            n == metas.len(),
            k <= n,
            cum == offset_of(metas, k as int),
            first_chunk(metas, start as int) == scan_first(metas, start as int, k as int),
        decreases n - k,
    {
        proof {
            lemma_offset_monotone(metas, k as int + 1, metas.len() as int);
        }
        let c = index.chunks[k].message_count;
        if cum + c > start {
            return (k, cum);
        }
        cum = cum + c;
        k = k + 1;
    }
    (k, cum)
}

fn scan_end_exec(index: &ChunkIndex, start: usize, count: usize, first: usize, first_offset: usize)
    -> (r: usize)
    requires
        wf_index(*index),
        count > 0,
        first == first_chunk(index.chunks@, start as int),
        first_offset == offset_of(index.chunks@, first as int),
    ensures
        r == end_chunk(index.chunks@, start as int, count as int),
{
    let ghost metas = index.chunks@;
    let ghost limit = start as int + count as int;
    proof {
        lemma_scan_first_props(metas, start as int, 0);
    }
    let n = index.chunks.len();
    let mut k: usize = first;
    let mut cum: usize = first_offset;
    while k < n
        invariant
            wf_index(*index),
            metas == index.chunks@,
            n == metas.len(),
            limit == start as int + count as int,
            first <= k <= n,
            cum == offset_of(metas, k as int),
            end_chunk(metas, start as int, count as int) == scan_end(metas, limit, k as int),
        decreases n - k,
    {
        if cum >= start && cum - start >= count {
            return k;
        }
        proof {
            lemma_offset_monotone(metas, k as int + 1, metas.len() as int);
        }
        let c = index.chunks[k].message_count;
        cum = cum + c;
        k = k + 1;
    }
    k
}

/// Which chunks serve the window `[start, start + count)`, and how many
/// messages precede the first of them.  Returns `(first, end, first_offset)`:
/// the window is found in chunks `first .. end`.  A `count` of zero needs no
/// chunks at all.
pub fn chunks_to_load(index: &ChunkIndex, start: usize, count: usize) -> (r: (usize, usize, usize))
    requires
        wf_index(*index),
    ensures
        count == 0 ==> r == (0usize, 0usize, 0usize),
        count > 0 ==> {
            &&& r.0 == first_chunk(index.chunks@, start as int)
            &&& r.1 == end_chunk(index.chunks@, start as int, count as int)
            &&& r.2 == offset_of(index.chunks@, r.0 as int)
        },
{
    if count == 0 {
        return (0, 0, 0);
    }
    let (first, first_offset) = scan_first_exec(index, start);
    let end = scan_end_exec(index, start, count, first, first_offset);
    (first, end, first_offset)
}

/// How many messages the window `[start, start + count)` can hold in a
/// conversation of `total` messages: `count`, cut short at the end of the
/// conversation, and zero when `start` is at or past it.
pub open spec fn spec_window_len(total: int, start: int, count: int) -> int {
    if start >= total {
        0
    } else if count <= total - start {
        count
    } else {
        total - start
    }
}

/// Round trip of the chunk store: partitioning a conversation with
/// [`MessageStorage::create_chunks`] and assembling the full window
/// `[0, total)` from all of its chunks returns exactly the original
/// sequence — no message is lost, duplicated or reordered.
pub proof fn lemma_chunk_roundtrip(msgs: Seq<StoredMessage>)
    ensures
        spec_window_of_parts(spec_chunks(msgs, CHUNK_SIZE as int), 0, msgs.len() as int) == msgs,
{
    lemma_chunks_reconstruct(msgs, CHUNK_SIZE as int);
    assert(spec_chunks(msgs, CHUNK_SIZE as int).flatten().subrange(0, msgs.len() as int) =~= msgs);
}

/// `len` messages taken from the loaded chunk contents, `skip` positions into
/// the first loaded chunk.
pub open spec fn spec_window_of_parts(
    parts: Seq<Seq<StoredMessage>>,
    skip: int,
    len: int,
) -> Seq<StoredMessage> {
    parts.flatten().subrange(skip, skip + len)
}

/// Assembles the window `[start, start + count)` from the loaded contents of
/// the chunks named by [`chunks_to_load`].  `parts` holds those chunks'
/// contents, in chunk order; the result is the window itself, which is
/// shorter than `count` only where the conversation ends first.
#[verifier::rlimit(100)]
pub fn load_messages_range(
    index: &ChunkIndex,
    start: usize,
    count: usize,
    parts: Vec<Vec<StoredMessage>>,
) -> (r: Vec<StoredMessage>)
    requires
        wf_index(*index),
        count == 0 ==> parts@.len() == 0,
        count > 0 ==> parts@.len() == end_chunk(index.chunks@, start as int, count as int)
            - first_chunk(index.chunks@, start as int),
        forall|i: int|
            0 <= i < parts@.len() ==> (#[trigger] parts@[i])@.len() == index.chunks@[first_chunk(
                index.chunks@,
                start as int,
            ) + i].message_count,
    ensures
        r@.len() == spec_window_len(index.total_messages as int, start as int, count as int),
        spec_window_len(index.total_messages as int, start as int, count as int) == 0 ==> r@
            == Seq::<StoredMessage>::empty(),
        spec_window_len(index.total_messages as int, start as int, count as int) > 0 ==> r@
            == spec_window_of_parts(
            views_of(parts@),
            start as int - offset_of(index.chunks@, first_chunk(index.chunks@, start as int)),
            spec_window_len(index.total_messages as int, start as int, count as int),
        ),
{
    let ghost metas = index.chunks@;
    let ghost all_parts = views_of(parts@);
    let ghost first = first_chunk(metas, start as int);
    let ghost endc = end_chunk(metas, start as int, count as int);
    let total = index.total_messages;
    let k: usize = if start >= total {
        0
    } else if count <= total - start {
        count
    } else {
        total - start
    };
    proof {
        lemma_scan_first_props(metas, start as int, 0);
        if count > 0 {
            lemma_scan_end_props(metas, start as int + count as int, first);
            lemma_flatten_len(metas, all_parts, first);
        }
    }
    let mut out: Vec<StoredMessage> = Vec::new();
    if parts.len() == 0 {
        proof {
            if k > 0 {
                // A non-empty window intersects at least one chunk.
                if first == metas.len() {
                    if metas.len() == 0 {
                        assert(total == 0);
                    } else {
                        assert(offset_of(metas, (metas.len() - 1) + 1) <= start as int);
                    }
                    assert(false);
                }
                assert(offset_of(metas, first) <= start as int);
                assert(endc == first);
                assert(offset_of(metas, first) >= start as int + count as int);
                assert(false);
            }
            assert(out@ =~= Seq::<StoredMessage>::empty());
        }
        return out;
    }
    let (f, e, first_offset) = chunks_to_load(index, start, count);
    let skip = start - first_offset;
    proof {
        // The window starts inside the first loaded chunk.
        assert(all_parts[0].len() == metas[first].message_count);
        assert(offset_of(metas, first + 1) == offset_of(metas, first)
            + metas[first].message_count);
        assert(offset_of(metas, first + 1) > start as int);
    }
    let mut rest = parts;
    let mut consumed: usize = 0;
    let ghost nparts = all_parts.len();
    proof {
        assert(views_of(rest@) =~= all_parts.skip(0));
    }
    while rest.len() > 0
        invariant
            nparts <= usize::MAX,
            consumed + rest@.len() == nparts,
            nparts == all_parts.len(),
            views_of(rest@) == all_parts.skip(consumed as int),
            skip as int <= all_parts[0].len(),
            consumed == 0 ==> out@.len() == 0,
            consumed > 0 ==> out@ == all_parts.take(consumed as int).flatten().skip(skip as int),
        decreases rest@.len(),
    {
        let ghost rest_before = rest@;
        let mut p = rest.remove(0);
        let ghost p_view = p@;
        proof {
            assert(views_of(rest_before)[0] == p_view);
            assert(all_parts.skip(consumed as int)[0] == all_parts[consumed as int]);
            assert(p_view == all_parts[consumed as int]);
            assert(views_of(rest@) =~= views_of(rest_before).skip(1));
            assert(all_parts.skip(consumed as int).skip(1) =~= all_parts.skip(consumed as int + 1));
        }
        if consumed == 0 {
            let mut tail = p.split_off(skip);
            out.append(&mut tail);
            proof {
                assert(all_parts.take(1) =~= seq![all_parts[0]]);
                all_parts.take(1).lemma_flatten_one_element();
                assert(out@ =~= all_parts.take(1).flatten().skip(skip as int));
            }
        } else {
            out.append(&mut p);
            proof {
                assert(all_parts.take(consumed as int + 1) =~= all_parts.take(
                    consumed as int,
                ).push(p_view));
                all_parts.take(consumed as int).lemma_flatten_push(p_view);
                assert(out@ =~= all_parts.take(consumed as int + 1).flatten().skip(skip as int));
            }
        }
        consumed = consumed + 1;
    }
    proof {
        assert(all_parts.take(nparts as int) =~= all_parts);
        assert(out@ == all_parts.flatten().skip(skip as int));
        // The requested window fits in what was loaded.
        assert(all_parts.flatten().len() == offset_of(metas, first + all_parts.len())
            - offset_of(metas, first));
        assert(first + all_parts.len() == endc);
        if k > 0 {
            if endc < metas.len() {
                assert(offset_of(metas, endc) >= start as int + count as int);
            } else {
                assert(offset_of(metas, metas.len() as int) == total as int);
            }
            assert(skip as int + k as int <= all_parts.flatten().len());
        }
    }
    let ghost before_trunc = out@;
    out.truncate(k);
    proof {
        if k == 0 {
            assert(out@ =~= Seq::<StoredMessage>::empty());
        } else {
            assert(k as int <= before_trunc.len());
            assert(out@ =~= spec_window_of_parts(all_parts, skip as int, k as int));
        }
    }
    out
}

} // verus!
