//! The two text-analysis pipelines of the search index.
//!
//! Both pipelines split the raw text on word boundaries, drop overlong
//! tokens and lowercase the rest.  The "exact" pipeline then stems each
//! token; the "fuzzy" pipeline instead expands each token into its edge
//! n-grams: one output token per prefix length from [`MIN_GRAM`] up to
//! `min(`[`MAX_GRAM`]`, length)`, so that partial words and typos can still
//! match by prefix overlap.  The n-gram expansion is this crate's own
//! stateful transform, written as a pull-based state machine; the splitting,
//! lowercasing and stemming are the text-analysis library's work.

use crate::strutil::str_eq;
use tantivy::tokenizer::{
    Language, LowerCaser, RemoveLongFilter, SimpleTokenizer, Stemmer, TextAnalyzer, TokenStream,
};
use vstd::prelude::*;
use vstd::string::StringSliceAdditionalSpecFns;
use vstd::string::StrSliceExecFns;
use vstd::utf8::encode_utf8;

verus! {

/// Shortest edge n-gram that the fuzzy pipeline emits.
pub const MIN_GRAM: usize = 3;

/// Longest edge n-gram that the fuzzy pipeline emits.
pub const MAX_GRAM: usize = 12;

/// Tokens longer than this many bytes are dropped before any other filter.
pub const TOKEN_BYTE_LIMIT: usize = 40;

/// One analysis token: its text and the byte offsets it covers.
pub struct Token {
    pub text: String,
    pub offset_from: usize,
    pub offset_to: usize,
}

/// The view of a token: its characters and its offsets.
pub open spec fn token_view(t: Token) -> (Seq<char>, int, int) {
    (t.text@, t.offset_from as int, t.offset_to as int)
}

/// The views of a token list.
pub open spec fn token_views(ts: Seq<Token>) -> Seq<(Seq<char>, int, int)> {
    ts.map_values(|t: Token| token_view(t))
}

impl Clone for Token {
    fn clone(&self) -> (r: Self)
        ensures
            token_view(r) == token_view(*self),
    {
        Token {
            text: self.text.clone(),
            offset_from: self.offset_from,
            offset_to: self.offset_to,
        }
    }
}

/// How many edge n-grams a token of `len` characters yields:
/// `max(0, min(max_gram, len) - min_gram + 1)`.
pub open spec fn num_grams(len: int, min_gram: int, max_gram: int) -> int {
    let top = if max_gram <= len {
        max_gram
    } else {
        len
    };
    if top - min_gram + 1 >= 0 {
        top - min_gram + 1
    } else {
        0
    }
}

/// The edge n-grams of one token: its prefixes of `min_gram` up to
/// `min(max_gram, length)` characters, each starting at the token's offset
/// and spanning the gram's own byte length.
pub open spec fn spec_edge_ngrams(
    text: Seq<char>,
    offset_from: int,
    min_gram: int,
    max_gram: int,
) -> Seq<(Seq<char>, int, int)> {
    Seq::new(
        num_grams(text.len() as int, min_gram, max_gram) as nat,
        |i: int|
            (
                text.take(min_gram + i),
                offset_from,
                offset_from + encode_utf8(text.take(min_gram + i)).len(),
            ),
    )
}

/// Edge-n-gram expansion of a token of character length `L` yields exactly
/// `max(0, min(max_gram, L) - min_gram + 1)` grams, and the `i`-th gram is
/// the token's prefix of `min_gram + i` characters — so every gram is a
/// prefix of the token, and a token shorter than `min_gram` yields none.
pub proof fn lemma_edge_ngram_shape(text: Seq<char>, offset_from: int, min_gram: int, max_gram: int)
    requires
        1 <= min_gram <= max_gram,
    ensures
        spec_edge_ngrams(text, offset_from, min_gram, max_gram).len() == num_grams(
            text.len() as int,
            min_gram,
            max_gram,
        ),
        text.len() < min_gram ==> spec_edge_ngrams(text, offset_from, min_gram, max_gram).len()
            == 0,
        forall|i: int|
            0 <= i < num_grams(text.len() as int, min_gram, max_gram)
                ==> #[trigger] spec_edge_ngrams(text, offset_from, min_gram, max_gram)[i].0
                == text.take(min_gram + i) && min_gram + i <= text.len(),
{
}

/// Encoding a concatenation encodes the pieces one after the other.
proof fn lemma_encode_utf8_concat(a: Seq<char>, b: Seq<char>)
    ensures
        encode_utf8(a + b) == encode_utf8(a) + encode_utf8(b),
    decreases a.len(),
{
    if a.len() == 0 {
        assert(a + b =~= b);
        assert(encode_utf8(a) =~= Seq::<u8>::empty());
        assert(encode_utf8(a) + encode_utf8(b) =~= encode_utf8(b));
    } else {
        assert((a + b).drop_first() =~= a.drop_first() + b);
        lemma_encode_utf8_concat(a.drop_first(), b);
        assert((a + b)[0] == a[0]);
        assert(encode_utf8(a + b) =~= encode_utf8(a) + encode_utf8(b));
    }
}

/// A prefix never encodes to more bytes than the whole.
proof fn lemma_encode_prefix_len(s: Seq<char>, n: int)
    requires
        0 <= n <= s.len(),
    ensures
        encode_utf8(s.take(n)).len() <= encode_utf8(s).len(),
{
    lemma_encode_utf8_concat(s.take(n), s.skip(n));
    assert(s.take(n) + s.skip(n) =~= s);
}

/// The edge n-grams of one source token, in order of increasing length.
pub fn edge_ngrams(text: &str, offset_from: usize, min_gram: usize, max_gram: usize) -> (r: Vec<
    Token,
>)
    requires
        1 <= min_gram <= max_gram,
        offset_from + text.spec_bytes().len() <= usize::MAX,
    ensures
        token_views(r@) == spec_edge_ngrams(text@, offset_from as int, min_gram as int,
        max_gram as int),
{
    let ghost expected = spec_edge_ngrams(text@, offset_from as int, min_gram as int,
        max_gram as int);
    let len_chars = text.unicode_len();
    let top: usize = if max_gram <= len_chars {
        max_gram
    } else {
        len_chars
    };
    let mut out: Vec<Token> = Vec::new();
    if top < min_gram {
        proof {
            assert(token_views(out@) =~= expected);
        }
        return out;
    }
    let total_grams: usize = top - min_gram + 1;
    let mut i: usize = 0;
    while i < total_grams
        invariant
            1 <= min_gram <= max_gram,
            min_gram <= top,
            i <= total_grams,
            total_grams == top + 1 - min_gram,
            top == if max_gram <= text@.len() { max_gram as int } else { text@.len() as int },
            len_chars == text@.len(),
            offset_from + text.spec_bytes().len() <= usize::MAX,
            expected == spec_edge_ngrams(text@, offset_from as int, min_gram as int,
            max_gram as int),
            expected.len() == total_grams,
            token_views(out@) =~= expected.take(i as int),
        decreases total_grams - i,
    {
        let n: usize = min_gram + i;
        let gram_slice = text.substring_char(0, n);
        let byte_len = gram_slice.len();
        proof {
            assert(gram_slice.spec_bytes() == encode_utf8(text@.take(n as int)));
            lemma_encode_prefix_len(text@, n as int);
        }
        let gram = Token {
            text: gram_slice.to_owned(),
            offset_from,
            offset_to: offset_from + byte_len,
        };
        let ghost before = out@;
        out.push(gram);
        proof {
            assert(token_views(out@) =~= token_views(before).push(token_view(out@[out@.len() - 1])));
            assert(expected[i as int].0 == text@.take(n as int));
            assert(token_views(out@) =~= expected.take(i + 1));
        }
        i = i + 1;
    }
    proof {
        assert(expected.take(total_grams as int) =~= expected);
    }
    out
}

/// The edge-n-gram expansion of a whole token stream: each token's grams, in
/// stream order.
pub open spec fn spec_expand(
    tokens: Seq<(Seq<char>, int, int)>,
    min_gram: int,
    max_gram: int,
) -> Seq<(Seq<char>, int, int)> {
    tokens.flat_map(|t: (Seq<char>, int, int)| spec_edge_ngrams(t.0, t.1, min_gram, max_gram))
}

/// The streaming edge-n-gram transform: an explicit state machine over a
/// source token stream, pulled one output token at a time.  `src_idx` points
/// at the token being expanded and `emitted` counts its grams already
/// produced.
pub struct EdgeNgramStream {
    pub source: Vec<Token>,
    pub min_gram: usize,
    pub max_gram: usize,
    pub src_idx: usize,
    pub emitted: usize,
}

impl EdgeNgramStream {
    /// The state machine is consistent: the cursor is inside the stream and
    /// the gram counter never exceeds what the current token can yield.
    pub open spec fn wf(self) -> bool {
        &&& 1 <= self.min_gram <= self.max_gram
        &&& self.src_idx <= self.source@.len()
        &&& (self.src_idx < self.source@.len() ==> self.emitted < num_grams(
            self.source@[self.src_idx as int].text@.len() as int,
            self.min_gram as int,
            self.max_gram as int,
        ))
        &&& self.src_idx == self.source@.len() ==> self.emitted == 0
        &&& forall|i: int|
            0 <= i < self.source@.len() ==> (#[trigger] self.source@[i]).offset_from
                + encode_utf8(self.source@[i].text@).len() <= usize::MAX
    }

    /// Everything the stream has produced so far: all grams of the tokens
    /// already passed, and the first `emitted` grams of the current one.
    pub open spec fn spec_emitted(self) -> Seq<(Seq<char>, int, int)> {
        spec_expand(
            token_views(self.source@).take(self.src_idx as int),
            self.min_gram as int,
            self.max_gram as int,
        ) + spec_edge_ngrams(
            if self.src_idx < self.source@.len() {
                self.source@[self.src_idx as int].text@
            } else {
                Seq::empty()
            },
            if self.src_idx < self.source@.len() {
                self.source@[self.src_idx as int].offset_from as int
            } else {
                0
            },
            self.min_gram as int,
            self.max_gram as int,
        ).take(self.emitted as int)
    }

    /// A fresh stream over `source`, which has produced nothing yet.
    pub fn new(source: Vec<Token>, min_gram: usize, max_gram: usize) -> (r: Self)
        requires
            1 <= min_gram <= max_gram,
            forall|i: int|
                0 <= i < source@.len() ==> (#[trigger] source@[i]).offset_from
                    + encode_utf8(source@[i].text@).len() <= usize::MAX,
        ensures
            r.wf(),
            r.source@ == source@,
            r.min_gram == min_gram,
            r.max_gram == max_gram,
            r.spec_emitted() == Seq::<(Seq<char>, int, int)>::empty(),
    {
        let mut s = EdgeNgramStream { source, min_gram, max_gram, src_idx: 0, emitted: 0 };
        s.settle();
        s
    }

    /// Skips tokens that yield no grams, so that `src_idx` rests on a token
    /// with grams left (or at the end).
    fn settle(&mut self)
        requires
            1 <= old(self).min_gram <= old(self).max_gram,
            old(self).src_idx <= old(self).source@.len(),
            old(self).emitted == 0,
            forall|i: int|
                0 <= i < old(self).source@.len() ==> (#[trigger] old(self).source@[i]).offset_from
                    + encode_utf8(old(self).source@[i].text@).len() <= usize::MAX,
        ensures
            final(self).wf(),
            final(self).source@ == old(self).source@,
            final(self).min_gram == old(self).min_gram,
            final(self).max_gram == old(self).max_gram,
            final(self).emitted == 0,
            final(self).src_idx >= old(self).src_idx,
            spec_expand(
                token_views(final(self).source@).take(final(self).src_idx as int),
                final(self).min_gram as int,
                final(self).max_gram as int,
            ) == spec_expand(
                token_views(old(self).source@).take(old(self).src_idx as int),
                old(self).min_gram as int,
                old(self).max_gram as int,
            ),
            final(self).src_idx == final(self).source@.len() ==> spec_expand(
                token_views(final(self).source@),
                final(self).min_gram as int,
                final(self).max_gram as int,
            ) == spec_expand(
                token_views(old(self).source@).take(old(self).src_idx as int),
                old(self).min_gram as int,
                old(self).max_gram as int,
            ),
    {
        let ghost mn = self.min_gram as int;
        let ghost mx = self.max_gram as int;
        let ghost views = token_views(self.source@);
        while self.src_idx < self.source.len() && self.source[self.src_idx].text.unicode_len()
            < self.min_gram
            invariant
                1 <= self.min_gram <= self.max_gram,
                mn == self.min_gram as int,
                mx == self.max_gram as int,
                self.source@ == old(self).source@,
                self.min_gram == old(self).min_gram,
                self.max_gram == old(self).max_gram,
                self.emitted == 0,
                views == token_views(self.source@),
                old(self).src_idx <= self.src_idx <= self.source@.len(),
                forall|i: int|
                    0 <= i < self.source@.len() ==> (#[trigger] self.source@[i]).offset_from
                        + encode_utf8(self.source@[i].text@).len() <= usize::MAX,
                spec_expand(views.take(self.src_idx as int), mn, mx) == spec_expand(
                    views.take(old(self).src_idx as int),
                    mn,
                    mx,
                ),
            decreases self.source@.len() - self.src_idx,
        {
            proof {
                let i = self.src_idx as int;
                let tv = views[i];
                assert(num_grams(tv.0.len() as int, mn, mx) == 0);
                assert(spec_edge_ngrams(tv.0, tv.1, mn, mx) =~= Seq::<(Seq<char>, int,
                int)>::empty());
                views.lemma_flat_map_take_append(
                    |t: (Seq<char>, int, int)| spec_edge_ngrams(t.0, t.1, mn, mx),
                    i,
                );
                assert(spec_expand(views.take(i + 1), mn, mx) =~= spec_expand(views.take(i), mn,
                mx));
            }
            self.src_idx = self.src_idx + 1;
        }
        proof {
            if self.src_idx == self.source@.len() {
                assert(views.take(self.src_idx as int) =~= views);
            }
        }
    }

    /// Produces the next output token, or `None` when the source is
    /// exhausted.  Each produced token extends the emitted gram sequence by
    /// exactly one; at `None` the stream has emitted precisely the full
    /// expansion of its source.
    pub fn advance(&mut self) -> (r: Option<Token>)
        requires
            old(self).wf(),
        ensures
            final(self).wf(),
            final(self).source@ == old(self).source@,
            final(self).min_gram == old(self).min_gram,
            final(self).max_gram == old(self).max_gram,
            match r {
                Some(t) => {
                    &&& final(self).spec_emitted() == old(self).spec_emitted().push(token_view(t))
                    &&& (final(self).src_idx > old(self).src_idx || (final(self).src_idx == old(
                        self,
                    ).src_idx && final(self).emitted > old(self).emitted))
                    &&& final(self).src_idx >= old(self).src_idx
                },
                None => {
                    &&& final(self).spec_emitted() == old(self).spec_emitted()
                    &&& *final(self) == *old(self)
                    &&& old(self).spec_emitted() == spec_expand(
                        token_views(old(self).source@),
                        old(self).min_gram as int,
                        old(self).max_gram as int,
                    )
                },
            },
    {
        let ghost mn = self.min_gram as int;
        let ghost mx = self.max_gram as int;
        let ghost views = token_views(self.source@);
        if self.src_idx >= self.source.len() {
            proof {
                assert(views.take(self.src_idx as int) =~= views);
                assert(spec_edge_ngrams(Seq::empty(), 0, mn, mx).take(0)
                    =~= Seq::<(Seq<char>, int, int)>::empty());
                assert(self.spec_emitted() =~= spec_expand(views, mn, mx));
            }
            return None;
        }
        let ghost old_self = *self;
        let cur = &self.source[self.src_idx];
        let n = self.min_gram + self.emitted;
        let ghost cv = views[self.src_idx as int];
        proof {
            assert(cv.0 == cur.text@);
            assert(self.emitted < num_grams(cur.text@.len() as int, mn, mx));
            // `n` is a valid gram length for the current token.
            assert(n <= self.max_gram && n <= cur.text@.len());
        }
        let grams = edge_ngrams(cur.text.as_str(), cur.offset_from, self.min_gram, self.max_gram);
        proof {
            assert(token_views(grams@).len() == grams@.len());
            assert(grams@.len() == num_grams(cv.0.len() as int, mn, mx));
        }
        let tok = (&grams[self.emitted]).clone();
        self.emitted = self.emitted + 1;
        proof {
            assert(token_views(grams@) == spec_edge_ngrams(cv.0, cv.1, mn, mx));
            assert(token_views(grams@)[old_self.emitted as int] == token_view(tok));
            assert(spec_edge_ngrams(cv.0, cv.1, mn, mx).take(self.emitted as int)
                =~= spec_edge_ngrams(cv.0, cv.1, mn, mx).take(old_self.emitted as int).push(
                token_view(tok),
            ));
            assert(self.spec_emitted() =~= old_self.spec_emitted().push(token_view(tok)));
        }
        if self.emitted >= grams.len() {
            // This token is exhausted: move past it and settle on the next.
            let ghost mid = *self;
            proof {
                assert(spec_edge_ngrams(cv.0, cv.1, mn, mx).take(self.emitted as int)
                    =~= spec_edge_ngrams(cv.0, cv.1, mn, mx));
                views.lemma_flat_map_take_append(
                    |t: (Seq<char>, int, int)| spec_edge_ngrams(t.0, t.1, mn, mx),
                    self.src_idx as int,
                );
            }
            self.src_idx = self.src_idx + 1;
            self.emitted = 0;
            proof {
                assert(spec_edge_ngrams(
                    if self.src_idx < self.source@.len() {
                        self.source@[self.src_idx as int].text@
                    } else {
                        Seq::empty()
                    },
                    if self.src_idx < self.source@.len() {
                        self.source@[self.src_idx as int].offset_from as int
                    } else {
                        0
                    },
                    mn,
                    mx,
                ).take(0) =~= Seq::<(Seq<char>, int, int)>::empty());
                assert(self.spec_emitted() =~= mid.spec_emitted());
            }
            let ghost pre_settle = *self;
            self.settle();
            proof {
                assert(self.spec_emitted() =~= pre_settle.spec_emitted());
            }
        }
        Some(tok)
    }
}

/// Runs the streaming transform to completion over `source`.
#[verifier::loop_isolation(false)]
pub fn fuzzy_expand(source: Vec<Token>, min_gram: usize, max_gram: usize) -> (r: Vec<Token>)
    requires
        1 <= min_gram <= max_gram,
        forall|i: int|
            0 <= i < source@.len() ==> (#[trigger] source@[i]).offset_from
                + encode_utf8(source@[i].text@).len() <= usize::MAX,
    ensures
        token_views(r@) == spec_expand(token_views(source@), min_gram as int, max_gram as int),
{
    let ghost views = token_views(source@);
    let mut stream = EdgeNgramStream::new(source, min_gram, max_gram);
    let mut out: Vec<Token> = Vec::new();
    proof {
        assert(token_views(out@) =~= stream.spec_emitted());
    }
    loop
        invariant
            stream.wf(),
            token_views(stream.source@) == views,
            stream.min_gram == min_gram,
            stream.max_gram == max_gram,
            token_views(out@) == stream.spec_emitted(),
        decreases
                stream.source@.len() - stream.src_idx,
                num_grams(
                    if stream.src_idx < stream.source@.len() {
                        stream.source@[stream.src_idx as int].text@.len() as int
                    } else {
                        0
                    },
                    min_gram as int,
                    max_gram as int,
                ) - stream.emitted,
    {
        let ghost before = out@;
        match stream.advance() {
            Some(tok) => {
                out.push(tok);
                proof {
                    assert(token_views(out@) =~= token_views(before).push(token_view(out@[out@.len()
                        - 1])));
                }
            },
            None => {
                return out;
            },
        }
    }
}

/// What the base analysis (split, drop overlong, lowercase) makes of a text:
/// a deterministic function of the characters and the byte limit alone.
pub uninterp spec fn base_tokens_of(text: Seq<char>, limit: int) -> Seq<(Seq<char>, int, int)>;

/// Relies on tantivy's `SimpleTokenizer`, `RemoveLongFilter` and `LowerCaser`:
/// the text is split into maximal alphanumeric runs with their byte offsets,
/// runs of `limit` or more bytes are dropped, and the rest are lowercased
/// character by character.  The result depends on the text and the limit
/// alone; an empty text yields no tokens.
#[verifier::external_body]
fn base_tokens(text: &str, limit: usize) -> (r: Vec<Token>)
    ensures
        token_views(r@) == base_tokens_of(text@, limit as int),
        text@.len() == 0 ==> r@.len() == 0,
        forall|i: int|
            0 <= i < r@.len() ==> encode_utf8((#[trigger] r@[i]).text@).len() <= usize::MAX,
{
    let mut analyzer = TextAnalyzer::builder(SimpleTokenizer::default())
        .filter(RemoveLongFilter::limit(limit))
        .filter(LowerCaser)
        .build();
    let mut stream = analyzer.token_stream(text);
    let mut out: Vec<Token> = Vec::new();
    while stream.advance() {
        let t = stream.token();
        out.push(Token { text: t.text.clone(), offset_from: t.offset_from, offset_to: t.offset_to });
    }
    out
}

/// What the exact pipeline (split, drop overlong, lowercase, stem) makes of a
/// text: a deterministic function of the characters and the byte limit alone.
pub uninterp spec fn exact_tokens_of(text: Seq<char>, limit: int) -> Seq<(Seq<char>, int, int)>;

/// Relies on tantivy's `SimpleTokenizer`, `RemoveLongFilter`, `LowerCaser`
/// and `Stemmer` (English): the base analysis above followed by Snowball
/// stemming of each token.  The result depends on the text and the limit
/// alone; an empty text yields no tokens.
#[verifier::external_body]
fn exact_tokens(text: &str, limit: usize) -> (r: Vec<Token>)
    ensures
        token_views(r@) == exact_tokens_of(text@, limit as int),
        text@.len() == 0 ==> r@.len() == 0,
{
    let mut analyzer = TextAnalyzer::builder(SimpleTokenizer::default())
        .filter(RemoveLongFilter::limit(limit))
        .filter(LowerCaser)
        .filter(Stemmer::new(Language::English))
        .build();
    let mut stream = analyzer.token_stream(text);
    let mut out: Vec<Token> = Vec::new();
    while stream.advance() {
        let t = stream.token();
        out.push(Token { text: t.text.clone(), offset_from: t.offset_from, offset_to: t.offset_to });
    }
    out
}

/// A token whose offset plus byte length stays within the machine's address
/// range, so that gram offsets can be computed.
pub open spec fn fits_offsets(t: (Seq<char>, int, int)) -> bool {
    0 <= t.1 && t.1 + encode_utf8(t.0).len() <= usize::MAX
}

/// What the fuzzy pipeline makes of a text: the edge-n-gram expansion of the
/// base analysis.  (Tokens whose offsets could not be carried are left out;
/// on real text there are none.)
pub open spec fn spec_fuzzy_tokens(text: Seq<char>) -> Seq<(Seq<char>, int, int)> {
    spec_expand(
        base_tokens_of(text, TOKEN_BYTE_LIMIT as int).filter(|t: (Seq<char>, int, int)| fits_offsets(t)),
        MIN_GRAM as int,
        MAX_GRAM as int,
    )
}

/// The fuzzy pipeline: base analysis, then edge-n-gram expansion.
#[verifier::loop_isolation(false)]
pub fn fuzzy_tokens(text: &str) -> (r: Vec<Token>)
    ensures
        token_views(r@) == spec_fuzzy_tokens(text@),
{
    broadcast use vstd::prelude::Seq::filter_distributes_over_add;

    let ghost pred = |t: (Seq<char>, int, int)| fits_offsets(t);
    let base = base_tokens(text, TOKEN_BYTE_LIMIT);
    let ghost base_views = token_views(base@);
    let mut kept: Vec<Token> = Vec::new();
    let mut i: usize = 0;
    proof {
        reveal(Seq::filter);
        assert(token_views(kept@) =~= base_views.take(0).filter(pred));
    }
    while i < base.len()
        invariant
            i <= base@.len(),
            base_views == token_views(base@),
            token_views(kept@) == base_views.take(i as int).filter(pred),
            forall|j: int|
                0 <= j < kept@.len() ==> (#[trigger] kept@[j]).offset_from
                    + encode_utf8(kept@[j].text@).len() <= usize::MAX,
        decreases base@.len() - i,
    {
        let t = &base[i];
        let ghost tv = token_view(base@[i as int]);
        proof {
            reveal(Seq::filter);
            assert(base_views.take(i + 1) =~= base_views.take(i as int) + seq![tv]);
            assert(seq![tv].drop_last() =~= Seq::<(Seq<char>, int, int)>::empty());
            assert(Seq::<(Seq<char>, int, int)>::empty().filter(pred) =~= Seq::<(Seq<char>, int,
            int)>::empty());
            assert(seq![tv].last() == tv);
            assert(seq![tv].filter(pred) =~= if pred(tv) {
                seq![tv]
            } else {
                Seq::<(Seq<char>, int, int)>::empty()
            });
        }
        proof {
            assert((base_views.take(i as int) + seq![tv]).filter(pred) =~= base_views.take(
                i as int,
            ).filter(pred) + seq![tv].filter(pred));
            assert(encode_utf8(t.text@).len() <= usize::MAX);
        }
        if t.offset_from <= usize::MAX - t.text.as_str().len() {
            let ghost kept_before = kept@;
            kept.push(t.clone());
            proof {
                assert(pred(tv));
                assert(token_views(kept@) =~= token_views(kept_before).push(tv));
                assert(token_views(kept@) =~= base_views.take(i as int).filter(pred) + seq![tv]);
                assert(token_views(kept@) =~= base_views.take(i + 1).filter(pred));
            }
        } else {
            proof {
                assert(!pred(tv));
                assert(base_views.take(i + 1).filter(pred) =~= base_views.take(i as int).filter(
                    pred,
                ));
            }
        }
        i = i + 1;
    }
    proof {
        assert(base_views.take(base@.len() as int) =~= base_views);
        assert forall|j: int| 0 <= j < kept@.len() implies (#[trigger] kept@[j]).offset_from
            + encode_utf8(kept@[j].text@).len() <= usize::MAX by {
        }
    }
    fuzzy_expand(kept, MIN_GRAM, MAX_GRAM)
}

/// The pipeline registry: the two analysis pipelines of the index, under
/// their stable names.  `"exact"` stems for precise matching; `"fuzzy"`
/// expands edge n-grams for partial matching.  Any other name is not a
/// pipeline of this index.
pub fn tokenize(pipeline: &str, text: &str) -> (r: Option<Vec<Token>>)
    ensures
        pipeline@ == "exact"@ ==> match r {
            Some(ts) => token_views(ts@) == exact_tokens_of(text@, TOKEN_BYTE_LIMIT as int),
            None => false,
        },
        pipeline@ != "exact"@ && pipeline@ == "fuzzy"@ ==> match r {
            Some(ts) => token_views(ts@) == spec_fuzzy_tokens(text@),
            None => false,
        },
        pipeline@ != "exact"@ && pipeline@ != "fuzzy"@ ==> r is None,
{
    if str_eq(pipeline, "exact") {
        Some(exact_tokens(text, TOKEN_BYTE_LIMIT))
    } else if str_eq(pipeline, "fuzzy") {
        Some(fuzzy_tokens(text))
    } else {
        None
    }
}

} // verus!
