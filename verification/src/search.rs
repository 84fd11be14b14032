//! Query planning, two-stage retrieval decisions, and time-decay re-ranking
//! of the full-text search.
//!
//! The caller (which owns the persistent index) executes retrieval plans and
//! hands the raw candidates back; everything that decides — which fields to
//! query at which weight, whether the fuzzy fallback runs, which candidates a
//! timestamp window admits, and the final order — happens here.  Relevance
//! scores arrive as fixed-point numbers in thousandths, the same scale the
//! field weights use.

use crate::message_storage::StoredMessage;
use crate::strutil::{str_eq, str_views};
use vstd::arithmetic::div_mod::{lemma_div_is_ordered, lemma_div_is_ordered_by_denominator};
use vstd::prelude::*;

verus! {

/// Weight of the exact-content field in stage one, in thousandths (2.0).
pub const WEIGHT_CONTENT_EXACT: u64 = 2000;

/// Weight of the sender field in stage one, in thousandths (0.3).
pub const WEIGHT_SENDER: u64 = 300;

/// Weight of the fuzzy-content field in stage two, in thousandths (0.5).
pub const WEIGHT_FUZZY: u64 = 500;

/// Largest candidate score the re-ranker accepts; the decay contribution of
/// at most 500 thousandths then still fits.
pub const MAX_SCORE_MILLIS: u64 = 0xffff_ffff_ffff_fbff;

/// Seconds in a day, for the age of a candidate.
pub const SECONDS_PER_DAY: u64 = 86400;

/// Errors of the query layer.
pub enum SearchError {
    /// The query text did not parse; carries the parser's message.
    InvalidQuery(String),
    /// The index predates the dual-field schema and must be rebuilt.
    SchemaOutdated,
    /// An underlying index failure, not otherwise classified.
    Internal(String),
}

/// One field queried at a weight given in thousandths.
pub struct FieldQuery {
    pub field: String,
    pub weight_millis: u64,
}

/// A retrieval plan for the index executor: a disjunction over the weighted
/// fields, conjoined with an inclusive timestamp range where bounds are
/// given, fetching up to `fetch_limit` candidates by relevance.
pub struct QueryPlan {
    pub query: String,
    pub fields: Vec<FieldQuery>,
    pub after_timestamp: Option<u64>,
    pub before_timestamp: Option<u64>,
    pub fetch_limit: usize,
}

/// A search request: the raw query text, the number of results wanted, and
/// optional inclusive timestamp bounds.
pub struct SearchRequest {
    pub query: String,
    pub limit: usize,
    pub after_timestamp: Option<u64>,
    pub before_timestamp: Option<u64>,
}

/// One retrieval candidate: its relevance score in thousandths, the
/// message's dense id, and its timestamp.
#[derive(Clone, Copy)]
pub struct Candidate {
    pub score_millis: u64,
    pub id: u64,
    pub timestamp: u64,
}

/// The view of a field query.
pub open spec fn field_query_view(f: FieldQuery) -> (Seq<char>, u64) {
    (f.field@, f.weight_millis)
}

/// The views of a plan's field queries.
pub open spec fn field_query_views(fs: Seq<FieldQuery>) -> Seq<(Seq<char>, u64)> {
    fs.map_values(|f: FieldQuery| field_query_view(f))
}

/// The fields stage one queries: exact content at 2.0 and sender at 0.3.
pub open spec fn spec_exact_stage_fields() -> Seq<(Seq<char>, u64)> {
    seq![("content_exact"@, WEIGHT_CONTENT_EXACT), ("sender"@, WEIGHT_SENDER)]
}

/// The field stage two queries: fuzzy content at 0.5.
pub open spec fn spec_fuzzy_stage_fields() -> Seq<(Seq<char>, u64)> {
    seq![("content_fuzzy"@, WEIGHT_FUZZY)]
}

/// A plan carries the request's query text and bounds, the given fields, and
/// fetches twice the requested limit.
pub open spec fn plan_matches(
    plan: QueryPlan,
    req: SearchRequest,
    fields: Seq<(Seq<char>, u64)>,
) -> bool {
    &&& plan.query@ == req.query@
    &&& field_query_views(plan.fields@) == fields
    &&& plan.after_timestamp == req.after_timestamp
    &&& plan.before_timestamp == req.before_timestamp
    &&& plan.fetch_limit == 2 * req.limit
}

/// The stage-one plan: exact content and sender, weighted, over the
/// request's bounds.
pub fn exact_stage_plan(req: &SearchRequest) -> (r: QueryPlan)
    requires
        req.limit <= usize::MAX / 2,
    ensures
        plan_matches(r, *req, spec_exact_stage_fields()),
{
    let mut fields: Vec<FieldQuery> = Vec::new();
    fields.push(
        FieldQuery { field: String::from_str("content_exact"), weight_millis: WEIGHT_CONTENT_EXACT },
    );
    fields.push(FieldQuery { field: String::from_str("sender"), weight_millis: WEIGHT_SENDER });
    proof {
        assert(field_query_views(fields@) =~= spec_exact_stage_fields());
    }
    QueryPlan {
        query: req.query.clone(),
        fields,
        after_timestamp: clone_bound(&req.after_timestamp),
        before_timestamp: clone_bound(&req.before_timestamp),
        fetch_limit: 2 * req.limit,
    }
}

/// The stage-two plan: the fuzzy content field alone, down-weighted, over
/// the same bounds.
pub fn fuzzy_stage_plan(req: &SearchRequest) -> (r: QueryPlan)
    requires
        req.limit <= usize::MAX / 2,
    ensures
        plan_matches(r, *req, spec_fuzzy_stage_fields()),
{
    let mut fields: Vec<FieldQuery> = Vec::new();
    fields.push(
        FieldQuery { field: String::from_str("content_fuzzy"), weight_millis: WEIGHT_FUZZY },
    );
    proof {
        assert(field_query_views(fields@) =~= spec_fuzzy_stage_fields());
    }
    QueryPlan {
        query: req.query.clone(),
        fields,
        after_timestamp: clone_bound(&req.after_timestamp),
        before_timestamp: clone_bound(&req.before_timestamp),
        fetch_limit: 2 * req.limit,
    }
}

fn clone_bound(b: &Option<u64>) -> (r: Option<u64>)
    ensures
        r == *b,
{
    match b {
        Some(t) => Some(*t),
        None => None,
    }
}

/// Does the candidate's timestamp lie in the inclusive window?
pub open spec fn spec_in_range(ts: u64, after: Option<u64>, before: Option<u64>) -> bool {
    &&& match after {
        Some(a) => ts >= a,
        None => true,
    }
    &&& match before {
        Some(b) => ts <= b,
        None => true,
    }
}

/// The candidate's age in whole days at query time; a timestamp in the
/// future counts as age zero.
pub open spec fn spec_age_days(timestamp: u64, now: u64) -> int {
    if timestamp >= now {
        0
    } else {
        (now - timestamp) / (SECONDS_PER_DAY as int)
    }
}

/// The time-decay term in thousandths: `1 / (1 + 0.01 * age_days)`, which is
/// `100 / (100 + age_days)`, scaled by 1000.
pub open spec fn spec_time_decay_millis(age_days: int) -> int {
    100_000int / (100 + age_days)
}

/// A candidate's final score: its retrieval score plus half the time-decay
/// term.
pub open spec fn spec_final_score(score_millis: u64, timestamp: u64, now: u64) -> int {
    score_millis + spec_time_decay_millis(spec_age_days(timestamp, now)) / 2
}

/// The time decay never increases with age, so of two candidates with equal
/// retrieval scores the more recent one's final score is at least the older
/// one's: re-ranking never places it lower.
pub proof fn lemma_time_decay_monotone(score_millis: u64, ts_old: u64, ts_new: u64, now: u64)
    requires
        ts_old <= ts_new,
    ensures
        spec_final_score(score_millis, ts_new, now) >= spec_final_score(score_millis, ts_old, now),
{
    let a_new = spec_age_days(ts_new, now);
    let a_old = spec_age_days(ts_old, now);
    if ts_old < now {
        if ts_new < now {
            lemma_div_is_ordered(
                (now - ts_new) as int,
                (now - ts_old) as int,
                SECONDS_PER_DAY as int,
            );
        }
        assert(a_new <= a_old);
    }
    lemma_div_is_ordered_by_denominator(100_000, 100 + a_new, 100 + a_old);
    lemma_div_is_ordered(
        spec_time_decay_millis(a_old),
        spec_time_decay_millis(a_new),
        2,
    );
}

/// The exec computation of the final score.
fn final_score(c: &Candidate, now: u64) -> (r: u64)
    requires
        c.score_millis <= MAX_SCORE_MILLIS,
    ensures
        r == spec_final_score(c.score_millis, c.timestamp, now),
{
    let age_days: u64 = if c.timestamp >= now {
        0
    } else {
        (now - c.timestamp) / SECONDS_PER_DAY
    };
    let decay: u64 = if age_days <= 99_900 {
        100_000 / (100 + age_days)
    } else {
        0
    };
    proof {
        if age_days > 99_900 {
            vstd::arithmetic::div_mod::lemma_basic_div(100_000, 100 + age_days as int);
            assert(spec_time_decay_millis(age_days as int) == 0);
        } else {
            lemma_div_is_ordered_by_denominator(100_000, 100, 100 + age_days as int);
            assert(decay <= 1000);
        }
    }
    c.score_millis + decay / 2
}

/// Does the candidate's timestamp lie in the request's inclusive window?
fn in_range(ts: u64, after: &Option<u64>, before: &Option<u64>) -> (r: bool)
    ensures
        r == spec_in_range(ts, *after, *before),
{
    let after_ok = match after {
        Some(a) => ts >= *a,
        None => true,
    };
    let before_ok = match before {
        Some(b) => ts <= *b,
        None => true,
    };
    after_ok && before_ok
}

/// The candidates the window admits, in retrieval order.
pub open spec fn spec_admitted(
    cands: Seq<Candidate>,
    after: Option<u64>,
    before: Option<u64>,
) -> Seq<Candidate> {
    cands.filter(|c: Candidate| spec_in_range(c.timestamp, after, before))
}

/// Stable descending insertion of a scored candidate: it lands after every
/// earlier candidate whose score is at least its own.
pub open spec fn spec_insert_desc(s: Seq<(u64, u64)>, x: (u64, u64)) -> Seq<(u64, u64)>
    decreases s.len(),
{
    if s.len() == 0 {
        seq![x]
    } else if s[0].0 >= x.0 {
        seq![s[0]] + spec_insert_desc(s.drop_first(), x)
    } else {
        seq![x] + s
    }
}

/// Stable descending insertion sort of scored candidates: candidates with
/// equal final scores keep their retrieval order.
pub open spec fn spec_sort_desc(s: Seq<(u64, u64)>) -> Seq<(u64, u64)>
    decreases s.len(),
{
    if s.len() == 0 {
        Seq::empty()
    } else {
        spec_insert_desc(spec_sort_desc(s.drop_last()), s.last())
    }
}

/// Each admitted candidate scored at `now`: `(final_score, id)`.
pub open spec fn spec_scored(cands: Seq<Candidate>, now: u64) -> Seq<(u64, u64)> {
    cands.map_values(|c: Candidate| (spec_final_score(c.score_millis, c.timestamp, now) as u64, c.id))
}

/// The ids the search returns for these candidates: admitted by the window,
/// scored with time decay, sorted best-first (ties in retrieval order), and
/// cut to `limit`.
pub open spec fn spec_ranked_ids(
    cands: Seq<Candidate>,
    after: Option<u64>,
    before: Option<u64>,
    now: u64,
    limit: int,
) -> Seq<u64> {
    let sorted = spec_sort_desc(spec_scored(spec_admitted(cands, after, before), now));
    sorted.map_values(|p: (u64, u64)| p.1).take(
        if limit <= sorted.len() {
            limit
        } else {
            sorted.len() as int
        },
    )
}

/// Inserting into a sorted-descending run keeps it sorted and permutes
/// nothing away.
proof fn lemma_insert_desc_props(s: Seq<(u64, u64)>, x: (u64, u64))
    requires
        forall|i: int, j: int| 0 <= i < j < s.len() ==> (#[trigger] s[i]).0 >= (#[trigger] s[j]).0,
    ensures
        spec_insert_desc(s, x).len() == s.len() + 1,
        forall|i: int, j: int|
            0 <= i < j < spec_insert_desc(s, x).len() ==> (#[trigger] spec_insert_desc(s, x)[i]).0
                >= (#[trigger] spec_insert_desc(s, x)[j]).0,
        spec_insert_desc(s, x).to_multiset() == s.push(x).to_multiset(),
    decreases s.len(),
{
    broadcast use vstd::seq_lib::group_seq_properties;

    if s.len() == 0 {
        assert(spec_insert_desc(s, x) =~= seq![x]);
        assert(s.push(x) =~= seq![x]);
    } else if s[0].0 >= x.0 {
        let rest = s.drop_first();
        lemma_insert_desc_props(rest, x);
        let r = spec_insert_desc(s, x);
        assert(r =~= seq![s[0]] + spec_insert_desc(rest, x));
        assert forall|i: int, j: int| 0 <= i < j < r.len() implies (#[trigger] r[i]).0
            >= (#[trigger] r[j]).0 by {
            if i > 0 {
                assert(r[i] == spec_insert_desc(rest, x)[i - 1]);
                assert(r[j] == spec_insert_desc(rest, x)[j - 1]);
            } else {
                // The head dominates the rest and dominates x.
                assert(r[j] == spec_insert_desc(rest, x)[j - 1]);
                let ms = rest.push(x).to_multiset();
                assert(ms.contains(spec_insert_desc(rest, x)[j - 1]));
                rest.push(x).to_multiset_ensures();
                assert(rest.push(x).contains(spec_insert_desc(rest, x)[j - 1]));
                let w = choose|w: int|
                    0 <= w < rest.push(x).len() && rest.push(x)[w] == spec_insert_desc(rest, x)[j
                        - 1];
                if w < rest.len() {
                    assert(s[w + 1] == rest[w]);
                }
            }
        }
        broadcast use vstd::seq_lib::group_to_multiset_ensures;

        assert(r =~= spec_insert_desc(rest, x).insert(0, s[0]));
        assert(spec_insert_desc(rest, x).insert(0, s[0]).to_multiset() == spec_insert_desc(
            rest,
            x,
        ).to_multiset().insert(s[0]));
        assert(s.push(x) =~= rest.push(x).insert(0, s[0]));
        assert(rest.push(x).insert(0, s[0]).to_multiset() == rest.push(x).to_multiset().insert(
            s[0],
        ));
    } else {
        broadcast use vstd::seq_lib::group_to_multiset_ensures;

        assert(spec_insert_desc(s, x) =~= s.insert(0, x));
        assert(s.insert(0, x).to_multiset() == s.to_multiset().insert(x));
        assert(s.push(x).to_multiset() == s.to_multiset().insert(x));
    }
}

/// The sorted sequence is a permutation of the input, in descending score
/// order.
proof fn lemma_sort_desc_props(s: Seq<(u64, u64)>)
    ensures
        spec_sort_desc(s).len() == s.len(),
        forall|i: int, j: int|
            0 <= i < j < s.len() ==> (#[trigger] spec_sort_desc(s)[i]).0
                >= (#[trigger] spec_sort_desc(s)[j]).0,
        spec_sort_desc(s).to_multiset() == s.to_multiset(),
    decreases s.len(),
{
    broadcast use vstd::seq_lib::group_seq_properties;

    if s.len() == 0 {
        assert(spec_sort_desc(s) =~= Seq::<(u64, u64)>::empty());
    } else {
        let rest = s.drop_last();
        lemma_sort_desc_props(rest);
        lemma_insert_desc_props(spec_sort_desc(rest), s.last());
        assert(spec_sort_desc(rest).push(s.last()).to_multiset() == spec_sort_desc(
            rest,
        ).to_multiset().insert(s.last()));
        assert(rest.push(s.last()).to_multiset() == rest.to_multiset().insert(s.last()));
        assert(rest.push(s.last()) =~= s);
    }
}

/// A filtered sequence only holds elements of its source.
proof fn lemma_filter_subset<A>(s: Seq<A>, pred: spec_fn(A) -> bool, i: int)
    requires
        0 <= i < s.filter(pred).len(),
    ensures
        s.contains(s.filter(pred)[i]),
    decreases s.len(),
{
    reveal(Seq::filter);
    if s.len() > 0 {
        let rest = s.drop_last();
        let x = s.filter(pred)[i];
        if pred(s.last()) && i == s.filter(pred).len() - 1 {
            assert(x == s.last());
            assert(s[s.len() - 1] == x);
        } else {
            assert(rest.filter(pred)[i] == x);
            lemma_filter_subset(rest, pred, i);
            let j = choose|j: int| 0 <= j < rest.len() && rest[j] == x;
            assert(s[j] == x);
        }
    }
}

/// `id` names one of the candidates, and that candidate lies in the window.
pub open spec fn spec_id_admitted(
    cands: Seq<Candidate>,
    after: Option<u64>,
    before: Option<u64>,
    id: u64,
) -> bool {
    exists|i: int|
        0 <= i < cands.len() && (#[trigger] cands[i]).id == id && spec_in_range(
            cands[i].timestamp,
            after,
            before,
        )
}

/// Every id the ranking returns is the id of an admitted candidate: the
/// ranking invents nothing and never returns a candidate outside the window.
pub proof fn lemma_ranked_ids_from_candidates(
    cands: Seq<Candidate>,
    after: Option<u64>,
    before: Option<u64>,
    now: u64,
    limit: int,
)
    requires
        limit >= 0,
    ensures
        forall|k: int| #![trigger spec_ranked_ids(cands, after, before, now, limit)[k]]
            0 <= k < spec_ranked_ids(cands, after, before, now, limit).len() ==> spec_id_admitted(
                cands,
                after,
                before,
                spec_ranked_ids(cands, after, before, now, limit)[k],
            ),
{
    broadcast use vstd::seq_lib::group_seq_properties;

    let admitted = spec_admitted(cands, after, before);
    let scored = spec_scored(admitted, now);
    let sorted = spec_sort_desc(scored);
    let ids = spec_ranked_ids(cands, after, before, now, limit);
    lemma_sort_desc_props(scored);
    assert forall|k: int| #![trigger spec_ranked_ids(cands, after, before, now, limit)[k]]
        0 <= k < spec_ranked_ids(cands, after, before, now, limit).len() implies spec_id_admitted(
        cands,
        after,
        before,
        spec_ranked_ids(cands, after, before, now, limit)[k],
    ) by {
        assert(ids[k] == spec_ranked_ids(cands, after, before, now, limit)[k]);
        assert(k < sorted.len());
        assert(ids[k] == sorted.map_values(|p: (u64, u64)| p.1)[k]);
        assert(ids[k] == sorted[k].1);
        sorted.to_multiset_ensures();
        scored.to_multiset_ensures();
        assert(sorted.to_multiset().contains(sorted[k]));
        assert(scored.contains(sorted[k]));
        let w = choose|w: int| 0 <= w < scored.len() && scored[w] == sorted[k];
        assert(admitted[w].id == ids[k]);
        cands.lemma_filter_pred(|c: Candidate| spec_in_range(c.timestamp, after, before), w);
        lemma_filter_subset(cands, |c: Candidate| spec_in_range(c.timestamp, after, before), w);
        let i = choose|i: int| 0 <= i < cands.len() && cands[i] == admitted[w];
        assert(cands[i].id == ids[k] && spec_in_range(cands[i].timestamp, after, before));
        assert(spec_id_admitted(cands, after, before, ids[k]));
    }
}

/// An empty timestamp interval admits no candidate: when `after_timestamp`
/// exceeds `before_timestamp`, the search returns no ids at all, whatever
/// the index produced.
pub proof fn lemma_empty_interval(cands: Seq<Candidate>, after: u64, before: u64, now: u64, limit: int)
    requires
        after > before,
        limit >= 0,
    ensures
        spec_ranked_ids(cands, Some(after), Some(before), now, limit) == Seq::<u64>::empty(),
    decreases cands.len(),
{
    reveal(Seq::filter);
    let pred = |c: Candidate| spec_in_range(c.timestamp, Some(after), Some(before));
    if cands.len() == 0 {
        assert(cands.filter(pred) =~= Seq::<Candidate>::empty());
    } else {
        lemma_empty_interval(cands.drop_last(), after, before, now, limit);
        assert(!pred(cands.last()));
        assert(cands.filter(pred) == cands.drop_last().filter(pred));
    }
    let admitted = spec_admitted(cands, Some(after), Some(before));
    assert(admitted.len() == 0);
    assert(spec_scored(admitted, now).len() == 0);
    assert(spec_sort_desc(spec_scored(admitted, now)) =~= Seq::<(u64, u64)>::empty());
    assert(spec_ranked_ids(cands, Some(after), Some(before), now, limit) =~= Seq::<u64>::empty());
}

/// Scores the candidates the window admits and returns their ids best-first,
/// ties in retrieval order, at most `limit` of them.
#[verifier::loop_isolation(false)]
pub fn rerank(
    cands: &Vec<Candidate>,
    after: &Option<u64>,
    before: &Option<u64>,
    now: u64,
    limit: usize,
) -> (r: Vec<u64>)
    requires
        forall|i: int| 0 <= i < cands@.len() ==> (#[trigger] cands@[i]).score_millis
            <= MAX_SCORE_MILLIS,
    ensures
        r@ == spec_ranked_ids(cands@, *after, *before, now, limit as int),
{
    broadcast use vstd::prelude::Seq::filter_distributes_over_add;

    let ghost pred = |c: Candidate| spec_in_range(c.timestamp, *after, *before);
    let mut sorted: Vec<(u64, u64)> = Vec::new();
    let mut i: usize = 0;
    proof {
        reveal(Seq::filter);
        assert(spec_admitted(cands@.take(0), *after, *before) =~= Seq::<Candidate>::empty());
        assert(spec_scored(spec_admitted(cands@.take(0), *after, *before), now)
            =~= Seq::<(u64, u64)>::empty());
        assert(sorted@ =~= spec_sort_desc(spec_scored(spec_admitted(cands@.take(0), *after,
        *before), now)));
    }
    while i < cands.len()
        invariant
            i <= cands@.len(),
            sorted@ == spec_sort_desc(spec_scored(spec_admitted(cands@.take(i as int), *after,
            *before), now)),
        decreases cands@.len() - i,
    {
        let c = cands[i];
        let ghost admitted_before = spec_admitted(cands@.take(i as int), *after, *before);
        let ghost scored_before = spec_scored(admitted_before, now);
        proof {
            reveal(Seq::filter);
            assert(cands@.take(i + 1) =~= cands@.take(i as int) + seq![c]);
            assert(seq![c].drop_last() =~= Seq::<Candidate>::empty());
            assert(Seq::<Candidate>::empty().filter(pred) =~= Seq::<Candidate>::empty());
            assert(seq![c].last() == c);
            assert(seq![c].filter(pred) =~= if pred(c) {
                seq![c]
            } else {
                Seq::<Candidate>::empty()
            });
            assert((cands@.take(i as int) + seq![c]).filter(pred) =~= cands@.take(i as int).filter(
                pred,
            ) + seq![c].filter(pred));
        }
        if in_range(c.timestamp, after, before) {
            let score = final_score(&c, now);
            insert_desc(&mut sorted, (score, c.id));
            proof {
                assert(spec_admitted(cands@.take(i + 1), *after, *before) =~= admitted_before.push(
                    c,
                ));
                assert(spec_scored(admitted_before.push(c), now) =~= scored_before.push(
                    (score, c.id),
                ));
                assert(spec_sort_desc(scored_before.push((score, c.id)))
                    == spec_insert_desc(spec_sort_desc(scored_before.push((score, c.id)).drop_last()),
                scored_before.push((score, c.id)).last()));
                assert(scored_before.push((score, c.id)).drop_last() =~= scored_before);
            }
        } else {
            proof {
                assert(spec_admitted(cands@.take(i + 1), *after, *before) =~= admitted_before);
                assert(spec_scored(spec_admitted(cands@.take(i + 1), *after, *before), now)
                    =~= scored_before);
            }
        }
        i = i + 1;
    }
    proof {
        assert(cands@.take(cands@.len() as int) =~= cands@);
    }
    let ghost final_sorted = spec_sort_desc(spec_scored(spec_admitted(cands@, *after, *before),
    now));
    let mut out: Vec<u64> = Vec::new();
    let mut j: usize = 0;
    let stop: usize = if limit <= sorted.len() {
        limit
    } else {
        sorted.len()
    };
    while j < stop
        invariant
            j <= stop,
            stop == if limit as int <= final_sorted.len() {
                limit as int
            } else {
                final_sorted.len() as int
            },
            sorted@ == final_sorted,
            out@ =~= final_sorted.map_values(|p: (u64, u64)| p.1).take(j as int),
        decreases stop - j,
    {
        out.push(sorted[j].1);
        proof {
            assert(out@ =~= final_sorted.map_values(|p: (u64, u64)| p.1).take(j + 1));
        }
        j = j + 1;
    }
    proof {
        assert(out@ =~= spec_ranked_ids(cands@, *after, *before, now, limit as int));
    }
    out
}

/// Stable descending insertion into an already-sorted vector.
fn insert_desc(sorted: &mut Vec<(u64, u64)>, x: (u64, u64))
    ensures
        final(sorted)@ == spec_insert_desc(old(sorted)@, x),
{
    let ghost orig = sorted@;
    let mut j: usize = 0;
    while j < sorted.len() && sorted[j].0 >= x.0
        invariant
            j <= sorted@.len(),
            sorted@ == orig,
            forall|k: int| 0 <= k < j ==> (#[trigger] orig[k]).0 >= x.0,
        decreases sorted@.len() - j,
    {
        j = j + 1;
    }
    proof {
        if j < sorted@.len() {
            assert(orig[j as int].0 < x.0);
        }
        lemma_insert_desc_at(orig, x, j as int);
    }
    sorted.insert(j, x);
    proof {
        assert(final(sorted)@ =~= orig.insert(j as int, x));
        assert(orig.insert(j as int, x) =~= orig.take(j as int) + seq![x] + orig.skip(j as int));
    }
}

/// Inserting at the first position whose score is below the new one's is
/// exactly the stable descending insertion.
proof fn lemma_insert_desc_at(s: Seq<(u64, u64)>, x: (u64, u64), j: int)
    requires
        0 <= j <= s.len(),
        forall|k: int| 0 <= k < j ==> (#[trigger] s[k]).0 >= x.0,
        j < s.len() ==> s[j].0 < x.0,
    ensures
        spec_insert_desc(s, x) == s.take(j) + seq![x] + s.skip(j),
    decreases s.len(),
{
    if s.len() == 0 {
        assert(spec_insert_desc(s, x) =~= s.take(j) + seq![x] + s.skip(j));
    } else if j == 0 {
        assert(s[0].0 < x.0);
        assert(spec_insert_desc(s, x) == seq![x] + s);
        assert(seq![x] + s =~= s.take(0) + seq![x] + s.skip(0));
    } else {
        assert(s[0].0 >= x.0);
        let rest = s.drop_first();
        assert(forall|k: int| 0 <= k < j - 1 ==> (#[trigger] rest[k]).0 == s[k + 1].0);
        lemma_insert_desc_at(rest, x, j - 1);
        assert(spec_insert_desc(s, x) == seq![s[0]] + spec_insert_desc(rest, x));
        assert(seq![s[0]] + (rest.take(j - 1) + seq![x] + rest.skip(j - 1)) =~= s.take(j) + seq![x]
            + s.skip(j));
    }
}

/// What the engine does after stage one: keep the exact hits when there are
/// any, otherwise fall back to the fuzzy plan.
pub enum SearchStep {
    /// Stage one found candidates: these are the final ranked ids.
    Finished(Vec<u64>),
    /// Stage one found nothing: run this fuzzy plan and finish with its
    /// candidates.
    RunFuzzy(QueryPlan),
}

/// Decides after stage one.  With at least one exact hit the search is over
/// — the fuzzy stage must not run — and the hits are ranked; with none, the
/// fuzzy fallback plan is produced.
pub fn after_exact_stage(req: &SearchRequest, exact_results: &Vec<Candidate>, now: u64) -> (r:
    SearchStep)
    requires
        req.limit <= usize::MAX / 2,
        forall|i: int| 0 <= i < exact_results@.len() ==> (#[trigger] exact_results@[i]).score_millis
            <= MAX_SCORE_MILLIS,
    ensures
        exact_results@.len() > 0 ==> match r {
            SearchStep::Finished(ids) => ids@ == spec_ranked_ids(
                exact_results@,
                req.after_timestamp,
                req.before_timestamp,
                now,
                req.limit as int,
            ),
            SearchStep::RunFuzzy(_) => false,
        },
        exact_results@.len() == 0 ==> match r {
            SearchStep::Finished(_) => false,
            SearchStep::RunFuzzy(plan) => plan_matches(plan, *req, spec_fuzzy_stage_fields()),
        },
{
    if exact_results.len() > 0 {
        SearchStep::Finished(
            rerank(exact_results, &req.after_timestamp, &req.before_timestamp, now, req.limit),
        )
    } else {
        SearchStep::RunFuzzy(fuzzy_stage_plan(req))
    }
}

/// Finishes the search with the fuzzy stage's candidates.
pub fn after_fuzzy_stage(req: &SearchRequest, fuzzy_results: &Vec<Candidate>, now: u64) -> (r: Vec<
    u64,
>)
    requires
        forall|i: int| 0 <= i < fuzzy_results@.len() ==> (#[trigger] fuzzy_results@[i]).score_millis
            <= MAX_SCORE_MILLIS,
    ensures
        r@ == spec_ranked_ids(
            fuzzy_results@,
            req.after_timestamp,
            req.before_timestamp,
            now,
            req.limit as int,
        ),
{
    rerank(fuzzy_results, &req.after_timestamp, &req.before_timestamp, now, req.limit)
}

/// The schema of the search index, field by field: name, tokenizer pipeline
/// (for text fields), whether the raw value is stored, and whether the field
/// is numeric.
pub struct FieldDef {
    pub name: String,
    pub tokenizer: Option<String>,
    pub stored: bool,
    pub numeric: bool,
}

/// The names of the current schema's fields.
pub open spec fn spec_schema_field_names() -> Seq<Seq<char>> {
    seq!["id"@, "timestamp"@, "sender"@, "content_exact"@, "content_fuzzy"@]
}

/// The current dual-pipeline schema: numeric id and timestamp (stored),
/// sender and exact content under the exact pipeline (stored), and fuzzy
/// content under the fuzzy pipeline (retrieval-only).
pub fn schema_fields() -> (r: Vec<FieldDef>)
    ensures
        r@.len() == 5,
        r@.map_values(|f: FieldDef| f.name@) == spec_schema_field_names(),
        r@[0].numeric && r@[0].stored && r@[0].tokenizer is None,
        r@[1].numeric && r@[1].stored && r@[1].tokenizer is None,
        !r@[2].numeric && r@[2].stored && match r@[2].tokenizer {
            Some(t) => t@ == "exact"@,
            None => false,
        },
        !r@[3].numeric && r@[3].stored && match r@[3].tokenizer {
            Some(t) => t@ == "exact"@,
            None => false,
        },
        !r@[4].numeric && !r@[4].stored && match r@[4].tokenizer {
            Some(t) => t@ == "fuzzy"@,
            None => false,
        },
{
    let mut v: Vec<FieldDef> = Vec::new();
    v.push(FieldDef { name: String::from_str("id"), tokenizer: None, stored: true, numeric: true });
    v.push(
        FieldDef { name: String::from_str("timestamp"), tokenizer: None, stored: true, numeric: true },
    );
    v.push(
        FieldDef {
            name: String::from_str("sender"),
            tokenizer: Some(String::from_str("exact")),
            stored: true,
            numeric: false,
        },
    );
    v.push(
        FieldDef {
            name: String::from_str("content_exact"),
            tokenizer: Some(String::from_str("exact")),
            stored: true,
            numeric: false,
        },
    );
    v.push(
        FieldDef {
            name: String::from_str("content_fuzzy"),
            tokenizer: Some(String::from_str("fuzzy")),
            stored: false,
            numeric: false,
        },
    );
    proof {
        assert(v@.map_values(|f: FieldDef| f.name@) =~= spec_schema_field_names());
    }
    v
}

/// An opened index carries the current schema exactly when it has both
/// content fields; an index from before the dual-field layout lacks them.
pub open spec fn spec_schema_is_current(field_names: Seq<Seq<char>>) -> bool {
    field_names.contains("content_exact"@) && field_names.contains("content_fuzzy"@)
}

/// Classifies an opened index by its field names: an index that predates the
/// dual-field schema is reported as [`SearchError::SchemaOutdated`] — a
/// distinct, recoverable condition, not a data error.
pub fn check_schema(field_names: &Vec<String>) -> (r: Result<(), SearchError>)
    ensures
        match r {
            Ok(()) => spec_schema_is_current(str_views(field_names@)),
            Err(e) => !spec_schema_is_current(str_views(field_names@))
                && e is SchemaOutdated,
        },
{
    let has_exact = contains_str(field_names, "content_exact");
    let has_fuzzy = contains_str(field_names, "content_fuzzy");
    if has_exact && has_fuzzy {
        Ok(())
    } else {
        Err(SearchError::SchemaOutdated)
    }
}

fn contains_str(v: &Vec<String>, s: &str) -> (r: bool)
    ensures
        r == str_views(v@).contains(s@),
{
    let mut i: usize = 0;
    while i < v.len()
        invariant
            i <= v@.len(),
            forall|k: int| 0 <= k < i ==> str_views(v@)[k] != s@,
        decreases v@.len() - i,
    {
        if str_eq(v[i].as_str(), s) {
            assert(str_views(v@)[i as int] == s@);
            return true;
        }
        i = i + 1;
    }
    false
}

/// One document of the index: what gets indexed for one message.  The
/// content is indexed under both content fields; the sender is the author's
/// display name.
pub struct IndexDoc {
    pub id: u64,
    pub timestamp: u64,
    pub sender: String,
    pub content: String,
}

/// The documents for a batch of messages, one per message, in order.
pub fn message_docs(messages: &Vec<StoredMessage>) -> (r: Vec<IndexDoc>)
    ensures
        r@.len() == messages@.len(),
        forall|i: int|
            0 <= i < messages@.len() ==> {
                let d = #[trigger] r@[i];
                &&& d.id == messages@[i].id
                &&& d.timestamp == messages@[i].timestamp
                &&& d.sender@ == messages@[i].author.nickname@
                &&& d.content@ == messages@[i].content@
            },
{
    let mut out: Vec<IndexDoc> = Vec::new();
    let mut i: usize = 0;
    while i < messages.len()
        invariant
            i <= messages@.len(),
            out@.len() == i,
            forall|k: int|
                0 <= k < i ==> {
                    let d = #[trigger] out@[k];
                    &&& d.id == messages@[k].id
                    &&& d.timestamp == messages@[k].timestamp
                    &&& d.sender@ == messages@[k].author.nickname@
                    &&& d.content@ == messages@[k].content@
                },
        decreases messages@.len() - i,
    {
        let m = &messages[i];
        out.push(
            IndexDoc {
                id: m.id,
                timestamp: m.timestamp,
                sender: m.author.nickname.clone(),
                content: m.content.clone(),
            },
        );
        i = i + 1;
    }
    out
}

} // verus!
