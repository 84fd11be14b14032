use sapper::message_storage::StoredMessage;
use sapper::models::Author;
use sapper::search::{
    after_exact_stage, after_fuzzy_stage, check_schema, exact_stage_plan, message_docs, rerank,
    schema_fields, Candidate, SearchError, SearchRequest, SearchStep, WEIGHT_CONTENT_EXACT,
    WEIGHT_FUZZY, WEIGHT_SENDER,
};

fn request(query: &str, limit: usize, after: Option<u64>, before: Option<u64>) -> SearchRequest {
    SearchRequest { query: query.to_string(), limit, after_timestamp: after, before_timestamp: before }
}

fn cand(score_millis: u64, id: u64, timestamp: u64) -> Candidate {
    Candidate { score_millis, id, timestamp }
}

#[test]
fn exact_plan_weights_content_over_sender() {
    let plan = exact_stage_plan(&request("birthday", 10, None, Some(99)));
    assert_eq!(plan.query, "birthday");
    assert_eq!(plan.fetch_limit, 20);
    assert_eq!(plan.fields.len(), 2);
    assert_eq!(plan.fields[0].field, "content_exact");
    assert_eq!(plan.fields[0].weight_millis, WEIGHT_CONTENT_EXACT);
    assert_eq!(plan.fields[1].field, "sender");
    assert_eq!(plan.fields[1].weight_millis, WEIGHT_SENDER);
    assert_eq!(plan.after_timestamp, None);
    assert_eq!(plan.before_timestamp, Some(99));
}

#[test]
fn exact_hits_suppress_the_fuzzy_stage() {
    // With at least one stage-1 hit the search finishes there, and every id
    // it returns came from stage 1's candidates.
    let req = request("hey", 5, None, None);
    let hits = vec![cand(1000, 7, 100), cand(900, 3, 100)];
    match after_exact_stage(&req, &hits, 1000) {
        SearchStep::Finished(ids) => {
            assert_eq!(ids, vec![7, 3]);
        }
        SearchStep::RunFuzzy(_) => panic!("fuzzy stage must not run after exact hits"),
    }
}

#[test]
fn empty_exact_stage_falls_back_to_fuzzy() {
    let req = request("hey", 5, Some(10), None);
    match after_exact_stage(&req, &Vec::new(), 1000) {
        SearchStep::Finished(_) => panic!("no exact hits, the fuzzy plan must be produced"),
        SearchStep::RunFuzzy(plan) => {
            assert_eq!(plan.fields.len(), 1);
            assert_eq!(plan.fields[0].field, "content_fuzzy");
            assert_eq!(plan.fields[0].weight_millis, WEIGHT_FUZZY);
            assert_eq!(plan.fetch_limit, 10);
            assert_eq!(plan.after_timestamp, Some(10));
        }
    }
    let ids = after_fuzzy_stage(&req, &vec![cand(100, 42, 50)], 1000);
    assert_eq!(ids, vec![42]);
}

#[test]
fn recency_wins_between_equal_scores() {
    // Two candidates with the same retrieval score: the more recent one
    // ranks first after time-decay re-ranking.
    let now: u64 = 100_000_000;
    let old_msg = cand(500, 1, now - 200 * 86400);
    let new_msg = cand(500, 2, now - 1 * 86400);
    let ids = rerank(&vec![old_msg, new_msg], &None, &None, now, 10);
    assert_eq!(ids, vec![2, 1]);
}

#[test]
fn ties_keep_retrieval_order() {
    let now: u64 = 1000;
    let a = cand(500, 1, now);
    let b = cand(500, 2, now);
    let c = cand(700, 3, now);
    let ids = rerank(&vec![a, b, c], &None, &None, now, 10);
    assert_eq!(ids, vec![3, 1, 2]);
}

#[test]
fn limit_truncates_results() {
    let now: u64 = 1000;
    let cands: Vec<Candidate> = (0..6).map(|i| cand(1000 - i, i, now)).collect();
    let ids = rerank(&cands, &None, &None, now, 3);
    assert_eq!(ids, vec![0, 1, 2]);
}

#[test]
fn empty_interval_yields_no_results() {
    // after_timestamp greater than before_timestamp admits nothing, whatever
    // the index returned.
    let req = request("hey", 5, Some(200), Some(100));
    let hits = vec![cand(1000, 7, 150), cand(900, 3, 120)];
    match after_exact_stage(&req, &hits, 1000) {
        SearchStep::Finished(ids) => assert_eq!(ids.len(), 0),
        SearchStep::RunFuzzy(_) => panic!("stage one had hits"),
    }
}

#[test]
fn timestamp_window_is_inclusive() {
    let now: u64 = 1000;
    let cands = vec![cand(500, 1, 100), cand(500, 2, 150), cand(500, 3, 200), cand(500, 4, 250)];
    let ids = rerank(&cands, &Some(150), &Some(200), now, 10);
    assert_eq!(ids, vec![2, 3]);
}

#[test]
fn legacy_schema_is_reported_outdated() {
    // An index built under the single-field layout is a distinct, recoverable
    // error, not a parse failure.
    let legacy: Vec<String> =
        ["id", "timestamp", "sender", "content"].iter().map(|s| s.to_string()).collect();
    match check_schema(&legacy) {
        Err(SearchError::SchemaOutdated) => {}
        _ => panic!("a legacy schema must be reported as outdated"),
    }
    let current: Vec<String> = schema_fields().into_iter().map(|f| f.name).collect();
    assert!(check_schema(&current).is_ok());
}

#[test]
fn schema_has_dual_content_fields() {
    let fields = schema_fields();
    let names: Vec<String> = fields.iter().map(|f| f.name.clone()).collect();
    assert_eq!(names, vec!["id", "timestamp", "sender", "content_exact", "content_fuzzy"]);
    assert_eq!(fields[3].tokenizer.as_deref(), Some("exact"));
    assert_eq!(fields[4].tokenizer.as_deref(), Some("fuzzy"));
    assert!(fields[3].stored);
    assert!(!fields[4].stored);
}

#[test]
fn docs_carry_id_timestamp_sender_and_content() {
    let msg = StoredMessage {
        id: 4,
        original_id: "111".to_string(),
        message_type: "Default".to_string(),
        timestamp: 777,
        timestamp_edited: None,
        call_ended_timestamp: None,
        is_pinned: false,
        content: "hello there".to_string(),
        author: Author {
            id: "9".to_string(),
            name: "ann".to_string(),
            discriminator: "0001".to_string(),
            nickname: "Annie".to_string(),
            color: None,
            is_bot: false,
            roles: Vec::new(),
            avatar_url: "a.png".to_string(),
        },
        attachments: Vec::new(),
        embeds: Vec::new(),
        stickers: Vec::new(),
        reactions: Vec::new(),
        mentions: Vec::new(),
        inline_emojis: Vec::new(),
        media_refs: Vec::new(),
        reference: None,
        referenced_message: None,
    };
    let docs = message_docs(&vec![msg]);
    assert_eq!(docs.len(), 1);
    assert_eq!(docs[0].id, 4);
    assert_eq!(docs[0].timestamp, 777);
    assert_eq!(docs[0].sender, "Annie");
    assert_eq!(docs[0].content, "hello there");
}
