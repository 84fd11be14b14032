//! Scenario tests that run retrieval plans against a real in-memory index,
//! the way the application's index executor does.

use sapper::search::{
    after_exact_stage, exact_stage_plan, message_docs, schema_fields, QueryPlan, SearchRequest,
    SearchStep,
};
use sapper::message_storage::StoredMessage;
use sapper::models::Author;
use tantivy::collector::TopDocs;
use tantivy::query::{BooleanQuery, BoostQuery, Occur, Query, QueryParser};
use tantivy::schema::{
    IndexRecordOption, Schema, TextFieldIndexing, TextOptions, Value, INDEXED, STORED,
};
use tantivy::tokenizer::{Language, LowerCaser, RemoveLongFilter, SimpleTokenizer, Stemmer, TextAnalyzer};
use tantivy::{Index, TantivyDocument};

fn msg(id: u64, nickname: &str, content: &str, timestamp: u64) -> StoredMessage {
    StoredMessage {
        id,
        original_id: format!("o{}", id),
        message_type: "Default".to_string(),
        timestamp,
        timestamp_edited: None,
        call_ended_timestamp: None,
        is_pinned: false,
        content: content.to_string(),
        author: Author {
            id: format!("u{}", id),
            name: nickname.to_string(),
            discriminator: "0001".to_string(),
            nickname: nickname.to_string(),
            color: None,
            is_bot: false,
            roles: Vec::new(),
            avatar_url: "a.png".to_string(),
        },
        attachments: Vec::new(),
        embeds: Vec::new(),
        stickers: Vec::new(),
        reactions: Vec::new(),
        mentions: Vec::new(),
        inline_emojis: Vec::new(),
        media_refs: Vec::new(),
        reference: None,
        referenced_message: None,
    }
}

/// Builds an in-memory index over the library's schema, with the exact
/// pipeline registered, and indexes the messages' documents.
fn build_index(messages: &Vec<StoredMessage>) -> Index {
    let mut builder = Schema::builder();
    for f in schema_fields() {
        if f.numeric {
            builder.add_u64_field(&f.name, STORED | INDEXED);
        } else {
            let indexing = TextFieldIndexing::default()
                .set_tokenizer(f.tokenizer.as_deref().unwrap_or("exact"))
                .set_index_option(IndexRecordOption::WithFreqsAndPositions);
            let options = if f.stored {
                TextOptions::default().set_indexing_options(indexing).set_stored()
            } else {
                TextOptions::default().set_indexing_options(indexing)
            };
            builder.add_text_field(&f.name, options);
        }
    }
    let schema = builder.build();
    let index = Index::create_in_ram(schema.clone());
    let exact = TextAnalyzer::builder(SimpleTokenizer::default())
        .filter(RemoveLongFilter::limit(40))
        .filter(LowerCaser)
        .filter(Stemmer::new(Language::English))
        .build();
    // The fuzzy pipeline is irrelevant to these scenarios but the schema
    // names it, so register the base of it.
    let fuzzy = TextAnalyzer::builder(SimpleTokenizer::default())
        .filter(RemoveLongFilter::limit(40))
        .filter(LowerCaser)
        .build();
    index.tokenizers().register("exact", exact);
    index.tokenizers().register("fuzzy", fuzzy);

    let id_f = schema.get_field("id").unwrap();
    let ts_f = schema.get_field("timestamp").unwrap();
    let sender_f = schema.get_field("sender").unwrap();
    let ce_f = schema.get_field("content_exact").unwrap();
    let cf_f = schema.get_field("content_fuzzy").unwrap();
    let mut writer = index.writer(15_000_000).unwrap();
    for d in message_docs(messages) {
        let mut doc = TantivyDocument::new();
        doc.add_u64(id_f, d.id);
        doc.add_u64(ts_f, d.timestamp);
        doc.add_text(sender_f, &d.sender);
        doc.add_text(ce_f, &d.content);
        doc.add_text(cf_f, &d.content);
        writer.add_document(doc).unwrap();
    }
    writer.commit().unwrap();
    index
}

/// Runs a retrieval plan: the weighted per-field disjunction, fetching up to
/// the plan's limit, returning `(score, id, timestamp)` candidates.
fn run_plan(index: &Index, plan: &QueryPlan) -> Vec<(f32, u64, u64)> {
    let schema = index.schema();
    let mut parts: Vec<(Occur, Box<dyn Query>)> = Vec::new();
    for fq in &plan.fields {
        let field = schema.get_field(&fq.field).unwrap();
        let parser = QueryParser::for_index(index, vec![field]);
        let q = parser.parse_query(&plan.query).unwrap();
        let boosted: Box<dyn Query> =
            Box::new(BoostQuery::new(q, fq.weight_millis as f32 / 1000.0));
        parts.push((Occur::Should, boosted));
    }
    let query = BooleanQuery::new(parts);
    let reader = index.reader().unwrap();
    let searcher = reader.searcher();
    let hits = searcher.search(&query, &TopDocs::with_limit(plan.fetch_limit.max(1)).order_by_score()).unwrap();
    let id_f = schema.get_field("id").unwrap();
    let ts_f = schema.get_field("timestamp").unwrap();
    hits.into_iter()
        .map(|(score, addr)| {
            let doc: TantivyDocument = searcher.doc(addr).unwrap();
            let id = doc.get_first(id_f).and_then(|v| v.as_u64()).unwrap();
            let ts = doc.get_first(ts_f).and_then(|v| v.as_u64()).unwrap_or(0);
            (score, id, ts)
        })
        .collect()
}

#[test]
fn sender_name_retrieves_that_senders_messages() {
    // Searching a sender's exact display name finds that sender's messages
    // even when no message body contains the name: the sender field competes
    // at its own weight.
    let messages = vec![
        msg(0, "Marvin", "totally unrelated words in this body", 1000),
        msg(1, "Ann", "some other other text entirely", 1000),
    ];
    let index = build_index(&messages);
    let req = SearchRequest {
        query: "Marvin".to_string(),
        limit: 5,
        after_timestamp: None,
        before_timestamp: None,
    };
    let plan = exact_stage_plan(&req);
    let hits = run_plan(&index, &plan);
    assert_eq!(hits.len(), 1);
    assert_eq!(hits[0].1, 0);
}

#[test]
fn sender_match_ranks_with_body_mentions() {
    // A sender-field match competes with messages that merely mention the
    // name as body text; both are retrieved by stage one.
    let messages = vec![
        msg(0, "Marvin", "nothing that matches the search words", 1000),
        msg(1, "Ann", "earlier today marvin shared a very long story about the park and the rain", 1000),
        msg(2, "Bob", "yet more filler text without the name", 1000),
    ];
    let index = build_index(&messages);
    let req = SearchRequest {
        query: "Marvin".to_string(),
        limit: 5,
        after_timestamp: None,
        before_timestamp: None,
    };
    let plan = exact_stage_plan(&req);
    let hits = run_plan(&index, &plan);
    let ids: Vec<u64> = hits.iter().map(|h| h.1).collect();
    assert!(ids.contains(&0), "the sender's own message must be retrieved");
    assert!(ids.contains(&1), "the body mention must be retrieved");
    // The two-stage engine finishes with stage one's hits, re-ranked.
    let candidates: Vec<sapper::search::Candidate> = hits
        .iter()
        .map(|(score, id, ts)| sapper::search::Candidate {
            score_millis: (score * 1000.0) as u64,
            id: *id,
            timestamp: *ts,
        })
        .collect();
    match after_exact_stage(&req, &candidates, 2000) {
        SearchStep::Finished(final_ids) => {
            assert_eq!(final_ids.len(), 2);
            assert!(final_ids.contains(&0));
            assert!(final_ids.contains(&1));
        }
        SearchStep::RunFuzzy(_) => panic!("stage one had hits"),
    }
}
