use std::collections::HashMap;

use folder_rs::search::ScoreInput;
use folder_rs::{Category, Index, IndexError, Lookup, Search, SearchOptions, SearchResult, Step};

/// A blob source over in-memory payloads that records every fetch.
struct Blobs {
    payloads: HashMap<(Category, u32), String>,
    fetched: Vec<(Category, u32)>,
}

impl Blobs {
    fn fixture() -> Blobs {
        // Every record sits in the shard that the router names for its key:
        // all three tokens route to shard 1, as do d1 and d3; d2 routes to shard 0.
        let mut payloads = HashMap::new();
        payloads.insert((Category::TermStats, 0), String::new());
        payloads.insert(
            (Category::TermStats, 1),
            "lunar,\"d1 d2\"\nyear,\"d1 d3\"\nnew,\"d1 d2 d3\"\n".to_string(),
        );
        payloads.insert(
            (Category::DocumentStats, 1),
            "d1,\"lunar:3 year:1 new:2\"\nd3,\"year:4 new:1\"\n".to_string(),
        );
        payloads.insert((Category::DocumentStats, 0), "d2,\"lunar:1 new:5\"\n".to_string());
        payloads.insert(
            (Category::Documents, 1),
            "id,title\nd1,Lunar New Year\nd3,New Year's Day\n".to_string(),
        );
        payloads.insert((Category::Documents, 0), "id,title\nd2,Happy Lunar Festival\n".to_string());
        Blobs { payloads, fetched: Vec::new() }
    }

    fn fetch(&mut self, c: Category, k: u32) -> Result<String, IndexError> {
        self.fetched.push((c, k));
        self.payloads.get(&(c, k)).cloned().ok_or(IndexError::ShardFetchFailed)
    }
}

fn scores(input: &ScoreInput) -> Vec<f64> {
    input
        .term_counts
        .iter()
        .map(|row| {
            row.iter()
                .zip(input.document_frequencies.iter())
                .map(|(tf, df)| *tf as f64 * (input.document_count as f64 / *df as f64).log10())
                .sum()
        })
        .collect()
}

fn run(
    index: &mut Index,
    blobs: &mut Blobs,
    query: &str,
    options: SearchOptions,
) -> Result<(SearchResult, Vec<f64>), IndexError> {
    let mut search = Search::new(query, options);
    let mut computed: Vec<f64> = Vec::new();
    loop {
        match index.advance(&search)? {
            Step::Fetch(c, k) => {
                let payload = blobs.fetch(c, k)?;
                index.ingest(c, k, &payload)?;
            }
            Step::Score(input) => {
                computed = scores(&input);
                let bits: Vec<u64> = computed.iter().map(|s| s.to_bits()).collect();
                search.set_scores(&bits);
            }
            Step::Done(result) => return Ok((result, computed)),
        }
    }
}

fn open() -> Index {
    Index::load("index", "2").unwrap()
}

fn ids(result: &SearchResult) -> Vec<String> {
    result.hits.iter().map(|h| h.id.clone()).collect()
}

fn size(s: usize, from: usize) -> SearchOptions {
    SearchOptions::new(s, from, true)
}

#[test]
fn three_token_query_matches_one_document() {
    let mut index = open();
    let mut blobs = Blobs::fixture();
    let (result, _) = run(&mut index, &mut blobs, "lunar new year", SearchOptions::default()).unwrap();
    assert_eq!(result.count, 1);
    assert_eq!(ids(&result), vec!["d1".to_string()]);
    assert_eq!(result.hits[0].source["title"], serde_json::Value::String("Lunar New Year".to_string()));
    assert_eq!(
        blobs.fetched,
        vec![(Category::TermStats, 1), (Category::DocumentStats, 1), (Category::Documents, 1)]
    );
}

#[test]
fn single_token_query_ranks_by_score() {
    let mut index = open();
    let mut blobs = Blobs::fixture();
    let (result, computed) = run(&mut index, &mut blobs, "lunar", SearchOptions::default()).unwrap();
    assert_eq!(result.count, 2);
    assert_eq!(ids(&result), vec!["d1".to_string(), "d2".to_string()]);
    let first = computed[result.hits[0].candidate];
    let second = computed[result.hits[1].candidate];
    assert!(first > second);
    assert!((first - 3.0 * (1.5f64).log10()).abs() < 1e-12);
}

#[test]
fn empty_query_has_no_hits() {
    let mut index = open();
    let mut blobs = Blobs::fixture();
    let (result, _) = run(&mut index, &mut blobs, "", SearchOptions::default()).unwrap();
    assert_eq!(result.count, 0);
    assert!(result.hits.is_empty());
    assert!(blobs.fetched.is_empty());
}

#[test]
fn stop_word_query_has_no_hits() {
    let mut index = open();
    let mut blobs = Blobs::fixture();
    let (result, _) = run(&mut index, &mut blobs, "the and of", SearchOptions::default()).unwrap();
    assert_eq!(result.count, 0);
    assert!(result.hits.is_empty());
    assert!(folder_rs::analyze("The AND, of").is_empty());
}

#[test]
fn size_zero_counts_without_hits() {
    let mut index = open();
    let mut blobs = Blobs::fixture();
    let (result, _) = run(&mut index, &mut blobs, "lunar", size(0, 0)).unwrap();
    assert_eq!(result.count, 2);
    assert!(result.hits.is_empty());
    assert!(!blobs.fetched.contains(&(Category::Documents, 0)));
}

#[test]
fn offset_page_returns_second_hit() {
    let mut index = open();
    let mut blobs = Blobs::fixture();
    let (result, _) = run(&mut index, &mut blobs, "lunar", size(1, 1)).unwrap();
    assert_eq!(result.count, 2);
    assert_eq!(ids(&result), vec!["d2".to_string()]);
}

#[test]
fn offset_past_candidates_has_no_hits() {
    let mut index = open();
    let mut blobs = Blobs::fixture();
    let (result, _) = run(&mut index, &mut blobs, "lunar", size(10, 2)).unwrap();
    assert_eq!(result.count, 2);
    assert!(result.hits.is_empty());
}

#[test]
fn larger_page_extends_smaller() {
    let mut index = open();
    let mut blobs = Blobs::fixture();
    let (small, _) = run(&mut index, &mut blobs, "new", size(1, 0)).unwrap();
    let (large, _) = run(&mut index, &mut blobs, "new", size(3, 0)).unwrap();
    assert_eq!(large.count, 3);
    assert_eq!(ids(&large)[..1].to_vec(), ids(&small));
    assert_eq!(large.hits.len(), 3);
}

#[test]
fn absent_token_is_skipped() {
    let mut index = open();
    let mut blobs = Blobs::fixture();
    let (with_absent, _) = run(&mut index, &mut blobs, "zebra lunar", SearchOptions::default()).unwrap();
    let (plain, _) = run(&mut index, &mut blobs, "lunar", SearchOptions::default()).unwrap();
    assert_eq!(with_absent.count, 2);
    assert_eq!(ids(&with_absent), ids(&plain));
}

#[test]
fn repeated_search_fetches_nothing_more() {
    let mut index = open();
    let mut blobs = Blobs::fixture();
    let (first, _) = run(&mut index, &mut blobs, "lunar new year", SearchOptions::default()).unwrap();
    let fetched = blobs.fetched.len();
    let (second, _) = run(&mut index, &mut blobs, "lunar new year", SearchOptions::default()).unwrap();
    assert_eq!(blobs.fetched.len(), fetched);
    assert_eq!(first.count, second.count);
    assert_eq!(ids(&first), ids(&second));
    let mut search = Search::new("lunar new year", SearchOptions::default());
    assert!(matches!(index.advance(&search), Ok(Step::Score(_))));
    search.set_scores(&vec![1.0f64.to_bits()]);
    assert!(matches!(index.advance(&search), Ok(Step::Done(_))));
}

#[test]
fn artifact_extensions() {
    assert_eq!(Category::Documents.extension(), "dcs");
    assert_eq!(Category::DocumentStats.extension(), "dst");
    assert_eq!(Category::TermStats.extension(), "tst");
}

#[test]
fn shard_is_ingested_once() {
    let mut index = open();
    let mut blobs = Blobs::fixture();
    let payload = blobs.fetch(Category::Documents, 1).unwrap();
    index.ingest(Category::Documents, 1, &payload).unwrap();
    assert!(index.is_shard_loaded(Category::Documents, 1));
    index.ingest(Category::Documents, 1, "id,title\nd1,Changed\n").unwrap();
    assert_eq!(
        index.fetch_document("d1").unwrap()["title"],
        serde_json::Value::String("Lunar New Year".to_string())
    );
    let (_, _) = run(&mut index, &mut blobs, "lunar new year", SearchOptions::default()).unwrap();
    assert_eq!(blobs.fetched.iter().filter(|f| **f == (Category::Documents, 1)).count(), 1);
}

#[test]
fn loaded_documents_route_to_their_shard() {
    let mut index = open();
    let mut blobs = Blobs::fixture();
    let (_, _) = run(&mut index, &mut blobs, "lunar", SearchOptions::default()).unwrap();
    for id in ["d1", "d2"] {
        assert!(index.fetch_document(id).is_some());
        let k = folder_rs::calculate_shard_id(id, 2);
        assert!(blobs.fetched.contains(&(Category::Documents, k)));
    }
}

#[test]
fn uncached_search_leaves_store_empty() {
    let index = open();
    let mut scratch = index.detached();
    let mut blobs = Blobs::fixture();
    let (result, _) = run(&mut scratch, &mut blobs, "lunar", SearchOptions::new(10, 0, false)).unwrap();
    assert_eq!(result.count, 2);
    assert!(!index.is_shard_loaded(Category::TermStats, 1));
    assert_eq!(scratch.get_shard_count(), index.get_shard_count());
}

#[test]
fn empty_index_is_refused() {
    let index = Index::load("index", "0").unwrap();
    let search = Search::new("lunar", SearchOptions::default());
    assert!(matches!(index.advance(&search), Err(IndexError::EmptyIndex)));
}

#[test]
fn unreadable_shard_count_is_not_found() {
    assert!(matches!(Index::load("index", "two"), Err(IndexError::IndexNotFound)));
    assert!(matches!(Index::load("index", ""), Err(IndexError::IndexNotFound)));
    assert!(matches!(Index::load("index", "4294967296"), Err(IndexError::IndexNotFound)));
    assert_eq!(Index::load("index", "12\n").unwrap().get_shard_count(), 12);
    assert_eq!(Index::load("index", "4294967295").unwrap().get_shard_count(), 4294967295);
}

#[test]
fn missing_shard_fails_the_search() {
    let mut index = open();
    let mut blobs = Blobs::fixture();
    blobs.payloads.remove(&(Category::TermStats, 1));
    assert!(matches!(
        run(&mut index, &mut blobs, "lunar", SearchOptions::default()),
        Err(IndexError::ShardFetchFailed)
    ));
    assert!(!index.is_shard_loaded(Category::TermStats, 1));
}

#[test]
fn malformed_payload_is_not_marked_loaded() {
    let mut index = open();
    assert_eq!(index.ingest(Category::TermStats, 1, "lunar\n"), Err(IndexError::ShardDecodeFailed));
    assert!(!index.is_shard_loaded(Category::TermStats, 1));
    assert_eq!(
        index.ingest(Category::DocumentStats, 1, "d1,\"lunar:x\"\n"),
        Err(IndexError::ShardDecodeFailed)
    );
    assert_eq!(
        index.ingest(Category::DocumentStats, 1, "d1,\"lunar\"\n"),
        Err(IndexError::ShardDecodeFailed)
    );
    assert_eq!(
        index.ingest(Category::Documents, 1, "id,title\nd1\n"),
        Err(IndexError::ShardDecodeFailed)
    );
    assert!(!index.is_shard_loaded(Category::Documents, 1));
    assert!(index.ingest(Category::TermStats, 1, "lunar,\"d1\"\n").is_ok());
}

#[test]
fn document_stats_merge_last_wins() {
    let mut index = open();
    index
        .ingest(Category::DocumentStats, 0, "d1,\"a:1 b:2\"\nd1,\"a:7\"\nd2,\"a:4 a:5\"\n")
        .unwrap();
    assert_eq!(index.term_frequency("d1", "a"), 7);
    assert_eq!(index.term_frequency("d1", "b"), 2);
    assert_eq!(index.term_frequency("d2", "a"), 5);
    assert_eq!(index.term_frequency("d3", "a"), 0);
    assert_eq!(index.count_document_stats(), 2);
}

#[test]
fn term_stats_merge_appends() {
    let mut index = open();
    index.ingest(Category::TermStats, 0, "t,\"x y\"\nt,\"y z\"\n").unwrap();
    let ids = index.fetch_term_stat("t").unwrap().get_document_ids().clone();
    assert_eq!(ids, vec!["x", "y", "y", "z"]);
    assert_eq!(folder_rs::document_frequency(&index, "t"), 4);
    assert!(index.fetch_term_stat("u").is_none());
}

#[test]
fn dotted_headers_build_nested_documents() {
    let mut index = open();
    index
        .ingest(Category::Documents, 0, "id,title,meta.author,meta.year\nx,Hi,Ann,\n")
        .unwrap();
    let doc = index.fetch_document("x").unwrap();
    assert_eq!(doc["meta"]["author"], serde_json::Value::String("Ann".to_string()));
    assert_eq!(doc["meta"]["year"], serde_json::Value::String(String::new()));
    assert!(doc.get("id").is_none());
}

fn title(index: &Index, id: &str) -> serde_json::Value {
    index.fetch_document(id).unwrap()["title"].clone()
}

#[test]
fn documents_payload_loads_every_row() {
    let mut index = open();
    index
        .ingest(Category::Documents, 1, "id,title\nd1,Lunar New Year\nd3,New Year's Day\n")
        .unwrap();
    assert_eq!(title(&index, "d1"), serde_json::Value::String("Lunar New Year".to_string()));
    assert_eq!(title(&index, "d3"), serde_json::Value::String("New Year's Day".to_string()));
    assert!(index.fetch_document("id").is_none());
}

#[test]
fn record_builds_nested_document() {
    let mut index = open();
    index.ingest(Category::Documents, 0, "id,a.b,a.c,t\nx,1,,z\n").unwrap();
    let doc = index.fetch_document("x").unwrap().clone();
    let expected: serde_json::Value = serde_json::from_str(r#"{"a":{"b":"1","c":""},"t":"z"}"#).unwrap();
    assert_eq!(doc, expected);
}

#[test]
fn later_row_with_same_id_wins() {
    let mut index = open();
    index.ingest(Category::Documents, 0, "id,title\nx,first\nx,second\n").unwrap();
    assert_eq!(title(&index, "x"), serde_json::Value::String("second".to_string()));
}

#[test]
fn malformed_headers_are_refused() {
    let mut index = open();
    for payload in [
        "id,a.0,a.>18446744073709551615\nx,1,2\n",
        "id,a..b\nx,1\n",
        "id,a-b\nx,1\n",
        "id,a,a.b\nx,1,2\n",
        "id,a,a.b\n",
    ] {
        assert_eq!(index.ingest(Category::Documents, 0, payload), Err(IndexError::ShardDecodeFailed));
    }
    assert!(!index.is_shard_loaded(Category::Documents, 0));
    index.ingest(Category::Documents, 0, "id,a.b,a\nx,1,2\n").unwrap();
    assert_eq!(index.fetch_document("x").unwrap()["a"], serde_json::Value::String("2".to_string()));
}

#[test]
fn locate_names_the_routed_shard() {
    let mut index = open();
    let k = folder_rs::calculate_shard_id("d2", 2);
    assert!(matches!(index.locate(Category::Documents, "d2"), Ok(Lookup::Fetch(Category::Documents, j)) if j == k));
    index.ingest(Category::Documents, k, "id,title\nd2,Happy Lunar Festival\n").unwrap();
    assert!(matches!(index.locate(Category::Documents, "d2"), Ok(Lookup::Ready)));
    assert!(index.fetch_document("d2").is_some());
    let empty = Index::load("index", "0").unwrap();
    assert!(matches!(empty.locate(Category::TermStats, "lunar"), Err(IndexError::EmptyIndex)));
}

#[test]
fn token_order_does_not_change_scores() {
    let mut index = open();
    let mut blobs = Blobs::fixture();
    let (a, sa) = run(&mut index, &mut blobs, "lunar new", SearchOptions::default()).unwrap();
    let (b, sb) = run(&mut index, &mut blobs, "new lunar", SearchOptions::default()).unwrap();
    assert_eq!(ids(&a), ids(&b));
    for (x, y) in a.hits.iter().zip(b.hits.iter()) {
        assert_eq!(sa[x.candidate], sb[y.candidate]);
    }
}
