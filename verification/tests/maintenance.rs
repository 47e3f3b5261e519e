use trivia_core::config::TriviaConfig;
use trivia_core::listing::merge_fetch_limit;
use trivia_core::model::{Neighbor, StoreError};
use trivia_core::recall::{fetch_limit, fts_phrase, seconds_between};
use trivia_core::store::MemoryStore;
use trivia_core::tags::{edit_tags, merge_tags, rename_in_tags};
use trivia_core::text::text_before;
use trivia_core::web::{default_limit, default_link_type, mime_from_ext};

const NOW: i64 = 1_700_000_000;

fn emb(x: u8) -> Vec<u8> {
    vec![x; 1536]
}

fn tags(names: &[&str]) -> Vec<String> {
    names.iter().map(|s| s.to_string()).collect()
}

fn store_with(names: &[&str]) -> MemoryStore {
    let mut store = MemoryStore::in_memory();
    for (i, name) in names.iter().enumerate() {
        store
            .upsert_with_uuid(format!("uuid-{i}"), name, &format!("body of {name}"), &Vec::new(), &emb(1), NOW)
            .unwrap();
    }
    store
}

#[test]
fn test_merge_tags() {
    let config: Vec<String> = vec!["a".into(), "b".into()];
    let explicit: Vec<String> = vec!["b".into(), "c".into()];
    let merged = TriviaConfig::merge_tags(&config, &explicit);
    assert_eq!(merged, vec!["a", "b", "c"]);
    assert_eq!(merge_tags(&explicit, &config), vec!["b", "c", "a"]);
    assert_eq!(merge_tags(&Vec::new(), &tags(&["x", "x"])), vec!["x"]);
}

#[test]
fn tag_edits_keep_order() {
    let current = tags(&["a", "b", "c"]);
    assert_eq!(edit_tags(&current, &tags(&["d", "a"]), &tags(&["b"])), vec!["a", "c", "d"]);
    assert_eq!(edit_tags(&current, &tags(&["d"]), &tags(&["d"])), vec!["a", "b", "c"]);
    assert_eq!(rename_in_tags(&current, "b", "z"), vec!["a", "c", "z"]);
    assert_eq!(rename_in_tags(&current, "b", "a"), vec!["a", "c"]);
    assert_eq!(rename_in_tags(&tags(&["b", "x", "b"]), "b", "y"), vec!["x", "y"]);
}

#[test]
fn edit_needs_a_change() {
    let mut store = store_with(&["a"]);
    assert!(matches!(
        store.edit_memory("a", None, &Vec::new(), &Vec::new(), None, NOW),
        Err(StoreError::EmptyEdit)
    ));
    assert!(matches!(
        store.edit_memory("zz", None, &tags(&["t"]), &Vec::new(), None, NOW),
        Err(StoreError::NotFound)
    ));
}

#[test]
fn edit_changes_tags_and_name() {
    let mut store = store_with(&["a", "b"]);
    let report = store
        .edit_memory("a", None, &tags(&["x", "y"]), &Vec::new(), None, NOW + 1)
        .unwrap();
    assert_eq!(report.old_mnemonic, "a");
    assert_eq!(report.new_mnemonic, "a");
    assert_eq!(report.tags, vec!["x", "y"]);
    assert!(!report.re_embedded);
    assert_eq!(store.rows()[0].updated_at, NOW + 1);
    assert_eq!(store.rows()[0].embedding, emb(1));

    assert!(matches!(
        store.edit_memory("a", Some("c"), &Vec::new(), &Vec::new(), None, NOW),
        Err(StoreError::EmbeddingRequired)
    ));
    assert!(matches!(
        store.edit_memory("a", Some("b"), &Vec::new(), &Vec::new(), Some(&emb(2)), NOW),
        Err(StoreError::MnemonicTaken)
    ));
    assert!(matches!(
        store.edit_memory("a", Some("c"), &Vec::new(), &Vec::new(), Some(&vec![1u8; 5]), NOW),
        Err(StoreError::BadEmbedding)
    ));
    assert_eq!(store.rows()[0].mnemonic, "a");

    let report = store
        .edit_memory("a", Some("c"), &tags(&["z"]), &tags(&["x"]), Some(&emb(2)), NOW + 2)
        .unwrap();
    assert_eq!(report.old_mnemonic, "a");
    assert_eq!(report.new_mnemonic, "c");
    assert_eq!(report.tags, vec!["y", "z"]);
    assert!(report.re_embedded);
    assert_eq!(store.rows()[0].mnemonic, "c");
    assert_eq!(store.rows()[0].embedding, emb(2));
    assert_eq!(store.rows()[0].uuid, "uuid-0");
    assert!(store.check());
}

#[test]
fn rename_and_update() {
    let mut store = store_with(&["a", "b"]);
    assert_eq!(store.rename_memory("zz", "c", &emb(2), NOW), Err(StoreError::NotFound));
    assert_eq!(store.rename_memory("a", "b", &emb(2), NOW), Err(StoreError::MnemonicTaken));
    assert_eq!(store.rename_memory("a", "c", &vec![0u8; 1], NOW), Err(StoreError::BadEmbedding));
    assert_eq!(store.rename_memory("a", "a", &emb(3), NOW + 1), Ok(()));
    assert_eq!(store.rename_memory("a", "c", &emb(2), NOW + 2), Ok(()));
    assert_eq!(store.rows()[0].mnemonic, "c");
    assert_eq!(store.rows()[0].embedding, emb(2));
    assert_eq!(store.rows()[0].updated_at, NOW + 2);
    assert_eq!(store.rows()[0].created_at, NOW);

    assert_eq!(
        store.update_memory("a", "x", &Vec::new(), &emb(4), NOW),
        Err(StoreError::NotFound)
    );
    assert_eq!(
        store.update_memory("c", "x", &Vec::new(), &vec![0u8; 2], NOW),
        Err(StoreError::BadEmbedding)
    );
    assert_eq!(store.update_memory("c", "new body", &tags(&["t"]), &emb(4), NOW + 3), Ok(()));
    assert_eq!(store.rows()[0].content, "new body");
    assert_eq!(store.rows()[0].tags, vec!["t"]);
    assert_eq!(store.rows()[0].embedding, emb(4));
}

#[test]
fn rate_batch_lists_the_missing() {
    let mut store = store_with(&["a", "b"]);
    let missing = store.rate_batch(&tags(&["a", "x", "b", "a", "y"]), false);
    assert_eq!(missing, vec!["x", "y"]);
    assert_eq!(store.rows()[0].not_useful_count, 2);
    assert_eq!(store.rows()[1].not_useful_count, 1);
    assert_eq!(store.rows()[0].useful_count, 0);
}

#[test]
fn counters_stay_at_the_top() {
    let mut rows = Vec::new();
    rows.push(trivia_core::storage::StoredRow {
        id: 1,
        uuid: "u".into(),
        mnemonic: "a".into(),
        content: "c".into(),
        tags: "[]".into(),
        embedding: emb(0),
        created_at: "2024-01-01 00:00:00".into(),
        updated_at: "2024-01-01 00:00:00".into(),
        recall_count: i64::MAX,
        last_recalled_at: None,
        useful_count: i64::MAX,
        not_useful_count: 0,
    });
    let mut store = MemoryStore::new(rows, Vec::new()).unwrap();
    store.rate("a", true).unwrap();
    assert_eq!(store.rows()[0].useful_count, i64::MAX);
    let found = store.get_memory_by_mnemonic("a").unwrap();
    store.recall(vec![found], 1, NOW);
    assert_eq!(store.rows()[0].recall_count, i64::MAX);
    assert_eq!(store.rows()[0].last_recalled_at, Some(NOW));
}

#[test]
fn delete_cascades() {
    let mut store = store_with(&["a", "b", "c"]);
    store.link("a", "b", "related", NOW).unwrap();
    store.link("c", "a", "supersedes", NOW).unwrap();
    store.link("b", "c", "related", NOW).unwrap();
    assert!(store.delete_memory("a"));
    assert!(!store.delete_memory("a"));
    assert_eq!(store.len(), 2);
    let links = store.get_all_links();
    assert_eq!(links.len(), 1);
    assert_eq!(links[0].source_mnemonic, "b");
    assert!(store.get_links("a").is_empty());
    assert!(store.check());
    // An identifier is not given out twice.
    let id = store.upsert("d", "d", &Vec::new(), &emb(1), NOW).unwrap();
    assert_eq!(id, 4);
}

#[test]
fn rename_tag_counts_memories() {
    let mut store = MemoryStore::in_memory();
    store.upsert("a", "a", &tags(&["old", "x"]), &emb(1), NOW).unwrap();
    store.upsert("b", "b", &tags(&["x"]), &emb(1), NOW).unwrap();
    store.upsert("c", "c", &tags(&["new", "old"]), &emb(1), NOW).unwrap();
    assert_eq!(store.rename_tag("old", "new", NOW + 7), 2);
    assert_eq!(store.rows()[0].tags, vec!["x", "new"]);
    assert_eq!(store.rows()[0].updated_at, NOW + 7);
    assert_eq!(store.rows()[1].tags, vec!["x"]);
    assert_eq!(store.rows()[1].updated_at, NOW);
    assert_eq!(store.rows()[2].tags, vec!["new"]);
    assert_eq!(store.rename_tag("old", "new", NOW + 8), 0);
}

#[test]
fn list_tags_orders_by_count_then_name() {
    let mut store = MemoryStore::in_memory();
    store.upsert("a", "a", &tags(&["rust", "db"]), &emb(1), NOW).unwrap();
    store.upsert("b", "b", &tags(&["db", "api"]), &emb(1), NOW).unwrap();
    store.upsert("c", "c", &tags(&["zeta", "db"]), &emb(1), NOW).unwrap();
    let counts: Vec<(String, i64)> = store.list_tags().into_iter().map(|t| (t.tag, t.count)).collect();
    assert_eq!(
        counts,
        vec![
            ("db".to_string(), 3),
            ("api".to_string(), 1),
            ("rust".to_string(), 1),
            ("zeta".to_string(), 1),
        ]
    );
    assert!(MemoryStore::in_memory().list_tags().is_empty());
}

#[test]
fn summaries_order_by_recalls_then_change() {
    let mut store = MemoryStore::in_memory();
    store.upsert("a", "a", &Vec::new(), &emb(1), 10).unwrap();
    store.upsert("b", "b", &Vec::new(), &emb(1), 30).unwrap();
    store.upsert("c", "c", &Vec::new(), &emb(1), 20).unwrap();
    store.upsert("d", "d", &Vec::new(), &emb(1), 20).unwrap();
    let found = store.get_memory_by_mnemonic("c").unwrap();
    store.recall(vec![found], 5, 40);
    store.rate("c", true).unwrap();
    let all = store.list_all_summaries();
    let names: Vec<&str> = all.iter().map(|s| s.mnemonic.as_str()).collect();
    assert_eq!(names, vec!["c", "b", "d", "a"]);
    assert_eq!(all[0].recall_count, 1);
    assert_eq!(all[0].useful_count, 1);
    assert_eq!(all[0].content, "c");
}

#[test]
fn find_nearest_leaves_out_one_name() {
    let store = store_with(&["a", "b", "c"]);
    let nearest = vec![
        Neighbor { memory_id: 1, distance: 0 },
        Neighbor { memory_id: 2, distance: 100 },
        Neighbor { memory_id: 9, distance: 100 },
        Neighbor { memory_id: 3, distance: 500 },
    ];
    assert_eq!(store.find_nearest(&nearest, 500, "a"), vec![("b".to_string(), 100)]);
    assert_eq!(
        store.find_nearest(&nearest, 501, "zz"),
        vec![("a".to_string(), 0), ("b".to_string(), 100), ("c".to_string(), 500)]
    );
    assert!(store.find_nearest(&nearest, 0, "zz").is_empty());
}

#[test]
fn merge_candidates_are_filtered_and_cut() {
    let store = store_with(&["a", "b", "c", "d"]);
    let nearest = vec![
        Neighbor { memory_id: 1, distance: 0 },
        Neighbor { memory_id: 2, distance: 100 },
        Neighbor { memory_id: 3, distance: 200 },
        Neighbor { memory_id: 4, distance: 300 },
    ];
    assert_eq!(merge_fetch_limit(1, 1), 3);
    assert_eq!(merge_fetch_limit(usize::MAX, 1), usize::MAX);
    let found = store.find_merge_candidates(&nearest, 250_000, &tags(&["a"]), 1);
    assert_eq!(found.len(), 1);
    assert_eq!(found[0].mnemonic, "b");
    assert_eq!(found[0].distance, 100);
    assert_eq!(found[0].content, "body of b");
    // With one name left out and one wanted, three answers are read: "d" is not.
    let found = store.find_merge_candidates(&nearest, 250_000, &tags(&["b"]), 1);
    assert_eq!(found.len(), 1);
    assert_eq!(found[0].mnemonic, "a");
    let found = store.find_merge_candidates(&nearest, 1_000, &tags(&["a", "b", "c"]), 1);
    assert_eq!(found.len(), 1);
    assert_eq!(found[0].mnemonic, "d");
    let found = store.find_merge_candidates(&nearest, 150, &Vec::new(), 5);
    assert_eq!(found.len(), 2);
}

#[test]
fn fetch_limits() {
    assert_eq!(fetch_limit(5, false), 15);
    assert_eq!(fetch_limit(5, true), 60);
    assert_eq!(fetch_limit(0, true), 0);
    assert_eq!(fetch_limit(usize::MAX, false), usize::MAX);
    assert_eq!(fetch_limit(usize::MAX / 12 + 1, true), usize::MAX);
}

#[test]
fn fts_phrase_quotes() {
    assert_eq!(fts_phrase(""), None);
    assert_eq!(fts_phrase("rust lang").as_deref(), Some("\"rust lang\""));
    assert_eq!(fts_phrase("say \"hi\"").as_deref(), Some("\"say \"\"hi\"\"\""));
}

#[test]
fn seconds_between_is_cut() {
    assert_eq!(seconds_between(10, 70), 60);
    assert_eq!(seconds_between(70, 10), 0);
    assert_eq!(seconds_between(i64::MIN, i64::MAX), i64::MAX);
    assert_eq!(seconds_between(-5, 5), 10);
}

#[test]
fn text_order_is_by_code_point() {
    assert!(text_before("a", "b"));
    assert!(text_before("a", "aa"));
    assert!(!text_before("a", "a"));
    assert!(!text_before("b", "a"));
    assert!(text_before("Z", "a"));
    assert!(text_before("", "a"));
    assert!(text_before("z", "é"));
}

#[test]
fn web_defaults() {
    assert_eq!(default_limit(), 10);
    assert_eq!(default_link_type(), "related");
    assert_eq!(mime_from_ext("html"), "text/html");
    assert_eq!(mime_from_ext("js"), "application/javascript");
    assert_eq!(mime_from_ext("jpeg"), "image/jpeg");
    assert_eq!(mime_from_ext("jpg"), "image/jpeg");
    assert_eq!(mime_from_ext("woff2"), "font/woff2");
    assert_eq!(mime_from_ext("wasm"), "application/wasm");
    assert_eq!(mime_from_ext("exe"), "application/octet-stream");
    assert_eq!(mime_from_ext("HTML"), "application/octet-stream");
}

#[test]
fn config_defaults_are_empty() {
    let config = TriviaConfig::default();
    assert!(config.memorize.tags.is_empty());
    assert!(config.recall.tags.is_empty());
    assert!(config.export.tags.is_empty());
    assert_eq!(config.recall.min_score, None);
    assert_eq!(config.recall.body_max_chars, None);
    assert_eq!(config.database, None);
}
