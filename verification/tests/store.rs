use trivia_core::model::{
    Memory, MemorizeResult, Neighbor, StoreError, AUTO_LINK_MAX_NEIGHBORS, EMBED_BYTES, EMBED_DIM,
};
use trivia_core::recall::{fetch_limit, ScoreSignals};
use trivia_core::store::MemoryStore;

const NOW: i64 = 1_700_000_000;

fn bytes(embedding: &[f32]) -> Vec<u8> {
    embedding.iter().flat_map(|x| x.to_le_bytes()).collect()
}

fn floats(bytes: &[u8]) -> Vec<f32> {
    bytes.chunks(4).map(|c| f32::from_le_bytes([c[0], c[1], c[2], c[3]])).collect()
}

fn tags(names: &[&str]) -> Vec<String> {
    names.iter().map(|s| s.to_string()).collect()
}

fn micros(distance: f64) -> u64 {
    (distance * 1_000_000.0).floor() as u64
}

/// What the vector index answers: the `k` rows nearest to `query`, nearest first.
fn knn(store: &MemoryStore, query: &[f32], k: usize) -> Vec<Neighbor> {
    let mut all: Vec<(f64, i64)> = store
        .rows()
        .iter()
        .map(|row| {
            let sum: f64 = floats(&row.embedding)
                .iter()
                .zip(query)
                .map(|(a, b)| ((*a - *b) as f64) * ((*a - *b) as f64))
                .sum();
            (sum.sqrt(), row.id)
        })
        .collect();
    all.sort_by(|a, b| a.partial_cmp(b).unwrap());
    all.into_iter()
        .take(k)
        .map(|(d, id)| Neighbor { memory_id: id, distance: micros(d) })
        .collect()
}

fn memorize(
    store: &mut MemoryStore,
    mnemonic: &str,
    content: &str,
    tag_names: &[&str],
    embedding: &[f32],
) -> Result<MemorizeResult, StoreError> {
    memorize_at(store, mnemonic, content, tag_names, embedding, NOW)
}

fn memorize_at(
    store: &mut MemoryStore,
    mnemonic: &str,
    content: &str,
    tag_names: &[&str],
    embedding: &[f32],
    now: i64,
) -> Result<MemorizeResult, StoreError> {
    let id = store.upsert(mnemonic, content, &tags(tag_names), &bytes(embedding), now)?;
    let nearest = knn(store, embedding, AUTO_LINK_MAX_NEIGHBORS + 1);
    store.receive(id, &nearest, now)
}

/// The composite score with the default weights, in units.
fn score(candidates: &[Memory], i: usize, s: &ScoreSignals) -> f64 {
    let mem = &candidates[i];
    let similarity = 1.0 - mem.distance as f64 / 1e6;
    let lambda = (2.0_f64).ln() / 7.0;
    let recency = match s.seconds_since_recall {
        Some(seconds) => (-lambda * (seconds as f64 / 86400.0)).exp(),
        None => 0.0,
    };
    let frequency = (1.0 + mem.recall_count as f64).ln();
    let link_boost: f64 = s.linked.iter().map(|j| 1.0 - candidates[*j].distance as f64 / 1e6).sum();
    let total = (mem.useful_count + mem.not_useful_count) as f64;
    let rating = if total > 0.0 {
        ((mem.useful_count - mem.not_useful_count) as f64 / total) * (total.sqrt() / (total.sqrt() + 1.0))
    } else {
        0.0
    };
    let tag_boost = if s.boost_tag_count > 0 {
        s.tag_matches as f64 / s.boost_tag_count as f64
    } else {
        0.0
    };
    let fts = if s.fts_match { 1.0 } else { 0.0 };
    similarity + 0.1 * recency + 0.05 * frequency + 0.1 * link_boost + 0.15 * rating
        + 0.2 * tag_boost + 0.5 * fts
}

fn recall_with(
    store: &mut MemoryStore,
    query: &[f32],
    limit: usize,
    want: Option<&Vec<String>>,
    fts_matches: &Vec<String>,
    exclude: Option<&Vec<String>>,
    now: i64,
) -> Vec<Memory> {
    let nearest = knn(store, query, fetch_limit(limit, want.is_some()));
    let mut candidates = store.recall_candidates(&nearest, limit, want, exclude);
    let signals = store.score_signals(&candidates, fts_matches, now);
    let scores: Vec<i64> = (0..candidates.len())
        .map(|i| (score(&candidates, i, &signals[i]) * 1e6).round() as i64)
        .collect();
    for (c, s) in candidates.iter_mut().zip(scores) {
        c.score = s;
    }
    store.recall(candidates, limit, now)
}

fn recall(store: &mut MemoryStore, query: &[f32], limit: usize) -> Vec<Memory> {
    recall_with(store, query, limit, None, &Vec::new(), None, NOW)
}

fn ramp(offset: f32) -> Vec<f32> {
    (0..384).map(|i| (i as f32) / 384.0 + offset).collect()
}

#[test]
fn test_memorize_and_recall() {
    let mut store = MemoryStore::in_memory();
    let emb1 = ramp(0.0);
    let emb2 = ramp(0.01);
    let query = ramp(0.005);

    memorize(&mut store, "test::fact1", "Rust is a systems language", &[], &emb1).unwrap();
    memorize(&mut store, "test::fact2", "SQLite is an embedded database", &["db"], &emb2).unwrap();

    let results = recall(&mut store, &query, 5);
    assert_eq!(results.len(), 2);

    // Both should be returned, closest first
    assert!(results[0].distance <= results[1].distance);

    // Pre-update snapshot: count=0, never recalled
    assert_eq!(results[0].recall_count, 0);
    assert_eq!(results[1].recall_count, 0);
    assert!(results[0].last_recalled_at.is_none());
    assert!(results[1].last_recalled_at.is_none());
    assert!(store.check());
}

#[test]
fn test_upsert() {
    let mut store = MemoryStore::in_memory();
    let emb = vec![0.1f32; 384];
    let emb2 = vec![0.2f32; 384];

    memorize(&mut store, "key", "original content", &[], &emb).unwrap();
    memorize(&mut store, "key", "updated content", &[], &emb2).unwrap();

    let results = recall(&mut store, &emb2, 5);
    assert_eq!(results.len(), 1);
    assert_eq!(results[0].content, "updated content");
}

#[test]
fn test_recall_tracking() {
    let mut store = MemoryStore::in_memory();
    let emb = ramp(0.0);
    memorize(&mut store, "tracked::fact", "some content", &[], &emb).unwrap();

    let results = recall(&mut store, &emb, 5);
    assert_eq!(results.len(), 1);
    assert_eq!(results[0].recall_count, 0);
    assert!(results[0].last_recalled_at.is_none());

    let results = recall(&mut store, &emb, 5);
    assert_eq!(results[0].recall_count, 1);
    assert!(results[0].last_recalled_at.is_some());

    let results = recall(&mut store, &emb, 5);
    assert_eq!(results[0].recall_count, 2);
    assert!(results[0].last_recalled_at.is_some());
}

#[test]
fn test_create_link() {
    let mut store = MemoryStore::in_memory();
    let emb1 = vec![0.1f32; 384];
    let emb2 = vec![-0.5f32; 384];

    memorize(&mut store, "alpha", "first memory", &[], &emb1).unwrap();
    memorize(&mut store, "beta", "second memory", &[], &emb2).unwrap();

    store.link("alpha", "beta", "related", NOW).unwrap();

    let links = store.get_links("alpha");
    assert_eq!(links.len(), 1);
    assert_eq!(links[0].source_mnemonic, "alpha");
    assert_eq!(links[0].target_mnemonic, "beta");
    assert_eq!(links[0].link_type, "related");

    let links_beta = store.get_links("beta");
    assert_eq!(links_beta.len(), 1);
}

#[test]
fn test_auto_link_similar_memories() {
    let mut store = MemoryStore::in_memory();
    let emb1 = ramp(0.0);
    let emb2 = ramp(0.01);

    memorize(&mut store, "similar::a", "topic A", &[], &emb1).unwrap();
    let report = memorize(&mut store, "similar::b", "topic B", &[], &emb2).unwrap();

    let links = store.get_links("similar::b");
    assert!(!links.is_empty(), "auto-link should create a link between similar memories");
    assert_eq!(links[0].link_type, "related");
    assert_eq!(links[0].source_mnemonic, "similar::b");
    assert_eq!(links[0].target_mnemonic, "similar::a");
    assert_eq!(report.merged_with, None);
    assert_eq!(report.neighbors.len(), 1);
    assert_eq!(report.neighbors[0].mnemonic, "similar::a");
    assert!(report.neighbors[0].distance > 190_000 && report.neighbors[0].distance < 200_000);
}

#[test]
fn test_get_links() {
    let mut store = MemoryStore::in_memory();
    memorize(&mut store, "x", "mem x", &[], &vec![0.1f32; 384]).unwrap();
    memorize(&mut store, "y", "mem y", &[], &vec![-0.5f32; 384]).unwrap();
    memorize(&mut store, "z", "mem z", &[], &vec![0.9f32; 384]).unwrap();

    store.link("x", "y", "supersedes", NOW).unwrap();
    store.link("z", "x", "derived_from", NOW).unwrap();

    let links = store.get_links("x");
    assert_eq!(links.len(), 2);
}

#[test]
fn test_unlink() {
    let mut store = MemoryStore::in_memory();
    memorize(&mut store, "a", "mem a", &[], &vec![0.1f32; 384]).unwrap();
    memorize(&mut store, "b", "mem b", &[], &vec![-0.5f32; 384]).unwrap();

    store.link("a", "b", "related", NOW).unwrap();
    assert_eq!(store.get_links("a").len(), 1);

    store.unlink("a", "b", "related");
    assert_eq!(store.get_links("a").len(), 0);
}

#[test]
fn test_links_survive_upsert() {
    let mut store = MemoryStore::in_memory();
    let emb1 = vec![0.1f32; 384];
    let emb2 = vec![-0.5f32; 384];

    memorize(&mut store, "p", "original", &[], &emb1).unwrap();
    memorize(&mut store, "q", "other", &[], &emb2).unwrap();
    store.link("p", "q", "related", NOW).unwrap();
    let before: Vec<(String, String, String)> = store
        .get_links("p")
        .into_iter()
        .map(|l| (l.source_mnemonic, l.target_mnemonic, l.link_type))
        .collect();

    memorize(&mut store, "p", "updated", &[], &emb1).unwrap();

    let links = store.get_links("p");
    assert!(links.iter().any(|l| l.target_mnemonic == "q"), "link should survive upsert");
    let after: Vec<(String, String, String)> =
        links.into_iter().map(|l| (l.source_mnemonic, l.target_mnemonic, l.link_type)).collect();
    assert_eq!(before, after);
}

#[test]
fn test_link_idempotent() {
    let mut store = MemoryStore::in_memory();
    memorize(&mut store, "m1", "first", &[], &vec![0.1f32; 384]).unwrap();
    memorize(&mut store, "m2", "second", &[], &vec![-0.5f32; 384]).unwrap();

    store.link("m1", "m2", "related", NOW).unwrap();
    store.link("m1", "m2", "related", NOW + 5).unwrap();

    let links = store.get_links("m1");
    assert_eq!(links.len(), 1);
    assert_eq!(links[0].created_at, NOW);
}

#[test]
fn test_link_missing_mnemonic() {
    let mut store = MemoryStore::in_memory();
    memorize(&mut store, "exists", "content", &[], &vec![0.1f32; 384]).unwrap();

    let result = store.link("exists", "does_not_exist", "related", NOW);
    assert!(result.is_err());
    assert_eq!(result, Err(StoreError::NotFound));

    let result = store.link("does_not_exist", "exists", "related", NOW);
    assert!(result.is_err());
}

#[test]
fn test_recall_includes_links() {
    let mut store = MemoryStore::in_memory();
    let emb1 = vec![0.1f32; 384];
    memorize(&mut store, "r1", "recall target", &[], &emb1).unwrap();
    memorize(&mut store, "r2", "other memory", &[], &vec![-0.5f32; 384]).unwrap();
    store.link("r1", "r2", "supersedes", NOW).unwrap();

    let results = recall(&mut store, &emb1, 5);
    let r1 = results.iter().find(|m| m.mnemonic == "r1").unwrap();
    assert!(!r1.links.is_empty(), "recalled memory should include links");
}

#[test]
fn test_score_field_populated() {
    let mut store = MemoryStore::in_memory();
    let emb = ramp(0.0);
    memorize(&mut store, "scored", "content", &[], &emb).unwrap();

    let results = recall(&mut store, &emb, 5);
    assert_eq!(results.len(), 1);
    assert!(results[0].score > 0, "score should be positive for close match");
    assert_eq!(results[0].score, 1_000_000);
}

#[test]
fn test_frequency_boosts_score() {
    let mut store = MemoryStore::in_memory();
    let emb1 = ramp(0.0);
    let emb2 = ramp(0.01);

    memorize(&mut store, "freq::a", "frequently recalled", &[], &emb1).unwrap();
    memorize(&mut store, "freq::b", "rarely recalled", &[], &emb2).unwrap();

    for _ in 0..5 {
        recall(&mut store, &emb1, 1);
    }

    let mid = ramp(0.005);
    let results = recall(&mut store, &mid, 2);
    assert_eq!(results.len(), 2);

    let a = results.iter().find(|m| m.mnemonic == "freq::a").unwrap();
    let b = results.iter().find(|m| m.mnemonic == "freq::b").unwrap();
    assert!(a.score > b.score, "higher recall_count should boost score");
}

#[test]
fn test_recency_boosts_score() {
    let mut store = MemoryStore::in_memory();
    let emb1 = ramp(0.0);
    let emb2 = ramp(0.01);

    memorize(&mut store, "recent::a", "recently recalled", &[], &emb1).unwrap();
    memorize(&mut store, "recent::b", "never recalled", &[], &emb2).unwrap();

    recall(&mut store, &emb1, 1);

    let mid = ramp(0.005);
    let results = recall(&mut store, &mid, 2);
    let a = results.iter().find(|m| m.mnemonic == "recent::a").unwrap();
    let b = results.iter().find(|m| m.mnemonic == "recent::b").unwrap();
    assert!(a.score > b.score, "recently recalled memory should score higher");
}

#[test]
fn test_link_boost_score() {
    let mut store = MemoryStore::in_memory();
    let base = ramp(0.0);
    let emb_a: Vec<f32> = base.iter().map(|x| x - 0.01).collect();
    let emb_b: Vec<f32> = base.clone();
    let emb_c: Vec<f32> = base.iter().map(|x| x + 0.01).collect();

    memorize(&mut store, "linked::a", "content a", &[], &emb_a).unwrap();
    memorize(&mut store, "linked::b", "content b", &[], &emb_b).unwrap();
    memorize(&mut store, "linked::c", "content c", &[], &emb_c).unwrap();

    store.link("linked::a", "linked::b", "related", NOW).unwrap();

    let results = recall(&mut store, &base, 3);
    let a = results.iter().find(|m| m.mnemonic == "linked::a").unwrap();
    let c = results.iter().find(|m| m.mnemonic == "linked::c").unwrap();
    assert!(a.score > c.score, "linked memory should score higher than equidistant unlinked");
}

#[test]
fn link_boost_lifts_a_linked_candidate() {
    let mut store = MemoryStore::in_memory();
    let base = ramp(0.0);
    let emb_a: Vec<f32> = base.iter().map(|x| x - 0.01).collect();
    let emb_c: Vec<f32> = base.iter().map(|x| x + 0.01).collect();
    // Written without neighbours, so that the only link is the one made by hand.
    store.upsert("a", "content a", &Vec::new(), &bytes(&emb_a), NOW).unwrap();
    store.upsert("b", "content b", &Vec::new(), &bytes(&base), NOW).unwrap();
    store.upsert("c", "content c", &Vec::new(), &bytes(&emb_c), NOW).unwrap();
    store.link("a", "b", "related", NOW).unwrap();

    let results = recall(&mut store, &base, 3);
    let a = results.iter().find(|m| m.mnemonic == "a").unwrap();
    let c = results.iter().find(|m| m.mnemonic == "c").unwrap();
    assert_eq!(a.distance, c.distance);
    assert!(a.score > c.score);
    assert_eq!(a.score - c.score, 100_000);
}

#[test]
fn test_auto_merge_very_close_embeddings() {
    let mut store = MemoryStore::in_memory();
    let emb1 = ramp(0.0);
    let emb2 = ramp(0.0001);

    memorize(&mut store, "merge::old", "old content", &["tag_a"], &emb1).unwrap();
    let report = memorize(&mut store, "merge::new", "new content", &["tag_b"], &emb2).unwrap();
    assert_eq!(report.merged_with.as_deref(), Some("merge::old"));

    let results = recall(&mut store, &emb1, 10);
    let mnemonics: Vec<&str> = results.iter().map(|m| m.mnemonic.as_str()).collect();
    assert!(!mnemonics.contains(&"merge::old"), "old memory should be deleted after auto-merge");
    let new = results.iter().find(|m| m.mnemonic == "merge::new").unwrap();
    assert!(
        new.content.contains("new content") && new.content.contains("old content"),
        "merged memory should contain both contents"
    );
    assert_eq!(new.content, "new content\n\nold content");
    assert!(new.tags.contains(&"tag_a".to_string()));
    assert!(new.tags.contains(&"tag_b".to_string()));
    assert_eq!(new.tags, tags(&["tag_b", "tag_a"]));
    assert_eq!(store.len(), 1);
    assert!(store.get_all_links().is_empty());
    assert!(store.check());
}

#[test]
fn test_rate_useful() {
    let mut store = MemoryStore::in_memory();
    memorize(&mut store, "rated", "some content", &[], &vec![0.1f32; 384]).unwrap();

    store.rate("rated", true).unwrap();
    store.rate("rated", true).unwrap();
    store.rate("rated", false).unwrap();

    let mem = store.get_memory_by_mnemonic("rated").unwrap();
    assert_eq!(mem.useful_count, 2);
    assert_eq!(mem.not_useful_count, 1);
}

#[test]
fn test_rate_missing_mnemonic() {
    let mut store = MemoryStore::in_memory();
    let result = store.rate("nonexistent", true);
    assert!(result.is_err());
}

#[test]
fn test_rating_affects_score() {
    let mut store = MemoryStore::in_memory();
    let emb1 = ramp(0.0);
    let emb2 = ramp(0.01);

    memorize(&mut store, "good", "well-rated memory", &[], &emb1).unwrap();
    memorize(&mut store, "bad", "poorly-rated memory", &[], &emb2).unwrap();

    for _ in 0..5 {
        store.rate("good", true).unwrap();
        store.rate("bad", false).unwrap();
    }

    let mid = ramp(0.005);
    let results = recall(&mut store, &mid, 2);
    let good = results.iter().find(|m| m.mnemonic == "good").unwrap();
    let bad = results.iter().find(|m| m.mnemonic == "bad").unwrap();
    assert!(good.score > bad.score, "well-rated memory should score higher");
    assert_eq!(results[0].mnemonic, "good");
}

#[test]
fn test_manual_merge_preserves_content_and_links() {
    let mut store = MemoryStore::in_memory();
    let emb1 = vec![0.1f32; 384];
    let emb2 = vec![-0.5f32; 384];
    let emb3 = vec![0.9f32; 384];

    memorize(&mut store, "keep", "keep content", &["a"], &emb1).unwrap();
    memorize(&mut store, "discard", "discard content", &["b"], &emb2).unwrap();
    memorize(&mut store, "other", "other content", &[], &emb3).unwrap();

    store.link("discard", "other", "related", NOW).unwrap();

    store.merge("keep", "discard", &bytes(&emb1), NOW).unwrap();

    let results = recall(&mut store, &emb2, 10);
    assert!(!results.iter().any(|m| m.mnemonic == "discard"), "discard memory should be deleted");

    let results = recall(&mut store, &emb1, 10);
    let kept = results.iter().find(|m| m.mnemonic == "keep").unwrap();
    assert!(kept.content.contains("keep content"));
    assert!(kept.content.contains("discard content"));
    assert!(kept.tags.contains(&"a".to_string()));
    assert!(kept.tags.contains(&"b".to_string()));

    let links = store.get_links("keep");
    assert!(
        links.iter().any(|l| l.target_mnemonic == "other" || l.source_mnemonic == "other"),
        "links should transfer from discard to keep"
    );
    assert_eq!(links.len(), 1);
    assert_eq!(links[0].source_mnemonic, "keep");
    assert_eq!(links[0].target_mnemonic, "other");
    assert!(store.check());
}

#[test]
fn test_uuid_stability() {
    let mut store = MemoryStore::in_memory();
    let emb = vec![0.1f32; 384];
    memorize(&mut store, "stable", "content", &[], &emb).unwrap();
    let uuid1 = store.rows()[0].uuid.clone();

    memorize(&mut store, "stable", "updated content", &[], &emb).unwrap();
    let uuid2 = store.rows()[0].uuid.clone();

    assert_eq!(uuid1, uuid2, "UUID should be stable across upserts");
    assert_eq!(uuid1.len(), 36);

    store.rate("stable", true).unwrap();
    recall(&mut store, &emb, 1);
    store
        .edit_memory("stable", Some("steady"), &tags(&["t"]), &Vec::new(), Some(&bytes(&emb)), NOW)
        .unwrap();
    assert_eq!(store.rows()[0].uuid, uuid1);
}

#[test]
fn embedding_must_have_the_one_length() {
    let mut store = MemoryStore::in_memory();
    assert_eq!(EMBED_BYTES, 4 * EMBED_DIM);
    let short = vec![0u8; 12];
    assert_eq!(
        store.upsert("m", "c", &Vec::new(), &short, NOW),
        Err(StoreError::BadEmbedding)
    );
    assert_eq!(store.len(), 0);
}

#[test]
fn new_uuid_must_be_free() {
    let mut store = MemoryStore::in_memory();
    let emb = bytes(&vec![0.1f32; 384]);
    let id = store
        .upsert_with_uuid("u-1".to_string(), "a", "c", &Vec::new(), &emb, NOW)
        .unwrap();
    assert_eq!(id, 1);
    assert_eq!(
        store.upsert_with_uuid("u-1".to_string(), "b", "c", &Vec::new(), &emb, NOW),
        Err(StoreError::UuidTaken)
    );
    // The mnemonic is known: the identifier offered plays no part.
    assert_eq!(store.upsert_with_uuid("u-1".to_string(), "a", "c2", &Vec::new(), &emb, NOW), Ok(1));
    assert_eq!(store.rows()[0].content, "c2");
}

#[test]
fn receive_of_unknown_row_is_not_found() {
    let mut store = MemoryStore::in_memory();
    assert!(matches!(store.receive(7, &Vec::new(), NOW), Err(StoreError::NotFound)));
}

#[test]
fn memorize_reports_and_links_in_one_call() {
    let mut store = MemoryStore::in_memory();
    memorize(&mut store, "alpha", "Rust is a systems language", &[], &ramp(0.0)).unwrap();
    // The index's answer once "beta" is written: itself at no distance, then "alpha".
    let nearest = vec![
        Neighbor { memory_id: 2, distance: 0 },
        Neighbor { memory_id: 1, distance: 195_959 },
    ];
    let report = store
        .memorize("beta", "SQLite is embedded", &tags(&["db"]), &bytes(&ramp(0.01)), &nearest, NOW)
        .unwrap();
    assert_eq!(report.merged_with, None);
    assert_eq!(report.neighbors.len(), 1);
    assert_eq!(report.neighbors[0].mnemonic, "alpha");
    assert_eq!(report.neighbors[0].distance, 195_959);
    let links = store.get_all_links();
    assert_eq!(links.len(), 1);
    assert_eq!(links[0].source_mnemonic, "beta");
    assert_eq!(links[0].target_mnemonic, "alpha");
    assert_eq!(links[0].link_type, "related");
}

#[test]
fn first_memory_has_no_neighbors() {
    let mut store = MemoryStore::in_memory();
    let report = memorize(&mut store, "alpha", "Rust is a systems language", &[], &ramp(0.0)).unwrap();
    assert_eq!(store.len(), 1);
    assert_eq!(report.merged_with, None);
    assert!(report.neighbors.is_empty());
}

#[test]
fn thresholds_are_strict() {
    let mut store = MemoryStore::in_memory();
    let emb = bytes(&vec![0.1f32; 384]);
    store.upsert("a", "a", &Vec::new(), &emb, NOW).unwrap();
    store.upsert("b", "b", &Vec::new(), &emb, NOW).unwrap();
    store.upsert("c", "c", &Vec::new(), &emb, NOW).unwrap();
    let nearest = vec![
        Neighbor { memory_id: 3, distance: 0 },
        Neighbor { memory_id: 1, distance: 150_000 },
        Neighbor { memory_id: 2, distance: 300_000 },
        Neighbor { memory_id: 99, distance: 1 },
    ];
    let report = store.receive(3, &nearest, NOW).unwrap();
    assert_eq!(report.merged_with, None);
    assert_eq!(report.neighbors.len(), 1);
    assert_eq!(report.neighbors[0].mnemonic, "a");
    assert_eq!(store.get_all_links().len(), 1);
}

#[test]
fn only_the_first_six_answers_are_heard() {
    let mut store = MemoryStore::in_memory();
    let emb = bytes(&vec![0.1f32; 384]);
    for name in ["a", "b", "c", "d", "e", "f", "g", "h"] {
        store.upsert(name, name, &Vec::new(), &emb, NOW).unwrap();
    }
    let nearest: Vec<Neighbor> =
        (1..=8).rev().map(|id| Neighbor { memory_id: id, distance: 200_000 }).collect();
    let report = store.receive(8, &nearest, NOW).unwrap();
    assert_eq!(report.neighbors.len(), 5);
    assert_eq!(store.get_links("h").len(), 5);
    assert_eq!(store.get_links("b").len(), 0);
}

#[test]
fn link_rejects_unknown_type_and_self() {
    let mut store = MemoryStore::in_memory();
    let emb = bytes(&vec![0.1f32; 384]);
    store.upsert("a", "a", &Vec::new(), &emb, NOW).unwrap();
    store.upsert("b", "b", &Vec::new(), &emb, NOW).unwrap();
    assert_eq!(store.link("a", "b", "likes", NOW), Err(StoreError::UnknownLinkType));
    assert_eq!(store.link("a", "a", "related", NOW), Err(StoreError::SameMemory));
    assert!(store.get_all_links().is_empty());
    store.unlink("a", "b", "related");
    store.unlink("a", "nobody", "related");
    store.unlink("a", "b", "likes");
    assert!(store.get_all_links().is_empty());
}

#[test]
fn merge_errors() {
    let mut store = MemoryStore::in_memory();
    let emb = bytes(&vec![0.1f32; 384]);
    store.upsert("a", "a", &Vec::new(), &emb, NOW).unwrap();
    assert_eq!(store.merge("a", "zz", &emb, NOW), Err(StoreError::NotFound));
    assert_eq!(store.merge("zz", "a", &emb, NOW), Err(StoreError::NotFound));
    assert_eq!(store.merge("a", "a", &emb, NOW), Err(StoreError::SameMemory));
    store.upsert("b", "b", &Vec::new(), &emb, NOW).unwrap();
    assert_eq!(store.merge("a", "b", &vec![1u8; 3], NOW), Err(StoreError::BadEmbedding));
    assert_eq!(store.len(), 2);
}

#[test]
fn merge_transfers_links_without_doubles_or_self_links() {
    let mut store = MemoryStore::in_memory();
    let emb = bytes(&vec![0.1f32; 384]);
    for name in ["keep", "gone", "x", "y"] {
        store.upsert(name, name, &Vec::new(), &emb, NOW).unwrap();
    }
    store.link("gone", "x", "related", 1).unwrap();
    store.link("keep", "x", "related", 2).unwrap();
    store.link("y", "gone", "derived_from", 3).unwrap();
    store.link("gone", "keep", "related", 4).unwrap();
    store.link("keep", "gone", "supersedes", 5).unwrap();
    let other = bytes(&vec![0.3f32; 384]);
    store.merge("keep", "gone", &other, 9).unwrap();
    let links: Vec<(String, String, String, i64)> = store
        .get_all_links()
        .into_iter()
        .map(|l| (l.source_mnemonic, l.target_mnemonic, l.link_type, l.created_at))
        .collect();
    assert_eq!(
        links,
        vec![
            ("keep".to_string(), "x".to_string(), "related".to_string(), 2),
            ("y".to_string(), "keep".to_string(), "derived_from".to_string(), 3),
        ]
    );
    let kept = store.get_memory_by_mnemonic("keep").unwrap();
    assert_eq!(kept.content, "keep\n\ngone");
    assert_eq!(kept.updated_at, 9);
    assert_eq!(store.rows()[0].embedding, other);
    assert!(store.get_memory_by_mnemonic("gone").is_none());
    assert!(store.check());
}

#[test]
fn linking_twice_with_supersedes_gives_one_link() {
    let mut store = MemoryStore::in_memory();
    memorize(&mut store, "a", "first", &[], &vec![0.1f32; 384]).unwrap();
    memorize(&mut store, "b", "second", &[], &vec![-0.5f32; 384]).unwrap();

    store.link("a", "b", "supersedes", NOW).unwrap();
    store.link("a", "b", "supersedes", NOW).unwrap();

    let links = store.get_links("a");
    assert_eq!(links.len(), 1);
    assert_eq!(links[0].link_type, "supersedes");
    // Another type between the same memories is another link.
    store.link("a", "b", "related", NOW).unwrap();
    store.link("b", "a", "supersedes", NOW).unwrap();
    assert_eq!(store.get_links("a").len(), 3);
}

#[test]
fn unlinking_what_is_not_linked_changes_nothing() {
    let mut store = MemoryStore::in_memory();
    memorize(&mut store, "a", "first", &[], &vec![0.1f32; 384]).unwrap();
    memorize(&mut store, "b", "second", &[], &vec![-0.5f32; 384]).unwrap();
    store.link("a", "b", "related", NOW).unwrap();

    store.unlink("b", "a", "related");
    store.unlink("a", "b", "supersedes");
    store.unlink("a", "c", "related");
    let links = store.get_all_links();
    assert_eq!(links.len(), 1);
    assert_eq!(links[0].source_mnemonic, "a");
    assert_eq!(links[0].created_at, NOW);
}

#[test]
fn mnemonics_stay_unique() {
    let mut store = MemoryStore::in_memory();
    let emb = bytes(&vec![0.1f32; 384]);
    store.upsert("a", "one", &Vec::new(), &emb, NOW).unwrap();
    store.upsert("b", "two", &Vec::new(), &emb, NOW).unwrap();
    store.upsert("a", "three", &Vec::new(), &emb, NOW).unwrap();
    assert_eq!(store.len(), 2);
    assert_eq!(store.rename_memory("b", "a", &emb, NOW), Err(StoreError::MnemonicTaken));
    let names: Vec<&str> = store.rows().iter().map(|r| r.mnemonic.as_str()).collect();
    assert_eq!(names, vec!["a", "b"]);
    assert!(store.rows().iter().all(|r| r.embedding.len() == EMBED_BYTES));
    assert!(store.check());
}

#[test]
fn a_full_store_takes_no_new_memory() {
    let row = trivia_core::storage::StoredRow {
        id: i64::MAX - 1,
        uuid: "u".into(),
        mnemonic: "last".into(),
        content: "c".into(),
        tags: "[]".into(),
        embedding: vec![0u8; EMBED_BYTES],
        created_at: "2024-01-01 00:00:00".into(),
        updated_at: "2024-01-01 00:00:00".into(),
        recall_count: 0,
        last_recalled_at: None,
        useful_count: 0,
        not_useful_count: 0,
    };
    let mut store = MemoryStore::new(vec![row], Vec::new()).unwrap();
    let emb = vec![0u8; EMBED_BYTES];
    assert_eq!(store.upsert("more", "c", &Vec::new(), &emb, NOW), Err(StoreError::Full));
    assert_eq!(store.upsert("last", "again", &Vec::new(), &emb, NOW), Ok(i64::MAX - 1));
    assert_eq!(store.len(), 1);
}
