use trivia_core::model::{Memory, Neighbor};
use trivia_core::store::MemoryStore;

const NOW: i64 = 1_700_000_000;

fn emb() -> Vec<u8> {
    vec![0u8; 1536]
}

fn tags(names: &[&str]) -> Vec<String> {
    names.iter().map(|s| s.to_string()).collect()
}

fn memory(name: &str, score: i64, distance: u64) -> Memory {
    Memory {
        mnemonic: name.to_string(),
        content: String::new(),
        tags: Vec::new(),
        distance,
        score,
        created_at: 0,
        updated_at: 0,
        recall_count: 0,
        last_recalled_at: None,
        useful_count: 0,
        not_useful_count: 0,
        links: Vec::new(),
    }
}

fn names(found: &[Memory]) -> Vec<&str> {
    found.iter().map(|m| m.mnemonic.as_str()).collect()
}

#[test]
fn ranking_breaks_ties_by_distance_then_name() {
    let mut store = MemoryStore::in_memory();
    let scored = vec![
        memory("d", 5, 9),
        memory("b", 7, 4),
        memory("c", 7, 4),
        memory("a", 7, 5),
        memory("e", 9, 100),
    ];
    let found = store.recall(scored, 10, NOW);
    assert_eq!(names(&found), vec!["e", "b", "c", "a", "d"]);
}

#[test]
fn recall_cuts_at_the_limit_and_counts_only_what_it_returns() {
    let mut store = MemoryStore::in_memory();
    for name in ["a", "b", "c"] {
        store.upsert(name, name, &Vec::new(), &emb(), NOW).unwrap();
    }
    let scored = vec![memory("a", 1, 0), memory("b", 3, 0), memory("c", 2, 0), memory("zz", 9, 0)];
    let found = store.recall(scored, 2, NOW + 10);
    assert_eq!(names(&found), vec!["zz", "b"]);
    assert_eq!(store.rows()[0].recall_count, 0);
    assert_eq!(store.rows()[1].recall_count, 1);
    assert_eq!(store.rows()[1].last_recalled_at, Some(NOW + 10));
    assert_eq!(store.rows()[2].recall_count, 0);
    assert_eq!(store.rows()[2].last_recalled_at, None);
    assert!(store.recall(vec![memory("a", 1, 0)], 0, NOW).is_empty());
    assert_eq!(store.rows()[0].recall_count, 0);
}

#[test]
fn a_memory_returned_twice_is_counted_once() {
    let mut store = MemoryStore::in_memory();
    store.upsert("a", "a", &Vec::new(), &emb(), NOW).unwrap();
    let found = store.recall(vec![memory("a", 1, 0), memory("a", 1, 0)], 5, NOW);
    assert_eq!(found.len(), 2);
    assert_eq!(store.rows()[0].recall_count, 1);
}

#[test]
fn candidates_follow_the_tag_rules() {
    let mut store = MemoryStore::in_memory();
    store.upsert("a", "a", &tags(&["x"]), &emb(), NOW).unwrap();
    store.upsert("b", "b", &tags(&["y", "z"]), &emb(), NOW).unwrap();
    store.upsert("c", "c", &Vec::new(), &emb(), NOW).unwrap();
    let nearest = vec![
        Neighbor { memory_id: 2, distance: 10 },
        Neighbor { memory_id: 77, distance: 11 },
        Neighbor { memory_id: 1, distance: 20 },
        Neighbor { memory_id: 3, distance: 30 },
    ];
    let all = store.recall_candidates(&nearest, 5, None, None);
    assert_eq!(names(&all), vec!["b", "a", "c"]);
    assert_eq!(all[0].distance, 10);
    assert_eq!(all[0].score, 0);
    let some = store.recall_candidates(&nearest, 5, Some(&tags(&["x", "z"])), None);
    assert_eq!(names(&some), vec!["b", "a"]);
    let none = store.recall_candidates(&nearest, 5, Some(&Vec::new()), None);
    assert!(none.is_empty());
    let rest = store.recall_candidates(&nearest, 5, None, Some(&tags(&["y"])));
    assert_eq!(names(&rest), vec!["a", "c"]);
    let both = store.recall_candidates(&nearest, 5, Some(&tags(&["x", "y"])), Some(&tags(&["z"])));
    assert_eq!(names(&both), vec!["a"]);
    // A limit of one without tags reads three answers.
    let cut = store.recall_candidates(&nearest, 1, None, None);
    assert_eq!(names(&cut), vec!["b", "a"]);
}

#[test]
fn signals_name_the_linked_candidates() {
    let mut store = MemoryStore::in_memory();
    for name in ["a", "b", "c", "d", "e", "f"] {
        store.upsert(name, name, &tags(&[name, "all"]), &emb(), NOW).unwrap();
    }
    store.link("a", "f", "related", NOW).unwrap();
    store.link("b", "a", "related", NOW).unwrap();
    store.link("a", "c", "supersedes", NOW).unwrap();
    store.link("d", "a", "derived_from", NOW).unwrap();
    store.link("a", "e", "related", NOW).unwrap();
    store.set_boost_tags(tags(&["all", "a", "none"]));
    let nearest: Vec<Neighbor> =
        (1..=5).map(|id| Neighbor { memory_id: id, distance: 10 * id as u64 }).collect();
    let mut candidates = store.recall_candidates(&nearest, 5, None, None);
    candidates[1].last_recalled_at = Some(NOW - 86_400);
    candidates[2].last_recalled_at = Some(NOW + 5);
    let signals = store.score_signals(&candidates, &tags(&["c", "zz"]), NOW);
    assert_eq!(signals.len(), 5);
    // "f" is no candidate; of the four linked candidates the first three count.
    assert_eq!(signals[0].linked, vec![1, 2, 3]);
    assert_eq!(signals[1].linked, vec![0]);
    assert_eq!(signals[4].linked, vec![0]);
    assert_eq!(signals[0].tag_matches, 2);
    assert_eq!(signals[1].tag_matches, 1);
    assert_eq!(signals[0].boost_tag_count, 3);
    assert_eq!(signals[0].seconds_since_recall, None);
    assert_eq!(signals[1].seconds_since_recall, Some(86_400));
    assert_eq!(signals[2].seconds_since_recall, Some(0));
    assert!(signals[2].fts_match);
    assert!(!signals[0].fts_match);
}

#[test]
fn get_memory_by_mnemonic_shows_the_row() {
    let mut store = MemoryStore::in_memory();
    store.upsert("a", "body", &tags(&["t"]), &emb(), NOW).unwrap();
    store.upsert("b", "b", &Vec::new(), &emb(), NOW).unwrap();
    store.link("b", "a", "related", NOW + 1).unwrap();
    let found = store.get_memory_by_mnemonic("a").unwrap();
    assert_eq!(found.mnemonic, "a");
    assert_eq!(found.content, "body");
    assert_eq!(found.tags, vec!["t"]);
    assert_eq!(found.distance, 0);
    assert_eq!(found.score, 0);
    assert_eq!(found.created_at, NOW);
    assert_eq!(found.links.len(), 1);
    assert_eq!(found.links[0].source_mnemonic, "b");
    assert_eq!(found.links[0].created_at, NOW + 1);
    assert!(store.get_memory_by_mnemonic("zz").is_none());
}

#[test]
fn the_time_of_the_last_recall_never_goes_back() {
    let mut store = MemoryStore::in_memory();
    store.upsert("a", "a", &Vec::new(), &emb(), NOW).unwrap();
    store.recall(vec![memory("a", 1, 0)], 1, NOW + 100);
    assert_eq!(store.rows()[0].last_recalled_at, Some(NOW + 100));
    // A clock that went back: the recall is counted, the later time stays.
    store.recall(vec![memory("a", 1, 0)], 1, NOW + 40);
    assert_eq!(store.rows()[0].recall_count, 2);
    assert_eq!(store.rows()[0].last_recalled_at, Some(NOW + 100));
    store.recall(vec![memory("a", 1, 0)], 1, NOW + 100);
    assert_eq!(store.rows()[0].last_recalled_at, Some(NOW + 100));
    store.recall(vec![memory("a", 1, 0)], 1, NOW + 101);
    assert_eq!(store.rows()[0].recall_count, 4);
    assert_eq!(store.rows()[0].last_recalled_at, Some(NOW + 101));
}
