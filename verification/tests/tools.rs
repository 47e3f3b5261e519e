use trivia_core::model::{Memory, MemorizeNeighbor, MemoryLink};
use trivia_core::model::StoreError;
use trivia_core::tools::{
    clip_body, close_neighbor_count, other_end_of, rating_choice, rating_request, rating_targets,
    recall_limit, scored_at_least,
};

fn memory(name: &str, score: i64) -> Memory {
    Memory {
        mnemonic: name.to_string(),
        content: String::new(),
        tags: Vec::new(),
        distance: 0,
        score,
        created_at: 0,
        updated_at: 0,
        recall_count: 0,
        last_recalled_at: None,
        useful_count: 0,
        not_useful_count: 0,
        links: Vec::new(),
    }
}

#[test]
fn recall_limit_is_kept_in_bounds() {
    assert_eq!(recall_limit(None), 5);
    assert_eq!(recall_limit(Some(0)), 1);
    assert_eq!(recall_limit(Some(7)), 7);
    assert_eq!(recall_limit(Some(10)), 10);
    assert_eq!(recall_limit(Some(11)), 10);
}

#[test]
fn rating_targets_put_the_single_one_first() {
    let batch = vec!["b".to_string(), "c".to_string()];
    assert_eq!(rating_targets(Some("a".into()), Some(batch.clone())), vec!["a", "b", "c"]);
    assert_eq!(rating_targets(Some("c".into()), Some(batch.clone())), vec!["b", "c"]);
    assert_eq!(rating_targets(None, Some(batch)), vec!["b", "c"]);
    assert_eq!(rating_targets(Some("a".into()), None), vec!["a"]);
    assert!(rating_targets(None, None).is_empty());
}

#[test]
fn low_scores_are_dropped() {
    let kept = scored_at_least(vec![memory("a", 5), memory("b", -1), memory("c", 0), memory("d", 9)], 0);
    let names: Vec<&str> = kept.iter().map(|m| m.mnemonic.as_str()).collect();
    assert_eq!(names, vec!["a", "c", "d"]);
    assert!(scored_at_least(Vec::new(), 0).is_empty());
}

#[test]
fn close_neighbors_are_counted() {
    let n = |d: u64| MemorizeNeighbor { mnemonic: String::new(), distance: d, tags: Vec::new() };
    assert_eq!(close_neighbor_count(&vec![n(0), n(219_999), n(220_000), n(290_000)]), 2);
    assert_eq!(close_neighbor_count(&Vec::new()), 0);
}

#[test]
fn bodies_are_clipped_by_characters() {
    assert_eq!(clip_body("hello", None), ("hello".to_string(), 0));
    assert_eq!(clip_body("hello", Some(5)), ("hello".to_string(), 0));
    assert_eq!(clip_body("hello", Some(2)), ("he".to_string(), 3));
    assert_eq!(clip_body("héllo", Some(2)), ("hé".to_string(), 3));
    assert_eq!(clip_body("hello", Some(0)), (String::new(), 5));
}

#[test]
fn the_other_end_of_a_link() {
    let link = MemoryLink {
        source_mnemonic: "a".into(),
        target_mnemonic: "b".into(),
        link_type: "related".into(),
        created_at: 0,
    };
    assert_eq!(other_end_of(&link, "a"), "b");
    assert_eq!(other_end_of(&link, "b"), "a");
    assert_eq!(other_end_of(&link, "c"), "a");
}

#[test]
fn a_rating_must_name_a_memory_and_say_which_way() {
    assert_eq!(rating_request(None, None), Err(StoreError::EmptyRating));
    assert_eq!(rating_request(None, Some(Vec::new())), Err(StoreError::EmptyRating));
    assert_eq!(rating_request(Some("a".into()), None), Ok(vec!["a".to_string()]));
    assert_eq!(
        rating_request(Some("a".into()), Some(vec!["b".to_string()])),
        Ok(vec!["a".to_string(), "b".to_string()])
    );
    assert_eq!(rating_choice(false, false), Err(StoreError::EmptyRating));
    assert_eq!(rating_choice(true, false), Ok(true));
    assert_eq!(rating_choice(false, true), Ok(false));
}
