use trivia_core::document::{parse_frontmatter, render_document};
use trivia_core::exchange::{ExportedLink, ExportedMemory};
use trivia_core::import::{ImportFailure, ImportKind, ImportResult, ImportedMemory};
use trivia_core::model::{Edge, LinkType, StoreError};
use trivia_core::storage::{parse_sqlite_datetime, tags_from_json, tags_to_json, StoredLink, StoredRow};
use trivia_core::store::MemoryStore;

const NOW: i64 = 1_700_000_000;

fn emb(x: u8) -> Vec<u8> {
    vec![x; 1536]
}

fn tags(names: &[&str]) -> Vec<String> {
    names.iter().map(|s| s.to_string()).collect()
}

fn make_store_with_data() -> MemoryStore {
    let mut store = MemoryStore::in_memory();
    store.upsert("project design", "layered architecture", &tags(&["arch"]), &emb(1), NOW).unwrap();
    store.upsert("api endpoints", "REST API at /api/v1", &tags(&["api"]), &emb(2), NOW).unwrap();
    store.link("project design", "api endpoints", "related", NOW).unwrap();
    store
}

fn to_import(doc: &ExportedMemory, embedding: Option<Vec<u8>>) -> ImportedMemory {
    ImportedMemory {
        uuid: doc.uuid.clone(),
        mnemonic: doc.mnemonic.clone(),
        tags: doc.tags.clone(),
        links: doc
            .links
            .iter()
            .map(|l| ExportedLink { target: l.target.clone(), link_type: l.link_type.clone() })
            .collect(),
        content: doc.content.clone(),
        embedding,
    }
}

fn front_matter(doc: &ExportedMemory) -> String {
    let mut map = serde_norway::Mapping::new();
    map.insert("uuid".into(), doc.uuid.clone().into());
    map.insert("mnemonic".into(), doc.mnemonic.clone().into());
    if !doc.tags.is_empty() {
        let list: Vec<serde_norway::Value> = doc.tags.iter().map(|t| t.clone().into()).collect();
        map.insert("tags".into(), list.into());
    }
    serde_norway::to_string(&serde_norway::Value::Mapping(map)).unwrap()
}

#[test]
fn test_parse_frontmatter() {
    let raw = "---\nuuid: abc-123\nmnemonic: test\n---\n\nHello world";
    let (front, body) = parse_frontmatter(raw).unwrap();
    let fm: serde_norway::Value = serde_norway::from_str(&front).unwrap();
    assert_eq!(fm["uuid"].as_str(), Some("abc-123"));
    assert_eq!(fm["mnemonic"].as_str(), Some("test"));
    assert_eq!(body, "Hello world");
}

#[test]
fn test_export_creates_files() {
    let store = make_store_with_data();
    let docs = store.export(None);
    assert_eq!(docs.len(), 2);
    let doc = docs.iter().find(|d| d.filename == "project-design.md").unwrap();
    let content = render_document(&front_matter(doc), &doc.content);
    assert!(content.starts_with("---\n"));
    assert!(content.contains("mnemonic: project design"));
    assert!(content.contains("layered architecture"));
}

#[test]
fn export_is_ordered_and_filtered() {
    let store = make_store_with_data();
    let docs = store.export(None);
    assert_eq!(docs[0].mnemonic, "api endpoints");
    assert_eq!(docs[0].filename, "api-endpoints.md");
    assert!(docs[0].links.is_empty());
    assert_eq!(docs[1].mnemonic, "project design");
    assert_eq!(docs[1].tags, vec!["arch"]);
    assert_eq!(docs[1].links.len(), 1);
    assert_eq!(docs[1].links[0].target, docs[0].uuid);
    assert_eq!(docs[1].links[0].link_type, "related");
    let only = store.export(Some(&tags(&["api", "other"])));
    assert_eq!(only.len(), 1);
    assert_eq!(only[0].mnemonic, "api endpoints");
    assert!(store.export(Some(&Vec::new())).is_empty());
}

#[test]
fn test_export_import_roundtrip() {
    let store = make_store_with_data();
    let docs: Vec<ImportedMemory> =
        store.export(None).iter().map(|d| to_import(d, Some(emb(7)))).collect();

    let mut store2 = MemoryStore::in_memory();
    let (result, failures) = store2.import(&docs, NOW);

    assert_eq!(result.created, 2);
    assert_eq!(result.updated, 0);
    assert_eq!(result.unchanged, 0);
    assert!(failures.is_empty());

    let links = store2.get_links("project design");
    assert!(!links.is_empty(), "links should be recreated on import");
    assert_eq!(links.len(), 1);
    assert_eq!(links[0].source_mnemonic, "project design");
    assert_eq!(links[0].target_mnemonic, "api endpoints");
    let again = store2.export(None);
    let first = store.export(None);
    assert_eq!(again.len(), first.len());
    for (a, b) in again.iter().zip(first.iter()) {
        assert_eq!(a.uuid, b.uuid);
        assert_eq!(a.mnemonic, b.mnemonic);
        assert_eq!(a.content, b.content);
        assert_eq!(a.tags, b.tags);
        // The same links, by the external identifiers of their ends and by type.
        let links = |d: &ExportedMemory| -> Vec<(String, String)> {
            d.links.iter().map(|l| (l.target.clone(), l.link_type.clone())).collect()
        };
        assert_eq!(links(a), links(b));
    }
    // Each memory holds the embedding that came with its document.
    assert!(store2.rows().iter().all(|r| r.embedding == emb(7)));
    assert_eq!(store2.links().len(), store.links().len());
    assert!(store2.check());
}

#[test]
fn test_import_idempotent() {
    let store = make_store_with_data();
    let docs: Vec<ImportedMemory> =
        store.export(None).iter().map(|d| to_import(d, Some(emb(7)))).collect();

    let mut store2 = MemoryStore::in_memory();
    let (r1, _) = store2.import(&docs, NOW);
    assert_eq!(r1.created, 2);

    let bare: Vec<ImportedMemory> = store.export(None).iter().map(|d| to_import(d, None)).collect();
    let (r2, failures) = store2.import(&bare, NOW);
    assert_eq!(r2.unchanged, 2);
    assert_eq!(r2.created, 0);
    assert_eq!(r2.updated, 0);
    assert!(failures.is_empty());
    assert_eq!(store2.get_all_links().len(), 1);
}

#[test]
fn import_updates_by_uuid_and_lists_failures() {
    let mut store = make_store_with_data();
    let uuid = store.rows()[0].uuid.clone();
    let other = store.rows()[1].uuid.clone();
    let doc = |uuid: &str, name: &str, body: &str, embedding: Option<Vec<u8>>, links: Vec<ExportedLink>| {
        ImportedMemory {
            uuid: uuid.to_string(),
            mnemonic: name.to_string(),
            tags: tags(&["t"]),
            links,
            content: body.to_string(),
            embedding,
        }
    };
    let link = |target: &str, kind: &str| ExportedLink {
        target: target.to_string(),
        link_type: kind.to_string(),
    };
    assert_eq!(
        store.import_memory(&doc(&uuid, "renamed", "new body", Some(emb(9)), vec![]), NOW + 1),
        Ok(ImportKind::Updated)
    );
    assert_eq!(store.rows()[0].mnemonic, "renamed");
    assert_eq!(store.rows()[0].content, "new body");
    assert_eq!(store.rows()[0].embedding, emb(9));
    assert_eq!(store.rows()[0].updated_at, NOW + 1);
    assert_eq!(store.rows()[0].uuid, uuid);

    let docs = vec![
        doc(&uuid, "renamed", "newer", None, vec![]),
        doc(&uuid, "api endpoints", "newer", Some(emb(1)), vec![]),
        doc("fresh", "api endpoints", "x", Some(emb(1)), vec![]),
        doc("fresh", "brand new", "x", Some(vec![1u8; 4]), vec![]),
        doc("fresh", "brand new", "x", Some(emb(1)), vec![link(&other, "likes")]),
        doc(&other, "api endpoints", "REST API at /api/v1", None, vec![
            link("nowhere", "related"),
            link(&other, "related"),
            link(&uuid, "related"),
        ]),
    ];
    let (result, failures) = store.import(&docs, NOW + 2);
    assert_eq!(result, ImportResult { created: 1, updated: 0, unchanged: 1 });
    assert_eq!(
        failures,
        vec![
            ImportFailure { index: 0, error: StoreError::EmbeddingRequired },
            ImportFailure { index: 1, error: StoreError::MnemonicTaken },
            ImportFailure { index: 2, error: StoreError::MnemonicTaken },
            ImportFailure { index: 3, error: StoreError::BadEmbedding },
            ImportFailure { index: 4, error: StoreError::UnknownLinkType },
            ImportFailure { index: 5, error: StoreError::SameMemory },
        ]
    );
    assert_eq!(store.len(), 3);
    assert_eq!(store.get_all_links().len(), 1);
    assert!(store.check());
}

#[test]
fn stored_text_is_read() {
    assert_eq!(tags_from_json("[\"a\",\"b c\"]"), vec!["a", "b c"]);
    assert!(tags_from_json("not json").is_empty());
    assert!(tags_from_json("{\"a\":1}").is_empty());
    assert_eq!(tags_to_json(&tags(&["a", "b \"c\""])), "[\"a\",\"b \\\"c\\\"\"]");
    assert_eq!(tags_from_json(&tags_to_json(&tags(&["x", "y"]))), vec!["x", "y"]);
    assert_eq!(parse_sqlite_datetime("1970-01-01 00:00:00"), 0);
    assert_eq!(parse_sqlite_datetime("2023-11-14 22:13:20"), 1_700_000_000);
    assert_eq!(parse_sqlite_datetime("yesterday"), 0);
}

fn stored(id: i64, name: &str) -> StoredRow {
    StoredRow {
        id,
        uuid: format!("uuid-{name}"),
        mnemonic: name.to_string(),
        content: format!("body {name}"),
        tags: "[\"t\"]".to_string(),
        embedding: emb(3),
        created_at: "2023-11-14 22:13:20".to_string(),
        updated_at: "2023-11-14 22:13:21".to_string(),
        recall_count: 2,
        last_recalled_at: Some("2023-11-14 22:13:22".to_string()),
        useful_count: 1,
        not_useful_count: 0,
    }
}

fn stored_link(source: i64, target: i64, kind: &str) -> StoredLink {
    StoredLink {
        source_id: source,
        target_id: target,
        link_type: kind.to_string(),
        created_at: "2023-11-14 22:13:20".to_string(),
    }
}

#[test]
fn a_store_opens_over_what_was_kept() {
    let mut store = MemoryStore::new(
        vec![stored(2, "a"), stored(5, "b")],
        vec![stored_link(5, 2, "supersedes")],
    )
    .unwrap();
    assert!(store.check());
    assert_eq!(store.len(), 2);
    assert_eq!(store.rows()[0].tags, vec!["t"]);
    assert_eq!(store.rows()[0].created_at, 1_700_000_000);
    assert_eq!(store.rows()[0].last_recalled_at, Some(1_700_000_002));
    assert_eq!(
        store.links(),
        &vec![Edge { source: 5, target: 2, kind: LinkType::Supersedes, created_at: 1_700_000_000 }]
    );
    assert_eq!(store.upsert("c", "c", &Vec::new(), &emb(1), NOW), Ok(6));
}

#[test]
fn what_is_no_store_does_not_open() {
    let corrupt = |rows: Vec<StoredRow>, links: Vec<StoredLink>| {
        matches!(MemoryStore::new(rows, links), Err(StoreError::Corrupt))
    };
    assert!(corrupt(vec![stored(2, "a"), stored(1, "b")], vec![]));
    assert!(corrupt(vec![stored(1, "a"), stored(2, "a")], vec![]));
    assert!(corrupt(vec![stored(0, "a")], vec![]));
    assert!(corrupt(vec![stored(i64::MAX, "a")], vec![]));
    let mut short = stored(1, "a");
    short.embedding = vec![0u8; 8];
    assert!(corrupt(vec![short], vec![]));
    let mut negative = stored(1, "a");
    negative.recall_count = -1;
    assert!(corrupt(vec![negative], vec![]));
    let mut twin = stored(2, "b");
    twin.uuid = "uuid-a".to_string();
    assert!(corrupt(vec![stored(1, "a"), twin], vec![]));
    assert!(corrupt(vec![stored(1, "a")], vec![stored_link(1, 1, "related")]));
    assert!(corrupt(vec![stored(1, "a")], vec![stored_link(1, 2, "related")]));
    assert!(corrupt(vec![stored(1, "a"), stored(2, "b")], vec![stored_link(1, 2, "likes")]));
    assert!(corrupt(
        vec![stored(1, "a"), stored(2, "b")],
        vec![stored_link(1, 2, "related"), stored_link(1, 2, "related")]
    ));
    assert!(MemoryStore::new(vec![], vec![]).is_ok());
}
