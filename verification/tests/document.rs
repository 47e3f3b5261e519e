use trivia_core::document::{parse_frontmatter, render_document, slug_of_lowercase, slugify};

#[test]
fn test_slugify() {
    assert_eq!(slugify("project design"), "project-design");
    assert_eq!(slugify("src/foo/bar.rs"), "src-foo-bar-rs");
    assert_eq!(slugify("Hello World!!"), "hello-world");
    assert_eq!(slugify("--leading--trailing--"), "leading-trailing");
}

#[test]
fn slug_of_lowercase_keeps_uppercase_letters() {
    assert_eq!(slug_of_lowercase("Hello World"), "Hello-World");
    assert_eq!(slug_of_lowercase(""), "");
    assert_eq!(slug_of_lowercase("---"), "");
}

#[test]
fn frontmatter_is_split_at_the_markers() {
    let raw = "---\nuuid: abc-123\nmnemonic: test\n---\n\nHello world";
    let (front, body) = parse_frontmatter(raw).unwrap();
    assert_eq!(front, "uuid: abc-123\nmnemonic: test\n");
    assert_eq!(body, "Hello world");
    assert!(parse_frontmatter("no frame").is_none());
    assert!(parse_frontmatter("---\nuuid: x\n").is_none());
}

#[test]
fn rendered_document_parses_back() {
    let file = render_document("uuid: u\n", "body text");
    assert_eq!(file, "---\nuuid: u\n---\n\nbody text");
    let (front, body) = parse_frontmatter(&file).unwrap();
    assert_eq!(front, "uuid: u\n");
    assert_eq!(body, "body text");
}
