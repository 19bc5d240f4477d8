use cluster_notes::codec::{decode, encode, split_frontmatter, DecodeError, NoteMeta};
use cluster_notes::naming::{file_location, next_id, parse_digits, rsplit_dash_exec, slugify};

fn meta(id: &str, title: &str, tags: &[&str], created: &str, updated: &str) -> NoteMeta {
    NoteMeta {
        id: id.to_string(),
        title: title.to_string(),
        tags: tags.iter().map(|t| t.to_string()).collect(),
        created_at: created.to_string(),
        updated_at: updated.to_string(),
    }
}

#[test]
fn encode_produces_canonical_text() {
    let m = meta(
        "2024-01-15-001",
        "Alpha",
        &["a", "b"],
        "2024-01-15T10:00:00+00:00",
        "2024-01-15T11:00:00+00:00",
    );
    let text = encode(&m, "Body line");
    assert_eq!(
        text,
        "---\nid: 2024-01-15-001\ntitle: Alpha\ntags:\n- a\n- b\ncreated_at: 2024-01-15T10:00:00+00:00\nupdated_at: 2024-01-15T11:00:00+00:00\n---\n\nBody line\n"
    );
}

#[test]
fn decode_restores_encoded_note() {
    let m = meta("id-1", "A Title", &["x"], "2024-01-01T00:00:00+00:00", "2024-01-02T00:00:00+00:00");
    let text = encode(&m, "Hello\n\nWorld");
    let (m2, body) = decode(&text).expect("decode failed");
    assert_eq!(m2.id, m.id);
    assert_eq!(m2.title, m.title);
    assert_eq!(m2.tags, m.tags);
    assert_eq!(m2.created_at, m.created_at);
    assert_eq!(m2.updated_at, m.updated_at);
    // The body round-trips up to the codec's whitespace rule: leading
    // whitespace goes, the trailing newline that encode appends stays.
    assert_eq!(body, "Hello\n\nWorld\n");
}

#[test]
fn decode_strips_leading_body_whitespace() {
    let m = meta("i", "T", &[], "c", "u");
    let text = encode(&m, "   \n  indented");
    let (_, body) = decode(&text).expect("decode failed");
    assert_eq!(body, "indented\n");
}

#[test]
fn decode_accepts_delimiter_at_end_of_text() {
    let text = "---\nid: i\ntitle: T\ntags:\ncreated_at: c\nupdated_at: u\n---";
    let (m, body) = decode(text).expect("decode failed");
    assert_eq!(m.title, "T");
    assert!(m.tags.is_empty());
    assert_eq!(body, "");
}

#[test]
fn decode_missing_block_start() {
    assert!(matches!(decode("id: x\n"), Err(DecodeError::MissingBlockStart)));
    assert!(matches!(decode("---"), Err(DecodeError::MissingBlockStart)));
}

#[test]
fn decode_missing_block_end() {
    assert!(matches!(decode("---\nid: x\n"), Err(DecodeError::MissingBlockEnd)));
}

#[test]
fn decode_metadata_parse_error() {
    assert!(matches!(
        decode("---\nnot a field\n---\n\nbody\n"),
        Err(DecodeError::MetadataParseError)
    ));
    assert!(matches!(
        decode("---\nid: x\ntitle: y\n---\n\nbody\n"),
        Err(DecodeError::MetadataParseError)
    ));
}

#[test]
fn split_frontmatter_separates_block_and_body() {
    let (block, body) = split_frontmatter("---\nid: x\ntitle: y\n---\n\nhello\n").expect("split");
    assert_eq!(block, "id: x\ntitle: y");
    assert_eq!(body, "hello\n");
}

#[test]
fn slugify_basic() {
    assert_eq!(slugify("Hello, World!"), "hello-world");
    assert_eq!(slugify("  Spaces   and---dashes "), "spaces-and-dashes");
}

#[test]
fn slugify_fallback_token() {
    assert_eq!(slugify(""), "note");
    assert_eq!(slugify("!!! ??? ..."), "note");
}

#[test]
fn slug_determinism_across_separators() {
    assert_eq!(slugify("Hello, World!"), slugify("hello world"));
    assert_eq!(slugify("a.b.c"), slugify("a b c"));
}

#[test]
fn next_id_takes_successor_of_max() {
    let ids = vec![
        "2024-01-15-001".to_string(),
        "2024-01-15-007".to_string(),
        "2024-01-14-002".to_string(),
    ];
    assert_eq!(next_id(&ids, "2024-01-15"), "2024-01-15-008");
}

#[test]
fn next_id_starts_at_one() {
    let ids: Vec<String> = Vec::new();
    assert_eq!(next_id(&ids, "2024-01-15"), "2024-01-15-001");
}

#[test]
fn next_id_never_collides_and_grows() {
    let mut ids = vec!["2024-01-15-002".to_string(), "garbage".to_string()];
    let a = next_id(&ids, "2024-01-15");
    assert!(!ids.contains(&a));
    ids.push(a.clone());
    let b = next_id(&ids, "2024-01-15");
    assert!(!ids.contains(&b));
    assert_eq!(a, "2024-01-15-003");
    assert_eq!(b, "2024-01-15-004");
}

#[test]
fn next_id_ignores_other_dates_and_bad_suffixes() {
    let ids = vec![
        "2024-01-16-900".to_string(),
        "2024-01-15-xyz".to_string(),
        "2024-01-15-0999999999999999".to_string(),
    ];
    assert_eq!(next_id(&ids, "2024-01-15"), "2024-01-15-001");
}

#[test]
fn parse_digits_range() {
    assert_eq!(parse_digits("007"), Some(7));
    assert_eq!(parse_digits("2147483647"), Some(2147483647));
    assert_eq!(parse_digits("2147483648"), None);
    assert_eq!(parse_digits(""), None);
    assert_eq!(parse_digits("12a"), None);
}

#[test]
fn rsplit_takes_last_dash() {
    let (pre, suf) = rsplit_dash_exec("2024-01-15-008").expect("split");
    assert_eq!(pre, "2024-01-15");
    assert_eq!(suf, "008");
    assert_eq!(rsplit_dash_exec("nodash"), None);
}

#[test]
fn file_location_scheme() {
    assert_eq!(file_location("2024-01-15", "hello"), "notes/2024-01-15-hello.md");
}
