use meilisearch_cli::{DocError, Document, LegacyDocument, ScalarOrList, SerializationType};
use meilisearch_cli::document::string_or_list_string;

fn sample_doc() -> Document {
    let mut d = Document::new();
    d.title = String::from("Hello");
    d.tags = vec![String::from("foo")];
    d.filename = String::from("f.md");
    d.id = String::from("abc");
    d.parentid = String::from("abc");
    d.body = String::from("Body text");
    d
}

#[test]
fn new_document_is_empty() {
    let d = Document::new();
    assert_eq!(d.id, "");
    assert_eq!(d.parentid, "");
    assert_eq!(d.title, "");
    assert_eq!(d.tags, Vec::<String>::new());
    assert_eq!(d.date, 0);
    assert_eq!(d.weight, 0);
    assert_eq!(d.writes, 0);
    assert_eq!(d.views, 0);
    assert_eq!(d.serialization_type, SerializationType::Storage);
}

#[test]
fn storage_render_exact() {
    let d = sample_doc();
    assert_eq!(
        d.render(),
        "---\ntitle: Hello\ndate: 0\ntags:\n  - foo\nfilename: f.md\nauthors: []\nid: abc\nparentid: abc\nweight: 0\nwrites: 0\n---\nBody text"
    );
}

#[test]
fn disk_render_omits_filename_and_body() {
    let mut d = sample_doc();
    d.serialization_type = SerializationType::Disk;
    let out = d.render();
    assert_eq!(
        out,
        "---\ntitle: Hello\ndate: 1970-01-01T00:00:00Z\ntags:\n  - foo\nauthors: []\nid: abc\nparentid: abc\nweight: 0\nwrites: 0\n"
    );
    assert!(!out.contains("filename"));
    assert!(!out.contains("Body text"));
}

#[test]
fn human_render_is_body_exactly() {
    let mut d = sample_doc();
    d.serialization_type = SerializationType::Human;
    assert_eq!(d.render(), "Body text");
}

#[test]
fn scenario_parse_without_id() {
    // A note without an `id` field gains a fresh identity pair.
    let d = Document::parse_str("title: Hello\ntags: foo\n---\nBody text").unwrap();
    assert_eq!(d.tags, vec![String::from("foo")]);
    assert!(!d.id.is_empty());
    assert_eq!(d.id, d.parentid);
    let mut d = d;
    d.serialization_type = SerializationType::Human;
    assert_eq!(d.render(), "Body text");
}

#[test]
fn scenario_legacy_conversion() {
    let legacy = LegacyDocument {
        author: String::from("Alice"),
        date: String::from("2021-01-02"),
        tags: vec![String::from("a"), String::from("b")],
        title: String::from("T"),
        subtitle: String::new(),
        body: String::from("B"),
        filename: String::from("l.md"),
    };
    let d = Document::convert_legacy(legacy).unwrap();
    assert_eq!(d.authors, vec![String::from("Alice")]);
    assert_eq!(d.writes, 1);
    assert!(!d.id.is_empty());
    assert_eq!(d.id, d.parentid);
    assert_eq!(d.date, 1609545600);
    assert_eq!(d.tags, vec![String::from("a"), String::from("b")]);
    assert_eq!(d.title, "T");
    assert_eq!(d.body, "B");
    assert_eq!(d.filename, "l.md");
}

#[test]
fn legacy_conversion_bad_date() {
    let legacy = LegacyDocument {
        author: String::from("Alice"),
        date: String::from("not a date"),
        tags: vec![],
        title: String::from("T"),
        subtitle: String::new(),
        body: String::new(),
        filename: String::new(),
    };
    assert_eq!(Document::convert_legacy(legacy).unwrap_err(), DocError::DateParse);
}

#[test]
fn scenario_subtitle_presence() {
    let mut d = sample_doc();
    assert!(!d.render().contains("subtitle"));
    d.serialization_type = SerializationType::Disk;
    assert!(!d.render().contains("subtitle"));
    d.subtitle = String::from("Sub");
    assert!(d.render().contains("subtitle: Sub"));
    d.serialization_type = SerializationType::Storage;
    assert!(d.render().contains("subtitle: Sub"));
}

#[test]
fn storage_roundtrip_all_fields() {
    let mut d = sample_doc();
    d.subtitle = String::from("Sub");
    d.authors = vec![String::from("A"), String::from("B")];
    d.date = 1609545600;
    d.background_img = String::from("bg.png");
    d.links = vec![String::from("one"), String::from("two")];
    d.slug = String::from("hello");
    d.weight = -42;
    d.writes = 7;
    let text = d.render();
    let back = Document::parse_with_id(&text, "unused").unwrap();
    assert_eq!(back, d);
}

#[test]
fn roundtrip_keeps_existing_identity() {
    let d = sample_doc();
    let back = Document::parse_with_id(&d.render(), "fresh-token").unwrap();
    assert_eq!(back.id, "abc");
    assert_eq!(back.parentid, "abc");
}

#[test]
fn distinct_parses_get_distinct_ids() {
    let text = "title: Hello\n---\n";
    let a = Document::parse_str(text).unwrap();
    let b = Document::parse_str(text).unwrap();
    assert!(!a.id.is_empty());
    assert!(!b.id.is_empty());
    assert_ne!(a.id, b.id);
}

#[test]
fn tag_normalization_scalar_and_list() {
    let one = string_or_list_string(ScalarOrList::Scalar(String::from("x")));
    assert_eq!(one, vec![String::from("x")]);
    let list = vec![String::from("a"), String::from("b")];
    let same = string_or_list_string(ScalarOrList::List(list.clone()));
    assert_eq!(same, list);
}

#[test]
fn parse_tag_alias_and_author_alias() {
    let d = Document::parse_str("title: T\ntag: solo\nauthor: Ann\n---\n").unwrap();
    assert_eq!(d.tags, vec![String::from("solo")]);
    assert_eq!(d.authors, vec![String::from("Ann")]);
}

#[test]
fn parse_block_lists() {
    let d = Document::parse_str("title: T\ntags:\n  - a\n  - b\nauthors:\n  - X\n---\nB").unwrap();
    assert_eq!(d.tags, vec![String::from("a"), String::from("b")]);
    assert_eq!(d.authors, vec![String::from("X")]);
    assert_eq!(d.body, "B");
}

#[test]
fn parse_error_no_delimiter() {
    assert_eq!(Document::parse_str("title: T\nno delimiter here").unwrap_err(), DocError::Parse);
}

#[test]
fn parse_error_missing_title() {
    assert_eq!(Document::parse_str("slug: x\n---\nbody").unwrap_err(), DocError::Parse);
}

#[test]
fn parse_error_bad_date() {
    assert_eq!(
        Document::parse_str("title: T\ndate: yesterday\n---\n").unwrap_err(),
        DocError::DateParse
    );
}

#[test]
fn parse_error_tag_shape() {
    assert_eq!(
        Document::parse_str("title: T\ntags:\n  x: y\n---\n").unwrap_err(),
        DocError::TagFormat
    );
}

#[test]
fn assign_identity_only_when_empty() {
    let mut d = Document::new();
    d.assign_identity("tok");
    assert_eq!(d.id, "tok");
    assert_eq!(d.parentid, "tok");
    d.assign_identity("other");
    assert_eq!(d.id, "tok");
    assert_eq!(d.parentid, "tok");
}

#[test]
fn leading_delimiter_is_accepted() {
    let d = Document::parse_str("---\ntitle: T\n---\nbody here").unwrap();
    assert_eq!(d.title, "T");
    assert_eq!(d.body, "body here");
}

#[test]
fn parse_with_id_uses_given_token() {
    let d = Document::parse_with_id("title: T\n---\n", "tok123").unwrap();
    assert_eq!(d.id, "tok123");
    assert_eq!(d.parentid, "tok123");
}

#[test]
fn blank_metadata_lines_are_skipped() {
    let d = Document::parse_str("title: T\n\ntags:\n  - a\n\nslug: s\n---\nB").unwrap();
    assert_eq!(d.title, "T");
    assert_eq!(d.tags, vec![String::from("a")]);
    assert_eq!(d.slug, "s");
}

#[test]
fn unknown_keys_are_ignored() {
    let d = Document::parse_str("title: T\ncolor: blue\nshape:\n  - round\n---\nB").unwrap();
    assert_eq!(d.title, "T");
    assert_eq!(d.body, "B");
}

#[test]
fn malformed_lines_are_parse_errors() {
    assert_eq!(Document::parse_str("title:x\n---\n").unwrap_err(), DocError::Parse);
    assert_eq!(Document::parse_str("no colon at all\n---\n").unwrap_err(), DocError::Parse);
    assert_eq!(Document::parse_str("title: T\nlinks: scalar\n---\n").unwrap_err(), DocError::Parse);
    assert_eq!(Document::parse_str("title: T\nweight: abc\n---\n").unwrap_err(), DocError::Parse);
    assert_eq!(Document::parse_str("title: T\nwrites: 70000\n---\n").unwrap_err(), DocError::Parse);
    assert_eq!(Document::parse_str("title: T\n  - stray item\n---\n").unwrap_err(), DocError::Parse);
}

#[test]
fn flow_empty_lists_parse_and_render() {
    let d = Document::parse_str("title: T\ntags: []\nauthors: []\nlinks: []\n---\n").unwrap();
    assert_eq!(d.tags, Vec::<String>::new());
    assert_eq!(d.authors, Vec::<String>::new());
    assert_eq!(d.links, Vec::<String>::new());
}

#[test]
fn negative_weight_roundtrip() {
    let mut d = sample_doc();
    d.weight = -2147483648;
    let back = Document::parse_with_id(&d.render(), "unused").unwrap();
    assert_eq!(back.weight, -2147483648);
}

#[test]
fn empty_body_after_delimiter() {
    let d = Document::parse_str("title: T\n---\n").unwrap();
    assert_eq!(d.body, "");
    let d2 = Document::parse_str("title: T\n---").unwrap();
    assert_eq!(d2.body, "");
}
