use std::borrow::Cow;

use blog::frontmatter::{parse, parse_any, Value};


const KEYS: [&str; 7] = [
    "title",
    "subtitle",
    "description",
    "pubDate",
    "tags",
    "thread",
    "threadOrder",
];

fn get<'a>(front: &'a str, key: &str) -> Option<Value<'a>> {
    parse(front, &KEYS)
        .unwrap()
        .into_iter()
        .find(|(k, _)| *k == key)
        .map(|(_, v)| v)
}

fn scalar_of(front: &str, key: &str) -> Option<String> {
    match get(front, key) {
        Some(Value::Scalar(s)) => Some(s.into_owned()),
        _ => None,
    }
}

fn seq_of(front: &str, key: &str) -> Vec<String> {
    match get(front, key) {
        Some(Value::List(items)) => items.into_iter().map(Cow::into_owned).collect(),
        _ => Vec::new(),
    }
}

#[test]
fn escapes_in_double_quoted_scalars_are_decoded() {
    assert_eq!(
        scalar_of("title: \"He said \\\"hi\\\"\"\n", "title").as_deref(),
        Some(r#"He said "hi""#)
    );
    assert_eq!(
        scalar_of("title: \"a\\tb\\u00e9\"\n", "title").as_deref(),
        Some("a\tbé")
    );
}

#[test]
fn a_trailing_comment_is_not_part_of_the_value() {
    assert_eq!(
        scalar_of("title: Draft # todo\n", "title").as_deref(),
        Some("Draft")
    );
}

#[test]
fn a_hash_only_starts_a_comment_after_whitespace() {
    // §6.6: a `#` only opens a comment when it follows whitespace.
    assert_eq!(
        scalar_of("title: C# for beginners\n", "title").as_deref(),
        Some("C# for beginners")
    );
}

#[test]
fn a_blank_line_does_not_terminate_a_block_list() {
    assert_eq!(
        seq_of("tags:\n  - code\n\n  - math\n", "tags"),
        ["code", "math"]
    );
}

#[test]
fn a_comment_inside_a_block_list_is_skipped() {
    assert_eq!(
        seq_of("tags:\n  # main\n  - code\n  - math\n", "tags"),
        ["code", "math"]
    );
}

#[test]
fn a_block_list_may_be_followed_by_more_keys() {
    let front = "tags:\n  - code\nthread: t1\ntitle: X\n";
    assert_eq!(seq_of(front, "tags"), ["code"]);
    assert_eq!(scalar_of(front, "thread").as_deref(), Some("t1"));
    assert_eq!(scalar_of(front, "title").as_deref(), Some("X"));
}

#[test]
fn every_rejected_construct_names_its_line() {
    for (front, line, needle) in [
        ("title: X\ndescription: >\n  long\n", 2, "block scalar"),
        ("title: X\ndescription: |\n  long\n", 2, "block scalar"),
        ("title: X\nthread: {a: b}\n", 2, "flow mapping"),
        ("title: X\nthread: &anchor\n", 2, "anchors"),
        ("title: X\nthread: *alias\n", 2, "anchors"),
        ("title: X\nthread: !tag\n", 2, "tags are not supported"),
        ("title: X\n<<: base\n", 2, "merge key"),
        ("title: X\n---\n", 2, "document marker"),
        ("title: X\n%YAML 1.2\n", 2, "directive"),
        ("title: X\nog:\n  image: y\n", 3, "nested mapping"),
        ("title: X\ntitle: Y\n", 2, "duplicate key"),
        ("title: X\ntitel: Y\n", 2, "unknown key"),
        ("title: X\n\tthread: y\n", 2, "tab"),
        ("title: a: b\n", 1, "quote it"),
        ("title: \"unterminated\n", 1, "unterminated quoted string"),
        ("title: \"bad \\q\"\n", 1, "unknown escape"),
        ("tags: [a, b\n", 1, "unterminated flow sequence"),
        ("title:X\n", 1, "space after"),
        ("just some text\n", 1, "expected \"key: value\""),
        (
            "tags: one\n  - two\n",
            1,
            "both an inline value and a block list",
        ),
        ("  - orphan\n", 1, "before any key"),
    ] {
        let got = parse(front, &KEYS).unwrap_err();
        assert_eq!(got.line, line, "wrong line for {front:?}: {got:?}");
        assert!(
            got.msg.contains(needle),
            "expected {needle:?} in {:?} for {front:?}",
            got.msg
        );
    }
}

#[test]
fn indentation_width_does_not_matter() {
    assert_eq!(seq_of("tags:\n  - code\n", "tags"), ["code"]);
    assert_eq!(seq_of("tags:\n    - code\n", "tags"), ["code"]);
}

#[test]
fn both_list_forms_parse() {
    assert_eq!(
        seq_of("tags:\n  - code\n  - math\n", "tags"),
        ["code", "math"]
    );
    assert_eq!(
        seq_of("tags: [\"c++\", 'type theory']\n", "tags"),
        ["c++", "type theory"]
    );
    assert_eq!(seq_of("tags: [a, b,]\n", "tags"), ["a", "b"]);
    assert_eq!(seq_of("tags: []\n", "tags"), Vec::<String>::new());
}

#[test]
fn quoted_scalars_keep_characters_that_would_otherwise_be_syntax() {
    assert_eq!(
        scalar_of("title: \"Rust: a tour\"\n", "title").as_deref(),
        Some("Rust: a tour")
    );
    assert_eq!(
        scalar_of("title: 'it''s fine'\n", "title").as_deref(),
        Some("it's fine")
    );
    assert_eq!(
        scalar_of("title: \"trailing # hash\"\n", "title").as_deref(),
        Some("trailing # hash")
    );
}

#[test]
fn a_key_with_no_value_is_absent_rather_than_empty() {
    assert_eq!(scalar_of("title: X\nsubtitle:\n", "subtitle"), None);
    assert_eq!(seq_of("title: X\ntags:\n", "tags"), Vec::<String>::new());
}

#[test]
fn whole_line_comments_are_ignored() {
    let front = "title: X\npubDate: 2024-01-02\ntags:\n  - tag1\n# Optional frontmatter:\n# subtitle: A short italic subtitle\n# thread: some-thread-id\n";
    assert_eq!(scalar_of(front, "title").as_deref(), Some("X"));
    assert_eq!(seq_of(front, "tags"), ["tag1"]);
    assert_eq!(scalar_of(front, "subtitle"), None);
}

#[test]
fn plain_scalars_borrow_rather_than_allocate() {
    let front = "title: plain text\n";
    match parse(front, &KEYS).unwrap().pop().unwrap().1 {
        Value::Scalar(Cow::Borrowed(_)) => {}
        other => panic!("expected a borrow, got {other:?}"),
    }
}

#[test]
fn with_no_allowed_keys_every_key_is_unknown() {
    let e = parse("a: b", &[]).unwrap_err();
    assert_eq!(e.line, 1);
    assert!(e.msg.contains("unknown key"), "got: {}", e.msg);
    let v = parse_any("a: b\nc:").unwrap();
    assert_eq!(v.len(), 1);
    assert_eq!(v[0].0, "a");
}
