use chrono::TimeZone;
use custard::frontmatter_file::{split_frontmatter, FrontmatterFile, Short};
use custard::time::Timestamp;
use custard::value::{Mapping, Value};

fn s(v: &str) -> String {
    v.to_string()
}

fn ts(h: u32) -> Timestamp {
    let micros = chrono::Utc
        .with_ymd_and_hms(2024, 1, 1, h, 0, 0)
        .unwrap()
        .timestamp_micros();
    Timestamp::from_micros(micros).unwrap()
}

fn doc(name: &str, body: &str, frontmatter: Option<Mapping>, h: u32) -> FrontmatterFile {
    FrontmatterFile {
        name: s(name),
        frontmatter,
        body: s(body),
        modified: ts(h),
        created: ts(h),
    }
}

#[test]
fn split_finds_a_frontmatter_block() {
    let r = split_frontmatter("---\ntitle: hi\n---\nbody text\n");
    let (fm, body) = r.unwrap();
    assert_eq!(fm, "title: hi\n");
    assert_eq!(body, "body text\n");
}

#[test]
fn split_without_opening_delimiter_is_all_body() {
    assert!(split_frontmatter("title: hi\n---\nbody\n").is_none());
    assert!(split_frontmatter("").is_none());
    assert!(split_frontmatter("--\nalmost\n").is_none());
}

#[test]
fn split_without_closing_delimiter_is_all_body() {
    assert!(split_frontmatter("---\ntitle: hi\nbody text\n").is_none());
    assert!(split_frontmatter("---\n").is_none());
}

#[test]
fn split_of_adjacent_delimiters_gives_empty_parts() {
    let (fm, body) = split_frontmatter("---\n---\n").unwrap();
    assert_eq!(fm, "");
    assert_eq!(body, "");
}

#[test]
fn split_takes_the_first_closing_delimiter() {
    let (fm, body) = split_frontmatter("---\na: 1\n---\nmiddle\n---\nrest").unwrap();
    assert_eq!(fm, "a: 1\n");
    assert_eq!(body, "middle\n---\nrest");
}

#[test]
fn one_liner_keeps_a_single_line_body() {
    let one = Short::from_file(&doc("a.md", "Just call me Mark!\n", None, 1));
    assert_eq!(one.one_liner().map(String::as_str), Some("Just call me Mark!"));

    let bare = Short::from_file(&doc("a.md", "no newline", None, 1));
    assert_eq!(bare.one_liner().map(String::as_str), Some("no newline"));

    let crlf = Short::from_file(&doc("a.md", "windows line\r\n", None, 1));
    assert_eq!(crlf.one_liner().map(String::as_str), Some("windows line"));

    let bare_cr = Short::from_file(&doc("a.md", "kept\r", None, 1));
    assert_eq!(bare_cr.one_liner().map(String::as_str), Some("kept\r"));
}

#[test]
fn one_liner_drops_empty_and_multi_line_bodies() {
    let empty = Short::from_file(&doc("a.md", "", None, 1));
    assert_eq!(empty.one_liner(), None);

    let multi = Short::from_file(&doc("a.md", "one\ntwo\n", None, 1));
    assert_eq!(multi.one_liner(), None);

    let lone_newline = Short::from_file(&doc("a.md", "\n", None, 1));
    assert_eq!(lone_newline.one_liner().map(String::as_str), Some(""));
}

#[test]
fn short_keeps_name_frontmatter_and_timestamps() {
    let mut fm = Mapping::empty();
    fm.insert(s("tag"), Value::Str(s("blue")));
    let file = doc("a.md", "body\nmore\n", Some(fm), 3);
    let short = Short::from_file(&file);
    assert_eq!(short.name, s("a.md"));
    assert_eq!(short.created.micros(), file.created.micros());
    assert_eq!(short.modified.micros(), file.modified.micros());
    let m = short.frontmatter.as_ref().unwrap();
    assert_eq!(m.len(), 1);
    assert!(matches!(m.get("tag"), Some(Value::Str(v)) if v == "blue"));
    assert!(m.get("missing").is_none());
}

#[test]
fn values_render_canonically() {
    assert_eq!(Value::Str(s("blue")).render(), "blue");
    assert_eq!(Value::Num(s("42")).render(), "42");
    assert_eq!(Value::Bool(true).render(), "true");
    assert_eq!(Value::Bool(false).render(), "false");
    assert_eq!(Value::Null.render(), "null");
    assert_eq!(
        Value::Sequence(vec![Value::Str(s("a")), Value::Num(s("2"))]).render(),
        "[a, 2]"
    );
    let mut m = Mapping::empty();
    m.insert(s("k"), Value::Str(s("v")));
    m.insert(s("n"), Value::Num(s("7")));
    assert_eq!(Value::Mapping(m).render(), "{k: v, n: 7}");
}

#[test]
fn sort_value_falls_back_to_created_rendering() {
    let mut fm = Mapping::empty();
    fm.insert(s("title"), Value::Str(s("zebra")));
    let with_key = custard::get_sort_value(Some(&fm), &ts(5), "title");
    assert_eq!(with_key, "zebra");

    let missing_key = custard::get_sort_value(Some(&fm), &ts(5), "created");
    assert_eq!(missing_key, "2024-01-01T05:00:00+00:00");

    let no_frontmatter = custard::get_sort_value(None, &ts(5), "title");
    assert_eq!(no_frontmatter, "2024-01-01T05:00:00+00:00");
}

#[test]
fn getters_hand_back_the_fields() {
    let file = doc("a.md", "hello", None, 2);
    assert_eq!(file.name(), "a.md");
    assert_eq!(file.body(), "hello");
    assert!(file.frontmatter().is_none());
    assert_eq!(file.created().micros(), ts(2).micros());
    assert_eq!(file.modified().micros(), ts(2).micros());
}
