use chrono::TimeZone;
use custard::frontmatter_file::FrontmatterFile;
use custard::frontmatter_query::{FrontmatterQuery, QueryValue, Scalar};
use custard::keeper::Keeper;
use custard::time::Timestamp;
use custard::utf8_filepath::UTF8FilePath;
use custard::value::{Mapping, Value};
use custard::{collate, list, single};

fn s(v: &str) -> String {
    v.to_string()
}

fn ts(h: u32) -> Timestamp {
    let micros = chrono::Utc
        .with_ymd_and_hms(2024, 1, 1, h, 0, 0)
        .unwrap()
        .timestamp_micros();
    Timestamp::from_micros(micros).unwrap()
}

fn path(p: &str) -> UTF8FilePath {
    UTF8FilePath::new(s(p)).unwrap()
}

fn tag_blue() -> Mapping {
    let mut fm = Mapping::empty();
    fm.insert(s("tag"), Value::Str(s("blue")));
    fm
}

/// The store the single-document tests run against: something.md (created
/// 05:00, no frontmatter), about.md (09:00, tag: blue), blah.md (15:00,
/// tag: blue).
fn make_test_keeper() -> Keeper {
    Keeper::new(vec![
        (
            path("/something.md"),
            FrontmatterFile {
                name: s("something.md"),
                frontmatter: None,
                body: s(""),
                modified: ts(6),
                created: ts(5),
            },
        ),
        (
            path("/about.md"),
            FrontmatterFile {
                name: s("about.md"),
                frontmatter: Some(tag_blue()),
                body: s(""),
                modified: ts(11),
                created: ts(9),
            },
        ),
        (
            path("/blah.md"),
            FrontmatterFile {
                name: s("blah.md"),
                frontmatter: Some(tag_blue()),
                body: s(""),
                modified: ts(16),
                created: ts(15),
            },
        ),
    ])
}

fn blue_query() -> FrontmatterQuery {
    let mut q = FrontmatterQuery::new();
    q.insert(s("tag"), QueryValue::Scalar(Scalar::Str(s("blue"))));
    q
}

#[test]
fn single_get() {
    let keeper = make_test_keeper();

    let response = single::single(
        &keeper,
        single::Args {
            name: "something.md",
            query: None,
            intersect: false,
            sort_key: Some("created"),
            order_desc: true,
        },
    )
    .unwrap();
    assert_eq!(None, response.next_file_name.as_deref());
    assert_eq!(Some("about.md"), response.prev_file_name.as_deref());

    let response = single::single(
        &keeper,
        single::Args {
            name: "about.md",
            query: None,
            intersect: false,
            sort_key: Some("created"),
            order_desc: true,
        },
    )
    .unwrap();
    assert_eq!(Some("something.md"), response.next_file_name.as_deref());
    assert_eq!(Some("blah.md"), response.prev_file_name.as_deref());

    let response = single::single(
        &keeper,
        single::Args {
            name: "blah.md",
            query: None,
            intersect: false,
            sort_key: Some("created"),
            order_desc: true,
        },
    )
    .unwrap();
    assert_eq!(None, response.prev_file_name.as_deref());
    assert_eq!(Some("about.md"), response.next_file_name.as_deref());
}

#[test]
fn query() {
    let keeper = make_test_keeper();

    let response = single::single(
        &keeper,
        single::Args {
            name: "about.md",
            query: Some(blue_query()),
            intersect: false,
            sort_key: Some("created"),
            order_desc: true,
        },
    )
    .unwrap();
    assert_eq!(None, response.next_file_name.as_deref());
    assert_eq!(Some("blah.md"), response.prev_file_name.as_deref());

    let response = single::single(
        &keeper,
        single::Args {
            name: "blah.md",
            query: Some(blue_query()),
            intersect: false,
            sort_key: Some("created"),
            order_desc: true,
        },
    )
    .unwrap();
    assert_eq!(Some("about.md"), response.next_file_name.as_deref());
    assert_eq!(None, response.prev_file_name.as_deref());

    let response = single::single(
        &keeper,
        single::Args {
            name: "something.md",
            query: Some(blue_query()),
            intersect: false,
            sort_key: Some("created"),
            order_desc: true,
        },
    )
    .unwrap();
    assert_eq!(None, response.next_file_name.as_deref());
    assert_eq!(Some("about.md"), response.prev_file_name.as_deref());
}

#[test]
fn frontmatter_file_get() {
    // The HTTP route resolves a document and sets x-prev-file/x-next-file
    // from these neighbor names.
    let keeper = make_test_keeper();

    let r = single::get(&keeper, "something.md", Some("created"), true).unwrap();
    assert_eq!(Some("about.md"), r.prev_file_name.as_deref());
    assert_eq!(None, r.next_file_name.as_deref());

    let r = single::get(&keeper, "about.md", Some("created"), true).unwrap();
    assert_eq!(Some("blah.md"), r.prev_file_name.as_deref());
    assert_eq!(Some("something.md"), r.next_file_name.as_deref());

    let r = single::get(&keeper, "blah.md", Some("created"), true).unwrap();
    assert_eq!(None, r.prev_file_name.as_deref());
    assert_eq!(Some("about.md"), r.next_file_name.as_deref());
}

#[test]
fn frontmatter_file_post() {
    let keeper = make_test_keeper();

    let r = single::query(&keeper, "about.md", blue_query(), Some("created"), true, false)
        .unwrap();
    assert_eq!(Some("blah.md"), r.prev_file_name.as_deref());
    assert_eq!(None, r.next_file_name.as_deref());

    let r = single::query(&keeper, "blah.md", blue_query(), Some("created"), true, false)
        .unwrap();
    assert_eq!(None, r.prev_file_name.as_deref());
    assert_eq!(Some("about.md"), r.next_file_name.as_deref());

    let r = single::query(&keeper, "something.md", blue_query(), Some("created"), true, false)
        .unwrap();
    assert_eq!(Some("about.md"), r.prev_file_name.as_deref());
    assert_eq!(None, r.next_file_name.as_deref());
}

#[test]
fn single_miss_is_none() {
    let keeper = make_test_keeper();
    assert!(single::get(&keeper, "missing.md", None, false).is_none());
}

fn doc_with_tags(name: &str, h: u32, tags: Option<Vec<&str>>) -> FrontmatterFile {
    let frontmatter = tags.map(|tags| {
        let mut fm = Mapping::empty();
        fm.insert(
            s("tag"),
            Value::Sequence(tags.into_iter().map(|t| Value::Str(s(t))).collect()),
        );
        fm
    });
    FrontmatterFile {
        name: s(name),
        frontmatter,
        body: s(""),
        modified: ts(h),
        created: ts(h),
    }
}

/// Documents A (05:00, tag: [x]), B (09:00, no frontmatter) and
/// C (15:00, tag: [x, y]).
fn make_abc_keeper() -> Keeper {
    Keeper::new(vec![
        (path("/a.md"), doc_with_tags("a.md", 5, Some(vec!["x"]))),
        (path("/b.md"), doc_with_tags("b.md", 9, None)),
        (path("/c.md"), doc_with_tags("c.md", 15, Some(vec!["x", "y"]))),
    ])
}

fn listed_names(r: &list::Response) -> Vec<String> {
    r.files.iter().map(|f| f.name.clone()).collect()
}

#[test]
fn end_to_end_listing_and_collation() {
    let keeper = make_abc_keeper();

    let r = list::get(&keeper, list::Get::new(None, false, None, None));
    assert_eq!(listed_names(&r), vec![s("a.md"), s("b.md"), s("c.md")]);
    assert_eq!(r.total, 3);

    let r = list::get(&keeper, list::Get::new(None, true, None, None));
    assert_eq!(listed_names(&r), vec![s("c.md"), s("b.md"), s("a.md")]);

    let mut q = FrontmatterQuery::new();
    q.insert(
        s("tag"),
        QueryValue::Sequence(vec![Scalar::Str(s("x"))]),
    );
    let r = list::query(&keeper, list::Args::query(q, None, false, None, None, false));
    assert_eq!(listed_names(&r), vec![s("a.md"), s("c.md")], "b excluded: no frontmatter");
    assert_eq!(r.total, 2);

    let values = collate::get(&keeper, "tag");
    assert_eq!(values, vec![s("x"), s("y")]);
}

#[test]
fn list_pages_clip_to_bounds() {
    let keeper = make_abc_keeper();

    let r = list::get(&keeper, list::Get::new(None, false, Some(1), Some(1)));
    assert_eq!(listed_names(&r), vec![s("b.md")]);
    assert_eq!(r.total, 3, "total counts matches before pagination");

    let r = list::get(&keeper, list::Get::new(None, false, Some(3), None));
    assert_eq!(listed_names(&r), Vec::<String>::new(), "offset at the end is empty");

    let r = list::get(&keeper, list::Get::new(None, false, Some(7), Some(2)));
    assert_eq!(listed_names(&r), Vec::<String>::new(), "offset beyond the end is empty");

    let r = list::get(&keeper, list::Get::new(None, false, Some(1), Some(10)));
    assert_eq!(listed_names(&r), vec![s("b.md"), s("c.md")], "limit clips to the end");

    let r = list::get(&keeper, list::Get::new(None, false, None, Some(2)));
    assert_eq!(listed_names(&r), vec![s("a.md"), s("b.md")]);
}

#[test]
fn list_sorts_by_explicit_key_lexically() {
    let mut one = doc_with_tags("one.md", 5, None);
    let mut fm = Mapping::empty();
    fm.insert(s("rank"), Value::Str(s("10")));
    one.frontmatter = Some(fm);

    let mut two = doc_with_tags("two.md", 9, None);
    let mut fm = Mapping::empty();
    fm.insert(s("rank"), Value::Str(s("9")));
    two.frontmatter = Some(fm);

    let keeper = Keeper::new(vec![(path("/one.md"), one), (path("/two.md"), two)]);
    let r = list::get(&keeper, list::Get::new(Some("rank"), false, None, None));
    assert_eq!(
        listed_names(&r),
        vec![s("one.md"), s("two.md")],
        "lexical comparison puts the rendering 10 before 9"
    );
}

#[test]
fn list_query_without_predicate_lists_all() {
    let keeper = make_abc_keeper();
    let r = list::query(&keeper, list::Args::get(None, false, None, None));
    assert_eq!(r.total, 3);
    assert_eq!(listed_names(&r).len(), 3);
}

#[test]
fn collate_deduplicates_and_sorts() {
    let keeper = Keeper::new(vec![
        (path("/a.md"), doc_with_tags("a.md", 5, Some(vec!["zebra", "ant"]))),
        (path("/b.md"), doc_with_tags("b.md", 9, Some(vec!["ant", "bee"]))),
    ]);
    let values = collate::get(&keeper, "tag");
    assert_eq!(values, vec![s("ant"), s("bee"), s("zebra")]);
}

#[test]
fn collate_takes_string_scalars_and_drops_non_strings() {
    let mut fm = Mapping::empty();
    fm.insert(s("tag"), Value::Str(s("solo")));
    let scalar_doc = FrontmatterFile {
        name: s("a.md"),
        frontmatter: Some(fm),
        body: s(""),
        modified: ts(5),
        created: ts(5),
    };

    let mut fm = Mapping::empty();
    fm.insert(
        s("tag"),
        Value::Sequence(vec![Value::Str(s("kept")), Value::Num(s("7")), Value::Null]),
    );
    let mixed_doc = FrontmatterFile {
        name: s("b.md"),
        frontmatter: Some(fm),
        body: s(""),
        modified: ts(9),
        created: ts(9),
    };

    let mut fm = Mapping::empty();
    fm.insert(s("tag"), Value::Num(s("3")));
    let non_string_doc = FrontmatterFile {
        name: s("c.md"),
        frontmatter: Some(fm),
        body: s(""),
        modified: ts(10),
        created: ts(10),
    };

    let keeper = Keeper::new(vec![
        (path("/a.md"), scalar_doc),
        (path("/b.md"), mixed_doc),
        (path("/c.md"), non_string_doc),
    ]);
    let values = collate::get(&keeper, "tag");
    assert_eq!(values, vec![s("kept"), s("solo")]);
}

#[test]
fn collate_with_query_prefilters() {
    let keeper = make_abc_keeper();
    let mut q = FrontmatterQuery::new();
    q.insert(
        s("tag"),
        QueryValue::Sequence(vec![Scalar::Str(s("y"))]),
    );
    let values = collate::query(&keeper, "tag", q, false);
    assert_eq!(values, vec![s("x"), s("y")], "only c.md matches, carrying x and y");
}
