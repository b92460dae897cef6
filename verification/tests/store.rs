use chrono::TimeZone;
use custard::frontmatter_file::FrontmatterFile;
use custard::keeper::{FsEvent, Keeper};
use custard::time::Timestamp;
use custard::utf8_filepath::{Error, UTF8FilePath};

fn s(v: &str) -> String {
    v.to_string()
}

fn ts(h: u32) -> Timestamp {
    let micros = chrono::Utc
        .with_ymd_and_hms(2024, 1, 1, h, 0, 0)
        .unwrap()
        .timestamp_micros();
    Timestamp::from_micros(micros).unwrap()
}

fn path(p: &str) -> UTF8FilePath {
    UTF8FilePath::new(s(p)).unwrap()
}

fn doc(name: &str, h: u32) -> FrontmatterFile {
    FrontmatterFile {
        name: s(name),
        frontmatter: None,
        body: s(""),
        modified: ts(h),
        created: ts(h),
    }
}

fn names(keeper: &Keeper) -> Vec<String> {
    keeper.files().iter().map(|f| f.name().to_string()).collect()
}

#[test]
fn create_then_delete_leaves_path_absent() {
    let mut keeper = Keeper::empty();
    let p = path("/notes/test.md");
    keeper.process_create_event(&p, Some(doc("test.md", 5)));
    assert!(keeper.contains(&p));

    keeper.process_removal_event(&p);
    assert!(!keeper.contains(&p));
}

#[test]
fn delete_of_absent_path_is_a_no_op() {
    let mut keeper = Keeper::new(vec![(path("/a.md"), doc("a.md", 1))]);
    let absent = path("/b.md");
    keeper.process_removal_event(&absent);
    assert!(keeper.contains(&path("/a.md")));
    assert_eq!(names(&keeper), vec![s("a.md")]);
}

#[test]
fn edit_is_idempotent_for_unchanged_content() {
    let mut keeper = Keeper::new(vec![(path("/a.md"), doc("a.md", 1))]);
    let p = path("/a.md");
    let mut edited = doc("a.md", 1);
    edited.body = s("fresh text\n");

    keeper.process_edit_event(&p, Some(edited.clone()));
    let once = keeper.files();
    keeper.process_edit_event(&p, Some(edited));
    let twice = keeper.files();

    assert_eq!(once.len(), 1);
    assert_eq!(twice.len(), 1);
    assert_eq!(once[0].body(), "fresh text\n");
    assert_eq!(twice[0].body(), "fresh text\n");
    assert_eq!(once[0].name(), twice[0].name());
}

#[test]
fn edit_of_absent_path_is_a_no_op() {
    let mut keeper = Keeper::empty();
    let p = path("/a.md");
    keeper.process_edit_event(&p, Some(doc("a.md", 1)));
    assert!(!keeper.contains(&p));
}

#[test]
fn create_of_present_path_keeps_prior_document() {
    let mut keeper = Keeper::new(vec![(path("/a.md"), doc("a.md", 1))]);
    let p = path("/a.md");
    let mut conflicting = doc("a.md", 2);
    conflicting.body = s("late arrival");
    keeper.process_create_event(&p, Some(conflicting));
    let files = keeper.files();
    assert_eq!(files[0].body(), "");
}

#[test]
fn rename_of_absent_path_acts_as_create() {
    let p = path("/a.md");
    let loaded = doc("a.md", 1);

    let mut renamed = Keeper::empty();
    renamed.process_rename_event(&p, Some(loaded.clone()));

    let mut created = Keeper::empty();
    created.process_create_event(&p, Some(loaded));

    let rn = renamed.files();
    let cn = created.files();
    assert_eq!(rn.len(), 1);
    assert_eq!(cn.len(), 1);
    assert_eq!(rn[0].name(), cn[0].name());
    assert_eq!(rn[0].body(), cn[0].body());
    assert_eq!(rn[0].created().micros(), cn[0].created().micros());
}

#[test]
fn rename_of_present_path_removes_it() {
    let mut keeper = Keeper::new(vec![(path("/a.md"), doc("a.md", 1))]);
    let p = path("/a.md");
    keeper.process_rename_event(&p, None);
    assert!(!keeper.contains(&p));
}

#[test]
fn failed_load_leaves_store_unchanged() {
    let mut keeper = Keeper::new(vec![(path("/a.md"), doc("a.md", 1))]);
    keeper.process_edit_event(&path("/a.md"), None);
    keeper.process_create_event(&path("/b.md"), None);
    let files = keeper.files();
    assert_eq!(files.len(), 1);
    assert_eq!(files[0].body(), "");
}

#[test]
fn apply_event_dispatches_and_ignores_noise() {
    let mut keeper = Keeper::empty();
    let p = path("/a.md");
    keeper.apply_event(FsEvent::Ignored, &p, Some(doc("a.md", 1)));
    assert!(!keeper.contains(&p));
    keeper.apply_event(FsEvent::Unhandled, &p, Some(doc("a.md", 1)));
    assert!(!keeper.contains(&p));
    keeper.apply_event(FsEvent::Create, &p, Some(doc("a.md", 1)));
    assert!(keeper.contains(&p));
    keeper.apply_event(FsEvent::Delete, &p, None);
    assert!(!keeper.contains(&p));
}

#[test]
fn later_scan_entry_wins_a_repeated_path() {
    let mut second = doc("a.md", 2);
    second.body = s("second");
    let keeper = Keeper::new(vec![(path("/a.md"), doc("a.md", 1)), (path("/a.md"), second)]);
    let files = keeper.files();
    assert_eq!(files.len(), 1);
    assert_eq!(files[0].body(), "second");
}

#[test]
fn file_paths_split_name_and_extension() {
    let p = path("/notes/entry.md");
    assert_eq!(p.name(), "entry.md");
    assert_eq!(p.extension(), Some("md"));
    assert_eq!(p.as_str(), "/notes/entry.md");

    let bare = path("README");
    assert_eq!(bare.name(), "README");
    assert_eq!(bare.extension(), None);

    let hidden = path("/notes/.hidden");
    assert_eq!(hidden.name(), ".hidden");
    assert_eq!(hidden.extension(), None);

    let trailing_dot = path("/notes/odd.");
    assert_eq!(trailing_dot.extension(), Some(""));
}

#[test]
fn paths_without_a_file_name_are_rejected() {
    assert!(matches!(UTF8FilePath::new(s("")), Err(Error::NoFileName)));
    assert!(matches!(UTF8FilePath::new(s("/")), Err(Error::NoFileName)));
    assert!(matches!(UTF8FilePath::new(s("/notes/..")), Err(Error::NoFileName)));
    assert!(matches!(UTF8FilePath::new(s("..")), Err(Error::NoFileName)));
    assert!(matches!(UTF8FilePath::new(s(".")), Err(Error::NoFileName)));
    assert!(matches!(UTF8FilePath::new(s("./")), Err(Error::NoFileName)));
}

#[test]
fn trailing_separators_and_dot_segments_are_skipped() {
    assert_eq!(path("/notes/").name(), "notes");
    assert_eq!(path("/notes//").name(), "notes");
    assert_eq!(path("/notes/.").name(), "notes");
    assert_eq!(path("/notes/./").name(), "notes");
    assert_eq!(path("a/./b").name(), "b");
    assert_eq!(path("a/../b").name(), "b");
    assert_eq!(path("...").name(), "...");
}

#[test]
fn extension_filter_watches_markdown_only() {
    assert!(custard::fs::path_has_extensions(&path("/a/b.md"), &["md"]));
    assert!(!custard::fs::path_has_extensions(&path("/a/b.txt"), &["md"]));
    assert!(custard::fs::path_has_extensions(&path("/a/b.txt"), &["md", "txt"]));
    assert!(!custard::fs::path_has_extensions(&path("/a/README"), &["md"]));
}

#[test]
fn timestamps_keep_their_microseconds_and_range() {
    let t = Timestamp::from_micros(1_704_085_200_000_000).unwrap();
    assert_eq!(t.micros(), 1_704_085_200_000_000);
    assert!(Timestamp::from_micros(-1).is_none());
    assert!(Timestamp::from_micros(custard::time::MAX_TIMESTAMP_MICROS + 1).is_none());
    assert!(ts(5).le(&ts(6)));
    assert!(!ts(6).le(&ts(5)));
}

#[test]
fn timestamps_render_as_rfc3339() {
    let t = ts(5);
    assert_eq!(t.render(), "2024-01-01T05:00:00+00:00");
}
