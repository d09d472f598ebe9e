use fsearch::search::{
    get_icon_for_file, list_directory, search, search2, IconTable, ListOutcome, RawEntry,
    SearchOutcome, TreeEntry,
};
use fsearch::strcmp::contains_substr;

fn icons() -> IconTable {
    IconTable {
        entries: vec![
            ("txt".to_string(), "/icons/file.png".to_string()),
            ("jpg".to_string(), "/icons/file.png".to_string()),
            ("pdf".to_string(), "/icons/file.png".to_string()),
            ("dir".to_string(), "/icons/folder.png".to_string()),
        ],
        default_icon: "/icons/file.png".to_string(),
    }
}

fn file(name: &str, ext: &str, path: &str) -> TreeEntry {
    TreeEntry {
        info: RawEntry {
            name: name.to_string(),
            ext: ext.to_string(),
            path: path.to_string(),
            is_directory: false,
        },
        children: ListOutcome::Listed(Vec::new()),
    }
}

fn dir(name: &str, path: &str, children: ListOutcome) -> TreeEntry {
    TreeEntry {
        info: RawEntry {
            name: name.to_string(),
            ext: "dir".to_string(),
            path: path.to_string(),
            is_directory: true,
        },
        children,
    }
}

fn names(out: &SearchOutcome) -> Vec<String> {
    out.records.iter().map(|r| r.name.clone()).collect()
}

#[test]
fn substring_match_is_case_sensitive() {
    assert!(contains_substr("Banana", "ana"));
    assert!(!contains_substr("Banana", "apple"));
    assert!(!contains_substr("Banana", "bana"));
    assert!(contains_substr("anything", ""));
    assert!(contains_substr("", ""));
    assert!(!contains_substr("", "a"));
}

#[test]
fn search_filters_by_substring_and_sorts() {
    // The entries named like "apple" match; the directory does not.
    let root = ListOutcome::Listed(vec![
        file("apple", "txt", "/r/apple.txt"),
        dir("Banana", "/r/Banana", ListOutcome::Listed(Vec::new())),
        file("applesauce", "md", "/r/applesauce.md"),
    ]);
    let t = icons();
    let out = search("apple", "/r", &root, &t);
    assert_eq!(names(&out), vec!["apple", "applesauce"]);
    assert!(!out.records[0].is_directory);
    assert!(!out.records[1].is_directory);
    assert!(out.errors.is_empty());
}

#[test]
fn empty_substring_matches_every_entry() {
    let root = ListOutcome::Listed(vec![
        dir("zeta", "/r/zeta", ListOutcome::Listed(Vec::new())),
        dir("alpha", "/r/alpha", ListOutcome::Listed(Vec::new())),
        dir("mid", "/r/mid", ListOutcome::Listed(Vec::new())),
    ]);
    let t = icons();
    let out = search("", "/r", &root, &t);
    assert_eq!(names(&out), vec!["alpha", "mid", "zeta"]);
    assert!(out.records.iter().all(|r| r.is_directory));
    let out2 = search2("", "/r", &root, &t);
    assert_eq!(names(&out2), vec!["alpha", "mid", "zeta"]);
}

#[test]
fn empty_directory_yields_empty_result_without_error() {
    let root = ListOutcome::Listed(Vec::new());
    let t = icons();
    let out = search("x", "/r", &root, &t);
    assert!(out.records.is_empty());
    assert!(out.errors.is_empty());
    let out2 = search2("x", "/r", &root, &t);
    assert!(out2.records.is_empty());
    assert!(out2.errors.is_empty());
}

#[test]
fn failed_branch_keeps_siblings_and_reports_the_error() {
    let root = ListOutcome::Listed(vec![
        dir(
            "locked",
            "/r/locked",
            ListOutcome::Failed("permission denied".to_string()),
        ),
        file("lockfile", "txt", "/r/lockfile.txt"),
    ]);
    let t = icons();
    let out = search("lock", "/r", &root, &t);
    assert_eq!(names(&out), vec!["locked", "lockfile"]);
    assert_eq!(out.errors.len(), 1);
    assert_eq!(out.errors[0].path, "/r/locked");
    assert_eq!(out.errors[0].message, "permission denied");
    let out2 = search2("lock", "/r", &root, &t);
    assert_eq!(names(&out2), vec!["locked", "lockfile"]);
    assert_eq!(out2.errors.len(), 1);
    assert_eq!(out2.errors[0].path, "/r/locked");
}

#[test]
fn unreadable_root_is_a_typed_error() {
    let root = ListOutcome::Failed("no such directory".to_string());
    let t = icons();
    let out = search("a", "/missing", &root, &t);
    assert!(out.records.is_empty());
    assert_eq!(out.errors.len(), 1);
    assert_eq!(out.errors[0].path, "/missing");
    assert_eq!(out.errors[0].message, "no such directory");
}

#[test]
fn both_strategies_return_identical_results_on_nested_trees() {
    let sub_tree = ListOutcome::Listed(vec![
        file("notes", "txt", "/r/docs/notes.txt"),
        dir(
            "nested",
            "/r/docs/nested",
            ListOutcome::Listed(vec![file("notebook", "pdf", "/r/docs/nested/notebook.pdf")]),
        ),
    ]);
    let root = ListOutcome::Listed(vec![
        dir("docs", "/r/docs", sub_tree),
        file("notice", "txt", "/r/notice.txt"),
        file("unrelated", "txt", "/r/unrelated.txt"),
    ]);
    let t = icons();
    let a = search("not", "/r", &root, &t);
    let b = search2("not", "/r", &root, &t);
    assert_eq!(names(&a), vec!["notebook", "notes", "notice"]);
    assert_eq!(names(&a), names(&b));
    let paths_a: Vec<String> = a.records.iter().map(|r| r.path.clone()).collect();
    let paths_b: Vec<String> = b.records.iter().map(|r| r.path.clone()).collect();
    assert_eq!(paths_a, paths_b);
    assert_eq!(a.errors.len(), 0);
    assert_eq!(b.errors.len(), 0);
}

#[test]
fn search_recurses_into_matching_and_non_matching_directories() {
    // A directory whose own name does not match still contributes its
    // matching descendants.
    let root = ListOutcome::Listed(vec![dir(
        "misc",
        "/r/misc",
        ListOutcome::Listed(vec![file("target", "txt", "/r/misc/target.txt")]),
    )]);
    let t = icons();
    let out = search("target", "/r", &root, &t);
    assert_eq!(names(&out), vec!["target"]);
    assert_eq!(out.records[0].path, "/r/misc/target.txt");
}

#[test]
fn matching_directory_is_reported_and_still_recursed() {
    let root = ListOutcome::Listed(vec![dir(
        "music",
        "/r/music",
        ListOutcome::Listed(vec![file("musical", "txt", "/r/music/musical.txt")]),
    )]);
    let t = icons();
    let out = search("music", "/r", &root, &t);
    assert_eq!(names(&out), vec!["music", "musical"]);
    assert!(out.records[0].is_directory);
    assert!(!out.records[1].is_directory);
}

#[test]
fn icons_resolve_by_last_dot_segment_with_default() {
    let t = icons();
    assert_eq!(get_icon_for_file("report.txt", false, &t), "/icons/file.png");
    assert_eq!(get_icon_for_file("photo.jpg", false, &t), "/icons/file.png");
    assert_eq!(get_icon_for_file("archive.zip", false, &t), "/icons/file.png");
    assert_eq!(get_icon_for_file("whatever", true, &t), "/icons/folder.png");
    // A name without a dot looks itself up and falls back to the default.
    assert_eq!(get_icon_for_file("README", false, &t), "/icons/file.png");
}

#[test]
fn search_records_carry_icons_and_extensions() {
    let root = ListOutcome::Listed(vec![
        file("cover", "jpg", "/r/cover.jpg"),
        dir("art", "/r/art", ListOutcome::Listed(Vec::new())),
    ]);
    let t = icons();
    let out = search("", "/r", &root, &t);
    assert_eq!(names(&out), vec!["art", "cover"]);
    assert_eq!(out.records[0].icon, "/icons/folder.png");
    assert_eq!(out.records[0].ext, "dir");
    assert_eq!(out.records[1].ext, "jpg");
}

#[test]
fn list_directory_sorts_a_single_level() {
    let entries = vec![
        RawEntry {
            name: "zoo".to_string(),
            ext: "txt".to_string(),
            path: "/d/zoo.txt".to_string(),
            is_directory: false,
        },
        RawEntry {
            name: "attic".to_string(),
            ext: "dir".to_string(),
            path: "/d/attic".to_string(),
            is_directory: true,
        },
        RawEntry {
            name: "box".to_string(),
            ext: "pdf".to_string(),
            path: "/d/box.pdf".to_string(),
            is_directory: false,
        },
    ];
    let t = icons();
    let out = list_directory(&entries, &t);
    let got: Vec<String> = out.iter().map(|r| r.name.clone()).collect();
    assert_eq!(got, vec!["attic", "box", "zoo"]);
    assert!(out[0].is_directory);
}
