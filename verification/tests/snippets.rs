use snippyrs::FileLines;
use snippyrs::FsEntry;
use snippyrs::Snippet;
use snippyrs::SnippetError;
use snippyrs::SnippetFolder;

fn s(text: &str) -> String {
    text.to_string()
}

fn lines(texts: &[&str]) -> Vec<String> {
    texts.iter().map(|t| t.to_string()).collect()
}

fn file(path: &str) -> FsEntry {
    FsEntry::File { path: s(path) }
}

fn dir(path: &str, entries: Vec<FsEntry>) -> FsEntry {
    FsEntry::Folder { path: s(path), entries }
}

/// The listing of the test tree, in a deliberately scrambled order.
fn test_tree() -> Vec<FsEntry> {
    vec![
        file("test_data/2.snip"),
        dir(
            "test_data/sub2",
            vec![
                file("test_data/sub2/2.3.snip"),
                file("test_data/sub2/2.1.snip"),
                file("test_data/sub2/2.2.snip"),
            ],
        ),
        file("test_data/1.snip"),
        dir(
            "test_data/sub3",
            vec![
                file("test_data/sub3/3.2.snip"),
                file("test_data/sub3/3.1.snip"),
            ],
        ),
        file("test_data/3.snip"),
        dir(
            "test_data/sub1",
            vec![
                file("test_data/sub1/1.3.snip"),
                dir(
                    "test_data/sub1/sub11",
                    vec![file("test_data/sub1/sub11/1.1.1.snip")],
                ),
                file("test_data/sub1/1.1.snip"),
                file("test_data/sub1/1.2.snip"),
            ],
        ),
    ]
}

/// One readable file per snippet of the test tree.
fn test_files() -> Vec<FileLines> {
    let mut files = vec![FileLines {
        path: s("test_data/1.snip"),
        lines: lines(&["mytitle", "a;b;c;d", "contents", "contents", "contents"]),
    }];
    files.push(FileLines {
        path: s("test_data/sub1/1.1.snip"),
        lines: lines(&[
            "mytitle11",
            "a;b;c;d",
            "contents11",
            "contents11",
            "contents11",
        ]),
    });
    for path in [
        "test_data/2.snip",
        "test_data/3.snip",
        "test_data/sub1/1.2.snip",
        "test_data/sub1/1.3.snip",
        "test_data/sub1/sub11/1.1.1.snip",
        "test_data/sub2/2.1.snip",
        "test_data/sub2/2.2.snip",
        "test_data/sub2/2.3.snip",
        "test_data/sub3/3.1.snip",
        "test_data/sub3/3.2.snip",
    ] {
        files.push(FileLines {
            path: s(path),
            lines: lines(&["title", "tag", "body"]),
        });
    }
    files
}

#[test]
fn tst_read_snippet() {
    let filename = "test_data/1.snip";
    let mut snippet = Snippet::new(filename);

    assert_eq!(filename, snippet.absolute_path);
    assert!(!snippet.is_valid());

    snippet.load_from_lines(&lines(&[
        "mytitle",
        "a;b;c;d",
        "contents",
        "contents",
        "contents",
    ]));
    assert!(snippet.is_valid());

    assert_eq!(snippet.title, "mytitle");
    assert_eq!(snippet.tags, ["a", "b", "c", "d"]);
    assert_eq!(snippet.contents, "contents\ncontents\ncontents");
}

#[test]
fn tst_list_snippets() {
    let mut root = SnippetFolder::new("test_data");
    assert_eq!(root.root_path, "test_data");
    root.load_names(&test_tree());
    assert_eq!(root.snippets.len(), 3);
    assert_eq!(root.sub_folders.len(), 3);
    let names = root.list_names_recursive();
    for name in &names {
        println!("{}", name);
    }

    let expected_names = vec![
        "test_data/1.snip",
        "test_data/2.snip",
        "test_data/3.snip",
        "test_data/sub1/1.1.snip",
        "test_data/sub1/1.2.snip",
        "test_data/sub1/1.3.snip",
        "test_data/sub1/sub11/1.1.1.snip",
        "test_data/sub2/2.1.snip",
        "test_data/sub2/2.2.snip",
        "test_data/sub2/2.3.snip",
        "test_data/sub3/3.1.snip",
        "test_data/sub3/3.2.snip",
    ];

    assert_eq!(names, expected_names);
    assert_eq!(root.snippet_count_recursive(), 12);
}

#[test]
fn tst_load_snippets() {
    let mut root = SnippetFolder::new("test_data");
    root.load_names(&test_tree());
    root.load_snippets(&test_files()).unwrap();

    let first = &root.snippets[0];
    assert_eq!(first.filename().unwrap(), "1.snip");
    assert_eq!(first.title, "mytitle");
    assert_eq!(first.tags, ["a", "b", "c", "d"]);
    assert_eq!(first.contents, "contents\ncontents\ncontents");

    let first_sub = &root.sub_folders[0].snippets[0];
    assert_eq!(first_sub.filename().unwrap(), "1.1.snip");
    assert_eq!(first_sub.title, "mytitle11");
    assert_eq!(first_sub.tags, ["a", "b", "c", "d"]);
    assert_eq!(first_sub.contents, "contents11\ncontents11\ncontents11");
}

#[test]
fn new_snippet_is_empty_and_invalid() {
    let snippet = Snippet::new("somewhere/x.snip");
    assert!(!snippet.is_valid());
    assert_eq!(snippet.title, "");
    assert!(snippet.tags.is_empty());
    assert_eq!(snippet.contents, "");
    assert_eq!(snippet.absolute_path, "somewhere/x.snip");
}

#[test]
fn round_trip_full_file() {
    // the file "mytitle\na;b;c;d\nx\ny\nz"
    let mut snippet = Snippet::new("r.snip");
    snippet.load_from_lines(&lines(&["mytitle", "a;b;c;d", "x", "y", "z"]));
    assert_eq!(snippet.title, "mytitle");
    assert_eq!(snippet.tags, ["a", "b", "c", "d"]);
    assert_eq!(snippet.contents, "x\ny\nz");
    assert!(snippet.is_valid());
}

#[test]
fn single_line_file_is_invalid() {
    let mut snippet = Snippet::new("one.snip");
    snippet.load_from_lines(&lines(&["just a title"]));
    assert_eq!(snippet.title, "just a title");
    assert!(snippet.tags.is_empty());
    assert_eq!(snippet.contents, "");
    assert!(!snippet.is_valid());
}

#[test]
fn two_line_file_is_invalid() {
    let mut snippet = Snippet::new("two.snip");
    snippet.load_from_lines(&lines(&["title", "a;b"]));
    assert_eq!(snippet.title, "title");
    assert_eq!(snippet.tags, ["a", "b"]);
    assert_eq!(snippet.contents, "");
    assert!(!snippet.is_valid());
}

#[test]
fn empty_tag_fragments_are_dropped() {
    let mut snippet = Snippet::new("t.snip");
    snippet.load_from_lines(&lines(&["title", ";;a;;b;", "body"]));
    assert_eq!(snippet.tags, ["a", "b"]);
    assert_eq!(snippet.contents, "body");
    let mut no_tags = Snippet::new("u.snip");
    no_tags.load_from_lines(&lines(&["title", "", "body"]));
    assert!(no_tags.tags.is_empty());
    assert!(no_tags.is_valid());
}

#[test]
fn empty_file_stays_empty() {
    let mut snippet = Snippet::new("v.snip");
    snippet.load_from_lines(&lines(&[]));
    assert_eq!(snippet.title, "");
    assert!(snippet.tags.is_empty());
    assert_eq!(snippet.contents, "");
    assert!(!snippet.is_valid());
}

#[test]
fn filename_takes_last_component() {
    let snippet = Snippet::new("a/b/c.snip");
    assert_eq!(snippet.filename().unwrap(), "c.snip");
    let bare = Snippet::new("c.snip");
    assert_eq!(bare.filename().unwrap(), "c.snip");
    // as Path::file_name has it: a trailing slash or `.` is ignored,
    // and a path ending in `..`, or without components, has no file name
    let trailing = Snippet::new("a/b/");
    assert_eq!(trailing.filename().unwrap(), "b");
    let dir_itself = Snippet::new("a/b/.");
    assert_eq!(dir_itself.filename().unwrap(), "b");
    let parent = Snippet::new("a/..");
    assert_eq!(parent.filename(), Err(SnippetError::InvalidPath));
    let here = Snippet::new(".");
    assert_eq!(here.filename(), Err(SnippetError::InvalidPath));
    let root = Snippet::new("/");
    assert_eq!(root.filename(), Err(SnippetError::InvalidPath));
    let empty = Snippet::new("");
    assert_eq!(empty.filename(), Err(SnippetError::InvalidPath));
}

#[test]
fn non_snip_files_are_excluded() {
    let mut root = SnippetFolder::new("d");
    root.load_names(&vec![
        file("d/b.txt"),
        file("d/a.snip"),
        file("d/noext"),
        file("d/.snip"),
        file("d/c.SNIP"),
        file("d/snip"),
        dir("d/sub", vec![file("d/sub/notes.md"), file("d/sub/x.snip")]),
    ]);
    assert_eq!(root.snippets.len(), 1);
    assert_eq!(root.snippets[0].absolute_path, "d/a.snip");
    let names = root.list_names_recursive();
    assert_eq!(names, vec!["d/a.snip", "d/sub/x.snip"]);
}

#[test]
fn count_matches_list_length() {
    let mut root = SnippetFolder::new("test_data");
    root.load_names(&test_tree());
    assert_eq!(
        root.snippet_count_recursive(),
        root.list_names_recursive().len()
    );
    let empty = SnippetFolder::new("nowhere");
    assert_eq!(empty.snippet_count_recursive(), 0);
    assert_eq!(empty.snippet_count_recursive(), empty.list_names_recursive().len());
}

#[test]
fn discovery_is_idempotent() {
    let mut once = SnippetFolder::new("test_data");
    once.load_names(&test_tree());
    let mut twice = SnippetFolder::new("test_data");
    twice.load_names(&test_tree());
    twice.load_names(&test_tree());
    assert_eq!(once.snippets.len(), twice.snippets.len());
    assert_eq!(once.sub_folders.len(), twice.sub_folders.len());
    assert_eq!(once.snippet_count_recursive(), twice.snippet_count_recursive());
    assert_eq!(once.list_names_recursive(), twice.list_names_recursive());
}

#[test]
fn loading_with_a_missing_file_fails() {
    let mut root = SnippetFolder::new("d");
    root.load_names(&vec![file("d/a.snip"), file("d/b.snip")]);
    let files = vec![FileLines {
        path: s("d/a.snip"),
        lines: lines(&["t", "", "body"]),
    }];
    assert_eq!(root.load_snippets(&files), Err(SnippetError::Io));
    // nothing was loaded
    assert!(!root.snippets[0].is_valid());
    assert!(!root.snippets[1].is_valid());
}
