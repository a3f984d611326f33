use vault_index::{
    build_tree, is_admitted, is_hidden, is_markdown_name, is_searchable_file, join_components,
    list_recursive_markdown, list_shallow, search_notes, DiskNode, FileContent, FileEntry,
    GrepMatch, SearchSession, VaultError, METADATA_DIR,
};

fn file(name: &str) -> DiskNode {
    DiskNode { name: name.to_string(), is_directory: false, contents: None }
}

fn dir(name: &str, items: Vec<DiskNode>) -> DiskNode {
    DiskNode { name: name.to_string(), is_directory: true, contents: Some(items) }
}

fn unreadable(name: &str) -> DiskNode {
    DiskNode { name: name.to_string(), is_directory: true, contents: None }
}

fn note(path: &str, content: &str) -> FileContent {
    FileContent { path: path.to_string(), content: content.to_string(), size: content.len() as u64 }
}

fn names(es: &[FileEntry]) -> Vec<String> {
    es.iter().map(|e| e.name.clone()).collect()
}

fn record(m: &GrepMatch) -> (String, usize, String, usize, usize) {
    (m.filepath.clone(), m.line_number, m.line_content.clone(), m.match_start, m.match_end)
}

#[test]
fn filter_admits_metadata_dir_only() {
    assert!(is_admitted(METADATA_DIR));
    assert!(is_admitted(".vault"));
    assert!(!is_admitted(".git"));
    assert!(!is_admitted(".vaults"));
    assert!(!is_admitted(".DS_Store"));
    assert!(is_admitted("notes"));
    assert!(is_admitted(""));
    assert!(is_hidden(".git"));
    assert!(!is_hidden("git"));
}

#[test]
fn markdown_extension_rule() {
    assert!(is_markdown_name("a.md"));
    assert!(is_markdown_name("a.markdown"));
    assert!(is_markdown_name("x.y.md"));
    assert!(!is_markdown_name(".md"));
    assert!(!is_markdown_name("md"));
    assert!(!is_markdown_name("a.MD"));
    assert!(!is_markdown_name("a.txt"));
    assert!(!is_markdown_name("readme"));
    assert!(is_searchable_file("a.md"));
    assert!(!is_searchable_file(".a.md"));
    assert!(!is_searchable_file("a.txt"));
}

#[test]
fn tree_paths_and_order() {
    let root = dir(
        "/vault",
        vec![
            file("b.md"),
            dir("Zeta", vec![file("inner.md"), file("skip.txt")]),
            file("A.md"),
            dir("alpha", vec![]),
            file("image.png"),
            dir(".git", vec![file("notes.md")]),
            dir(".vault", vec![file("events.log")]),
            file("c.markdown"),
        ],
    );
    let tree = build_tree(&root).unwrap();
    assert_eq!(names(&tree), vec![".vault", "alpha", "Zeta", "A.md", "b.md", "c.markdown"]);
    for e in &tree {
        assert_eq!(e.path, e.name);
        assert_eq!(e.children.is_some(), e.is_directory);
    }
    let zeta = tree[2].children.as_ref().unwrap();
    assert_eq!(names(zeta), vec!["inner.md"]);
    assert_eq!(zeta[0].path, "Zeta/inner.md");
    assert!(zeta[0].children.is_none());
    assert_eq!(tree[0].children.as_ref().unwrap().len(), 0);
    assert_eq!(tree[1].children.as_ref().unwrap().len(), 0);
}

#[test]
fn tree_nested_paths_join_with_slash() {
    let root = dir("r", vec![dir("a", vec![dir("b", vec![file("c.md")])])]);
    let tree = build_tree(&root).unwrap();
    let b = &tree[0].children.as_ref().unwrap()[0];
    assert_eq!(b.path, "a/b");
    assert_eq!(b.children.as_ref().unwrap()[0].path, "a/b/c.md");
}

#[test]
fn tree_fails_whole_on_unreadable_subdirectory() {
    let root = dir("r", vec![file("a.md"), dir("ok", vec![file("x.md")]), unreadable("locked")]);
    match build_tree(&root) {
        Err(VaultError::IoError(p)) => assert_eq!(p, "locked"),
        other => panic!("expected an IoError, got {:?}", other),
    }
    let deep = dir("r", vec![dir("a", vec![unreadable("b")])]);
    match build_tree(&deep) {
        Err(VaultError::IoError(p)) => assert_eq!(p, "a/b"),
        other => panic!("expected an IoError, got {:?}", other),
    }
}

#[test]
fn tree_ignores_unreadable_hidden_directory() {
    let root = dir("r", vec![unreadable(".git"), file("a.md")]);
    let tree = build_tree(&root).unwrap();
    assert_eq!(names(&tree), vec!["a.md"]);
}

#[test]
fn root_preconditions() {
    assert!(matches!(build_tree(&file("x.md")), Err(VaultError::NotADirectory(_))));
    assert!(matches!(build_tree(&unreadable("r")), Err(VaultError::IoError(_))));
    assert!(matches!(list_shallow(&file("x")), Err(VaultError::NotADirectory(_))));
    assert!(matches!(list_recursive_markdown(&unreadable("r")), Err(VaultError::IoError(_))));
}

#[test]
fn shallow_listing_keeps_every_kind() {
    let d = dir(
        "notes",
        vec![file("z.txt"), dir("sub", vec![file("deep.md")]), file("a.md"), file(".hidden"), dir("Box", vec![])],
    );
    let es = list_shallow(&d).unwrap();
    assert_eq!(names(&es), vec!["Box", "sub", "a.md", "z.txt"]);
    assert_eq!(es[1].path, "notes/sub");
    assert!(es.iter().all(|e| e.children.is_none()));
}

#[test]
fn recursive_listing_is_flat_and_sorted_by_path() {
    let root = dir(
        "r",
        vec![
            file("b.md"),
            dir("A", vec![file("z.md"), file("y.txt")]),
            dir(".git", vec![file("notes.md")]),
            file("a.markdown"),
        ],
    );
    let es = list_recursive_markdown(&root).unwrap();
    let paths: Vec<String> = es.iter().map(|e| e.path.clone()).collect();
    assert_eq!(paths, vec!["a.markdown", "A/z.md", "b.md"]);
    assert!(es.iter().all(|e| !e.is_directory && e.children.is_none()));
    assert_eq!(es[1].name, "z.md");
}

#[test]
fn hidden_directory_absent_from_listing_and_search() {
    let root = dir("r", vec![dir(".git", vec![file("notes.md")]), file("a.md")]);
    let es = list_recursive_markdown(&root).unwrap();
    assert!(es.iter().all(|e| !e.path.contains(".git")));
    assert!(is_hidden(".git"));
    let mut session = SearchSession::new("x", 10).unwrap();
    session.add_file(&"a.md".to_string(), &"x".to_string());
    let ms = session.into_matches();
    assert!(ms.iter().all(|m| !m.filepath.contains(".git")));
}

#[test]
fn recursive_listing_fails_on_unreadable_directory() {
    let root = dir("r", vec![file("a.md"), dir("s", vec![unreadable("t")])]);
    match list_recursive_markdown(&root) {
        Err(VaultError::IoError(p)) => assert_eq!(p, "s/t"),
        other => panic!("expected an IoError, got {:?}", other),
    }
}

#[test]
fn search_scenario_two_files() {
    let files = vec![note("a.md", "hello world"), note("sub/b.md", "say hello")];
    let ms = search_notes("hello", &files, 10).unwrap();
    assert_eq!(ms.len(), 2);
    assert_eq!(record(&ms[0]), ("a.md".to_string(), 1, "hello world".to_string(), 0, 5));
    assert_eq!(record(&ms[1]), ("sub/b.md".to_string(), 1, "say hello".to_string(), 4, 9));
}

#[test]
fn search_literal_fallback() {
    let files = vec![note("a.md", "before\nx a(b y\nab")];
    let ms = search_notes("a(b", &files, 100).unwrap();
    assert_eq!(ms.len(), 1);
    assert_eq!(record(&ms[0]), ("a.md".to_string(), 2, "x a(b y".to_string(), 2, 5));
}

#[test]
fn search_regex_pattern() {
    let files = vec![note("a.md", "axb\na.b")];
    let ms = search_notes("a.b", &files, 100).unwrap();
    assert_eq!(ms.len(), 2);
    assert_eq!(ms[0].line_number(), 1);
}

#[test]
fn search_result_cap() {
    let files = vec![note("a.md", "x\nx\nx"), note("b.md", "x")];
    for max in 0..6 {
        let ms = search_notes("x", &files, max).unwrap();
        assert_eq!(ms.len(), max.min(4));
    }
    let ms = search_notes("x", &files, 2).unwrap();
    assert_eq!(ms[1].line_number, 2);
    assert_eq!(ms[1].filepath, "a.md");
}

#[test]
fn search_default_cap_of_one_hundred() {
    let text = "hit\n".repeat(150);
    let files = vec![note("a.md", &text)];
    let ms = search_notes("hit", &files, 100).unwrap();
    assert_eq!(ms.len(), 100);
}

#[test]
fn search_is_repeatable() {
    let files = vec![note("a.md", "one two\ntwo"), note("b.md", "two")];
    let first = search_notes("two", &files, 10).unwrap();
    let second = search_notes("two", &files, 10).unwrap();
    let a: Vec<_> = first.iter().map(record).collect();
    let b: Vec<_> = second.iter().map(record).collect();
    assert_eq!(a, b);
    assert_eq!(a.len(), 3);
}

#[test]
fn search_first_match_per_line_and_byte_offsets() {
    let files = vec![note("n.md", "héllo wörld wörld\r\nlast\n")];
    let ms = search_notes("wörld", &files, 10).unwrap();
    assert_eq!(ms.len(), 1);
    assert_eq!(ms[0].line_content, "héllo wörld wörld");
    assert_eq!(ms[0].match_start, 7);
    assert_eq!(ms[0].match_end, 13);
}

#[test]
fn search_skips_empty_matches() {
    let files = vec![note("n.md", "abc\nxx")];
    let ms = search_notes("x*", &files, 10).unwrap();
    assert_eq!(ms.len(), 1);
    assert_eq!(ms[0].line_number, 2);
    assert_eq!((ms[0].match_start, ms[0].match_end), (0, 2));
}

#[test]
fn search_trailing_newline_adds_no_line() {
    let files = vec![note("n.md", "a\n\n"), note("e.md", "")];
    let ms = search_notes("^$", &files, 10).unwrap();
    assert_eq!(ms.len(), 0);
    let ms = search_notes("a", &files, 10).unwrap();
    assert_eq!(ms.len(), 1);
}

#[test]
fn session_stops_wanting_at_cap() {
    let mut s = SearchSession::new("x", 1).unwrap();
    assert!(s.wants_more());
    s.add_file(&"a.md".to_string(), &"x\nx".to_string());
    assert!(!s.wants_more());
    assert_eq!(s.into_matches().len(), 1);
}

#[test]
fn components_join_with_slash() {
    let parts = vec!["sub".to_string(), "b.md".to_string()];
    assert_eq!(join_components(&parts), "sub/b.md");
    assert_eq!(join_components(&vec![]), "");
}

#[test]
fn search_line_endings() {
    let files = vec![note("n.md", "a1\r\na2\na3\r")];
    let ms = search_notes("a", &files, 10).unwrap();
    let lines: Vec<String> = ms.iter().map(|m| m.line_content.clone()).collect();
    assert_eq!(lines, vec!["a1", "a2", "a3\r"]);
    let numbers: Vec<usize> = ms.iter().map(|m| m.line_number).collect();
    assert_eq!(numbers, vec![1, 2, 3]);
}

#[test]
fn search_in_empty_note_set() {
    let ms = search_notes("x", &Vec::new(), 10).unwrap();
    assert!(ms.is_empty());
}

#[test]
fn sibling_names_that_differ_only_in_case_both_stay() {
    let root = dir("r", vec![file("a.md"), file("A.md")]);
    let tree = build_tree(&root).unwrap();
    assert_eq!(tree.len(), 2);
    assert_ne!(tree[0].path, tree[1].path);
}

#[test]
fn result_cap_defaults_to_one_hundred() {
    assert_eq!(vault_index::result_cap(None), 100);
    assert_eq!(vault_index::result_cap(Some(7)), 7);
    assert_eq!(vault_index::DEFAULT_MAX_RESULTS, 100);
}
