use qownnotes_tui::notes::scan::{
    compile_patterns, is_note, keeps_entry, safe_relative_path, scan, scan_with_subfolders,
    searchable_text, EntryMetadata, NotePathError, ScanEntry, ScanError,
};

fn dir(path: &str, depth: usize) -> ScanEntry {
    ScanEntry {
        path: path.to_string(),
        depth,
        is_dir: true,
        is_file: false,
        metadata: Some(EntryMetadata {
            size: 0,
            modified: 0,
        }),
        contents: Vec::new(),
    }
}

fn file(path: &str, depth: usize, contents: &str) -> ScanEntry {
    ScanEntry {
        path: path.to_string(),
        depth,
        is_dir: false,
        is_file: true,
        metadata: Some(EntryMetadata {
            size: contents.len() as u64,
            modified: 7,
        }),
        contents: contents.as_bytes().to_vec(),
    }
}

#[test]
fn rejects_paths_outside_root() {
    let root = "/notes";
    assert!(safe_relative_path(root, "/other/note.md").is_err());
    assert!(safe_relative_path(root, root).is_err());
}

#[test]
fn relative_paths_name_the_kind_of_refusal() {
    assert_eq!(
        safe_relative_path("/notes", "/other/note.md"),
        Err(NotePathError::OutsideRoot)
    );
    assert_eq!(safe_relative_path("/notes", "/notes"), Err(NotePathError::Unsafe));
    assert_eq!(
        safe_relative_path("/notes", "/notes/a/../b.md"),
        Err(NotePathError::Unsafe)
    );
    assert_eq!(
        safe_relative_path("/notes", "/notes/work/plan.md"),
        Ok("work/plan.md".to_string())
    );
}

#[test]
fn scans_supported_extensions_and_nested_folders() {
    let entries = vec![
        dir("/r", 0),
        file("/r/root.md", 1, "root"),
        dir("/r/work", 1),
        file("/r/work/image.png", 2, ""),
        file("/r/work/plan.MARKDOWN", 2, "plan"),
    ];
    let inventory = scan("/r", &entries).unwrap();
    let paths: Vec<_> = inventory
        .notes
        .iter()
        .map(|note| note.relative_path.as_str())
        .collect();
    assert!(paths.contains(&"root.md"));
    assert!(paths.contains(&"work/plan.MARKDOWN"));
    assert_eq!(paths.len(), 2);
    assert_eq!(inventory.subfolders, ["work"]);
    assert_eq!(inventory.notes[0].search_text_lowercase, "root");
    assert_eq!(inventory.notes[0].size, 4);
}

#[test]
fn includes_empty_nested_folders() {
    let entries = vec![dir("/r", 0), dir("/r/work/empty", 2), dir("/r/work", 1)];
    let inventory = scan("/r", &entries).unwrap();
    assert!(inventory.notes.is_empty());
    assert_eq!(inventory.subfolders, ["work", "work/empty"]);
}

#[test]
fn non_recursive_scan_ignores_nested_entries() {
    let entries = vec![dir("/r", 0), file("/r/root.md", 1, "root"), dir("/r/work", 1)];
    let inventory = scan_with_subfolders("/r", false, &entries).unwrap();
    assert_eq!(inventory.notes.len(), 1);
    assert_eq!(inventory.notes[0].relative_path, "root.md");
    assert!(inventory.subfolders.is_empty());
}

#[test]
fn ignores_subfolders_matching_qownnotes_patterns() {
    let patterns = compile_patterns(&vec![
        r"^\.".to_string(),
        "^archive$".to_string(),
        "^cache$".to_string(),
    ]);
    assert!(!keeps_entry(1, true, ".private", &patterns));
    assert!(!keeps_entry(1, true, "archive", &patterns));
    assert!(!keeps_entry(2, true, "cache", &patterns));
    assert!(keeps_entry(1, true, "work", &patterns));
    assert!(keeps_entry(2, true, "visible", &patterns));
    assert!(keeps_entry(0, true, ".private", &patterns));
    assert!(keeps_entry(2, false, ".hidden.md", &patterns));

    let entries = vec![
        dir("/r", 0),
        dir("/r/work", 1),
        dir("/r/work/visible", 2),
        file("/r/work/visible/note.md", 3, "work/visible"),
    ];
    let inventory = scan_with_subfolders("/r", true, &entries).unwrap();
    assert_eq!(inventory.subfolders, ["work", "work/visible"]);
    assert_eq!(inventory.notes.len(), 1);
    assert_eq!(inventory.notes[0].relative_path, "work/visible/note.md");
}

#[test]
fn skips_invalid_ignored_subfolder_patterns() {
    let patterns = compile_patterns(&vec!["[invalid".to_string()]);
    assert!(patterns.is_empty());
    assert!(keeps_entry(1, true, "visible", &patterns));
}

#[test]
fn excludes_reserved_directories() {
    for reserved in [".git", "media", "attachments", "trash"] {
        assert!(!keeps_entry(1, true, reserved, &Vec::new()));
    }
    assert!(keeps_entry(1, false, "trash", &Vec::new()));
}

#[test]
fn does_not_hide_notes_listed_in_gitignore() {
    let entries = vec![
        dir("/r", 0),
        file("/r/.gitignore", 1, "private.md\n"),
        file("/r/private.md", 1, "private"),
    ];
    let inventory = scan("/r", &entries).unwrap();
    assert_eq!(inventory.notes.len(), 1);
    assert_eq!(inventory.notes[0].relative_path, "private.md");
}

#[test]
fn note_extensions_ignore_ascii_case() {
    assert!(is_note("a/b.Md"));
    assert!(is_note("x.TXT"));
    assert!(is_note("x.markdown"));
    assert!(!is_note("x.png"));
    assert!(!is_note(".md"));
    assert!(!is_note("notes"));
}

#[test]
fn scan_errors_name_the_entry() {
    let outside = vec![dir("/r", 0), file("/elsewhere/a.md", 1, "")];
    assert_eq!(
        scan("/r", &outside),
        Err(ScanError::Path(NotePathError::OutsideRoot, "/elsewhere/a.md".to_string()))
    );
    let mut unreadable = file("/r/a.md", 1, "");
    unreadable.metadata = None;
    assert_eq!(
        scan("/r", &vec![unreadable]),
        Err(ScanError::Metadata("/r/a.md".to_string()))
    );
}

#[test]
fn searchable_text_is_lower_case_utf8_without_bom() {
    assert_eq!(searchable_text(b"Hello World"), "hello world");
    assert_eq!(searchable_text(&[0xef, 0xbb, 0xbf, b'A']), "a");
    assert_eq!(searchable_text(&[0xff, b'A']), "");
    assert_eq!(searchable_text("ÄÖ".as_bytes()), "äö");
}

#[test]
fn subfolders_come_in_path_order_and_notes_only_from_note_files() {
    let entries = vec![
        dir("/r", 0),
        dir("/r/b", 1),
        file("/r/b/x.md", 2, "x"),
        dir("/r/a", 1),
        file("/r/a/image.png", 2, "png"),
        dir("/r/a/c", 2),
        file("/r/top.txt", 1, "top"),
    ];
    let inventory = scan("/r", &entries).unwrap();
    assert_eq!(inventory.subfolders, ["a", "a/c", "b"]);
    let paths: Vec<&str> = inventory.notes.iter().map(|note| note.relative_path.as_str()).collect();
    assert_eq!(paths, ["b/x.md", "top.txt"]);
}

#[test]
fn without_subfolders_only_top_level_notes_count() {
    let entries = vec![
        dir("/r", 0),
        file("/r/root.md", 1, "root"),
        dir("/r/work", 1),
        file("/r/work/deep.md", 2, "deep"),
        file("/r/work/../../outside.md", 2, "unsafe but deep"),
    ];
    let inventory = scan_with_subfolders("/r", false, &entries).unwrap();
    let paths: Vec<&str> = inventory.notes.iter().map(|note| note.relative_path.as_str()).collect();
    assert_eq!(paths, ["root.md"]);
    assert!(inventory.subfolders.is_empty());
}

#[test]
fn a_leading_dot_component_counts_when_stripping_the_root() {
    assert_eq!(safe_relative_path("a", "./a/b.md"), Err(NotePathError::OutsideRoot));
    assert_eq!(safe_relative_path("a", "a/./b.md"), Ok("b.md".to_string()));
    assert_eq!(safe_relative_path(".", "./b.md"), Ok("b.md".to_string()));
}
