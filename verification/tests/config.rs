use qownnotes_tui::config::{
    chosen_notes_dir,
    discover_qownnotes_note_folders, DiscoveryError, FolderRecord, ignored_subfolder_patterns_from_qsettings, note_sort_from_qsettings, qsettings_value,
    relative_selected_note, remembered_note, selected_folder_index, selected_note, FileConfig,
    NoteFolder, NoteSort,
};

#[test]
fn reads_only_general_qsettings_values() {
    let settings = "[Other]\nnotesPath=/wrong\n[General]\nnotesPath=/notes\n";
    assert_eq!(qsettings_value(settings, "notesPath").as_deref(), Some("/notes"));
    assert_eq!(qsettings_value(settings, "missing"), None);
}

#[test]
fn reads_qownnotes_note_sorting() {
    assert_eq!(
        note_sort_from_qsettings("[General]\nnotesPanelSort=0\nnotesPanelOrder=1\n"),
        NoteSort::Alphabetical { descending: true }
    );
    assert_eq!(
        note_sort_from_qsettings("[General]\nnotesPanelSort=1\nnotesPanelOrder=0\n"),
        NoteSort::LastModified
    );
    assert_eq!(note_sort_from_qsettings(""), NoteSort::LastModified);
}

#[test]
fn reads_qownnotes_ignored_subfolder_patterns() {
    assert_eq!(
        ignored_subfolder_patterns_from_qsettings(""),
        [r"^\.".to_string()]
    );
    assert_eq!(
        ignored_subfolder_patterns_from_qsettings(
            "[General]\nignoreNoteSubFolders=^\\\\.; ^archive$;;cache"
        ),
        [r"^\.", "^archive$", "cache"]
    );
}

#[test]
fn prefers_the_saved_note_folder_when_it_is_available() {
    let folders = vec![
        NoteFolder {
            name: "First".into(),
            path: "/notes/first".into(),
            show_subfolders: true,
        },
        NoteFolder {
            name: "Saved".into(),
            path: "/notes/saved".into(),
            show_subfolders: true,
        },
    ];

    assert_eq!(selected_folder_index(&folders, Some("/notes/saved"), 0), 1);
    assert_eq!(selected_folder_index(&folders, Some("/notes/missing"), 0), 0);
}

#[test]
fn restores_only_notes_inside_the_active_folder() {
    assert_eq!(
        relative_selected_note("/notes/work", Some("/notes/work/projects/todo.md")),
        Some("projects/todo.md".to_string())
    );
    assert_eq!(
        relative_selected_note("/notes/work", Some("/notes/personal/todo.md")),
        None
    );
}

#[test]
fn resolves_qownnotes_paths_per_session() {
    let dirs = directories::BaseDirs::new().unwrap();
    let config_dir = dirs.config_dir().to_string_lossy().into_owned();
    let data_dir = dirs.data_dir().to_string_lossy().into_owned();

    let default = qownnotes_tui::config::qownnotes_paths(&config_dir, &data_dir, None);
    assert_eq!(
        std::path::PathBuf::from(&default.settings),
        dirs.config_dir().join("PBE/QOwnNotes.conf")
    );
    assert_eq!(
        std::path::PathBuf::from(&default.database),
        dirs.data_dir().join("PBE/QOwnNotes/QOwnNotes.sqlite")
    );

    let session = qownnotes_tui::config::qownnotes_paths(&config_dir, &data_dir, Some("test"));
    assert_eq!(
        std::path::PathBuf::from(&session.settings),
        dirs.config_dir().join("PBE/QOwnNotes-test.conf")
    );
    assert_eq!(
        std::path::PathBuf::from(&session.database),
        dirs.data_dir().join("PBE/QOwnNotes-test/QOwnNotes.sqlite")
    );
}

#[test]
fn discovers_the_active_qownnotes_folder() {
    let records = vec![
        FolderRecord {
            id: 1,
            name: "First".into(),
            local_path: "/notes/first".into(),
            show_subfolders: false,
        },
        FolderRecord {
            id: 2,
            name: "Active".into(),
            local_path: "/notes/active".into(),
            show_subfolders: true,
        },
    ];
    let (folders, active_folder) = discover_qownnotes_note_folders(
        "[General]\ncurrentNoteFolderId=2\n",
        "/data/QOwnNotes.sqlite",
        &records,
        &vec![true, true],
    )
    .unwrap();
    assert_eq!(active_folder, 1);
    assert_eq!(folders.len(), 2);
    assert_eq!(
        folders[0],
        NoteFolder {
            name: "First".into(),
            path: "/notes/first".into(),
            show_subfolders: false,
        }
    );
    assert_eq!(
        folders[1],
        NoteFolder {
            name: "Active".into(),
            path: "/notes/active".into(),
            show_subfolders: true,
        }
    );
}

#[test]
fn treats_missing_subfolder_column_as_disabled() {
    let records = vec![FolderRecord {
        id: 1,
        name: "Notes".into(),
        local_path: "/notes".into(),
        show_subfolders: false,
    }];
    let (folders, _) =
        discover_qownnotes_note_folders("", "/data/QOwnNotes.sqlite", &records, &vec![true]).unwrap();
    assert!(!folders[0].show_subfolders);
}

#[test]
fn discovery_fails_without_available_folders() {
    let records = vec![FolderRecord {
        id: 1,
        name: "Gone".into(),
        local_path: "/gone".into(),
        show_subfolders: true,
    }];
    assert_eq!(
        discover_qownnotes_note_folders("", "/data/QOwnNotes.sqlite", &records, &vec![false]),
        Err(DiscoveryError::NoAvailableFolders)
    );
}

#[test]
fn a_configured_root_is_named_after_its_last_component() {
    let folder = qownnotes_tui::config::root_folder("/home/me/Notes");
    assert_eq!(folder.name, "Notes");
    assert_eq!(folder.path, "/home/me/Notes");
    assert!(folder.show_subfolders);
    assert_eq!(qownnotes_tui::config::root_folder("/").name, "/");
}

#[test]
fn a_remembered_note_reads_back_normalized() {
    let mut file = FileConfig::default();
    selected_note(&mut file, "/notes/work", Some("projects/./todo.md"));
    assert_eq!(file.selected_note.as_deref(), Some("/notes/work/projects/./todo.md"));
    assert_eq!(remembered_note(&file, "/notes/work"), Some("projects/todo.md".to_string()));
    assert_eq!(remembered_note(&file, "/notes/personal"), None);
    selected_note(&mut file, "/notes/work/", Some("a.md"));
    assert_eq!(remembered_note(&file, "/notes/work"), Some("a.md".to_string()));
    selected_note(&mut file, "/notes/work", None);
    assert_eq!(remembered_note(&file, "/notes/work"), None);
}

#[test]
fn the_active_folder_id_parses_like_a_signed_integer() {
    let record = |id: i64, path: &str| FolderRecord {
        id,
        name: path.into(),
        local_path: path.into(),
        show_subfolders: false,
    };
    let records = vec![record(7, "/n/a"), record(-3, "/n/b"), record(i64::MIN, "/n/c")];
    let active = |settings: &str| {
        discover_qownnotes_note_folders(settings, "/d/q.sqlite", &records, &vec![true, true, true])
            .unwrap()
            .1
    };
    assert_eq!(active("[General]\ncurrentNoteFolderId=-3\n"), 1);
    assert_eq!(active("[General]\ncurrentNoteFolderId=+7\n"), 0);
    assert_eq!(active("[General]\ncurrentNoteFolderId=-9223372036854775808\n"), 2);
    assert_eq!(active("[General]\ncurrentNoteFolderId=-9223372036854775809\n"), 0);
    assert_eq!(active("[General]\ncurrentNoteFolderId=-\n"), 0);
}

#[test]
fn the_command_line_note_root_wins_over_the_configuration_file() {
    assert_eq!(chosen_notes_dir(Some("/cli"), Some("/file")), Some("/cli".to_string()));
    assert_eq!(chosen_notes_dir(None, Some("/file")), Some("/file".to_string()));
    assert_eq!(chosen_notes_dir(None, None), None);
}
