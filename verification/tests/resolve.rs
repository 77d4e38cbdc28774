use tag_crucible::path::{collect_path_hierarchy, PathKey};
use tag_crucible::query::DirectoryTagSnapshot;
use tag_crucible::resolve::{apply_tags, apply_tags_with_keys};
use tag_crucible::scan::FileInfo;

fn file_info(path: &str, is_directory: bool) -> FileInfo {
    let key = PathKey::new(path);
    FileInfo {
        hierarchy: collect_path_hierarchy(&key),
        path: key,
        is_directory,
        is_symlink: false,
        size: 0,
        modified: None,
        own_tags: Vec::new(),
        inherited_tags: Vec::new(),
        windows_tags: Vec::new(),
    }
}

#[test]
fn apply_tags_propagates_and_sorts() {
    let root = PathKey::new("/root");
    let mut entries = vec![
        file_info("/root", true),
        file_info("/root/folder", true),
        file_info("/root/folder/file.txt", false),
    ];

    let mut snapshot = DirectoryTagSnapshot::new(Vec::new());
    snapshot.insert_direct(PathKey::new("/root"), vec!["root-tag".to_string()]);
    snapshot.insert_direct(
        PathKey::new("/root/folder"),
        vec!["folder-tag".to_string(), "alpha".to_string()],
    );
    snapshot.insert_direct(
        PathKey::new("/root/folder/file.txt"),
        vec!["file-tag".to_string()],
    );

    apply_tags(&root, &mut entries, &snapshot);

    // Root: own_tags only
    assert_eq!(entries[0].own_tags, vec!["root-tag".to_string()]);
    assert_eq!(entries[0].inherited_tags, Vec::<String>::new());

    // Folder: own_tags, sorted, + inherited from root
    assert_eq!(
        entries[1].own_tags,
        vec!["alpha".to_string(), "folder-tag".to_string()]
    );
    assert_eq!(entries[1].inherited_tags, vec!["root-tag".to_string()]);

    // File: own_tags + inherited from folder and root
    assert_eq!(entries[2].own_tags, vec!["file-tag".to_string()]);
    assert_eq!(
        entries[2].inherited_tags,
        vec![
            "alpha".to_string(),
            "folder-tag".to_string(),
            "root-tag".to_string()
        ]
    );
}

#[test]
fn apply_tags_assigns_root_ancestor_tags() {
    let root = PathKey::new("/root/project");
    let mut entries = vec![
        file_info("/root/project", true),
        file_info("/root/project/nested", true),
    ];

    let snapshot = DirectoryTagSnapshot::new(vec!["alpha".to_string(), "beta".to_string()]);

    apply_tags(&root, &mut entries, &snapshot);

    assert!(entries[0].own_tags.is_empty());
    assert_eq!(
        entries[0].inherited_tags,
        vec!["alpha".to_string(), "beta".to_string()]
    );

    assert!(entries[1].own_tags.is_empty());
    assert_eq!(
        entries[1].inherited_tags,
        vec!["alpha".to_string(), "beta".to_string()]
    );
}

#[test]
fn apply_tags_handles_empty_direct_map() {
    let root = PathKey::new("/root");
    let mut entries = vec![file_info("/root", true)];
    let snapshot = DirectoryTagSnapshot::new(Vec::new());

    apply_tags(&root, &mut entries, &snapshot);
    assert!(entries[0].own_tags.is_empty());
    assert!(entries[0].inherited_tags.is_empty());
}

#[test]
fn entry_with_unscanned_parent_inherits_nothing() {
    let root = PathKey::new("/root");
    let mut entries = vec![
        file_info("/root", true),
        file_info("/root/missing/file.txt", false),
    ];
    let mut snapshot = DirectoryTagSnapshot::new(vec!["above".to_string()]);
    snapshot.insert_direct(PathKey::new("/root"), vec!["root-tag".to_string()]);
    snapshot.insert_direct(PathKey::new("/root/missing"), vec!["lost".to_string()]);

    apply_tags(&root, &mut entries, &snapshot);

    assert_eq!(entries[0].inherited_tags, vec!["above".to_string()]);
    assert!(entries[1].own_tags.is_empty());
    assert!(entries[1].inherited_tags.is_empty());
}

#[test]
fn inherited_tags_are_sorted_without_repeats() {
    let root = PathKey::new("/r");
    let mut entries = vec![
        file_info("/r", true),
        file_info("/r/a", true),
        file_info("/r/a/b", false),
    ];
    let mut snapshot = DirectoryTagSnapshot::new(vec![
        "zeta".to_string(),
        "beta".to_string(),
        "zeta".to_string(),
    ]);
    snapshot.insert_direct(PathKey::new("/r"), vec!["beta".to_string(), "mid".to_string()]);
    snapshot.insert_direct(PathKey::new("/r/a"), vec!["alpha".to_string(), "zeta".to_string()]);

    apply_tags(&root, &mut entries, &snapshot);

    assert_eq!(entries[0].inherited_tags, vec!["beta".to_string(), "zeta".to_string()]);
    assert_eq!(
        entries[1].inherited_tags,
        vec!["beta".to_string(), "mid".to_string(), "zeta".to_string()]
    );
    assert_eq!(
        entries[2].inherited_tags,
        vec![
            "alpha".to_string(),
            "beta".to_string(),
            "mid".to_string(),
            "zeta".to_string()
        ]
    );
}

#[test]
fn entries_may_come_in_any_order() {
    let root = PathKey::new("/r");
    let mut entries = vec![
        file_info("/r/a/b", false),
        file_info("/r/a", true),
        file_info("/r", true),
    ];
    let mut snapshot = DirectoryTagSnapshot::new(vec!["top".to_string()]);
    snapshot.insert_direct(PathKey::new("/r/a"), vec!["mid".to_string()]);

    apply_tags(&root, &mut entries, &snapshot);

    assert_eq!(entries[0].inherited_tags, vec!["mid".to_string(), "top".to_string()]);
    assert_eq!(entries[1].inherited_tags, vec!["top".to_string()]);
    assert_eq!(entries[1].own_tags, vec!["mid".to_string()]);
    assert_eq!(entries[2].inherited_tags, vec!["top".to_string()]);
}

#[test]
fn a_later_record_for_a_path_takes_the_place_of_an_earlier_one() {
    let root = PathKey::new("/r");
    let mut entries = vec![file_info("/r", true), file_info("/r/a", false)];
    let mut snapshot = DirectoryTagSnapshot::new(Vec::new());
    snapshot.insert_direct(PathKey::new("/r"), vec!["old".to_string()]);
    snapshot.insert_direct(PathKey::new("/other/r"), vec!["elsewhere".to_string()]);
    snapshot.insert_direct(PathKey::new("/r/"), vec!["new".to_string()]);
    assert!(!snapshot.is_empty());
    assert_eq!(
        snapshot.direct_tags(&PathKey::new("/r")),
        Some(&vec!["new".to_string()])
    );

    apply_tags(&root, &mut entries, &snapshot);

    assert_eq!(entries[0].own_tags, vec!["new".to_string()]);
    assert_eq!(entries[1].inherited_tags, vec!["new".to_string()]);
}

#[test]
fn keys_may_stand_for_the_paths_of_the_entries() {
    let root = PathKey::new("/real");
    let keys = vec![PathKey::new("/real"), PathKey::new("/real/a")];
    let mut entries = vec![file_info("/link", true), file_info("/link/a", false)];
    let mut snapshot = DirectoryTagSnapshot::new(vec!["above".to_string()]);
    snapshot.insert_direct(PathKey::new("/real"), vec!["root-tag".to_string()]);
    snapshot.insert_direct(PathKey::new("/link/a"), vec!["never".to_string()]);

    assert!(apply_tags_with_keys(
        &root,
        &keys,
        &mut entries,
        &snapshot
    ));
    assert_eq!(entries[0].path.as_str(), "/link");
    assert_eq!(entries[0].own_tags, vec!["root-tag".to_string()]);
    assert_eq!(entries[0].inherited_tags, vec!["above".to_string()]);
    assert!(entries[1].own_tags.is_empty());
    assert_eq!(
        entries[1].inherited_tags,
        vec!["above".to_string(), "root-tag".to_string()]
    );

    let short = vec![PathKey::new("/real")];
    let before: Vec<Vec<String>> = entries.iter().map(|e| e.own_tags.clone()).collect();
    assert!(!apply_tags_with_keys(
        &root,
        &short,
        &mut entries,
        &snapshot
    ));
    let after: Vec<Vec<String>> = entries.iter().map(|e| e.own_tags.clone()).collect();
    assert_eq!(before, after);
}

#[test]
fn inherited_tags_are_what_the_parent_owns_and_inherits() {
    let root = PathKey::new("/r");
    let paths = ["/r", "/r/a", "/r/a/b", "/r/a/b/c", "/r/x"];
    let mut entries: Vec<FileInfo> = paths.iter().map(|p| file_info(p, true)).collect();
    let mut snapshot = DirectoryTagSnapshot::new(vec!["outer".to_string()]);
    snapshot.insert_direct(PathKey::new("/r"), vec!["t-r".to_string()]);
    snapshot.insert_direct(PathKey::new("/r/a"), vec!["t-a".to_string(), "t-r".to_string()]);
    snapshot.insert_direct(PathKey::new("/r/a/b/c"), vec!["t-c".to_string()]);

    apply_tags(&root, &mut entries, &snapshot);

    let parent_of = [None, Some(0), Some(1), Some(2), Some(0)];
    for (i, parent) in parent_of.iter().enumerate() {
        let expected: Vec<String> = match parent {
            None => vec!["outer".to_string()],
            Some(p) => {
                let mut both: Vec<String> = entries[*p].own_tags.clone();
                both.extend(entries[*p].inherited_tags.iter().cloned());
                both.sort();
                both.dedup();
                both
            }
        };
        assert_eq!(entries[i].inherited_tags, expected, "entry {}", paths[i]);
    }
    assert_eq!(
        entries[3].inherited_tags,
        vec!["outer".to_string(), "t-a".to_string(), "t-r".to_string()]
    );
}

#[test]
fn own_tags_are_sorted_without_repeats() {
    let root = PathKey::new("/r");
    let mut entries = vec![file_info("/r", true), file_info("/r/a", false)];
    let mut snapshot = DirectoryTagSnapshot::new(Vec::new());
    snapshot.insert_direct(
        PathKey::new("/r"),
        vec![
            "zeta".to_string(),
            "alpha".to_string(),
            "zeta".to_string(),
            "Mid".to_string(),
        ],
    );

    apply_tags(&root, &mut entries, &snapshot);

    assert_eq!(
        entries[0].own_tags,
        vec!["Mid".to_string(), "alpha".to_string(), "zeta".to_string()]
    );
    assert!(entries[1].own_tags.is_empty());
    assert_eq!(
        entries[1].inherited_tags,
        vec!["Mid".to_string(), "alpha".to_string(), "zeta".to_string()]
    );
}
