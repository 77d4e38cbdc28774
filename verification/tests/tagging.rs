use tag_crucible::path::{calculate_path_depth, PathKey};
use tag_crucible::platform::build_file_info;
use tag_crucible::query::get_tags_for_directory;
use tag_crucible::resolve::apply_tags;
use tag_crucible::tagging::{
    assign_tag_to_paths, plan_tag_assignment, TagAssignment, TagTable, TaggingError,
};

struct TestPaths {
    ancestor: PathKey,
    parent: PathKey,
    scan_root: PathKey,
    descendant: PathKey,
    deep_descendant: PathKey,
    unrelated: PathKey,
}

fn sample_paths() -> TestPaths {
    TestPaths {
        ancestor: PathKey::new("/"),
        parent: PathKey::new("/workspace"),
        scan_root: PathKey::new("/workspace/project"),
        descendant: PathKey::new("/workspace/project/notes.txt"),
        deep_descendant: PathKey::new("/workspace/project/folder/deep.txt"),
        unrelated: PathKey::new("/other"),
    }
}

fn insert(table: &mut TagTable, path: &PathKey, tag: &str) {
    table.upsert(TagAssignment {
        path: path.duplicate(),
        tag: tag.to_string(),
        path_depth: calculate_path_depth(path),
    });
}

fn merged(mut first: Vec<String>, second: &[String]) -> Vec<String> {
    first.extend(second.iter().cloned());
    first.sort();
    first.dedup();
    first
}

#[test]
fn collects_tags_with_direct_and_inherited_entries() {
    let mut table = TagTable::new();
    let paths = sample_paths();

    insert(&mut table, &paths.parent, "parent-tag");
    insert(&mut table, &paths.scan_root, "root-tag");
    insert(&mut table, &paths.descendant, "desc-tag");
    insert(&mut table, &paths.ancestor, "ancestor-tag");
    insert(&mut table, &paths.unrelated, "other-tag");

    let tags = get_tags_for_directory(&table, &paths.scan_root, 5);

    let at_root = tags.direct_tags(&paths.scan_root).cloned().unwrap_or_default();
    assert_eq!(at_root, vec!["root-tag".to_string()]);
    assert_eq!(
        tags.root_ancestor_tags(),
        &vec!["ancestor-tag".to_string(), "parent-tag".to_string()]
    );
    assert_eq!(
        merged(at_root, tags.root_ancestor_tags()),
        vec![
            "ancestor-tag".to_string(),
            "parent-tag".to_string(),
            "root-tag".to_string()
        ]
    );

    assert_eq!(
        tags.direct_tags(&paths.descendant),
        Some(&vec!["desc-tag".to_string()])
    );

    assert!(tags.direct_tags(&paths.unrelated).is_none());
}

#[test]
fn filters_descendants_by_scan_depth() {
    let mut table = TagTable::new();
    let paths = sample_paths();

    insert(&mut table, &paths.scan_root, "root-tag");
    insert(&mut table, &paths.descendant, "desc-tag");
    insert(&mut table, &paths.deep_descendant, "deep-tag");

    let depth_one = get_tags_for_directory(&table, &paths.scan_root, 1);
    assert!(depth_one.direct_tags(&paths.scan_root).is_some());
    assert!(depth_one.direct_tags(&paths.descendant).is_some());
    assert!(depth_one.direct_tags(&paths.deep_descendant).is_none());

    let depth_three = get_tags_for_directory(&table, &paths.scan_root, 3);
    assert!(depth_three.direct_tags(&paths.deep_descendant).is_some());
}

#[test]
fn inherits_tags_from_all_ancestors() {
    let mut table = TagTable::new();
    let paths = sample_paths();

    insert(&mut table, &paths.ancestor, "ancestor-tag");
    insert(&mut table, &paths.parent, "parent-tag");

    let tags = get_tags_for_directory(&table, &paths.scan_root, 5);

    assert!(tags.direct_tags(&paths.scan_root).is_none());
    assert_eq!(
        merged(Vec::new(), tags.root_ancestor_tags()),
        vec!["ancestor-tag".to_string(), "parent-tag".to_string()]
    );
    assert_eq!(
        tags.root_ancestor_tags(),
        &vec!["ancestor-tag".to_string(), "parent-tag".to_string()]
    );
}

#[test]
fn returns_empty_when_no_relevant_tags() {
    let table = TagTable::new();
    let paths = sample_paths();

    let tags = get_tags_for_directory(&table, &paths.scan_root, 3);
    assert!(tags.is_empty());
    assert!(tags.root_ancestor_tags().is_empty());
}

#[test]
fn assigning_rejects_empty_tag_and_empty_paths() {
    let mut table = TagTable::new();
    let path = PathKey::new("/workspace/project");

    let no_paths: Vec<PathKey> = Vec::new();
    assert!(matches!(
        assign_tag_to_paths(&mut table, &no_paths, "t"),
        Err(TaggingError::EmptyPaths)
    ));
    assert!(matches!(
        assign_tag_to_paths(&mut table, &vec![path.duplicate()], ""),
        Err(TaggingError::EmptyTag)
    ));
    assert!(matches!(
        assign_tag_to_paths(&mut table, &vec![path.duplicate()], "   "),
        Err(TaggingError::EmptyTag)
    ));
    assert!(matches!(
        assign_tag_to_paths(&mut table, &no_paths, "  "),
        Err(TaggingError::EmptyTag)
    ));
    assert_eq!(table.len(), 0);
}

#[test]
fn assigning_trims_the_tag_and_records_the_depth() {
    let mut table = TagTable::new();
    let path = PathKey::new("/workspace/project/notes.txt");

    assign_tag_to_paths(&mut table, &vec![path.duplicate()], "  release \t").unwrap();

    assert_eq!(table.len(), 1);
    let row = table.row(0);
    assert_eq!(row.tag, "release");
    assert_eq!(row.path.as_str(), "/workspace/project/notes.txt");
    assert_eq!(row.path_depth, 3);
}

#[test]
fn assigning_twice_leaves_one_row() {
    let mut table = TagTable::new();
    let path = PathKey::new("/workspace/project");

    assign_tag_to_paths(&mut table, &vec![path.duplicate()], "t").unwrap();
    let once: Vec<(String, String, i64)> = (0..table.len())
        .map(|i| {
            let row = table.row(i);
            (row.path.as_str().to_string(), row.tag.clone(), row.path_depth)
        })
        .collect();

    assign_tag_to_paths(&mut table, &vec![path.duplicate()], "t").unwrap();
    let twice: Vec<(String, String, i64)> = (0..table.len())
        .map(|i| {
            let row = table.row(i);
            (row.path.as_str().to_string(), row.tag.clone(), row.path_depth)
        })
        .collect();

    assert_eq!(once, vec![("/workspace/project".to_string(), "t".to_string(), 2)]);
    assert_eq!(once, twice);
}

#[test]
fn planning_keeps_each_path_text_once() {
    let paths = vec![
        PathKey::new("/a/b"),
        PathKey::new("/a"),
        PathKey::new("/a/b"),
    ];
    let rows = plan_tag_assignment(&paths, "x").unwrap();
    let texts: Vec<&str> = rows.iter().map(|row| row.path.as_str()).collect();
    assert_eq!(texts, vec!["/a/b", "/a"]);
    assert_eq!(rows[0].path_depth, 2);
    assert_eq!(rows[1].path_depth, 1);
    assert!(rows.iter().all(|row| row.tag == "x"));
}

#[test]
fn different_tags_on_one_path_are_different_rows() {
    let mut table = TagTable::new();
    let path = PathKey::new("/workspace/project");
    assign_tag_to_paths(&mut table, &vec![path.duplicate()], "one").unwrap();
    assign_tag_to_paths(&mut table, &vec![path.duplicate()], "two").unwrap();
    assert_eq!(table.len(), 2);

    let tags = get_tags_for_directory(&table, &path, 0);
    assert_eq!(
        tags.direct_tags(&path),
        Some(&vec!["one".to_string(), "two".to_string()])
    );
}

#[test]
fn round_trip_from_assignment_to_scan() {
    let mut table = TagTable::new();
    let root = PathKey::new("/root/project");
    assign_tag_to_paths(&mut table, &vec![PathKey::new("/root")], "release").unwrap();
    assign_tag_to_paths(&mut table, &vec![PathKey::new("/root/project/src")], "wip").unwrap();

    let snapshot = get_tags_for_directory(&table, &root, 2);
    let mut entries = vec![
        build_file_info(PathKey::new("/root/project"), true, false, 0, None),
        build_file_info(PathKey::new("/root/project/src"), true, false, 0, None),
        build_file_info(PathKey::new("/root/project/src/main.rs"), false, false, 0, None),
    ];
    apply_tags(&root, &mut entries, &snapshot);

    assert!(entries[0].own_tags.is_empty());
    assert_eq!(entries[0].inherited_tags, vec!["release".to_string()]);
    assert_eq!(entries[1].own_tags, vec!["wip".to_string()]);
    assert_eq!(entries[1].inherited_tags, vec!["release".to_string()]);
    assert!(entries[2].own_tags.is_empty());
    assert_eq!(
        entries[2].inherited_tags,
        vec!["release".to_string(), "wip".to_string()]
    );
}

#[test]
fn depth_bound_hides_and_reveals_tagged_levels() {
    let mut table = TagTable::new();
    let root = PathKey::new("/r");
    let levels = [
        "/r/a",
        "/r/a/b",
        "/r/a/b/c",
        "/r/a/b/c/d",
        "/r/a/b/c/d/e",
    ];
    assign_tag_to_paths(&mut table, &vec![root.duplicate()], "t0").unwrap();
    for (i, level) in levels.iter().enumerate() {
        let tag = format!("t{}", i + 1);
        assign_tag_to_paths(&mut table, &vec![PathKey::new(level)], &tag).unwrap();
    }

    let shallow = get_tags_for_directory(&table, &root, 1);
    assert!(shallow.direct_tags(&root).is_some());
    assert!(shallow.direct_tags(&PathKey::new(levels[0])).is_some());
    for level in &levels[1..] {
        assert!(shallow.direct_tags(&PathKey::new(level)).is_none());
    }

    let deep = get_tags_for_directory(&table, &root, 5);
    assert!(deep.direct_tags(&root).is_some());
    for (i, level) in levels.iter().enumerate() {
        assert_eq!(
            deep.direct_tags(&PathKey::new(level)),
            Some(&vec![format!("t{}", i + 1)])
        );
    }

    let none_below = get_tags_for_directory(&table, &root, 0);
    assert!(none_below.direct_tags(&root).is_some());
    assert!(none_below.direct_tags(&PathKey::new(levels[0])).is_none());
}

#[test]
fn sibling_with_common_text_prefix_is_outside_the_range() {
    let mut table = TagTable::new();
    let root = PathKey::new("/work/project");
    assign_tag_to_paths(&mut table, &vec![PathKey::new("/work/project-old/file")], "old").unwrap();
    assign_tag_to_paths(&mut table, &vec![PathKey::new("/work/project/file")], "new").unwrap();

    let tags = get_tags_for_directory(&table, &root, 3);
    assert!(tags.direct_tags(&PathKey::new("/work/project-old/file")).is_none());
    assert_eq!(
        tags.direct_tags(&PathKey::new("/work/project/file")),
        Some(&vec!["new".to_string()])
    );
    assert!(tags.root_ancestor_tags().is_empty());
}

#[test]
fn a_wider_scan_shows_the_same_tags_for_a_shared_path() {
    let mut table = TagTable::new();
    let root = PathKey::new("/r");
    for (path, tag) in [
        ("/", "above"),
        ("/r", "t0"),
        ("/r/a", "t1"),
        ("/r/a", "t1b"),
        ("/r/a/b", "t2"),
        ("/r/a/b/c", "t3"),
    ] {
        assign_tag_to_paths(&mut table, &vec![PathKey::new(path)], tag).unwrap();
    }

    let narrow = get_tags_for_directory(&table, &root, 1);
    let wide = get_tags_for_directory(&table, &root, 3);

    assert_eq!(narrow.root_ancestor_tags(), wide.root_ancestor_tags());
    for path in ["/r", "/r/a"] {
        let key = PathKey::new(path);
        assert!(narrow.direct_tags(&key).is_some());
        assert_eq!(narrow.direct_tags(&key), wide.direct_tags(&key));
    }
    assert_eq!(
        wide.direct_tags(&PathKey::new("/r/a")),
        Some(&vec!["t1".to_string(), "t1b".to_string()])
    );
    for (path, depth) in [("/r/a/b", 3), ("/r/a/b/c", 4)] {
        let key = PathKey::new(path);
        assert!(narrow.direct_tags(&key).is_none());
        assert!(wide.direct_tags(&key).is_some());
        assert_eq!(calculate_path_depth(&key), depth);
    }

    let none_below = get_tags_for_directory(&table, &root, 0);
    assert_eq!(
        none_below.direct_tags(&root),
        Some(&vec!["t0".to_string()])
    );
    assert!(none_below.direct_tags(&PathKey::new("/r/a")).is_none());
}

#[test]
fn a_scan_shows_tags_within_its_depth_and_no_others() {
    let mut table = TagTable::new();
    let root = PathKey::new("/r");
    let levels = ["/r/a", "/r/a/b", "/r/a/b/c", "/r/a/b/c/d", "/r/a/b/c/d/e"];
    for (i, level) in levels.iter().enumerate() {
        let tag = format!("x{}", i + 1);
        assign_tag_to_paths(&mut table, &vec![PathKey::new(level)], &tag).unwrap();
    }

    let shallow = get_tags_for_directory(&table, &root, 1);
    let mut entries = vec![
        build_file_info(PathKey::new("/r"), true, false, 0, None),
        build_file_info(PathKey::new("/r/a"), true, false, 0, None),
    ];
    apply_tags(&root, &mut entries, &shallow);
    assert!(entries[0].own_tags.is_empty() && entries[0].inherited_tags.is_empty());
    assert_eq!(entries[1].own_tags, vec!["x1".to_string()]);
    assert!(entries[1].inherited_tags.is_empty());

    let deep = get_tags_for_directory(&table, &root, 5);
    let mut entries: Vec<_> = std::iter::once("/r")
        .chain(levels.iter().copied())
        .map(|path| build_file_info(PathKey::new(path), true, false, 0, None))
        .collect();
    apply_tags(&root, &mut entries, &deep);
    for i in 1..=5 {
        assert_eq!(entries[i].own_tags, vec![format!("x{}", i)]);
        let above: Vec<String> = (1..i).map(|k| format!("x{}", k)).collect();
        assert_eq!(entries[i].inherited_tags, above);
    }
}

#[test]
fn a_row_is_made_with_the_depth_of_its_path() {
    let row = TagAssignment::new(PathKey::new("/a/b/c"), "t".to_string());
    assert_eq!(row.path.as_str(), "/a/b/c");
    assert_eq!(row.tag, "t");
    assert_eq!(row.path_depth, 3);
    let top = TagAssignment::new(PathKey::new("/"), "t".to_string());
    assert_eq!(top.path_depth, 0);
}
