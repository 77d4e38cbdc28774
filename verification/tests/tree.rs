use tag_crucible::path::{collect_path_hierarchy, PathKey};
use tag_crucible::scan::{build_directory_tree, FileInfo, ScanError};

fn file_info(path: &str, is_directory: bool) -> FileInfo {
    let key = PathKey::new(path);
    FileInfo {
        hierarchy: collect_path_hierarchy(&key),
        path: key,
        is_directory,
        is_symlink: false,
        size: 0,
        modified: None,
        own_tags: Vec::new(),
        inherited_tags: Vec::new(),
        windows_tags: Vec::new(),
    }
}

#[test]
fn build_tree_simple() {
    let root = PathKey::new("/root");
    let entries = vec![
        file_info("/root", true),
        file_info("/root/file1.txt", false),
        file_info("/root/file2.txt", false),
    ];

    let tree = build_directory_tree(&root, &entries).unwrap();
    assert_eq!(tree.info.path.as_str(), "/root");
    assert_eq!(tree.children.len(), 2);
    assert_eq!(tree.children[0].info.path.as_str(), "/root/file1.txt");
    assert_eq!(tree.children[1].info.path.as_str(), "/root/file2.txt");
}

#[test]
fn build_tree_root_only() {
    let root = PathKey::new("/root");
    let entries = vec![file_info("/root", true)];

    let tree = build_directory_tree(&root, &entries).unwrap();
    assert_eq!(tree.info.path.as_str(), "/root");
    assert!(tree.children.is_empty());
}

#[test]
fn build_tree_nested() {
    let root = PathKey::new("/root");
    let entries = vec![
        file_info("/root", true),
        file_info("/root/dir1", true),
        file_info("/root/dir1/file.txt", false),
        file_info("/root/dir2", true),
        file_info("/root/dir2/file_a.txt", false),
    ];

    let tree = build_directory_tree(&root, &entries).unwrap();
    assert_eq!(tree.children.len(), 2);

    let dir1 = tree
        .children
        .iter()
        .find(|child| child.info.path.as_str() == "/root/dir1")
        .unwrap();
    assert_eq!(dir1.children.len(), 1);
    assert_eq!(dir1.children[0].info.path.as_str(), "/root/dir1/file.txt");

    let dir2 = tree
        .children
        .iter()
        .find(|child| child.info.path.as_str() == "/root/dir2")
        .unwrap();
    assert_eq!(dir2.children.len(), 1);
    assert_eq!(dir2.children[0].info.path.as_str(), "/root/dir2/file_a.txt");
}

#[test]
fn build_tree_missing_root() {
    let root = PathKey::new("/root");
    let entries = vec![file_info("/other", true)];

    let result = build_directory_tree(&root, &entries);
    assert!(matches!(result, Err(ScanError::MissingRoot(_))));
}

fn names(nodes: &[tag_crucible::scan::DirectoryNode]) -> Vec<&str> {
    nodes.iter().map(|node| node.name.as_str()).collect()
}

#[test]
fn children_stand_directories_first_then_by_name() {
    let root = PathKey::new("/root");
    let entries = vec![
        file_info("/root/zeta.txt", false),
        file_info("/root/beta", true),
        file_info("/root/alpha.txt", false),
        file_info("/root", true),
        file_info("/root/Beta", true),
        file_info("/root/alpha", true),
        file_info("/root/beta/z", false),
        file_info("/root/beta/a", true),
    ];

    let tree = build_directory_tree(&root, &entries).unwrap();
    assert_eq!(tree.name, "root");
    assert_eq!(
        names(&tree.children),
        vec!["Beta", "alpha", "beta", "alpha.txt", "zeta.txt"]
    );
    assert_eq!(names(&tree.children[2].children), vec!["a", "z"]);
    for child in &tree.children {
        let kinds: Vec<bool> = child.children.iter().map(|n| n.info.is_directory).collect();
        let mut sorted = kinds.clone();
        sorted.sort_by(|a, b| b.cmp(a));
        assert_eq!(kinds, sorted);
    }
}

#[test]
fn the_tree_does_not_depend_on_the_order_of_the_entries() {
    let root = PathKey::new("/root");
    let paths = [
        ("/root", true),
        ("/root/a", true),
        ("/root/a/x", false),
        ("/root/b", true),
        ("/root/c.txt", false),
    ];
    let forward: Vec<FileInfo> = paths.iter().map(|(p, d)| file_info(p, *d)).collect();
    let backward: Vec<FileInfo> = paths.iter().rev().map(|(p, d)| file_info(p, *d)).collect();

    let first = build_directory_tree(&root, &forward).unwrap();
    let second = build_directory_tree(&root, &backward).unwrap();

    assert_eq!(names(&first.children), vec!["a", "b", "c.txt"]);
    assert_eq!(names(&first.children), names(&second.children));
    assert_eq!(names(&first.children[0].children), vec!["x"]);
    assert_eq!(names(&second.children[0].children), vec!["x"]);
}

#[test]
fn entries_outside_the_root_are_left_out() {
    let root = PathKey::new("/root");
    let entries = vec![
        file_info("/root", true),
        file_info("/elsewhere/file", false),
        file_info("/root/sub/deep", false),
    ];
    let tree = build_directory_tree(&root, &entries).unwrap();
    assert!(tree.children.is_empty());
}

#[test]
fn the_root_is_found_whatever_its_text() {
    let root = PathKey::new("/root/");
    let entries = vec![file_info("/root", true), file_info("/root/a", false)];
    let tree = build_directory_tree(&root, &entries).unwrap();
    assert_eq!(tree.name, "root");
    assert_eq!(tree.children.len(), 1);

    let top = PathKey::new("/");
    let entries = vec![file_info("/", true), file_info("/etc", true)];
    let tree = build_directory_tree(&top, &entries).unwrap();
    assert_eq!(tree.name, "/");
    assert_eq!(names(&tree.children), vec!["etc"]);
}

#[test]
fn a_path_listed_twice_takes_its_children_each_time() {
    let root = PathKey::new("/root");
    let entries = vec![
        file_info("/root", true),
        file_info("/root/a", true),
        file_info("/root/a", true),
        file_info("/root/a/x", false),
    ];
    let tree = build_directory_tree(&root, &entries).unwrap();
    assert_eq!(names(&tree.children), vec!["a", "a"]);
    assert_eq!(names(&tree.children[0].children), vec!["x"]);
    assert_eq!(names(&tree.children[1].children), vec!["x"]);
}

#[test]
fn many_children_come_out_as_a_stable_sort_would_leave_them() {
    let root = PathKey::new("/big");
    let mut entries = vec![file_info("/big", true)];
    let mut seed: u64 = 12345;
    for i in 0..600 {
        seed = seed
            .wrapping_mul(6364136223846793005)
            .wrapping_add(1442695040888963407);
        let name = format!("n{}", (seed >> 33) % 200);
        let is_directory = (seed >> 20) % 3 == 0;
        let mut info = file_info(&format!("/big/{}", name), is_directory);
        info.size = i;
        entries.push(info);
    }

    let tree = build_directory_tree(&root, &entries).unwrap();
    assert_eq!(tree.children.len(), 600);

    let mut expected: Vec<(bool, String, u64)> = entries[1..]
        .iter()
        .map(|info| {
            (
                info.is_directory,
                info.path.file_name().unwrap().clone(),
                info.size,
            )
        })
        .collect();
    expected.sort_by(|a, b| match (a.0, b.0) {
        (true, false) => std::cmp::Ordering::Less,
        (false, true) => std::cmp::Ordering::Greater,
        _ => a.1.cmp(&b.1),
    });
    let found: Vec<(bool, String, u64)> = tree
        .children
        .iter()
        .map(|node| (node.info.is_directory, node.name.clone(), node.info.size))
        .collect();
    assert_eq!(found, expected);
}
