use tag_crucible::path::{
    calculate_path_depth, collect_path_hierarchy, hierarchy_with_separator, PathKey, PathSegment,
};
use tag_crucible::pattern::{descendant_base, descendant_like_pattern, escape_for_like, text_starts_with};
use tag_crucible::text::{
    compare_text, insert_tag, merge_tags, sorted_tags, trim_text, white_space, TextOrder,
};

#[test]
fn depth_counts_names_and_parent_references() {
    assert_eq!(calculate_path_depth(&PathKey::new("/")), 0);
    assert_eq!(calculate_path_depth(&PathKey::new("")), 0);
    assert_eq!(calculate_path_depth(&PathKey::new("/a")), 1);
    assert_eq!(calculate_path_depth(&PathKey::new("/a/b/c")), 3);
    assert_eq!(calculate_path_depth(&PathKey::new("./a")), 1);
    assert_eq!(calculate_path_depth(&PathKey::new("/a/../b")), 3);
    assert_eq!(calculate_path_depth(&PathKey::new("/a//b/")), 2);
}

#[test]
fn hierarchy_names_root_and_segments() {
    assert_eq!(
        collect_path_hierarchy(&PathKey::new("/root/dir/file.txt")),
        vec!["/", "root", "dir", "file.txt"]
    );
    assert_eq!(collect_path_hierarchy(&PathKey::new("a/./b")), vec!["a", "b"]);
    assert_eq!(collect_path_hierarchy(&PathKey::new("../x")), vec!["..", "x"]);
    assert!(collect_path_hierarchy(&PathKey::new("")).is_empty());
}

#[test]
fn hierarchy_merges_a_prefix_with_the_root_after_it() {
    let key = PathKey::from_segments(
        "C:\\Users\\me",
        vec![
            PathSegment::Prefix("C:".to_string()),
            PathSegment::RootDir,
            PathSegment::Normal("Users".to_string()),
            PathSegment::Normal("me".to_string()),
        ],
    );
    assert_eq!(
        hierarchy_with_separator(&key, '\\'),
        vec!["C:\\", "Users", "me"]
    );

    let bare = PathKey::from_segments(
        "C:notes",
        vec![
            PathSegment::Prefix("C:".to_string()),
            PathSegment::Normal("notes".to_string()),
        ],
    );
    assert_eq!(hierarchy_with_separator(&bare, '\\'), vec!["C:", "notes"]);

    let alone = PathKey::from_segments("C:", vec![PathSegment::Prefix("C:".to_string())]);
    assert_eq!(hierarchy_with_separator(&alone, '\\'), vec!["C:"]);
}

#[test]
fn parent_and_file_name_follow_the_segments() {
    let key = PathKey::new("/a/b.txt");
    assert_eq!(key.file_name().map(|s| s.as_str()), Some("b.txt"));
    let parent = key.parent().unwrap();
    assert_eq!(parent.as_str(), "/a");
    assert!(parent.same_path(&PathKey::new("/a/")));
    assert!(key.is_child_of(&PathKey::new("/a")));
    assert!(!key.is_child_of(&PathKey::new("/")));

    let root = PathKey::new("/");
    assert!(root.parent().is_none());
    assert!(root.file_name().is_none());
    assert!(!root.has_parent());
}

#[test]
fn paths_are_the_same_by_segments_not_by_text() {
    assert!(PathKey::new("/a/b").same_path(&PathKey::new("/a//b/")));
    assert!(PathKey::new("/a/./b").same_path(&PathKey::new("/a/b")));
    assert!(!PathKey::new("/a/b").same_path(&PathKey::new("/a/c")));
    assert!(!PathKey::new("/a/b").same_path(&PathKey::new("a/b")));
    assert!(PathKey::new("/a/b/c").starts_with(&PathKey::new("/a/b")));
    assert!(!PathKey::new("/a/bc").starts_with(&PathKey::new("/a/b")));
    assert!(PathKey::new("/a").is_strict_ancestor_of(&PathKey::new("/a/b")));
    assert!(!PathKey::new("/a").is_strict_ancestor_of(&PathKey::new("/a")));
    assert!(!PathKey::new("").is_strict_ancestor_of(&PathKey::new("a")));
}

#[test]
fn like_pattern_escapes_wildcards() {
    assert_eq!(escape_for_like("plain"), "plain");
    assert_eq!(escape_for_like("50%_done\\x"), "50\\%\\_done\\\\x");
    assert_eq!(escape_for_like(""), "");
    assert_eq!(descendant_base("/root", '/'), "/root/");
    assert_eq!(descendant_base("/", '/'), "/");
    assert_eq!(descendant_base("", '/'), "/");
    assert_eq!(descendant_like_pattern("/my_dir", '/'), "/my\\_dir/%");
    assert_eq!(descendant_like_pattern("C:\\data", '\\'), "C:\\\\data\\\\%");
}

#[test]
fn prefix_test_compares_characters() {
    assert!(text_starts_with("/root/a", "/root/"));
    assert!(text_starts_with("abc", ""));
    assert!(text_starts_with("abc", "abc"));
    assert!(!text_starts_with("ab", "abc"));
    assert!(!text_starts_with("/rootx/a", "/root/"));
    assert!(text_starts_with("héllo", "hé"));
}

#[test]
fn text_order_is_by_code_point() {
    assert_eq!(compare_text("a", "b"), TextOrder::Less);
    assert_eq!(compare_text("b", "a"), TextOrder::Greater);
    assert_eq!(compare_text("same", "same"), TextOrder::Equal);
    assert_eq!(compare_text("ab", "abc"), TextOrder::Less);
    assert_eq!(compare_text("", ""), TextOrder::Equal);
    assert_eq!(compare_text("Z", "a"), TextOrder::Less);
    assert_eq!(compare_text("z", "é"), TextOrder::Less);
    for (a, b) in [("x", "y"), ("é", "z"), ("ab", "a"), ("", "a")] {
        let expected = match a.cmp(b) {
            std::cmp::Ordering::Less => TextOrder::Less,
            std::cmp::Ordering::Equal => TextOrder::Equal,
            std::cmp::Ordering::Greater => TextOrder::Greater,
        };
        assert_eq!(compare_text(a, b), expected);
    }
}

#[test]
fn tag_lists_stay_sorted_without_repeats() {
    let mut tags: Vec<String> = Vec::new();
    insert_tag(&mut tags, "m");
    insert_tag(&mut tags, "a");
    insert_tag(&mut tags, "z");
    insert_tag(&mut tags, "m");
    assert_eq!(tags, vec!["a", "m", "z"]);

    let merged = merge_tags(
        &vec!["b".to_string(), "a".to_string()],
        &vec!["c".to_string(), "a".to_string()],
    );
    assert_eq!(merged, vec!["a", "b", "c"]);
    assert_eq!(
        sorted_tags(&vec!["y".to_string(), "x".to_string(), "y".to_string()]),
        vec!["x", "y"]
    );
}

#[test]
fn white_space_is_what_the_standard_library_takes_for_it() {
    for code in 0..=0x10FFFFu32 {
        if let Some(ch) = char::from_u32(code) {
            assert_eq!(white_space(ch), ch.is_whitespace(), "U+{:04X}", code);
        }
    }
}

#[test]
fn trimming_takes_white_space_off_both_ends() {
    assert_eq!(trim_text(""), "");
    assert_eq!(trim_text("   "), "");
    assert_eq!(trim_text(" \t\n\u{a0}\u{3000}"), "");
    assert_eq!(trim_text("  release \t"), "release");
    assert_eq!(trim_text("a b"), "a b");
    assert_eq!(trim_text("\u{2003}two words\u{2028}"), "two words");
    assert_eq!(trim_text("x"), "x");
    assert_eq!(trim_text(" \u{200b} "), "\u{200b}");
    for sample in ["", " ", "  a  b  ", "\r\nz\u{85}", "\u{1680}q\u{205f}\u{202f}", "é "] {
        assert_eq!(trim_text(sample), sample.trim());
    }
}
