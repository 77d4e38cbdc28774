use tag_crucible::path::{normalize, PathKey};
use tag_crucible::scan::ScanError;
use tag_crucible::store::{
    ancestor_query_sql, ancestor_texts, plan_tag_query, ASSIGN_SQL, DESCENDANT_SQL, SCHEMA_SQL,
};
use tag_crucible::tagging::{validate_assignment, TaggingError};

#[test]
fn ancestor_statement_has_one_placeholder_for_each_path() {
    assert_eq!(
        ancestor_query_sql(0),
        "SELECT path, tag, path_depth FROM path_tags WHERE path IN ()"
    );
    assert_eq!(
        ancestor_query_sql(1),
        "SELECT path, tag, path_depth FROM path_tags WHERE path IN (?)"
    );
    assert_eq!(
        ancestor_query_sql(3),
        "SELECT path, tag, path_depth FROM path_tags WHERE path IN (?, ?, ?)"
    );
}

#[test]
fn statements_name_the_relation() {
    assert!(SCHEMA_SQL.contains("PRIMARY KEY (path, tag)"));
    assert!(ASSIGN_SQL.starts_with("INSERT OR REPLACE INTO path_tags"));
    assert!(DESCENDANT_SQL.contains("path LIKE ?4 ESCAPE '\\'"));
}

#[test]
fn ancestors_are_listed_nearest_first() {
    assert_eq!(
        ancestor_texts(&PathKey::new("/workspace/project/src")),
        vec!["/workspace/project", "/workspace", "/"]
    );
    assert!(ancestor_texts(&PathKey::new("/")).is_empty());
    assert_eq!(ancestor_texts(&PathKey::new("a/b")), vec!["a"]);
    assert!(ancestor_texts(&PathKey::new("")).is_empty());
}

#[test]
fn query_plan_holds_the_values_of_the_statements() {
    let plan = plan_tag_query(&PathKey::new("/work/my_project"), 2);
    assert_eq!(plan.root_text, "/work/my_project");
    assert_eq!(plan.root_depth, 2);
    assert_eq!(plan.max_allowed_depth, 4);
    assert_eq!(plan.descendant_pattern, "/work/my\\_project/%");
    assert_eq!(plan.ancestor_paths, vec!["/work", "/"]);

    let unbounded = plan_tag_query(&PathKey::new("/a"), usize::MAX);
    assert_eq!(unbounded.root_depth, 1);
    assert_eq!(unbounded.max_allowed_depth, i64::MAX);
}

#[test]
fn requests_are_validated_before_paths_are_read() {
    assert!(matches!(validate_assignment(0, "t"), Err(TaggingError::EmptyPaths)));
    assert!(matches!(validate_assignment(1, ""), Err(TaggingError::EmptyTag)));
    assert!(matches!(validate_assignment(0, " \n"), Err(TaggingError::EmptyTag)));
    assert_eq!(validate_assignment(2, " wip ").unwrap(), "wip");
}

#[test]
fn errors_carry_a_message() {
    assert_eq!(TaggingError::EmptyTag.message(), "Tag must not be empty");
    assert_eq!(TaggingError::EmptyPaths.message(), "Paths must not be empty");
    assert_eq!(
        TaggingError::Connection("poisoned".to_string()).message(),
        "Failed to acquire database connection: poisoned"
    );
    assert_eq!(
        TaggingError::ConnectionUnavailable.message(),
        "Database connection is not available"
    );
    assert_eq!(
        TaggingError::Database("locked".to_string()).message(),
        "Database error: locked"
    );

    assert_eq!(
        ScanError::CurrentDir("gone".to_string()).message(),
        "Failed to get current directory: gone"
    );
    assert_eq!(
        ScanError::MissingRoot(PathKey::new("/ro\"ot")).message(),
        "Root path not found in scan results: \"/ro\\\"ot\""
    );
    assert_eq!(ScanError::Io("eio".to_string()).message(), "IO error: eio");
    assert_eq!(
        ScanError::Database("down".to_string()).message(),
        "Database error: down"
    );
}

#[test]
fn a_path_is_known_by_its_canonical_form_or_as_given() {
    let resolved = normalize("link/../x", Some("/real/x"));
    assert_eq!(resolved.as_str(), "/real/x");
    assert!(resolved.same_path(&PathKey::new("/real/x")));

    let given = normalize("/missing/./y", None);
    assert_eq!(given.as_str(), "/missing/./y");
    assert!(given.same_path(&PathKey::new("/missing/y")));
}
