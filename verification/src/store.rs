//! What is said to a durable store that keeps the relation: the statements
//! that create it, write to it and read from it, and the values that go
//! with the statements of a range query.

use crate::path::{calculate_path_depth, main_separator, parent_text_of, spec_parent};
use crate::path::{stored_depth, PathKey, SegmentView};
use crate::pattern::{descendant_like_pattern, spec_descendant_like_pattern};
use crate::query::{deepest_allowed, depth_limit};
use vstd::prelude::*;
use vstd::string::*;

verus! {

/// Creates the relation where it is missing: one row for each pair of path
/// and tag, with the depth of the path and the time of writing.
pub const SCHEMA_SQL: &'static str =
    "CREATE TABLE IF NOT EXISTS path_tags (path TEXT NOT NULL, tag TEXT NOT NULL, path_depth INTEGER, created_at TIMESTAMP DEFAULT CURRENT_TIMESTAMP, PRIMARY KEY (path, tag))";

/// Writes one row, over the row that its path and tag had before.
pub const ASSIGN_SQL: &'static str =
    "INSERT OR REPLACE INTO path_tags (path, tag, path_depth) VALUES (?1, ?2, ?3)";

/// Reads the rows of the root and of the paths below it: the text of the
/// root, its depth, the greatest depth allowed and the pattern of the
/// descendants go in, in this order.
pub const DESCENDANT_SQL: &'static str =
    "SELECT path, tag, path_depth FROM path_tags WHERE path = ?1 OR (path_depth > ?2 AND path_depth <= ?3 AND path LIKE ?4 ESCAPE '\\')";

/// A list of `count` placeholders, with a comma and a blank between each
/// two.
pub open spec fn spec_placeholders(count: nat) -> Seq<char>
    decreases count,
{
    if count == 0 {
        seq![]
    } else if count == 1 {
        seq!['?']
    } else {
        spec_placeholders((count - 1) as nat) + seq![',', ' ', '?']
    }
}

/// The statement that reads the rows of `count` given paths.
pub open spec fn spec_ancestor_query_sql(count: nat) -> Seq<char> {
    "SELECT path, tag, path_depth FROM path_tags WHERE path IN ("@ + spec_placeholders(count)
        + seq![')']
}

/// Writes the statement that reads the rows of `count` given paths, with
/// one placeholder for each path.
pub fn ancestor_query_sql(count: usize) -> (sql: String)
    ensures
        sql@ == spec_ancestor_query_sql(count as nat),
{
    let mut sql = String::from_str("SELECT path, tag, path_depth FROM path_tags WHERE path IN (");
    let ghost head = sql@;
    let mut i: usize = 0;
    proof {
        assert(head + spec_placeholders(0) =~= head);
    }
    while i < count
        invariant
            0 <= i <= count,
            sql@ == head + spec_placeholders(i as nat),
        decreases count - i,
    {
        if i > 0 {
            sql.push(',');
            sql.push(' ');
        }
        sql.push('?');
        proof {
            if i > 0 {
                assert(head + spec_placeholders((i + 1) as nat) =~= (head + spec_placeholders(
                    i as nat,
                )).push(',').push(' ').push('?'));
            } else {
                assert(head + spec_placeholders(1) =~= head.push('?'));
            }
        }
        i = i + 1;
    }
    sql.push(')');
    proof {
        assert(sql@ =~= head + spec_placeholders(count as nat) + seq![')']);
    }
    sql
}

/// The texts of the paths above a path, nearest first, as the platform
/// writes them, the empty text left out.
pub open spec fn spec_ancestor_texts(text: Seq<char>, path: Seq<SegmentView>) -> Seq<Seq<char>>
    decreases path.len(),
{
    match spec_parent(path) {
        Some(parent) => match parent_text_of(text) {
            Some(parent_text) => {
                let rest = spec_ancestor_texts(parent_text, parent);
                if parent_text.len() == 0 {
                    rest
                } else {
                    seq![parent_text] + rest
                }
            },
            None => seq![],
        },
        None => seq![],
    }
}

/// The texts of the paths above a path, nearest first.
pub fn ancestor_texts(path: &PathKey) -> (texts: Vec<String>)
    ensures
        texts.deep_view() == spec_ancestor_texts(path.text_view(), path@),
{
    let mut texts: Vec<String> = Vec::new();
    let mut current = path.parent();
    let ghost mut text = path.text_view();
    let ghost mut segments = path@;
    proof {
        assert(texts.deep_view() =~= Seq::<Seq<char>>::empty());
    }
    loop
        invariant
            match current {
                Some(key) => spec_parent(segments) == Some(key@) && parent_text_of(text) == Some(
                    key.text_view(),
                ),
                None => spec_parent(segments).is_none() || parent_text_of(text).is_none(),
            },
            texts.deep_view() + spec_ancestor_texts(text, segments) == spec_ancestor_texts(
                path.text_view(),
                path@,
            ),
        ensures
            texts.deep_view() == spec_ancestor_texts(path.text_view(), path@),
        decreases segments.len(),
    {
        match current {
            Some(key) => {
                let ghost before = texts.deep_view();
                if !key.as_str().is_empty() {
                    texts.push(String::from_str(key.as_str()));
                    proof {
                        assert(texts.deep_view() =~= before + seq![key.text_view()]);
                    }
                }
                proof {
                    assert(texts.deep_view() + spec_ancestor_texts(key.text_view(), key@)
                        =~= before + spec_ancestor_texts(text, segments));
                    text = key.text_view();
                    segments = key@;
                }
                current = key.parent();
            },
            None => {
                proof {
                    assert(spec_ancestor_texts(text, segments) =~= Seq::<Seq<char>>::empty());
                    assert(texts.deep_view() + Seq::<Seq<char>>::empty() =~= texts.deep_view());
                }
                break ;
            },
        }
    }
    texts
}

/// The values of a range query: what goes into the statement for the root
/// and the paths below it, and the paths above the root to ask for.
#[derive(Debug)]
pub struct TagQueryPlan {
    pub root_text: String,
    pub root_depth: i64,
    pub max_allowed_depth: i64,
    pub descendant_pattern: String,
    pub ancestor_paths: Vec<String>,
}

/// Whether a plan holds the values of the range query from a root down a
/// number of levels, its pattern written with the given separator.
pub open spec fn is_plan_of(plan: TagQueryPlan, root: PathKey, max_depth: int, sep: char) -> bool {
    &&& plan.root_text@ == root.text_view()
    &&& plan.root_depth == stored_depth(root@)
    &&& plan.max_allowed_depth == depth_limit(stored_depth(root@), max_depth)
    &&& plan.descendant_pattern@ == spec_descendant_like_pattern(root.text_view(), sep)
    &&& plan.ancestor_paths.deep_view() == spec_ancestor_texts(root.text_view(), root@)
}

/// Plans the range query of a scan from a root down a number of levels.
pub fn plan_tag_query(root: &PathKey, max_depth: usize) -> (plan: TagQueryPlan)
    ensures
        is_plan_of(plan, *root, max_depth as int, '/') || is_plan_of(
            plan,
            *root,
            max_depth as int,
            '\\',
        ),
{
    let sep = main_separator();
    let root_depth = calculate_path_depth(root);
    TagQueryPlan {
        root_text: String::from_str(root.as_str()),
        root_depth,
        max_allowed_depth: deepest_allowed(root_depth, max_depth),
        descendant_pattern: descendant_like_pattern(root.as_str(), sep),
        ancestor_paths: ancestor_texts(root),
    }
}

} // verus!
