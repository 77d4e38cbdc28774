//! The tag relation: rows of path, tag and depth, one row for each pair of
//! path text and tag, and the assignment of a tag to paths.

use crate::path::{calculate_path_depth, components_of, stored_depth, PathKey, SegmentView};
use crate::text::{compare_text, spec_trim, trim_text, TextOrder};
use vstd::prelude::*;
use vstd::string::*;

verus! {

/// Why a tag could not be assigned.
#[derive(Debug)]
pub enum TaggingError {
    /// The tag is empty once the white space around it is gone.
    EmptyTag,
    /// No path was given.
    EmptyPaths,
    /// The lock on the store could not be taken; the text says why.
    Connection(String),
    /// The store has not been opened.
    ConnectionUnavailable,
    /// The store refused an operation; the text says why.
    Database(String),
}

impl TaggingError {
    /// The message of the error as a mathematical value.
    pub open spec fn spec_message(&self) -> Seq<char> {
        match self {
            TaggingError::EmptyTag => "Tag must not be empty"@,
            TaggingError::EmptyPaths => "Paths must not be empty"@,
            TaggingError::Connection(reason) => "Failed to acquire database connection: "@
                + reason@,
            TaggingError::ConnectionUnavailable => "Database connection is not available"@,
            TaggingError::Database(reason) => "Database error: "@ + reason@,
        }
    }

    /// The message of the error, for a reader.
    pub fn message(&self) -> (text: String)
        ensures
            text@ == self.spec_message(),
    {
        match self {
            TaggingError::EmptyTag => String::from_str("Tag must not be empty"),
            TaggingError::EmptyPaths => String::from_str("Paths must not be empty"),
            TaggingError::Connection(reason) => {
                let mut text = String::from_str("Failed to acquire database connection: ");
                text.append(reason.as_str());
                text
            },
            TaggingError::ConnectionUnavailable => String::from_str(
                "Database connection is not available",
            ),
            TaggingError::Database(reason) => {
                let mut text = String::from_str("Database error: ");
                text.append(reason.as_str());
                text
            },
        }
    }
}

/// One row of the relation.
#[derive(Debug)]
pub struct TagAssignment {
    pub path: PathKey,
    pub tag: String,
    pub path_depth: i64,
}

/// A row as a mathematical value.
pub ghost struct RowView {
    pub path_text: Seq<char>,
    pub path: Seq<SegmentView>,
    pub tag: Seq<char>,
    pub depth: int,
}

impl View for TagAssignment {
    type V = RowView;

    open spec fn view(&self) -> RowView {
        RowView {
            path_text: self.path.text_view(),
            path: self.path@,
            tag: self.tag@,
            depth: self.path_depth as int,
        }
    }
}

impl DeepView for TagAssignment {
    type V = RowView;

    open spec fn deep_view(&self) -> RowView {
        self@
    }
}

impl TagAssignment {
    /// The row that assigns a tag to a path, with the depth of the path. It
    /// goes with its path text where the path was read off its text.
    pub fn new(path: PathKey, tag: String) -> (row: TagAssignment)
        ensures
            row@ == planned_row(path, tag@),
            path.read_off_text() ==> row_well_read(row@),
    {
        let path_depth = calculate_path_depth(&path);
        TagAssignment { path, tag, path_depth }
    }

    /// A copy of the row.
    pub fn duplicate(&self) -> (copy: TagAssignment)
        ensures
            copy@ == self@,
    {
        TagAssignment {
            path: self.path.duplicate(),
            tag: self.tag.clone(),
            path_depth: self.path_depth,
        }
    }
}

/// Whether a row is the one for the given path text and tag.
pub open spec fn has_key(row: RowView, path_text: Seq<char>, tag: Seq<char>) -> bool {
    row.path_text == path_text && row.tag == tag
}

/// Whether no two rows are for the same path text and tag.
pub open spec fn rows_unique(rows: Seq<RowView>) -> bool {
    forall|i: int, j: int|
        0 <= i < j < rows.len() ==> !has_key(rows[i], rows[j].path_text, rows[j].tag)
}

/// The index of the first row for the given path text and tag.
pub open spec fn key_position(rows: Seq<RowView>, path_text: Seq<char>, tag: Seq<char>) -> Option<
    int,
>
    decreases rows.len(),
{
    if rows.len() == 0 {
        None
    } else {
        match key_position(rows.drop_last(), path_text, tag) {
            Some(i) => Some(i),
            None => if has_key(rows.last(), path_text, tag) {
                Some(rows.len() - 1)
            } else {
                None
            },
        }
    }
}

/// `key_position` finds the first row with the key, and none exactly where
/// no row has it.
pub proof fn lemma_key_position(rows: Seq<RowView>, path_text: Seq<char>, tag: Seq<char>)
    ensures
        match key_position(rows, path_text, tag) {
            Some(i) => 0 <= i < rows.len() && has_key(rows[i], path_text, tag) && forall|k: int|
                0 <= k < i ==> !has_key(rows[k], path_text, tag),
            None => forall|k: int| 0 <= k < rows.len() ==> !has_key(rows[k], path_text, tag),
        },
    decreases rows.len(),
{
    if rows.len() > 0 {
        let front = rows.drop_last();
        lemma_key_position(front, path_text, tag);
        assert(forall|k: int| 0 <= k < front.len() ==> front[k] == rows[k]);
        match key_position(front, path_text, tag) {
            Some(i) => {
                assert(rows[i] == front[i]);
                assert forall|k: int| 0 <= k < i implies !has_key(rows[k], path_text, tag) by {
                    assert(front[k] == rows[k]);
                }
            },
            None => {
                assert forall|k: int| 0 <= k < rows.len() - 1 implies !has_key(
                    rows[k],
                    path_text,
                    tag,
                ) by {
                    assert(front[k] == rows[k]);
                }
            },
        }
    }
}

/// The relation after one row is written: the row takes the place of the
/// row with its path text and tag, or goes to the end where there is none.
pub open spec fn spec_upsert(rows: Seq<RowView>, row: RowView) -> Seq<RowView> {
    match key_position(rows, row.path_text, row.tag) {
        Some(i) => rows.update(i, row),
        None => rows.push(row),
    }
}

/// The relation after several rows are written, one after the other.
pub open spec fn spec_upsert_all(rows: Seq<RowView>, written: Seq<RowView>) -> Seq<RowView>
    decreases written.len(),
{
    if written.len() == 0 {
        rows
    } else {
        spec_upsert(spec_upsert_all(rows, written.drop_last()), written.last())
    }
}

/// Writing a row keeps the rows apart: no pair of path text and tag stands
/// twice.
pub proof fn lemma_upsert_unique(rows: Seq<RowView>, row: RowView)
    requires
        rows_unique(rows),
    ensures
        rows_unique(spec_upsert(rows, row)),
{
    lemma_key_position(rows, row.path_text, row.tag);
    let after = spec_upsert(rows, row);
    match key_position(rows, row.path_text, row.tag) {
        Some(p) => {
            assert forall|i: int, j: int| 0 <= i < j < after.len() implies !has_key(
                after[i],
                after[j].path_text,
                after[j].tag,
            ) by {
                if i == p {
                    assert(!has_key(rows[p], rows[j].path_text, rows[j].tag));
                } else if j == p {
                    assert(!has_key(rows[i], rows[p].path_text, rows[p].tag));
                } else {
                    assert(!has_key(rows[i], rows[j].path_text, rows[j].tag));
                }
            }
        },
        None => {
            assert forall|i: int, j: int| 0 <= i < j < after.len() implies !has_key(
                after[i],
                after[j].path_text,
                after[j].tag,
            ) by {
                if j < rows.len() {
                    assert(!has_key(rows[i], rows[j].path_text, rows[j].tag));
                }
            }
        },
    }
}

/// Whether a row goes with its path text: its segments are those read off
/// the text, and its depth is the depth of those segments.
pub open spec fn row_well_read(row: RowView) -> bool {
    row.path == components_of(row.path_text) && row.depth == stored_depth(row.path)
}

/// Whether every row of a relation goes with its path text.
pub open spec fn rows_well_read(rows: Seq<RowView>) -> bool {
    forall|i: int| 0 <= i < rows.len() ==> row_well_read(#[trigger] rows[i])
}

/// Whether every one of the paths was read off its text.
pub open spec fn keys_read_off_text(paths: Seq<PathKey>) -> bool {
    forall|k: int| 0 <= k < paths.len() ==> (#[trigger] paths[k]).read_off_text()
}

/// Writing a row that goes with its text into a relation of such rows
/// leaves a relation of such rows.
pub proof fn lemma_upsert_well_read(rows: Seq<RowView>, row: RowView)
    requires
        rows_well_read(rows),
        row_well_read(row),
    ensures
        rows_well_read(spec_upsert(rows, row)),
{
    lemma_key_position(rows, row.path_text, row.tag);
    let after = spec_upsert(rows, row);
    assert forall|i: int| 0 <= i < after.len() implies row_well_read(#[trigger] after[i]) by {
        if after[i] != row {
            assert(after[i] == rows[i]);
        }
    }
}

/// Writing rows that go with their texts into a relation of such rows
/// leaves a relation of such rows.
pub proof fn lemma_upsert_all_well_read(rows: Seq<RowView>, written: Seq<RowView>)
    requires
        rows_well_read(rows),
        rows_well_read(written),
    ensures
        rows_well_read(spec_upsert_all(rows, written)),
    decreases written.len(),
{
    if written.len() > 0 {
        let front = written.drop_last();
        assert forall|i: int| 0 <= i < front.len() implies row_well_read(#[trigger] front[i]) by {
            assert(front[i] == written[i]);
        }
        lemma_upsert_all_well_read(rows, front);
        assert(row_well_read(written[written.len() - 1]));
        lemma_upsert_well_read(spec_upsert_all(rows, front), written.last());
    }
}

/// The relation, held in memory.
#[derive(Debug)]
pub struct TagTable {
    rows: Vec<TagAssignment>,
}

impl View for TagTable {
    type V = Seq<RowView>;

    closed spec fn view(&self) -> Seq<RowView> {
        self.rows.deep_view()
    }
}

impl TagTable {
    /// Whether the relation is well read: every row goes with its path
    /// text, its segments read off the text and its depth that of the
    /// segments. A relation is well read as long as only such rows are
    /// written to it.
    pub open spec fn well_read(&self) -> bool {
        rows_well_read(self@)
    }

    /// The empty relation.
    pub fn new() -> (table: TagTable)
        ensures
            table@ == Seq::<RowView>::empty(),
            rows_unique(table@),
            table.well_read(),
    {
        let rows: Vec<TagAssignment> = Vec::new();
        proof {
            assert(rows.deep_view() =~= Seq::<RowView>::empty());
        }
        TagTable { rows }
    }

    /// The number of rows.
    pub fn len(&self) -> (n: usize)
        ensures
            n == self@.len(),
    {
        self.rows.len()
    }

    /// The row at an index.
    pub fn row(&self, index: usize) -> (row: &TagAssignment)
        requires
            index < self@.len(),
        ensures
            row@ == self@[index as int],
    {
        &self.rows[index]
    }

    /// Writes one row: over the row with its path text and tag, or at the
    /// end where there is none.
    #[verifier::loop_isolation(false)]
    pub fn upsert(&mut self, row: TagAssignment)
        ensures
            final(self)@ == spec_upsert(old(self)@, row@),
            rows_unique(old(self)@) ==> rows_unique(final(self)@),
            old(self).well_read() && row_well_read(row@) ==> final(self).well_read(),
    {
        let ghost before = self.rows.deep_view();
        proof {
            lemma_key_position(before, row@.path_text, row@.tag);
            if rows_unique(before) {
                lemma_upsert_unique(before, row@);
            }
            if rows_well_read(before) && row_well_read(row@) {
                lemma_upsert_well_read(before, row@);
            }
        }
        let mut i: usize = 0;
        while i < self.rows.len()
            invariant
                0 <= i <= self.rows.len(),
                self.rows.deep_view() == before,
                forall|k: int| 0 <= k < i ==> !has_key(before[k], row@.path_text, row@.tag),
            decreases self.rows.len() - i,
        {
            proof {
                assert(before[i as int] == self.rows[i as int]@);
            }
            let same_path = matches!(
                compare_text(self.rows[i].path.as_str(), row.path.as_str()),
                TextOrder::Equal
            );
            let same_tag = matches!(
                compare_text(self.rows[i].tag.as_str(), row.tag.as_str()),
                TextOrder::Equal
            );
            if same_path && same_tag {
                let ghost view = row@;
                self.rows.set(i, row);
                proof {
                    assert(self.rows.deep_view() =~= before.update(i as int, view));
                }
                return ;
            }
            i = i + 1;
        }
        let ghost view = row@;
        self.rows.push(row);
        proof {
            assert(self.rows.deep_view() =~= before.push(view));
        }
    }

    /// Writes several rows, one after the other.
    pub fn upsert_all(&mut self, rows: Vec<TagAssignment>)
        ensures
            final(self)@ == spec_upsert_all(old(self)@, rows.deep_view()),
            rows_unique(old(self)@) ==> rows_unique(final(self)@),
            old(self).well_read() && rows_well_read(rows.deep_view()) ==> final(self).well_read(),
    {
        let ghost start = self@;
        let ghost written = rows.deep_view();
        proof {
            if rows_well_read(start) && rows_well_read(written) {
                lemma_upsert_all_well_read(start, written);
            }
        }
        let mut i: usize = 0;
        proof {
            assert(written.take(0) =~= Seq::<RowView>::empty());
        }
        while i < rows.len()
            invariant
                0 <= i <= rows.len(),
                written == rows.deep_view(),
                self@ == spec_upsert_all(start, written.take(i as int)),
                rows_unique(start) ==> rows_unique(self@),
            decreases rows.len() - i,
        {
            proof {
                assert(written.take(i + 1).drop_last() =~= written.take(i as int));
                assert(written.take(i + 1).last() == rows[i as int]@);
            }
            self.upsert(rows[i].duplicate());
            i = i + 1;
        }
        proof {
            assert(written.take(rows.len() as int) =~= written);
        }
    }
}

/// The row that assigns a tag to a path.
pub open spec fn planned_row(path: PathKey, tag: Seq<char>) -> RowView {
    RowView { path_text: path.text_view(), path: path@, tag, depth: stored_depth(path@) }
}

/// Whether one of the first `upto` paths has the given text.
pub open spec fn text_seen(paths: Seq<PathKey>, upto: int, text: Seq<char>) -> bool {
    exists|k: int| 0 <= k < upto && 0 <= k < paths.len() && (#[trigger] paths[k]).text_view() == text
}

/// The rows that assign a tag to paths: one row for each text, where the
/// text first stands, with the depth of the path.
pub open spec fn spec_plan_rows(paths: Seq<PathKey>, tag: Seq<char>) -> Seq<RowView>
    decreases paths.len(),
{
    if paths.len() == 0 {
        seq![]
    } else {
        let rest = spec_plan_rows(paths.drop_last(), tag);
        if text_seen(paths, paths.len() - 1, paths.last().text_view()) {
            rest
        } else {
            rest.push(planned_row(paths.last(), tag))
        }
    }
}

/// The rows planned for paths that were read off their texts go with their
/// path texts.
pub proof fn lemma_planned_rows_well_read(paths: Seq<PathKey>, tag: Seq<char>)
    requires
        keys_read_off_text(paths),
    ensures
        rows_well_read(spec_plan_rows(paths, tag)),
    decreases paths.len(),
{
    if paths.len() > 0 {
        let front = paths.drop_last();
        assert forall|k: int| 0 <= k < front.len() implies (#[trigger] front[k]).read_off_text() by {
            assert(front[k] == paths[k]);
        }
        lemma_planned_rows_well_read(front, tag);
        let rest = spec_plan_rows(front, tag);
        let plan = spec_plan_rows(paths, tag);
        assert(paths[paths.len() - 1].read_off_text());
        assert forall|i: int| 0 <= i < plan.len() implies row_well_read(#[trigger] plan[i]) by {
            if i < rest.len() {
                assert(plan[i] == rest[i]);
            }
        }
    }
}

/// Whether an outcome of planning is right: the empty tag is refused, then
/// the empty list of paths, and else the rows are those of `spec_plan_rows`.
pub open spec fn plan_matches(
    outcome: Result<Vec<TagAssignment>, TaggingError>,
    paths: Seq<PathKey>,
    tag: Seq<char>,
) -> bool {
    match outcome {
        Ok(rows) => tag.len() > 0 && paths.len() > 0 && rows.deep_view() == spec_plan_rows(
            paths,
            tag,
        ),
        Err(TaggingError::EmptyTag) => tag.len() == 0,
        Err(TaggingError::EmptyPaths) => tag.len() > 0 && paths.len() == 0,
        Err(_) => false,
    }
}

/// Plans the assignment of a tag that has been trimmed already. The empty
/// tag is refused, then the empty list of paths; else there is one row for
/// each distinct path text.
pub fn plan_trimmed_assignment(paths: &Vec<PathKey>, tag: &str) -> (outcome: Result<
    Vec<TagAssignment>,
    TaggingError,
>)
    ensures
        plan_matches(outcome, paths@, tag@),
{
    if tag.is_empty() {
        return Err(TaggingError::EmptyTag);
    }
    if paths.len() == 0 {
        return Err(TaggingError::EmptyPaths);
    }
    let mut rows: Vec<TagAssignment> = Vec::new();
    let mut i: usize = 0;
    proof {
        assert(paths@.take(0) =~= Seq::<PathKey>::empty());
        assert(rows.deep_view() =~= Seq::<RowView>::empty());
    }
    while i < paths.len()
        invariant
            0 <= i <= paths.len(),
            rows.deep_view() == spec_plan_rows(paths@.take(i as int), tag@),
        decreases paths.len() - i,
    {
        let ghost head = paths@.take(i + 1);
        proof {
            assert(head.drop_last() =~= paths@.take(i as int));
            assert(head.last() == paths[i as int]);
        }
        let mut seen = false;
        let mut j: usize = 0;
        while j < i
            invariant
                0 <= j <= i < paths.len(),
                seen == text_seen(paths@, j as int, paths[i as int].text_view()),
            decreases i - j,
        {
            if matches!(compare_text(paths[j].as_str(), paths[i].as_str()), TextOrder::Equal) {
                seen = true;
            }
            j = j + 1;
        }
        proof {
            if seen {
                let k = choose|k: int|
                    0 <= k < i && 0 <= k < paths@.len() && (#[trigger] paths@[k]).text_view()
                        == paths[i as int].text_view();
                assert(head[k] == paths@[k]);
            }
            if text_seen(head, i as int, paths[i as int].text_view()) {
                let k = choose|k: int|
                    0 <= k < i && 0 <= k < head.len() && (#[trigger] head[k]).text_view()
                        == paths[i as int].text_view();
                assert(head[k] == paths@[k]);
            }
        }
        if !seen {
            let ghost before = rows.deep_view();
            let row = TagAssignment {
                path: paths[i].duplicate(),
                tag: String::from_str(tag),
                path_depth: calculate_path_depth(&paths[i]),
            };
            rows.push(row);
            proof {
                assert(rows.deep_view() =~= before.push(planned_row(paths[i as int], tag@)));
            }
        }
        i = i + 1;
    }
    proof {
        assert(paths@.take(paths.len() as int) =~= paths@);
    }
    Ok(rows)
}

/// Whether the outcome of validating a request is right: the empty tag is
/// refused, then a request without paths, and else the trimmed tag is
/// handed back.
pub open spec fn validation_matches(
    outcome: Result<String, TaggingError>,
    path_count: int,
    trimmed: Seq<char>,
) -> bool {
    match outcome {
        Ok(tag) => trimmed.len() > 0 && path_count > 0 && tag@ == trimmed,
        Err(TaggingError::EmptyTag) => trimmed.len() == 0,
        Err(TaggingError::EmptyPaths) => trimmed.len() > 0 && path_count == 0,
        Err(_) => false,
    }
}

/// Validates a tag that has been trimmed already, for a request with the
/// given number of paths.
pub fn validate_trimmed(path_count: usize, trimmed: String) -> (outcome: Result<String, TaggingError>)
    ensures
        validation_matches(outcome, path_count as int, trimmed@),
{
    if trimmed.as_str().is_empty() {
        Err(TaggingError::EmptyTag)
    } else if path_count == 0 {
        Err(TaggingError::EmptyPaths)
    } else {
        Ok(trimmed)
    }
}

/// Validates a request to assign a tag to a number of paths, before any
/// path is looked at: the tag is trimmed, and handed back where the
/// request may go on.
pub fn validate_assignment(path_count: usize, tag: &str) -> (outcome: Result<String, TaggingError>)
    ensures
        validation_matches(outcome, path_count as int, spec_trim(tag@)),
{
    validate_trimmed(path_count, trim_text(tag))
}

/// Plans the assignment of a tag to paths: the tag is trimmed, then
/// planned as `plan_trimmed_assignment` does.
pub fn plan_tag_assignment(paths: &Vec<PathKey>, tag: &str) -> (outcome: Result<
    Vec<TagAssignment>,
    TaggingError,
>)
    ensures
        plan_matches(outcome, paths@, spec_trim(tag@)),
{
    let trimmed = trim_text(tag);
    plan_trimmed_assignment(paths, trimmed.as_str())
}

/// Assigns a tag to paths. The tag is trimmed; the empty tag is refused,
/// then the empty list of paths, and the relation stays as it was. Else one
/// row is written for each distinct path text, over the row that the pair
/// had before.
pub fn assign_tag_to_paths(table: &mut TagTable, paths: &Vec<PathKey>, tag: &str) -> (result:
    Result<(), TaggingError>)
    ensures
        match result {
            Ok(()) => {
                &&& spec_trim(tag@).len() > 0
                &&& paths.len() > 0
                &&& final(table)@ == spec_upsert_all(
                    old(table)@,
                    spec_plan_rows(paths@, spec_trim(tag@)),
                )
            },
            Err(TaggingError::EmptyTag) => spec_trim(tag@).len() == 0 && final(table)@ == old(
                table,
            )@,
            Err(TaggingError::EmptyPaths) => spec_trim(tag@).len() > 0 && paths.len() == 0
                && final(table)@ == old(table)@,
            Err(_) => false,
        },
        rows_unique(old(table)@) ==> rows_unique(final(table)@),
        old(table).well_read() && keys_read_off_text(paths@) ==> final(table).well_read(),
{
    proof {
        if keys_read_off_text(paths@) {
            lemma_planned_rows_well_read(paths@, spec_trim(tag@));
        }
    }
    match plan_tag_assignment(paths, tag) {
        Ok(rows) => {
            table.upsert_all(rows);
            Ok(())
        },
        Err(error) => Err(error),
    }
}

} // verus!
