//! The range query of a scan: the tags of the root and of the paths below
//! it down to a depth, path by path, and the tags of the paths above the
//! root, all together.

use crate::index::{lemma_places, places_of, LabelIndex};
use crate::path::{calculate_path_depth, main_separator, spec_strict_ancestor, stored_depth};
use crate::path::{spec_tail_label, PathKey, SegmentView};
use crate::pattern::{descendant_base, spec_descendant_base, text_starts_with};
use crate::tagging::{RowView, TagTable};
use crate::text::{compare_text, insert_tag, is_tag_set, tags_sorted, TextOrder};
use vstd::prelude::*;
use vstd::string::*;

verus! {

/// A path with the tags assigned to it.
#[derive(Debug)]
pub struct TaggedPath {
    pub path: PathKey,
    pub tags: Vec<String>,
}

/// A tagged path as a mathematical value.
pub ghost struct TaggedPathView {
    pub path: Seq<SegmentView>,
    pub tags: Seq<Seq<char>>,
}

impl View for TaggedPath {
    type V = TaggedPathView;

    open spec fn view(&self) -> TaggedPathView {
        TaggedPathView { path: self.path@, tags: self.tags.deep_view() }
    }
}

impl DeepView for TaggedPath {
    type V = TaggedPathView;

    open spec fn deep_view(&self) -> TaggedPathView {
        self@
    }
}

/// The map that a list of tagged paths stands for: each path with its
/// tags, a later entry for a path taking the place of an earlier one.
pub open spec fn direct_map(pairs: Seq<TaggedPathView>) -> Map<Seq<SegmentView>, Seq<Seq<char>>>
    decreases pairs.len(),
{
    if pairs.len() == 0 {
        Map::empty()
    } else {
        direct_map(pairs.drop_last()).insert(pairs.last().path, pairs.last().tags)
    }
}

/// Whether a list of tagged paths names a path.
pub open spec fn names_path(pairs: Seq<TaggedPathView>, path: Seq<SegmentView>) -> bool {
    exists|k: int| 0 <= k < pairs.len() && (#[trigger] pairs[k]).path == path
}

/// A path is in the map exactly where the list names it.
pub proof fn lemma_direct_map_names(pairs: Seq<TaggedPathView>, path: Seq<SegmentView>)
    ensures
        direct_map(pairs).dom().contains(path) <==> names_path(pairs, path),
    decreases pairs.len(),
{
    if pairs.len() > 0 {
        let front = pairs.drop_last();
        lemma_direct_map_names(front, path);
        if pairs.last().path == path {
            assert(pairs[pairs.len() - 1].path == path);
        } else {
            if names_path(front, path) {
                let k = choose|k: int| 0 <= k < front.len() && (#[trigger] front[k]).path == path;
                assert(pairs[k].path == path);
            }
            if names_path(pairs, path) {
                let k = choose|k: int| 0 <= k < pairs.len() && (#[trigger] pairs[k]).path == path;
                assert(front[k].path == path);
            }
        }
    }
}

/// A path goes with the tags of the last entry that names it.
pub proof fn lemma_direct_map_last(pairs: Seq<TaggedPathView>, path: Seq<SegmentView>, k: int)
    requires
        0 <= k < pairs.len(),
        pairs[k].path == path,
        forall|j: int| k < j < pairs.len() ==> (#[trigger] pairs[j]).path != path,
    ensures
        direct_map(pairs).dom().contains(path),
        direct_map(pairs)[path] == pairs[k].tags,
    decreases pairs.len(),
{
    if k < pairs.len() - 1 {
        let front = pairs.drop_last();
        assert(pairs[pairs.len() - 1].path != path);
        assert(front[k] == pairs[k]);
        assert forall|j: int| k < j < front.len() implies (#[trigger] front[j]).path != path by {
            assert(pairs[j].path != path);
        }
        lemma_direct_map_last(front, path, k);
    }
}

/// The labels under which tagged paths are sought: for each the text of
/// its last segment.
pub open spec fn pair_labels(pairs: Seq<TaggedPathView>) -> Seq<Seq<char>> {
    pairs.map_values(|pair: TaggedPathView| spec_tail_label(pair.path))
}

/// What a scan learns of the tags in its range.
#[derive(Debug)]
pub struct DirectoryTagSnapshot {
    direct_tags: Vec<TaggedPath>,
    root_ancestor_tags: Vec<String>,
}

impl DirectoryTagSnapshot {
    /// The tags assigned to the paths of the range, path by path.
    pub closed spec fn direct(&self) -> Map<Seq<SegmentView>, Seq<Seq<char>>> {
        direct_map(self.direct_tags.deep_view())
    }

    /// The tags assigned to the paths above the root.
    pub closed spec fn root_ancestor(&self) -> Seq<Seq<char>> {
        self.root_ancestor_tags.deep_view()
    }

    /// A snapshot with the given tags from above the root and no path of
    /// the range tagged.
    pub fn new(root_ancestor_tags: Vec<String>) -> (snapshot: DirectoryTagSnapshot)
        ensures
            snapshot.direct() == Map::<Seq<SegmentView>, Seq<Seq<char>>>::empty(),
            snapshot.root_ancestor() == root_ancestor_tags.deep_view(),
    {
        let direct_tags: Vec<TaggedPath> = Vec::new();
        proof {
            assert(direct_tags.deep_view() =~= Seq::<TaggedPathView>::empty());
        }
        DirectoryTagSnapshot { direct_tags, root_ancestor_tags }
    }

    /// Records the tags of a path, in place of any recorded for it before.
    pub fn insert_direct(&mut self, path: PathKey, tags: Vec<String>)
        ensures
            final(self).direct() == old(self).direct().insert(path@, tags.deep_view()),
            final(self).root_ancestor() == old(self).root_ancestor(),
    {
        let ghost before = self.direct_tags.deep_view();
        let pair = TaggedPath { path, tags };
        self.direct_tags.push(pair);
        proof {
            assert(self.direct_tags.deep_view() =~= before.push(pair@));
            assert(self.direct_tags.deep_view().drop_last() =~= before);
        }
    }

    /// The tags recorded for a path.
    pub fn direct_tags(&self, path: &PathKey) -> (found: Option<&Vec<String>>)
        ensures
            match found {
                Some(tags) => self.direct().dom().contains(path@) && tags.deep_view()
                    == self.direct()[path@],
                None => !self.direct().dom().contains(path@),
            },
    {
        let ghost pairs = self.direct_tags.deep_view();
        let mut i: usize = self.direct_tags.len();
        while i > 0
            invariant
                0 <= i <= self.direct_tags.len(),
                pairs == self.direct_tags.deep_view(),
                forall|j: int| i <= j < pairs.len() ==> (#[trigger] pairs[j]).path != path@,
            decreases i,
        {
            i = i - 1;
            proof {
                assert(pairs[i as int] == self.direct_tags[i as int]@);
            }
            if self.direct_tags[i].path.same_path(path) {
                proof {
                    lemma_direct_map_last(pairs, path@, i as int);
                }
                return Some(&self.direct_tags[i].tags);
            }
        }
        proof {
            lemma_direct_map_names(pairs, path@);
        }
        None
    }

    /// The labels under which the recorded paths are sought: for each the
    /// text of its last segment.
    pub closed spec fn labels(&self) -> Seq<Seq<char>> {
        pair_labels(self.direct_tags.deep_view())
    }

    /// An index over the recorded paths, by the text of their last
    /// segments.
    pub fn build_index(&self) -> (index: LabelIndex)
        ensures
            index.wf(),
            index.labels() == self.labels(),
    {
        let ghost pairs = self.direct_tags.deep_view();
        let mut labels: Vec<String> = Vec::new();
        let mut i: usize = 0;
        while i < self.direct_tags.len()
            invariant
                0 <= i <= self.direct_tags.len(),
                pairs == self.direct_tags.deep_view(),
                labels.len() == i,
                forall|k: int| 0 <= k < i ==> labels[k]@ == spec_tail_label(pairs[k].path),
            decreases self.direct_tags.len() - i,
        {
            proof {
                assert(pairs[i as int] == self.direct_tags[i as int]@);
            }
            labels.push(self.direct_tags[i].path.tail_label());
            i = i + 1;
        }
        proof {
            assert(labels.deep_view() =~= pair_labels(pairs));
        }
        LabelIndex::build(&labels)
    }

    /// The tags recorded for a path, found through an index built over
    /// this snapshot.
    pub fn direct_tags_by(&self, index: &LabelIndex, path: &PathKey) -> (found: Option<
        &Vec<String>,
    >)
        requires
            index.wf(),
            index.labels() == self.labels(),
        ensures
            match found {
                Some(tags) => self.direct().dom().contains(path@) && tags.deep_view()
                    == self.direct()[path@],
                None => !self.direct().dom().contains(path@),
            },
    {
        let ghost pairs = self.direct_tags.deep_view();
        let label = path.tail_label();
        let candidates = index.places(label.as_str());
        let ghost places = candidates@.map_values(|j: usize| j as int);
        proof {
            lemma_places(pair_labels(pairs), label@, 0);
        }
        let mut k: usize = candidates.len();
        while k > 0
            invariant
                0 <= k <= candidates.len(),
                pairs == self.direct_tags.deep_view(),
                places == candidates@.map_values(|j: usize| j as int),
                places == places_of(pair_labels(pairs), label@),
                label@ == spec_tail_label(path@),
                forall|m: int| 0 <= m < places.len() ==> 0 <= #[trigger] places[m] < pairs.len(),
                forall|m: int| k <= m < places.len() ==> pairs[#[trigger] places[m]].path != path@,
            decreases k,
        {
            k = k - 1;
            let at = candidates[k];
            proof {
                assert(places[k as int] == at as int);
                assert(pairs[at as int] == self.direct_tags[at as int]@);
            }
            if self.direct_tags[at].path.same_path(path) {
                proof {
                    lemma_places(pair_labels(pairs), label@, 0);
                    assert forall|j: int| at < j < pairs.len() implies (#[trigger] pairs[j]).path
                        != path@ by {
                        if pairs[j].path == path@ {
                            assert(pair_labels(pairs)[j] == label@);
                            assert(places.contains(j));
                            let m = choose|m: int| 0 <= m < places.len() && places[m] == j;
                            if m <= k {
                                if m < k {
                                    assert(places[m] < places[k as int]);
                                }
                            } else {
                                assert(pairs[places[m]].path != path@);
                            }
                        }
                    }
                    lemma_direct_map_last(pairs, path@, at as int);
                }
                return Some(&self.direct_tags[at].tags);
            }
        }
        proof {
            lemma_direct_map_names(pairs, path@);
            if names_path(pairs, path@) {
                let j = choose|j: int| 0 <= j < pairs.len() && (#[trigger] pairs[j]).path == path@;
                assert(pair_labels(pairs)[j] == label@);
                assert(places.contains(j));
                let m = choose|m: int| 0 <= m < places.len() && places[m] == j;
                assert(pairs[places[m]].path != path@);
            }
        }
        None
    }

    /// The tags assigned to the paths above the root.
    pub fn root_ancestor_tags(&self) -> (tags: &Vec<String>)
        ensures
            tags.deep_view() == self.root_ancestor(),
    {
        &self.root_ancestor_tags
    }

    /// Whether no path of the range is tagged.
    pub fn is_empty(&self) -> (empty: bool)
        ensures
            empty == (forall|path: Seq<SegmentView>| !self.direct().dom().contains(path)),
    {
        let ghost pairs = self.direct_tags.deep_view();
        proof {
            if pairs.len() > 0 {
                lemma_direct_map_names(pairs, pairs[0].path);
                assert(self.direct().dom().contains(pairs[0].path));
            } else {
                assert forall|path: Seq<SegmentView>| !self.direct().dom().contains(path) by {
                    lemma_direct_map_names(pairs, path);
                }
            }
        }
        self.direct_tags.len() == 0
    }
}

/// The smaller of two numbers.
pub open spec fn spec_min(a: int, b: int) -> int {
    if a <= b {
        a
    } else {
        b
    }
}

/// The greatest depth that a scan reaches: the depth of the root and the
/// number of levels below it, as far as 64 signed bits hold the sum.
pub open spec fn depth_limit(root_depth: int, max_depth: int) -> int {
    spec_min(root_depth + spec_min(max_depth, i64::MAX as int), i64::MAX as int)
}

/// Whether a row lies in the range of a scan: its path text is the text of
/// the root, or its depth lies below the root's and within the limit and
/// its path text begins with the root's text and one separator.
pub open spec fn row_selected(
    row: RowView,
    root_text: Seq<char>,
    root_depth: int,
    max_depth: int,
    sep: char,
) -> bool {
    ||| row.path_text == root_text
    ||| {
        &&& root_depth < row.depth <= depth_limit(root_depth, max_depth)
        &&& spec_descendant_base(root_text, sep).is_prefix_of(row.path_text)
    }
}

/// The range of a scan: the text and depth of its root, the number of
/// levels below the root, and the separator of the platform.
pub ghost struct ScanRange {
    pub root_text: Seq<char>,
    pub root: Seq<SegmentView>,
    pub max_depth: int,
    pub sep: char,
}

/// Whether a row lies in a range.
pub open spec fn in_range(row: RowView, range: ScanRange) -> bool {
    row_selected(row, range.root_text, stored_depth(range.root), range.max_depth, range.sep)
}

/// Whether a row in the range is for the given path.
pub open spec fn path_selected(rows: Seq<RowView>, range: ScanRange, path: Seq<SegmentView>) -> bool
    decreases rows.len(),
{
    if rows.len() == 0 {
        false
    } else {
        path_selected(rows.drop_last(), range, path) || (in_range(rows.last(), range)
            && rows.last().path == path)
    }
}

/// The tags of the rows in the range that are for the given path.
pub open spec fn direct_tag_set(rows: Seq<RowView>, range: ScanRange, path: Seq<SegmentView>) -> Set<
    Seq<char>,
>
    decreases rows.len(),
{
    if rows.len() == 0 {
        Set::empty()
    } else if in_range(rows.last(), range) && rows.last().path == path {
        direct_tag_set(rows.drop_last(), range, path).insert(rows.last().tag)
    } else {
        direct_tag_set(rows.drop_last(), range, path)
    }
}

/// The tags of the rows whose paths lie above the root.
pub open spec fn ancestor_tag_set(rows: Seq<RowView>, root: Seq<SegmentView>) -> Set<Seq<char>>
    decreases rows.len(),
{
    if rows.len() == 0 {
        Set::empty()
    } else if spec_strict_ancestor(rows.last().path, root) {
        ancestor_tag_set(rows.drop_last(), root).insert(rows.last().tag)
    } else {
        ancestor_tag_set(rows.drop_last(), root)
    }
}

/// A tag is among those of a path exactly where a row in the range assigns
/// it to the path; a path is selected exactly where some row in the range
/// is for it.
pub proof fn lemma_direct_tag_set(
    rows: Seq<RowView>,
    range: ScanRange,
    path: Seq<SegmentView>,
    tag: Seq<char>,
)
    ensures
        direct_tag_set(rows, range, path).contains(tag) <==> exists|i: int|
            0 <= i < rows.len() && in_range(#[trigger] rows[i], range) && rows[i].path == path
                && rows[i].tag == tag,
        path_selected(rows, range, path) <==> exists|i: int|
            0 <= i < rows.len() && in_range(#[trigger] rows[i], range) && rows[i].path == path,
        !path_selected(rows, range, path) ==> direct_tag_set(rows, range, path) == Set::<
            Seq<char>,
        >::empty(),
        direct_tag_set(rows, range, path).finite(),
    decreases rows.len(),
{
    if rows.len() > 0 {
        let front = rows.drop_last();
        lemma_direct_tag_set(front, range, path, tag);
        assert(forall|i: int| 0 <= i < front.len() ==> front[i] == rows[i]);
        if direct_tag_set(front, range, path).contains(tag) {
            let i = choose|i: int|
                0 <= i < front.len() && in_range(#[trigger] front[i], range) && front[i].path
                    == path && front[i].tag == tag;
            assert(in_range(rows[i], range) && rows[i].path == path && rows[i].tag == tag);
        }
        if path_selected(front, range, path) {
            let i = choose|i: int|
                0 <= i < front.len() && in_range(#[trigger] front[i], range) && front[i].path
                    == path;
            assert(in_range(rows[i], range) && rows[i].path == path);
        }
        if exists|i: int|
            0 <= i < rows.len() && in_range(#[trigger] rows[i], range) && rows[i].path == path
                && rows[i].tag == tag {
            let i = choose|i: int|
                0 <= i < rows.len() && in_range(#[trigger] rows[i], range) && rows[i].path == path
                    && rows[i].tag == tag;
            if i < front.len() {
                assert(in_range(front[i], range) && front[i].path == path && front[i].tag == tag);
            }
        }
        if exists|i: int|
            0 <= i < rows.len() && in_range(#[trigger] rows[i], range) && rows[i].path == path {
            let i = choose|i: int|
                0 <= i < rows.len() && in_range(#[trigger] rows[i], range) && rows[i].path == path;
            if i < front.len() {
                assert(in_range(front[i], range) && front[i].path == path);
            }
        }
    }
}

/// A tag is among those from above the root exactly where a row assigns it
/// to a path that lies above the root.
pub proof fn lemma_ancestor_tag_set(rows: Seq<RowView>, root: Seq<SegmentView>, tag: Seq<char>)
    ensures
        ancestor_tag_set(rows, root).contains(tag) <==> exists|i: int|
            0 <= i < rows.len() && spec_strict_ancestor((#[trigger] rows[i]).path, root)
                && rows[i].tag == tag,
    decreases rows.len(),
{
    if rows.len() > 0 {
        let front = rows.drop_last();
        lemma_ancestor_tag_set(front, root, tag);
        assert(forall|i: int| 0 <= i < front.len() ==> front[i] == rows[i]);
        if ancestor_tag_set(front, root).contains(tag) {
            let i = choose|i: int|
                0 <= i < front.len() && spec_strict_ancestor((#[trigger] front[i]).path, root)
                    && front[i].tag == tag;
            assert(spec_strict_ancestor(rows[i].path, root) && rows[i].tag == tag);
        }
        if exists|i: int|
            0 <= i < rows.len() && spec_strict_ancestor((#[trigger] rows[i]).path, root)
                && rows[i].tag == tag {
            let i = choose|i: int|
                0 <= i < rows.len() && spec_strict_ancestor((#[trigger] rows[i]).path, root)
                    && rows[i].tag == tag;
            if i < front.len() {
                assert(spec_strict_ancestor(front[i].path, root) && front[i].tag == tag);
            }
        }
    }
}

/// Whether a map of direct tags and a list of tags from above the root
/// answer the range query over the rows: the map names exactly the paths
/// of the rows in the range, each with the sorted list of the tags that
/// those rows assign to it, and the list holds, sorted, the tags of all
/// rows whose paths lie above the root.
pub open spec fn is_snapshot_of(
    direct: Map<Seq<SegmentView>, Seq<Seq<char>>>,
    root_ancestor: Seq<Seq<char>>,
    rows: Seq<RowView>,
    range: ScanRange,
) -> bool {
    &&& forall|path: Seq<SegmentView>| #[trigger]
        direct.dom().contains(path) <==> path_selected(rows, range, path)
    &&& forall|path: Seq<SegmentView>| #[trigger]
        direct.dom().contains(path) ==> is_tag_set(direct[path], direct_tag_set(rows, range, path))
    &&& is_tag_set(root_ancestor, ancestor_tag_set(rows, range.root))
}

/// Whether a list of tagged paths holds what the rows in the range say:
/// no path twice, each path with the sorted tags of its rows, and every
/// path of a row in the range.
pub open spec fn pairs_match(pairs: Seq<TaggedPathView>, rows: Seq<RowView>, range: ScanRange) -> bool {
    &&& forall|a: int, b: int|
        0 <= a < b < pairs.len() ==> (#[trigger] pairs[a]).path != (#[trigger] pairs[b]).path
    &&& forall|a: int|
        0 <= a < pairs.len() ==> is_tag_set(
            (#[trigger] pairs[a]).tags,
            direct_tag_set(rows, range, pairs[a].path),
        ) && path_selected(rows, range, pairs[a].path)
    &&& forall|path: Seq<SegmentView>| #[trigger]
        path_selected(rows, range, path) ==> names_path(pairs, path)
}

/// A row outside the range leaves the list as it is.
proof fn lemma_pairs_skip(pairs: Seq<TaggedPathView>, rows: Seq<RowView>, row: RowView, range: ScanRange)
    requires
        pairs_match(pairs, rows, range),
        !in_range(row, range),
    ensures
        pairs_match(pairs, rows.push(row), range),
{
    let next = rows.push(row);
    assert(next.drop_last() =~= rows);
    assert forall|a: int| 0 <= a < pairs.len() implies is_tag_set(
        (#[trigger] pairs[a]).tags,
        direct_tag_set(next, range, pairs[a].path),
    ) && path_selected(next, range, pairs[a].path) by {}
    assert forall|path: Seq<SegmentView>| #[trigger]
        path_selected(next, range, path) implies names_path(pairs, path) by {
        assert(path_selected(rows, range, path));
    }
}

/// A row in the range whose path the list names adds its tag there.
proof fn lemma_pairs_update(
    pairs: Seq<TaggedPathView>,
    rows: Seq<RowView>,
    row: RowView,
    range: ScanRange,
    at: int,
    tags: Seq<Seq<char>>,
)
    requires
        pairs_match(pairs, rows, range),
        in_range(row, range),
        0 <= at < pairs.len(),
        pairs[at].path == row.path,
        is_tag_set(tags, pairs[at].tags.to_set().insert(row.tag)),
    ensures
        pairs_match(
            pairs.update(at, TaggedPathView { path: row.path, tags }),
            rows.push(row),
            range,
        ),
{
    let next = rows.push(row);
    let after = pairs.update(at, TaggedPathView { path: row.path, tags });
    assert(next.drop_last() =~= rows);
    assert forall|a: int, b: int| 0 <= a < b < after.len() implies (#[trigger] after[a]).path != (
    #[trigger] after[b]).path by {
        assert(pairs[a].path != pairs[b].path);
    }
    assert forall|a: int| 0 <= a < after.len() implies is_tag_set(
        (#[trigger] after[a]).tags,
        direct_tag_set(next, range, after[a].path),
    ) && path_selected(next, range, after[a].path) by {
        assert(path_selected(rows, range, pairs[a].path));
        if a != at {
            if a < at {
                assert(pairs[a].path != pairs[at].path);
            } else {
                assert(pairs[at].path != pairs[a].path);
            }
            assert(is_tag_set(pairs[a].tags, direct_tag_set(rows, range, pairs[a].path)));
        } else {
            assert(is_tag_set(pairs[at].tags, direct_tag_set(rows, range, pairs[at].path)));
        }
    }
    assert forall|path: Seq<SegmentView>| #[trigger]
        path_selected(next, range, path) implies names_path(after, path) by {
        if path == row.path {
            assert(after[at].path == path);
        } else {
            assert(path_selected(rows, range, path));
            let k = choose|k: int| 0 <= k < pairs.len() && (#[trigger] pairs[k]).path == path;
            assert(after[k].path == path);
        }
    }
}

/// A row in the range whose path the list does not name adds the path.
proof fn lemma_pairs_push(
    pairs: Seq<TaggedPathView>,
    rows: Seq<RowView>,
    row: RowView,
    range: ScanRange,
    tags: Seq<Seq<char>>,
)
    requires
        pairs_match(pairs, rows, range),
        in_range(row, range),
        !names_path(pairs, row.path),
        is_tag_set(tags, Set::<Seq<char>>::empty().insert(row.tag)),
    ensures
        pairs_match(pairs.push(TaggedPathView { path: row.path, tags }), rows.push(row), range),
{
    let next = rows.push(row);
    let after = pairs.push(TaggedPathView { path: row.path, tags });
    assert(next.drop_last() =~= rows);
    lemma_direct_tag_set(rows, range, row.path, row.tag);
    assert(!path_selected(rows, range, row.path));
    assert forall|a: int, b: int| 0 <= a < b < after.len() implies (#[trigger] after[a]).path != (
    #[trigger] after[b]).path by {
        if b < pairs.len() {
            assert(pairs[a].path != pairs[b].path);
        } else {
            assert(pairs[a].path != row.path);
        }
    }
    assert forall|a: int| 0 <= a < after.len() implies is_tag_set(
        (#[trigger] after[a]).tags,
        direct_tag_set(next, range, after[a].path),
    ) && path_selected(next, range, after[a].path) by {
        if a < pairs.len() {
            assert(pairs[a].path != row.path);
            assert(is_tag_set(pairs[a].tags, direct_tag_set(rows, range, pairs[a].path)));
            assert(path_selected(rows, range, pairs[a].path));
        }
    }
    assert forall|path: Seq<SegmentView>| #[trigger]
        path_selected(next, range, path) implies names_path(after, path) by {
        if path == row.path {
            assert(after[pairs.len() as int].path == path);
        } else {
            assert(path_selected(rows, range, path));
            let k = choose|k: int| 0 <= k < pairs.len() && (#[trigger] pairs[k]).path == path;
            assert(after[k].path == path);
        }
    }
}

/// A list that matches the rows stands for the map that answers the query.
proof fn lemma_pairs_answer(
    pairs: Seq<TaggedPathView>,
    above: Seq<Seq<char>>,
    rows: Seq<RowView>,
    range: ScanRange,
)
    requires
        pairs_match(pairs, rows, range),
        is_tag_set(above, ancestor_tag_set(rows, range.root)),
    ensures
        is_snapshot_of(direct_map(pairs), above, rows, range),
{
    let direct = direct_map(pairs);
    assert forall|path: Seq<SegmentView>| #[trigger]
        direct.dom().contains(path) <==> path_selected(rows, range, path) by {
        lemma_direct_map_names(pairs, path);
        if names_path(pairs, path) {
            let k = choose|k: int| 0 <= k < pairs.len() && (#[trigger] pairs[k]).path == path;
            assert(path_selected(rows, range, pairs[k].path));
        }
    }
    assert forall|path: Seq<SegmentView>| #[trigger] direct.dom().contains(path) implies is_tag_set(
        direct[path],
        direct_tag_set(rows, range, path),
    ) by {
        lemma_direct_map_names(pairs, path);
        let k = choose|k: int| 0 <= k < pairs.len() && (#[trigger] pairs[k]).path == path;
        assert forall|j: int| k < j < pairs.len() implies (#[trigger] pairs[j]).path != path by {
            assert(pairs[k].path != pairs[j].path);
        }
        lemma_direct_map_last(pairs, path, k);
        assert(is_tag_set(pairs[k].tags, direct_tag_set(rows, range, pairs[k].path)));
    }
}

/// The greatest depth that a scan from a root of the given depth reaches.
pub fn deepest_allowed(root_depth: i64, max_depth: usize) -> (limit: i64)
    requires
        root_depth >= 0,
    ensures
        limit == depth_limit(root_depth as int, max_depth as int),
{
    let wide: u64 = max_depth as u64;
    let offset: i64 = if wide > 0x7fff_ffff_ffff_ffff {
        0x7fff_ffff_ffff_ffff
    } else {
        wide as i64
    };
    match root_depth.checked_add(offset) {
        Some(sum) => sum,
        None => 0x7fff_ffff_ffff_ffff,
    }
}

/// Answers the range query of a scan over the relation, with the given
/// separator: the tags of the rows in the range, path by path, and the tags
/// of the rows whose paths lie above the root.
pub fn tags_in_range(table: &TagTable, root: &PathKey, max_depth: usize, sep: char) -> (snapshot:
    DirectoryTagSnapshot)
    ensures
        is_snapshot_of(
            snapshot.direct(),
            snapshot.root_ancestor(),
            table@,
            ScanRange { root_text: root.text_view(), root: root@, max_depth: max_depth as int, sep },
        ),
{
    let ghost range = ScanRange {
        root_text: root.text_view(),
        root: root@,
        max_depth: max_depth as int,
        sep,
    };
    let ghost rows = table@;
    let root_depth = calculate_path_depth(root);
    let limit = deepest_allowed(root_depth, max_depth);
    let base = descendant_base(root.as_str(), sep);
    let mut pairs: Vec<TaggedPath> = Vec::new();
    let mut above: Vec<String> = Vec::new();
    let mut i: usize = 0;
    proof {
        assert(rows.take(0) =~= Seq::<RowView>::empty());
        assert(pairs.deep_view() =~= Seq::<TaggedPathView>::empty());
        assert(above.deep_view().to_set() =~= Set::<Seq<char>>::empty());
    }
    while i < table.len()
        invariant
            0 <= i <= rows.len(),
            rows == table@,
            range == (ScanRange {
                root_text: root.text_view(),
                root: root@,
                max_depth: max_depth as int,
                sep,
            }),
            root_depth == stored_depth(root@),
            limit == depth_limit(root_depth as int, max_depth as int),
            base@ == spec_descendant_base(root.text_view(), sep),
            pairs_match(pairs.deep_view(), rows.take(i as int), range),
            is_tag_set(above.deep_view(), ancestor_tag_set(rows.take(i as int), root@)),
        decreases rows.len() - i,
    {
        let row = table.row(i);
        let ghost seen = rows.take(i as int);
        let ghost before = pairs.deep_view();
        proof {
            assert(rows.take(i + 1) =~= seen.push(row@));
            assert(seen.push(row@).drop_last() =~= seen);
        }
        let is_root = matches!(compare_text(row.path.as_str(), root.as_str()), TextOrder::Equal);
        let selected = is_root || (row.path_depth > root_depth && row.path_depth <= limit
            && text_starts_with(row.path.as_str(), base.as_str()));
        assert(selected == in_range(row@, range));
        if selected {
            let mut at: usize = 0;
            let mut found = false;
            while at < pairs.len()
                invariant_except_break
                    !found,
                    forall|k: int| 0 <= k < at ==> (#[trigger] before[k]).path != row@.path,
                invariant
                    0 <= at <= pairs.len(),
                    pairs.deep_view() == before,
                ensures
                    0 <= at <= pairs.len(),
                    pairs.deep_view() == before,
                    found ==> at < pairs.len() && before[at as int].path == row@.path,
                    !found ==> !names_path(before, row@.path),
                decreases pairs.len() - at,
            {
                proof {
                    assert(before[at as int] == pairs[at as int]@);
                }
                if pairs[at].path.same_path(&row.path) {
                    found = true;
                    break ;
                }
                at = at + 1;
            }
            if found {
                proof {
                    assert(before[at as int] == pairs[at as int]@);
                    assert(tags_sorted(before[at as int].tags));
                }
                insert_tag(&mut pairs[at].tags, row.tag.as_str());
                proof {
                    let tags = pairs[at as int].tags.deep_view();
                    lemma_pairs_update(before, seen, row@, range, at as int, tags);
                    assert(pairs.deep_view() =~= before.update(
                        at as int,
                        TaggedPathView { path: row@.path, tags },
                    ));
                }
            } else {
                let mut tags: Vec<String> = Vec::new();
                proof {
                    assert(tags.deep_view().to_set() =~= Set::<Seq<char>>::empty());
                }
                insert_tag(&mut tags, row.tag.as_str());
                let pair = TaggedPath { path: row.path.duplicate(), tags };
                proof {
                    lemma_pairs_push(before, seen, row@, range, pair@.tags);
                }
                pairs.push(pair);
                proof {
                    assert(pairs.deep_view() =~= before.push(
                        TaggedPathView { path: row@.path, tags: pair@.tags },
                    ));
                }
            }
        } else {
            proof {
                lemma_pairs_skip(before, seen, row@, range);
            }
        }
        if row.path.is_strict_ancestor_of(root) {
            insert_tag(&mut above, row.tag.as_str());
        }
        i = i + 1;
    }
    proof {
        assert(rows.take(rows.len() as int) =~= rows);
        lemma_pairs_answer(pairs.deep_view(), above.deep_view(), rows, range);
    }
    DirectoryTagSnapshot { direct_tags: pairs, root_ancestor_tags: above }
}

/// Answers the range query of a scan over the relation, with the
/// separator of the platform.
pub fn get_tags_for_directory(table: &TagTable, root: &PathKey, max_depth: usize) -> (snapshot:
    DirectoryTagSnapshot)
    ensures
        is_snapshot_of(
            snapshot.direct(),
            snapshot.root_ancestor(),
            table@,
            ScanRange {
                root_text: root.text_view(),
                root: root@,
                max_depth: max_depth as int,
                sep: '/',
            },
        ) || is_snapshot_of(
            snapshot.direct(),
            snapshot.root_ancestor(),
            table@,
            ScanRange {
                root_text: root.text_view(),
                root: root@,
                max_depth: max_depth as int,
                sep: '\\',
            },
        ),
{
    let sep = main_separator();
    tags_in_range(table, root, max_depth, sep)
}

} // verus!
