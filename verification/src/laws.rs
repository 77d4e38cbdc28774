//! What holds of the library as a whole: of assigning and then scanning, of
//! assigning twice, of inheritance along a chain of ancestors, of the depth
//! to which a scan sees tags and of what a wider scan adds, of the one
//! answer that a range query has, and of the tree not depending on the
//! order in which the entries came.

use crate::path::{components_of, spec_parent, spec_starts_with, spec_strict_ancestor};
use crate::path::{stored_depth, PathKey, SegmentView};
use crate::query::{ancestor_tag_set, lemma_ancestor_tag_set, lemma_direct_tag_set, ScanRange};
use crate::query::{depth_limit, direct_tag_set, in_range, is_snapshot_of, path_selected};
use crate::resolve::{lemma_resolved_tags, spec_inherited, spec_own_tags, spec_resolved};
use crate::scan::{all_children, is_child_entry, is_child_tree, lemma_path_len_bounded};
use crate::scan::{lemma_sort_order_free, node_le, order_tells_apart, spec_children};
use crate::scan::{spec_children_upto, spec_node_name, spec_nodes_of, spec_tree, tree_budget};
use crate::scan::{FileInfoView, NodeView};
use crate::tagging::{has_key, key_position, lemma_key_position, planned_row, rows_unique};
use crate::tagging::{lemma_upsert_unique, spec_plan_rows, spec_upsert, spec_upsert_all, text_seen};
use crate::tagging::{row_well_read, rows_well_read, RowView};
use crate::text::{is_tag_set, lemma_tag_set_unique, lemma_text_lt_total};
use vstd::prelude::*;

verus! {

/// Whether no two of the rows are for the same path text and tag.
pub open spec fn keys_distinct(written: Seq<RowView>) -> bool {
    forall|i: int, j: int|
        0 <= i < j < written.len() ==> !has_key(written[i], written[j].path_text, written[j].tag)
}

/// Whether a row stands in a relation where its key is first found.
pub open spec fn stands_at_key(rows: Seq<RowView>, row: RowView) -> bool {
    match key_position(rows, row.path_text, row.tag) {
        Some(p) => rows[p] == row,
        None => false,
    }
}

/// Whether the first row with the given key is the same in two relations.
pub open spec fn same_at_key(
    before: Seq<RowView>,
    after: Seq<RowView>,
    path_text: Seq<char>,
    tag: Seq<char>,
) -> bool {
    &&& key_position(after, path_text, tag) == key_position(before, path_text, tag)
    &&& match key_position(before, path_text, tag) {
        Some(p) => after[p] == before[p],
        None => true,
    }
}

/// After a row is written it stands where its key is first found, and
/// every other key is found where it was, with the row it had.
pub proof fn lemma_upsert_position(
    rows: Seq<RowView>,
    row: RowView,
    path_text: Seq<char>,
    tag: Seq<char>,
)
    ensures
        has_key(row, path_text, tag) ==> stands_at_key(spec_upsert(rows, row), row),
        !has_key(row, path_text, tag) ==> same_at_key(
            rows,
            spec_upsert(rows, row),
            path_text,
            tag,
        ),
{
    let after = spec_upsert(rows, row);
    lemma_key_position(rows, row.path_text, row.tag);
    lemma_key_position(rows, path_text, tag);
    lemma_key_position(after, path_text, tag);
    match key_position(rows, row.path_text, row.tag) {
        Some(at) => {
            assert forall|k: int| 0 <= k < rows.len() implies has_key(
                #[trigger] after[k],
                path_text,
                tag,
            ) == has_key(rows[k], path_text, tag) by {}
            if has_key(row, path_text, tag) {
                let p = key_position(after, path_text, tag)->0;
                assert(has_key(after[at], path_text, tag));
                assert(has_key(rows[p], path_text, tag));
                assert(p == at);
            } else {
                match key_position(rows, path_text, tag) {
                    Some(q) => {
                        assert(has_key(after[q], path_text, tag));
                        let p = key_position(after, path_text, tag)->0;
                        assert(has_key(rows[p], path_text, tag));
                        assert(p == q);
                    },
                    None => {
                        if key_position(after, path_text, tag) is Some {
                            let p = key_position(after, path_text, tag)->0;
                            assert(has_key(rows[p], path_text, tag));
                        }
                    },
                }
            }
        },
        None => {
            assert forall|k: int| 0 <= k < rows.len() implies #[trigger] after[k] == rows[k] by {}
            assert(after[rows.len() as int] == row);
            if has_key(row, path_text, tag) {
                assert(has_key(after[rows.len() as int], path_text, tag));
                let p = key_position(after, path_text, tag)->0;
                if p < rows.len() {
                    assert(has_key(rows[p], path_text, tag));
                }
            } else {
                match key_position(rows, path_text, tag) {
                    Some(q) => {
                        assert(has_key(after[q], path_text, tag));
                        let p = key_position(after, path_text, tag)->0;
                        assert(has_key(rows[p], path_text, tag));
                        assert(p == q);
                    },
                    None => {
                        if key_position(after, path_text, tag) is Some {
                            let p = key_position(after, path_text, tag)->0;
                            if p < rows.len() {
                                assert(has_key(rows[p], path_text, tag));
                            }
                        }
                    },
                }
            }
        },
    }
}

/// After rows with distinct keys are written, each of them stands where
/// its key is found.
pub proof fn lemma_written_stands(rows: Seq<RowView>, written: Seq<RowView>, i: int)
    requires
        keys_distinct(written),
        0 <= i < written.len(),
    ensures
        stands_at_key(spec_upsert_all(rows, written), written[i]),
    decreases written.len(),
{
    let front = written.drop_last();
    let middle = spec_upsert_all(rows, front);
    lemma_upsert_position(middle, written.last(), written[i].path_text, written[i].tag);
    if i < written.len() - 1 {
        assert(front[i] == written[i]);
        assert(!has_key(written[i], written.last().path_text, written.last().tag));
        assert forall|a: int, b: int| 0 <= a < b < front.len() implies !has_key(
            front[a],
            front[b].path_text,
            front[b].tag,
        ) by {
            assert(!has_key(written[a], written[b].path_text, written[b].tag));
        }
        lemma_written_stands(rows, front, i);
    }
}

/// Writing rows that stand in the relation already changes nothing.
pub proof fn lemma_rewrite_changes_nothing(rows: Seq<RowView>, written: Seq<RowView>, upto: int)
    requires
        0 <= upto <= written.len(),
        forall|i: int| 0 <= i < written.len() ==> stands_at_key(rows, #[trigger] written[i]),
    ensures
        spec_upsert_all(rows, written.take(upto)) == rows,
    decreases upto,
{
    if upto > 0 {
        lemma_rewrite_changes_nothing(rows, written, upto - 1);
        assert(written.take(upto).drop_last() =~= written.take(upto - 1));
        assert(written.take(upto).last() == written[upto - 1]);
        let row = written[upto - 1];
        let p = key_position(rows, row.path_text, row.tag)->0;
        lemma_key_position(rows, row.path_text, row.tag);
        assert(rows.update(p, row) =~= rows);
    }
}

/// The rows planned for a list of paths are for distinct path texts, each
/// the text of one of the paths.
pub proof fn lemma_plan_rows_distinct(paths: Seq<PathKey>, tag: Seq<char>)
    ensures
        keys_distinct(spec_plan_rows(paths, tag)),
        forall|i: int|
            0 <= i < spec_plan_rows(paths, tag).len() ==> text_seen(
                paths,
                paths.len() as int,
                (#[trigger] spec_plan_rows(paths, tag)[i]).path_text,
            ),
    decreases paths.len(),
{
    if paths.len() > 0 {
        let front = paths.drop_last();
        lemma_plan_rows_distinct(front, tag);
        let rest = spec_plan_rows(front, tag);
        let plan = spec_plan_rows(paths, tag);
        assert forall|i: int| 0 <= i < rest.len() implies text_seen(
            paths,
            paths.len() - 1,
            (#[trigger] rest[i]).path_text,
        ) by {
            let k = choose|k: int|
                0 <= k < front.len() && 0 <= k < front.len() && (#[trigger] front[k]).text_view()
                    == rest[i].path_text;
            assert(paths[k] == front[k]);
        }
        assert forall|i: int| 0 <= i < plan.len() implies text_seen(
            paths,
            paths.len() as int,
            (#[trigger] plan[i]).path_text,
        ) by {
            if i < rest.len() {
                assert(plan[i] == rest[i]);
                assert(text_seen(paths, paths.len() - 1, rest[i].path_text));
                let k = choose|k: int|
                    0 <= k < paths.len() - 1 && 0 <= k < paths.len() && (#[trigger] paths[k]).text_view()
                        == rest[i].path_text;
                assert(paths[k].text_view() == plan[i].path_text);
            } else {
                assert(paths[paths.len() - 1].text_view() == plan[i].path_text);
            }
        }
        if !text_seen(paths, paths.len() - 1, paths.last().text_view()) {
            assert forall|a: int, b: int| 0 <= a < b < plan.len() implies !has_key(
                plan[a],
                plan[b].path_text,
                plan[b].tag,
            ) by {
                if b == rest.len() {
                    assert(plan[a] == rest[a]);
                    assert(text_seen(paths, paths.len() - 1, rest[a].path_text));
                } else {
                    assert(!has_key(rest[a], rest[b].path_text, rest[b].tag));
                }
            }
        }
    }
}

/// Assigning a tag to paths twice leaves the relation as assigning it once
/// does: the second time every row is written over itself. Where no pair
/// of path text and tag stood twice before, none does after.
pub proof fn lemma_assign_twice(rows: Seq<RowView>, paths: Seq<PathKey>, tag: Seq<char>)
    ensures
        spec_upsert_all(
            spec_upsert_all(rows, spec_plan_rows(paths, tag)),
            spec_plan_rows(paths, tag),
        ) == spec_upsert_all(rows, spec_plan_rows(paths, tag)),
        rows_unique(rows) ==> rows_unique(spec_upsert_all(rows, spec_plan_rows(paths, tag))),
{
    let plan = spec_plan_rows(paths, tag);
    let once = spec_upsert_all(rows, plan);
    lemma_plan_rows_distinct(paths, tag);
    assert forall|i: int| 0 <= i < plan.len() implies stands_at_key(once, #[trigger] plan[i]) by {
        lemma_written_stands(rows, plan, i);
    }
    lemma_rewrite_changes_nothing(once, plan, plan.len() as int);
    assert(plan.take(plan.len() as int) =~= plan);
    if rows_unique(rows) {
        lemma_upsert_all_unique(rows, plan);
    }
}

/// Writing rows keeps the keys of a relation apart.
pub proof fn lemma_upsert_all_unique(rows: Seq<RowView>, written: Seq<RowView>)
    requires
        rows_unique(rows),
    ensures
        rows_unique(spec_upsert_all(rows, written)),
    decreases written.len(),
{
    if written.len() > 0 {
        lemma_upsert_all_unique(rows, written.drop_last());
        lemma_upsert_unique(spec_upsert_all(rows, written.drop_last()), written.last());
    }
}

/// Whether `path` lies below `ancestor` with every path between them
/// scanned: its parent was scanned, and is the ancestor or lies below it
/// in the same way.
pub open spec fn scanned_below(
    scanned: Seq<Seq<SegmentView>>,
    ancestor: Seq<SegmentView>,
    path: Seq<SegmentView>,
) -> bool
    decreases path.len(),
{
    match spec_parent(path) {
        Some(parent) => scanned.contains(parent) && (parent == ancestor || scanned_below(
            scanned,
            ancestor,
            parent,
        )),
        None => false,
    }
}

/// A path below an ancestor has more segments than the ancestor, and
/// begins with them.
pub proof fn lemma_scanned_below_longer(
    scanned: Seq<Seq<SegmentView>>,
    ancestor: Seq<SegmentView>,
    path: Seq<SegmentView>,
)
    requires
        scanned_below(scanned, ancestor, path),
    ensures
        path.len() > ancestor.len(),
        spec_starts_with(path, ancestor),
    decreases path.len(),
{
    let parent = spec_parent(path)->0;
    if parent != ancestor {
        lemma_scanned_below_longer(scanned, ancestor, parent);
        assert(path.subrange(0, ancestor.len() as int) =~= parent.subrange(
            0,
            ancestor.len() as int,
        ));
    } else {
        assert(path.subrange(0, ancestor.len() as int) =~= ancestor);
    }
}

/// A tag that a path owns is inherited by every path below it, as far as
/// the paths between them were scanned and the path is the root or lies
/// below the root.
pub proof fn lemma_owned_tag_descends(
    scanned: Seq<Seq<SegmentView>>,
    root: Seq<SegmentView>,
    direct: Map<Seq<SegmentView>, Seq<Seq<char>>>,
    root_ancestor: Seq<Seq<char>>,
    owner: Seq<SegmentView>,
    path: Seq<SegmentView>,
    tag: Seq<char>,
)
    requires
        spec_starts_with(owner, root),
        spec_own_tags(direct, owner).contains(tag),
        scanned_below(scanned, owner, path),
    ensures
        spec_inherited(scanned, root, direct, root_ancestor, path).contains(tag),
    decreases path.len(),
{
    lemma_scanned_below_longer(scanned, owner, path);
    let parent = spec_parent(path)->0;
    assert(path != root);
    if parent != owner {
        lemma_owned_tag_descends(scanned, root, direct, root_ancestor, owner, parent, tag);
    }
}

/// After a tag is assigned to a path, a scan whose range holds the path
/// shows the tag among the tags that the path owns, and among the tags
/// that every scanned path below it inherits. The range holds the path
/// where the row of the assignment lies in it and the path is the root or
/// lies below the root.
pub proof fn lemma_round_trip(
    rows: Seq<RowView>,
    path: PathKey,
    tag: Seq<char>,
    range: ScanRange,
    direct: Map<Seq<SegmentView>, Seq<Seq<char>>>,
    root_ancestor: Seq<Seq<char>>,
    scanned: Seq<Seq<SegmentView>>,
    below: Seq<SegmentView>,
)
    requires
        in_range(planned_row(path, tag), range),
        spec_starts_with(path@, range.root),
        is_snapshot_of(
            direct,
            root_ancestor,
            spec_upsert_all(rows, spec_plan_rows(seq![path], tag)),
            range,
        ),
    ensures
        spec_own_tags(direct, path@).contains(tag),
        scanned_below(scanned, path@, below) ==> spec_inherited(
            scanned,
            range.root,
            direct,
            root_ancestor,
            below,
        ).contains(tag),
{
    let row = planned_row(path, tag);
    let paths = seq![path];
    assert(paths.drop_last() =~= Seq::<PathKey>::empty());
    assert(spec_plan_rows(paths.drop_last(), tag) =~= Seq::<RowView>::empty());
    assert(!text_seen(paths, 0, path.text_view()));
    let plan = spec_plan_rows(paths, tag);
    assert(plan =~= seq![row]);
    assert(plan.drop_last() =~= Seq::<RowView>::empty());
    let after = spec_upsert_all(rows, plan);
    assert(spec_upsert_all(rows, plan.drop_last()) == rows);
    assert(plan.last() == row);
    assert(after == spec_upsert(rows, row));
    lemma_upsert_position(rows, row, row.path_text, row.tag);
    lemma_key_position(after, row.path_text, row.tag);
    let p = key_position(after, row.path_text, row.tag)->0;
    assert(after[p] == row);
    lemma_direct_tag_set(after, range, path@, tag);
    assert(path_selected(after, range, path@));
    assert(direct.dom().contains(path@));
    assert(direct[path@].to_set().contains(tag));
    if scanned_below(scanned, path@, below) {
        lemma_owned_tag_descends(scanned, range.root, direct, root_ancestor, path@, below, tag);
    }
}

/// What a path inherits, every scanned path below it inherits too.
pub proof fn lemma_inherited_descends(
    scanned: Seq<Seq<SegmentView>>,
    root: Seq<SegmentView>,
    direct: Map<Seq<SegmentView>, Seq<Seq<char>>>,
    root_ancestor: Seq<Seq<char>>,
    upper: Seq<SegmentView>,
    path: Seq<SegmentView>,
    tag: Seq<char>,
)
    requires
        spec_starts_with(upper, root),
        spec_inherited(scanned, root, direct, root_ancestor, upper).contains(tag),
        scanned_below(scanned, upper, path),
    ensures
        spec_inherited(scanned, root, direct, root_ancestor, path).contains(tag),
    decreases path.len(),
{
    lemma_scanned_below_longer(scanned, upper, path);
    let parent = spec_parent(path)->0;
    assert(path != root);
    if parent != upper {
        lemma_inherited_descends(scanned, root, direct, root_ancestor, upper, parent, tag);
    }
}

/// After a tag is assigned to a path that lies above the root of a scan,
/// the scan shows the tag among the tags from above, the root inherits it,
/// and so does every scanned path below the root.
pub proof fn lemma_tag_from_above(
    rows: Seq<RowView>,
    path: PathKey,
    tag: Seq<char>,
    range: ScanRange,
    direct: Map<Seq<SegmentView>, Seq<Seq<char>>>,
    root_ancestor: Seq<Seq<char>>,
    scanned: Seq<Seq<SegmentView>>,
    below: Seq<SegmentView>,
)
    requires
        spec_strict_ancestor(path@, range.root),
        is_snapshot_of(
            direct,
            root_ancestor,
            spec_upsert_all(rows, spec_plan_rows(seq![path], tag)),
            range,
        ),
    ensures
        root_ancestor.contains(tag),
        spec_inherited(scanned, range.root, direct, root_ancestor, range.root).contains(tag),
        scanned_below(scanned, range.root, below) ==> spec_inherited(
            scanned,
            range.root,
            direct,
            root_ancestor,
            below,
        ).contains(tag),
{
    let row = planned_row(path, tag);
    let paths = seq![path];
    assert(paths.drop_last() =~= Seq::<PathKey>::empty());
    assert(spec_plan_rows(paths.drop_last(), tag) =~= Seq::<RowView>::empty());
    assert(!text_seen(paths, 0, path.text_view()));
    let plan = spec_plan_rows(paths, tag);
    assert(plan =~= seq![row]);
    assert(plan.drop_last() =~= Seq::<RowView>::empty());
    let after = spec_upsert_all(rows, plan);
    assert(spec_upsert_all(rows, plan.drop_last()) == rows);
    assert(plan.last() == row);
    assert(after == spec_upsert(rows, row));
    lemma_upsert_position(rows, row, row.path_text, row.tag);
    lemma_key_position(after, row.path_text, row.tag);
    let p = key_position(after, row.path_text, row.tag)->0;
    assert(after[p] == row);
    lemma_ancestor_tag_set(after, range.root, tag);
    assert(root_ancestor.to_set().contains(tag));
    assert(range.root.subrange(0, range.root.len() as int) =~= range.root);
    if scanned_below(scanned, range.root, below) {
        lemma_inherited_descends(
            scanned,
            range.root,
            direct,
            root_ancestor,
            range.root,
            below,
            tag,
        );
    }
}

/// The tags that the paths from the root down to the parent of a path own.
pub open spec fn own_above(
    direct: Map<Seq<SegmentView>, Seq<Seq<char>>>,
    root_len: nat,
    path: Seq<SegmentView>,
) -> Set<Seq<char>>
    decreases path.len(),
{
    if path.len() <= root_len {
        Set::empty()
    } else {
        spec_own_tags(direct, path.drop_last()).union(
            own_above(direct, root_len, path.drop_last()),
        )
    }
}

/// Whether a path is the root, or lies below it with every path from the
/// root down to its parent scanned.
pub open spec fn chain_scanned(
    scanned: Seq<Seq<SegmentView>>,
    root: Seq<SegmentView>,
    path: Seq<SegmentView>,
) -> bool
    decreases path.len(),
{
    path == root || (path.len() > root.len() && spec_parent(path).is_some() && scanned.contains(
        path.drop_last(),
    ) && chain_scanned(scanned, root, path.drop_last()))
}

/// A path other than the root inherits what its parent owns and what its
/// parent inherits, where the parent was scanned. Along a chain of scanned
/// ancestors that ends in the root this adds up to the tags that every
/// ancestor down from the root owns, and the tags from above the scan.
pub proof fn lemma_inheritance_composes(
    scanned: Seq<Seq<SegmentView>>,
    root: Seq<SegmentView>,
    direct: Map<Seq<SegmentView>, Seq<Seq<char>>>,
    root_ancestor: Seq<Seq<char>>,
    path: Seq<SegmentView>,
)
    ensures
        path != root && spec_parent(path).is_some() && scanned.contains(spec_parent(path)->0)
            ==> spec_inherited(scanned, root, direct, root_ancestor, path) == spec_own_tags(
            direct,
            spec_parent(path)->0,
        ).union(
            spec_inherited(scanned, root, direct, root_ancestor, spec_parent(path)->0),
        ),
        chain_scanned(scanned, root, path) ==> spec_inherited(
            scanned,
            root,
            direct,
            root_ancestor,
            path,
        ) == root_ancestor.to_set().union(own_above(direct, root.len(), path)),
    decreases path.len(),
{
    if chain_scanned(scanned, root, path) {
        if path == root {
            assert(root_ancestor.to_set().union(own_above(direct, root.len(), path))
                =~= root_ancestor.to_set());
        } else {
            let parent = path.drop_last();
            lemma_inheritance_composes(scanned, root, direct, root_ancestor, parent);
            let owned = spec_own_tags(direct, parent);
            assert(owned.union(root_ancestor.to_set().union(own_above(direct, root.len(), parent)))
                =~= root_ancestor.to_set().union(owned.union(own_above(direct, root.len(), parent))));
        }
    }
}

/// A scan sees tags no deeper than its bound allows, and a wider bound
/// hides nothing that a narrower one shows. Every row in a range is for
/// the text of the root or lies below the depth of the root and within the
/// limit; a row in a range is in every range with the same root and at
/// least as many levels; so every tag and path that the narrower scan
/// shows, the wider one shows too.
pub proof fn lemma_depth_boundary(
    rows: Seq<RowView>,
    range: ScanRange,
    wider: ScanRange,
    path: Seq<SegmentView>,
)
    requires
        0 <= range.max_depth <= wider.max_depth,
        wider == (ScanRange { max_depth: wider.max_depth, ..range }),
    ensures
        forall|i: int|
            0 <= i < rows.len() && in_range(#[trigger] rows[i], range) ==> rows[i].path_text
                == range.root_text || stored_depth(range.root) < rows[i].depth <= stored_depth(
                range.root,
            ) + range.max_depth,
        forall|i: int|
            0 <= i < rows.len() && in_range(#[trigger] rows[i], range) ==> in_range(
                rows[i],
                wider,
            ),
        direct_tag_set(rows, range, path).subset_of(direct_tag_set(rows, wider, path)),
        path_selected(rows, range, path) ==> path_selected(rows, wider, path),
{
    assert(depth_limit(stored_depth(range.root), range.max_depth) <= depth_limit(
        stored_depth(range.root),
        wider.max_depth,
    ));
    assert forall|tag: Seq<char>| direct_tag_set(rows, range, path).contains(tag) implies direct_tag_set(
        rows,
        wider,
        path,
    ).contains(tag) by {
        lemma_direct_tag_set(rows, range, path, tag);
        lemma_direct_tag_set(rows, wider, path, tag);
        let i = choose|i: int|
            0 <= i < rows.len() && in_range(#[trigger] rows[i], range) && rows[i].path == path
                && rows[i].tag == tag;
        assert(in_range(rows[i], wider));
    }
    if path_selected(rows, range, path) {
        lemma_direct_tag_set(rows, range, path, Seq::<char>::empty());
        lemma_direct_tag_set(rows, wider, path, Seq::<char>::empty());
        let i = choose|i: int|
            0 <= i < rows.len() && in_range(#[trigger] rows[i], range) && rows[i].path == path;
        assert(in_range(rows[i], wider));
    }
}

/// A wider scan shows, for every path that a narrower scan shows, the same
/// tags, and the same tags from above the root; a path that only the wider
/// scan shows lies deeper than the narrower scan reaches; and a scan of no
/// levels shows no path but the root. This holds of a relation that is
/// well read, as every relation is that was filled with keys read off
/// their texts, under a root that was read off its text.
pub proof fn lemma_wider_shows_same(
    rows: Seq<RowView>,
    range: ScanRange,
    wider: ScanRange,
    direct: Map<Seq<SegmentView>, Seq<Seq<char>>>,
    root_ancestor: Seq<Seq<char>>,
    wider_direct: Map<Seq<SegmentView>, Seq<Seq<char>>>,
    wider_root_ancestor: Seq<Seq<char>>,
    path: Seq<SegmentView>,
)
    requires
        0 <= range.max_depth <= wider.max_depth,
        wider == (ScanRange { max_depth: wider.max_depth, ..range }),
        rows_well_read(rows),
        range.root == components_of(range.root_text),
        is_snapshot_of(direct, root_ancestor, rows, range),
        is_snapshot_of(wider_direct, wider_root_ancestor, rows, wider),
    ensures
        root_ancestor == wider_root_ancestor,
        direct.dom().contains(path) ==> wider_direct.dom().contains(path) && wider_direct[path]
            == direct[path],
        wider_direct.dom().contains(path) && !direct.dom().contains(path) ==> depth_limit(
            stored_depth(range.root),
            range.max_depth,
        ) < stored_depth(path) <= depth_limit(stored_depth(range.root), wider.max_depth),
        range.max_depth == 0 && direct.dom().contains(path) ==> path == range.root,
{
    let root_depth = stored_depth(range.root);
    lemma_tag_set_unique(root_ancestor, wider_root_ancestor, ancestor_tag_set(rows, range.root));
    lemma_depth_boundary(rows, range, wider, path);
    lemma_direct_tag_set(rows, range, path, Seq::<char>::empty());
    lemma_direct_tag_set(rows, wider, path, Seq::<char>::empty());
    if direct.dom().contains(path) {
        assert(path_selected(rows, range, path));
        assert(wider_direct.dom().contains(path));
        let j = choose|j: int|
            0 <= j < rows.len() && in_range(#[trigger] rows[j], range) && rows[j].path == path;
        assert(row_well_read(rows[j]));
        assert forall|tag: Seq<char>| direct_tag_set(rows, wider, path).contains(tag) implies direct_tag_set(
            rows,
            range,
            path,
        ).contains(tag) by {
            lemma_direct_tag_set(rows, range, path, tag);
            lemma_direct_tag_set(rows, wider, path, tag);
            let i = choose|i: int|
                0 <= i < rows.len() && in_range(#[trigger] rows[i], wider) && rows[i].path == path
                    && rows[i].tag == tag;
            assert(row_well_read(rows[i]));
            assert(in_range(rows[i], range));
        }
        assert(direct_tag_set(rows, wider, path) =~= direct_tag_set(rows, range, path));
        lemma_tag_set_unique(direct[path], wider_direct[path], direct_tag_set(rows, range, path));
        if range.max_depth == 0 {
            assert(depth_limit(root_depth, 0) <= root_depth);
            assert(rows[j].path_text == range.root_text);
        }
    }
    if wider_direct.dom().contains(path) && !direct.dom().contains(path) {
        assert(path_selected(rows, wider, path));
        assert(!path_selected(rows, range, path));
        let i = choose|i: int|
            0 <= i < rows.len() && in_range(#[trigger] rows[i], wider) && rows[i].path == path;
        assert(row_well_read(rows[i]));
        assert(!in_range(rows[i], range));
    }
}

/// A tag that a row in the range assigns to a path is among the tags that
/// the path owns.
pub proof fn lemma_row_shown(
    rows: Seq<RowView>,
    range: ScanRange,
    direct: Map<Seq<SegmentView>, Seq<Seq<char>>>,
    root_ancestor: Seq<Seq<char>>,
    i: int,
)
    requires
        is_snapshot_of(direct, root_ancestor, rows, range),
        0 <= i < rows.len(),
        in_range(rows[i], range),
    ensures
        spec_own_tags(direct, rows[i].path).contains(rows[i].tag),
        spec_own_tags(direct, rows[i].path) == direct_tag_set(rows, range, rows[i].path),
{
    lemma_direct_tag_set(rows, range, rows[i].path, rows[i].tag);
    assert(path_selected(rows, range, rows[i].path));
    assert(direct.dom().contains(rows[i].path));
}

/// A tag that no row assigns within the range or above the root is shown
/// nowhere: no path owns it and no path inherits it.
pub proof fn lemma_hidden_tag(
    rows: Seq<RowView>,
    range: ScanRange,
    direct: Map<Seq<SegmentView>, Seq<Seq<char>>>,
    root_ancestor: Seq<Seq<char>>,
    scanned: Seq<Seq<SegmentView>>,
    tag: Seq<char>,
    path: Seq<SegmentView>,
)
    requires
        is_snapshot_of(direct, root_ancestor, rows, range),
        forall|i: int|
            0 <= i < rows.len() && (#[trigger] rows[i]).tag == tag ==> !in_range(rows[i], range)
                && !spec_strict_ancestor(rows[i].path, range.root),
    ensures
        !spec_own_tags(direct, path).contains(tag),
        !spec_inherited(scanned, range.root, direct, root_ancestor, path).contains(tag),
    decreases path.len(),
{
    lemma_direct_tag_set(rows, range, path, tag);
    if direct.dom().contains(path) {
        assert(is_tag_set(direct[path], direct_tag_set(rows, range, path)));
    }
    if path == range.root {
        lemma_ancestor_tag_set(rows, range.root, tag);
    } else {
        match spec_parent(path) {
            Some(parent) => {
                lemma_hidden_tag(rows, range, direct, root_ancestor, scanned, tag, parent);
            },
            None => {},
        }
    }
}

/// What the two laws before say of a whole scan: in the entries of a scan
/// with its tags resolved, an entry whose key is the path of a row in the
/// range owns the tag of the row, and a tag that no row assigns within the
/// range or above the root stands in no list of any entry.
pub proof fn lemma_scan_shows_the_range(
    rows: Seq<RowView>,
    range: ScanRange,
    direct: Map<Seq<SegmentView>, Seq<Seq<char>>>,
    root_ancestor: Seq<Seq<char>>,
    entries: Seq<FileInfoView>,
    keys: Seq<Seq<SegmentView>>,
    at: int,
    tag: Seq<char>,
)
    requires
        is_snapshot_of(direct, root_ancestor, rows, range),
        0 <= at < entries.len(),
    ensures
        (exists|i: int|
            0 <= i < rows.len() && in_range(#[trigger] rows[i], range) && rows[i].path == keys[at]
                && rows[i].tag == tag) ==> spec_resolved(
            entries,
            keys,
            range.root,
            direct,
            root_ancestor,
        )[at].own_tags.contains(tag),
        (forall|i: int|
            0 <= i < rows.len() && (#[trigger] rows[i]).tag == tag ==> !in_range(rows[i], range)
                && !spec_strict_ancestor(rows[i].path, range.root)) ==> !spec_resolved(
            entries,
            keys,
            range.root,
            direct,
            root_ancestor,
        )[at].own_tags.contains(tag) && !spec_resolved(
            entries,
            keys,
            range.root,
            direct,
            root_ancestor,
        )[at].inherited_tags.contains(tag),
{
    let resolved = spec_resolved(entries, keys, range.root, direct, root_ancestor)[at];
    lemma_resolved_tags(entries, keys, range.root, direct, root_ancestor, at);
    if exists|i: int|
        0 <= i < rows.len() && in_range(#[trigger] rows[i], range) && rows[i].path == keys[at]
            && rows[i].tag == tag {
        let i = choose|i: int|
            0 <= i < rows.len() && in_range(#[trigger] rows[i], range) && rows[i].path == keys[at]
                && rows[i].tag == tag;
        lemma_row_shown(rows, range, direct, root_ancestor, i);
        assert(resolved.own_tags.to_set().contains(tag));
    }
    if forall|i: int|
        0 <= i < rows.len() && (#[trigger] rows[i]).tag == tag ==> !in_range(rows[i], range)
            && !spec_strict_ancestor(rows[i].path, range.root) {
        lemma_hidden_tag(rows, range, direct, root_ancestor, keys, tag, keys[at]);
        if resolved.own_tags.contains(tag) {
            assert(resolved.own_tags.to_set().contains(tag));
        }
        if resolved.inherited_tags.contains(tag) {
            assert(resolved.inherited_tags.to_set().contains(tag));
        }
    }
}

/// The rows and the range leave one answer to the range query only.
pub proof fn lemma_snapshot_unique(
    rows: Seq<RowView>,
    range: ScanRange,
    direct: Map<Seq<SegmentView>, Seq<Seq<char>>>,
    root_ancestor: Seq<Seq<char>>,
    other_direct: Map<Seq<SegmentView>, Seq<Seq<char>>>,
    other_root_ancestor: Seq<Seq<char>>,
)
    requires
        is_snapshot_of(direct, root_ancestor, rows, range),
        is_snapshot_of(other_direct, other_root_ancestor, rows, range),
    ensures
        direct == other_direct,
        root_ancestor == other_root_ancestor,
{
    lemma_tag_set_unique(root_ancestor, other_root_ancestor, ancestor_tag_set(rows, range.root));
    assert forall|path: Seq<SegmentView>| direct.dom().contains(path) implies #[trigger] direct[path]
        == other_direct[path] by {
        assert(other_direct.dom().contains(path));
        lemma_tag_set_unique(direct[path], other_direct[path], direct_tag_set(rows, range, path));
    }
    assert forall|path: Seq<SegmentView>| direct.dom().contains(path) <==> other_direct.dom().contains(
        path,
    ) by {}
    assert(direct =~= other_direct);
}

/// Whether a place is named for some entry.
pub open spec fn place_taken(places: Seq<int>, place: int) -> bool {
    exists|i: int| 0 <= i < places.len() && #[trigger] places[i] == place
}

/// Whether `second` holds the entries of `first` in another order: the
/// entry at each place of `first` stands at the place that `places` names
/// for it, no two entries at one place, and no place left out.
pub open spec fn is_reordering(
    first: Seq<FileInfoView>,
    second: Seq<FileInfoView>,
    places: Seq<int>,
) -> bool {
    &&& second.len() == first.len()
    &&& places.len() == first.len()
    &&& forall|i: int|
        0 <= i < first.len() ==> 0 <= #[trigger] places[i] < first.len() && second[places[i]]
            == first[i]
    &&& forall|i: int, j: int|
        0 <= i < first.len() && 0 <= j < first.len() && i != j ==> places[i] != places[j]
    &&& forall|k: int| 0 <= k < first.len() ==> #[trigger] place_taken(places, k)
}

/// Whether the entries that lie in one directory can be told apart by kind
/// and display name.
pub open spec fn siblings_apart(entries: Seq<FileInfoView>) -> bool {
    forall|i: int, j: int|
        0 <= i < entries.len() && 0 <= j < entries.len() && i != j && spec_parent(
            entries[i].path,
        ).is_some() && spec_parent(entries[i].path) == spec_parent(entries[j].path) ==> !(
        entries[i].is_directory == entries[j].is_directory && spec_node_name(entries[i])
            == spec_node_name(entries[j]))
}

/// The children of an entry are listed in ascending order, each once, and
/// none is left out.
pub proof fn lemma_children_list(entries: Seq<FileInfoView>, parent: int, upto: nat)
    ensures
        forall|a: int, b: int|
            0 <= a < b < spec_children_upto(entries, parent, upto).len() ==> spec_children_upto(
                entries,
                parent,
                upto,
            )[a] < spec_children_upto(entries, parent, upto)[b],
        forall|a: int|
            0 <= a < spec_children_upto(entries, parent, upto).len() ==> 0 <= (
            #[trigger] spec_children_upto(entries, parent, upto)[a]) < upto && is_child_entry(
                entries,
                spec_children_upto(entries, parent, upto)[a],
                parent,
            ),
        forall|j: int|
            0 <= j < upto && is_child_entry(entries, j, parent) ==> spec_children_upto(
                entries,
                parent,
                upto,
            ).contains(j),
    decreases upto,
{
    if upto > 0 {
        lemma_children_list(entries, parent, (upto - 1) as nat);
        let rest = spec_children_upto(entries, parent, (upto - 1) as nat);
        let all = spec_children_upto(entries, parent, upto);
        assert forall|j: int| 0 <= j < upto && is_child_entry(entries, j, parent) implies all.contains(
            j,
        ) by {
            if j < upto - 1 {
                let a = choose|a: int| 0 <= a < rest.len() && rest[a] == j;
                assert(all[a] == j);
            } else {
                assert(all[all.len() - 1] == j);
            }
        }
    }
}

/// The subtrees listed for the children of an entry are the trees of the
/// children, place by place.
pub proof fn lemma_nodes_of_children(entries: Seq<FileInfoView>, parent: int, indices: Seq<int>)
    requires
        all_children(entries, parent, indices),
    ensures
        spec_nodes_of(entries, parent, indices).len() == indices.len(),
        forall|a: int|
            0 <= a < indices.len() ==> (#[trigger] spec_nodes_of(entries, parent, indices)[a])
                == spec_tree(entries, indices[a]),
    decreases indices.len(),
{
    if indices.len() > 0 {
        let front = indices.drop_last();
        assert forall|k: int| 0 <= k < front.len() implies is_child_entry(
            entries,
            #[trigger] front[k],
            parent,
        ) by {
            assert(front[k] == indices[k]);
        }
        lemma_nodes_of_children(entries, parent, front);
        assert(is_child_entry(entries, indices[indices.len() - 1], parent));
    }
}

/// Two lists without repeats that hold the same values hold them equally
/// often.
pub proof fn lemma_same_values<A>(first: Seq<A>, second: Seq<A>)
    requires
        first.no_duplicates(),
        second.no_duplicates(),
        forall|value: A| first.contains(value) <==> second.contains(value),
    ensures
        first.to_multiset() == second.to_multiset(),
{
    broadcast use vstd::seq_lib::group_to_multiset_ensures;

    first.lemma_multiset_has_no_duplicates();
    second.lemma_multiset_has_no_duplicates();
    assert forall|value: A| first.to_multiset().count(value) == second.to_multiset().count(
        value,
    ) by {
        if first.contains(value) {
            assert(first.to_multiset().count(value) > 0);
            assert(second.to_multiset().count(value) > 0);
        } else {
            assert(!second.contains(value));
            if first.to_multiset().count(value) > 0 {
                assert(first.contains(value));
            }
            if second.to_multiset().count(value) > 0 {
                assert(second.contains(value));
            }
        }
    }
    assert(first.to_multiset() =~= second.to_multiset());
}

/// The subtrees of the children of an entry, unsorted: no subtree twice
/// where siblings can be told apart, and the tree of every child among
/// them.
pub proof fn lemma_child_trees(entries: Seq<FileInfoView>, parent: int)
    requires
        0 <= parent < entries.len(),
        siblings_apart(entries),
    ensures
        spec_nodes_of(entries, parent, spec_children(entries, parent)).no_duplicates(),
        order_tells_apart(spec_nodes_of(entries, parent, spec_children(entries, parent))),
        forall|node: NodeView|
            spec_nodes_of(entries, parent, spec_children(entries, parent)).contains(node)
                <==> is_child_tree(entries, parent, node),
{
    let children = spec_children(entries, parent);
    let nodes = spec_nodes_of(entries, parent, children);
    lemma_children_list(entries, parent, entries.len());
    lemma_nodes_of_children(entries, parent, children);
    assert forall|a: int, b: int| 0 <= a < nodes.len() && 0 <= b < nodes.len() && a != b implies !(
    node_le(nodes[a], nodes[b]) && node_le(nodes[b], nodes[a])) by {
        let x = children[a];
        let y = children[b];
        if a < b {
            assert(children[a] < children[b]);
        } else {
            assert(children[b] < children[a]);
        }
        assert(nodes[a] == spec_tree(entries, x));
        assert(nodes[b] == spec_tree(entries, y));
        lemma_text_lt_total(nodes[a].name, nodes[b].name);
    }
    assert forall|a: int, b: int| 0 <= a < nodes.len() && 0 <= b < nodes.len() && a != b implies nodes[a]
        != nodes[b] by {
        lemma_text_lt_total(nodes[a].name, nodes[a].name);
        assert(!(node_le(nodes[a], nodes[b]) && node_le(nodes[b], nodes[a])));
    }
    assert forall|node: NodeView| nodes.contains(node) <==> is_child_tree(
        entries,
        parent,
        node,
    ) by {
        if nodes.contains(node) {
            let a = choose|a: int| 0 <= a < nodes.len() && nodes[a] == node;
            assert(nodes[a] == spec_tree(entries, children[a]));
            assert(is_child_entry(entries, children[a], parent));
        }
        if is_child_tree(entries, parent, node) {
            let j = choose|j: int|
                is_child_entry(entries, j, parent) && node == spec_tree(entries, j);
            assert(children.contains(j));
            let a = choose|a: int| 0 <= a < children.len() && children[a] == j;
            assert(nodes[a] == node);
        }
    }
}

/// The tree of a scan does not depend on the order in which the entries
/// came, where the entries of one directory can be told apart by kind and
/// name: the tree below an entry is the same tree wherever the entry
/// stands.
pub proof fn lemma_tree_order_free(
    first: Seq<FileInfoView>,
    second: Seq<FileInfoView>,
    places: Seq<int>,
    index: int,
)
    requires
        is_reordering(first, second, places),
        siblings_apart(first),
        0 <= index < first.len(),
    ensures
        spec_tree(first, index) == spec_tree(second, places[index]),
    decreases tree_budget(first, index),
{
    lemma_reordering_keeps_apart(first, second, places);
    lemma_child_trees(first, index);
    lemma_child_trees(second, places[index]);
    let nodes_first = spec_nodes_of(first, index, spec_children(first, index));
    let nodes_second = spec_nodes_of(second, places[index], spec_children(second, places[index]));
    assert forall|node: NodeView| nodes_first.contains(node) <==> nodes_second.contains(
        node,
    ) by {
        if is_child_tree(first, index, node) {
            let j = choose|j: int| is_child_entry(first, j, index) && node == spec_tree(first, j);
            lemma_path_len_bounded(first, j);
            lemma_tree_order_free(first, second, places, j);
            assert(is_child_entry(second, places[j], places[index]));
        }
        if is_child_tree(second, places[index], node) {
            let k = choose|k: int|
                is_child_entry(second, k, places[index]) && node == spec_tree(second, k);
            assert(place_taken(places, k));
            let j = choose|j: int| 0 <= j < places.len() && #[trigger] places[j] == k;
            assert(is_child_entry(first, j, index));
            lemma_path_len_bounded(first, j);
            lemma_tree_order_free(first, second, places, j);
        }
    }
    lemma_same_values(nodes_first, nodes_second);
    lemma_sort_order_free(nodes_first, nodes_second);
}

/// Entries that can be told apart in one order can be told apart in any.
pub proof fn lemma_reordering_keeps_apart(
    first: Seq<FileInfoView>,
    second: Seq<FileInfoView>,
    places: Seq<int>,
)
    requires
        is_reordering(first, second, places),
        siblings_apart(first),
    ensures
        siblings_apart(second),
{
    assert forall|i: int, j: int|
        0 <= i < second.len() && 0 <= j < second.len() && i != j && spec_parent(
            second[i].path,
        ).is_some() && spec_parent(second[i].path) == spec_parent(second[j].path) implies !(
    second[i].is_directory == second[j].is_directory && spec_node_name(second[i])
        == spec_node_name(second[j])) by {
        assert(place_taken(places, i));
        assert(place_taken(places, j));
        let a = choose|a: int| 0 <= a < places.len() && #[trigger] places[a] == i;
        let b = choose|b: int| 0 <= b < places.len() && #[trigger] places[b] == j;
        assert(second[places[a]] == first[a]);
        assert(second[places[b]] == first[b]);
        assert(a != b);
    }
}

} // verus!
