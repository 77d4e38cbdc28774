//! Own and inherited tags. An entry owns the tags recorded for its path;
//! it inherits what its parent owns and inherits, the root inheriting the
//! tags from above the scan. Both come out as sorted lists without repeats.

use crate::index::{lemma_places, LabelIndex};
use crate::path::{spec_parent, spec_tail_label, PathKey, SegmentView};
use crate::query::DirectoryTagSnapshot;
use crate::scan::{build_directory_tree, duplicate_strings, tree_matches};
use crate::scan::{DirectoryNode, FileInfo, FileInfoView, ScanError};
use crate::text::{is_tag_set, lemma_rendered, lemma_rendering_exists, merge_tags};
use crate::text::{rendered_tags, sorted_tags};
use vstd::prelude::*;

verus! {

/// The paths of a list of entries.
pub open spec fn entry_paths(entries: Seq<FileInfoView>) -> Seq<Seq<SegmentView>> {
    entries.map_values(|e: FileInfoView| e.path)
}

/// The tags that a path owns: the set of those recorded for it, or none.
pub open spec fn spec_own_tags(
    direct: Map<Seq<SegmentView>, Seq<Seq<char>>>,
    path: Seq<SegmentView>,
) -> Set<Seq<char>> {
    if direct.dom().contains(path) {
        direct[path].to_set()
    } else {
        Set::empty()
    }
}

/// The tags that a path inherits. The root inherits the tags from above
/// the scan. Any other path inherits what its parent owns and inherits,
/// where the parent was scanned, and nothing where it was not or where the
/// path has no parent.
pub open spec fn spec_inherited(
    scanned: Seq<Seq<SegmentView>>,
    root: Seq<SegmentView>,
    direct: Map<Seq<SegmentView>, Seq<Seq<char>>>,
    root_ancestor: Seq<Seq<char>>,
    path: Seq<SegmentView>,
) -> Set<Seq<char>>
    decreases path.len(),
{
    if path == root {
        root_ancestor.to_set()
    } else {
        match spec_parent(path) {
            Some(parent) => if scanned.contains(parent) {
                spec_own_tags(direct, parent).union(
                    spec_inherited(scanned, root, direct, root_ancestor, parent),
                )
            } else {
                Set::empty()
            },
            None => Set::empty(),
        }
    }
}

/// Whether `parents` names, for every scanned path, an entry that holds
/// its parent, and none exactly where the parent was not scanned or the
/// path has none.
pub open spec fn parents_of(scanned: Seq<Seq<SegmentView>>, parents: Seq<Option<usize>>) -> bool {
    &&& parents.len() == scanned.len()
    &&& forall|i: int|
        0 <= i < scanned.len() ==> match #[trigger] parents[i] {
            Some(p) => p < scanned.len() && spec_parent(scanned[i]) == Some(scanned[p as int]),
            None => match spec_parent(scanned[i]) {
                Some(parent) => !scanned.contains(parent),
                None => true,
            },
        }
}

/// The labels under which paths are sought: for every path the text of
/// its last segment.
pub open spec fn tail_labels(scanned: Seq<Seq<SegmentView>>) -> Seq<Seq<char>> {
    scanned.map_values(|path: Seq<SegmentView>| spec_tail_label(path))
}

/// For every path, the index of a path of the list that is its parent. A
/// parent is sought by the name that it must have, so that a path is held
/// against those few only.
pub fn find_parents(paths: &Vec<PathKey>) -> (parents: Vec<Option<usize>>)
    ensures
        parents_of(paths.deep_view(), parents@),
{
    let ghost scanned = paths.deep_view();
    let mut labels: Vec<String> = Vec::new();
    let mut j: usize = 0;
    while j < paths.len()
        invariant
            0 <= j <= paths.len(),
            scanned == paths.deep_view(),
            labels.len() == j,
            forall|k: int| 0 <= k < j ==> labels[k]@ == spec_tail_label(scanned[k]),
        decreases paths.len() - j,
    {
        proof {
            assert(scanned[j as int] == paths[j as int]@);
        }
        labels.push(paths[j].tail_label());
        j = j + 1;
    }
    proof {
        assert(labels.deep_view() =~= tail_labels(scanned));
    }
    let index = LabelIndex::build(&labels);
    let mut parents: Vec<Option<usize>> = Vec::new();
    let mut i: usize = 0;
    while i < paths.len()
        invariant
            0 <= i <= paths.len(),
            scanned == paths.deep_view(),
            scanned.len() == paths.len(),
            index.wf(),
            index.labels() == tail_labels(scanned),
            parents.len() == i,
            forall|k: int|
                0 <= k < i ==> match #[trigger] parents[k] {
                    Some(p) => p < scanned.len() && spec_parent(scanned[k]) == Some(
                        scanned[p as int],
                    ),
                    None => match spec_parent(scanned[k]) {
                        Some(parent) => !scanned.contains(parent),
                        None => true,
                    },
                },
        decreases paths.len() - i,
    {
        proof {
            assert(scanned[i as int] == paths[i as int]@);
        }
        let mut found: Option<usize> = None;
        if paths[i].has_parent() {
            let label = paths[i].parent_label();
            let candidates = index.places(label.as_str());
            let ghost places = candidates@.map_values(|j: usize| j as int);
            proof {
                lemma_places(tail_labels(scanned), label@, 0);
            }
            let mut k: usize = 0;
            while k < candidates.len()
                invariant_except_break
                    found is None,
                    forall|m: int|
                        0 <= m < k ==> spec_parent(scanned[i as int]) != Some(
                            scanned[#[trigger] places[m]],
                        ),
                invariant
                    0 <= k <= candidates.len(),
                    i < paths.len(),
                    scanned == paths.deep_view(),
                    scanned.len() == paths.len(),
                    places == candidates@.map_values(|j: usize| j as int),
                    forall|m: int| 0 <= m < places.len() ==> 0 <= #[trigger] places[m] < scanned.len(),
                ensures
                    match found {
                        Some(p) => p < scanned.len() && spec_parent(scanned[i as int]) == Some(
                            scanned[p as int],
                        ),
                        None => forall|m: int|
                            0 <= m < places.len() ==> spec_parent(scanned[i as int]) != Some(
                                scanned[#[trigger] places[m]],
                            ),
                    },
                decreases candidates.len() - k,
            {
                let candidate = candidates[k];
                proof {
                    assert(places[k as int] == candidate as int);
                    assert(scanned[candidate as int] == paths[candidate as int]@);
                    assert(scanned[i as int] == paths[i as int]@);
                }
                if paths[i].is_child_of(&paths[candidate]) {
                    found = Some(candidate);
                    break ;
                }
                k = k + 1;
            }
            proof {
                if found is None {
                    let parent = spec_parent(scanned[i as int])->0;
                    if scanned.contains(parent) {
                        let x = choose|x: int| 0 <= x < scanned.len() && scanned[x] == parent;
                        assert(tail_labels(scanned)[x] == label@);
                        assert(places.contains(x));
                        let m = choose|m: int| 0 <= m < places.len() && places[m] == x;
                        assert(spec_parent(scanned[i as int]) != Some(scanned[places[m]]));
                    }
                }
            }
        }
        parents.push(found);
        i = i + 1;
    }
    parents
}

/// What a path inherits is a finite set, and so is what it owns.
pub proof fn lemma_tags_finite(
    scanned: Seq<Seq<SegmentView>>,
    root: Seq<SegmentView>,
    direct: Map<Seq<SegmentView>, Seq<Seq<char>>>,
    root_ancestor: Seq<Seq<char>>,
    path: Seq<SegmentView>,
)
    ensures
        spec_own_tags(direct, path).finite(),
        spec_inherited(scanned, root, direct, root_ancestor, path).finite(),
    decreases path.len(),
{
    broadcast use vstd::seq_lib::seq_to_set_is_finite;

    if direct.dom().contains(path) {
        assert(direct[path].to_set().finite());
    }
    if path == root {
        assert(root_ancestor.to_set().finite());
    } else {
        match spec_parent(path) {
            Some(parent) => {
                lemma_tags_finite(scanned, root, direct, root_ancestor, parent);
            },
            None => {},
        }
    }
}

/// Whether every inherited list that the cache holds is the sorted list of
/// what the path of its entry inherits.
pub open spec fn cache_holds(
    cache: Seq<Option<Vec<String>>>,
    scanned: Seq<Seq<SegmentView>>,
    root: Seq<SegmentView>,
    direct: Map<Seq<SegmentView>, Seq<Seq<char>>>,
    root_ancestor: Seq<Seq<char>>,
) -> bool {
    &&& cache.len() == scanned.len()
    &&& forall|i: int|
        0 <= i < cache.len() ==> match #[trigger] cache[i] {
            Some(tags) => is_tag_set(
                tags.deep_view(),
                spec_inherited(scanned, root, direct, root_ancestor, scanned[i]),
            ),
            None => true,
        }
}

/// The tags that the path at one place owns and inherits, each as a sorted
/// list without repeats. What a path inherits is worked out once and kept
/// in the cache, where it stays as it is; what it owns is found through
/// the index over the snapshot.
pub fn compute_own_and_inherited_tags(
    index: usize,
    root: &PathKey,
    paths: &Vec<PathKey>,
    parents: &Vec<Option<usize>>,
    tag_snapshot: &DirectoryTagSnapshot,
    tagged: &LabelIndex,
    cache: &mut Vec<Option<Vec<String>>>,
) -> (tags: (Vec<String>, Vec<String>))
    requires
        index < paths.len(),
        parents_of(paths.deep_view(), parents@),
        tagged.wf(),
        tagged.labels() == tag_snapshot.labels(),
        cache_holds(
            old(cache)@,
            paths.deep_view(),
            root@,
            tag_snapshot.direct(),
            tag_snapshot.root_ancestor(),
        ),
    ensures
        is_tag_set(
            tags.0.deep_view(),
            spec_own_tags(tag_snapshot.direct(), paths[index as int]@),
        ),
        is_tag_set(
            tags.1.deep_view(),
            spec_inherited(
                paths.deep_view(),
                root@,
                tag_snapshot.direct(),
                tag_snapshot.root_ancestor(),
                paths[index as int]@,
            ),
        ),
        cache_holds(
            final(cache)@,
            paths.deep_view(),
            root@,
            tag_snapshot.direct(),
            tag_snapshot.root_ancestor(),
        ),
        final(cache)@[index as int] matches Some(kept) && kept.deep_view() == tags.1.deep_view(),
        forall|i: int|
            0 <= i < old(cache)@.len() && (#[trigger] old(cache)@[i]) is Some ==> final(cache)@[i]
                == old(cache)@[i],
    decreases paths[index as int]@.len(),
{
    let ghost scanned = paths.deep_view();
    let ghost direct = tag_snapshot.direct();
    let ghost above = tag_snapshot.root_ancestor();
    proof {
        assert(scanned[index as int] == paths[index as int]@);
    }
    let own = match tag_snapshot.direct_tags_by(tagged, &paths[index]) {
        Some(tags) => sorted_tags(tags),
        None => {
            let none: Vec<String> = Vec::new();
            proof {
                assert(none.deep_view().to_set() =~= Set::<Seq<char>>::empty());
            }
            none
        },
    };
    match &cache[index] {
        Some(kept) => {
            let inherited = duplicate_strings(kept);
            return (own, inherited);
        },
        None => {},
    }
    let inherited = if paths[index].same_path(root) {
        sorted_tags(tag_snapshot.root_ancestor_tags())
    } else {
        match parents[index] {
            Some(parent) => {
                proof {
                    assert(scanned[parent as int] == paths[parent as int]@);
                    assert(scanned.contains(scanned[parent as int]));
                }
                let above_parent = compute_own_and_inherited_tags(
                    parent,
                    root,
                    paths,
                    parents,
                    tag_snapshot,
                    tagged,
                    cache,
                );
                let merged = merge_tags(&above_parent.1, &above_parent.0);
                proof {
                    let owned = spec_own_tags(direct, scanned[parent as int]);
                    let passed = spec_inherited(scanned, root@, direct, above, scanned[parent as int]);
                    assert(passed.union(owned) =~= owned.union(passed));
                }
                merged
            },
            None => {
                let none: Vec<String> = Vec::new();
                proof {
                    assert(none.deep_view().to_set() =~= Set::<Seq<char>>::empty());
                }
                none
            },
        }
    };
    let kept = duplicate_strings(&inherited);
    cache.set(index, Some(kept));
    (own, inherited)
}

/// An entry with the tags of a path: it owns, sorted and each once, the
/// tags recorded for the path, and inherits, sorted, what the path
/// inherits; nothing else is changed.
pub open spec fn spec_tagged_entry(
    before: FileInfoView,
    key: Seq<SegmentView>,
    scanned: Seq<Seq<SegmentView>>,
    root: Seq<SegmentView>,
    direct: Map<Seq<SegmentView>, Seq<Seq<char>>>,
    root_ancestor: Seq<Seq<char>>,
) -> FileInfoView {
    FileInfoView {
        own_tags: rendered_tags(spec_own_tags(direct, key)),
        inherited_tags: rendered_tags(spec_inherited(scanned, root, direct, root_ancestor, key)),
        ..before
    }
}

/// The entries of a scan with their tags resolved under keys that stand
/// for their paths.
pub open spec fn spec_resolved(
    entries: Seq<FileInfoView>,
    keys: Seq<Seq<SegmentView>>,
    root: Seq<SegmentView>,
    direct: Map<Seq<SegmentView>, Seq<Seq<char>>>,
    root_ancestor: Seq<Seq<char>>,
) -> Seq<FileInfoView> {
    Seq::new(
        entries.len(),
        |i: int| spec_tagged_entry(entries[i], keys[i], keys, root, direct, root_ancestor),
    )
}

/// Whether an entry was given the tags of a path: it owns, sorted, the
/// tags recorded for the path, it inherits, sorted, what the path
/// inherits, and nothing else changed.
pub open spec fn entry_tagged(
    before: FileInfoView,
    after: FileInfoView,
    key: Seq<SegmentView>,
    scanned: Seq<Seq<SegmentView>>,
    root: Seq<SegmentView>,
    direct: Map<Seq<SegmentView>, Seq<Seq<char>>>,
    root_ancestor: Seq<Seq<char>>,
) -> bool {
    &&& after == FileInfoView {
        own_tags: after.own_tags,
        inherited_tags: after.inherited_tags,
        ..before
    }
    &&& is_tag_set(after.own_tags, spec_own_tags(direct, key))
    &&& is_tag_set(after.inherited_tags, spec_inherited(scanned, root, direct, root_ancestor, key))
}

/// An entry that was given the tags of a path is the entry that
/// `spec_tagged_entry` names.
pub proof fn lemma_entry_tagged(
    before: FileInfoView,
    after: FileInfoView,
    key: Seq<SegmentView>,
    scanned: Seq<Seq<SegmentView>>,
    root: Seq<SegmentView>,
    direct: Map<Seq<SegmentView>, Seq<Seq<char>>>,
    root_ancestor: Seq<Seq<char>>,
)
    requires
        entry_tagged(before, after, key, scanned, root, direct, root_ancestor),
    ensures
        after == spec_tagged_entry(before, key, scanned, root, direct, root_ancestor),
{
    lemma_rendered(after.own_tags, spec_own_tags(direct, key));
    lemma_rendered(
        after.inherited_tags,
        spec_inherited(scanned, root, direct, root_ancestor, key),
    );
}

/// The tags of a resolved entry are sorted lists: what it owns is the
/// sorted list of the tags recorded for its key, each once, and what it
/// inherits is the sorted list of what its key inherits.
pub proof fn lemma_resolved_tags(
    entries: Seq<FileInfoView>,
    keys: Seq<Seq<SegmentView>>,
    root: Seq<SegmentView>,
    direct: Map<Seq<SegmentView>, Seq<Seq<char>>>,
    root_ancestor: Seq<Seq<char>>,
    i: int,
)
    requires
        0 <= i < entries.len(),
    ensures
        is_tag_set(
            spec_resolved(entries, keys, root, direct, root_ancestor)[i].own_tags,
            spec_own_tags(direct, keys[i]),
        ),
        is_tag_set(
            spec_resolved(entries, keys, root, direct, root_ancestor)[i].inherited_tags,
            spec_inherited(keys, root, direct, root_ancestor, keys[i]),
        ),
{
    lemma_tags_finite(keys, root, direct, root_ancestor, keys[i]);
    lemma_rendering_exists(spec_own_tags(direct, keys[i]));
    lemma_rendering_exists(spec_inherited(keys, root, direct, root_ancestor, keys[i]));
}

/// Resolves the tags of the entries of a scan under keys that stand for
/// their paths: the entry at each place is given the tags of the key at
/// that place, the keys taking the part of the scanned paths. Where there
/// is not one key for each entry, nothing is done and the answer is no.
pub fn apply_tags_with_keys(
    root: &PathKey,
    keys: &Vec<PathKey>,
    entries: &mut Vec<FileInfo>,
    tag_snapshot: &DirectoryTagSnapshot,
) -> (done: bool)
    ensures
        done == (keys.len() == old(entries).len()),
        final(entries).len() == old(entries).len(),
        !done ==> final(entries).deep_view() == old(entries).deep_view(),
        done ==> final(entries).deep_view() == spec_resolved(
            old(entries).deep_view(),
            keys.deep_view(),
            root@,
            tag_snapshot.direct(),
            tag_snapshot.root_ancestor(),
        ),
        done ==> forall|i: int|
            0 <= i < old(entries).len() ==> is_tag_set(
                (#[trigger] final(entries)[i]@).own_tags,
                spec_own_tags(tag_snapshot.direct(), keys[i]@),
            ) && is_tag_set(
                final(entries)[i]@.inherited_tags,
                spec_inherited(
                    keys.deep_view(),
                    root@,
                    tag_snapshot.direct(),
                    tag_snapshot.root_ancestor(),
                    keys[i]@,
                ),
            ),
{
    if keys.len() != entries.len() {
        return false;
    }
    let ghost start = entries.deep_view();
    let ghost scanned = keys.deep_view();
    let ghost direct = tag_snapshot.direct();
    let ghost above = tag_snapshot.root_ancestor();
    let parents = find_parents(keys);
    let tagged = tag_snapshot.build_index();
    let mut cache: Vec<Option<Vec<String>>> = Vec::new();
    let mut k: usize = 0;
    while k < entries.len()
        invariant
            0 <= k <= entries.len(),
            cache.len() == k,
            forall|i: int| 0 <= i < k ==> (#[trigger] cache[i]) is None,
        decreases entries.len() - k,
    {
        cache.push(None);
        k = k + 1;
    }
    let mut i: usize = 0;
    while i < entries.len()
        invariant
            0 <= i <= entries.len(),
            entries.len() == start.len(),
            keys.len() == entries.len(),
            scanned == keys.deep_view(),
            direct == tag_snapshot.direct(),
            above == tag_snapshot.root_ancestor(),
            parents_of(scanned, parents@),
            tagged.wf(),
            tagged.labels() == tag_snapshot.labels(),
            cache_holds(cache@, scanned, root@, direct, above),
            forall|j: int| i <= j < entries.len() ==> (#[trigger] entries[j])@ == start[j],
            forall|j: int|
                0 <= j < i ==> entry_tagged(
                    start[j],
                    (#[trigger] entries[j])@,
                    keys[j]@,
                    scanned,
                    root@,
                    direct,
                    above,
                ),
        decreases entries.len() - i,
    {
        let tags = compute_own_and_inherited_tags(
            i,
            root,
            keys,
            &parents,
            tag_snapshot,
            &tagged,
            &mut cache,
        );
        entries[i].own_tags = tags.0;
        entries[i].inherited_tags = tags.1;
        i = i + 1;
    }
    proof {
        let resolved = spec_resolved(start, scanned, root@, direct, above);
        assert forall|j: int| 0 <= j < start.len() implies entries.deep_view()[j]
            == resolved[j] by {
            assert(scanned[j] == keys[j]@);
            lemma_entry_tagged(start[j], entries[j]@, keys[j]@, scanned, root@, direct, above);
        }
        assert(entries.deep_view() =~= resolved);
    }
    true
}

/// Resolves the tags of every entry of a scan: each entry comes to own the
/// tags recorded for its path and to inherit what its parent owns and
/// inherits, the root inheriting the tags from above the scan. Both lists
/// are sorted and hold each tag once.
pub fn apply_tags(root: &PathKey, entries: &mut Vec<FileInfo>, tag_snapshot: &DirectoryTagSnapshot)
    ensures
        final(entries).deep_view() == spec_resolved(
            old(entries).deep_view(),
            entry_paths(old(entries).deep_view()),
            root@,
            tag_snapshot.direct(),
            tag_snapshot.root_ancestor(),
        ),
        forall|i: int|
            0 <= i < old(entries).len() ==> is_tag_set(
                (#[trigger] final(entries)[i]@).own_tags,
                spec_own_tags(tag_snapshot.direct(), old(entries)[i]@.path),
            ) && is_tag_set(
                final(entries)[i]@.inherited_tags,
                spec_inherited(
                    entry_paths(old(entries).deep_view()),
                    root@,
                    tag_snapshot.direct(),
                    tag_snapshot.root_ancestor(),
                    old(entries)[i]@.path,
                ),
            ),
{
    let ghost start = entries.deep_view();
    let mut keys: Vec<PathKey> = Vec::new();
    let mut j: usize = 0;
    while j < entries.len()
        invariant
            0 <= j <= entries.len(),
            start == entries.deep_view(),
            keys.len() == j,
            forall|k: int| 0 <= k < j ==> (#[trigger] keys[k])@ == start[k].path,
        decreases entries.len() - j,
    {
        proof {
            assert(start[j as int] == entries[j as int]@);
        }
        keys.push(entries[j].path.duplicate());
        j = j + 1;
    }
    proof {
        assert(keys.deep_view() =~= entry_paths(start));
        assert forall|i: int| 0 <= i < start.len() implies start[i] == #[trigger] entries[i]@ by {}
    }
    let done = apply_tags_with_keys(root, &keys, entries, tag_snapshot);
    proof {
        assert forall|i: int| 0 <= i < start.len() implies keys[i]@ == old(entries)[i]@.path by {
            assert(start[i] == old(entries)[i]@);
        }
    }
}

/// The tree of a scan from the entries that the walk found and the tags of
/// its range: the tags of every entry are resolved, then the tree is built
/// from the root.
pub fn perform_scan(root: &PathKey, entries: Vec<FileInfo>, tags: &DirectoryTagSnapshot) -> (result:
    Result<DirectoryNode, ScanError>)
    ensures
        tree_matches(
            result,
            spec_resolved(
                entries.deep_view(),
                entry_paths(entries.deep_view()),
                root@,
                tags.direct(),
                tags.root_ancestor(),
            ),
            *root,
        ),
{
    let mut entries = entries;
    apply_tags(root, &mut entries, tags);
    build_directory_tree(root, &entries)
}

} // verus!
