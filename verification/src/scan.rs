//! Scanned entries and the tree built from them.

use crate::index::{lemma_places, places_of, LabelIndex};
use crate::order::sort_children;
use crate::path::{spec_file_name, spec_parent, spec_parent_label, spec_tail_label};
use crate::path::{PathKey, SegmentView};
use crate::text::{compare_text, text_le, text_lt, text_order, TextOrder};
use crate::text::{lemma_text_lt_total, lemma_text_lt_transitive};
use vstd::prelude::*;
use vstd::string::*;

verus! {

/// What is known of one scanned entry.
#[derive(Clone, Debug)]
pub struct FileInfo {
    pub path: PathKey,
    pub is_directory: bool,
    pub is_symlink: bool,
    pub size: u64,
    pub hierarchy: Vec<String>,
    pub modified: Option<String>,
    pub own_tags: Vec<String>,
    pub inherited_tags: Vec<String>,
    pub windows_tags: Vec<String>,
}

/// An entry as a mathematical value.
pub ghost struct FileInfoView {
    pub path: Seq<SegmentView>,
    pub path_text: Seq<char>,
    pub is_directory: bool,
    pub is_symlink: bool,
    pub size: u64,
    pub hierarchy: Seq<Seq<char>>,
    pub modified: Option<Seq<char>>,
    pub own_tags: Seq<Seq<char>>,
    pub inherited_tags: Seq<Seq<char>>,
    pub windows_tags: Seq<Seq<char>>,
}

/// The text of an optional string.
pub open spec fn option_text(value: Option<String>) -> Option<Seq<char>> {
    match value {
        Some(s) => Some(s@),
        None => None,
    }
}

impl View for FileInfo {
    type V = FileInfoView;

    open spec fn view(&self) -> FileInfoView {
        FileInfoView {
            path: self.path@,
            path_text: self.path.text_view(),
            is_directory: self.is_directory,
            is_symlink: self.is_symlink,
            size: self.size,
            hierarchy: self.hierarchy.deep_view(),
            modified: option_text(self.modified),
            own_tags: self.own_tags.deep_view(),
            inherited_tags: self.inherited_tags.deep_view(),
            windows_tags: self.windows_tags.deep_view(),
        }
    }
}

impl DeepView for FileInfo {
    type V = FileInfoView;

    open spec fn deep_view(&self) -> FileInfoView {
        self@
    }
}

/// A copy of a list of strings.
pub fn duplicate_strings(list: &Vec<String>) -> (copy: Vec<String>)
    ensures
        copy.deep_view() == list.deep_view(),
{
    let mut copy: Vec<String> = Vec::new();
    let mut i: usize = 0;
    while i < list.len()
        invariant
            0 <= i <= list.len(),
            copy.len() == i,
            forall|k: int| 0 <= k < i ==> copy[k]@ == list[k]@,
        decreases list.len() - i,
    {
        copy.push(list[i].clone());
        i = i + 1;
    }
    proof {
        assert(copy.deep_view() =~= list.deep_view());
    }
    copy
}

impl FileInfo {
    /// A copy of the entry.
    pub fn duplicate(&self) -> (copy: FileInfo)
        ensures
            copy@ == self@,
    {
        let modified = match &self.modified {
            Some(s) => Some(s.clone()),
            None => None,
        };
        FileInfo {
            path: self.path.duplicate(),
            is_directory: self.is_directory,
            is_symlink: self.is_symlink,
            size: self.size,
            hierarchy: duplicate_strings(&self.hierarchy),
            modified,
            own_tags: duplicate_strings(&self.own_tags),
            inherited_tags: duplicate_strings(&self.inherited_tags),
            windows_tags: duplicate_strings(&self.windows_tags),
        }
    }
}

/// A node of the tree: an entry, its display name and its children.
#[derive(Debug)]
pub struct DirectoryNode {
    pub name: String,
    pub info: FileInfo,
    pub children: Vec<DirectoryNode>,
}

/// A node as a mathematical value.
pub ghost struct NodeView {
    pub name: Seq<char>,
    pub info: FileInfoView,
    pub children: Seq<NodeView>,
}

/// The mathematical value of a node: its name, its entry and the values of
/// its children, in order.
pub open spec fn node_view(node: DirectoryNode) -> NodeView
    decreases node,
{
    NodeView {
        name: node.name@,
        info: node.info@,
        children: Seq::new(
            node.children.len() as nat,
            |i: int|
                if 0 <= i < node.children.len() {
                    node_view(node.children[i])
                } else {
                    arbitrary()
                },
        ),
    }
}

impl DeepView for DirectoryNode {
    type V = NodeView;

    open spec fn deep_view(&self) -> NodeView {
        node_view(*self)
    }
}

impl View for DirectoryNode {
    type V = NodeView;

    open spec fn view(&self) -> NodeView {
        node_view(*self)
    }
}

/// The children of a node, as the view of the list that holds them.
pub proof fn lemma_node_children_view(node: DirectoryNode)
    ensures
        node@.children == node.children.deep_view(),
        node@.name == node.name@,
        node@.info == node.info@,
{
    assert(node@.children =~= node.children.deep_view());
}

/// Whether `a` may stand before `b` among the children of one node:
/// directories stand before files, and within a kind names ascend.
pub open spec fn node_le(a: NodeView, b: NodeView) -> bool {
    if a.info.is_directory != b.info.is_directory {
        a.info.is_directory
    } else {
        text_le(a.name, b.name)
    }
}

/// The three-way comparison of two nodes by kind, then by name.
pub open spec fn node_order(a: NodeView, b: NodeView) -> TextOrder {
    if a.info.is_directory && !b.info.is_directory {
        TextOrder::Less
    } else if !a.info.is_directory && b.info.is_directory {
        TextOrder::Greater
    } else {
        text_order(a.name, b.name)
    }
}

/// Compares two nodes: a directory comes before a file, and two nodes of
/// one kind compare as their names do.
pub fn compare_nodes(a: &DirectoryNode, b: &DirectoryNode) -> (order: TextOrder)
    ensures
        order == node_order(a@, b@),
        (order != TextOrder::Greater) == node_le(a@, b@),
{
    proof {
        lemma_node_children_view(*a);
        lemma_node_children_view(*b);
        lemma_text_lt_total(a.name@, b.name@);
    }
    if a.info.is_directory && !b.info.is_directory {
        TextOrder::Less
    } else if !a.info.is_directory && b.info.is_directory {
        TextOrder::Greater
    } else {
        compare_text(a.name.as_str(), b.name.as_str())
    }
}

/// Whether every node of a list may stand before all that follow it.
pub open spec fn nodes_sorted(nodes: Seq<NodeView>) -> bool {
    forall|i: int, j: int| 0 <= i < j < nodes.len() ==> node_le(nodes[i], nodes[j])
}

/// A sorted list with one more node: the node goes behind the last node
/// that may stand before it, so that equal nodes keep their order.
pub open spec fn insert_ordered(sorted: Seq<NodeView>, node: NodeView) -> Seq<NodeView>
    decreases sorted.len(),
{
    if sorted.len() == 0 {
        seq![node]
    } else if node_le(sorted.last(), node) {
        sorted.push(node)
    } else {
        insert_ordered(sorted.drop_last(), node).push(sorted.last())
    }
}

/// The nodes of a list in order: directories first, names ascending, nodes
/// that compare equal in the order in which they came.
pub open spec fn sort_nodes(nodes: Seq<NodeView>) -> Seq<NodeView>
    decreases nodes.len(),
{
    if nodes.len() == 0 {
        seq![]
    } else {
        insert_ordered(sort_nodes(nodes.drop_last()), nodes.last())
    }
}

/// The order on nodes is total and transitive.
pub proof fn lemma_node_le_properties(a: NodeView, b: NodeView, c: NodeView)
    ensures
        node_le(a, b) || node_le(b, a),
        node_le(a, b) && node_le(b, c) ==> node_le(a, c),
{
    lemma_text_lt_total(a.name, b.name);
    if node_le(a, b) && node_le(b, c) {
        if a.info.is_directory == b.info.is_directory && b.info.is_directory
            == c.info.is_directory {
            if text_lt(a.name, b.name) && text_lt(b.name, c.name) {
                lemma_text_lt_transitive(a.name, b.name, c.name);
            }
        }
    }
}

/// Inserting keeps a sorted list sorted, and adds the node and nothing else.
pub proof fn lemma_insert_ordered_sorted(sorted: Seq<NodeView>, node: NodeView)
    requires
        nodes_sorted(sorted),
    ensures
        nodes_sorted(insert_ordered(sorted, node)),
        insert_ordered(sorted, node).to_multiset() == sorted.to_multiset().insert(node),
        insert_ordered(sorted, node).len() == sorted.len() + 1,
    decreases sorted.len(),
{
    broadcast use vstd::seq_lib::group_to_multiset_ensures;

    let result = insert_ordered(sorted, node);
    if sorted.len() == 0 {
        assert(seq![node] =~= Seq::<NodeView>::empty().push(node));
    } else if node_le(sorted.last(), node) {
        assert forall|i: int, j: int| 0 <= i < j < result.len() implies node_le(
            result[i],
            result[j],
        ) by {
            if j == sorted.len() {
                if i < sorted.len() - 1 {
                    lemma_node_le_properties(sorted[i], sorted.last(), node);
                }
            }
        }
    } else {
        let front = sorted.drop_last();
        lemma_insert_ordered_sorted(front, node);
        let inner = insert_ordered(front, node);
        lemma_node_le_properties(sorted.last(), node, node);
        assert forall|i: int, j: int| 0 <= i < j < result.len() implies node_le(
            result[i],
            result[j],
        ) by {
            if j == inner.len() {
                assert(inner.to_multiset().count(inner[i]) > 0);
                if inner[i] == node {
                } else {
                    assert(front.to_multiset().count(inner[i]) > 0);
                    let k = choose|k: int| 0 <= k < front.len() && front[k] == inner[i];
                    assert(node_le(sorted[k], sorted[sorted.len() - 1]));
                }
            }
        }
        assert(sorted =~= front.push(sorted.last()));
        assert(result.to_multiset() =~= sorted.to_multiset().insert(node));
    }
}

/// Sorting yields a sorted list of the same nodes.
pub proof fn lemma_sort_nodes_sorted(nodes: Seq<NodeView>)
    ensures
        nodes_sorted(sort_nodes(nodes)),
        sort_nodes(nodes).to_multiset() == nodes.to_multiset(),
        sort_nodes(nodes).len() == nodes.len(),
    decreases nodes.len(),
{
    broadcast use vstd::seq_lib::group_to_multiset_ensures;

    if nodes.len() == 0 {
        assert(nodes =~= Seq::<NodeView>::empty());
    } else {
        lemma_sort_nodes_sorted(nodes.drop_last());
        lemma_insert_ordered_sorted(sort_nodes(nodes.drop_last()), nodes.last());
        assert(nodes =~= nodes.drop_last().push(nodes.last()));
    }
}

/// Whether the order tells the nodes of a list apart: two nodes that may
/// each stand before the other are the same node.
pub open spec fn order_tells_apart(nodes: Seq<NodeView>) -> bool {
    forall|i: int, j: int|
        0 <= i < nodes.len() && 0 <= j < nodes.len() && node_le(nodes[i], nodes[j]) && node_le(
            nodes[j],
            nodes[i],
        ) ==> nodes[i] == nodes[j]
}

/// Two sorted lists of the same nodes are the same list, where the order
/// tells the nodes apart.
pub proof fn lemma_sorted_lists_equal(first: Seq<NodeView>, second: Seq<NodeView>)
    requires
        nodes_sorted(first),
        nodes_sorted(second),
        first.to_multiset() == second.to_multiset(),
        order_tells_apart(first),
    ensures
        first == second,
    decreases first.len(),
{
    broadcast use vstd::seq_lib::group_to_multiset_ensures;

    assert(first.to_multiset().len() == first.len());
    assert(second.to_multiset().len() == second.len());
    if first.len() == 0 {
        assert(first =~= second);
    } else {
        let x = first[0];
        let y = second[0];
        assert(second.to_multiset().count(y) > 0);
        assert(first.to_multiset().count(y) > 0);
        let k = choose|k: int| 0 <= k < first.len() && first[k] == y;
        assert(first.to_multiset().count(x) > 0);
        assert(second.to_multiset().count(x) > 0);
        let m = choose|m: int| 0 <= m < second.len() && second[m] == x;
        lemma_text_lt_total(x.name, x.name);
        assert(node_le(x, y)) by {
            if k > 0 {
                assert(node_le(first[0], first[k]));
            }
        }
        assert(node_le(y, x)) by {
            if m > 0 {
                assert(node_le(second[0], second[m]));
            }
        }
        assert(node_le(first[0], first[k]) && node_le(first[k], first[0]));
        assert(x == y);
        let rest_first = first.remove(0);
        let rest_second = second.remove(0);
        assert(rest_first.to_multiset() =~= rest_second.to_multiset());
        assert forall|i: int, j: int| 0 <= i < j < rest_first.len() implies node_le(
            rest_first[i],
            rest_first[j],
        ) by {
            assert(node_le(first[i + 1], first[j + 1]));
        }
        assert forall|i: int, j: int| 0 <= i < j < rest_second.len() implies node_le(
            rest_second[i],
            rest_second[j],
        ) by {
            assert(node_le(second[i + 1], second[j + 1]));
        }
        assert forall|i: int, j: int|
            0 <= i < rest_first.len() && 0 <= j < rest_first.len() && node_le(
                rest_first[i],
                rest_first[j],
            ) && node_le(rest_first[j], rest_first[i]) implies rest_first[i] == rest_first[j] by {
            assert(rest_first[i] == first[i + 1]);
            assert(rest_first[j] == first[j + 1]);
        }
        lemma_sorted_lists_equal(rest_first, rest_second);
        assert(first =~= seq![x] + rest_first);
        assert(second =~= seq![y] + rest_second);
    }
}

/// The order of the children of a node does not depend on the order in
/// which they were found, where the order tells them apart: lists of the
/// same nodes sort to the same list.
pub proof fn lemma_sort_order_free(first: Seq<NodeView>, second: Seq<NodeView>)
    requires
        first.to_multiset() == second.to_multiset(),
        order_tells_apart(first),
    ensures
        sort_nodes(first) == sort_nodes(second),
{
    broadcast use vstd::seq_lib::group_to_multiset_ensures;

    lemma_sort_nodes_sorted(first);
    lemma_sort_nodes_sorted(second);
    let sorted = sort_nodes(first);
    assert forall|i: int, j: int|
        0 <= i < sorted.len() && 0 <= j < sorted.len() && node_le(sorted[i], sorted[j])
            && node_le(sorted[j], sorted[i]) implies sorted[i] == sorted[j] by {
        assert(sorted.to_multiset().count(sorted[i]) > 0);
        assert(sorted.to_multiset().count(sorted[j]) > 0);
        assert(first.to_multiset().count(sorted[i]) > 0);
        assert(first.to_multiset().count(sorted[j]) > 0);
        let p = choose|p: int| 0 <= p < first.len() && first[p] == sorted[i];
        let q = choose|q: int| 0 <= q < first.len() && first[q] == sorted[j];
        assert(node_le(first[p], first[q]) && node_le(first[q], first[p]));
    }
    lemma_sorted_lists_equal(sorted, sort_nodes(second));
}

/// Why a scan failed.
#[derive(Debug)]
pub enum ScanError {
    /// The working directory could not be found; the text says why.
    CurrentDir(String),
    /// No entry of the scan has the path of the root.
    MissingRoot(PathKey),
    /// The walk met an error other than a refusal of permission.
    Io(String),
    /// The tags could not be fetched.
    Database(String),
}

/// A text as the debug format writes it: in quotes, with what is not
/// printable escaped.
pub uninterp spec fn quoted_of(text: Seq<char>) -> Seq<char>;

/// The debug format of a string slice, by `format!` with `{:?}`. Believed,
/// not proved.
#[verifier::external_body]
fn quoted_text(text: &str) -> (quoted: String)
    ensures
        quoted@ == quoted_of(text@),
{
    format!("{:?}", text)
}

impl ScanError {
    /// The message of the error as a mathematical value.
    pub open spec fn spec_message(&self) -> Seq<char> {
        match self {
            ScanError::CurrentDir(reason) => "Failed to get current directory: "@ + reason@,
            ScanError::MissingRoot(path) => "Root path not found in scan results: "@ + quoted_of(
                path.text_view(),
            ),
            ScanError::Io(reason) => "IO error: "@ + reason@,
            ScanError::Database(reason) => "Database error: "@ + reason@,
        }
    }

    /// The message of the error, for a reader.
    pub fn message(&self) -> (text: String)
        ensures
            text@ == self.spec_message(),
    {
        match self {
            ScanError::CurrentDir(reason) => {
                let mut text = String::from_str("Failed to get current directory: ");
                text.append(reason.as_str());
                text
            },
            ScanError::MissingRoot(path) => {
                let mut text = String::from_str("Root path not found in scan results: ");
                let quoted = quoted_text(path.as_str());
                text.append(quoted.as_str());
                text
            },
            ScanError::Io(reason) => {
                let mut text = String::from_str("IO error: ");
                text.append(reason.as_str());
                text
            },
            ScanError::Database(reason) => {
                let mut text = String::from_str("Database error: ");
                text.append(reason.as_str());
                text
            },
        }
    }
}

/// The longest path among the entries, in segments.
pub open spec fn max_path_len(entries: Seq<FileInfoView>) -> nat
    decreases entries.len(),
{
    if entries.len() == 0 {
        0
    } else {
        let rest = max_path_len(entries.drop_last());
        if entries.last().path.len() > rest {
            entries.last().path.len()
        } else {
            rest
        }
    }
}

/// No path is longer than the longest.
pub proof fn lemma_path_len_bounded(entries: Seq<FileInfoView>, i: int)
    requires
        0 <= i < entries.len(),
    ensures
        entries[i].path.len() <= max_path_len(entries),
    decreases entries.len(),
{
    if i < entries.len() - 1 {
        lemma_path_len_bounded(entries.drop_last(), i);
    }
}

/// Whether the entry at `child` lies directly in the entry at `parent`: the
/// parent of its path is the path of the other.
pub open spec fn is_child_entry(entries: Seq<FileInfoView>, child: int, parent: int) -> bool {
    &&& 0 <= child < entries.len()
    &&& 0 <= parent < entries.len()
    &&& spec_parent(entries[child].path) == Some(entries[parent].path)
}

/// The children of an entry among the first `upto` entries, by index,
/// ascending.
pub open spec fn spec_children_upto(entries: Seq<FileInfoView>, parent: int, upto: nat) -> Seq<int>
    decreases upto,
{
    if upto == 0 {
        seq![]
    } else {
        let rest = spec_children_upto(entries, parent, (upto - 1) as nat);
        if is_child_entry(entries, upto - 1, parent) {
            rest.push(upto - 1)
        } else {
            rest
        }
    }
}

/// The children of an entry, by index, ascending.
pub open spec fn spec_children(entries: Seq<FileInfoView>, parent: int) -> Seq<int> {
    spec_children_upto(entries, parent, entries.len())
}

/// How many levels may still lie below an entry.
pub open spec fn tree_budget(entries: Seq<FileInfoView>, index: int) -> nat {
    if 0 <= index < entries.len() {
        (max_path_len(entries) - entries[index].path.len()) as nat
    } else {
        0
    }
}

/// The display name of an entry: the final name of its path, or the whole
/// text where the path does not end in a name.
pub open spec fn spec_node_name(info: FileInfoView) -> Seq<char> {
    match spec_file_name(info.path) {
        Some(name) => name,
        None => info.path_text,
    }
}

/// The subtrees of the listed children of `parent`, in the order listed.
pub open spec fn spec_nodes_of(entries: Seq<FileInfoView>, parent: int, indices: Seq<int>) -> Seq<
    NodeView,
>
    decreases tree_budget(entries, parent), 0nat, indices.len(),
{
    if indices.len() == 0 {
        seq![]
    } else {
        let rest = spec_nodes_of(entries, parent, indices.drop_last());
        let child = indices.last();
        if is_child_entry(entries, child, parent) {
            proof {
                lemma_path_len_bounded(entries, child);
            }
            rest.push(spec_tree(entries, child))
        } else {
            rest
        }
    }
}

/// The tree below an entry: the entry under its display name, with the
/// trees of its children, sorted.
pub open spec fn spec_tree(entries: Seq<FileInfoView>, index: int) -> NodeView
    decreases tree_budget(entries, index), 1nat, 0nat,
{
    NodeView {
        name: spec_node_name(entries[index]),
        info: entries[index],
        children: sort_nodes(spec_nodes_of(entries, index, spec_children(entries, index))),
    }
}

/// The index of the first entry whose path is `root`.
pub open spec fn root_position(entries: Seq<FileInfoView>, root: Seq<SegmentView>) -> Option<int>
    decreases entries.len(),
{
    if entries.len() == 0 {
        None
    } else {
        match root_position(entries.drop_last(), root) {
            Some(i) => Some(i),
            None => if entries.last().path == root {
                Some(entries.len() - 1)
            } else {
                None
            },
        }
    }
}

/// `root_position` finds the first entry with the path, and none exactly
/// where no entry has it.
pub proof fn lemma_root_position(entries: Seq<FileInfoView>, root: Seq<SegmentView>)
    ensures
        match root_position(entries, root) {
            Some(i) => 0 <= i < entries.len() && entries[i].path == root && forall|k: int|
                0 <= k < i ==> entries[k].path != root,
            None => forall|k: int| 0 <= k < entries.len() ==> entries[k].path != root,
        },
    decreases entries.len(),
{
    if entries.len() > 0 {
        let front = entries.drop_last();
        lemma_root_position(front, root);
        assert(forall|k: int| 0 <= k < front.len() ==> front[k] == entries[k]);
        match root_position(front, root) {
            Some(i) => {
                assert(entries[i] == front[i]);
                assert forall|k: int| 0 <= k < i implies entries[k].path != root by {
                    assert(front[k] == entries[k]);
                }
            },
            None => {
                assert forall|k: int| 0 <= k < entries.len() - 1 implies entries[k].path
                    != root by {
                    assert(front[k] == entries[k]);
                }
            },
        }
    }
}

/// Whether the indices are those of entries, each a child of `parent`.
pub open spec fn all_children(entries: Seq<FileInfoView>, parent: int, indices: Seq<int>) -> bool {
    forall|k: int| 0 <= k < indices.len() ==> is_child_entry(entries, #[trigger] indices[k], parent)
}

/// Every index listed among the children of an entry is a child of it.
pub proof fn lemma_children_are_children(entries: Seq<FileInfoView>, parent: int, upto: nat)
    ensures
        all_children(entries, parent, spec_children_upto(entries, parent, upto)),
        forall|k: int|
            0 <= k < spec_children_upto(entries, parent, upto).len() ==> #[trigger] spec_children_upto(
                entries,
                parent,
                upto,
            )[k] < upto,
    decreases upto,
{
    if upto > 0 {
        lemma_children_are_children(entries, parent, (upto - 1) as nat);
    }
}

/// The indices of a list as mathematical integers.
pub open spec fn index_values(list: Seq<usize>) -> Seq<int> {
    list.map_values(|j: usize| j as int)
}

/// Whether `adjacency` holds, for every entry, the indices of its children,
/// ascending.
pub open spec fn adjacency_of(entries: Seq<FileInfoView>, adjacency: Seq<Vec<usize>>) -> bool {
    &&& adjacency.len() == entries.len()
    &&& forall|i: int|
        0 <= i < entries.len() ==> index_values((#[trigger] adjacency[i])@) == spec_children(
            entries,
            i,
        )
}

/// Entries that are no children of an entry add nothing to its children.
pub proof fn lemma_no_children_between(entries: Seq<FileInfoView>, parent: int, from: nat, to: nat)
    requires
        from <= to,
        forall|x: int| from <= x < to ==> !is_child_entry(entries, x, parent),
    ensures
        spec_children_upto(entries, parent, to) == spec_children_upto(entries, parent, from),
    decreases to - from,
{
    if from < to {
        lemma_no_children_between(entries, parent, from, (to - 1) as nat);
    }
}

/// A number that lies between two neighbours of an ascending list is not
/// in the list.
pub proof fn lemma_gap(list: Seq<int>, k: int, x: int)
    requires
        forall|a: int, b: int| 0 <= a < b < list.len() ==> list[a] < list[b],
        0 <= k <= list.len(),
        k > 0 ==> list[k - 1] < x,
        k < list.len() ==> x < list[k],
    ensures
        !list.contains(x),
{
    if list.contains(x) {
        let m = choose|m: int| 0 <= m < list.len() && list[m] == x;
        if m < k {
            if m < k - 1 {
                assert(list[m] < list[k - 1]);
            }
        } else {
            if m > k {
                assert(list[k] < list[m]);
            }
        }
    }
}

/// The labels under which the children of entries are sought: for every
/// entry the text of the last segment but one of its path.
pub open spec fn parent_labels(entries: Seq<FileInfoView>) -> Seq<Seq<char>> {
    entries.map_values(|e: FileInfoView| spec_parent_label(e.path))
}

/// For every entry, the indices of the entries that lie directly in it.
/// The entries are sought by the name that their parent must have, so that
/// an entry is held against those few only.
pub fn build_adjacency(entries: &Vec<FileInfo>) -> (adjacency: Vec<Vec<usize>>)
    ensures
        adjacency_of(entries.deep_view(), adjacency@),
{
    let ghost all = entries.deep_view();
    let mut labels: Vec<String> = Vec::new();
    let mut j: usize = 0;
    while j < entries.len()
        invariant
            0 <= j <= entries.len(),
            all == entries.deep_view(),
            labels.len() == j,
            forall|k: int| 0 <= k < j ==> labels[k]@ == spec_parent_label(all[k].path),
        decreases entries.len() - j,
    {
        proof {
            assert(all[j as int] == entries[j as int]@);
        }
        labels.push(entries[j].path.parent_label());
        j = j + 1;
    }
    proof {
        assert(labels.deep_view() =~= parent_labels(all));
    }
    let index = LabelIndex::build(&labels);
    let mut adjacency: Vec<Vec<usize>> = Vec::new();
    let mut i: usize = 0;
    while i < entries.len()
        invariant
            0 <= i <= entries.len(),
            all == entries.deep_view(),
            index.wf(),
            index.labels() == parent_labels(all),
            adjacency.len() == i,
            forall|p: int|
                0 <= p < i ==> index_values((#[trigger] adjacency[p])@) == spec_children(all, p),
        decreases entries.len() - i,
    {
        proof {
            assert(all[i as int] == entries[i as int]@);
        }
        let own = entries[i].path.tail_label();
        let candidates = index.places(own.as_str());
        let ghost found = index_values(candidates@);
        proof {
            lemma_places(parent_labels(all), own@, 0);
        }
        let mut list: Vec<usize> = Vec::new();
        let mut k: usize = 0;
        proof {
            assert(index_values(list@) =~= spec_children_upto(all, i as int, 0));
        }
        while k < candidates.len()
            invariant
                0 <= k <= candidates.len(),
                i < entries.len(),
                all == entries.deep_view(),
                found == index_values(candidates@),
                found == places_of(parent_labels(all), own@),
                own@ == spec_tail_label(all[i as int].path),
                forall|a: int, b: int| 0 <= a < b < found.len() ==> found[a] < found[b],
                forall|m: int| 0 <= m < found.len() ==> 0 <= #[trigger] found[m] < all.len(),
                forall|x: int|
                    0 <= x < all.len() && parent_labels(all)[x] == own@ ==> found.contains(x),
                index_values(list@) == spec_children_upto(
                    all,
                    i as int,
                    if k == 0 {
                        0nat
                    } else {
                        (found[k - 1] + 1) as nat
                    },
                ),
            decreases candidates.len() - k,
        {
            let child = candidates[k];
            let ghost before = list@;
            let ghost reached: nat = if k == 0 {
                0nat
            } else {
                (found[k - 1] + 1) as nat
            };
            proof {
                assert(found[k as int] == child as int);
                if k > 0 {
                    assert(found[k - 1] < found[k as int]);
                }
                assert forall|x: int| reached <= x < child implies !is_child_entry(
                    all,
                    x,
                    i as int,
                ) by {
                    lemma_gap(found, k as int, x);
                    if is_child_entry(all, x, i as int) {
                        assert(parent_labels(all)[x] == own@);
                    }
                }
                lemma_no_children_between(all, i as int, reached, child as nat);
                assert(all[child as int] == entries[child as int]@);
            }
            if entries[child].path.is_child_of(&entries[i].path) {
                list.push(child);
                proof {
                    assert(index_values(list@) =~= index_values(before).push(child as int));
                }
            }
            k = k + 1;
        }
        proof {
            let reached: nat = if k == 0 {
                0nat
            } else {
                (found[k - 1] + 1) as nat
            };
            assert forall|x: int| reached <= x < all.len() implies !is_child_entry(
                all,
                x,
                i as int,
            ) by {
                lemma_gap(found, k as int, x);
                if is_child_entry(all, x, i as int) {
                    assert(parent_labels(all)[x] == own@);
                }
            }
            lemma_no_children_between(all, i as int, reached, all.len());
        }
        adjacency.push(list);
        i = i + 1;
    }
    adjacency
}

/// Builds the tree below one entry: the entry under its display name, with
/// the trees of its children, sorted.
pub fn build_node(entries: &Vec<FileInfo>, adjacency: &Vec<Vec<usize>>, index: usize) -> (node:
    DirectoryNode)
    requires
        index < entries.len(),
        adjacency_of(entries.deep_view(), adjacency@),
    ensures
        node@ == spec_tree(entries.deep_view(), index as int),
    decreases tree_budget(entries.deep_view(), index as int),
{
    let ghost all = entries.deep_view();
    let info = entries[index].duplicate();
    let name = match info.path.file_name() {
        Some(n) => n.clone(),
        None => String::from_str(info.path.as_str()),
    };
    let list = &adjacency[index];
    let ghost indices = spec_children(all, index as int);
    proof {
        assert(all[index as int] == entries[index as int]@);
        lemma_children_are_children(all, index as int, all.len());
        assert(indices.take(0) =~= Seq::<int>::empty());
    }
    let mut children: Vec<DirectoryNode> = Vec::new();
    let mut k: usize = 0;
    while k < list.len()
        invariant
            0 <= k <= list.len(),
            index < entries.len(),
            all == entries.deep_view(),
            adjacency_of(all, adjacency@),
            indices == spec_children(all, index as int),
            index_values(list@) == indices,
            all_children(all, index as int, indices),
            children.deep_view() == spec_nodes_of(all, index as int, indices.take(k as int)),
        decreases list.len() - k,
    {
        let child = list[k];
        let ghost before = children.deep_view();
        proof {
            assert(indices[k as int] == child as int);
            assert(is_child_entry(all, child as int, index as int));
            lemma_path_len_bounded(all, child as int);
            assert(indices.take(k + 1).drop_last() =~= indices.take(k as int));
            assert(indices.take(k + 1).last() == child as int);
        }
        let subtree = build_node(entries, adjacency, child);
        children.push(subtree);
        proof {
            assert(children.deep_view() =~= before.push(subtree@));
        }
        k = k + 1;
    }
    proof {
        assert(indices.take(list.len() as int) =~= indices);
    }
    let children = sort_children(children);
    let node = DirectoryNode { name, info, children };
    proof {
        lemma_node_children_view(node);
    }
    node
}

/// Whether the children of every node of a tree stand in order: all
/// directories before all files, and within each kind names ascending.
pub open spec fn tree_well_ordered(node: NodeView) -> bool
    decreases node,
{
    &&& nodes_sorted(node.children)
    &&& forall|i: int|
        0 <= i < node.children.len() ==> tree_well_ordered(#[trigger] node.children[i])
}

/// Whether a node is the tree of one of the children of `parent`.
pub open spec fn is_child_tree(entries: Seq<FileInfoView>, parent: int, node: NodeView) -> bool {
    exists|j: int| is_child_entry(entries, j, parent) && node == spec_tree(entries, j)
}

/// Every subtree listed for a parent is the tree of one of its children.
pub proof fn lemma_nodes_of_are_trees(entries: Seq<FileInfoView>, parent: int, indices: Seq<int>)
    ensures
        forall|k: int|
            0 <= k < spec_nodes_of(entries, parent, indices).len() ==> is_child_tree(
                entries,
                parent,
                #[trigger] spec_nodes_of(entries, parent, indices)[k],
            ),
    decreases indices.len(),
{
    if indices.len() > 0 {
        lemma_nodes_of_are_trees(entries, parent, indices.drop_last());
        let rest = spec_nodes_of(entries, parent, indices.drop_last());
        let all = spec_nodes_of(entries, parent, indices);
        assert forall|k: int| 0 <= k < all.len() implies is_child_tree(
            entries,
            parent,
            #[trigger] all[k],
        ) by {
            if k < rest.len() {
                assert(all[k] == rest[k]);
            } else {
                assert(is_child_entry(entries, indices.last(), parent));
                assert(all[k] == spec_tree(entries, indices.last()));
            }
        }
    }
}

/// In the tree built below any entry, the children of every node stand in
/// order: all directories before all files, and within each kind names
/// ascending.
pub proof fn lemma_tree_well_ordered(entries: Seq<FileInfoView>, index: int)
    requires
        0 <= index < entries.len(),
    ensures
        tree_well_ordered(spec_tree(entries, index)),
    decreases tree_budget(entries, index),
{
    broadcast use vstd::seq_lib::group_to_multiset_ensures;

    let unsorted = spec_nodes_of(entries, index, spec_children(entries, index));
    let sorted = sort_nodes(unsorted);
    lemma_sort_nodes_sorted(unsorted);
    lemma_nodes_of_are_trees(entries, index, spec_children(entries, index));
    assert forall|i: int| 0 <= i < sorted.len() implies tree_well_ordered(
        #[trigger] sorted[i],
    ) by {
        assert(sorted.to_multiset().count(sorted[i]) > 0);
        assert(unsorted.to_multiset().count(sorted[i]) > 0);
        let k = choose|k: int| 0 <= k < unsorted.len() && unsorted[k] == sorted[i];
        assert(is_child_tree(entries, index, unsorted[k]));
        let j = choose|j: int|
            is_child_entry(entries, j, index) && unsorted[k] == spec_tree(entries, j);
        lemma_path_len_bounded(entries, j);
        lemma_tree_well_ordered(entries, j);
    }
}

/// Whether a result is the tree of the entries below the first entry with
/// the path of the root, every list of children in order, or the refusal
/// that names the root where no entry has its path.
pub open spec fn tree_matches(
    result: Result<DirectoryNode, ScanError>,
    entries: Seq<FileInfoView>,
    root: PathKey,
) -> bool {
    match result {
        Ok(node) => {
            &&& root_position(entries, root@) matches Some(i)
            &&& node@ == spec_tree(entries, i)
            &&& tree_well_ordered(node@)
        },
        Err(error) => {
            &&& root_position(entries, root@) is None
            &&& error matches ScanError::MissingRoot(path)
            &&& path@ == root@
            &&& path.text_view() == root.text_view()
        },
    }
}

/// Builds the tree of a scan. The root is the first entry whose path is
/// `root`; where no entry has that path, the scan is refused as lacking
/// its root. Below every node come the entries that lie directly in it,
/// directories first, names ascending.
pub fn build_directory_tree(root: &PathKey, entries: &Vec<FileInfo>) -> (result: Result<
    DirectoryNode,
    ScanError,
>)
    ensures
        tree_matches(result, entries.deep_view(), *root),
        result is Err <==> forall|i: int| 0 <= i < entries.len() ==> entries[i]@.path != root@,
{
    let ghost all = entries.deep_view();
    proof {
        lemma_root_position(all, root@);
        assert(forall|i: int| 0 <= i < entries.len() ==> all[i] == entries[i]@);
    }
    let adjacency = build_adjacency(entries);
    let mut i: usize = 0;
    while i < entries.len()
        invariant
            0 <= i <= entries.len(),
            all == entries.deep_view(),
            adjacency_of(all, adjacency@),
            forall|k: int| 0 <= k < i ==> all[k].path != root@,
            match root_position(all, root@) {
                Some(p) => 0 <= p < all.len() && all[p].path == root@ && forall|k: int|
                    0 <= k < p ==> all[k].path != root@,
                None => forall|k: int| 0 <= k < all.len() ==> all[k].path != root@,
            },
        decreases entries.len() - i,
    {
        proof {
            assert(all[i as int] == entries[i as int]@);
        }
        if entries[i].path.same_path(root) {
            proof {
                lemma_tree_well_ordered(all, i as int);
            }
            return Ok(build_node(entries, &adjacency, i));
        }
        i = i + 1;
    }
    proof {
        assert forall|k: int| 0 <= k < entries.len() implies entries[k]@.path != root@ by {
            assert(all[k] == entries[k]@);
        }
    }
    Err(ScanError::MissingRoot(root.duplicate()))
}

} // verus!
