//! Sorting the children of a node. The order that the tree asks for is
//! defined by inserting node after node; the sorting itself goes by halves
//! that are sorted and merged, and is proved to come to the same list.

use crate::scan::{compare_nodes, insert_ordered, lemma_insert_ordered_sorted};
use crate::scan::{lemma_node_le_properties, lemma_sort_nodes_sorted};
use crate::scan::{node_le, nodes_sorted, sort_nodes, DirectoryNode, NodeView};
use crate::text::TextOrder;
use vstd::prelude::*;

verus! {

/// Two sorted lists as one: the smaller of the two first nodes comes first,
/// the one of the left list where neither must stand before the other.
pub open spec fn merge_nodes(left: Seq<NodeView>, right: Seq<NodeView>) -> Seq<NodeView>
    decreases left.len() + right.len(),
{
    if left.len() == 0 {
        right
    } else if right.len() == 0 {
        left
    } else if node_le(left[0], right[0]) {
        seq![left[0]] + merge_nodes(left.drop_first(), right)
    } else {
        seq![right[0]] + merge_nodes(left, right.drop_first())
    }
}

/// Where a node goes into a sorted list, seen from the front: behind the
/// first node where that may stand before it, before the whole list where
/// it may not.
pub proof fn lemma_insert_front(head: NodeView, tail: Seq<NodeView>, node: NodeView)
    requires
        nodes_sorted(seq![head] + tail),
    ensures
        node_le(head, node) ==> insert_ordered(seq![head] + tail, node) == seq![head]
            + insert_ordered(tail, node),
        !node_le(head, node) ==> insert_ordered(seq![head] + tail, node) == seq![node] + (
        seq![head] + tail),
    decreases tail.len(),
{
    let whole = seq![head] + tail;
    if tail.len() == 0 {
        assert(whole =~= seq![head]);
        assert(whole.drop_last() =~= Seq::<NodeView>::empty());
        assert(insert_ordered(whole.drop_last(), node) =~= seq![node]);
        if node_le(head, node) {
            assert(whole.push(node) =~= seq![head] + seq![node]);
        } else {
            assert(seq![node].push(head) =~= seq![node] + whole);
        }
    } else {
        let last = tail.last();
        assert(whole.last() == last);
        assert(whole.drop_last() =~= seq![head] + tail.drop_last());
        assert(node_le(whole[0], whole[whole.len() - 1]));
        if node_le(last, node) {
            lemma_node_le_properties(head, last, node);
            assert(whole.push(node) =~= seq![head] + tail.push(node));
        } else {
            let front = seq![head] + tail.drop_last();
            assert forall|i: int, j: int| 0 <= i < j < front.len() implies node_le(
                front[i],
                front[j],
            ) by {
                assert(node_le(whole[i], whole[j]));
            }
            lemma_insert_front(head, tail.drop_last(), node);
            if node_le(head, node) {
                assert((seq![head] + insert_ordered(tail.drop_last(), node)).push(last)
                    =~= seq![head] + insert_ordered(tail.drop_last(), node).push(last));
            } else {
                assert((seq![node] + front).push(last) =~= seq![node] + whole);
            }
        }
    }
}

/// A sorted list without its first node is sorted.
pub proof fn lemma_tail_sorted(nodes: Seq<NodeView>)
    requires
        nodes_sorted(nodes),
        nodes.len() > 0,
    ensures
        nodes_sorted(nodes.drop_first()),
        nodes =~= seq![nodes[0]] + nodes.drop_first(),
{
    let tail = nodes.drop_first();
    assert forall|i: int, j: int| 0 <= i < j < tail.len() implies node_le(tail[i], tail[j]) by {
        assert(node_le(nodes[i + 1], nodes[j + 1]));
    }
}

/// The merge of two sorted lists is sorted, and every node of it comes
/// from one of the two.
pub proof fn lemma_merge_sorted(left: Seq<NodeView>, right: Seq<NodeView>)
    requires
        nodes_sorted(left),
        nodes_sorted(right),
    ensures
        nodes_sorted(merge_nodes(left, right)),
        merge_nodes(left, right).len() == left.len() + right.len(),
        forall|k: int|
            0 <= k < merge_nodes(left, right).len() ==> left.contains(
                #[trigger] merge_nodes(left, right)[k],
            ) || right.contains(merge_nodes(left, right)[k]),
    decreases left.len() + right.len(),
{
    let merged = merge_nodes(left, right);
    if left.len() == 0 {
        assert forall|k: int| 0 <= k < merged.len() implies right.contains(
            #[trigger] merged[k],
        ) by {}
    } else if right.len() == 0 {
        assert forall|k: int| 0 <= k < merged.len() implies left.contains(#[trigger] merged[k]) by {}
    } else {
        lemma_tail_sorted(left);
        lemma_tail_sorted(right);
        let from_left = node_le(left[0], right[0]);
        let head = if from_left {
            left[0]
        } else {
            right[0]
        };
        let rest_left = if from_left {
            left.drop_first()
        } else {
            left
        };
        let rest_right = if from_left {
            right
        } else {
            right.drop_first()
        };
        let rest = merge_nodes(rest_left, rest_right);
        lemma_merge_sorted(rest_left, rest_right);
        assert(merged =~= seq![head] + rest);
        lemma_node_le_properties(left[0], right[0], right[0]);
        assert forall|k: int| 0 <= k < rest.len() implies node_le(head, #[trigger] rest[k]) by {
            if rest_left.contains(rest[k]) {
                let a = choose|a: int| 0 <= a < rest_left.len() && rest_left[a] == rest[k];
                if from_left {
                    assert(node_le(left[0], left[a + 1]));
                } else {
                    if a > 0 {
                        assert(node_le(left[0], left[a]));
                    }
                    lemma_node_le_properties(right[0], left[0], left[a]);
                }
            } else {
                let b = choose|b: int| 0 <= b < rest_right.len() && rest_right[b] == rest[k];
                if from_left {
                    if b > 0 {
                        assert(node_le(right[0], right[b]));
                    }
                    lemma_node_le_properties(left[0], right[0], right[b]);
                } else {
                    assert(node_le(right[0], right[b + 1]));
                }
            }
        }
        assert forall|i: int, j: int| 0 <= i < j < merged.len() implies node_le(
            merged[i],
            merged[j],
        ) by {
            if i == 0 {
                assert(merged[j] == rest[j - 1]);
            } else {
                assert(merged[i] == rest[i - 1]);
                assert(merged[j] == rest[j - 1]);
            }
        }
        assert forall|k: int| 0 <= k < merged.len() implies left.contains(#[trigger] merged[k])
            || right.contains(merged[k]) by {
            if k == 0 {
                if from_left {
                    assert(left[0] == merged[0]);
                } else {
                    assert(right[0] == merged[0]);
                }
            } else {
                assert(merged[k] == rest[k - 1]);
                if rest_left.contains(rest[k - 1]) {
                    let a = choose|a: int| 0 <= a < rest_left.len() && rest_left[a] == rest[k - 1];
                    if from_left {
                        assert(left[a + 1] == merged[k]);
                    } else {
                        assert(left[a] == merged[k]);
                    }
                } else {
                    let b = choose|b: int|
                        0 <= b < rest_right.len() && rest_right[b] == rest[k - 1];
                    if from_left {
                        assert(right[b] == merged[k]);
                    } else {
                        assert(right[b + 1] == merged[k]);
                    }
                }
            }
        }
    }
}

/// Merging a sorted list with a single node inserts the node.
pub proof fn lemma_merge_single(left: Seq<NodeView>, node: NodeView)
    requires
        nodes_sorted(left),
    ensures
        merge_nodes(left, seq![node]) == insert_ordered(left, node),
    decreases left.len(),
{
    let single = seq![node];
    if left.len() == 0 {
        assert(insert_ordered(left, node) =~= single);
    } else {
        lemma_tail_sorted(left);
        lemma_insert_front(left[0], left.drop_first(), node);
        if node_le(left[0], node) {
            lemma_merge_single(left.drop_first(), node);
        } else {
            assert(single.drop_first() =~= Seq::<NodeView>::empty());
            assert(merge_nodes(left, single.drop_first()) == left);
        }
    }
}

/// Inserting a node into the merge of two sorted lists is merging after
/// inserting it into the right one.
pub proof fn lemma_insert_into_merge(left: Seq<NodeView>, right: Seq<NodeView>, node: NodeView)
    requires
        nodes_sorted(left),
        nodes_sorted(right),
    ensures
        insert_ordered(merge_nodes(left, right), node) == merge_nodes(
            left,
            insert_ordered(right, node),
        ),
    decreases left.len() + right.len(),
{
    let grown = insert_ordered(right, node);
    lemma_insert_ordered_sorted(right, node);
    if left.len() == 0 {
    } else if right.len() == 0 {
        assert(grown =~= seq![node]);
        lemma_merge_single(left, node);
    } else {
        lemma_tail_sorted(left);
        lemma_tail_sorted(right);
        lemma_merge_sorted(left, right);
        lemma_insert_front(right[0], right.drop_first(), node);
        let merged = merge_nodes(left, right);
        if node_le(left[0], right[0]) {
            let rest = merge_nodes(left.drop_first(), right);
            assert(merged =~= seq![left[0]] + rest);
            lemma_insert_front(left[0], rest, node);
            if node_le(left[0], node) {
                lemma_insert_into_merge(left.drop_first(), right, node);
                assert(node_le(left[0], grown[0]));
            } else {
                lemma_node_le_properties(right[0], node, node);
                lemma_node_le_properties(left[0], right[0], node);
                assert(!node_le(right[0], node));
                assert(grown =~= seq![node] + right);
                assert(grown.drop_first() =~= right);
            }
        } else {
            let rest = merge_nodes(left, right.drop_first());
            assert(merged =~= seq![right[0]] + rest);
            lemma_insert_front(right[0], rest, node);
            if node_le(right[0], node) {
                lemma_insert_into_merge(left, right.drop_first(), node);
                assert(grown =~= seq![right[0]] + insert_ordered(right.drop_first(), node));
                assert(grown.drop_first() =~= insert_ordered(right.drop_first(), node));
            } else {
                lemma_node_le_properties(left[0], right[0], right[0]);
                lemma_node_le_properties(left[0], node, right[0]);
                lemma_node_le_properties(right[0], left[0], node);
                assert(!node_le(left[0], node));
                assert(grown =~= seq![node] + right);
                assert(grown.drop_first() =~= right);
            }
        }
    }
}

/// Sorting a list is sorting its two parts and merging them.
pub proof fn lemma_sort_by_halves(left: Seq<NodeView>, right: Seq<NodeView>)
    ensures
        sort_nodes(left + right) == merge_nodes(sort_nodes(left), sort_nodes(right)),
    decreases right.len(),
{
    lemma_sort_nodes_sorted(left);
    if right.len() == 0 {
        assert(left + right =~= left);
        assert(sort_nodes(right) =~= Seq::<NodeView>::empty());
    } else {
        let front = right.drop_last();
        lemma_sort_by_halves(left, front);
        lemma_sort_nodes_sorted(front);
        assert((left + right).drop_last() =~= left + front);
        assert((left + right).last() == right.last());
        lemma_insert_into_merge(sort_nodes(left), sort_nodes(front), right.last());
    }
}

/// Turns a list over: the last comes first.
fn turned_over(nodes: Vec<DirectoryNode>) -> (turned: Vec<DirectoryNode>)
    ensures
        turned.len() == nodes.len(),
        forall|k: int| 0 <= k < turned.len() ==> turned[k]@ == nodes[nodes.len() - 1 - k]@,
{
    let ghost all = nodes.deep_view();
    let ghost n = nodes.len();
    let mut source = nodes;
    let mut turned: Vec<DirectoryNode> = Vec::new();
    while source.len() > 0
        invariant
            source.len() + turned.len() == n,
            all.len() == n,
            all == nodes.deep_view(),
            forall|k: int| 0 <= k < source.len() ==> source[k]@ == all[k],
            forall|k: int| 0 <= k < turned.len() ==> turned[k]@ == all[n - 1 - k],
        decreases source.len(),
    {
        match source.pop() {
            Some(node) => {
                turned.push(node);
            },
            None => {},
        }
    }
    proof {
        assert forall|k: int| 0 <= k < turned.len() implies turned[k]@ == nodes[nodes.len() - 1
            - k]@ by {
            assert(all[n - 1 - k] == nodes[n - 1 - k]@);
        }
    }
    turned
}

/// Merges two sorted lists of nodes into one.
pub fn merge_sorted(left: Vec<DirectoryNode>, right: Vec<DirectoryNode>) -> (merged: Vec<
    DirectoryNode,
>)
    ensures
        merged.deep_view() == merge_nodes(left.deep_view(), right.deep_view()),
{
    let ghost lv = left.deep_view();
    let ghost rv = right.deep_view();
    let ghost nl = left.len();
    let ghost nr = right.len();
    let mut ls = turned_over(left);
    let mut rs = turned_over(right);
    let mut merged: Vec<DirectoryNode> = Vec::new();
    proof {
        assert(lv.skip(0) =~= lv);
        assert(rv.skip(0) =~= rv);
        assert(merged.deep_view() + merge_nodes(lv, rv) =~= merge_nodes(lv, rv));
        assert forall|k: int| 0 <= k < ls.len() implies ls[k]@ == lv[nl - 1 - k] by {
            assert(lv[nl - 1 - k] == left[nl - 1 - k]@);
        }
        assert forall|k: int| 0 <= k < rs.len() implies rs[k]@ == rv[nr - 1 - k] by {
            assert(rv[nr - 1 - k] == right[nr - 1 - k]@);
        }
    }
    while ls.len() > 0 || rs.len() > 0
        invariant
            ls.len() <= nl,
            rs.len() <= nr,
            lv.len() == nl,
            rv.len() == nr,
            forall|k: int| 0 <= k < ls.len() ==> ls[k]@ == lv[nl - 1 - k],
            forall|k: int| 0 <= k < rs.len() ==> rs[k]@ == rv[nr - 1 - k],
            merged.deep_view() + merge_nodes(lv.skip(nl - ls.len()), rv.skip(nr - rs.len()))
                == merge_nodes(lv, rv),
        decreases ls.len() + rs.len(),
    {
        let ghost before = merged.deep_view();
        let ghost rest_left = lv.skip(nl - ls.len());
        let ghost rest_right = rv.skip(nr - rs.len());
        let from_left = if ls.len() == 0 {
            false
        } else if rs.len() == 0 {
            true
        } else {
            proof {
                assert(rest_left[0] == ls[ls.len() - 1]@);
                assert(rest_right[0] == rs[rs.len() - 1]@);
            }
            !matches!(compare_nodes(&ls[ls.len() - 1], &rs[rs.len() - 1]), TextOrder::Greater)
        };
        let taken = if from_left {
            ls.pop()
        } else {
            rs.pop()
        };
        match taken {
            Some(node) => {
                proof {
                    if from_left {
                        assert(node@ == rest_left[0]);
                        assert(rest_left.drop_first() =~= lv.skip(nl - ls.len()));
                        if rest_right.len() == 0 {
                            assert(merge_nodes(rest_left.drop_first(), rest_right) =~= rest_left.drop_first());
                            assert(rest_left =~= seq![rest_left[0]] + rest_left.drop_first());
                        }
                    } else {
                        assert(node@ == rest_right[0]);
                        assert(rest_right.drop_first() =~= rv.skip(nr - rs.len()));
                        if rest_left.len() == 0 {
                            assert(rest_right =~= seq![rest_right[0]] + rest_right.drop_first());
                            assert(merge_nodes(rest_left, rest_right.drop_first()) =~= rest_right.drop_first());
                        }
                    }
                }
                merged.push(node);
                proof {
                    assert(merged.deep_view() =~= before.push(node@));
                    assert(before.push(node@) + merge_nodes(
                        lv.skip(nl - ls.len()),
                        rv.skip(nr - rs.len()),
                    ) =~= before + (seq![node@] + merge_nodes(
                        lv.skip(nl - ls.len()),
                        rv.skip(nr - rs.len()),
                    )));
                }
            },
            None => {},
        }
    }
    proof {
        assert(lv.skip(nl as int) =~= Seq::<NodeView>::empty());
        assert(rv.skip(nr as int) =~= Seq::<NodeView>::empty());
        assert(merged.deep_view() + Seq::<NodeView>::empty() =~= merged.deep_view());
    }
    merged
}

/// Sorts the children of a node: directories first, names ascending, nodes
/// that compare equal in the order in which they came.
pub fn sort_children(children: Vec<DirectoryNode>) -> (sorted: Vec<DirectoryNode>)
    ensures
        sorted.deep_view() == sort_nodes(children.deep_view()),
    decreases children.len(),
{
    let ghost all = children.deep_view();
    let n = children.len();
    if n <= 1 {
        proof {
            if n == 1 {
                assert(all.drop_last() =~= Seq::<NodeView>::empty());
                assert(sort_nodes(all.drop_last()) =~= Seq::<NodeView>::empty());
                assert(sort_nodes(all) =~= seq![all.last()]);
                assert(all =~= seq![all.last()]);
            } else {
                assert(sort_nodes(all) =~= all);
            }
        }
        return children;
    }
    let mut left = children;
    let right = left.split_off(n / 2);
    proof {
        assert(left.deep_view() =~= all.subrange(0, (n / 2) as int));
        assert(right.deep_view() =~= all.subrange((n / 2) as int, n as int));
        assert(all =~= left.deep_view() + right.deep_view());
        lemma_sort_by_halves(left.deep_view(), right.deep_view());
    }
    let sorted_left = sort_children(left);
    let sorted_right = sort_children(right);
    merge_sorted(sorted_left, sorted_right)
}

} // verus!
