//! An index from labels to places. Given a list of labels it answers, for
//! any label, at which places of the list the label stands, in ascending
//! order, without looking at the other places.

use vstd::hash_map::StringHashMap;
use vstd::prelude::*;
use vstd::string::*;

verus! {

/// The places from `from` on at which a label stands, ascending.
pub open spec fn places_from(labels: Seq<Seq<char>>, label: Seq<char>, from: int) -> Seq<int>
    decreases labels.len() - from,
{
    if from < 0 || from >= labels.len() {
        seq![]
    } else if labels[from] == label {
        seq![from] + places_from(labels, label, from + 1)
    } else {
        places_from(labels, label, from + 1)
    }
}

/// The places at which a label stands, ascending.
pub open spec fn places_of(labels: Seq<Seq<char>>, label: Seq<char>) -> Seq<int> {
    places_from(labels, label, 0)
}

/// The places at which a label stands are places of the list, each holds
/// the label, they ascend, and none that holds the label is missing.
pub proof fn lemma_places(labels: Seq<Seq<char>>, label: Seq<char>, from: int)
    requires
        0 <= from,
    ensures
        forall|k: int|
            0 <= k < places_from(labels, label, from).len() ==> from <= (#[trigger] places_from(
                labels,
                label,
                from,
            )[k]) < labels.len() && labels[places_from(labels, label, from)[k]] == label,
        forall|a: int, b: int|
            0 <= a < b < places_from(labels, label, from).len() ==> places_from(
                labels,
                label,
                from,
            )[a] < places_from(labels, label, from)[b],
        forall|j: int|
            from <= j < labels.len() && labels[j] == label ==> places_from(
                labels,
                label,
                from,
            ).contains(j),
    decreases labels.len() - from,
{
    if from < labels.len() {
        lemma_places(labels, label, from + 1);
        let rest = places_from(labels, label, from + 1);
        let all = places_from(labels, label, from);
        if labels[from] == label {
            assert(all[0] == from);
            assert forall|k: int| 0 < k < all.len() implies all[k] == rest[k - 1] by {}
            assert forall|j: int| from <= j < labels.len() && labels[j] == label implies all.contains(
                j,
            ) by {
                if j > from {
                    let k = choose|k: int| 0 <= k < rest.len() && rest[k] == j;
                    assert(all[k + 1] == j);
                }
            }
        }
    }
}

/// The head of the chain of a label, where it has one.
pub open spec fn head_of(heads: Map<Seq<char>, usize>, label: Seq<char>) -> Option<usize> {
    if heads.contains_key(label) {
        Some(heads[label])
    } else {
        None
    }
}

/// How far a chain may still run.
pub open spec fn chain_room(next: Seq<Option<usize>>, start: Option<usize>) -> nat {
    match start {
        Some(j) => if j < next.len() {
            (next.len() - j) as nat
        } else {
            0
        },
        None => 0,
    }
}

/// The places that a chain runs through: the start, then what follows it,
/// as long as each place lies behind the one before.
pub open spec fn chain_from(next: Seq<Option<usize>>, start: Option<usize>) -> Seq<int>
    decreases chain_room(next, start),
{
    match start {
        None => seq![],
        Some(j) => if j < next.len() {
            match next[j as int] {
                Some(k) => if k > j {
                    seq![j as int] + chain_from(next, Some(k))
                } else {
                    seq![j as int]
                },
                None => seq![j as int],
            }
        } else {
            seq![]
        },
    }
}

/// A chain that starts behind a place does not see what is written there.
proof fn lemma_chain_frame(
    next: Seq<Option<usize>>,
    at: int,
    value: Option<usize>,
    start: Option<usize>,
)
    requires
        0 <= at < next.len(),
        start matches Some(j) ==> j > at,
    ensures
        chain_from(next.update(at, value), start) == chain_from(next, start),
    decreases chain_room(next, start),
{
    match start {
        Some(j) => {
            if j < next.len() {
                match next[j as int] {
                    Some(k) => {
                        if k > j {
                            lemma_chain_frame(next, at, value, Some(k));
                        }
                    },
                    None => {},
                }
            }
        },
        None => {},
    }
}

/// The index over a list of labels.
pub struct LabelIndex {
    heads: StringHashMap<usize>,
    next: Vec<Option<usize>>,
    labels: Ghost<Seq<Seq<char>>>,
}

impl LabelIndex {
    /// The labels that the index was built over.
    pub closed spec fn labels(&self) -> Seq<Seq<char>> {
        self.labels@
    }

    /// Whether the index holds the places of every label.
    pub closed spec fn wf(&self) -> bool {
        &&& self.next.len() == self.labels@.len()
        &&& forall|label: Seq<char>|
            #[trigger] chain_from(self.next@, head_of(self.heads@, label)) == places_of(
                self.labels@,
                label,
            )
    }

    /// Builds the index over a list of labels.
    pub fn build(labels: &Vec<String>) -> (index: LabelIndex)
        ensures
            index.wf(),
            index.labels() == labels.deep_view(),
    {
        let ghost all = labels.deep_view();
        let n = labels.len();
        let mut next: Vec<Option<usize>> = Vec::new();
        let mut filled: usize = 0;
        while filled < n
            invariant
                0 <= filled <= n,
                next.len() == filled,
            decreases n - filled,
        {
            next.push(None);
            filled = filled + 1;
        }
        let mut heads: StringHashMap<usize> = StringHashMap::new();
        let mut j: usize = n;
        while j > 0
            invariant
                0 <= j <= n,
                n == labels.len(),
                all == labels.deep_view(),
                next.len() == n,
                forall|label: Seq<char>|
                    #[trigger] chain_from(next@, head_of(heads@, label)) == places_from(
                        all,
                        label,
                        j as int,
                    ),
                forall|label: Seq<char>| #[trigger]
                    heads@.contains_key(label) ==> j <= heads@[label] < n,
            decreases j,
        {
            j = j - 1;
            let ghost before_next = next@;
            let ghost before_heads = heads@;
            let ghost here = all[j as int];
            proof {
                assert(here == labels[j as int]@);
            }
            let old_head: Option<usize> = match heads.get(labels[j].as_str()) {
                Some(head) => Some(*head),
                None => None,
            };
            next.set(j, old_head);
            heads.insert(labels[j].clone(), j);
            proof {
                assert(old_head == head_of(before_heads, here));
                assert forall|label: Seq<char>| #[trigger]
                    chain_from(next@, head_of(heads@, label)) == places_from(
                        all,
                        label,
                        j as int,
                    ) by {
                    if label == here {
                        lemma_chain_frame(before_next, j as int, old_head, old_head);
                        assert(chain_from(before_next, old_head) == places_from(
                            all,
                            label,
                            j + 1,
                        ));
                        assert(head_of(heads@, label) == Some(j));
                        match old_head {
                            Some(k) => {
                                assert(before_heads.contains_key(here));
                                assert(k > j);
                            },
                            None => {
                                assert(chain_from(next@, None) =~= Seq::<int>::empty());
                                assert(seq![j as int] + Seq::<int>::empty() =~= seq![j as int]);
                            },
                        }
                    } else {
                        assert(head_of(heads@, label) == head_of(before_heads, label));
                        if before_heads.contains_key(label) {
                            assert(before_heads[label] > j);
                        }
                        lemma_chain_frame(
                            before_next,
                            j as int,
                            old_head,
                            head_of(before_heads, label),
                        );
                    }
                }
            }
        }
        LabelIndex { heads, next, labels: Ghost(all) }
    }

    /// The places at which a label stands, ascending.
    pub fn places(&self, label: &str) -> (places: Vec<usize>)
        requires
            self.wf(),
        ensures
            places@.map_values(|j: usize| j as int) == places_of(self.labels(), label@),
    {
        let mut places: Vec<usize> = Vec::new();
        let mut current: Option<usize> = match self.heads.get(label) {
            Some(head) => Some(*head),
            None => None,
        };
        let ghost target = places_of(self.labels@, label@);
        proof {
            assert(current == head_of(self.heads@, label@));
            assert(chain_from(self.next@, head_of(self.heads@, label@)) == target);
            assert(places@.map_values(|j: usize| j as int) + target =~= target);
        }
        loop
            invariant
                places@.map_values(|j: usize| j as int) + chain_from(self.next@, current)
                    == target,
            ensures
                places@.map_values(|j: usize| j as int) == target,
            decreases chain_room(self.next@, current),
        {
            let ghost before = places@.map_values(|j: usize| j as int);
            match current {
                None => {
                    proof {
                        assert(before + Seq::<int>::empty() =~= before);
                    }
                    break ;
                },
                Some(j) => {
                    if j >= self.next.len() {
                        proof {
                            assert(before + Seq::<int>::empty() =~= before);
                        }
                        break ;
                    }
                    places.push(j);
                    let following = match self.next[j] {
                        Some(k) => if k > j {
                            Some(k)
                        } else {
                            None
                        },
                        None => None,
                    };
                    proof {
                        assert(places@.map_values(|j: usize| j as int) =~= before.push(j as int));
                        assert(chain_from(self.next@, current) =~= seq![j as int] + chain_from(
                            self.next@,
                            following,
                        ));
                        assert(before.push(j as int) + chain_from(self.next@, following)
                            =~= before + (seq![j as int] + chain_from(self.next@, following)));
                    }
                    current = following;
                },
            }
        }
        places
    }
}

} // verus!
