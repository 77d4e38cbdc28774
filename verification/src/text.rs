//! Text helpers shared by the other modules: appending characters, ordering
//! strings by code point, trimming white space, and tag lists kept sorted
//! without repeats.

use vstd::prelude::*;
use vstd::std_specs::iter::IteratorSpec;
use vstd::string::*;

verus! {

/// `String::push` appends exactly one character to the end of the string.
pub assume_specification[ String::push ](s: &mut String, ch: char)
    ensures
        final(s)@ == old(s)@.push(ch),
;

/// How two texts stand to each other in code-point order.
#[derive(Clone, Copy, Debug, PartialEq, Eq, Structural)]
pub enum TextOrder {
    Less,
    Equal,
    Greater,
}

/// Strict lexicographic order on texts, character by character, a proper
/// prefix coming first.
pub open spec fn text_lt(a: Seq<char>, b: Seq<char>) -> bool
    decreases a.len(),
{
    if b.len() == 0 {
        false
    } else if a.len() == 0 {
        true
    } else if a[0] == b[0] {
        text_lt(a.drop_first(), b.drop_first())
    } else {
        (a[0] as int) < (b[0] as int)
    }
}

/// `a` is `b` or comes before it.
pub open spec fn text_le(a: Seq<char>, b: Seq<char>) -> bool {
    a == b || text_lt(a, b)
}

/// The three-way comparison that `text_lt` induces.
pub open spec fn text_order(a: Seq<char>, b: Seq<char>) -> TextOrder {
    if a == b {
        TextOrder::Equal
    } else if text_lt(a, b) {
        TextOrder::Less
    } else {
        TextOrder::Greater
    }
}

/// No text comes before itself.
pub proof fn lemma_text_lt_irreflexive(a: Seq<char>)
    ensures
        !text_lt(a, a),
    decreases a.len(),
{
    if a.len() > 0 {
        lemma_text_lt_irreflexive(a.drop_first());
    }
}

/// Of two different texts exactly one comes first.
pub proof fn lemma_text_lt_total(a: Seq<char>, b: Seq<char>)
    ensures
        a != b ==> (text_lt(a, b) <==> !text_lt(b, a)),
        a == b ==> !text_lt(a, b) && !text_lt(b, a),
    decreases a.len(),
{
    if a == b {
        lemma_text_lt_irreflexive(a);
    } else if a.len() == 0 || b.len() == 0 {
        if a.len() == 0 && b.len() == 0 {
            assert(a =~= b);
        }
    } else if a[0] == b[0] {
        lemma_text_lt_total(a.drop_first(), b.drop_first());
        if a.drop_first() == b.drop_first() {
            assert(a =~= seq![a[0]] + a.drop_first());
            assert(b =~= seq![b[0]] + b.drop_first());
            assert(a =~= b);
        }
    } else {
    }
}

/// The order is transitive.
pub proof fn lemma_text_lt_transitive(a: Seq<char>, b: Seq<char>, c: Seq<char>)
    requires
        text_lt(a, b),
        text_lt(b, c),
    ensures
        text_lt(a, c),
    decreases a.len(),
{
    if a.len() == 0 {
    } else if a[0] == b[0] && b[0] == c[0] {
        lemma_text_lt_transitive(a.drop_first(), b.drop_first(), c.drop_first());
    } else {
    }
}

/// Compares two strings by code point, as `str`'s own ordering does.
pub fn compare_text(a: &str, b: &str) -> (r: TextOrder)
    ensures
        r == text_order(a@, b@),
{
    let mut left = a.chars();
    let mut right = b.chars();
    let ghost mut done: int = 0;
    loop
        invariant
            left.obeys_prophetic_iter_laws(),
            right.obeys_prophetic_iter_laws(),
            0 <= done <= a@.len(),
            done <= b@.len(),
            left.remaining() == a@.skip(done),
            right.remaining() == b@.skip(done),
            a@.take(done) == b@.take(done),
            text_lt(a@, b@) == text_lt(a@.skip(done), b@.skip(done)),
            text_lt(b@, a@) == text_lt(b@.skip(done), a@.skip(done)),
        decreases a@.len() - done,
    {
        let x = left.next();
        let y = right.next();
        match (x, y) {
            (None, None) => {
                proof {
                    assert(a@.take(done) =~= a@);
                    assert(b@.take(done) =~= b@);
                }
                return TextOrder::Equal;
            },
            (None, Some(_)) => {
                proof {
                    assert(a@.len() != b@.len());
                }
                return TextOrder::Less;
            },
            (Some(_), None) => {
                proof {
                    assert(a@.len() != b@.len());
                }
                return TextOrder::Greater;
            },
            (Some(p), Some(q)) => {
                proof {
                    assert(a@.skip(done)[0] == a@[done]);
                    assert(b@.skip(done)[0] == b@[done]);
                }
                if p != q {
                    let before = p < q;
                    proof {
                        assert(a@[done] != b@[done]);
                    }
                    if before {
                        return TextOrder::Less;
                    } else {
                        return TextOrder::Greater;
                    }
                }
                proof {
                    assert(a@.skip(done).drop_first() =~= a@.skip(done + 1));
                    assert(b@.skip(done).drop_first() =~= b@.skip(done + 1));
                    assert(a@.take(done + 1) =~= a@.take(done).push(a@[done]));
                    assert(b@.take(done + 1) =~= b@.take(done).push(b@[done]));
                    done = done + 1;
                }
            },
        }
    }
}

/// Whether a list of tags ascends strictly, so that no tag stands twice.
pub open spec fn tags_sorted(tags: Seq<Seq<char>>) -> bool {
    forall|i: int, j: int| 0 <= i < j < tags.len() ==> text_lt(tags[i], tags[j])
}

/// Whether `tags` is the sorted rendering of the set `members`.
pub open spec fn is_tag_set(tags: Seq<Seq<char>>, members: Set<Seq<char>>) -> bool {
    tags_sorted(tags) && tags.to_set() == members
}

/// A set of tags has one sorted rendering only.
pub proof fn lemma_tag_set_unique(
    first: Seq<Seq<char>>,
    second: Seq<Seq<char>>,
    members: Set<Seq<char>>,
)
    requires
        is_tag_set(first, members),
        is_tag_set(second, members),
    ensures
        first == second,
    decreases first.len(),
{
    if first.len() == 0 {
        if second.len() > 0 {
            assert(second.to_set().contains(second[0]));
            let k = choose|k: int| 0 <= k < first.len() && first[k] == second[0];
        }
        assert(first =~= second);
    } else {
        assert(first.to_set().contains(first[0]));
        let m = choose|m: int| 0 <= m < second.len() && second[m] == first[0];
        assert(second.to_set().contains(second[0]));
        let k = choose|k: int| 0 <= k < first.len() && first[k] == second[0];
        lemma_text_lt_total(first[0], second[0]);
        if k > 0 {
            assert(text_lt(first[0], first[k]));
        }
        if m > 0 {
            assert(text_lt(second[0], second[m]));
        }
        assert(first[0] == second[0]);
        let rest_first = first.drop_first();
        let rest_second = second.drop_first();
        assert forall|i: int, j: int| 0 <= i < j < rest_first.len() implies text_lt(
            rest_first[i],
            rest_first[j],
        ) by {
            assert(text_lt(first[i + 1], first[j + 1]));
        }
        assert forall|i: int, j: int| 0 <= i < j < rest_second.len() implies text_lt(
            rest_second[i],
            rest_second[j],
        ) by {
            assert(text_lt(second[i + 1], second[j + 1]));
        }
        assert forall|tag: Seq<char>| rest_first.to_set().contains(tag)
            <==> rest_second.to_set().contains(tag) by {
            lemma_text_lt_irreflexive(first[0]);
            if rest_first.to_set().contains(tag) {
                let i = choose|i: int| 0 <= i < rest_first.len() && rest_first[i] == tag;
                assert(text_lt(first[0], first[i + 1]));
                assert(first.to_set().contains(tag));
                let j = choose|j: int| 0 <= j < second.len() && second[j] == tag;
                assert(rest_second[j - 1] == tag);
            }
            if rest_second.to_set().contains(tag) {
                let i = choose|i: int| 0 <= i < rest_second.len() && rest_second[i] == tag;
                assert(text_lt(second[0], second[i + 1]));
                assert(second.to_set().contains(tag));
                let j = choose|j: int| 0 <= j < first.len() && first[j] == tag;
                assert(rest_first[j - 1] == tag);
            }
        }
        assert(rest_first.to_set() =~= rest_second.to_set());
        lemma_tag_set_unique(rest_first, rest_second, rest_first.to_set());
        assert(first =~= seq![first[0]] + rest_first);
        assert(second =~= seq![second[0]] + rest_second);
    }
}

/// The sorted rendering of a set of tags.
pub open spec fn rendered_tags(members: Set<Seq<char>>) -> Seq<Seq<char>> {
    choose|tags: Seq<Seq<char>>| is_tag_set(tags, members)
}

/// A sorted list of the tags of a set is the rendering of the set.
pub proof fn lemma_rendered(tags: Seq<Seq<char>>, members: Set<Seq<char>>)
    requires
        is_tag_set(tags, members),
    ensures
        tags == rendered_tags(members),
{
    lemma_tag_set_unique(tags, rendered_tags(members), members);
}

/// A sorted list with one more tag at its place; the list itself where
/// the tag stands in it already.
pub open spec fn spec_insert_tag(tags: Seq<Seq<char>>, tag: Seq<char>) -> Seq<Seq<char>>
    decreases tags.len(),
{
    if tags.len() == 0 {
        seq![tag]
    } else if text_lt(tags.last(), tag) {
        tags.push(tag)
    } else if tags.last() == tag {
        tags
    } else {
        spec_insert_tag(tags.drop_last(), tag).push(tags.last())
    }
}

/// Putting a tag into a sorted list leaves a sorted list of the same tags
/// and the new one.
pub proof fn lemma_spec_insert_tag(tags: Seq<Seq<char>>, tag: Seq<char>)
    requires
        tags_sorted(tags),
    ensures
        is_tag_set(spec_insert_tag(tags, tag), tags.to_set().insert(tag)),
    decreases tags.len(),
{
    let grown = spec_insert_tag(tags, tag);
    if tags.len() == 0 {
        assert(tags.to_set() =~= Set::<Seq<char>>::empty());
        assert(seq![tag] =~= tags.push(tag));
        lemma_push_to_set(tags, tag);
    } else if text_lt(tags.last(), tag) {
        lemma_push_to_set(tags, tag);
        assert forall|i: int, j: int| 0 <= i < j < grown.len() implies text_lt(
            grown[i],
            grown[j],
        ) by {
            if j == tags.len() && i < tags.len() - 1 {
                assert(text_lt(tags[i], tags[tags.len() - 1]));
                lemma_text_lt_transitive(tags[i], tags.last(), tag);
            }
        }
    } else if tags.last() == tag {
        assert(tags.to_set().contains(tags[tags.len() - 1]));
        assert(tags.to_set().insert(tag) =~= tags.to_set());
    } else {
        let front = tags.drop_last();
        let last = tags.last();
        lemma_text_lt_total(last, tag);
        assert forall|i: int, j: int| 0 <= i < j < front.len() implies text_lt(
            front[i],
            front[j],
        ) by {
            assert(text_lt(tags[i], tags[j]));
        }
        lemma_spec_insert_tag(front, tag);
        let inner = spec_insert_tag(front, tag);
        assert forall|i: int, j: int| 0 <= i < j < grown.len() implies text_lt(
            grown[i],
            grown[j],
        ) by {
            if j == inner.len() {
                assert(inner.to_set().contains(inner[i]));
                if inner[i] != tag {
                    assert(front.to_set().contains(inner[i]));
                    let k = choose|k: int| 0 <= k < front.len() && front[k] == inner[i];
                    assert(text_lt(tags[k], tags[tags.len() - 1]));
                }
            }
        }
        lemma_push_to_set(inner, last);
        assert(tags =~= front.push(last));
        lemma_push_to_set(front, last);
        assert(front.to_set().insert(tag).insert(last) =~= front.to_set().insert(last).insert(
            tag,
        ));
    }
}

/// Every finite set of tags has a sorted rendering, and `rendered_tags`
/// is it.
pub proof fn lemma_rendering_exists(members: Set<Seq<char>>)
    requires
        members.finite(),
    ensures
        is_tag_set(rendered_tags(members), members),
    decreases members.len(),
{
    if members.len() == 0 {
        members.lemma_len0_is_empty();
        let none = Seq::<Seq<char>>::empty();
        assert(none.to_set() =~= members);
        assert(is_tag_set(none, members));
    } else {
        let one = members.choose();
        let rest = members.remove(one);
        lemma_rendering_exists(rest);
        lemma_spec_insert_tag(rendered_tags(rest), one);
        assert(rest.insert(one) =~= members);
        assert(is_tag_set(spec_insert_tag(rendered_tags(rest), one), members));
    }
}

/// What a sequence with one more element holds.
pub proof fn lemma_insert_to_set(tags: Seq<Seq<char>>, at: int, tag: Seq<char>)
    requires
        0 <= at <= tags.len(),
    ensures
        tags.insert(at, tag).to_set() == tags.to_set().insert(tag),
{
    let longer = tags.insert(at, tag);
    assert forall|x: Seq<char>| longer.to_set().contains(x) <==> tags.to_set().insert(
        tag,
    ).contains(x) by {
        if longer.to_set().contains(x) {
            let k = choose|k: int| 0 <= k < longer.len() && longer[k] == x;
            if k < at {
                assert(tags[k] == x);
            } else if k > at {
                assert(tags[k - 1] == x);
            }
        }
        if tags.to_set().insert(tag).contains(x) {
            if x == tag {
                assert(longer[at] == x);
            } else {
                let k = choose|k: int| 0 <= k < tags.len() && tags[k] == x;
                if k < at {
                    assert(longer[k] == x);
                } else {
                    assert(longer[k + 1] == x);
                }
            }
        }
    }
    assert(longer.to_set() =~= tags.to_set().insert(tag));
}

/// Puts a tag into a sorted list, at its place, unless it stands there
/// already.
pub fn insert_tag(tags: &mut Vec<String>, tag: &str)
    requires
        tags_sorted(old(tags).deep_view()),
    ensures
        tags_sorted(final(tags).deep_view()),
        final(tags).deep_view().to_set() == old(tags).deep_view().to_set().insert(tag@),
{
    let ghost before = tags.deep_view();
    let mut at: usize = 0;
    while at < tags.len()
        invariant
            0 <= at <= tags.len(),
            tags.deep_view() == before,
            tags_sorted(before),
            forall|k: int| 0 <= k < at ==> text_lt(before[k], tag@),
        ensures
            at < tags.len() ==> text_lt(tag@, before[at as int]),
        decreases tags.len() - at,
    {
        proof {
            assert(before[at as int] == tags[at as int]@);
            lemma_text_lt_total(before[at as int], tag@);
        }
        match compare_text(tags[at].as_str(), tag) {
            TextOrder::Less => {
                at = at + 1;
            },
            TextOrder::Equal => {
                proof {
                    assert(before.to_set().insert(tag@) =~= before.to_set());
                }
                return ;
            },
            TextOrder::Greater => {
                break ;
            },
        }
    }
    proof {
        let longer = before.insert(at as int, tag@);
        assert forall|i: int, j: int| 0 <= i < j < longer.len() implies text_lt(
            longer[i],
            longer[j],
        ) by {
            if j == at {
            } else if i == at {
                if j > at + 1 {
                    lemma_text_lt_transitive(tag@, before[at as int], before[j - 1]);
                }
            } else if i < at && j > at {
                assert(longer[j] == before[j - 1]);
                if j - 1 > at {
                    lemma_text_lt_transitive(tag@, before[at as int], before[j - 1]);
                }
                lemma_text_lt_transitive(before[i], tag@, before[j - 1]);
            } else if i < at {
            } else {
                assert(longer[i] == before[i - 1]);
                assert(longer[j] == before[j - 1]);
            }
        }
        lemma_insert_to_set(before, at as int, tag@);
    }
    tags.insert(at, String::from_str(tag));
    proof {
        assert(tags.deep_view() =~= before.insert(at as int, tag@));
    }
}

/// The tags of two lists as one sorted list without repeats.
pub fn merge_tags(first: &Vec<String>, second: &Vec<String>) -> (merged: Vec<String>)
    ensures
        is_tag_set(
            merged.deep_view(),
            first.deep_view().to_set().union(second.deep_view().to_set()),
        ),
{
    let mut merged: Vec<String> = Vec::new();
    let ghost a = first.deep_view();
    let ghost b = second.deep_view();
    let mut i: usize = 0;
    proof {
        assert(a.take(0).to_set() =~= Set::<Seq<char>>::empty());
        assert(merged.deep_view().to_set() =~= Set::<Seq<char>>::empty());
    }
    while i < first.len()
        invariant
            0 <= i <= first.len(),
            a == first.deep_view(),
            tags_sorted(merged.deep_view()),
            merged.deep_view().to_set() == a.take(i as int).to_set(),
        decreases first.len() - i,
    {
        proof {
            assert(a.take(i + 1) =~= a.take(i as int).push(a[i as int]));
            lemma_push_to_set(a.take(i as int), a[i as int]);
        }
        insert_tag(&mut merged, first[i].as_str());
        i = i + 1;
    }
    proof {
        assert(a.take(first.len() as int) =~= a);
        assert(b.take(0).to_set() =~= Set::<Seq<char>>::empty());
        assert(a.to_set().union(Set::<Seq<char>>::empty()) =~= a.to_set());
    }
    let mut j: usize = 0;
    while j < second.len()
        invariant
            0 <= j <= second.len(),
            b == second.deep_view(),
            tags_sorted(merged.deep_view()),
            merged.deep_view().to_set() == a.to_set().union(b.take(j as int).to_set()),
        decreases second.len() - j,
    {
        proof {
            assert(b.take(j + 1) =~= b.take(j as int).push(b[j as int]));
            lemma_push_to_set(b.take(j as int), b[j as int]);
            assert(a.to_set().union(b.take(j as int).to_set()).insert(b[j as int])
                =~= a.to_set().union(b.take(j as int).to_set().insert(b[j as int])));
        }
        insert_tag(&mut merged, second[j].as_str());
        j = j + 1;
    }
    proof {
        assert(b.take(second.len() as int) =~= b);
    }
    merged
}

/// What a sequence with one more element at its end holds.
pub proof fn lemma_push_to_set(tags: Seq<Seq<char>>, tag: Seq<char>)
    ensures
        tags.push(tag).to_set() == tags.to_set().insert(tag),
{
    assert(tags.push(tag) =~= tags.insert(tags.len() as int, tag));
    lemma_insert_to_set(tags, tags.len() as int, tag);
}

/// The tags of a list, sorted and without repeats.
pub fn sorted_tags(tags: &Vec<String>) -> (sorted: Vec<String>)
    ensures
        is_tag_set(sorted.deep_view(), tags.deep_view().to_set()),
{
    let none: Vec<String> = Vec::new();
    proof {
        assert(none.deep_view().to_set() =~= Set::<Seq<char>>::empty());
        assert(tags.deep_view().to_set().union(Set::<Seq<char>>::empty())
            =~= tags.deep_view().to_set());
    }
    merge_tags(tags, &none)
}

/// Whether a character is white space: a tab, a line feed, a vertical
/// tab, a form feed, a carriage return, a blank, a next-line mark, or one
/// of the blanks and line marks beyond the first hundred and sixty
/// characters.
pub open spec fn is_white_space(ch: char) -> bool {
    ||| '\u{9}' <= ch && ch <= '\u{d}'
    ||| ch == ' '
    ||| ch == '\u{85}'
    ||| ch == '\u{a0}'
    ||| ch == '\u{1680}'
    ||| '\u{2000}' <= ch && ch <= '\u{200a}'
    ||| ch == '\u{2028}'
    ||| ch == '\u{2029}'
    ||| ch == '\u{202f}'
    ||| ch == '\u{205f}'
    ||| ch == '\u{3000}'
}

/// Whether a character is white space.
pub fn white_space(ch: char) -> (white: bool)
    ensures
        white == is_white_space(ch),
{
    (ch >= '\u{9}' && ch <= '\u{d}') || ch == ' ' || ch == '\u{85}' || ch == '\u{a0}' || ch
        == '\u{1680}' || (ch >= '\u{2000}' && ch <= '\u{200a}') || ch == '\u{2028}' || ch
        == '\u{2029}' || ch == '\u{202f}' || ch == '\u{205f}' || ch == '\u{3000}'
}

/// A text without the white space at its start.
pub open spec fn spec_trim_start(text: Seq<char>) -> Seq<char>
    decreases text.len(),
{
    if text.len() > 0 && is_white_space(text[0]) {
        spec_trim_start(text.drop_first())
    } else {
        text
    }
}

/// A text without the white space at its end.
pub open spec fn spec_trim_end(text: Seq<char>) -> Seq<char>
    decreases text.len(),
{
    if text.len() > 0 && is_white_space(text.last()) {
        spec_trim_end(text.drop_last())
    } else {
        text
    }
}

/// A text without the white space at its two ends.
pub open spec fn spec_trim(text: Seq<char>) -> Seq<char> {
    spec_trim_end(spec_trim_start(text))
}

/// A text of nothing but white space trims to the empty text; so does the
/// empty text.
pub proof fn lemma_trim_blank(text: Seq<char>)
    requires
        forall|i: int| 0 <= i < text.len() ==> is_white_space(#[trigger] text[i]),
    ensures
        spec_trim(text).len() == 0,
    decreases text.len(),
{
    if text.len() > 0 {
        let rest = text.drop_first();
        assert forall|i: int| 0 <= i < rest.len() implies is_white_space(#[trigger] rest[i]) by {
            assert(rest[i] == text[i + 1]);
        }
        lemma_trim_blank(rest);
    }
}

/// A text that trims to the empty text holds nothing but white space.
pub proof fn lemma_trim_empty(text: Seq<char>)
    requires
        spec_trim(text).len() == 0,
    ensures
        forall|i: int| 0 <= i < text.len() ==> is_white_space(#[trigger] text[i]),
    decreases text.len(),
{
    if text.len() > 0 {
        if is_white_space(text[0]) {
            let rest = text.drop_first();
            lemma_trim_empty(rest);
            assert forall|i: int| 0 <= i < text.len() implies is_white_space(
                #[trigger] text[i],
            ) by {
                if i > 0 {
                    assert(rest[i - 1] == text[i]);
                }
            }
        } else {
            lemma_trim_end_keeps_start(text);
        }
    }
}

/// Trimming the end of a text that does not begin with white space leaves
/// a text that is not empty.
pub proof fn lemma_trim_end_keeps_start(text: Seq<char>)
    requires
        text.len() > 0,
        !is_white_space(text[0]),
    ensures
        spec_trim_end(text).len() > 0,
    decreases text.len(),
{
    if is_white_space(text.last()) {
        assert(text.len() > 1);
        assert(text.drop_last()[0] == text[0]);
        lemma_trim_end_keeps_start(text.drop_last());
    }
}

/// A copy of a text without the white space at its two ends.
pub fn trim_text(text: &str) -> (trimmed: String)
    ensures
        trimmed@ == spec_trim(text@),
{
    let ghost all = text@;
    let mut chars: Vec<char> = Vec::new();
    let mut source = text.chars();
    let ghost mut done: int = 0;
    proof {
        assert(all.skip(0) =~= all);
        assert(chars@ =~= all.take(0));
    }
    loop
        invariant
            source.obeys_prophetic_iter_laws(),
            0 <= done <= all.len(),
            source.remaining() == all.skip(done),
            chars@ == all.take(done),
        ensures
            chars@ == all,
        decreases all.len() - done,
    {
        match source.next() {
            Some(ch) => {
                proof {
                    assert(all.skip(done)[0] == all[done]);
                    assert(all.skip(done).drop_first() =~= all.skip(done + 1));
                    assert(all.take(done + 1) =~= all.take(done).push(ch));
                }
                chars.push(ch);
                proof {
                    done = done + 1;
                }
            },
            None => {
                proof {
                    assert(all.take(done) =~= all);
                }
                break ;
            },
        }
    }
    let n = chars.len();
    let mut start: usize = 0;
    while start < n && white_space(chars[start])
        invariant
            0 <= start <= n,
            n == all.len(),
            chars@ == all,
            spec_trim_start(all) == spec_trim_start(all.skip(start as int)),
        decreases n - start,
    {
        proof {
            assert(all.skip(start as int)[0] == all[start as int]);
            assert(all.skip(start as int).drop_first() =~= all.skip(start + 1));
        }
        start = start + 1;
    }
    let ghost tail = all.skip(start as int);
    proof {
        if start < n {
            assert(tail[0] == all[start as int]);
        }
        assert(spec_trim_start(all) == tail);
        assert(tail =~= all.subrange(start as int, n as int));
    }
    let mut end: usize = n;
    while end > start && white_space(chars[end - 1])
        invariant
            start <= end <= n,
            n == all.len(),
            chars@ == all,
            spec_trim_end(tail) == spec_trim_end(all.subrange(start as int, end as int)),
        decreases end,
    {
        proof {
            let part = all.subrange(start as int, end as int);
            assert(part.last() == all[end - 1]);
            assert(part.drop_last() =~= all.subrange(start as int, end - 1));
        }
        end = end - 1;
    }
    proof {
        let part = all.subrange(start as int, end as int);
        if end > start {
            assert(part.last() == all[end - 1]);
        }
        assert(spec_trim_end(tail) == part);
    }
    let mut trimmed = String::new();
    let mut k: usize = start;
    proof {
        assert(trimmed@ =~= all.subrange(start as int, start as int));
    }
    while k < end
        invariant
            start <= k <= end <= n,
            n == all.len(),
            chars@ == all,
            trimmed@ == all.subrange(start as int, k as int),
        decreases end - k,
    {
        trimmed.push(chars[k]);
        proof {
            assert(all.subrange(start as int, k + 1) =~= all.subrange(start as int, k as int).push(
                all[k as int],
            ));
        }
        k = k + 1;
    }
    trimmed
}

} // verus!
