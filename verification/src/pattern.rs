//! Text matching for the range query: the base text that every descendant
//! of a root begins with, and the same as a `LIKE` pattern in which no
//! character of the path can act as a wildcard.

use vstd::prelude::*;
use vstd::std_specs::iter::IteratorSpec;
use vstd::string::*;

verus! {

/// Whether a character has a meaning of its own in a `LIKE` pattern with
/// the backslash as escape.
pub open spec fn needs_escape(ch: char) -> bool {
    ch == '\\' || ch == '%' || ch == '_'
}

/// A text with a backslash before each backslash, percent sign and
/// underscore.
pub open spec fn spec_escape_for_like(input: Seq<char>) -> Seq<char>
    decreases input.len(),
{
    if input.len() == 0 {
        seq![]
    } else if needs_escape(input.last()) {
        spec_escape_for_like(input.drop_last()).push('\\').push(input.last())
    } else {
        spec_escape_for_like(input.drop_last()).push(input.last())
    }
}

/// The text that every path below `root` begins with: the root's text,
/// ending in one separator.
pub open spec fn spec_descendant_base(root: Seq<char>, sep: char) -> Seq<char> {
    if root.len() > 0 && root.last() == sep {
        root
    } else {
        root.push(sep)
    }
}

/// The `LIKE` pattern for the paths below `root`: the escaped base, then a
/// percent sign.
pub open spec fn spec_descendant_like_pattern(root: Seq<char>, sep: char) -> Seq<char> {
    spec_escape_for_like(spec_descendant_base(root, sep)).push('%')
}

/// Escapes a text for use inside a `LIKE` pattern.
pub fn escape_for_like(input: &str) -> (escaped: String)
    ensures
        escaped@ == spec_escape_for_like(input@),
{
    let mut escaped = String::new();
    let mut chars = input.chars();
    let ghost mut done: int = 0;
    proof {
        assert(input@.take(0) =~= Seq::<char>::empty());
        assert(input@.skip(0) =~= input@);
    }
    loop
        invariant
            chars.obeys_prophetic_iter_laws(),
            0 <= done <= input@.len(),
            chars.remaining() == input@.skip(done),
            escaped@ == spec_escape_for_like(input@.take(done)),
        ensures
            escaped@ == spec_escape_for_like(input@),
        decreases input@.len() - done,
    {
        match chars.next() {
            Some(ch) => {
                proof {
                    assert(input@.skip(done)[0] == input@[done]);
                    assert(input@.skip(done).drop_first() =~= input@.skip(done + 1));
                    assert(input@.take(done + 1).drop_last() =~= input@.take(done));
                    assert(input@.take(done + 1).last() == ch);
                }
                if ch == '\\' || ch == '%' || ch == '_' {
                    escaped.push('\\');
                }
                escaped.push(ch);
                proof {
                    done = done + 1;
                }
            },
            None => {
                proof {
                    assert(input@.take(done) =~= input@);
                }
                break ;
            },
        }
    }
    escaped
}

/// The text that every path below `root` begins with.
pub fn descendant_base(root: &str, sep: char) -> (base: String)
    ensures
        base@ == spec_descendant_base(root@, sep),
{
    let mut base = String::new();
    let mut chars = root.chars();
    let mut ends_in_separator = false;
    let ghost mut done: int = 0;
    proof {
        assert(root@.take(0) =~= Seq::<char>::empty());
        assert(root@.skip(0) =~= root@);
    }
    loop
        invariant
            chars.obeys_prophetic_iter_laws(),
            0 <= done <= root@.len(),
            chars.remaining() == root@.skip(done),
            base@ == root@.take(done),
            ends_in_separator == (done > 0 && root@[done - 1] == sep),
        ensures
            base@ == root@,
            ends_in_separator == (root@.len() > 0 && root@.last() == sep),
        decreases root@.len() - done,
    {
        match chars.next() {
            Some(ch) => {
                proof {
                    assert(root@.skip(done)[0] == root@[done]);
                    assert(root@.skip(done).drop_first() =~= root@.skip(done + 1));
                    assert(root@.take(done + 1) =~= root@.take(done).push(ch));
                }
                base.push(ch);
                ends_in_separator = ch == sep;
                proof {
                    done = done + 1;
                }
            },
            None => {
                proof {
                    assert(root@.take(done) =~= root@);
                }
                break ;
            },
        }
    }
    if !ends_in_separator {
        base.push(sep);
    }
    base
}

/// The `LIKE` pattern that matches the paths below `root` and nothing else.
pub fn descendant_like_pattern(root: &str, sep: char) -> (pattern: String)
    ensures
        pattern@ == spec_descendant_like_pattern(root@, sep),
{
    let base = descendant_base(root, sep);
    let mut pattern = escape_for_like(base.as_str());
    pattern.push('%');
    pattern
}

/// Whether `text` begins with `prefix`.
pub fn text_starts_with(text: &str, prefix: &str) -> (leads: bool)
    ensures
        leads == prefix@.is_prefix_of(text@),
{
    let mut left = prefix.chars();
    let mut right = text.chars();
    let ghost mut done: int = 0;
    proof {
        assert(prefix@.skip(0) =~= prefix@);
        assert(text@.skip(0) =~= text@);
    }
    loop
        invariant
            left.obeys_prophetic_iter_laws(),
            right.obeys_prophetic_iter_laws(),
            0 <= done <= prefix@.len(),
            done <= text@.len(),
            left.remaining() == prefix@.skip(done),
            right.remaining() == text@.skip(done),
            forall|k: int| 0 <= k < done ==> prefix@[k] == text@[k],
        decreases prefix@.len() - done,
    {
        match left.next() {
            None => {
                proof {
                    assert(prefix@ =~= text@.subrange(0, prefix@.len() as int));
                }
                return true;
            },
            Some(p) => {
                proof {
                    assert(prefix@.skip(done)[0] == prefix@[done]);
                    assert(prefix@.skip(done).drop_first() =~= prefix@.skip(done + 1));
                }
                match right.next() {
                    None => {
                        return false;
                    },
                    Some(q) => {
                        proof {
                            assert(text@.skip(done)[0] == text@[done]);
                            assert(text@.skip(done).drop_first() =~= text@.skip(done + 1));
                        }
                        if p != q {
                            proof {
                                if prefix@.is_prefix_of(text@) {
                                    assert(text@.subrange(0, prefix@.len() as int)[done]
                                        == prefix@[done]);
                                }
                            }
                            return false;
                        }
                        proof {
                            done = done + 1;
                        }
                    },
                }
            },
        }
    }
}

/// Whether a text matches a `LIKE` pattern in which the backslash escapes:
/// a percent sign stands for any run of characters, an underscore for any
/// one character, a backslash makes the character after it stand for
/// itself, and any other character stands for itself.
pub open spec fn like_matches(pattern: Seq<char>, text: Seq<char>) -> bool
    decreases pattern.len(), text.len(),
{
    if pattern.len() == 0 {
        text.len() == 0
    } else if pattern[0] == '\\' && pattern.len() >= 2 {
        text.len() > 0 && text[0] == pattern[1] && like_matches(pattern.skip(2), text.skip(1))
    } else if pattern[0] == '%' {
        like_matches(pattern.skip(1), text) || (text.len() > 0 && like_matches(
            pattern,
            text.skip(1),
        ))
    } else if pattern[0] == '_' {
        text.len() > 0 && like_matches(pattern.skip(1), text.skip(1))
    } else {
        text.len() > 0 && text[0] == pattern[0] && like_matches(pattern.skip(1), text.skip(1))
    }
}

/// What one character becomes when a text is escaped.
pub open spec fn escaped_char(ch: char) -> Seq<char> {
    if needs_escape(ch) {
        seq!['\\', ch]
    } else {
        seq![ch]
    }
}

/// Escaping a text escapes its first character and then the rest.
pub proof fn lemma_escape_first(ch: char, rest: Seq<char>)
    ensures
        spec_escape_for_like(seq![ch] + rest) == escaped_char(ch) + spec_escape_for_like(rest),
    decreases rest.len(),
{
    let whole = seq![ch] + rest;
    if rest.len() == 0 {
        assert(whole =~= seq![ch]);
        assert(whole.drop_last() =~= Seq::<char>::empty());
        assert(spec_escape_for_like(whole.drop_last()) =~= Seq::<char>::empty());
        assert(spec_escape_for_like(whole) =~= escaped_char(ch));
        assert(escaped_char(ch) + spec_escape_for_like(rest) =~= escaped_char(ch));
    } else {
        lemma_escape_first(ch, rest.drop_last());
        assert(whole.drop_last() =~= seq![ch] + rest.drop_last());
        assert(whole.last() == rest.last());
        let front = spec_escape_for_like(rest.drop_last());
        if needs_escape(rest.last()) {
            assert((escaped_char(ch) + front).push('\\').push(rest.last()) =~= escaped_char(ch) + (
            front.push('\\').push(rest.last())));
        } else {
            assert((escaped_char(ch) + front).push(rest.last()) =~= escaped_char(ch) + front.push(
                rest.last(),
            ));
        }
    }
}

/// A pattern that begins with an escaped text matches exactly the texts
/// that begin with the text itself and go on as the rest of the pattern
/// asks.
pub proof fn lemma_escaped_prefix_matches(literal: Seq<char>, rest: Seq<char>, text: Seq<char>)
    ensures
        like_matches(spec_escape_for_like(literal) + rest, text) <==> literal.is_prefix_of(text)
            && like_matches(rest, text.skip(literal.len() as int)),
    decreases literal.len(),
{
    if literal.len() == 0 {
        assert(spec_escape_for_like(literal) + rest =~= rest);
        assert(text.skip(0) =~= text);
        assert(literal =~= text.subrange(0, 0));
    } else {
        let ch = literal[0];
        let tail = literal.drop_first();
        assert(literal =~= seq![ch] + tail);
        lemma_escape_first(ch, tail);
        let pattern = spec_escape_for_like(literal) + rest;
        let after = spec_escape_for_like(tail) + rest;
        assert(pattern =~= escaped_char(ch) + after);
        if needs_escape(ch) {
            assert(pattern[0] == '\\' && pattern[1] == ch);
            assert(pattern.skip(2) =~= after);
        } else {
            assert(pattern[0] == ch);
            assert(pattern.skip(1) =~= after);
        }
        if text.len() > 0 && text[0] == ch {
            lemma_escaped_prefix_matches(tail, rest, text.skip(1));
            if tail.is_prefix_of(text.skip(1)) {
                assert(literal =~= text.subrange(0, literal.len() as int));
                assert(text.skip(1).skip(tail.len() as int) =~= text.skip(literal.len() as int));
            }
            if literal.is_prefix_of(text) {
                assert(tail =~= text.skip(1).subrange(0, tail.len() as int));
                assert(text.skip(1).skip(tail.len() as int) =~= text.skip(literal.len() as int));
            }
        } else {
            if literal.is_prefix_of(text) {
                assert(text.subrange(0, literal.len() as int)[0] == literal[0]);
            }
        }
    }
}

/// A lone percent sign matches every text.
pub proof fn lemma_percent_matches_all(text: Seq<char>)
    ensures
        like_matches(seq!['%'], text),
    decreases text.len(),
{
    let pattern = seq!['%'];
    assert(pattern.len() == 1 && pattern[0] == '%');
    if text.len() == 0 {
        assert(pattern.skip(1) =~= Seq::<char>::empty());
        assert(like_matches(pattern.skip(1), text));
    } else {
        lemma_percent_matches_all(text.skip(1));
    }
}

/// The pattern of the descendants of a root matches exactly the texts that
/// begin with the base of the root: no character of the root acts as a
/// wildcard.
pub proof fn lemma_descendant_pattern(root: Seq<char>, sep: char, text: Seq<char>)
    ensures
        like_matches(spec_descendant_like_pattern(root, sep), text) <==> spec_descendant_base(
            root,
            sep,
        ).is_prefix_of(text),
{
    let base = spec_descendant_base(root, sep);
    lemma_escaped_prefix_matches(base, seq!['%'], text);
    lemma_percent_matches_all(text.skip(base.len() as int));
    assert(spec_descendant_like_pattern(root, sep) =~= spec_escape_for_like(base) + seq!['%']);
}

} // verus!
