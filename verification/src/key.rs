//! Dotted keys.
//!
//! A key of the flat schema names a setting by the way to it: the segments
//! of the way, with a dot between each two.

use vstd::prelude::*;
use vstd::string::*;

verus! {

/// The segments of a dotted text: what stands before the first dot, between
/// each two dots, and after the last. A text without a dot is its own only
/// segment, the empty text included; two dots in a row have an empty segment
/// between them.
pub open spec fn split_dots(text: Seq<char>) -> Seq<Seq<char>>
    decreases text.len(),
{
    if text.len() == 0 {
        seq![Seq::empty()]
    } else {
        let before = split_dots(text.drop_last());
        if text.last() == '.' {
            before.push(Seq::empty())
        } else {
            before.drop_last().push(before.last().push(text.last()))
        }
    }
}

/// The segments with a dot between each two.
pub open spec fn join_dots(segments: Seq<Seq<char>>) -> Seq<char>
    decreases segments.len(),
{
    if segments.len() == 0 {
        Seq::empty()
    } else if segments.len() == 1 {
        segments[0]
    } else {
        join_dots(segments.drop_last()) + seq!['.'] + segments.last()
    }
}

/// A text without a dot in it.
pub open spec fn dotless(text: Seq<char>) -> bool {
    !text.contains('.')
}

/// A text has at least one segment.
pub proof fn lemma_split_dots_len(text: Seq<char>)
    ensures
        split_dots(text).len() >= 1,
    decreases text.len(),
{
    if text.len() > 0 {
        lemma_split_dots_len(text.drop_last());
    }
}

/// The segments of a text hold no dot, and with the dots put back they are
/// the text.
pub proof fn lemma_split_dots_joins(text: Seq<char>)
    ensures
        join_dots(split_dots(text)) == text,
        forall|i: int| 0 <= i < split_dots(text).len() ==> dotless(#[trigger] split_dots(text)[i]),
    decreases text.len(),
{
    let segments = split_dots(text);
    if text.len() == 0 {
        assert(text =~= Seq::empty());
        assert(dotless(segments[0]));
    } else {
        let shorter = text.drop_last();
        let before = split_dots(shorter);
        lemma_split_dots_len(shorter);
        lemma_split_dots_joins(shorter);
        assert(text =~= shorter.push(text.last()));
        if text.last() == '.' {
            assert(segments.drop_last() =~= before);
            assert(join_dots(segments) =~= text);
            assert forall|i: int| 0 <= i < segments.len() implies dotless(
                #[trigger] segments[i],
            ) by {
                if i < before.len() {
                    assert(segments[i] == before[i]);
                }
            }
        } else {
            let grown = before.last().push(text.last());
            assert(segments.last() == grown);
            assert(segments.drop_last() =~= before.drop_last());
            if before.len() == 1 {
                assert(join_dots(segments) =~= text);
            } else {
                assert(join_dots(segments) =~= join_dots(before).push(text.last()));
            }
            assert forall|i: int| 0 <= i < segments.len() implies dotless(
                #[trigger] segments[i],
            ) by {
                if i < before.len() - 1 {
                    assert(segments[i] == before[i]);
                } else {
                    assert(dotless(before[i]));
                    if grown.contains('.') {
                        let k = choose|k: int| 0 <= k < grown.len() && grown[k] == '.';
                        assert(before[i][k] == '.');
                    }
                }
            }
        }
    }
}

/// Splits a key at its dots.
pub fn split_key(key: &str) -> (parts: Vec<&str>)
    ensures
        parts.deep_view() == split_dots(key@),
{
    let n = key.unicode_len();
    let mut parts: Vec<&str> = Vec::new();
    let mut start: usize = 0;
    let mut i: usize = 0;
    proof {
        assert(key@.take(0) =~= Seq::<char>::empty());
        assert(parts.deep_view().push(key@.subrange(0, 0)) =~= split_dots(key@.take(0)));
    }
    for c in it: key.chars()
        invariant
            i == it.index(),
            it.seq() == key@,
            n == key@.len(),
            start <= i <= n,
            parts.deep_view().push(key@.subrange(start as int, i as int)) == split_dots(
                key@.take(i as int),
            ),
    {
        let ghost before = parts.deep_view();
        let ghost open = key@.subrange(start as int, i as int);
        proof {
            assert(key@.take(i + 1).drop_last() =~= key@.take(i as int));
            assert(key@.take(i + 1).last() == c);
        }
        if c == '.' {
            parts.push(key.substring_char(start, i));
            start = i + 1;
            proof {
                assert(parts.deep_view() =~= before.push(open));
                assert(key@.subrange(start as int, i + 1) =~= Seq::<char>::empty());
            }
        } else {
            proof {
                assert(before.push(open).drop_last() =~= before);
                assert(key@.subrange(start as int, i + 1) =~= open.push(c));
            }
        }
        i += 1;
    }
    let ghost before = parts.deep_view();
    parts.push(key.substring_char(start, i));
    proof {
        assert(key@.take(n as int) =~= key@);
        assert(parts.deep_view() =~= before.push(key@.subrange(start as int, i as int)));
    }
    parts
}

} // verus!
