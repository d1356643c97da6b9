//! Texts: when two are the same, and the order in which a JSON object hands
//! out its member names.

use vstd::prelude::*;
use vstd::string::*;

verus! {

/// The order of texts: character by character from the left, by code point,
/// and a text before every longer text that begins with it.
pub open spec fn text_lt(a: Seq<char>, b: Seq<char>) -> bool
    decreases a.len(),
{
    if b.len() == 0 {
        false
    } else if a.len() == 0 {
        true
    } else if a[0] == b[0] {
        text_lt(a.drop_first(), b.drop_first())
    } else {
        a[0] < b[0]
    }
}

/// Each text of the list stands before all that follow it.
pub open spec fn ascending(texts: Seq<Seq<char>>) -> bool {
    forall|i: int, j: int|
        0 <= i < j < texts.len() ==> text_lt(#[trigger] texts[i], #[trigger] texts[j])
}

/// No text stands before itself.
pub proof fn lemma_text_lt_irreflexive(a: Seq<char>)
    ensures
        !text_lt(a, a),
    decreases a.len(),
{
    if a.len() > 0 {
        lemma_text_lt_irreflexive(a.drop_first());
    }
}

/// What stands before a text stands before all that the text stands before.
pub proof fn lemma_text_lt_transitive(a: Seq<char>, b: Seq<char>, c: Seq<char>)
    requires
        text_lt(a, b),
        text_lt(b, c),
    ensures
        text_lt(a, c),
    decreases a.len(),
{
    if a.len() > 0 && a[0] == b[0] && b[0] == c[0] {
        lemma_text_lt_transitive(a.drop_first(), b.drop_first(), c.drop_first());
    }
}

/// A set of texts has at most one ascending list of its members.
pub proof fn lemma_ascending_unique(a: Seq<Seq<char>>, b: Seq<Seq<char>>)
    requires
        ascending(a),
        ascending(b),
        a.to_set() == b.to_set(),
    ensures
        a == b,
    decreases a.len(),
{
    if a.len() == 0 {
        if b.len() > 0 {
            assert(b.to_set().contains(b[0]));
        }
        assert(a =~= b);
    } else {
        assert(a.to_set().contains(a[0]));
        assert(b.contains(a[0]));
        let j = choose|j: int| 0 <= j < b.len() && b[j] == a[0];
        assert(b.to_set().contains(b[0]));
        assert(a.contains(b[0]));
        let k = choose|k: int| 0 <= k < a.len() && a[k] == b[0];
        if j > 0 {
            assert(text_lt(b[0], b[j]));
            if k > 0 {
                assert(text_lt(a[0], a[k]));
                lemma_text_lt_transitive(a[0], a[k], a[0]);
            }
            lemma_text_lt_irreflexive(a[0]);
        }
        assert(a[0] == b[0]);
        let a_rest = a.drop_first();
        let b_rest = b.drop_first();
        assert(ascending(a_rest)) by {
            assert forall|i: int, j: int| 0 <= i < j < a_rest.len() implies text_lt(
                #[trigger] a_rest[i],
                #[trigger] a_rest[j],
            ) by {
                assert(text_lt(a[i + 1], a[j + 1]));
            }
        }
        assert(ascending(b_rest)) by {
            assert forall|i: int, j: int| 0 <= i < j < b_rest.len() implies text_lt(
                #[trigger] b_rest[i],
                #[trigger] b_rest[j],
            ) by {
                assert(text_lt(b[i + 1], b[j + 1]));
            }
        }
        assert forall|x: Seq<char>| a_rest.to_set().contains(x) <==> b_rest.to_set().contains(
            x,
        ) by {
            lemma_rest_of_ascending(a, x);
            lemma_rest_of_ascending(b, x);
        }
        assert(a_rest.to_set() =~= b_rest.to_set());
        lemma_ascending_unique(a_rest, b_rest);
        assert(a =~= seq![a[0]] + a_rest);
        assert(b =~= seq![b[0]] + b_rest);
    }
}

/// Below its first text, an ascending list holds the same texts but that one.
proof fn lemma_rest_of_ascending(a: Seq<Seq<char>>, x: Seq<char>)
    requires
        ascending(a),
        a.len() > 0,
    ensures
        a.drop_first().to_set().contains(x) <==> (a.to_set().contains(x) && x != a[0]),
{
    let rest = a.drop_first();
    if rest.to_set().contains(x) {
        let i = choose|i: int| 0 <= i < rest.len() && rest[i] == x;
        assert(a[i + 1] == x);
        assert(text_lt(a[0], a[i + 1]));
        lemma_text_lt_irreflexive(a[0]);
    }
    if a.to_set().contains(x) && x != a[0] {
        let i = choose|i: int| 0 <= i < a.len() && a[i] == x;
        assert(rest[i - 1] == x);
    }
}

/// Of two different texts one stands before the other.
pub proof fn lemma_text_lt_total(a: Seq<char>, b: Seq<char>)
    ensures
        a == b || text_lt(a, b) || text_lt(b, a),
    decreases a.len(),
{
    if a.len() == 0 || b.len() == 0 {
        if a.len() == 0 && b.len() == 0 {
            assert(a =~= b);
        }
    } else if a[0] == b[0] {
        lemma_text_lt_total(a.drop_first(), b.drop_first());
        if a.drop_first() == b.drop_first() {
            assert(a =~= seq![a[0]] + a.drop_first());
            assert(b =~= seq![b[0]] + b.drop_first());
        }
    }
}

/// An ascending list with one more text put in its place.
spec fn insert_ascending(list: Seq<Seq<char>>, text: Seq<char>) -> Seq<Seq<char>>
    decreases list.len(),
{
    if list.len() == 0 || text_lt(text, list[0]) {
        seq![text] + list
    } else {
        seq![list[0]] + insert_ascending(list.drop_first(), text)
    }
}

/// Putting a new text in its place keeps the list ascending and adds that
/// text and no other.
proof fn lemma_insert_ascending(list: Seq<Seq<char>>, text: Seq<char>)
    requires
        ascending(list),
        !list.contains(text),
    ensures
        ascending(insert_ascending(list, text)),
        insert_ascending(list, text).to_set() == list.to_set().insert(text),
    decreases list.len(),
{
    let result = insert_ascending(list, text);
    if list.len() == 0 || text_lt(text, list[0]) {
        assert forall|i: int, j: int| 0 <= i < j < result.len() implies text_lt(
            #[trigger] result[i],
            #[trigger] result[j],
        ) by {
            if i == 0 {
                assert(result[j] == list[j - 1]);
                if j > 1 {
                    assert(text_lt(list[0], list[j - 1]));
                    lemma_text_lt_transitive(text, list[0], list[j - 1]);
                }
            } else {
                assert(text_lt(list[i - 1], list[j - 1]));
            }
        }
        assert forall|x: Seq<char>| result.to_set().contains(x) <==> list.to_set().insert(
            text,
        ).contains(x) by {
            if result.to_set().contains(x) {
                let i = choose|i: int| 0 <= i < result.len() && result[i] == x;
                if i > 0 {
                    assert(list[i - 1] == x);
                }
            }
            if list.to_set().contains(x) {
                let i = choose|i: int| 0 <= i < list.len() && list[i] == x;
                assert(result[i + 1] == x);
            }
            if x == text {
                assert(result[0] == x);
            }
        }
        assert(result.to_set() =~= list.to_set().insert(text));
    } else {
        let rest = list.drop_first();
        let below = insert_ascending(rest, text);
        assert(ascending(rest)) by {
            assert forall|i: int, j: int| 0 <= i < j < rest.len() implies text_lt(
                #[trigger] rest[i],
                #[trigger] rest[j],
            ) by {
                assert(text_lt(list[i + 1], list[j + 1]));
            }
        }
        assert(!rest.contains(text)) by {
            if rest.contains(text) {
                let i = choose|i: int| 0 <= i < rest.len() && rest[i] == text;
                assert(list[i + 1] == text);
            }
        }
        lemma_insert_ascending(rest, text);
        assert(list[0] != text);
        lemma_text_lt_total(text, list[0]);
        assert forall|x: Seq<char>| below.to_set().contains(x) implies text_lt(list[0], x) by {
            if x != text {
                assert(rest.to_set().contains(x));
                let i = choose|i: int| 0 <= i < rest.len() && rest[i] == x;
                assert(text_lt(list[0], list[i + 1]));
            }
        }
        assert forall|i: int, j: int| 0 <= i < j < result.len() implies text_lt(
            #[trigger] result[i],
            #[trigger] result[j],
        ) by {
            assert(result[j] == below[j - 1]);
            if i == 0 {
                assert(below.to_set().contains(below[j - 1]));
            } else {
                assert(text_lt(below[i - 1], below[j - 1]));
            }
        }
        assert forall|x: Seq<char>| result.to_set().contains(x) <==> list.to_set().insert(
            text,
        ).contains(x) by {
            if result.to_set().contains(x) {
                let i = choose|i: int| 0 <= i < result.len() && result[i] == x;
                if i > 0 {
                    assert(below.to_set().contains(below[i - 1]));
                    if x != text {
                        let k = choose|k: int| 0 <= k < rest.len() && rest[k] == x;
                        assert(list[k + 1] == x);
                    }
                } else {
                    assert(list[0] == x);
                }
            }
            if list.to_set().contains(x) {
                let i = choose|i: int| 0 <= i < list.len() && list[i] == x;
                if i == 0 {
                    assert(result[0] == x);
                } else {
                    assert(rest[i - 1] == x);
                    assert(below.to_set().contains(x));
                    let k = choose|k: int| 0 <= k < below.len() && below[k] == x;
                    assert(result[k + 1] == x);
                }
            }
            if x == text {
                assert(below.to_set().contains(x));
                let k = choose|k: int| 0 <= k < below.len() && below[k] == x;
                assert(result[k + 1] == x);
            }
        }
        assert(result.to_set() =~= list.to_set().insert(text));
    }
}

/// Every finite set of texts has an ascending list of its members.
pub proof fn lemma_ascending_exists(texts: Set<Seq<char>>)
    requires
        texts.finite(),
    ensures
        exists|list: Seq<Seq<char>>| ascending(list) && list.to_set() == texts,
    decreases texts.len(),
{
    if texts.len() == 0 {
        let list = Seq::<Seq<char>>::empty();
        assert(list.to_set() =~= texts);
        assert(ascending(list));
    } else {
        let text = texts.choose();
        let others = texts.remove(text);
        lemma_ascending_exists(others);
        let list = choose|list: Seq<Seq<char>>| ascending(list) && list.to_set() == others;
        assert(!list.contains(text)) by {
            if list.contains(text) {
                assert(list.to_set().contains(text));
            }
        }
        lemma_insert_ascending(list, text);
        assert(insert_ascending(list, text).to_set() =~= texts);
    }
}

/// Whether two texts are the same, found by comparing their bytes.
pub fn same_text(a: &str, b: &str) -> (same: bool)
    ensures
        same == (a@ == b@),
{
    let x = a.as_bytes();
    let y = b.as_bytes();
    if x.len() != y.len() {
        return false;
    }
    let mut i: usize = 0;
    while i < x.len()
        invariant
            i <= x.len(),
            x.len() == y.len(),
            x@ == a.spec_bytes(),
            y@ == b.spec_bytes(),
            forall|j: int| 0 <= j < i ==> x@[j] == y@[j],
        decreases x.len() - i,
    {
        if x[i] != y[i] {
            return false;
        }
        i += 1;
    }
    proof {
        assert(x@ =~= y@);
        vstd::utf8::encode_utf8_decode_utf8(a@);
        vstd::utf8::encode_utf8_decode_utf8(b@);
    }
    true
}

} // verus!
