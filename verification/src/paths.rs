//! Where the leaves stand in the nested schema.
//!
//! The nested schema is plain JSON, and nothing in it marks a node as a
//! container or as a leaf. This module reads it the way the editor does: a
//! node with object-valued `properties` has children, every other node is a
//! leaf. Read so, the tree holds a leaf at the path of every key of the flat
//! schema and nowhere else, provided that no key's path runs through another
//! key's path and that no rewritten descriptor looks like a container itself.

use crate::json::{Fields, Json};
use crate::leaf::{lemma_normalized_drops_description, normalized};
use crate::text::text_lt;
use crate::tree::{
    ascending_names, container, key_path, lemma_ascending_names, nested, nested_insert, way_down,
    with_children, zed_schema,
};
use vstd::prelude::*;

verus! {

/// A node that the editor reads as a container: an object whose `properties`
/// are an object.
pub open spec fn has_children(node: Json) -> bool {
    node matches Json::Object(members) && members.contains_key("properties"@)
        && members["properties"@] is Object
}

/// The children of a container.
pub open spec fn children_of(node: Json) -> Fields
    recommends
        has_children(node),
{
    node->Object_0["properties"@]->Object_0
}

/// The node that stands at `path` below a container with the given children:
/// the child named by the first segment, then down through the children of
/// each node on the way. `None` where the path is empty, a name is missing or
/// the way leads through a node without children.
pub open spec fn node_at(children: Fields, path: Seq<Seq<char>>) -> Option<Json>
    decreases path.len(),
{
    if path.len() == 0 || !children.contains_key(path[0]) {
        None
    } else if path.len() == 1 {
        Some(children[path[0]])
    } else if has_children(children[path[0]]) {
        node_at(children_of(children[path[0]]), path.drop_first())
    } else {
        None
    }
}

/// `path` leads to a leaf: a node stands there, and it has no children.
pub open spec fn leaf_at(children: Fields, path: Seq<Seq<char>>) -> bool {
    node_at(children, path) matches Some(node) && !has_children(node)
}

/// The paths at which the tree holds a leaf.
pub open spec fn leaf_paths(children: Fields) -> Set<Seq<Seq<char>>> {
    Set::new(|path: Seq<Seq<char>>| leaf_at(children, path))
}

/// The paths of the keys of a flat schema, without the keys that have
/// nothing below their first segment.
pub open spec fn key_paths(flat: Fields) -> Set<Seq<Seq<char>>> {
    Set::new(
        |path: Seq<Seq<char>>|
            path.len() > 0 && exists|key: Seq<char>|
                flat.contains_key(key) && #[trigger] key_path(key) == path,
    )
}

/// `upper` is the beginning of `lower` and shorter than it.
pub open spec fn runs_through(lower: Seq<Seq<char>>, upper: Seq<Seq<char>>) -> bool {
    0 < upper.len() < lower.len() && upper.is_prefix_of(lower)
}

/// No key's path runs through the path of another key.
pub open spec fn paths_apart(flat: Fields) -> bool {
    forall|lower: Seq<char>, upper: Seq<char>|
        flat.contains_key(lower) && flat.contains_key(upper) ==> !runs_through(
            #[trigger] key_path(lower),
            #[trigger] key_path(upper),
        )
}

/// No descriptor that has a place in the tree is, once rewritten, a node with
/// children.
pub open spec fn leaves_plain(flat: Fields) -> bool {
    forall|key: Seq<char>|
        flat.contains_key(key) && key_path(key).len() > 0 ==> !has_children(
            normalized(#[trigger] flat[key]),
        )
}

/// The same as [`paths_apart`], of a list of keys.
spec fn listed_apart(keys: Seq<Seq<char>>) -> bool {
    forall|i: int, j: int|
        0 <= i < keys.len() && 0 <= j < keys.len() ==> !runs_through(
            #[trigger] key_path(keys[i]),
            #[trigger] key_path(keys[j]),
        )
}

/// The tree holds at `path` the rewritten descriptor of the `i`th key, which
/// is the last of the keys with that path.
spec fn stands_there(
    flat: Fields,
    keys: Seq<Seq<char>>,
    tree: Fields,
    path: Seq<Seq<char>>,
    i: int,
) -> bool {
    &&& 0 <= i < keys.len()
    &&& key_path(keys[i]) == path
    &&& node_at(tree, path) == Some(normalized(flat[keys[i]]))
    &&& forall|j: int| i < j < keys.len() ==> #[trigger] key_path(keys[j]) != path
}

/// One of the keys has `path` as its path, and the tree holds there the
/// rewritten descriptor of the last such key.
spec fn stands_at(flat: Fields, keys: Seq<Seq<char>>, tree: Fields, path: Seq<Seq<char>>) -> bool {
    exists|i: int| stands_there(flat, keys, tree, path, i)
}

/// One of the keys has `path` as its path.
spec fn placed(keys: Seq<Seq<char>>, path: Seq<Seq<char>>) -> bool {
    exists|i: int| 0 <= i < keys.len() && #[trigger] key_path(keys[i]) == path
}

/// The path of one of the keys runs through `path`.
spec fn crossed(keys: Seq<Seq<char>>, path: Seq<Seq<char>>) -> bool {
    exists|i: int| 0 <= i < keys.len() && runs_through(#[trigger] key_path(keys[i]), path)
}

/// `path` is, runs through, or is run through by the path of one of the keys.
spec fn touched(keys: Seq<Seq<char>>, path: Seq<Seq<char>>) -> bool {
    exists|i: int|
        0 <= i < keys.len() && (#[trigger] key_path(keys[i]) == path || runs_through(
            key_path(keys[i]),
            path,
        ) || runs_through(path, key_path(keys[i])))
}

/// Every node on the way to `path`, as far as the tree has one, has children.
spec fn way_open(children: Fields, path: Seq<Seq<char>>) -> bool {
    forall|n: int|
        0 < n < path.len() ==> match #[trigger] node_at(children, path.take(n)) {
            Some(node) => has_children(node),
            None => true,
        }
}

proof fn lemma_container_has_children(children: Fields)
    ensures
        has_children(container(children)),
        children_of(container(children)) == children,
        way_down(container(children)) == Some(children),
{
}

proof fn lemma_with_children(node: Json, children: Fields)
    requires
        node is Object,
    ensures
        has_children(with_children(node, children)),
        children_of(with_children(node, children)) == children,
{
}

/// Placing a leaf changes nothing at a path that parts from the leaf's path:
/// what was built before stays, and is used again by all that share it.
pub proof fn lemma_insert_elsewhere(
    children: Fields,
    path: Seq<Seq<char>>,
    leaf: Json,
    other: Seq<Seq<char>>,
)
    requires
        path.len() > 0,
        other.len() > 0,
        !path.is_prefix_of(other),
        !other.is_prefix_of(path),
    ensures
        node_at(nested_insert(children, path, leaf), other) == node_at(children, other),
    decreases path.len(),
{
    let after = nested_insert(children, path, leaf);
    if other[0] != path[0] {
        assert(after.contains_key(other[0]) == children.contains_key(other[0]));
        if children.contains_key(other[0]) {
            assert(after[other[0]] == children[other[0]]);
        }
    } else {
        if path.len() == 1 {
            assert(path =~= other.take(1));
        }
        if other.len() == 1 {
            assert(other =~= path.take(1));
        }
        let path_below = path.drop_first();
        let other_below = other.drop_first();
        if path_below.is_prefix_of(other_below) {
            assert(path =~= other.take(path.len() as int)) by {
                assert(path_below =~= other_below.take(path_below.len() as int));
                assert forall|i: int| 0 <= i < path.len() implies path[i] == other[i] by {
                    if i > 0 {
                        assert(path_below[i - 1] == other_below.take(path_below.len() as int)[i
                            - 1]);
                    }
                }
            }
        }
        if other_below.is_prefix_of(path_below) {
            assert(other =~= path.take(other.len() as int)) by {
                assert(other_below =~= path_below.take(other_below.len() as int));
                assert forall|i: int| 0 <= i < other.len() implies other[i] == path[i] by {
                    if i > 0 {
                        assert(other_below[i - 1] == path_below.take(other_below.len() as int)[i
                            - 1]);
                    }
                }
            }
        }
        let child = if children.contains_key(path[0]) {
            children[path[0]]
        } else {
            container(Fields::empty())
        };
        lemma_container_has_children(Fields::empty());
        match way_down(child) {
            Some(grandchildren) => {
                let below = nested_insert(grandchildren, path_below, leaf);
                lemma_insert_elsewhere(grandchildren, path_below, leaf, other_below);
                lemma_with_children(child, below);
                assert(after[path[0]] == with_children(child, below));
                assert(node_at(after, other) == node_at(below, other_below));
                if children.contains_key(path[0]) && has_children(child) {
                    assert(children_of(child) == grandchildren);
                } else {
                    assert(grandchildren == Fields::empty());
                    assert(node_at(grandchildren, other_below) is None);
                }
            },
            None => {},
        }
    }
}

/// Placing a leaf where the way is open puts the leaf at the end of its path
/// and a node with children at every step before.
proof fn lemma_insert_on_path(children: Fields, path: Seq<Seq<char>>, leaf: Json, n: int)
    requires
        way_open(children, path),
        0 < n <= path.len(),
    ensures
        node_at(nested_insert(children, path, leaf), path.take(n)) matches Some(node) && if n
            == path.len() {
            node == normalized(leaf)
        } else {
            has_children(node)
        },
    decreases path.len(),
{
    let after = nested_insert(children, path, leaf);
    let upper = path.take(n);
    assert(upper[0] == path[0]);
    if path.len() == 1 {
        assert(after[path[0]] == normalized(leaf));
    } else {
        let child = if children.contains_key(path[0]) {
            children[path[0]]
        } else {
            container(Fields::empty())
        };
        lemma_container_has_children(Fields::empty());
        assert(path.take(1).len() == 1 && path.take(1)[0] == path[0]);
        assert(node_at(children, path.take(1)) == if children.contains_key(path[0]) {
            Some(children[path[0]])
        } else {
            None
        });
        assert(has_children(child));
        let grandchildren = children_of(child);
        assert(way_down(child) == Some(grandchildren));
        let path_below = path.drop_first();
        let below = nested_insert(grandchildren, path_below, leaf);
        lemma_with_children(child, below);
        assert(after[path[0]] == with_children(child, below));
        if n > 1 {
            assert(way_open(grandchildren, path_below)) by {
                assert forall|m: int| 0 < m < path_below.len() implies match #[trigger] node_at(
                    grandchildren,
                    path_below.take(m),
                ) {
                    Some(node) => has_children(node),
                    None => true,
                } by {
                    assert(path.take(m + 1).drop_first() =~= path_below.take(m));
                    if children.contains_key(path[0]) {
                        assert(node_at(children, path.take(m + 1)) == node_at(
                            grandchildren,
                            path_below.take(m),
                        ));
                    }
                }
            }
            lemma_insert_on_path(grandchildren, path_below, leaf, n - 1);
            assert(upper.drop_first() =~= path_below.take(n - 1));
            assert(node_at(after, upper) == node_at(below, path_below.take(n - 1)));
        }
    }
}

/// A path to a node leads through nodes with children only.
proof fn lemma_way_to_node(children: Fields, path: Seq<Seq<char>>, n: int)
    requires
        node_at(children, path) is Some,
        0 < n < path.len(),
    ensures
        node_at(children, path.take(n)) matches Some(node) && has_children(node),
    decreases path.len(),
{
    let upper = path.take(n);
    assert(upper[0] == path[0]);
    if n > 1 {
        lemma_way_to_node(children_of(children[path[0]]), path.drop_first(), n - 1);
        assert(upper.drop_first() =~= path.drop_first().take(n - 1));
    }
}

/// What holds of the nodes at `path` for a list of keys holds for the list
/// with one more key, if the path of that key has nothing to do with `path`
/// and placing it has left the node at `path` as it was.
proof fn lemma_nodes_carry_over(flat: Fields, keys: Seq<Seq<char>>, path: Seq<Seq<char>>)
    requires
        keys.len() > 0,
        key_path(keys.last()) != path,
        !runs_through(key_path(keys.last()), path),
        !runs_through(path, key_path(keys.last())),
        node_at(nested(flat, keys), path) == node_at(nested(flat, keys.drop_last()), path),
        placed(keys.drop_last(), path) ==> stands_at(
            flat,
            keys.drop_last(),
            nested(flat, keys.drop_last()),
            path,
        ),
        crossed(keys.drop_last(), path) ==> (node_at(
            nested(flat, keys.drop_last()),
            path,
        ) matches Some(node) && has_children(node)),
        !touched(keys.drop_last(), path) ==> node_at(nested(flat, keys.drop_last()), path) is None,
    ensures
        placed(keys, path) ==> stands_at(flat, keys, nested(flat, keys), path),
        crossed(keys, path) ==> (node_at(nested(flat, keys), path) matches Some(node)
            && has_children(node)),
        !touched(keys, path) ==> node_at(nested(flat, keys), path) is None,
{
    let before = keys.drop_last();
    if placed(keys, path) {
        let i = choose|i: int| 0 <= i < keys.len() && key_path(keys[i]) == path;
        assert(key_path(before[i]) == path);
        let w = choose|w: int| stands_there(flat, before, nested(flat, before), path, w);
        assert(stands_there(flat, keys, nested(flat, keys), path, w)) by {
            assert(keys[w] == before[w]);
            assert forall|j: int| w < j < keys.len() implies #[trigger] key_path(keys[j])
                != path by {
                if j < before.len() {
                    assert(keys[j] == before[j]);
                }
            }
        }
    }
    if crossed(keys, path) {
        let i = choose|i: int|
            0 <= i < keys.len() && runs_through(#[trigger] key_path(keys[i]), path);
        assert(runs_through(key_path(before[i]), path));
    }
    if touched(before, path) {
        let i = choose|i: int|
            0 <= i < before.len() && (#[trigger] key_path(before[i]) == path || runs_through(
                key_path(before[i]),
                path,
            ) || runs_through(path, key_path(before[i])));
        assert(key_path(keys[i]) == key_path(before[i]));
    }
}

/// What the tree of a list of keys holds at a path, where no key's path runs
/// through another's: the rewritten descriptor of the last key with that
/// path, a node with children where the path of a key runs through, and
/// nothing at a path that no key's path touches.
proof fn lemma_nested_nodes(flat: Fields, keys: Seq<Seq<char>>, path: Seq<Seq<char>>)
    requires
        listed_apart(keys),
        path.len() > 0,
    ensures
        placed(keys, path) ==> stands_at(flat, keys, nested(flat, keys), path),
        crossed(keys, path) ==> (node_at(nested(flat, keys), path) matches Some(node)
            && has_children(node)),
        !touched(keys, path) ==> node_at(nested(flat, keys), path) is None,
    decreases keys.len(),
{
    let tree = nested(flat, keys);
    if keys.len() == 0 {
        assert(node_at(tree, path) is None);
    } else {
        let last = keys.len() - 1;
        let before = keys.drop_last();
        let key = keys[last];
        let here = key_path(key);
        let earlier = nested(flat, before);
        assert(listed_apart(before)) by {
            assert forall|i: int, j: int|
                0 <= i < before.len() && 0 <= j < before.len() implies !runs_through(
                #[trigger] key_path(before[i]),
                #[trigger] key_path(before[j]),
            ) by {
                assert(before[i] == keys[i] && before[j] == keys[j]);
            }
        }
        lemma_nested_nodes(flat, before, path);
        if here.len() == 0 {
            assert(tree == earlier);
            lemma_nodes_carry_over(flat, keys, path);
        } else {
            assert(way_open(earlier, here)) by {
                assert forall|n: int| 0 < n < here.len() implies match #[trigger] node_at(
                    earlier,
                    here.take(n),
                ) {
                    Some(node) => has_children(node),
                    None => true,
                } by {
                    let upper = here.take(n);
                    lemma_nested_nodes(flat, before, upper);
                    if touched(before, upper) && !crossed(before, upper) {
                        let i = choose|i: int|
                            0 <= i < before.len() && (#[trigger] key_path(before[i]) == upper
                                || runs_through(key_path(before[i]), upper) || runs_through(
                                upper,
                                key_path(before[i]),
                            ));
                        let there = key_path(before[i]);
                        assert(there == key_path(keys[i]));
                        assert(!runs_through(key_path(keys[last]), key_path(keys[i])));
                        if runs_through(upper, there) {
                            assert(there =~= here.take(there.len() as int));
                        }
                        assert(false);
                    }
                }
            }
            if path == here {
                lemma_insert_on_path(earlier, here, flat[key], here.len() as int);
                assert(here.take(here.len() as int) =~= here);
                assert(stands_there(flat, keys, tree, path, last));
                if crossed(keys, path) {
                    let i = choose|i: int|
                        0 <= i < keys.len() && runs_through(#[trigger] key_path(keys[i]), path);
                    assert(!runs_through(key_path(keys[i]), key_path(keys[last])));
                }
            } else if path.is_prefix_of(here) {
                if path.len() == here.len() {
                    assert(path =~= here);
                }
                lemma_insert_on_path(earlier, here, flat[key], path.len() as int);
                assert(here.take(path.len() as int) =~= path);
                assert(runs_through(key_path(keys[last]), path));
                if placed(keys, path) {
                    let i = choose|i: int| 0 <= i < keys.len() && key_path(keys[i]) == path;
                    assert(!runs_through(key_path(keys[last]), key_path(keys[i])));
                }
            } else if here.is_prefix_of(path) {
                if path.len() == here.len() {
                    assert(path =~= here);
                }
                assert(runs_through(path, key_path(keys[last])));
                if placed(keys, path) {
                    let i = choose|i: int| 0 <= i < keys.len() && key_path(keys[i]) == path;
                    assert(!runs_through(key_path(keys[i]), key_path(keys[last])));
                }
                if crossed(keys, path) {
                    let i = choose|i: int|
                        0 <= i < keys.len() && runs_through(#[trigger] key_path(keys[i]), path);
                    let there = key_path(keys[i]);
                    assert(!runs_through(there, key_path(keys[last])));
                    assert(here =~= there.take(here.len() as int)) by {
                        assert(here =~= path.take(here.len() as int));
                        assert(path =~= there.take(path.len() as int));
                    }
                }
            } else {
                lemma_insert_elsewhere(earlier, here, flat[key], path);
                lemma_nodes_carry_over(flat, keys, path);
            }
        }
    }
}

proof fn lemma_listed_apart(flat: Fields)
    requires
        flat.dom().finite(),
        paths_apart(flat),
    ensures
        listed_apart(ascending_names(flat)),
{
    let keys = ascending_names(flat);
    lemma_ascending_names(flat);
    assert forall|i: int, j: int| 0 <= i < keys.len() && 0 <= j < keys.len() implies !runs_through(
        #[trigger] key_path(keys[i]),
        #[trigger] key_path(keys[j]),
    ) by {
        assert(keys.to_set().contains(keys[i]));
        assert(keys.to_set().contains(keys[j]));
    }
}

/// The key whose descriptor the tree holds at `path`: the last, in ascending
/// order, of the keys of `flat` with that path.
pub open spec fn is_last_at(flat: Fields, key: Seq<char>, path: Seq<Seq<char>>) -> bool {
    &&& flat.contains_key(key)
    &&& key_path(key) == path
    &&& forall|other: Seq<char>|
        flat.contains_key(other) && #[trigger] key_path(other) == path ==> other == key
            || text_lt(other, key)
}

/// Where no key's path runs through another's, the nested schema holds at
/// the path of every key the rewritten descriptor of a key with that path:
/// of the key itself, unless another key differs from it in the first
/// segment only, and then of the last of these.
pub proof fn lemma_descriptor_at_path(flat: Fields, key: Seq<char>)
    requires
        flat.dom().finite(),
        paths_apart(flat),
        flat.contains_key(key),
        key_path(key).len() > 0,
    ensures
        exists|twin: Seq<char>|
            #[trigger] is_last_at(flat, twin, key_path(key)) && node_at(
                nested(flat, ascending_names(flat)),
                key_path(key),
            ) == Some(normalized(flat[twin])),
{
    let keys = ascending_names(flat);
    let path = key_path(key);
    lemma_ascending_names(flat);
    lemma_listed_apart(flat);
    assert(keys.to_set().contains(key));
    let k = choose|k: int| 0 <= k < keys.len() && keys[k] == key;
    assert(key_path(keys[k]) == path);
    lemma_nested_nodes(flat, keys, path);
    let i = choose|i: int| stands_there(flat, keys, nested(flat, keys), path, i);
    assert(keys.to_set().contains(keys[i]));
    assert forall|other: Seq<char>|
        flat.contains_key(other) && #[trigger] key_path(other) == path implies other == keys[i]
        || text_lt(other, keys[i]) by {
        assert(keys.to_set().contains(other));
        let j = choose|j: int| 0 <= j < keys.len() && keys[j] == other;
        if j < i {
            assert(text_lt(keys[j], keys[i]));
        }
    }
    assert(is_last_at(flat, keys[i], path));
}

/// Where no key's path runs through another's, the nested schema holds a node
/// with children wherever the path of a key runs through, and nothing at all
/// at a path that is apart from the path of every key.
pub proof fn lemma_containers_on_the_way_only(flat: Fields, path: Seq<Seq<char>>)
    requires
        flat.dom().finite(),
        paths_apart(flat),
        path.len() > 0,
    ensures
        (exists|key: Seq<char>|
            flat.contains_key(key) && runs_through(#[trigger] key_path(key), path)) ==> (node_at(
            nested(flat, ascending_names(flat)),
            path,
        ) matches Some(node) && has_children(node)),
        (forall|key: Seq<char>|
            flat.contains_key(key) ==> #[trigger] key_path(key) != path && !runs_through(
                key_path(key),
                path,
            ) && !runs_through(path, key_path(key))) ==> node_at(
            nested(flat, ascending_names(flat)),
            path,
        ) is None,
{
    let keys = ascending_names(flat);
    lemma_ascending_names(flat);
    lemma_listed_apart(flat);
    lemma_nested_nodes(flat, keys, path);
    if exists|key: Seq<char>|
        flat.contains_key(key) && runs_through(#[trigger] key_path(key), path) {
        let key = choose|key: Seq<char>|
            flat.contains_key(key) && runs_through(#[trigger] key_path(key), path);
        assert(keys.to_set().contains(key));
        let i = choose|i: int| 0 <= i < keys.len() && keys[i] == key;
        assert(runs_through(key_path(keys[i]), path));
    }
    if touched(keys, path) {
        let i = choose|i: int|
            0 <= i < keys.len() && (#[trigger] key_path(keys[i]) == path || runs_through(
                key_path(keys[i]),
                path,
            ) || runs_through(path, key_path(keys[i])));
        assert(keys.to_set().contains(keys[i]));
    }
}

/// The tree mirrors the keys: where no key's path runs through another's and
/// no rewritten descriptor has children of its own, the paths at which the
/// nested schema holds a leaf are exactly the paths of the keys.
pub proof fn lemma_leaf_paths_are_key_paths(flat: Fields)
    requires
        flat.dom().finite(),
        paths_apart(flat),
        leaves_plain(flat),
    ensures
        leaf_paths(nested(flat, ascending_names(flat))) == key_paths(flat),
{
    let keys = ascending_names(flat);
    let tree = nested(flat, keys);
    lemma_ascending_names(flat);
    lemma_listed_apart(flat);
    assert forall|path: Seq<Seq<char>>| leaf_paths(tree).contains(path) <==> key_paths(
        flat,
    ).contains(path) by {
        if key_paths(flat).contains(path) {
            let key = choose|key: Seq<char>|
                flat.contains_key(key) && #[trigger] key_path(key) == path;
            lemma_descriptor_at_path(flat, key);
        }
        if leaf_paths(tree).contains(path) {
            assert(path.len() > 0);
            lemma_nested_nodes(flat, keys, path);
            let i = choose|i: int|
                0 <= i < keys.len() && (#[trigger] key_path(keys[i]) == path || runs_through(
                    key_path(keys[i]),
                    path,
                ) || runs_through(path, key_path(keys[i])));
            let there = key_path(keys[i]);
            assert(keys.to_set().contains(keys[i]));
            if runs_through(there, path) {
                assert(crossed(keys, path));
            }
            if runs_through(path, there) {
                lemma_way_to_node(tree, path, there.len() as int);
                assert(path.take(there.len() as int) =~= there);
                lemma_descriptor_at_path(flat, keys[i]);
            }
            assert(there == path);
        }
    }
    assert(leaf_paths(tree) =~= key_paths(flat));
}

/// No leaf of the nested schema has a member named `description`: where no
/// key's path runs through another's, what stands at the path of a key has
/// none.
pub proof fn lemma_leaves_without_description(flat: Fields, key: Seq<char>)
    requires
        flat.dom().finite(),
        paths_apart(flat),
        flat.contains_key(key),
        key_path(key).len() > 0,
    ensures
        match node_at(nested(flat, ascending_names(flat)), key_path(key)) {
            Some(Json::Object(members)) => !members.contains_key("description"@),
            Some(_) => true,
            None => false,
        },
{
    lemma_descriptor_at_path(flat, key);
    let twin = choose|twin: Seq<char>|
        #[trigger] is_last_at(flat, twin, key_path(key)) && node_at(
            nested(flat, ascending_names(flat)),
            key_path(key),
        ) == Some(normalized(flat[twin]));
    lemma_normalized_drops_description(flat[twin]);
}

/// What is not an object is its own schema.
pub proof fn lemma_other_roots_pass_through(raw: Json)
    requires
        !(raw is Object),
    ensures
        zed_schema(raw) == raw,
{
}

} // verus!
