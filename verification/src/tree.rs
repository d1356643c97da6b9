//! Building the nested schema from the flat one.
//!
//! The language server describes its settings as one flat object: each member
//! is named by a dotted key such as `haskell.plugin.eval.globalOn` and holds
//! the descriptor of that setting. The editor wants the same settings as a
//! tree: one container per segment of the key, the descriptor at the end.
//! The first segment names the language server itself and has no place in
//! the tree.
//!
//! The keys are placed one after the other, in ascending order. That order
//! shows only where the path of one key runs through the path of another,
//! as with `haskell.a` and `haskell.a.b`, which a well-formed schema does not
//! do. Such keys are not rejected. What happens to them is fixed, and
//! [`nested_insert`] says what: a leaf replaces whatever stood at its
//! path, a container included; a key whose path leads through a leaf that is
//! an object is placed under the `properties` of that leaf, which are made
//! for it if the leaf has none; and a key whose path leads through anything
//! else is left out.

use crate::json::{
    entry_names, fields_of, json_of, member_or_insert, members, object_value, text_value, Fields,
    Json,
};
use crate::key::{lemma_split_dots_len, split_dots, split_key};
use crate::leaf::{convert_leaf_schema, normalized};
use crate::paths::{
    children_of, key_paths, leaf_paths, leaves_plain, lemma_leaf_paths_are_key_paths, paths_apart,
};
use crate::text::{ascending, lemma_ascending_exists, lemma_ascending_unique};
use vstd::prelude::*;
use vstd::seq_lib::seq_to_set_is_finite;
use vstd::slice::slice_subrange;

verus! {

/// The container with the given children:
/// `{"type": "object", "properties": {..children..}}`.
pub open spec fn container(children: Fields) -> Json {
    Json::Object(
        Fields::empty().insert("type"@, Json::Text("object"@)).insert(
            "properties"@,
            Json::Object(children),
        ),
    )
}

/// The children to go on with below a node, if there is a way down: those
/// under its `properties`, and none yet where an object has no `properties`.
/// There is no way down from what is not an object, nor from an object whose
/// `properties` are not an object.
pub open spec fn way_down(node: Json) -> Option<Fields> {
    match node {
        Json::Object(members) => if members.contains_key("properties"@) {
            match members["properties"@] {
                Json::Object(children) => Some(children),
                _ => None,
            }
        } else {
            Some(Fields::empty())
        },
        _ => None,
    }
}

/// The object `node` with `children` as its `properties`.
pub open spec fn with_children(node: Json, children: Fields) -> Json
    recommends
        node is Object,
{
    Json::Object(node->Object_0.insert("properties"@, Json::Object(children)))
}

/// The children of a container after `leaf` has been placed at `path` below
/// it.
///
/// At the last segment the rewritten leaf is stored, replacing whatever stood
/// there. At every segment before, the walk goes down into the child of that
/// name, which is made as an empty container if there is none. Where there
/// is no way down from that child, nothing changes.
pub open spec fn nested_insert(children: Fields, path: Seq<Seq<char>>, leaf: Json) -> Fields
    decreases path.len(),
{
    if path.len() == 0 {
        children
    } else if path.len() == 1 {
        children.insert(path[0], normalized(leaf))
    } else {
        let child = if children.contains_key(path[0]) {
            children[path[0]]
        } else {
            container(Fields::empty())
        };
        match way_down(child) {
            Some(grandchildren) => children.insert(
                path[0],
                with_children(child, nested_insert(grandchildren, path.drop_first(), leaf)),
            ),
            None => children,
        }
    }
}

/// The last write wins: of two leaves placed at the same path, one after the
/// other, the tree keeps no trace of the first.
pub proof fn lemma_last_write_wins(
    children: Fields,
    path: Seq<Seq<char>>,
    first: Json,
    second: Json,
)
    ensures
        nested_insert(nested_insert(children, path, first), path, second) == nested_insert(
            children,
            path,
            second,
        ),
    decreases path.len(),
{
    let once = nested_insert(children, path, first);
    if path.len() == 1 {
        assert(nested_insert(once, path, second) =~= nested_insert(children, path, second));
    } else if path.len() > 1 {
        let child = if children.contains_key(path[0]) {
            children[path[0]]
        } else {
            container(Fields::empty())
        };
        match way_down(child) {
            Some(grandchildren) => {
                let below = nested_insert(grandchildren, path.drop_first(), first);
                lemma_last_write_wins(grandchildren, path.drop_first(), first, second);
                assert(once[path[0]] == with_children(child, below));
                assert(way_down(with_children(child, below)) == Some(below));
                assert(child->Object_0.insert("properties"@, Json::Object(below)).insert(
                    "properties"@,
                    Json::Object(nested_insert(below, path.drop_first(), second)),
                ) =~= child->Object_0.insert(
                    "properties"@,
                    Json::Object(nested_insert(grandchildren, path.drop_first(), second)),
                ));
                assert(nested_insert(once, path, second) =~= nested_insert(
                    children,
                    path,
                    second,
                ));
            },
            None => {},
        }
    }
}

/// The segments of a dotted key below the first one.
pub open spec fn key_path(key: Seq<char>) -> Seq<Seq<char>> {
    split_dots(key).drop_first()
}

/// The children of the root after the members of `flat` named in `keys` have
/// been placed, one after the other in the order of `keys`.
pub open spec fn nested(flat: Fields, keys: Seq<Seq<char>>) -> Fields
    decreases keys.len(),
{
    if keys.len() == 0 {
        Fields::empty()
    } else {
        nested_insert(nested(flat, keys.drop_last()), key_path(keys.last()), flat[keys.last()])
    }
}

/// The names of the members of an object in ascending order.
pub open spec fn ascending_names(fields: Fields) -> Seq<Seq<char>> {
    choose|names: Seq<Seq<char>>| ascending(names) && names.to_set() == fields.dom()
}

/// The names of a finite object have an ascending list:
/// [`ascending_names`] is one.
pub proof fn lemma_ascending_names(fields: Fields)
    requires
        fields.dom().finite(),
    ensures
        ascending(ascending_names(fields)),
        ascending_names(fields).to_set() == fields.dom(),
{
    lemma_ascending_exists(fields.dom());
}

/// An object has no ascending list of its names but [`ascending_names`].
pub proof fn lemma_ascending_names_only(fields: Fields, names: Seq<Seq<char>>)
    requires
        ascending(names),
        names.to_set() == fields.dom(),
    ensures
        names == ascending_names(fields),
{
    lemma_ascending_unique(names, ascending_names(fields));
}

/// The schema for the editor: a flat object becomes the root container of the
/// tree of its members, placed in ascending order of their keys; anything
/// that is not an object stays as it is.
pub open spec fn zed_schema(raw: Json) -> Json {
    match raw {
        Json::Object(flat) => container(nested(flat, ascending_names(flat))),
        _ => raw,
    }
}

/// Makes the container with the given children.
pub fn container_value(children: serde_json::Map<String, serde_json::Value>) -> (value:
    serde_json::Value)
    ensures
        json_of(value) == container(fields_of(children)),
{
    let mut object = serde_json::Map::new();
    object.insert("type".to_owned(), text_value("object".to_owned()));
    object.insert("properties".to_owned(), object_value(children));
    object_value(object)
}

/// Places `leaf_value`, rewritten, at `path` below the container whose
/// children are `properties`.
pub fn insert_nested_property(
    properties: &mut serde_json::Map<String, serde_json::Value>,
    path: &[&str],
    leaf_value: &serde_json::Value,
)
    ensures
        fields_of(*final(properties)) == nested_insert(
            fields_of(*old(properties)),
            path.deep_view(),
            json_of(*leaf_value),
        ),
    decreases path.len(),
{
    if path.len() == 0 {
        return ;
    }
    let key = path[0].to_owned();
    assert(path.deep_view()[0] == key@);

    if path.len() == 1 {
        properties.insert(key, convert_leaf_schema(leaf_value));
    } else {
        let rest = slice_subrange(path, 1, path.len());
        assert(rest.deep_view() =~= path.deep_view().drop_first());
        let ghost leaf = json_of(*leaf_value);
        let ghost children = fields_of(*properties);
        let ghost name = key@;
        let entry = member_or_insert(
            properties,
            key,
            container_value(serde_json::Map::new()),
        );
        let ghost child = json_of(*entry);
        if let Some(obj) = entry.as_object_mut() {
            let ghost members = fields_of(*obj);
            let props = member_or_insert(
                obj,
                "properties".to_owned(),
                object_value(serde_json::Map::new()),
            );
            let ghost below = json_of(*props);
            if let Some(props_map) = props.as_object_mut() {
                insert_nested_property(props_map, rest, leaf_value);
            }
            assert(json_of(*props) == match below {
                Json::Object(grandchildren) => Json::Object(
                    nested_insert(grandchildren, rest.deep_view(), leaf),
                ),
                _ => below,
            });
            assert(!(below is Object) ==> members.insert("properties"@, below) =~= members);
        }
        assert(way_down(child) is None ==> children.insert(name, child) =~= children);
    }
}

/// Converts the flat schema of the language server into the nested schema
/// of the editor.
///
/// A schema that is not an object comes back as it is. Of a well-formed
/// schema, in which no key's path runs through another's and no descriptor
/// looks like a container, the tree holds a leaf at the path of every key and
/// nowhere else.
pub fn convert_to_zed_schema(raw_schema: &serde_json::Value) -> (schema: serde_json::Value)
    ensures
        json_of(schema) == zed_schema(json_of(*raw_schema)),
        !(json_of(*raw_schema) is Object) ==> json_of(schema) == json_of(*raw_schema),
        json_of(*raw_schema) matches Json::Object(flat) ==> (paths_apart(flat) && leaves_plain(
            flat,
        ) ==> leaf_paths(children_of(json_of(schema))) == key_paths(flat)),
{
    let schema_map = match raw_schema.as_object() {
        Some(schema_map) => schema_map,
        None => {
            return raw_schema.clone();
        },
    };
    let ghost flat = fields_of(*schema_map);
    let mut root_properties = serde_json::Map::new();
    let entries = members(schema_map);
    let ghost names = entry_names(entries@);
    proof {
        assert(names.take(0) =~= Seq::empty());
    }
    for i in 0..entries.len()
        invariant
            names == entry_names(entries@),
            forall|j: int|
                0 <= j < entries@.len() ==> flat.contains_key((#[trigger] entries@[j]).0@)
                    && json_of(*entries@[j].1) == flat[entries@[j].0@],
            fields_of(root_properties) == nested(flat, names.take(i as int)),
    {
        let (key, value) = entries[i];
        let parts = split_key(key.as_str());
        proof {
            lemma_split_dots_len(key@);
            assert(names.take(i + 1).drop_last() =~= names.take(i as int));
            assert(names.take(i + 1).last() == key@);
        }
        // Skip the root prefix. A key without anything below it leaves an
        // empty path, and placing at an empty path does nothing.
        let path = slice_subrange(parts.as_slice(), 1, parts.len());
        assert(path.deep_view() =~= key_path(key@));
        insert_nested_property(&mut root_properties, path, value);
    }
    proof {
        assert(names.take(entries@.len() as int) =~= names);
        lemma_ascending_names_only(flat, names);
        if paths_apart(flat) && leaves_plain(flat) {
            seq_to_set_is_finite(names);
            lemma_leaf_paths_are_key_paths(flat);
        }
    }
    container_value(root_properties)
}

} // verus!
