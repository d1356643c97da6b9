use serde_json::Value;
use zed_haskell::tree::{container_value, insert_nested_property};

fn json(source: &str) -> Value {
    serde_json::from_str(source).unwrap()
}

fn object(source: &str) -> serde_json::Map<String, Value> {
    match json(source) {
        Value::Object(members) => members,
        _ => panic!("not an object"),
    }
}

#[test]
fn container_has_type_and_properties() {
    let value = container_value(object(r#"{"a": 1}"#));
    assert_eq!(value, json(r#"{"type": "object", "properties": {"a": 1}}"#));
    assert_eq!(value["type"], Value::String("object".to_string()));
}

#[test]
fn empty_container() {
    let value = container_value(serde_json::Map::new());
    assert_eq!(value, json(r#"{"type": "object", "properties": {}}"#));
}

#[test]
fn empty_path_changes_nothing() {
    let mut properties = object(r#"{"a": 1}"#);
    insert_nested_property(&mut properties, &[], &json(r#"{"description": "x"}"#));
    assert_eq!(properties, object(r#"{"a": 1}"#));
}

#[test]
fn one_segment_stores_the_rewritten_leaf() {
    let mut properties = serde_json::Map::new();
    insert_nested_property(
        &mut properties,
        &["globalOn"],
        &json(r#"{"description": "x", "scope": "resource", "type": "boolean"}"#),
    );
    assert_eq!(
        properties,
        object(r#"{"globalOn": {"markdownDescription": "x", "type": "boolean"}}"#)
    );
}

#[test]
fn one_segment_replaces_what_stood_there() {
    let mut properties = object(r#"{"a": {"type": "object", "properties": {"b": 1}}, "c": 2}"#);
    insert_nested_property(&mut properties, &["a"], &json("3"));
    assert_eq!(properties, object(r#"{"a": 3, "c": 2}"#));
}

#[test]
fn containers_are_made_on_the_way() {
    let mut properties = serde_json::Map::new();
    insert_nested_property(&mut properties, &["a", "b", "c"], &json("true"));
    assert_eq!(
        properties,
        object(
            r#"{"a": {"type": "object", "properties": {"b": {"type": "object", "properties": {"c": true}}}}}"#
        )
    );
}

#[test]
fn containers_on_the_way_are_reused() {
    let mut properties = object(
        r#"{"a": {"type": "object", "properties": {"x": 1}, "title": "kept"}, "z": 0}"#,
    );
    insert_nested_property(&mut properties, &["a", "y"], &json(r#"{"description": "d"}"#));
    assert_eq!(
        properties,
        object(
            r#"{"a": {"type": "object", "properties": {"x": 1, "y": {"markdownDescription": "d"}}, "title": "kept"}, "z": 0}"#
        )
    );
}

#[test]
fn object_without_properties_gets_them() {
    let mut properties = object(r#"{"a": {"default": 1}}"#);
    insert_nested_property(&mut properties, &["a", "b"], &json("2"));
    assert_eq!(properties, object(r#"{"a": {"default": 1, "properties": {"b": 2}}}"#));
}

#[test]
fn no_way_down_from_a_scalar() {
    let mut properties = object(r#"{"a": "text"}"#);
    insert_nested_property(&mut properties, &["a", "b"], &json("2"));
    assert_eq!(properties, object(r#"{"a": "text"}"#));
}

#[test]
fn no_way_down_through_scalar_properties() {
    let mut properties = object(r#"{"a": {"properties": [1]}}"#);
    insert_nested_property(&mut properties, &["a", "b", "c"], &json("2"));
    assert_eq!(properties, object(r#"{"a": {"properties": [1]}}"#));
}

#[test]
fn no_way_down_deeper_leaves_the_containers_above() {
    let mut properties = object(r#"{"a": {"type": "object", "properties": {"b": 7}}}"#);
    insert_nested_property(&mut properties, &["a", "b", "c"], &json("2"));
    assert_eq!(
        properties,
        object(r#"{"a": {"type": "object", "properties": {"b": 7}}}"#)
    );
}

#[test]
fn leaf_value_is_left_as_it_was() {
    let leaf = json(r#"{"description": "d"}"#);
    let mut properties = serde_json::Map::new();
    insert_nested_property(&mut properties, &["a", "b"], &leaf);
    assert_eq!(leaf, json(r#"{"description": "d"}"#));
}

#[test]
fn second_leaf_at_a_path_replaces_the_first() {
    let mut twice = object(r#"{"z": 0}"#);
    insert_nested_property(&mut twice, &["a", "b"], &json(r#"{"description": "first", "default": 1}"#));
    insert_nested_property(&mut twice, &["a", "b"], &json(r#"{"description": "second"}"#));
    let mut once = object(r#"{"z": 0}"#);
    insert_nested_property(&mut once, &["a", "b"], &json(r#"{"description": "second"}"#));
    assert_eq!(twice, once);
    assert_eq!(
        twice,
        object(
            r#"{"a": {"type": "object", "properties": {"b": {"markdownDescription": "second"}}}, "z": 0}"#
        )
    );
}
