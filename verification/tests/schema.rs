use serde_json::Value;
use std::collections::BTreeSet;
use zed_haskell::key::split_key;
use zed_haskell::tree::convert_to_zed_schema;

fn json(source: &str) -> Value {
    serde_json::from_str(source).unwrap()
}

/// The paths at which `children` holds a node without object-valued
/// `properties`, each written as a list of segments.
fn leaf_paths(
    children: &serde_json::Map<String, Value>,
    above: &[String],
    into: &mut BTreeSet<Vec<String>>,
) {
    for (name, node) in children {
        let mut path = above.to_vec();
        path.push(name.clone());
        match node.get("properties").and_then(Value::as_object) {
            Some(below) => leaf_paths(below, &path, into),
            None => {
                into.insert(path);
            }
        }
    }
}

fn key_paths(flat: &Value) -> BTreeSet<Vec<String>> {
    let mut paths = BTreeSet::new();
    for key in flat.as_object().unwrap().keys() {
        let segments = split_key(key);
        if segments.len() > 1 {
            paths.insert(segments[1..].iter().map(|s| s.to_string()).collect());
        }
    }
    paths
}

fn text(s: &str) -> Value {
    Value::String(s.to_string())
}

fn object(members: Vec<(&str, Value)>) -> Value {
    let mut map = serde_json::Map::new();
    for (name, value) in members {
        map.insert(name.to_string(), value);
    }
    Value::Object(map)
}

#[test]
fn test_convert_to_zed_schema() {
    let input = object(vec![
        (
            "haskell.plugin.alternateNumberFormat.globalOn",
            object(vec![
                ("default", Value::Bool(true)),
                ("description", text("Enables alternateNumberFormat plugin")),
                ("scope", text("resource")),
                ("type", text("boolean")),
            ]),
        ),
        (
            "haskell.plugin.eval.config.diff",
            object(vec![
                ("default", Value::Bool(true)),
                (
                    "markdownDescription",
                    text("Enable the diff output (WAS/NOW) of eval lenses"),
                ),
                ("scope", text("resource")),
                ("type", text("boolean")),
            ]),
        ),
        (
            "haskell.plugin.eval.globalOn",
            object(vec![
                ("default", Value::Bool(true)),
                ("description", text("Enables eval plugin")),
                ("scope", text("resource")),
                ("type", text("boolean")),
            ]),
        ),
    ]);

    let result = convert_to_zed_schema(&input);

    assert_eq!(result["type"], "object");
    assert!(result["properties"].is_object());

    let props = &result["properties"];

    assert!(props["plugin"].is_object());
    assert!(props["plugin"]["type"] == "object");
    assert!(props["plugin"]["properties"].is_object());
    assert!(props["plugin"]["properties"]["alternateNumberFormat"].is_object());
    assert!(
        props["plugin"]["properties"]["alternateNumberFormat"]["properties"]["globalOn"]
            .is_object()
    );

    let global_on =
        &props["plugin"]["properties"]["alternateNumberFormat"]["properties"]["globalOn"];
    assert_eq!(global_on["default"], true);
    assert_eq!(global_on["type"], "boolean");
    assert_eq!(
        global_on["markdownDescription"],
        "Enables alternateNumberFormat plugin"
    );
    assert!(global_on.get("scope").is_none());

    let eval_config_diff =
        &props["plugin"]["properties"]["eval"]["properties"]["config"]["properties"]["diff"];
    assert_eq!(eval_config_diff["default"], true);
    assert_eq!(eval_config_diff["type"], "boolean");
    assert_eq!(
        eval_config_diff["markdownDescription"],
        "Enable the diff output (WAS/NOW) of eval lenses"
    );

    let eval_global_on = &props["plugin"]["properties"]["eval"]["properties"]["globalOn"];
    assert_eq!(eval_global_on["default"], true);
    assert_eq!(eval_global_on["type"], "boolean");
    assert_eq!(eval_global_on["markdownDescription"], "Enables eval plugin");

    println!(
        "Converted schema: {}",
        serde_json::to_string_pretty(&result).unwrap()
    );
}

#[test]
fn eval_global_on_is_nested() {
    let input = json(
        r#"{"haskell.plugin.eval.globalOn": {"default": true, "description": "Enables eval plugin", "scope": "resource", "type": "boolean"}}"#,
    );
    let expected = json(
        r#"{"type": "object", "properties": {"plugin": {"type": "object", "properties": {"eval": {"type": "object", "properties": {"globalOn": {"default": true, "type": "boolean", "markdownDescription": "Enables eval plugin"}}}}}}}"#,
    );
    assert_eq!(convert_to_zed_schema(&input), expected);
}

#[test]
fn deep_key_with_markdown_description() {
    let input = json(
        r#"{"haskell.plugin.eval.config.diff": {"default": true, "markdownDescription": "Enable the diff output (WAS/NOW) of eval lenses", "scope": "resource", "type": "boolean"}}"#,
    );
    let result = convert_to_zed_schema(&input);
    let leaf = &result["properties"]["plugin"]["properties"]["eval"]["properties"]["config"]
        ["properties"]["diff"];
    let members = leaf.as_object().unwrap();
    let names: Vec<&str> = members.keys().map(|name| name.as_str()).collect();
    assert_eq!(names, vec!["default", "markdownDescription", "type"]);
    assert_eq!(leaf["default"], true);
    assert_eq!(leaf["type"], "boolean");
    assert_eq!(
        leaf["markdownDescription"],
        "Enable the diff output (WAS/NOW) of eval lenses"
    );
    assert!(leaf.get("scope").is_none());
}

#[test]
fn single_segment_key_is_dropped() {
    let input = json(r#"{"haskell": {"anything": true}}"#);
    let expected = json(r#"{"type": "object", "properties": {}}"#);
    assert_eq!(convert_to_zed_schema(&input), expected);
}

#[test]
fn empty_object_gives_empty_root() {
    let expected = json(r#"{"type": "object", "properties": {}}"#);
    assert_eq!(convert_to_zed_schema(&json("{}")), expected);
}

#[test]
fn empty_key_is_dropped() {
    let input = json(r#"{"": {"type": "boolean"}, "haskell.a": 1}"#);
    let expected = json(r#"{"type": "object", "properties": {"a": 1}}"#);
    assert_eq!(convert_to_zed_schema(&input), expected);
}

#[test]
fn scalar_root_passes_through() {
    for source in ["null", "true", "12", "-3.5", r#""haskell.a.b""#] {
        let input = json(source);
        assert_eq!(convert_to_zed_schema(&input), input);
    }
}

#[test]
fn array_root_passes_through() {
    let input = json(r#"[{"haskell.a": {"description": "x"}}, 1, "two"]"#);
    assert_eq!(convert_to_zed_schema(&input), input);
}

#[test]
fn scalar_leaves_pass_through() {
    let input = json(r#"{"haskell.a": 7, "haskell.b.c": "text", "haskell.b.d": [1, 2], "haskell.e": null}"#);
    let expected = json(
        r#"{"type": "object", "properties": {
            "a": 7,
            "b": {"type": "object", "properties": {"c": "text", "d": [1, 2]}},
            "e": null
        }}"#,
    );
    assert_eq!(convert_to_zed_schema(&input), expected);
}

#[test]
fn first_segment_is_dropped_whatever_it_is() {
    let input = json(r#"{"one.a": 1, "two.b": 2}"#);
    let expected = json(r#"{"type": "object", "properties": {"a": 1, "b": 2}}"#);
    assert_eq!(convert_to_zed_schema(&input), expected);
}

#[test]
fn same_path_under_two_roots_last_key_wins() {
    let input = json(r#"{"one.a": 1, "two.a": 2}"#);
    let expected = json(r#"{"type": "object", "properties": {"a": 2}}"#);
    assert_eq!(convert_to_zed_schema(&input), expected);
}

#[test]
fn empty_segments_are_names_like_any_other() {
    let input = json(r#"{"haskell..a": 1, "haskell.b.": 2}"#);
    let expected = json(
        r#"{"type": "object", "properties": {
            "": {"type": "object", "properties": {"a": 1}},
            "b": {"type": "object", "properties": {"": 2}}
        }}"#,
    );
    assert_eq!(convert_to_zed_schema(&input), expected);
}

#[test]
fn shared_containers_are_reused() {
    let input = json(r#"{"haskell.p.a.x": 1, "haskell.p.a.y": 2, "haskell.p.b": 3}"#);
    let expected = json(
        r#"{"type": "object", "properties": {"p": {"type": "object", "properties": {
            "a": {"type": "object", "properties": {"x": 1, "y": 2}},
            "b": 3
        }}}}"#,
    );
    assert_eq!(convert_to_zed_schema(&input), expected);
}

#[test]
fn key_below_an_object_leaf_goes_into_its_properties() {
    let input = json(r#"{"haskell.a": {"type": "string", "scope": "x"}, "haskell.a.b": 1}"#);
    let expected = json(
        r#"{"type": "object", "properties": {"a": {"type": "string", "properties": {"b": 1}}}}"#,
    );
    assert_eq!(convert_to_zed_schema(&input), expected);
}

#[test]
fn key_below_a_scalar_leaf_is_lost() {
    let input = json(r#"{"haskell.a": 5, "haskell.a.b": 1}"#);
    let expected = json(r#"{"type": "object", "properties": {"a": 5}}"#);
    assert_eq!(convert_to_zed_schema(&input), expected);
}

#[test]
fn key_below_a_leaf_with_scalar_properties_is_lost() {
    let input = json(r#"{"haskell.a": {"properties": 5}, "haskell.a.b": 1}"#);
    let expected = json(r#"{"type": "object", "properties": {"a": {"properties": 5}}}"#);
    assert_eq!(convert_to_zed_schema(&input), expected);
}

#[test]
fn leaf_placed_after_its_container_replaces_it() {
    // "a.x.y" sorts before "b.x", so the container at "x" is there first.
    let input = json(r#"{"a.x.y": 1, "b.x": {"description": "late"}}"#);
    let expected = json(
        r#"{"type": "object", "properties": {"x": {"markdownDescription": "late"}}}"#,
    );
    assert_eq!(convert_to_zed_schema(&input), expected);
}

#[test]
fn keys_are_placed_in_ascending_order() {
    // "haskell.a" < "haskell.a-b" < "haskell.a.b": bytes decide, not segments.
    let input = json(r#"{"haskell.a.b": 1, "haskell.a-b": 2, "haskell.a": {"x": 0}}"#);
    let expected = json(
        r#"{"type": "object", "properties": {
            "a": {"x": 0, "properties": {"b": 1}},
            "a-b": 2
        }}"#,
    );
    assert_eq!(convert_to_zed_schema(&input), expected);
}

#[test]
fn leaf_paths_are_the_key_paths() {
    let input = json(
        r#"{
            "haskell": {"description": "root marker"},
            "haskell.formattingProvider": {"default": "ormolu", "description": "f", "scope": "resource", "type": "string"},
            "haskell.plugin.eval.config.diff": {"default": true, "markdownDescription": "d", "type": "boolean"},
            "haskell.plugin.eval.globalOn": {"default": true, "description": "g", "type": "boolean"},
            "haskell.plugin.rename.config.crossModule": {"default": false, "type": "boolean"},
            "haskell.maxCompletions": 40,
            "other.plugin.hlint.globalOn": {"type": "boolean"}
        }"#,
    );
    let result = convert_to_zed_schema(&input);
    let mut found = BTreeSet::new();
    leaf_paths(result["properties"].as_object().unwrap(), &[], &mut found);
    assert_eq!(found, key_paths(&input));
    assert_eq!(found.len(), 6);
}

#[test]
fn no_leaf_of_the_tree_has_a_description() {
    let input = json(
        r#"{
            "haskell.a": {"description": "one", "type": "boolean"},
            "haskell.b.c": {"description": "two", "markdownDescription": "three"},
            "haskell.b.d.e": {"description": "four", "scope": "window"}
        }"#,
    );
    let result = convert_to_zed_schema(&input);
    let props = &result["properties"];
    let leaves = [
        &props["a"],
        &props["b"]["properties"]["c"],
        &props["b"]["properties"]["d"]["properties"]["e"],
    ];
    for leaf in leaves {
        assert!(leaf.is_object());
        assert!(leaf.get("description").is_none());
        assert!(leaf.get("scope").is_none());
        assert!(leaf.get("markdownDescription").is_some());
    }
}

#[test]
fn input_is_left_as_it_was() {
    let source = r#"{"haskell.a.b": {"description": "x", "scope": "y"}}"#;
    let input = json(source);
    let _ = convert_to_zed_schema(&input);
    assert_eq!(input, json(source));
}
