//! Rewriting one property descriptor.
//!
//! A descriptor is the JSON object that describes one setting. The language
//! server writes the human-readable text under `description`; the editor
//! reads it under `markdownDescription`, and has no use for `scope`. Every
//! other member is handed on as it is. A descriptor that is not an object is
//! handed on as it is, too.

use crate::json::{entry_names, fields_of, json_of, member, members, object_value, Fields, Json};
use crate::text::same_text;
use vstd::prelude::*;

verus! {

/// What becomes of a member of a descriptor, by its name.
#[derive(Clone, Copy, Debug, PartialEq, Eq, Structural)]
pub enum FieldRule {
    /// One of the members the editor knows; kept under its name.
    Recognized,
    /// `scope` or `description`; never kept under its name.
    Discarded,
    /// Any other member; kept under its name.
    Unrecognized,
}

/// The names of the members the editor knows.
pub open spec fn recognized(name: Seq<char>) -> bool {
    ||| name == "default"@
    ||| name == "type"@
    ||| name == "enum"@
    ||| name == "enumDescriptions"@
    ||| name == "items"@
    ||| name == "minimum"@
    ||| name == "maximum"@
    ||| name == "anyOf"@
}

/// The names of the members that are not kept under their own name.
pub open spec fn discarded(name: Seq<char>) -> bool {
    name == "scope"@ || name == "description"@
}

/// The rule for a member name.
pub open spec fn rule_of(name: Seq<char>) -> FieldRule {
    if recognized(name) {
        FieldRule::Recognized
    } else if discarded(name) {
        FieldRule::Discarded
    } else {
        FieldRule::Unrecognized
    }
}

/// The members of a rewritten descriptor: those of the descriptor without
/// `scope` and `description`, and with the text of `description` under
/// `markdownDescription` where the descriptor had no `markdownDescription`
/// of its own.
pub open spec fn normalized_fields(fields: Fields) -> Fields {
    let kept = Map::new(
        |name: Seq<char>| fields.contains_key(name) && !discarded(name),
        |name: Seq<char>| fields[name],
    );
    if fields.contains_key("description"@) && !fields.contains_key("markdownDescription"@) {
        kept.insert("markdownDescription"@, fields["description"@])
    } else {
        kept
    }
}

/// The rewritten descriptor: an object has its members rewritten, anything
/// else stays as it is.
pub open spec fn normalized(leaf: Json) -> Json {
    match leaf {
        Json::Object(fields) => Json::Object(normalized_fields(fields)),
        _ => leaf,
    }
}

/// No name is both recognized and discarded, and `markdownDescription` is
/// neither.
pub proof fn lemma_field_names_differ()
    ensures
        forall|name: Seq<char>| !(recognized(name) && discarded(name)),
        !recognized("markdownDescription"@),
        !discarded("markdownDescription"@),
        "scope"@ != "description"@,
{
    reveal_strlit("default");
    reveal_strlit("type");
    reveal_strlit("enum");
    reveal_strlit("enumDescriptions");
    reveal_strlit("items");
    reveal_strlit("minimum");
    reveal_strlit("maximum");
    reveal_strlit("anyOf");
    reveal_strlit("scope");
    reveal_strlit("description");
    reveal_strlit("markdownDescription");
    assert("default"@[2] == 'f');
    assert("type"@[0] == 't');
    assert("enum"@[0] == 'e');
    assert("enumDescriptions"@[0] == 'e');
    assert("items"@[0] == 'i');
    assert("minimum"@[1] == 'i');
    assert("maximum"@[1] == 'a');
    assert("anyOf"@[0] == 'a');
    assert("scope"@[0] == 's');
    assert("description"@[2] == 's');
    assert("markdownDescription"@.len() == 19);
}

/// Rewriting a second time changes nothing.
pub proof fn lemma_normalized_idempotent(leaf: Json)
    ensures
        normalized(normalized(leaf)) == normalized(leaf),
{
    lemma_field_names_differ();
    if let Json::Object(fields) = leaf {
        let once = normalized_fields(fields);
        assert(!once.contains_key("description"@));
        assert(normalized_fields(once) =~= once);
    }
}

/// A rewritten descriptor has no member named `description` and none named
/// `scope`.
pub proof fn lemma_normalized_drops_description(leaf: Json)
    ensures
        normalized(leaf) matches Json::Object(members) ==> !members.contains_key("description"@)
            && !members.contains_key("scope"@),
{
    lemma_field_names_differ();
}

/// A `markdownDescription` of the descriptor's own is kept, whatever the
/// descriptor holds under `description`.
pub proof fn lemma_markdown_description_wins(fields: Fields)
    requires
        fields.contains_key("markdownDescription"@),
    ensures
        normalized_fields(fields).contains_key("markdownDescription"@),
        normalized_fields(fields)["markdownDescription"@] == fields["markdownDescription"@],
{
    lemma_field_names_differ();
}

/// What the rewritten descriptor holds, member by member: a
/// `markdownDescription` if and only if the descriptor had one or had a
/// `description`, with the text of `description` where it had no
/// `markdownDescription`; and under every name other than `scope`,
/// `description` and `markdownDescription` what the descriptor held there.
pub proof fn lemma_normalized_members(fields: Fields, name: Seq<char>)
    ensures
        normalized_fields(fields).contains_key("markdownDescription"@) <==> (fields.contains_key(
            "markdownDescription"@,
        ) || fields.contains_key("description"@)),
        !fields.contains_key("markdownDescription"@) && fields.contains_key("description"@)
            ==> normalized_fields(fields)["markdownDescription"@] == fields["description"@],
        !discarded(name) && name != "markdownDescription"@ ==> (normalized_fields(
            fields,
        ).contains_key(name) <==> fields.contains_key(name)),
        !discarded(name) && fields.contains_key(name) ==> normalized_fields(fields)[name]
            == fields[name],
{
    lemma_field_names_differ();
}

/// The rule for a member name.
pub fn field_rule(name: &str) -> (rule: FieldRule)
    ensures
        rule == rule_of(name@),
{
    if same_text(name, "default") || same_text(name, "type") || same_text(name, "enum")
        || same_text(name, "enumDescriptions") || same_text(name, "items") || same_text(
        name,
        "minimum",
    ) || same_text(name, "maximum") || same_text(name, "anyOf") {
        FieldRule::Recognized
    } else if same_text(name, "scope") || same_text(name, "description") {
        FieldRule::Discarded
    } else {
        FieldRule::Unrecognized
    }
}

/// The members that the rewriting has set once it has gone through the
/// members named in `done`.
spec fn normalized_so_far(fields: Fields, done: Set<Seq<char>>) -> Fields {
    let moved = if fields.contains_key("markdownDescription"@) {
        Fields::empty().insert("markdownDescription"@, fields["markdownDescription"@])
    } else if fields.contains_key("description"@) {
        Fields::empty().insert("markdownDescription"@, fields["description"@])
    } else {
        Fields::empty()
    };
    Map::new(
        |name: Seq<char>|
            moved.contains_key(name) || (done.contains(name) && fields.contains_key(name)
                && !discarded(name)),
        |name: Seq<char>|
            if fields.contains_key(name) {
                fields[name]
            } else {
                moved[name]
            },
    )
}

/// Rewrites one property descriptor for the editor.
///
/// The result never has a member named `description`, and a
/// `markdownDescription` of the descriptor's own is kept whatever its
/// `description` says.
pub fn convert_leaf_schema(leaf_value: &serde_json::Value) -> (result: serde_json::Value)
    ensures
        json_of(result) == normalized(json_of(*leaf_value)),
        json_of(result) matches Json::Object(members) ==> !members.contains_key("description"@),
        json_of(*leaf_value) matches Json::Object(fields) ==> (fields.contains_key(
            "markdownDescription"@,
        ) ==> json_of(result)->Object_0.contains_key("markdownDescription"@) && json_of(
            result,
        )->Object_0["markdownDescription"@] == fields["markdownDescription"@]),
{
    proof {
        lemma_normalized_drops_description(json_of(*leaf_value));
        if let Json::Object(fields) = json_of(*leaf_value) {
            if fields.contains_key("markdownDescription"@) {
                lemma_markdown_description_wins(fields);
            }
        }
    }
    let leaf_obj = match leaf_value.as_object() {
        Some(leaf_obj) => leaf_obj,
        None => {
            return leaf_value.clone();
        },
    };
    let ghost fields = fields_of(*leaf_obj);
    let mut result = serde_json::Map::new();

    if let Some(desc) = member(leaf_obj, "description") {
        result.insert("markdownDescription".to_owned(), desc.clone());
    }
    if let Some(desc) = member(leaf_obj, "markdownDescription") {
        result.insert("markdownDescription".to_owned(), desc.clone());
    }
    let entries = members(leaf_obj);
    let ghost names = entry_names(entries@);
    proof {
        lemma_field_names_differ();
        assert(names.take(0).to_set() =~= Set::empty());
        assert(fields_of(result) =~= normalized_so_far(fields, names.take(0).to_set()));
    }
    for i in 0..entries.len()
        invariant
            names == entry_names(entries@),
            names.to_set() == fields.dom(),
            forall|j: int|
                0 <= j < entries@.len() ==> fields.contains_key((#[trigger] entries@[j]).0@)
                    && json_of(*entries@[j].1) == fields[entries@[j].0@],
            fields_of(result) == normalized_so_far(fields, names.take(i as int).to_set()),
    {
        let (key, value) = entries[i];
        proof {
            lemma_field_names_differ();
            assert(names[i as int] == key@);
            assert(names.to_set().contains(names[i as int]));
            assert(names.take(i + 1) =~= names.take(i as int).push(key@));
            names.take(i as int).lemma_push_to_set_commute(key@);
        }
        match field_rule(key.as_str()) {
            FieldRule::Discarded => {
                assert(normalized_so_far(fields, names.take(i + 1).to_set())
                    =~= normalized_so_far(fields, names.take(i as int).to_set()));
            },
            _ => {
                result.insert(key.clone(), value.clone());
                assert(fields_of(result) =~= normalized_so_far(
                    fields,
                    names.take(i + 1).to_set(),
                ));
            },
        }
    }
    proof {
        lemma_field_names_differ();
        assert(names.take(entries@.len() as int) =~= names);
        assert(normalized_so_far(fields, fields.dom()) =~= normalized_fields(fields));
    }
    object_value(result)
}

} // verus!
