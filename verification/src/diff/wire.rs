//! How a diff view is described to clients and kept in a snapshot.
use vstd::prelude::*;

use super::scope;
use super::scope::OptionsModel;
use super::view::DiffView;

verus! {

// ---------------------------------------------------------------------------
// JSON objects
// ---------------------------------------------------------------------------

#[verifier::external_type_specification]
#[verifier::external_body]
pub struct ExValue(serde_json::Value);

#[verifier::external_type_specification]
#[verifier::external_body]
#[verifier::reject_recursive_types(K)]
#[verifier::reject_recursive_types(V)]
pub struct ExObject<K, V>(serde_json::Map<K, V>);

/// The members of a JSON object under construction: for each key its text if
/// its value is a string, `None` if it is anything else.
pub uninterp spec fn members(
    object: serde_json::Map<String, serde_json::Value>,
) -> Map<Seq<char>, Option<Seq<char>>>;

/// The members of a JSON value that is an object, as in [`members`]; `None` for
/// any other value.
pub uninterp spec fn object_members(
    value: serde_json::Value,
) -> Option<Map<Seq<char>, Option<Seq<char>>>>;

/// `serde_json::Map::new`: an object without members.
#[verifier::external_body]
fn new_object() -> (object: serde_json::Map<String, serde_json::Value>)
    ensures
        (members(object) == Map::<Seq<char>, Option<Seq<char>>>::empty()),
{
    serde_json::Map::new()
}

/// `serde_json::Map::insert` with a string value: the key then has that text,
/// and the other members are as before.
#[verifier::external_body]
fn insert_text(object: &mut serde_json::Map<String, serde_json::Value>, key: String, text: String)
    ensures
        members(*final(object)) == members(*old(object)).insert(key@, Some(text@)),
{
    object.insert(key, serde_json::Value::String(text));
}

/// `serde_json::Value::from` on an object: a value that is that object.
#[verifier::external_body]
fn object_value(object: serde_json::Map<String, serde_json::Value>) -> (value: serde_json::Value)
    ensures
        object_members(value) == Some(members(object)),
{
    serde_json::Value::from(object)
}

// ---------------------------------------------------------------------------
// The descriptor
// ---------------------------------------------------------------------------

/// The options of a diff view as members of a JSON object.
pub open spec fn described(options: OptionsModel) -> Map<Seq<char>, Option<Seq<char>>> {
    Map::empty().insert("baseline"@, Some(options.baseline)).insert(
        "scope"@,
        Some(scope::scope_label(options.scope)),
    )
}

/// Different options have different descriptions, so a view can be rebuilt from
/// its description.
pub proof fn lemma_description_determines_options(a: OptionsModel, b: OptionsModel)
    ensures
        described(a) == described(b) <==> a == b,
{
    reveal_strlit("baseline");
    reveal_strlit("scope");
    assert("baseline"@.len() != "scope"@.len());
    if described(a) == described(b) {
        assert(described(a)["baseline"@] == described(b)["baseline"@]);
        assert(described(a)["scope"@] == described(b)["scope"@]);
        if a.scope != b.scope {
            scope::lemma_scope_labels_differ(a.scope, b.scope);
        }
    }
}

/// A description has two members, the baseline as it is and the name of the scope.
pub proof fn lemma_description(options: OptionsModel, key: Seq<char>)
    ensures
        described(options).dom().contains(key) <==> key == "baseline"@ || key == "scope"@,
        described(options)["baseline"@] == Some(options.baseline),
        described(options)["scope"@] == Some(
            match options.scope {
                scope::DiffScope::All => "all"@,
                scope::DiffScope::Unstaged => "unstaged"@,
                scope::DiffScope::Staged => "staged"@,
                scope::DiffScope::Committed => "committed"@,
            },
        ),
{
    reveal_strlit("baseline");
    reveal_strlit("scope");
    assert("baseline"@.len() != "scope"@.len());
}

impl DiffView {
    /// The wire-level identifier of this kind of view, and its options.
    pub fn wire_descriptor(&self) -> (descriptor: (String, serde_json::Value))
        ensures
            descriptor.0@ == "diff"@,
            object_members(descriptor.1) == Some(described(self@.options)),
    {
        let options = self.options();
        let mut object = new_object();
        insert_text(&mut object, String::from_str("baseline"), options.baseline.clone());
        insert_text(
            &mut object,
            String::from_str("scope"),
            String::from_str(options.scope.label()),
        );
        (String::from_str("diff"), object_value(object))
    }
}

} // verus!
