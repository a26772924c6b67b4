//! Bridges from JSON, YAML and TOML: each text is read by its own crate
//! into a tree, and the tree is turned into a value.

use crate::value::{lemma_trees_of_push, put, trees_of, Entries, Object, Tree, Value};
use serde_json::Value as JsonValue;
use serde_yaml::Value as YamlValue;
use toml::Value as TomlValue;
use vstd::prelude::*;

verus! {

/// A tree as a JSON, YAML or TOML text holds it.
#[derive(Debug, PartialEq)]
pub enum Foreign {
    Null,
    Bool(bool),
    /// A number, as the crate that read it reports it: as an `i64` where
    /// it is an integer that fits, whether it can be taken as a float,
    /// and as it is written.
    Number(Option<i64>, bool, String),
    Text(String),
    /// A date or time, as it is written.
    Datetime(String),
    Sequence(Vec<Foreign>),
    /// Keys and values, in order. A key may be any tree.
    Mapping(Vec<(Foreign, Foreign)>),
    /// A value under a tag.
    Tagged(Box<Foreign>),
}

/// The mathematical content of a [`Foreign`] tree.
pub ghost enum ForeignTree {
    Null,
    Bool(bool),
    Number(Option<i64>, bool, Seq<char>),
    Text(Seq<char>),
    Datetime(Seq<char>),
    Sequence(Seq<ForeignTree>),
    Mapping(Seq<(ForeignTree, ForeignTree)>),
    Tagged(Box<ForeignTree>),
}

/// The trees of a sequence of foreign trees.
pub open spec fn nodes_of(items: Seq<Foreign>) -> Seq<ForeignTree>
    decreases items,
{
    if items.len() == 0 {
        Seq::empty()
    } else {
        nodes_of(items.drop_last()).push(items.last()@)
    }
}

/// The trees of a sequence of pairs of foreign trees.
pub open spec fn pairs_of(pairs: Seq<(Foreign, Foreign)>) -> Seq<(ForeignTree, ForeignTree)>
    decreases pairs,
{
    if pairs.len() == 0 {
        Seq::empty()
    } else {
        pairs_of(pairs.drop_last()).push((pairs.last().0@, pairs.last().1@))
    }
}

impl View for Foreign {
    type V = ForeignTree;

    open spec fn view(&self) -> ForeignTree
        decreases self,
    {
        match self {
            Foreign::Null => ForeignTree::Null,
            Foreign::Bool(b) => ForeignTree::Bool(*b),
            Foreign::Number(integer, floating, text) => ForeignTree::Number(
                *integer,
                *floating,
                text@,
            ),
            Foreign::Text(text) => ForeignTree::Text(text@),
            Foreign::Datetime(text) => ForeignTree::Datetime(text@),
            Foreign::Sequence(items) => ForeignTree::Sequence(nodes_of(items@)),
            Foreign::Mapping(pairs) => ForeignTree::Mapping(pairs_of(pairs@)),
            Foreign::Tagged(inner) => ForeignTree::Tagged(Box::new((**inner).view())),
        }
    }
}

/// The text of a float as a value holds it: `nan`, `inf` and `-inf` for
/// the forms `.nan`, `.inf` and `-.inf`, any other text as it is.
pub open spec fn float_text(text: Seq<char>) -> Seq<char> {
    if text == ".nan"@ {
        "nan"@
    } else if text == ".inf"@ {
        "inf"@
    } else if text == "-.inf"@ {
        "-inf"@
    } else {
        text
    }
}

/// The value of a number: an integer where it is one that fits, else a
/// float (of its text) where it can be taken as one, else the string of
/// its text.
pub open spec fn number_value(integer: Option<i64>, floating: bool, text: Seq<char>) -> Tree {
    match integer {
        Some(i) => Tree::Int(i),
        None => if floating {
            Tree::Float(float_text(text))
        } else {
            Tree::Str(text)
        },
    }
}

/// The key that a tree makes in an object: a text is itself, a number
/// its text, a boolean `true` or `false`; no other tree makes a key.
pub open spec fn key_text(key: ForeignTree) -> Option<Seq<char>> {
    match key {
        ForeignTree::Text(text) => Some(text),
        ForeignTree::Number(_, _, text) => Some(text),
        ForeignTree::Bool(b) => Some(
            if b {
                "true"@
            } else {
                "false"@
            },
        ),
        _ => None,
    }
}

/// The value of a foreign tree.
///
/// Scalars map one to one and a date or time becomes the string of its
/// text. A mapping becomes an object: its pairs are taken in order, a pair
/// whose key makes no key is dropped, and a later pair with the key of an
/// earlier one replaces its value. A tagged value is its value.
pub open spec fn value_of(tree: ForeignTree) -> Tree
    decreases tree,
{
    match tree {
        ForeignTree::Null => Tree::Null,
        ForeignTree::Bool(b) => Tree::Bool(b),
        ForeignTree::Number(integer, floating, text) => number_value(integer, floating, text),
        ForeignTree::Text(text) => Tree::Str(text),
        ForeignTree::Datetime(text) => Tree::Str(text),
        ForeignTree::Sequence(items) => Tree::Array(values_of(items)),
        ForeignTree::Mapping(pairs) => Tree::Object(entries_from(pairs)),
        ForeignTree::Tagged(inner) => value_of(*inner),
    }
}

/// The values of a sequence of foreign trees.
pub open spec fn values_of(items: Seq<ForeignTree>) -> Seq<Tree>
    decreases items,
{
    if items.len() == 0 {
        Seq::empty()
    } else {
        values_of(items.drop_last()).push(value_of(items.last()))
    }
}

/// The entries that the pairs of a mapping make, taken in order.
pub open spec fn entries_from(pairs: Seq<(ForeignTree, ForeignTree)>) -> Entries
    decreases pairs,
{
    if pairs.len() == 0 {
        Seq::empty()
    } else {
        match key_text(pairs.last().0) {
            Some(key) => put(entries_from(pairs.drop_last()), key, value_of(pairs.last().1)),
            None => entries_from(pairs.drop_last()),
        }
    }
}

fn float_value(text: &String) -> (r: String)
    ensures
        r@ == float_text(text@),
{
    if *text == String::from_str(".nan") {
        String::from_str("nan")
    } else if *text == String::from_str(".inf") {
        String::from_str("inf")
    } else if *text == String::from_str("-.inf") {
        String::from_str("-inf")
    } else {
        text.clone()
    }
}

fn value_of_number(integer: Option<i64>, floating: bool, text: &String) -> (r: Value)
    ensures
        r@ == number_value(integer, floating, text@),
{
    match integer {
        Some(i) => Value::Int(i),
        None => if floating {
            Value::Float(float_value(text))
        } else {
            Value::String(text.clone())
        },
    }
}

fn key_of(key: &Foreign) -> (r: Option<String>)
    ensures
        match key_text(key@) {
            Some(text) => r matches Some(found) && found@ == text,
            None => r is None,
        },
{
    match key {
        Foreign::Text(text) => Some(text.clone()),
        Foreign::Number(_, _, text) => Some(text.clone()),
        Foreign::Bool(b) => Some(
            if *b {
                String::from_str("true")
            } else {
                String::from_str("false")
            },
        ),
        _ => None,
    }
}

/// Turns a foreign tree into a value.
pub fn from_foreign(node: &Foreign) -> (r: Value)
    ensures
        r@ == value_of(node@),
    decreases node,
{
    match node {
        Foreign::Null => Value::Null,
        Foreign::Bool(b) => Value::Bool(*b),
        Foreign::Number(integer, floating, text) => value_of_number(*integer, *floating, text),
        Foreign::Text(text) => Value::String(text.clone()),
        Foreign::Datetime(text) => Value::String(text.clone()),
        Foreign::Sequence(items) => {
            let mut values: Vec<Value> = Vec::new();
            let mut i: usize = 0;
            proof {
                assert(items@.take(0) =~= Seq::<Foreign>::empty());
            }
            while i < items.len()
                invariant
                    i <= items.len(),
                    forall|j: int|
                        0 <= j < items.len() ==> decreases_to!(node => #[trigger] items@[j]),
                    trees_of(values@) == values_of(nodes_of(items@.take(i as int))),
                decreases items.len() - i,
            {
                let value = from_foreign(&items[i]);
                proof {
                    lemma_trees_of_push(values@, value);
                    let longer = items@.take(i + 1);
                    assert(longer.drop_last() =~= items@.take(i as int));
                    assert(nodes_of(longer) == nodes_of(longer.drop_last()).push(longer.last()@));
                    assert(nodes_of(longer).drop_last() =~= nodes_of(items@.take(i as int)));
                }
                values.push(value);
                i += 1;
            }
            proof {
                assert(items@.take(items.len() as int) =~= items@);
            }
            Value::Array(values)
        },
        Foreign::Mapping(pairs) => {
            let mut object = Object::new();
            let mut i: usize = 0;
            proof {
                assert(pairs@.take(0) =~= Seq::<(Foreign, Foreign)>::empty());
            }
            while i < pairs.len()
                invariant
                    i <= pairs.len(),
                    forall|j: int|
                        0 <= j < pairs.len() ==> decreases_to!(node => #[trigger] pairs@[j]),
                    object@ == entries_from(pairs_of(pairs@.take(i as int))),
                decreases pairs.len() - i,
            {
                proof {
                    let longer = pairs@.take(i + 1);
                    assert(longer.drop_last() =~= pairs@.take(i as int));
                    assert(pairs_of(longer) == pairs_of(longer.drop_last()).push(
                        (longer.last().0@, longer.last().1@),
                    ));
                    assert(pairs_of(longer).drop_last() =~= pairs_of(pairs@.take(i as int)));
                }
                match key_of(&pairs[i].0) {
                    Some(key) => {
                        let value = from_foreign(&pairs[i].1);
                        object.insert(key, value);
                    },
                    None => {},
                }
                i += 1;
            }
            proof {
                assert(pairs@.take(pairs.len() as int) =~= pairs@);
            }
            Value::Object(object)
        },
        Foreign::Tagged(inner) => from_foreign(inner),
    }
}

/// What reading a text gives, as mathematical content: the tree, or the
/// text of the error.
pub open spec fn reading_view(r: Result<Foreign, String>) -> Result<ForeignTree, Seq<char>> {
    match r {
        Ok(tree) => Ok(tree@),
        Err(text) => Err(text@),
    }
}

/// What a reader's result becomes: the value of the tree, or the error
/// behind the words that name the format.
pub open spec fn converted(read: Result<ForeignTree, Seq<char>>, words: Seq<char>) -> Result<
    Tree,
    Seq<char>,
> {
    match read {
        Ok(tree) => Ok(value_of(tree)),
        Err(text) => Err(words + text),
    }
}

/// Whether what a conversion returned is what `converted` says.
pub open spec fn conversion_agrees(
    r: Result<Value, String>,
    expected: Result<Tree, Seq<char>>,
) -> bool {
    match expected {
        Ok(tree) => r matches Ok(value) && value@ == tree,
        Err(text) => r matches Err(message) && message@ == text,
    }
}

/// Turns what a reader returned into a value, or into the message of the
/// failure: the words that name the format, then the reader's error.
pub fn convert_reading(read: Result<Foreign, String>, words: &str) -> (r: Result<Value, String>)
    ensures
        conversion_agrees(r, converted(reading_view(read), words@)),
{
    match read {
        Ok(tree) => Ok(from_foreign(&tree)),
        Err(text) => {
            let mut message = String::from_str(words);
            message.append(text.as_str());
            Err(message)
        },
    }
}

/// The tree type of `serde_json`, `serde_json::Value`. Nothing is claimed
/// of what a value of it holds.
#[verifier::external_type_specification]
#[verifier::external_body]
pub struct ExJsonValue(JsonValue);

/// The tree type of `serde_yaml`, `serde_yaml::Value`. Nothing is claimed
/// of what a value of it holds.
#[verifier::external_type_specification]
#[verifier::external_body]
pub struct ExYamlValue(YamlValue);

/// The tree type of `toml`, `toml::Value`. Nothing is claimed of what a
/// value of it holds.
#[verifier::external_type_specification]
#[verifier::external_body]
pub struct ExTomlValue(TomlValue);

/// What `serde_json::from_str` reads from a text: the tree of the JSON
/// document, or the text of its error.
pub uninterp spec fn json_document(text: Seq<char>) -> Result<ForeignTree, Seq<char>>;

/// What `serde_yaml::from_str` reads from a text: the tree of the YAML
/// document, or the text of its error.
pub uninterp spec fn yaml_document(text: Seq<char>) -> Result<ForeignTree, Seq<char>>;

/// What `toml::from_str` reads from a text: the tree of the TOML
/// document, or the text of its error.
pub uninterp spec fn toml_document(text: Seq<char>) -> Result<ForeignTree, Seq<char>>;

/// What a tree of `serde_json` holds.
pub uninterp spec fn json_content(json: JsonValue) -> ForeignTree;

/// What a tree of `serde_yaml` holds.
pub uninterp spec fn yaml_content(yaml: YamlValue) -> ForeignTree;

/// What a tree of `toml` holds.
pub uninterp spec fn toml_content(toml: TomlValue) -> ForeignTree;

/// Copies a tree of `serde_json` into a foreign tree, node by node, so
/// that the copy holds what the tree holds. A number is reported by
/// `Number::as_i64`, by whether `Number::as_f64` gives a float, and by its
/// text.
#[verifier::external_body]
fn json_tree(json: &JsonValue) -> (tree: Foreign)
    ensures
        tree@ == json_content(*json),
{
    match json {
        JsonValue::Null => Foreign::Null,
        JsonValue::Bool(b) => Foreign::Bool(*b),
        JsonValue::Number(n) => Foreign::Number(n.as_i64(), n.as_f64().is_some(), n.to_string()),
        JsonValue::String(s) => Foreign::Text(s.clone()),
        JsonValue::Array(items) => Foreign::Sequence(items.iter().map(json_tree).collect()),
        JsonValue::Object(map) => Foreign::Mapping(
            map.iter().map(|(k, v)| (Foreign::Text(k.clone()), json_tree(v))).collect(),
        ),
    }
}

/// Copies a tree of `serde_yaml` into a foreign tree, node by node, so
/// that the copy holds what the tree holds. A number is reported as for
/// JSON; a tagged value keeps its value.
#[verifier::external_body]
fn yaml_tree(yaml: &YamlValue) -> (tree: Foreign)
    ensures
        tree@ == yaml_content(*yaml),
{
    match yaml {
        YamlValue::Null => Foreign::Null,
        YamlValue::Bool(b) => Foreign::Bool(*b),
        YamlValue::Number(n) => Foreign::Number(n.as_i64(), n.as_f64().is_some(), n.to_string()),
        YamlValue::String(s) => Foreign::Text(s.clone()),
        YamlValue::Sequence(items) => Foreign::Sequence(items.iter().map(yaml_tree).collect()),
        YamlValue::Mapping(map) => Foreign::Mapping(
            map.iter().map(|(k, v)| (yaml_tree(k), yaml_tree(v))).collect(),
        ),
        YamlValue::Tagged(tagged) => Foreign::Tagged(Box::new(yaml_tree(&tagged.value))),
    }
}

/// Copies a tree of `toml` into a foreign tree, node by node, so that the
/// copy holds what the tree holds. A float and a date or time are held as
/// the text that `toml` displays them with.
#[verifier::external_body]
fn toml_tree(toml: &TomlValue) -> (tree: Foreign)
    ensures
        tree@ == toml_content(*toml),
{
    match toml {
        TomlValue::Boolean(b) => Foreign::Bool(*b),
        TomlValue::Integer(i) => Foreign::Number(Some(*i), false, toml.to_string()),
        TomlValue::Float(_) => Foreign::Number(None, true, toml.to_string()),
        TomlValue::String(s) => Foreign::Text(s.clone()),
        TomlValue::Datetime(datetime) => Foreign::Datetime(datetime.to_string()),
        TomlValue::Array(items) => Foreign::Sequence(items.iter().map(toml_tree).collect()),
        TomlValue::Table(table) => Foreign::Mapping(
            table.iter().map(|(k, v)| (Foreign::Text(k.clone()), toml_tree(v))).collect(),
        ),
    }
}

/// What a reader of a crate returned, as mathematical content: what the
/// tree holds, or the text of the error.
pub open spec fn json_view(r: Result<JsonValue, String>) -> Result<ForeignTree, Seq<char>> {
    match r {
        Ok(json) => Ok(json_content(json)),
        Err(text) => Err(text@),
    }
}

/// As `json_view`, for YAML.
pub open spec fn yaml_view(r: Result<YamlValue, String>) -> Result<ForeignTree, Seq<char>> {
    match r {
        Ok(yaml) => Ok(yaml_content(yaml)),
        Err(text) => Err(text@),
    }
}

/// As `json_view`, for TOML.
pub open spec fn toml_view(r: Result<TomlValue, String>) -> Result<ForeignTree, Seq<char>> {
    match r {
        Ok(toml) => Ok(toml_content(toml)),
        Err(text) => Err(text@),
    }
}

/// Reads a JSON text with `serde_json::from_str`. The result, a tree or
/// the text of the error, depends on the text alone.
#[verifier::external_body]
fn read_json(input: &str) -> (r: Result<JsonValue, String>)
    ensures
        json_view(r) == json_document(input@),
{
    serde_json::from_str::<JsonValue>(input).map_err(|error| error.to_string())
}

/// Reads a YAML text with `serde_yaml::from_str`. The result, a tree or
/// the text of the error, depends on the text alone.
#[verifier::external_body]
fn read_yaml(input: &str) -> (r: Result<YamlValue, String>)
    ensures
        yaml_view(r) == yaml_document(input@),
{
    serde_yaml::from_str::<YamlValue>(input).map_err(|error| error.to_string())
}

/// Reads a TOML text with `toml::from_str`. The result, a tree or the
/// text of the error, depends on the text alone.
#[verifier::external_body]
fn read_toml(input: &str) -> (r: Result<TomlValue, String>)
    ensures
        toml_view(r) == toml_document(input@),
{
    toml::from_str::<TomlValue>(input).map_err(|error| error.to_string())
}

/// Turns a tree read from JSON into a value.
pub fn from_json(json: &Foreign) -> (r: Value)
    ensures
        r@ == value_of(json@),
{
    from_foreign(json)
}

/// Turns a tree read from YAML into a value.
pub fn from_yaml(yaml: &Foreign) -> (r: Value)
    ensures
        r@ == value_of(yaml@),
{
    from_foreign(yaml)
}

/// Turns a tree read from TOML into a value.
pub fn from_toml(toml_val: &Foreign) -> (r: Value)
    ensures
        r@ == value_of(toml_val@),
{
    from_foreign(toml_val)
}

/// Reads a JSON text into a value.
pub fn parse_json(input: &str) -> (r: Result<Value, String>)
    ensures
        conversion_agrees(r, converted(json_document(input@), "JSON parse error: "@)),
{
    let read = match read_json(input) {
        Ok(json) => Ok(json_tree(&json)),
        Err(text) => Err(text),
    };
    convert_reading(read, "JSON parse error: ")
}

/// Reads a YAML text into a value.
pub fn parse_yaml(input: &str) -> (r: Result<Value, String>)
    ensures
        conversion_agrees(r, converted(yaml_document(input@), "YAML parse error: "@)),
{
    let read = match read_yaml(input) {
        Ok(yaml) => Ok(yaml_tree(&yaml)),
        Err(text) => Err(text),
    };
    convert_reading(read, "YAML parse error: ")
}

/// Reads a TOML text into a value.
pub fn parse_toml(input: &str) -> (r: Result<Value, String>)
    ensures
        conversion_agrees(r, converted(toml_document(input@), "TOML parse error: "@)),
{
    let read = match read_toml(input) {
        Ok(toml) => Ok(toml_tree(&toml)),
        Err(text) => Err(text),
    };
    convert_reading(read, "TOML parse error: ")
}

} // verus!
