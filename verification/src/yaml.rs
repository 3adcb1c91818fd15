//! YAML documents.  The values are `serde_yaml::Value`; what holds of them
//! here is believed of `serde_yaml`, not proved.

use vstd::prelude::*;

verus! {

/// A value of `serde_yaml`: a scalar, a sequence, a mapping or a tagged
/// value.  Opaque to the verifier; `yaml_doc` names what it holds.
#[verifier::external_type_specification]
#[verifier::external_body]
pub struct ExYamlValue(serde_yaml::Value);

/// The error of `serde_yaml`.
#[verifier::external_type_specification]
#[verifier::external_body]
pub struct ExYamlError(serde_yaml::Error);

/// What a YAML value holds.
pub enum YamlDoc {
    /// The null value.
    Null,
    /// A boolean.
    Bool(bool),
    /// A number, by its digits.
    Number(Seq<char>),
    /// A string.
    Text(Seq<char>),
    /// A sequence, by its items in order.
    List(Seq<YamlDoc>),
    /// A mapping, by its entries in the order in which they were inserted.
    Table(Seq<(YamlDoc, YamlDoc)>),
    /// A value under a tag.
    Tagged(Seq<char>, Box<YamlDoc>),
}

/// What the value `v` holds.
pub uninterp spec fn yaml_doc(v: serde_yaml::Value) -> YamlDoc;

/// The text that `serde_yaml::to_string` makes of a value that holds `doc`,
/// or `None` where it reports an error.
pub uninterp spec fn yaml_text(doc: YamlDoc) -> Option<Seq<char>>;

/// What each value of a list holds.
pub open spec fn yaml_docs(items: Seq<serde_yaml::Value>) -> Seq<YamlDoc> {
    items.map_values(|v: serde_yaml::Value| yaml_doc(v))
}

/// The keys of a list of entries.
pub open spec fn entry_keys(entries: Seq<(String, serde_yaml::Value)>) -> Seq<Seq<char>> {
    entries.map_values(|e: (String, serde_yaml::Value)| e.0@)
}

/// The entries of a mapping with string keys, as a mapping holds them.
pub open spec fn yaml_entries(entries: Seq<(String, serde_yaml::Value)>) -> Seq<(YamlDoc, YamlDoc)> {
    entries.map_values(|e: (String, serde_yaml::Value)| (YamlDoc::Text(e.0@), yaml_doc(e.1)))
}

/// `serde_yaml::Value::String`: the value that holds the string `s`.
#[verifier::external_body]
pub(crate) fn yaml_string(s: &str) -> (v: serde_yaml::Value)
    ensures
        yaml_doc(v) == YamlDoc::Text(s@),
{
    serde_yaml::Value::String(s.to_string())
}

/// `serde_yaml::Value::Sequence`: the value that holds `items` in order.
#[verifier::external_body]
pub(crate) fn yaml_sequence(items: Vec<serde_yaml::Value>) -> (v: serde_yaml::Value)
    ensures
        yaml_doc(v) == YamlDoc::List(yaml_docs(items@)),
{
    serde_yaml::Value::Sequence(items)
}

/// `serde_yaml::Mapping::from_iter` under `serde_yaml::Value::Mapping`: the
/// mapping that holds `entries` in the order given, each key as a string.
/// The keys differ from each other: of two equal keys a mapping keeps one.
#[verifier::external_body]
pub(crate) fn yaml_mapping(entries: Vec<(String, serde_yaml::Value)>) -> (v: serde_yaml::Value)
    requires
        entry_keys(entries@).no_duplicates(),
    ensures
        yaml_doc(v) == YamlDoc::Table(yaml_entries(entries@)),
{
    serde_yaml::Value::Mapping(
        entries.into_iter().map(|(k, v)| (serde_yaml::Value::String(k), v)).collect(),
    )
}

/// `serde_yaml::Value::clone`: a value that holds what `v` holds.
pub assume_specification[ <serde_yaml::Value as Clone>::clone ](v: &serde_yaml::Value) -> (r:
    serde_yaml::Value)
    ensures
        yaml_doc(r) == yaml_doc(*v),
;

/// `serde_yaml::to_string`: the YAML text of `v`, which depends on nothing
/// but what `v` holds.
#[verifier::external_body]
pub(crate) fn yaml_emit(v: &serde_yaml::Value) -> (r: Result<String, serde_yaml::Error>)
    ensures
        match r {
            Ok(text) => yaml_text(yaml_doc(*v)) == Some(text@),
            Err(_) => yaml_text(yaml_doc(*v)) is None,
        },
{
    serde_yaml::to_string(v)
}

} // verus!
