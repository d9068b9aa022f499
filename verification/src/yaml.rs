//! The YAML decoder, as far as the annotation format needs it.
//!
//! Documents are decoded by `serde_yaml`. What this library reads of a
//! decoded value is stated over a model of the value, [`Yaml`]; the
//! functions of this file are the only ones that touch the decoder, and
//! their contracts are taken on trust.

use vstd::prelude::*;

verus! {

/// What the library sees of a decoded YAML value. Tags are looked through.
/// Of a mapping only the entries with a string for key are seen.
pub enum Yaml {
    Null,
    Text(Seq<char>),
    List(Seq<Yaml>),
    Table(Map<Seq<char>, Yaml>),
    /// A boolean, a number, or anything else that the format has no use for.
    Other,
}

#[verifier::external_type_specification]
#[verifier::external_body]
pub struct ExYamlValue(serde_yaml::Value);

#[verifier::external_type_specification]
#[verifier::external_body]
pub struct ExYamlError(serde_yaml::Error);

/// The model of a decoded value.
pub uninterp spec fn yaml_model(value: serde_yaml::Value) -> Yaml;

/// The model of the value that a document decodes to, if it decodes.
pub uninterp spec fn yaml_document(bytes: Seq<u8>) -> Option<Yaml>;

/// The models of a sequence of decoded values.
pub open spec fn yaml_models(items: Seq<serde_yaml::Value>) -> Seq<Yaml> {
    Seq::new(items.len(), |i: int| yaml_model(items[i]))
}

/// The entry of a table under `key`.
pub open spec fn field(y: Yaml, key: Seq<char>) -> Option<Yaml> {
    match y {
        Yaml::Table(entries) => if entries.contains_key(key) {
            Some(entries[key])
        } else {
            None
        },
        _ => None,
    }
}

/// `serde_yaml::from_slice`, decoding to a `serde_yaml::Value`. Whether a
/// document decodes, and to what, depends on its bytes alone.
#[verifier::external_body]
pub(crate) fn decode_yaml(bytes: &[u8]) -> (r: Result<serde_yaml::Value, serde_yaml::Error>)
    ensures
        match r {
            Ok(value) => yaml_document(bytes@) == Some(yaml_model(value)),
            Err(_) => yaml_document(bytes@) is None,
        },
{
    serde_yaml::from_slice::<serde_yaml::Value>(bytes)
}

/// `serde_yaml::Value::get` with a string for index: the entry of a
/// mapping under that string; nothing for what is no mapping and for a
/// mapping without the key.
#[verifier::external_body]
pub(crate) fn yaml_get<'a>(value: &'a serde_yaml::Value, key: &str) -> (r: Option<
    &'a serde_yaml::Value,
>)
    ensures
        match r {
            Some(entry) => field(yaml_model(*value), key@) == Some(yaml_model(*entry)),
            None => field(yaml_model(*value), key@) is None,
        },
{
    value.get(key)
}

/// `serde_yaml::Value::as_str`: the text of a string, nothing for any
/// other value.
#[verifier::external_body]
pub(crate) fn yaml_str<'a>(value: &'a serde_yaml::Value) -> (r: Option<&'a str>)
    ensures
        match r {
            Some(text) => yaml_model(*value) == Yaml::Text(text@),
            None => !(yaml_model(*value) is Text),
        },
{
    value.as_str()
}

/// `serde_yaml::Value::as_sequence`: the items of a sequence, nothing for
/// any other value.
#[verifier::external_body]
pub(crate) fn yaml_sequence<'a>(value: &'a serde_yaml::Value) -> (r: Option<
    &'a Vec<serde_yaml::Value>,
>)
    ensures
        match r {
            Some(items) => yaml_model(*value) == Yaml::List(yaml_models(items@)),
            None => !(yaml_model(*value) is List),
        },
{
    value.as_sequence()
}

/// `serde_yaml::Value::is_null`.
#[verifier::external_body]
pub(crate) fn yaml_is_null(value: &serde_yaml::Value) -> (r: bool)
    ensures
        r == (yaml_model(*value) is Null),
{
    value.is_null()
}

} // verus!
