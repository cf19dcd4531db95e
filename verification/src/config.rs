//! Structured configuration text: the TOML reader behind the registry, and the
//! tree of plain values that it hands over.

use vstd::prelude::*;

verus! {

/// A value of a configuration document.
///
/// Texts, lists and tables keep what they hold, a table as its entries in the
/// order of the document. Of the remaining kinds only integers and booleans
/// keep their value.
#[derive(Debug)]
pub enum ConfigValue {
    Text(String),
    Integer(i64),
    Float,
    Boolean(bool),
    Datetime,
    List(Vec<ConfigValue>),
    Table(Vec<(String, ConfigValue)>),
}

/// A value as the TOML reader holds it.
#[verifier::external_type_specification]
#[verifier::external_body]
pub struct ExTomlValue(toml::Value);

/// The TOML reader's error for a text that is no TOML document.
#[verifier::external_type_specification]
#[verifier::external_body]
pub struct ExTomlFault(toml::de::Error);

/// The document that a TOML text stands for, as `toml::from_str` reads it, or
/// `None` for a text that it refuses.
pub uninterp spec fn toml_document(text: Seq<char>) -> Option<ConfigValue>;

/// What a value of the TOML reader holds.
pub uninterp spec fn toml_content(value: toml::Value) -> ConfigValue;

/// Reads `text` as a TOML document with `toml::from_str`.
///
/// Believed, not proved: whether the reader accepts a text, and the document
/// that it then returns, depend on the text alone. Tables keep their entries
/// in the order of the text.
#[verifier::external_body]
pub(crate) fn read_toml(text: &str) -> (r: Result<toml::Value, toml::de::Error>)
    ensures
        r matches Ok(value) ==> toml_document(text@) == Some(toml_content(value)),
        r is Err ==> toml_document(text@) is None,
{
    toml::from_str::<toml::Value>(text)
}

/// Takes a value of the TOML reader apart, variant by variant, into a value
/// of this library. The entries of a table come in the order in which
/// `toml::map::Map` iterates. That is the order of the document because the
/// reader is built with its `preserve_order` feature; without it the entries
/// would come sorted by key, and the rules of a definition with them.
#[verifier::external_body]
pub(crate) fn unpack(value: toml::Value) -> (content: ConfigValue)
    ensures
        content == toml_content(value),
{
    match value {
        toml::Value::String(text) => ConfigValue::Text(text),
        toml::Value::Integer(number) => ConfigValue::Integer(number),
        toml::Value::Float(_) => ConfigValue::Float,
        toml::Value::Boolean(flag) => ConfigValue::Boolean(flag),
        toml::Value::Datetime(_) => ConfigValue::Datetime,
        toml::Value::Array(items) => ConfigValue::List(items.into_iter().map(unpack).collect()),
        toml::Value::Table(table) => ConfigValue::Table(
            table.into_iter().map(|(key, item)| (key, unpack(item))).collect(),
        ),
    }
}

/// The reader's description of why it refused a text: the fault in its `Display` form.
pub(crate) fn describe_fault(fault: &toml::de::Error) -> (text: String)
    ensures
        vstd::string::to_string_from_display_ensures::<toml::de::Error>(fault, text),
{
    fault.to_string()
}

/// Reads `text` as a configuration document.
pub fn parse_document(text: &str) -> (r: Result<ConfigValue, String>)
    ensures
        r matches Ok(document) ==> toml_document(text@) == Some(document),
        r is Err <==> toml_document(text@) is None,
{
    match read_toml(text) {
        Ok(value) => Ok(unpack(value)),
        Err(fault) => Err(describe_fault(&fault)),
    }
}

} // verus!
