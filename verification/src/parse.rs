//! The boundary to the external parser. The library does not define the
//! source grammar: `toml::from_str` turns the text into a value tree, and
//! that tree is carried over, variant by variant, into the library's own
//! `Value`. Both steps are functions of the text alone, so the composed
//! result bears a name, `toml_parse`, that the loading contract speaks of.

use vstd::prelude::*;

use toml::Value as TomlValue;

use crate::node::Node;
use crate::value::Value;

verus! {

#[verifier::external_type_specification]
#[verifier::external_body]
pub struct ExTomlValue(TomlValue);

/// The tree the external parser yields for this text, carried into the
/// library's model; nothing when the text is not a valid document.
pub uninterp spec fn toml_parse(text: Seq<char>) -> Option<Node>;

/// Carries one value of the external parser into the library's value type,
/// variant by variant: strings, integers and booleans move as they are, a
/// float becomes its bits and its decimal text, a date/time its display
/// text, and arrays and tables convert their children. Relied upon as part
/// of `parse_toml`'s contract.
#[verifier::external_body]
fn value_of_toml(v: TomlValue) -> Value {
    match v {
        TomlValue::String(s) => Value::Str(s),
        TomlValue::Integer(i) => Value::Int(i),
        TomlValue::Float(f) => Value::Float(f.to_bits(), format!("{:?}", f)),
        TomlValue::Boolean(b) => Value::Bool(b),
        TomlValue::Datetime(d) => Value::Datetime(d.to_string()),
        TomlValue::Array(a) => Value::Array(a.into_iter().map(value_of_toml).collect()),
        TomlValue::Table(t) => Value::Table(
            t.into_iter().map(|(k, c)| (k, value_of_toml(c))).collect(),
        ),
    }
}

/// Relies on `toml::from_str`: one deterministic parse of the text into a
/// value tree, converted by `value_of_toml`; `Err` exactly when the text is
/// not a valid document, with the parser's diagnostic as plain text.
#[verifier::external_body]
pub(crate) fn parse_toml(text: &str) -> (r: Result<Value, String>)
    ensures
        r is Ok <==> toml_parse(text@) is Some,
        r matches Ok(v) ==> toml_parse(text@) == Some(v@),
{
    match toml::from_str::<TomlValue>(text) {
        Ok(v) => Ok(value_of_toml(v)),
        Err(e) => Err(e.to_string()),
    }
}

} // verus!
