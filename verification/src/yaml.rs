//! The top level of YAML documents.

use vstd::prelude::*;
use crate::text::optional;

verus! {

/// Why the `serde_yaml` crate could not read a document.
#[verifier::external_type_specification]
#[verifier::external_body]
pub struct ExYamlError(serde_yaml::Error);

/// A value of a document: its text where it is one, and its number where it is an integer that
/// is not negative and fits in 64 bits.
#[derive(Debug)]
pub struct Scalar {
    pub text: Option<String>,
    pub number: Option<u64>,
}

/// A value of a document as contracts see it.
#[verifier::ext_equal]
pub struct ScalarView {
    pub text: Option<Seq<char>>,
    pub number: Option<u64>,
}

impl View for Scalar {
    type V = ScalarView;

    open spec fn view(&self) -> ScalarView {
        ScalarView { text: optional(self.text), number: self.number }
    }
}

/// An optional value as contracts see it.
pub open spec fn optional_scalar(value: Option<Scalar>) -> Option<ScalarView> {
    match value {
        Some(value) => Some(value@),
        None => None,
    }
}

/// What the `serde_yaml` crate finds under a key at the top of a document: `None` where the
/// document is not YAML, and no value where there is no such key.
pub uninterp spec fn yaml_entry(document: Seq<char>, key: Seq<char>) -> Option<
    Option<ScalarView>,
>;

/// `serde_yaml::from_str`, then `serde_yaml::Value::get` with a key, and `as_str` and `as_u64`
/// of what it finds, named by [`yaml_entry`].
#[verifier::external_body]
fn entry(document: &str, key: &str) -> (result: Result<Option<Scalar>, serde_yaml::Error>)
    ensures
        match result {
            Ok(value) => yaml_entry(document@, key@) == Some(optional_scalar(value)),
            Err(_) => yaml_entry(document@, key@) is None,
        },
{
    let document: serde_yaml::Value = serde_yaml::from_str(document)?;
    Ok(
        document.get(key).map(
            |value| Scalar { text: value.as_str().map(str::to_owned), number: value.as_u64() },
        ),
    )
}

/// What stands under a key at the top of a document: nothing where the document is not YAML.
pub open spec fn top_value(document: Seq<char>, key: Seq<char>) -> Option<ScalarView> {
    match yaml_entry(document, key) {
        Some(value) => value,
        None => None,
    }
}

/// What stands under a key at the top of a document.
pub fn value_at(document: &str, key: &str) -> (value: Option<Scalar>)
    ensures
        optional_scalar(value) == top_value(document@, key@),
{
    match entry(document, key) {
        Ok(value) => value,
        Err(_) => None,
    }
}

/// A document that is not YAML, and one without the key, holds nothing under the key. Else it
/// holds what stands there.
pub proof fn keys_of_yaml_alone_hold_values(document: Seq<char>, key: Seq<char>)
    ensures
        top_value(document, key) is Some <==> (yaml_entry(document, key) matches Some(value)
            && value is Some),
        yaml_entry(document, key) matches Some(value) ==> top_value(document, key) == value,
{
}

/// A value is seen with all that it holds.
pub proof fn values_are_seen_as_they_are(value: Scalar)
    ensures
        value@.number == value.number,
        value.text matches Some(text) ==> value@.text == Some(text@),
        value.text is None ==> value@.text is None,
        optional_scalar(Some(value)) == Some(value@),
        optional_scalar(None) is None,
{
}

} // verus!
