use crate::error::PinError;
use std::collections::BTreeMap;
use vstd::prelude::*;

verus! {

#[verifier::external_type_specification]
#[verifier::external_body]
pub struct ExYamlError(serde_yaml::Error);

/// The digit groups that a YAML text denotes when read as a map from `u32`
/// to lists of one-character strings, in ascending order of digit; `None`
/// where the text does not have that shape.
pub uninterp spec fn yaml_digit_groups(text: Seq<char>) -> Option<Seq<(u32, Seq<char>)>>;

/// Relies on `serde_yaml::from_str` read into a `BTreeMap<u32, Vec<char>>`:
/// the result depends on the text alone, and `BTreeMap::into_iter` hands the
/// entries out in ascending key order.
#[verifier::external_body]
fn yaml_groups(text: &str) -> (r: Result<Vec<(u32, Vec<char>)>, serde_yaml::Error>)
    ensures
        match r {
            Ok(v) => yaml_digit_groups(text@) == Some(v.deep_view()),
            Err(_) => yaml_digit_groups(text@) is None,
        },
        r matches Ok(v) ==> forall|i: int, j: int|
            0 <= i < j < v@.len() ==> #[trigger] v@[i].0 < #[trigger] v@[j].0,
{
    serde_yaml::from_str::<BTreeMap<u32, Vec<char>>>(text).map(|m| m.into_iter().collect())
}

/// Reads a configuration text of the form `digit: [characters]` into its
/// digit groups, in ascending order of digit.
pub fn parse_config(text: &str) -> (r: Result<Vec<(u32, Vec<char>)>, PinError>)
    ensures
        match r {
            Ok(v) => yaml_digit_groups(text@) == Some(v.deep_view()),
            Err(e) => yaml_digit_groups(text@) is None && e == PinError::Parse,
        },
        r matches Ok(v) ==> forall|i: int, j: int|
            0 <= i < j < v@.len() ==> #[trigger] v@[i].0 < #[trigger] v@[j].0,
{
    match yaml_groups(text) {
        Ok(v) => Ok(v),
        Err(_) => Err(PinError::Parse),
    }
}

} // verus!
