use vstd::prelude::*;

verus! {

#[verifier::external_type_specification]
#[verifier::external_body]
pub struct ExJsonError(serde_json::Error);

/// The strings of a JSON text that is an array of strings; `None` for any
/// other text.
pub uninterp spec fn json_string_list(text: Seq<char>) -> Option<Seq<Seq<char>>>;

/// The JSON text of an array of strings, where serde_json produces one.
pub uninterp spec fn json_of_strings(items: Seq<Seq<char>>) -> Option<Seq<char>>;

/// The views of a sequence of strings.
pub open spec fn string_views(v: Seq<String>) -> Seq<Seq<char>> {
    v.map_values(|s: String| s@)
}

/// Relies on serde_json::from_str::<Vec<String>>: decodes a JSON array of
/// strings, and fails on any other text; the outcome depends on the text alone.
#[verifier::external_body]
pub(crate) fn decode_string_list(text: &str) -> (r: Result<Vec<String>, serde_json::Error>)
    ensures
        match r {
            Ok(v) => json_string_list(text@) == Some(string_views(v@)),
            Err(_) => json_string_list(text@) is None,
        },
{
    serde_json::from_str::<Vec<String>>(text)
}

/// Relies on serde_json::to_string::<Vec<String>>: the JSON text of an array
/// of strings; the outcome depends on the strings alone.
#[verifier::external_body]
pub(crate) fn encode_string_list(items: &Vec<String>) -> (r: Result<String, serde_json::Error>)
    ensures
        match r {
            Ok(t) => json_of_strings(string_views(items@)) == Some(t@),
            Err(_) => json_of_strings(string_views(items@)) is None,
        },
{
    serde_json::to_string(items)
}

} // verus!
