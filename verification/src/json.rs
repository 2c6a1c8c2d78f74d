use vstd::prelude::*;

verus! {

// The merge protocol treats an entry as an opaque JSON value that is only
// ever replaced wholesale, so the outside value type is declared and carried
// through without looking inside it.
#[verifier::external_type_specification]
#[verifier::external_body]
pub struct ExValue(serde_json::Value);

#[verifier::external_type_specification]
#[verifier::external_body]
pub struct ExJsonError(serde_json::Error);

/// What a source text parses to: `None` when the text is not a JSON object
/// of entries, otherwise the entries as key/value pairs. The result depends
/// on the text alone; nothing more is assumed of it.
pub uninterp spec fn json_entries(text: Seq<char>) -> Option<Seq<(Seq<char>, serde_json::Value)>>;

/// Relies on `serde_json::from_str` deserializing into a
/// `std::collections::BTreeMap<String, serde_json::Value>`: the call either
/// fails or yields the object's entries, uniquely keyed and in sorted key
/// order, a function of the text alone.
#[verifier::external_body]
pub(crate) fn parse_json_object(text: &str) -> (r: Result<
    Vec<(String, serde_json::Value)>,
    serde_json::Error,
>)
    ensures
        match r {
            Ok(pairs) => json_entries(text@) == Some(
                pairs@.map_values(|p: (String, serde_json::Value)| (p.0@, p.1)),
            ),
            Err(_) => json_entries(text@) is None,
        },
{
    match serde_json::from_str::<std::collections::BTreeMap<String, serde_json::Value>>(text) {
        Ok(m) => Ok(m.into_iter().collect()),
        Err(e) => Err(e),
    }
}

/// Relies on `serde_json::Value`'s derived `Clone`: a deep copy equal to the
/// original value.
pub assume_specification[ <serde_json::Value as Clone>::clone ](v: &serde_json::Value) -> (r:
    serde_json::Value)
    ensures
        r == *v,
;

/// Relies on `serde_json::Error`'s `Display` impl: a human-readable account
/// of a parse failure, used only as an error message.
#[verifier::external_body]
pub(crate) fn json_error_text(e: &serde_json::Error) -> String {
    format!("{}", e)
}

} // verus!
