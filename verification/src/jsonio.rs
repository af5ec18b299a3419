//! Trusted boundary around serde_json.
//!
//! The library never reads the inside of a JSON value: it parses text into
//! key/value entries, reorders them, and serializes them back. What the
//! parser and the serializer do is stated here and believed; everything
//! around these calls is verified.

use crate::keys::distinct_keys;
use vstd::prelude::*;

verus! {

/// serde_json's JSON value, carried through the library opaquely.
#[verifier::external_type_specification]
#[verifier::external_body]
pub struct ExValue(serde_json::Value);

/// Failure to obtain a JSON object from text.
#[derive(Debug)]
pub enum ParseError {
    /// The text is not well-formed JSON; holds the parser's message.
    Syntax(String),
    /// The text is well-formed JSON whose root is not an object.
    NotObject,
}

/// Whether serde_json accepts the text as one well-formed JSON document.
pub uninterp spec fn is_valid_json(s: Seq<char>) -> bool;

/// Whether serde_json accepts the text as a JSON document whose root is an
/// object.
pub uninterp spec fn parses_as_object(s: Seq<char>) -> bool;

/// The distinct top-level keys that serde_json reads from a document whose
/// root is an object, in order of first appearance in the text.
pub uninterp spec fn json_object_keys(s: Seq<char>) -> Seq<Seq<char>>;

/// The pretty-printed JSON array that serde_json writes for a list of
/// strings.
pub uninterp spec fn pretty_string_array(ks: Seq<Seq<char>>) -> Seq<char>;

/// The keys of an entry list, in order.
pub open spec fn entry_keys(es: Seq<(String, serde_json::Value)>) -> Seq<Seq<char>> {
    es.map_values(|p: (String, serde_json::Value)| p.0@)
}

/// Relies on `serde_json::from_str::<Value>`: it returns `Ok` exactly on
/// well-formed JSON, and with the `preserve_order` feature an object's
/// entries come back in source order, repeated keys collapsed onto their
/// first position, every key distinct.
#[verifier::external_body]
pub(crate) fn parse_object_entries(s: &str) -> (r: Result<
    Vec<(String, serde_json::Value)>,
    ParseError,
>)
    ensures
        r is Ok <==> parses_as_object(s@),
        r is Ok ==> is_valid_json(s@),
        (r matches Err(e) && e is Syntax) <==> !is_valid_json(s@),
        (r matches Err(e) && e is NotObject) <==> (is_valid_json(s@) && !parses_as_object(s@)),
        r matches Ok(es) ==> entry_keys(es@) == json_object_keys(s@),
        r matches Ok(es) ==> distinct_keys(json_object_keys(s@)),
{
    match serde_json::from_str::<serde_json::Value>(s) {
        Ok(serde_json::Value::Object(m)) => Ok(m.into_iter().collect()),
        Ok(_) => Err(ParseError::NotObject),
        Err(e) => Err(ParseError::Syntax(e.to_string())),
    }
}

/// Relies on `serde_json::to_string_pretty` on an object `Value`, which
/// never fails, and on `from_str`: with `preserve_order`, a serialized
/// object parses back to an object with the same keys in the same order.
/// The values serialized here come out of `from_str`, whose recursion limit
/// bounds their nesting depth, so the output parses back within that limit.
#[verifier::external_body]
pub(crate) fn entries_to_pretty(entries: Vec<(String, serde_json::Value)>) -> (r: String)
    requires
        distinct_keys(entry_keys(entries@)),
    ensures
        parses_as_object(r@),
        json_object_keys(r@) == entry_keys(entries@),
{
    let m: serde_json::Map<String, serde_json::Value> = entries.into_iter().collect();
    serde_json::to_string_pretty(&serde_json::Value::Object(m)).unwrap()
}

/// Relies on `serde_json::to_string_pretty` on a `Vec<String>`, which never
/// fails: its output depends on the strings alone.
#[verifier::external_body]
pub(crate) fn strings_to_pretty_array(v: &Vec<String>) -> (r: String)
    ensures
        r@ == pretty_string_array(v.deep_view()),
{
    serde_json::to_string_pretty(v).unwrap()
}

/// The top-level keys that a structural parse of the text yields: distinct,
/// in order of first appearance. Errors tell a syntax failure from a root
/// that is no object.
pub fn object_keys_of_text(s: &str) -> (r: Result<Vec<String>, ParseError>)
    ensures
        r is Ok <==> parses_as_object(s@),
        r matches Ok(ks) ==> ks.deep_view() == json_object_keys(s@) && distinct_keys(
            ks.deep_view(),
        ),
        r matches Err(e) ==> (e is Syntax <==> !is_valid_json(s@)),
        r matches Err(e) ==> (e is NotObject <==> is_valid_json(s@) && !parses_as_object(s@)),
{
    match parse_object_entries(s) {
        Ok(entries) => {
            let mut ks: Vec<String> = Vec::new();
            let mut i: usize = 0;
            while i < entries.len()
                invariant
                    i <= entries@.len(),
                    ks.deep_view() == entry_keys(entries@).take(i as int),
                decreases entries@.len() - i,
            {
                let ghost before = ks.deep_view();
                ks.push(entries[i].0.clone());
                proof {
                    assert(ks.deep_view() =~= before + seq![entry_keys(entries@)[i as int]]);
                    assert(entry_keys(entries@).take(i as int + 1) =~= entry_keys(entries@).take(
                        i as int,
                    ) + seq![entry_keys(entries@)[i as int]]);
                }
                i = i + 1;
            }
            proof {
                assert(entry_keys(entries@).take(entries@.len() as int) =~= entry_keys(entries@));
            }
            Ok(ks)
        },
        Err(e) => Err(e),
    }
}

} // verus!
