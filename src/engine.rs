//! The JSONPath engine that parses and evaluates queries, and the JSON
//! document type it works on.
//!
//! Documents are `serde_json::Value`s and stay opaque here: the library
//! carries them through. The parsed query is read by the library, so its
//! outer structure (segments and selectors) is visible; filter expressions
//! are carried through unread.
use crate::path::{is_normalized, is_root};
use vstd::prelude::*;

verus! {

/// A JSON document, carried through unread.
#[verifier::external_type_specification]
#[verifier::external_body]
pub struct ExValue(serde_json::Value);

/// A filter expression inside a parsed query, carried through unread.
#[verifier::external_type_specification]
#[verifier::external_body]
pub struct ExFilter(jsonpath_rust::parser::model::Filter);

/// A parsed query and its parts, with their fields visible: the library
/// reads them to find slice steps.
#[verifier::external_type_specification]
pub struct ExJpQuery(jsonpath_rust::parser::model::JpQuery);

#[verifier::external_type_specification]
pub struct ExSegment(jsonpath_rust::parser::model::Segment);

#[verifier::external_type_specification]
pub struct ExSelector(jsonpath_rust::parser::model::Selector);

/// Whether the engine's grammar accepts the query text.
pub uninterp spec fn query_parses(q: Seq<char>) -> bool;

/// The engine's description of why it cannot parse the text.
pub uninterp spec fn parse_error_text(q: Seq<char>) -> Seq<char>;

/// The query that the engine parses from the text.
pub uninterp spec fn parsed_of(q: Seq<char>) -> jsonpath_rust::parser::model::JpQuery;

/// What the engine finds for a parsed query in a document: each match's
/// value and normalized path, in the engine's order.
pub uninterp spec fn query_result(
    q: jsonpath_rust::parser::model::JpQuery,
    doc: serde_json::Value,
) -> Seq<(serde_json::Value, Seq<char>)>;

/// Relies on `jsonpath_rust::parser::parse_json_path`: it returns the parsed
/// query when the text is in its grammar, an error otherwise; `$` alone
/// parses to a query without segments. The error is handed on as the text of
/// its derived `Debug`, which starts with the variant's name and so is never
/// empty; the parser is a function of the text alone, and so is that text.
#[verifier::external_body]
pub(crate) fn parse_json_path(q: &str) -> (r: Result<jsonpath_rust::parser::model::JpQuery, String>)
    ensures
        r is Ok <==> query_parses(q@),
        r matches Ok(a) ==> a == parsed_of(q@),
        r matches Ok(a) ==> (is_root(q@) ==> a.segments@.len() == 0),
        r matches Err(m) ==> m@ == parse_error_text(q@) && m@.len() > 0,
        is_root(q@) ==> r is Ok,
{
    jsonpath_rust::parser::parse_json_path(q).map_err(|e| format!("{e:?}"))
}

/// Relies on `jsonpath_rust::query::js_path_process`: evaluates a parsed
/// query against a document. Each match comes back as its value and its
/// location, which the engine writes as a normalized path (`$` followed by
/// `['name']` with the name escaped, or `[n]`). A query without segments
/// matches the document itself, at `$`. Starting from the root, evaluation
/// only ever yields references, so the call succeeds. Only queries that the
/// parser produced are accepted: their integers are bounded by the grammar,
/// which keeps the engine's index arithmetic from overflowing.
#[verifier::external_body]
pub(crate) fn process_query(
    q: &jsonpath_rust::parser::model::JpQuery,
    doc: &serde_json::Value,
) -> (r: Result<Vec<(serde_json::Value, String)>, String>)
    requires
        exists|t: Seq<char>| query_parses(t) && *q == #[trigger] parsed_of(t),
    ensures
        r is Ok,
        r matches Ok(v) ==> v@.len() == query_result(*q, *doc).len(),
        r matches Ok(v) ==> forall|k: int|
            0 <= k < v@.len() ==> #[trigger] v@[k].0 == query_result(*q, *doc)[k].0 && v@[k].1@
                == query_result(*q, *doc)[k].1,
        r matches Ok(v) ==> forall|k: int| 0 <= k < v@.len() ==> is_normalized(#[trigger] v@[k].1@),
        r matches Ok(v) ==> (q.segments@.len() == 0 ==> v@.len() == 1 && v@[0].0 == *doc && is_root(
            v@[0].1@,
        )),
{
    jsonpath_rust::query::js_path_process(q, doc).map(
        |refs| refs.into_iter().map(|m| (m.val.clone(), m.path)).collect(),
    ).map_err(|e| format!("{e:?}"))
}

} // verus!
