//! Running a query against a document and shaping what it finds.
use crate::engine::{
    parse_error_text, parse_json_path, parsed_of, process_query, query_parses, query_result,
};
use crate::path::{
    canonical_form, canonical_of, canonical_path, is_canonical, is_normalized, is_root,
    lemma_canonical_of_unique, lemma_root_canonical,
};
use jsonpath_rust::parser::model::{JpQuery, Segment, Selector};
use serde_json::Value;
use vstd::prelude::*;

verus! {

/// Why a query could not be answered.
#[derive(Debug)]
pub enum QueryError {
    /// The query text is not a well-formed JSONPath expression.
    Syntax(String),
    /// The engine reported an error while evaluating the query. The engine
    /// reports none for a query that it parsed itself.
    Evaluation(String),
}

/// A value found in the document, with its location as a canonical path.
#[derive(Debug)]
pub struct QueryMatch {
    pub value: Value,
    pub path: String,
}

/// A selector is acceptable unless it is a slice whose step is zero.
pub open spec fn selector_step_ok(s: Selector) -> bool {
    match s {
        Selector::Slice(_, _, step) => step != Some(0i64),
        _ => true,
    }
}

pub open spec fn segment_steps_ok(g: Segment) -> bool
    decreases g,
{
    match g {
        Segment::Descendant(inner) => segment_steps_ok(*inner),
        Segment::Selector(s) => selector_step_ok(s),
        Segment::Selectors(v) => selectors_ok(v@),
    }
}

pub open spec fn selectors_ok(v: Seq<Selector>) -> bool {
    forall|k: int| 0 <= k < v.len() ==> selector_step_ok(#[trigger] v[k])
}

/// No slice of the query's segments has a zero step.
pub open spec fn query_steps_ok(q: JpQuery) -> bool {
    forall|k: int| 0 <= k < q.segments@.len() ==> segment_steps_ok(#[trigger] q.segments@[k])
}

/// The text is a query that the library accepts: the engine parses it, and
/// no slice in its segments has a zero step. Filter expressions are the
/// engine's own and are not looked into: a zero step in a query nested in a
/// filter (`$[?@[0:1:0]]`) is left to the engine, which selects nothing
/// there.
pub open spec fn query_ok(query: Seq<char>) -> bool {
    query_parses(query) && query_steps_ok(parsed_of(query))
}

/// What the engine finds for the query text in the document: each match's
/// value and normalized path, in the engine's order.
pub open spec fn found(query: Seq<char>, doc: Value) -> Seq<(Value, Seq<char>)> {
    query_result(parsed_of(query), doc)
}

/// `ms` are the engine's finds, in order, each with its path in canonical
/// form.
pub open spec fn matches_found(ms: Seq<QueryMatch>, finds: Seq<(Value, Seq<char>)>) -> bool {
    &&& ms.len() == finds.len()
    &&& forall|k: int|
        #![trigger ms[k]]
        0 <= k < ms.len() ==> ms[k].value == finds[k].0 && ms[k].path@ == canonical_form(finds[k].1)
}

/// Running one query twice on one document gives the same matches in the
/// same order: what `execute_query` returns is fixed by the query text and
/// the document.
pub proof fn lemma_same_query_same_matches(
    ms1: Seq<QueryMatch>,
    ms2: Seq<QueryMatch>,
    query: Seq<char>,
    doc: Value,
)
    requires
        matches_found(ms1, found(query, doc)),
        matches_found(ms2, found(query, doc)),
    ensures
        ms1.len() == ms2.len(),
        forall|k: int|
            #![trigger ms1[k]]
            0 <= k < ms1.len() ==> ms1[k].value == ms2[k].value && ms1[k].path@ == ms2[k].path@,
{
    assert forall|k: int| #![trigger ms1[k]] 0 <= k < ms1.len() implies ms1[k].value
        == ms2[k].value && ms1[k].path@ == ms2[k].path@ by {
        assert(ms2[k].value == found(query, doc)[k].0);
    }
}

fn selector_step_ok_exec(s: &Selector) -> (r: bool)
    ensures
        r == selector_step_ok(*s),
{
    match s {
        Selector::Slice(_, _, Some(step)) => *step != 0,
        _ => true,
    }
}

fn segment_steps_ok_exec(g: &Segment) -> (r: bool)
    ensures
        r == segment_steps_ok(*g),
    decreases g,
{
    match g {
        Segment::Descendant(inner) => segment_steps_ok_exec(inner),
        Segment::Selector(s) => selector_step_ok_exec(s),
        Segment::Selectors(v) => {
            let mut k: usize = 0;
            while k < v.len()
                invariant
                    *g == Segment::Selectors(*v),
                    k <= v@.len(),
                    forall|m: int| 0 <= m < k ==> selector_step_ok(#[trigger] v@[m]),
                decreases v@.len() - k,
            {
                if !selector_step_ok_exec(&v[k]) {
                    assert(!selector_step_ok(v@[k as int]));
                    return false;
                }
                k = k + 1;
            }
            true
        },
    }
}

/// Whether no slice among the query's segments has a zero step.
pub fn has_valid_steps(q: &JpQuery) -> (r: bool)
    ensures
        r == query_steps_ok(*q),
{
    let mut k: usize = 0;
    while k < q.segments.len()
        invariant
            k <= q.segments@.len(),
            forall|m: int| 0 <= m < k ==> segment_steps_ok(#[trigger] q.segments@[m]),
        decreases q.segments@.len() - k,
    {
        if !segment_steps_ok_exec(&q.segments[k]) {
            assert(!segment_steps_ok(q.segments@[k as int]));
            return false;
        }
        k = k + 1;
    }
    true
}

/// The message of the syntax error for a slice with a zero step: it names
/// the query.
pub open spec fn zero_step_text(query: Seq<char>) -> Seq<char> {
    seq!['z', 'e', 'r', 'o', ' ', 's', 'l', 'i', 'c', 'e', ' ', 's', 't', 'e', 'p', ' ', 'i', 'n', ' ']
        + query
}

/// The message of the syntax error for a query that the library refuses:
/// the engine's description when it cannot parse the text, the zero-step
/// message otherwise.
pub open spec fn query_error_text(query: Seq<char>) -> Seq<char> {
    if !query_parses(query) {
        parse_error_text(query)
    } else {
        zero_step_text(query)
    }
}

/// Turns the engine's parse outcome for `query` into the library's: an
/// engine error becomes a syntax error with the engine's message, a slice
/// with a zero step a syntax error with the zero-step message; any other
/// parsed query is returned as it is.
pub fn check_parsed(query: &str, parsed: Result<JpQuery, String>) -> (r: Result<JpQuery, QueryError>)
    ensures
        parsed matches Err(m) ==> (r matches Err(QueryError::Syntax(m2)) && m2 == m),
        parsed matches Ok(a) ==> (query_steps_ok(a) ==> r == Ok::<JpQuery, QueryError>(a)),
        parsed matches Ok(a) ==> (!query_steps_ok(a) ==> (r matches Err(QueryError::Syntax(m))
            && m@ == zero_step_text(query@))),
{
    match parsed {
        Err(m) => Err(QueryError::Syntax(m)),
        Ok(a) => {
            if has_valid_steps(&a) {
                Ok(a)
            } else {
                let mut m = String::from_str("zero slice step in ");
                m.append(query);
                proof {
                    reveal_strlit("zero slice step in ");
                }
                assert(m@ =~= zero_step_text(query@));
                Err(QueryError::Syntax(m))
            }
        },
    }
}

/// Parses a query; fails with a syntax error when the text is not in the
/// grammar or holds a slice with a zero step.
pub fn parse_query(query: &str) -> (r: Result<JpQuery, QueryError>)
    ensures
        query_ok(query@) ==> r == Ok::<JpQuery, QueryError>(parsed_of(query@)),
        !query_ok(query@) ==> (r matches Err(QueryError::Syntax(m)) && m@ == query_error_text(query@)),
        r matches Err(QueryError::Syntax(m)) ==> m@.len() > 0,
        r matches Ok(a) ==> query_ok(query@) && a == parsed_of(query@),
        is_root(query@) ==> (r matches Ok(a) && a.segments@.len() == 0),
{
    check_parsed(query, parse_json_path(query))
}

/// Pairs each value that the engine found with the canonical form of its
/// normalized path, in the engine's order. `None` when a path is not a
/// normalized path.
pub fn collect_matches(raw: Vec<(Value, String)>) -> (r: Option<Vec<QueryMatch>>)
    ensures
        r is Some <==> forall|k: int| 0 <= k < raw@.len() ==> is_normalized(#[trigger] raw@[k].1@),
        r matches Some(ms) ==> ms@.len() == raw@.len() && forall|k: int|
            #![trigger ms@[k]]
            0 <= k < raw@.len() ==> ms@[k].value == raw@[k].0 && ms@[k].path@ == canonical_form(
                raw@[k].1@,
            ) && canonical_of(raw@[k].1@, ms@[k].path@),
{
    let ghost n = raw@.len();
    let mut rest = raw;
    let mut rev: Vec<QueryMatch> = Vec::new();
    while rest.len() > 0
        invariant
            n == raw@.len(),
            rest@ == raw@.subrange(0, rest@.len() as int),
            rev@.len() + rest@.len() == n,
            forall|t: int|
                0 <= t < rev@.len() ==> #[trigger] rev@[t].value == raw@[n - 1 - t].0
                    && canonical_of(raw@[n - 1 - t].1@, rev@[t].path@),
            forall|k: int| rest@.len() <= k < n ==> is_normalized(#[trigger] raw@[k].1@),
        decreases rest@.len(),
    {
        let item = rest.pop().unwrap();
        let ghost k = rest@.len() as int;
        assert(item == raw@[k]);
        let (v, p) = item;
        match canonical_path(p.as_str()) {
            None => {
                return None;
            },
            Some(c) => {
                rev.push(QueryMatch { value: v, path: c });
            },
        }
    }
    let mut out: Vec<QueryMatch> = Vec::new();
    while rev.len() > 0
        invariant
            n == raw@.len(),
            rev@.len() + out@.len() == n,
            forall|t: int|
                #![trigger rev@[t]]
                0 <= t < rev@.len() ==> rev@[t].value == raw@[n - 1 - t].0
                    && canonical_of(raw@[n - 1 - t].1@, rev@[t].path@),
            forall|k: int|
                #![trigger out@[k]]
                0 <= k < out@.len() ==> out@[k].value == raw@[k].0 && canonical_of(
                    raw@[k].1@,
                    out@[k].path@,
                ),
        decreases rev@.len(),
    {
        let ghost before = rev@;
        let m = rev.pop().unwrap();
        assert(m == before[before.len() - 1]);
        assert(rev@ =~= before.subrange(0, before.len() - 1));
        out.push(m);
        assert(out@[out@.len() - 1] == m);
    }
    proof {
        assert forall|k: int| 0 <= k < out@.len() implies out@[k].path@ == canonical_form(
            raw@[k].1@,
        ) by {
            lemma_canonical_of_unique(raw@[k].1@, out@[k].path@);
        }
    }
    Some(out)
}

/// Evaluates `query` against `doc`. Each match carries its value and its
/// canonical path, in the order the engine visits the document. A query
/// that the engine does not parse, or that holds a slice with a zero step,
/// is a syntax error whatever the document; any other query succeeds, with
/// no matches when nothing is found. The query `$` matches the whole
/// document, once, at `$`.
pub fn execute_query(doc: &Value, query: &str) -> (r: Result<Vec<QueryMatch>, QueryError>)
    ensures
        query_ok(query@) ==> (r matches Ok(ms) && matches_found(ms@, found(query@, *doc))),
        !query_ok(query@) ==> (r matches Err(QueryError::Syntax(m)) && m@ == query_error_text(query@)),
        r matches Err(QueryError::Syntax(m)) ==> m@.len() > 0,
        r matches Ok(ms) ==> forall|k: int| 0 <= k < ms@.len() ==> is_canonical(#[trigger] ms@[k].path@),
        is_root(query@) ==> (r matches Ok(ms) && ms@.len() == 1 && ms@[0].value == *doc && is_root(
            ms@[0].path@,
        )),
{
    let parsed = match parse_query(query) {
        Ok(a) => a,
        Err(e) => {
            return Err(e);
        },
    };
    assert(query_parses(query@) && parsed == parsed_of(query@));
    match process_query(&parsed, doc) {
        Err(m) => Err(QueryError::Evaluation(m)),
        Ok(raw) => {
            let ghost raw0 = raw@;
            proof {
                lemma_root_canonical();
            }
            let ms = collect_matches(raw).unwrap();
            assert forall|k: int| 0 <= k < ms@.len() implies is_canonical(#[trigger] ms@[k].path@) by {
                assert(canonical_of(raw0[k].1@, ms@[k].path@));
            }
            assert(matches_found(ms@, found(query@, *doc))) by {
                assert forall|k: int| #![trigger ms@[k]] 0 <= k < ms@.len() implies ms@[k].value
                    == found(query@, *doc)[k].0 && ms@[k].path@ == canonical_form(
                    found(query@, *doc)[k].1,
                ) by {
                    assert(raw0[k].0 == found(query@, *doc)[k].0);
                }
            }
            Ok(ms)
        },
    }
}

/// The canonical paths of the matches, in order.
pub fn paths_of(ms: &Vec<QueryMatch>) -> (r: Vec<String>)
    ensures
        r@.len() == ms@.len(),
        forall|k: int| 0 <= k < ms@.len() ==> #[trigger] r@[k]@ == ms@[k].path@,
{
    let mut out: Vec<String> = Vec::new();
    let mut k: usize = 0;
    while k < ms.len()
        invariant
            k <= ms@.len(),
            out@.len() == k,
            forall|m: int| 0 <= m < k ==> #[trigger] out@[m]@ == ms@[m].path@,
        decreases ms@.len() - k,
    {
        out.push(ms[k].path.clone());
        k = k + 1;
    }
    out
}

/// Evaluates `query` against `doc` and keeps only the canonical paths.
pub fn find_paths(doc: &Value, query: &str) -> (r: Result<Vec<String>, QueryError>)
    ensures
        query_ok(query@) ==> (r matches Ok(ps) && ps@.len() == found(query@, *doc).len() && forall|
            k: int,
        |
            0 <= k < ps@.len() ==> #[trigger] ps@[k]@ == canonical_form(found(query@, *doc)[k].1)),
        !query_ok(query@) ==> (r matches Err(QueryError::Syntax(m)) && m@ == query_error_text(query@)),
        r matches Err(QueryError::Syntax(m)) ==> m@.len() > 0,
        r matches Ok(ps) ==> forall|k: int| 0 <= k < ps@.len() ==> is_canonical(#[trigger] ps@[k]@),
        is_root(query@) ==> (r matches Ok(ps) && ps@.len() == 1 && is_root(ps@[0]@)),
{
    let ms = match execute_query(doc, query) {
        Ok(ms) => ms,
        Err(e) => {
            return Err(e);
        },
    };
    let ps = paths_of(&ms);
    assert forall|k: int| 0 <= k < ps@.len() implies is_canonical(#[trigger] ps@[k]@)
        && ps@[k]@ == ms@[k].path@ by {
        assert(ps@[k]@ == ms@[k].path@);
    }
    Ok(ps)
}

/// The values of the matches, in order.
pub fn values_of(ms: Vec<QueryMatch>) -> (r: Vec<Value>)
    ensures
        r@.len() == ms@.len(),
        forall|k: int| 0 <= k < ms@.len() ==> #[trigger] r@[k] == ms@[k].value,
{
    let ghost n = ms@.len();
    let mut rest = ms;
    let mut rev: Vec<Value> = Vec::new();
    while rest.len() > 0
        invariant
            n == ms@.len(),
            rest@ == ms@.subrange(0, rest@.len() as int),
            rev@.len() + rest@.len() == n,
            forall|t: int| 0 <= t < rev@.len() ==> #[trigger] rev@[t] == ms@[n - 1 - t].value,
        decreases rest@.len(),
    {
        let m = rest.pop().unwrap();
        assert(m == ms@[rest@.len() as int]);
        rev.push(m.value);
    }
    let mut out: Vec<Value> = Vec::new();
    while rev.len() > 0
        invariant
            n == ms@.len(),
            rev@.len() + out@.len() == n,
            forall|t: int| 0 <= t < rev@.len() ==> #[trigger] rev@[t] == ms@[n - 1 - t].value,
            forall|k: int| 0 <= k < out@.len() ==> #[trigger] out@[k] == ms@[k].value,
        decreases rev@.len(),
    {
        let ghost before = rev@;
        let v = rev.pop().unwrap();
        assert(v == before[before.len() - 1]);
        assert(rev@ =~= before.subrange(0, before.len() - 1));
        out.push(v);
    }
    out
}

/// Evaluates `query` against `doc` and keeps only the values found.
pub fn find_data(doc: &Value, query: &str) -> (r: Result<Vec<Value>, QueryError>)
    ensures
        query_ok(query@) ==> (r matches Ok(vs) && vs@.len() == found(query@, *doc).len() && forall|
            k: int,
        | 0 <= k < vs@.len() ==> #[trigger] vs@[k] == found(query@, *doc)[k].0),
        !query_ok(query@) ==> (r matches Err(QueryError::Syntax(m)) && m@ == query_error_text(query@)),
        r matches Err(QueryError::Syntax(m)) ==> m@.len() > 0,
        is_root(query@) ==> (r matches Ok(vs) && vs@.len() == 1 && vs@[0] == *doc),
{
    match execute_query(doc, query) {
        Ok(ms) => {
            let ghost m0 = ms@;
            let vs = values_of(ms);
            assert forall|k: int| 0 <= k < vs@.len() implies #[trigger] vs@[k] == m0[k].value by {}
            Ok(vs)
        },
        Err(e) => Err(e),
    }
}

} // verus!
