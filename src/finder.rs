//! A document kept for repeated queries.
use crate::path::{canonical_form, is_canonical, is_root};
use crate::query::{
    execute_query, find_data, find_paths, found, matches_found, query_error_text, query_ok, QueryError,
    QueryMatch,
};
use serde_json::Value;
use vstd::prelude::*;

verus! {

/// A JSON document to run queries on. The document does not change once
/// the finder holds it.
pub struct Finder {
    value: Value,
}

impl Finder {
    pub closed spec fn document(&self) -> Value {
        self.value
    }

    pub fn new(value: Value) -> (r: Finder)
        ensures
            r.document() == value,
    {
        Finder { value }
    }

    /// The document the queries run on.
    pub fn value(&self) -> (r: &Value)
        ensures
            *r == self.document(),
    {
        &self.value
    }

    /// Every match of `query`, with its value and canonical path: what
    /// `execute_query` gives on the held document.
    pub fn find(&self, query: &str) -> (r: Result<Vec<QueryMatch>, QueryError>)
        ensures
            query_ok(query@) ==> (r matches Ok(ms) && matches_found(
                ms@,
                found(query@, self.document()),
            )),
            !query_ok(query@) ==> (r matches Err(QueryError::Syntax(m)) && m@ == query_error_text(query@)),
            r matches Err(QueryError::Syntax(m)) ==> m@.len() > 0,
            r matches Ok(ms) ==> forall|k: int|
                0 <= k < ms@.len() ==> is_canonical(#[trigger] ms@[k].path@),
            is_root(query@) ==> (r matches Ok(ms) && ms@.len() == 1 && ms@[0].value
                == self.document() && is_root(ms@[0].path@)),
    {
        execute_query(&self.value, query)
    }

    /// The values that `query` finds in the held document.
    pub fn find_data(&self, query: &str) -> (r: Result<Vec<Value>, QueryError>)
        ensures
            query_ok(query@) ==> (r matches Ok(vs) && vs@.len() == found(
                query@,
                self.document(),
            ).len() && forall|k: int|
                0 <= k < vs@.len() ==> #[trigger] vs@[k] == found(query@, self.document())[k].0),
            !query_ok(query@) ==> (r matches Err(QueryError::Syntax(m)) && m@ == query_error_text(query@)),
            r matches Err(QueryError::Syntax(m)) ==> m@.len() > 0,
            is_root(query@) ==> (r matches Ok(vs) && vs@.len() == 1 && vs@[0] == self.document()),
    {
        find_data(&self.value, query)
    }

    /// The canonical paths of what `query` finds in the held document.
    pub fn find_absolute_path(&self, query: &str) -> (r: Result<Vec<String>, QueryError>)
        ensures
            query_ok(query@) ==> (r matches Ok(ps) && ps@.len() == found(
                query@,
                self.document(),
            ).len() && forall|k: int|
                0 <= k < ps@.len() ==> #[trigger] ps@[k]@ == canonical_form(
                    found(query@, self.document())[k].1,
                )),
            !query_ok(query@) ==> (r matches Err(QueryError::Syntax(m)) && m@ == query_error_text(query@)),
            r matches Err(QueryError::Syntax(m)) ==> m@.len() > 0,
            r matches Ok(ps) ==> forall|k: int|
                0 <= k < ps@.len() ==> is_canonical(#[trigger] ps@[k]@),
            is_root(query@) ==> (r matches Ok(ps) && ps@.len() == 1 && is_root(ps@[0]@)),
    {
        find_paths(&self.value, query)
    }
}

} // verus!
