//! The free-text search resource: its handler calls the search pipeline
//! with the query and answers with the candidates and resolved Things.

use vstd::prelude::*;
use vstd::string::StringExecFns;

verus! {

/// The path the search resource is served under; the query text arrives as
/// a query parameter.
pub fn route() -> (r: String)
    ensures
        r@ == "/search"@,
{
    String::from_str("/search")
}

} // verus!
