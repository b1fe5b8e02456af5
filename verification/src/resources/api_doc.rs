//! The service document at the root of the service.

use vstd::prelude::*;
use vstd::string::StringExecFns;

verus! {

/// The path the service document is served under.
pub fn route() -> (r: String)
    ensures
        r@ == "/"@,
{
    String::from_str("/")
}

} // verus!
