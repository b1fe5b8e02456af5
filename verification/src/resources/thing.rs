//! The detail resource for one Thing: its handler fetches a single id and
//! answers not-found when nothing could be resolved for it.

use vstd::prelude::*;
use vstd::string::StringExecFns;

verus! {

/// The path the Thing detail resource is served under; the id arrives as a
/// query parameter.
pub fn route() -> (r: String)
    ensures
        r@ == "/thing"@,
{
    String::from_str("/thing")
}

} // verus!
