//! The branding assets: a directory of logos served statically, and an
//! index of their paths.

use vstd::prelude::*;
use vstd::string::StringExecFns;

verus! {

/// The path the logo files are served under.
pub fn route() -> (r: String)
    ensures
        r@ == "/logos"@,
{
    String::from_str("/logos")
}

/// The path of the logo index.
pub fn list_route() -> (r: String)
    ensures
        r@ == "/logos/index"@,
{
    String::from_str("/logos/index")
}

} // verus!
