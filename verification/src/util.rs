//! Helpers

use vstd::prelude::*;

verus! {

/// `some_if(cond, f)` is `Some(f())` if `cond` is `true`, or else `None`.
pub fn some_if<F, T>(cond: bool, f: F) -> (r: Option<T>) where F: FnOnce() -> T
    requires
        cond ==> f.requires(()),
    ensures
        cond ==> r is Some && f.ensures((), r.unwrap()),
        !cond ==> r is None,
{
    if !cond {
        None
    } else {
        Some(f())
    }
}

} // verus!
