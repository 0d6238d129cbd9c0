//! A context is a gathering of related artifact repositories.

use vstd::prelude::*;

verus! {

/// A named gathering of repositories.
#[derive(Debug, Clone, PartialEq, Eq, PartialOrd, Ord)]
pub struct Context {
    pub name: String,
}

impl Context {
    pub fn new(name: String) -> (r: Context)
        ensures
            r.name == name,
    {
        Context { name }
    }

    /// The name of the context.
    pub fn to_string(&self) -> (r: String)
        ensures
            r@ == self.name@,
    {
        self.name.clone()
    }
}

} // verus!
