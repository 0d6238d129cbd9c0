//! Contexts on the command line.

use vstd::prelude::*;
use crate::text::{contains, holds_text, same_text};

verus! {

/// What can go wrong with a context.
#[derive(Debug, Clone, PartialEq, Eq)]
pub enum Error {
    /// A context of this name exists.
    ContextExists(String),
}

impl Error {
    pub fn to_string(&self) -> (r: String)
        ensures
            r@ == match self {
                Error::ContextExists(name) => "A context named "@ + name@ + " already exists"@,
            },
    {
        match self {
            Error::ContextExists(name) => {
                let mut r = "A context named ".to_owned();
                r.push_str(name.as_str());
                r.push_str(" already exists");
                r
            },
        }
    }
}

/// Whether the store refused a context because its name is taken.
pub fn is_name_taken(message: &str) -> (r: bool)
    ensures
        r == holds_text(message@, "UNIQUE constraint failed: context.name"@),
{
    contains(message, "UNIQUE constraint failed: context.name")
}

/// The line of a context in the list of contexts: the current context is
/// marked with a star.
pub open spec fn context_line(name: Seq<char>, current: Option<Seq<char>>) -> Seq<char> {
    (if current == Some(name) {
        "* "@
    } else {
        "  "@
    }) + name
}

/// The lines of the list of contexts, one for each name, in order.
pub fn list_lines(names: &Vec<String>, current: Option<&str>) -> (r: Vec<String>)
    ensures
        r@.len() == names@.len(),
        forall|i: int|
            0 <= i < names@.len() ==> (#[trigger] r@[i])@ == context_line(
                names@[i]@,
                crate::artifact::str_view(current),
            ),
{
    let mut r: Vec<String> = Vec::new();
    let mut i: usize = 0;
    while i < names.len()
        invariant
            i <= names.len(),
            r@.len() == i,
            forall|k: int|
                0 <= k < i ==> (#[trigger] r@[k])@ == context_line(
                    names@[k]@,
                    crate::artifact::str_view(current),
                ),
        decreases names.len() - i,
    {
        let is_current = match current {
            Some(c) => same_text(names[i].as_str(), c),
            None => false,
        };
        let mut line = if is_current {
            "* ".to_owned()
        } else {
            "  ".to_owned()
        };
        line.push_str(names[i].as_str());
        r.push(line);
        i += 1;
    }
    r
}

} // verus!
