//! What the commands of the tool decide, apart from what they read and
//! print.

use vstd::prelude::*;

pub mod context;
pub mod format;
pub mod repo;
