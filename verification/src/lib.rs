//! Requirements traceability.
//!
//! Logical units (requirements, models, implementations, verifications)
//! are found in prose and in source code, each under a hierarchical
//! identifier such as `FOO.1::BAR.2`. From the identifiers alone the
//! library infers which unit is the parent of which, builds the graph of a
//! set of units, and rewrites documents so that each definition of a unit
//! is anchored and each reference to a unit links to it.
//!
//! - [`grammar`] and [`parser`]: the identifiers, their text, and the
//!   markers `|id|` and `[id]` that define and refer to units.
//! - [`logical_unit`], [`luid`], [`repo`], [`context`]: the units and where
//!   they live.
//! - [`artifact`], [`pandoc`], [`parse`]: the units of a file.
//! - [`hierarchy`], [`graph`], [`site`]: the graph of a set of units, as
//!   DOT and as a site.
//! - [`markup`], [`dom`], [`linkify`]: documents, and their linkification.
//! - [`specs`]: sets of units without duplicates.

use vstd::prelude::*;

pub mod artifact;
pub mod cmd;
pub mod context;
pub mod decimal;
pub mod dom;
pub mod grammar;
pub mod graph;
pub mod hierarchy;
pub mod intf;
pub mod linkify;
pub mod locations;
pub mod logical_unit;
pub mod luid;
pub mod markup;
pub mod pandoc;
pub mod parse;
pub mod parser;
pub mod repo;
pub mod site;
pub mod specs;
pub mod text;
pub mod util;
