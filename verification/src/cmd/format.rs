//! Formats for rendering units as data.

use vstd::prelude::*;
use crate::text::same_text;

verus! {

/// A format argument that is not supported.
#[derive(Debug, Clone, PartialEq, Eq)]
pub struct ParseFormatError(pub String);

impl ParseFormatError {
    /// A message that names the argument.
    pub fn to_string(&self) -> (r: String)
        ensures
            r@ == "unable to parse format "@ + self.0@,
    {
        let mut r = "unable to parse format ".to_owned();
        r.push_str(self.0.as_str());
        r
    }
}

/// Formats supported for rendering units as data.
#[derive(Debug, Clone, Copy, PartialEq, Eq, Structural)]
pub enum Format {
    Csv,
    Json,
}

impl Format {
    /// The name of the format, as the command line takes it.
    pub fn to_string(&self) -> (r: String)
        ensures
            r@ == match self {
                Format::Csv => "csv"@,
                Format::Json => "json"@,
            },
    {
        match self {
            Format::Csv => "csv".to_owned(),
            Format::Json => "json".to_owned(),
        }
    }

    /// The format that is named `s`: `csv` or `json`.
    ///
    /// Fails on any other name, with that name.
    pub fn from_str(s: &str) -> (r: Result<Format, ParseFormatError>)
        ensures
            match r {
                Ok(Format::Csv) => s@ == "csv"@,
                Ok(Format::Json) => s@ == "json"@,
                Err(e) => s@ != "csv"@ && s@ != "json"@ && e.0@ == s@,
            },
    {
        if same_text(s, "csv") {
            Ok(Format::Csv)
        } else if same_text(s, "json") {
            Ok(Format::Json)
        } else {
            Err(ParseFormatError(s.to_owned()))
        }
    }
}

impl Default for Format {
    fn default() -> (r: Format)
        ensures
            r == Format::Json,
    {
        Format::Json
    }
}

} // verus!
