//! The record encodings a caller can choose between, and the mapping from a
//! file extension to one of them. Reading the command line itself is the
//! caller's business; the library only decides what an extension means.

use vstd::prelude::*;

verus! {

/// An encoding of the record boundary.
#[derive(Clone, Copy, Debug, PartialEq, Eq, Structural)]
pub enum Format {
    CSV,
    TSV,
    JSON,
}

/// The format whose conventional (lower-case) file extension is `ext`.
pub open spec fn spec_format_of_extension(ext: Seq<char>) -> Option<Format> {
    if ext == "csv"@ {
        Some(Format::CSV)
    } else if ext == "tsv"@ {
        Some(Format::TSV)
    } else if ext == "json"@ {
        Some(Format::JSON)
    } else {
        None
    }
}

impl Format {
    /// Recognizes a lower-case file extension.
    pub fn from_extension(ext: &str) -> (r: Option<Format>)
        ensures
            r == spec_format_of_extension(ext@),
    {
        let s = ext.to_owned();
        if s == String::from_str("csv") {
            Some(Format::CSV)
        } else if s == String::from_str("tsv") {
            Some(Format::TSV)
        } else if s == String::from_str("json") {
            Some(Format::JSON)
        } else {
            None
        }
    }
}

} // verus!
