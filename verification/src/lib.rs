//! In-memory, multi-key-indexed record store with query tracking.
//!
//! Tabular files (delimited text and spreadsheets) are ingested into a
//! record store keyed by each row's first column; every column value is
//! indexed for lookup.  Queries resolve a value to its record, count
//! usage, and append to a bounded history; each record can be verified
//! at most once.

pub mod clock;
pub mod codec;
pub mod sheet;
pub mod record;
pub mod store;
pub mod text;

use vstd::prelude::*;

verus! {

use vstd::string::StringExecFns;

/// True when `ext` (already lower-cased) is a supported data file extension.
pub open spec fn spec_supported_extension(ext: Seq<char>) -> bool {
    ext == "csv"@ || ext == "txt"@ || ext == "xlsx"@ || ext == "xls"@
}

/// Decides whether a directory entry with the given lower-case extension
/// takes part in a folder load at all; other extensions are ignored.
pub fn supported_extension(ext: &str) -> (r: bool)
    ensures
        r == spec_supported_extension(ext@),
{
    let e = ext.to_owned();
    e == String::from_str("csv") || e == String::from_str("txt") || e == String::from_str("xlsx")
        || e == String::from_str("xls")
}

} // verus!
