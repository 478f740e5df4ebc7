//! The library's error type.
use vstd::prelude::*;

verus! {

/// What can go wrong while exporting; each variant carries its message.
#[derive(Debug, Clone)]
pub enum BrowseWakeError {
    Io(String),
    Json(String),
    MozLz4(String),
    Lz4(String),
    Snss(String),
    Sqlite(String),
    NoProfile(String),
    Unsupported(String),
    Other(String),
}

} // verus!
