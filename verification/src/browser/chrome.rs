//! Chrome: Chromium SNSS session files, read through [`crate::browser::snss`].
use vstd::prelude::*;
use crate::browser::BrowserSource;
use crate::model::BrowserKind;

verus! {

pub struct Chrome;

impl BrowserSource for Chrome {
    fn kind(&self) -> (k: BrowserKind)
        ensures
            k == BrowserKind::Chrome,
    {
        BrowserKind::Chrome
    }
}

} // verus!
