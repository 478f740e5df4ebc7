//! Brave: Chromium SNSS session files, read through [`crate::browser::snss`].
use vstd::prelude::*;
use crate::browser::BrowserSource;
use crate::model::BrowserKind;

verus! {

pub struct Brave;

impl BrowserSource for Brave {
    fn kind(&self) -> (k: BrowserKind)
        ensures
            k == BrowserKind::Brave,
    {
        BrowserKind::Brave
    }
}

} // verus!
