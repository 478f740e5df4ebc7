pub mod brave;
pub mod chrome;
pub mod history_db;
pub mod firefox;
pub mod safari;
pub mod snss;

use vstd::prelude::*;
use crate::model::BrowserKind;

verus! {

/// A browser whose tabs can be exported.
pub trait BrowserSource {
    fn kind(&self) -> BrowserKind;
}

/// The browsers this platform can export from: Firefox, Chrome and Brave
/// everywhere, Safari on macOS.
pub open spec fn platform_kinds(macos: bool) -> Seq<BrowserKind> {
    if macos {
        seq![BrowserKind::Firefox, BrowserKind::Chrome, BrowserKind::Brave, BrowserKind::Safari]
    } else {
        seq![BrowserKind::Firefox, BrowserKind::Chrome, BrowserKind::Brave]
    }
}

pub fn platform_sources(macos: bool) -> (kinds: Vec<BrowserKind>)
    ensures
        kinds@ == platform_kinds(macos),
{
    let mut kinds = vec![BrowserKind::Firefox, BrowserKind::Chrome, BrowserKind::Brave];
    if macos {
        kinds.push(BrowserKind::Safari);
    }
    proof {
        if macos {
            assert(kinds@ =~= platform_kinds(macos));
        } else {
            assert(kinds@ =~= platform_kinds(macos));
        }
    }
    kinds
}

pub fn contains_kind(kinds: &[BrowserKind], kind: BrowserKind) -> (r: bool)
    ensures
        r == kinds@.contains(kind),
{
    let n = kinds.len();
    for i in 0..n
        invariant
            n == kinds@.len(),
            forall|k: int| 0 <= k < i ==> kinds@[k] != kind,
    {
        if kinds[i] == kind {
            return true;
        }
    }
    false
}

/// With no browser requested, every available one is a source; otherwise the
/// requested ones that the platform has, available or not.
pub open spec fn selected_source(requested: Seq<BrowserKind>, source: (BrowserKind, bool)) -> bool {
    if requested.len() == 0 {
        source.1
    } else {
        requested.contains(source.0)
    }
}

pub open spec fn sources_of(requested: Seq<BrowserKind>, platform: Seq<(BrowserKind, bool)>) -> Seq<
    BrowserKind,
> {
    platform.filter_map(
        |s: (BrowserKind, bool)|
            if selected_source(requested, s) {
                Some(s.0)
            } else {
                None
            },
    )
}

/// The sources to export, in platform order, given each platform browser
/// together with whether a profile of it is installed.
pub fn get_sources(requested: &[BrowserKind], platform: &[(BrowserKind, bool)]) -> (sources: Vec<
    BrowserKind,
>)
    ensures
        sources@ == sources_of(requested@, platform@),
{
    let ghost f = |s: (BrowserKind, bool)|
        if selected_source(requested@, s) {
            Some(s.0)
        } else {
            None
        };
    let mut sources: Vec<BrowserKind> = Vec::new();
    let n = platform.len();
    for i in 0..n
        invariant
            n == platform@.len(),
            f == (|s: (BrowserKind, bool)|
                if selected_source(requested@, s) {
                    Some(s.0)
                } else {
                    None
                }),
            sources@ == platform@.take(i as int).filter_map(f),
    {
        proof {
            assert(platform@.take(i + 1).drop_last() =~= platform@.take(i as int));
            assert(platform@.take(i + 1).last() == platform@[i as int]);
        }
        let (kind, available) = platform[i];
        let selected = if requested.len() == 0 {
            available
        } else {
            contains_kind(requested, kind)
        };
        if selected {
            sources.push(kind);
        }
    }
    proof {
        assert(platform@.take(n as int) =~= platform@);
    }
    sources
}

} // verus!
