//! Exports open browser tabs and their per-tab navigation history from
//! Firefox, Chrome, Brave and Safari session data.
pub mod browser;
pub mod error;
pub mod model;
pub mod output;
pub mod seqs;
pub mod sorted;

use vstd::prelude::*;
use crate::browser::contains_kind;
use crate::error::BrowseWakeError;
use crate::model::{BrowserKind, BrowserWindows, BrowserWindowsModel, NavModel, Tab, TabModel, VisitModel, Window, WindowModel, empty_tab_model, kind_name, navs_view, visits_view, windows_view};

verus! {

/// A requested browser can be exported when the platform has it and a profile
/// of it is installed.
pub open spec fn request_ok(k: BrowserKind, present: Seq<BrowserKind>, available: Seq<BrowserKind>) -> bool {
    present.contains(k) && available.contains(k)
}

/// The error for a requested browser that cannot be exported: unsupported when
/// the platform lacks it, otherwise no profile.
pub open spec fn request_error(e: BrowseWakeError, k: BrowserKind, present: Seq<BrowserKind>) -> bool {
    if !present.contains(k) {
        e matches BrowseWakeError::Unsupported(m) && m@ == kind_name(k)
    } else {
        e matches BrowseWakeError::NoProfile(m) && m@ == kind_name(k)
    }
}

/// Checks explicitly requested browsers: each must be supported on this
/// platform and installed; the first that is not gives the error.
pub fn validate_requested_browsers(
    requested: &[BrowserKind],
    present: &[BrowserKind],
    available: &[BrowserKind],
) -> (r: Result<(), BrowseWakeError>)
    ensures
        r is Ok <==> forall|i: int|
            0 <= i < requested@.len() ==> request_ok(#[trigger] requested@[i], present@, available@),
        r matches Err(e) ==> exists|i: int|
            0 <= i < requested@.len() && !request_ok(requested@[i], present@, available@) && (forall|
                j: int,
            | 0 <= j < i ==> request_ok(#[trigger] requested@[j], present@, available@))
                && request_error(e, requested@[i], present@),
{
    let n = requested.len();
    for i in 0..n
        invariant
            n == requested@.len(),
            forall|j: int| 0 <= j < i ==> request_ok(#[trigger] requested@[j], present@, available@),
    {
        let kind = requested[i];
        if !contains_kind(present, kind) {
            return Err(BrowseWakeError::Unsupported(kind.name()));
        }
        if !contains_kind(available, kind) {
            return Err(BrowseWakeError::NoProfile(kind.name()));
        }
    }
    Ok(())
}

/// With no browser requested, sources without an installed profile are skipped.
pub fn skip_source(requested: &[BrowserKind], available: bool) -> (skip: bool)
    ensures
        skip == (requested@.len() == 0 && !available),
{
    requested.len() == 0 && !available
}

/// A tab with its back/forward list, selection and visit history removed.
pub open spec fn tab_without_history(t: TabModel) -> TabModel {
    TabModel { history: Seq::empty(), current_index: None, deep_history: Seq::empty(), ..t }
}

pub open spec fn window_without_history(w: WindowModel) -> WindowModel {
    WindowModel { tabs: w.tabs.map_values(|t: TabModel| tab_without_history(t)) }
}

pub open spec fn browser_without_history(b: BrowserWindowsModel) -> BrowserWindowsModel {
    BrowserWindowsModel {
        browser: b.browser,
        windows: b.windows.map_values(|w: WindowModel| window_without_history(w)),
    }
}

/// Removing history twice is the same as removing it once.
pub proof fn lemma_strip_history_idempotent(b: BrowserWindowsModel)
    ensures
        browser_without_history(browser_without_history(b)) == browser_without_history(b),
{
    let once = browser_without_history(b);
    assert forall|i: int| 0 <= i < once.windows.len() implies #[trigger] window_without_history(
        once.windows[i],
    ) == once.windows[i] by {
        let w = once.windows[i];
        assert(w.tabs.map_values(|t: TabModel| tab_without_history(t)) =~= w.tabs);
    }
    assert(once.windows.map_values(|w: WindowModel| window_without_history(w)) =~= once.windows);
}

/// Removing history keeps the browser, its windows and their tabs, and each
/// tab's URL, title and tab id; it only empties each tab's back/forward list,
/// selection and visit history.
pub proof fn lemma_strip_history_keeps_pages(b: BrowserWindowsModel)
    ensures
        browser_without_history(b).browser == b.browser,
        browser_without_history(b).windows.len() == b.windows.len(),
        forall|i: int|
            0 <= i < b.windows.len() ==> (#[trigger] browser_without_history(b).windows[i]).tabs.len()
                == b.windows[i].tabs.len(),
        forall|i: int, j: int|
            0 <= i < b.windows.len() && 0 <= j < b.windows[i].tabs.len() ==> {
                let t = b.windows[i].tabs[j];
                let u = #[trigger] browser_without_history(b).windows[i].tabs[j];
                &&& u.url == t.url
                &&& u.title == t.title
                &&& u.tab_id == t.tab_id
                &&& u.history.len() == 0
                &&& u.current_index is None
                &&& u.deep_history.len() == 0
            },
{
}

fn blank_tab() -> (t: Tab)
    ensures
        t@ == empty_tab_model(),
{
    let t = Tab {
        url: String::new(),
        title: String::new(),
        history: Vec::new(),
        current_index: None,
        deep_history: Vec::new(),
        tab_id: None,
    };
    proof {
        assert(navs_view(t.history@) =~= Seq::<NavModel>::empty());
        assert(visits_view(t.deep_history@) =~= Seq::<VisitModel>::empty());
        assert(t@ =~= empty_tab_model());
    }
    t
}

/// Removes every tab's history, selection and visit history, keeping its URL,
/// title and tab id.
pub fn strip_history(bw: &mut BrowserWindows)
    ensures
        final(bw)@ == browser_without_history(old(bw)@),
{
    let ghost old_w = bw.windows@;
    let n = bw.windows.len();
    for i in 0..n
        invariant
            n == bw.windows@.len(),
            old_w.len() == n,
            bw.browser == old(bw).browser,
            old_w == old(bw).windows@,
            forall|k: int| 0 <= k < i ==> #[trigger] bw.windows@[k]@ == window_without_history(old_w[k]@),
            forall|k: int| i <= k < n ==> #[trigger] bw.windows@[k] == old_w[k],
    {
        let mut w = Window { tabs: Vec::new() };
        bw.windows.set_and_swap(i, &mut w);
        let ghost old_tabs = w.tabs@;
        let m = w.tabs.len();
        for j in 0..m
            invariant
                m == w.tabs@.len(),
                old_tabs.len() == m,
                forall|k: int| 0 <= k < j ==> #[trigger] w.tabs@[k]@ == tab_without_history(old_tabs[k]@),
                forall|k: int| j <= k < m ==> #[trigger] w.tabs@[k] == old_tabs[k],
        {
            let mut t = blank_tab();
            w.tabs.set_and_swap(j, &mut t);
            t.history = Vec::new();
            t.current_index = None;
            t.deep_history = Vec::new();
            proof {
                assert(crate::model::navs_view(t.history@) =~= Seq::<crate::model::NavModel>::empty());
                assert(crate::model::visits_view(t.deep_history@) =~= Seq::<crate::model::VisitModel>::empty());
            }
            w.tabs.set(j, t);
        }
        proof {
            assert(w@.tabs =~= old_tabs.map_values(|t: Tab| t@).map_values(
                |t: TabModel| tab_without_history(t),
            ));
        }
        bw.windows.set(i, w);
    }
    proof {
        assert(windows_view(bw.windows@) =~= windows_view(old_w).map_values(
            |w: WindowModel| window_without_history(w),
        ));
        assert(bw.browser == old(bw).browser);
        assert(old(bw)@.windows == windows_view(old_w));
    }
}

/// What became of one source's export.
pub enum ExportStep {
    /// Its windows were added.
    Added,
    /// It failed, and since it was not requested by name the export goes on.
    Warned(BrowseWakeError),
    /// A browser requested by name failed: the whole export fails with this error.
    Failed(BrowseWakeError),
}

/// Takes one source's outcome into the export: windows are added (without
/// history unless it is wanted); a failure ends the export when the browser was
/// requested by name and is otherwise only reported.
pub fn record_export(
    requested: &[BrowserKind],
    include_history: bool,
    kind: BrowserKind,
    outcome: Result<BrowserWindows, BrowseWakeError>,
    browsers: &mut Vec<BrowserWindows>,
) -> (step: ExportStep)
    ensures
        match outcome {
            Ok(bw) => {
                &&& step is Added
                &&& final(browsers)@.len() == old(browsers)@.len() + 1
                &&& final(browsers)@.take(old(browsers)@.len() as int) == old(browsers)@
                &&& final(browsers)@.last()@ == if include_history {
                    bw@
                } else {
                    browser_without_history(bw@)
                }
            },
            Err(e) => {
                &&& final(browsers)@ == old(browsers)@
                &&& if requested@.contains(kind) {
                    step == ExportStep::Failed(e)
                } else {
                    step == ExportStep::Warned(e)
                }
            },
        },
{
    match outcome {
        Ok(mut bw) => {
            if !include_history {
                strip_history(&mut bw);
            }
            let ghost before = browsers@;
            browsers.push(bw);
            proof {
                assert(browsers@.take(before.len() as int) =~= before);
            }
            ExportStep::Added
        },
        Err(e) => {
            if contains_kind(requested, kind) {
                ExportStep::Failed(e)
            } else {
                ExportStep::Warned(e)
            }
        },
    }
}

} // verus!
