//! Safari: current tabs only, as the scripting interface lists them.
use vstd::prelude::*;
use crate::browser::BrowserSource;
use crate::browser::firefox::{SessionEntry, str_or_empty};
use crate::model::{BrowserKind, NavEntry, NavModel, Tab, TabModel, VisitEntry, VisitModel, Window, WindowModel, navs_view, tabs_view, visits_view, windows_view};

verus! {

pub struct Safari;

impl BrowserSource for Safari {
    fn kind(&self) -> (k: BrowserKind)
        ensures
            k == BrowserKind::Safari,
    {
        BrowserKind::Safari
    }
}

/// A scripted tab: its URL and title (empty when not a string), no history.
pub open spec fn safari_tab(e: SessionEntry) -> TabModel {
    TabModel {
        url: str_or_empty(e.url),
        title: str_or_empty(e.title),
        history: Seq::empty(),
        current_index: None,
        deep_history: Seq::empty(),
        tab_id: None,
    }
}

/// A scripted window becomes a window when it has tabs.
pub open spec fn safari_window(tabs: Seq<SessionEntry>) -> Option<WindowModel> {
    if tabs.len() > 0 {
        Some(WindowModel { tabs: tabs.map_values(|e: SessionEntry| safari_tab(e)) })
    } else {
        None
    }
}

pub open spec fn safari_windows_of(jxa: Seq<Vec<SessionEntry>>) -> Seq<WindowModel> {
    jxa.filter_map(|w: Vec<SessionEntry>| safari_window(w@))
}

fn safari_tab_of(e: &SessionEntry) -> (t: Tab)
    ensures
        t@ == safari_tab(*e),
{
    let url = match &e.url {
        Some(s) => s.clone(),
        None => String::new(),
    };
    let title = match &e.title {
        Some(s) => s.clone(),
        None => String::new(),
    };
    let history: Vec<NavEntry> = Vec::new();
    let deep_history: Vec<VisitEntry> = Vec::new();
    proof {
        assert(navs_view(history@) =~= Seq::<NavModel>::empty());
        assert(visits_view(deep_history@) =~= Seq::<VisitModel>::empty());
    }
    Tab { url, title, history, current_index: None, deep_history, tab_id: None }
}

/// The windows reported by the scripting interface, each window a list of
/// (url, title) items; windows without tabs are left out.
pub fn safari_windows(jxa: &Vec<Vec<SessionEntry>>) -> (windows: Vec<Window>)
    ensures
        windows_view(windows@) == safari_windows_of(jxa@),
{
    let ghost f = |w: Vec<SessionEntry>| safari_window(w@);
    let mut windows: Vec<Window> = Vec::new();
    let n = jxa.len();
    for i in 0..n
        invariant
            n == jxa@.len(),
            f == (|w: Vec<SessionEntry>| safari_window(w@)),
            windows_view(windows@) == jxa@.take(i as int).filter_map(f),
    {
        proof {
            assert(jxa@.take(i + 1).drop_last() =~= jxa@.take(i as int));
            assert(jxa@.take(i + 1).last() == jxa@[i as int]);
        }
        let items = &jxa[i];
        let mut tabs: Vec<Tab> = Vec::new();
        let m = items.len();
        for j in 0..m
            invariant
                m == items@.len(),
                tabs@.len() == j,
                forall|k: int| 0 <= k < j ==> #[trigger] tabs@[k]@ == safari_tab(items@[k]),
        {
            tabs.push(safari_tab_of(&items[j]));
        }
        proof {
            assert(tabs_view(tabs@) =~= items@.map_values(|e: SessionEntry| safari_tab(e)));
        }
        if m > 0 {
            let ghost before = windows@;
            let w = Window { tabs };
            windows.push(w);
            proof {
                assert(windows_view(windows@) =~= windows_view(before).push(w@));
            }
        }
    }
    proof {
        assert(jxa@.take(n as int) =~= jxa@);
    }
    windows
}

} // verus!
