//! Firefox: `recovery.jsonlz4` session files (mozlz4 framing around an LZ4
//! block holding the session JSON).
use vstd::prelude::*;
use crate::browser::BrowserSource;
use crate::error::BrowseWakeError;
use crate::model::{
    BrowserKind, NavEntry, NavModel, Tab, TabModel, VisitEntry, VisitModel, Window, WindowModel,
    navs_view, tabs_view, visits_view, windows_view,
};

verus! {

pub struct Firefox;

impl BrowserSource for Firefox {
    fn kind(&self) -> (k: BrowserKind)
        ensures
            k == BrowserKind::Firefox,
    {
        BrowserKind::Firefox
    }
}

// ---------------------------------------------------------------------------
// mozlz4 framing
// ---------------------------------------------------------------------------

/// What `lz4_flex::block::decompress` yields for a block and an output size:
/// the decompressed bytes, or `None` when it reports an error.
pub uninterp spec fn lz4_block(input: Seq<u8>, size: usize) -> Option<Seq<u8>>;

/// The decoder reads a long literal or match length as a run of `0xFF` bytes
/// ended by a smaller byte and adds them up in a `u32`: runs from this length on
/// could overflow that sum.
pub open spec fn ff_run_limit() -> int {
    16_843_008
}

/// `ff_run_limit()` consecutive `0xFF` bytes start at `i` in `s`.
pub open spec fn ff_run_at(s: Seq<u8>, i: int) -> bool {
    &&& 0 <= i
    &&& i + ff_run_limit() <= s.len()
    &&& forall|k: int| i <= k < i + ff_run_limit() ==> #[trigger] s[k] == 0xFFu8
}

/// `s` holds `ff_run_limit()` consecutive `0xFF` bytes somewhere.
pub open spec fn has_long_ff_run(s: Seq<u8>) -> bool {
    exists|i: int| #[trigger] ff_run_at(s, i)
}

/// Calls `lz4_flex::block::decompress`. Claims that the outcome is a function of
/// the block and the size alone, and that the output never exceeds the size (the
/// safe decoder writes into a buffer of that size and reports `OutputTooSmall`
/// rather than grow it). The error is handed on as its message. Its
/// length sums would overflow on a block with a very long run of `0xFF` bytes,
/// which `requires` leaves out.
#[verifier::external_body]
fn lz4_decompress_block(input: &[u8], min_uncompressed_size: usize) -> (r: Result<Vec<u8>, String>)
    requires
        !has_long_ff_run(input@),
    ensures
        r is Ok <==> lz4_block(input@, min_uncompressed_size) is Some,
        r matches Ok(v) ==> lz4_block(input@, min_uncompressed_size) == Some(v@) && v@.len()
            <= min_uncompressed_size,
{
    match lz4_flex::block::decompress(input, min_uncompressed_size) {
        Ok(v) => Ok(v),
        Err(e) => Err(e.to_string()),
    }
}

/// The mozlz4 magic `mozLz40\0`.
pub open spec fn has_mozlz4_magic(data: Seq<u8>) -> bool {
    &&& data[0] == 0x6du8
    &&& data[1] == 0x6fu8
    &&& data[2] == 0x7au8
    &&& data[3] == 0x4cu8
    &&& data[4] == 0x7au8
    &&& data[5] == 0x34u8
    &&& data[6] == 0x30u8
    &&& data[7] == 0x00u8
}

/// The uncompressed size recorded after the magic.
pub open spec fn mozlz4_size(data: Seq<u8>) -> int {
    data[8] as int + 256 * (data[9] as int) + 65536 * (data[10] as int) + 16777216 * (
    data[11] as int)
}

/// Finds a run of `ff_run_limit()` consecutive `0xFF` bytes.
fn find_long_ff_run(s: &[u8]) -> (r: bool)
    ensures
        r == has_long_ff_run(s@),
{
    let limit: usize = 16_843_008;
    let mut run: usize = 0;
    let n = s.len();
    for i in 0..n
        invariant
            n == s@.len(),
            limit == ff_run_limit(),
            run <= i,
            run < limit,
            forall|k: int| i - run <= k < i ==> s@[k] == 0xFFu8,
            i - run > 0 ==> s@[i - run - 1] != 0xFFu8,
            forall|j: int| j + ff_run_limit() <= i ==> !#[trigger] ff_run_at(s@, j),
    {
        if s[i] == 0xFF {
            run = run + 1;
            if run == limit {
                proof {
                    let j = i + 1 - ff_run_limit();
                    assert forall|k: int| j <= k < j + ff_run_limit() implies #[trigger] s@[k] == 0xFFu8 by {
                        if k < i {
                            assert(i - (run - 1) <= k);
                        }
                    }
                    assert(ff_run_at(s@, j));
                }
                return true;
            }
        } else {
            run = 0;
        }
        proof {
            assert forall|j: int| j + ff_run_limit() <= i + 1 implies !#[trigger] ff_run_at(s@, j) by {
                if j + ff_run_limit() == i + 1 && 0 <= j {
                    let p = i - run;
                    assert(j <= p <= i);
                    assert(s@[p] != 0xFFu8);
                }
            }
        }
    }
    proof {
        assert forall|j: int| !#[trigger] ff_run_at(s@, j) by {
            if j + ff_run_limit() > n {
            }
        }
    }
    false
}

/// Unwraps a mozlz4 file: magic, little-endian u32 uncompressed size, then an
/// LZ4 block. A block holding `ff_run_limit()` consecutive `0xFF` bytes
/// anywhere is refused as corrupt, before decoding: read as a length, such a
/// run would overflow the decoder's length sum, and this library does not
/// model where in a block the decoder reads lengths.
pub fn decompress_mozlz4(data: &[u8]) -> (r: Result<Vec<u8>, BrowseWakeError>)
    ensures
        data@.len() < 12 ==> (r matches Err(BrowseWakeError::MozLz4(m)) && m@ == "file too small"@),
        data@.len() >= 12 && !has_mozlz4_magic(data@) ==> (r matches Err(
            BrowseWakeError::MozLz4(m),
        ) && m@ == "invalid magic bytes"@),
        data@.len() >= 12 && has_mozlz4_magic(data@) && has_long_ff_run(data@.skip(12)) ==> (r matches Err(
            BrowseWakeError::Lz4(m),
        ) && m@ == "length run too long"@),
        data@.len() >= 12 && has_mozlz4_magic(data@) && !has_long_ff_run(data@.skip(12)) ==> match lz4_block(
            data@.skip(12),
            mozlz4_size(data@) as usize,
        ) {
            Some(out) => r matches Ok(v) && v@ == out,
            None => r matches Err(BrowseWakeError::Lz4(_)),
        },
{
    if data.len() < 12 {
        return Err(BrowseWakeError::MozLz4("file too small".to_owned()));
    }
    if !(data[0] == 0x6d && data[1] == 0x6f && data[2] == 0x7a && data[3] == 0x4c && data[4] == 0x7a
        && data[5] == 0x34 && data[6] == 0x30 && data[7] == 0x00) {
        return Err(BrowseWakeError::MozLz4("invalid magic bytes".to_owned()));
    }
    let uncompressed_size = (data[8] as u32 + (data[9] as u32) * 256 + (data[10] as u32) * 65536
        + (data[11] as u32) * 16777216) as usize;
    let compressed = &data[12..data.len()];
    assert(compressed@ == data@.skip(12));
    if find_long_ff_run(compressed) {
        return Err(BrowseWakeError::Lz4("length run too long".to_owned()));
    }
    match lz4_decompress_block(compressed, uncompressed_size) {
        Ok(v) => Ok(v),
        Err(msg) => Err(BrowseWakeError::Lz4(msg)),
    }
}

// ---------------------------------------------------------------------------
// Session JSON
// ---------------------------------------------------------------------------

/// A `windows[].tabs[].entries[]` item: `url` and `title` when they are strings.
pub struct SessionEntry {
    pub url: Option<String>,
    pub title: Option<String>,
}

/// A `windows[].tabs[]` item: `entries` when it is an array and `index` when it
/// is a non-negative integer.
pub struct SessionTab {
    pub entries: Option<Vec<SessionEntry>>,
    pub index: Option<u64>,
}

/// A `windows[]` item: `tabs` when it is an array.
pub struct SessionWindow {
    pub tabs: Option<Vec<SessionTab>>,
}

/// The session document: `windows` when it is an array.
pub struct SessionDoc {
    pub windows: Option<Vec<SessionWindow>>,
}

pub open spec fn str_or_empty(s: Option<String>) -> Seq<char> {
    match s {
        Some(s) => s@,
        None => Seq::empty(),
    }
}

/// The back/forward list: one entry per session entry, numbered from 0.
pub open spec fn entries_history(es: Seq<SessionEntry>) -> Seq<NavModel> {
    Seq::new(
        es.len(),
        |i: int| NavModel { url: str_or_empty(es[i].url), title: str_or_empty(es[i].title), index: i as usize },
    )
}

/// Firefox stores the selected entry 1-based; it becomes 0-based here.
pub open spec fn session_current_index(t: SessionTab) -> Option<usize> {
    match t.index {
        Some(i) => if (i as usize) == 0 {
            Some(0usize)
        } else {
            Some(((i as usize) - 1) as usize)
        },
        None => None,
    }
}

/// The tab a session tab becomes: it shows the selected entry when that exists
/// and the last one otherwise; a tab without entries is left out. A stored
/// selection past the last entry selects the last entry, so that the current
/// index always names the entry shown.
pub open spec fn session_tab(t: SessionTab) -> Option<TabModel> {
    match t.entries {
        None => None,
        Some(es) => {
            let h = entries_history(es@);
            let cur = session_current_index(t);
            let shown = match cur {
                Some(idx) => if idx < h.len() {
                    idx as int
                } else {
                    h.len() - 1
                },
                None => h.len() - 1,
            };
            if h.len() == 0 {
                None
            } else {
                Some(
                    TabModel {
                        url: h[shown].url,
                        title: h[shown].title,
                        history: h,
                        current_index: match cur {
                            Some(_) => Some(shown as usize),
                            None => None,
                        },
                        deep_history: Seq::empty(),
                        tab_id: None,
                    },
                )
            }
        },
    }
}

/// The current index of a Firefox tab names the history entry whose URL and
/// title the tab shows; without one the tab shows its last entry.
pub proof fn lemma_session_tab_current_names_entry(t: SessionTab)
    ensures
        session_tab(t) matches Some(tab) ==> match tab.current_index {
            Some(c) => c < tab.history.len() && tab.history[c as int].url == tab.url
                && tab.history[c as int].title == tab.title,
            None => tab.history.len() > 0 && tab.history.last().url == tab.url
                && tab.history.last().title == tab.title,
        },
{
}

/// A session window becomes a window when it has tabs to show.
pub open spec fn session_window(w: SessionWindow) -> Option<WindowModel> {
    match w.tabs {
        None => None,
        Some(ts) => {
            let tabs = ts@.filter_map(|t: SessionTab| session_tab(t));
            if tabs.len() > 0 {
                Some(WindowModel { tabs })
            } else {
                None
            }
        },
    }
}

pub open spec fn session_windows(ws: Seq<SessionWindow>) -> Seq<WindowModel> {
    ws.filter_map(|w: SessionWindow| session_window(w))
}

fn string_or_empty(s: &Option<String>) -> (r: String)
    ensures
        r@ == str_or_empty(*s),
{
    match s {
        Some(s) => s.clone(),
        None => String::new(),
    }
}

fn no_visits() -> (v: Vec<VisitEntry>)
    ensures
        visits_view(v@) == Seq::<VisitModel>::empty(),
{
    let v: Vec<VisitEntry> = Vec::new();
    assert(visits_view(v@) =~= Seq::<VisitModel>::empty());
    v
}

fn parse_tab(t: &SessionTab) -> (r: Option<Tab>)
    ensures
        match r {
            Some(tab) => session_tab(*t) == Some(tab@),
            None => session_tab(*t) is None,
        },
{
    let entries = match &t.entries {
        Some(e) => e,
        None => return None,
    };
    let current_index: Option<usize> = match t.index {
        Some(i) => {
            let i = i as usize;
            if i == 0 {
                Some(0)
            } else {
                Some(i - 1)
            }
        },
        None => None,
    };
    let ghost h = entries_history(entries@);
    let mut history: Vec<NavEntry> = Vec::new();
    let n = entries.len();
    for i in 0..n
        invariant
            n == entries@.len(),
            h == entries_history(entries@),
            history@.len() == i,
            forall|k: int| 0 <= k < i ==> #[trigger] history@[k]@ == h[k],
    {
        let e = &entries[i];
        history.push(
            NavEntry { url: string_or_empty(&e.url), title: string_or_empty(&e.title), index: i },
        );
    }
    proof {
        assert(navs_view(history@) =~= h);
    }
    if n == 0 {
        return None;
    }
    let shown = match current_index {
        Some(idx) => if idx < n {
            idx
        } else {
            n - 1
        },
        None => n - 1,
    };
    let url = history[shown].url.clone();
    let title = history[shown].title.clone();
    let current_index = match current_index {
        Some(_) => Some(shown),
        None => None,
    };
    Some(Tab { url, title, history, current_index, deep_history: no_visits(), tab_id: None })
}

fn parse_window(w: &SessionWindow) -> (r: Option<Window>)
    ensures
        match r {
            Some(win) => session_window(*w) == Some(win@),
            None => session_window(*w) is None,
        },
{
    let json_tabs = match &w.tabs {
        Some(t) => t,
        None => return None,
    };
    let ghost f = |t: SessionTab| session_tab(t);
    let mut tabs: Vec<Tab> = Vec::new();
    let n = json_tabs.len();
    for i in 0..n
        invariant
            n == json_tabs@.len(),
            f == (|t: SessionTab| session_tab(t)),
            tabs_view(tabs@) == json_tabs@.take(i as int).filter_map(f),
    {
        proof {
            assert(json_tabs@.take(i + 1).drop_last() =~= json_tabs@.take(i as int));
            assert(json_tabs@.take(i + 1).last() == json_tabs@[i as int]);
        }
        match parse_tab(&json_tabs[i]) {
            Some(tab) => {
                let ghost before = tabs@;
                tabs.push(tab);
                proof {
                    assert(tabs_view(tabs@) =~= tabs_view(before).push(tab@));
                }
            },
            None => {},
        }
    }
    proof {
        assert(json_tabs@.take(n as int) =~= json_tabs@);
    }
    if tabs.len() > 0 {
        Some(Window { tabs })
    } else {
        None
    }
}

/// The windows of a Firefox session: each window with at least one tab that has
/// entries. A document without a `windows` array is an error.
pub fn parse_session(session: &SessionDoc) -> (r: Result<Vec<Window>, BrowseWakeError>)
    ensures
        match session.windows {
            None => r matches Err(BrowseWakeError::MozLz4(m)) && m@ == "missing 'windows' array"@,
            Some(ws) => r matches Ok(windows) && windows_view(windows@) == session_windows(ws@),
        },
{
    let json_windows = match &session.windows {
        Some(w) => w,
        None => return Err(BrowseWakeError::MozLz4("missing 'windows' array".to_owned())),
    };
    let ghost f = |w: SessionWindow| session_window(w);
    let mut windows: Vec<Window> = Vec::new();
    let n = json_windows.len();
    for i in 0..n
        invariant
            n == json_windows@.len(),
            f == (|w: SessionWindow| session_window(w)),
            windows_view(windows@) == json_windows@.take(i as int).filter_map(f),
    {
        proof {
            assert(json_windows@.take(i + 1).drop_last() =~= json_windows@.take(i as int));
            assert(json_windows@.take(i + 1).last() == json_windows@[i as int]);
        }
        match parse_window(&json_windows[i]) {
            Some(w) => {
                let ghost before = windows@;
                windows.push(w);
                proof {
                    assert(windows_view(windows@) =~= windows_view(before).push(w@));
                }
            },
            None => {},
        }
    }
    proof {
        assert(json_windows@.take(n as int) =~= json_windows@);
    }
    Ok(windows)
}

} // verus!

verus! {

/// Each session window with a tab to show yields one window, in order, and no
/// other window yields any: adding a window to the end of a session adds its
/// window, if it has one, after those of the others.
pub proof fn lemma_session_windows_one_per_window(ws: Seq<SessionWindow>, w: SessionWindow)
    ensures
        session_windows(Seq::empty()).len() == 0,
        session_windows(ws.push(w)) == match session_window(w) {
            Some(x) => session_windows(ws).push(x),
            None => session_windows(ws),
        },
{
    let f = |v: SessionWindow| session_window(v);
    assert(ws.push(w).drop_last() =~= ws);
    assert(ws.push(w).last() == w);
    reveal_with_fuel(Seq::filter_map, 2);
    match session_window(w) {
        Some(x) => {
            assert(ws.filter_map(f) + seq![x] =~= ws.filter_map(f).push(x));
        },
        None => {},
    }
}

} // verus!
