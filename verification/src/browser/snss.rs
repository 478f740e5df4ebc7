//! Chromium SNSS session files: a `SNSS` header followed by a journal of
//! length-prefixed commands, replayed here into windows, tabs and per-tab
//! back/forward lists.
use vstd::prelude::*;
use vstd::utf8::*;
#[allow(unused_imports)]
use crate::error::BrowseWakeError;
use crate::model::{NavEntry, NavModel, Tab, TabModel, Window, WindowModel, navs_view, tabs_view, windows_view};
use crate::seqs::{lemma_filter_is_prefix, lemma_filter_is_suffix};
use crate::sorted::{strictly_sorted, strict_order, lemma_strictly_sorted_unique};

verus! {

// ---------------------------------------------------------------------------
// Little-endian fields
// ---------------------------------------------------------------------------

/// Unsigned 16-bit little-endian value at `off`.
pub open spec fn le_u16(b: Seq<u8>, off: int) -> int {
    b[off] as int + 256 * (b[off + 1] as int)
}

/// Unsigned 32-bit little-endian value at `off`.
pub open spec fn le_u32(b: Seq<u8>, off: int) -> int {
    b[off] as int + 256 * (b[off + 1] as int) + 65536 * (b[off + 2] as int) + 16777216 * (
    b[off + 3] as int)
}

/// Two's-complement 32-bit little-endian value at `off`.
pub open spec fn le_i32(b: Seq<u8>, off: int) -> int {
    let u = le_u32(b, off);
    if u < 0x8000_0000 {
        u
    } else {
        u - 0x1_0000_0000
    }
}

pub fn read_u16_le(data: &[u8], offset: usize) -> (r: Option<u16>)
    ensures
        r is Some <==> offset + 2 <= data@.len(),
        r matches Some(v) ==> v as int == le_u16(data@, offset as int),
{
    if offset <= data.len() && data.len() - offset >= 2 {
        Some(data[offset] as u16 + (data[offset + 1] as u16) * 256)
    } else {
        None
    }
}

pub fn read_u32_le(data: &[u8], offset: usize) -> (r: Option<u32>)
    ensures
        r is Some <==> offset + 4 <= data@.len(),
        r matches Some(v) ==> v as int == le_u32(data@, offset as int),
{
    if offset <= data.len() && data.len() - offset >= 4 {
        Some(
            data[offset] as u32 + (data[offset + 1] as u32) * 256 + (data[offset + 2] as u32)
                * 65536 + (data[offset + 3] as u32) * 16777216,
        )
    } else {
        None
    }
}

pub fn read_i32_le(data: &[u8], offset: usize) -> (r: Option<i32>)
    ensures
        r is Some <==> offset + 4 <= data@.len(),
        r matches Some(v) ==> v as int == le_i32(data@, offset as int),
{
    match read_u32_le(data, offset) {
        Some(u) => {
            if u < 0x8000_0000 {
                Some(u as i32)
            } else {
                Some(((u - 0x8000_0000) as i32) - 0x7fff_ffff - 1)
            }
        },
        None => None,
    }
}

// ---------------------------------------------------------------------------
// Text decoding
// ---------------------------------------------------------------------------

/// What `String::from_utf8_lossy` decodes from `bytes`.
pub uninterp spec fn utf8_lossy(bytes: Seq<u8>) -> Seq<char>;

/// What `String::from_utf16_lossy` decodes from `units`.
pub uninterp spec fn utf16_lossy(units: Seq<u16>) -> Seq<char>;

/// Calls `String::from_utf8_lossy`. Claims that the result is a function of the
/// bytes alone and, as std documents, that valid UTF-8 decodes unchanged.
#[verifier::external_body]
fn decode_utf8_lossy(bytes: &[u8]) -> (s: String)
    ensures
        s@ == utf8_lossy(bytes@),
        valid_utf8(bytes@) ==> s@ == decode_utf8(bytes@),
{
    String::from_utf8_lossy(bytes).into_owned()
}

pub open spec fn is_high_surrogate(u: u16) -> bool {
    0xD800 <= u <= 0xDBFF
}

pub open spec fn is_low_surrogate(u: u16) -> bool {
    0xDC00 <= u <= 0xDFFF
}

/// UTF-16 decoding: a unit outside the surrogates is that character, a high
/// surrogate followed by a low one is the character they encode together; any
/// other surrogate makes the text invalid (`None`).
pub open spec fn utf16_decode(units: Seq<u16>) -> Option<Seq<char>>
    decreases units.len(),
{
    if units.len() == 0 {
        Some(Seq::empty())
    } else if is_low_surrogate(units[0]) {
        None
    } else if is_high_surrogate(units[0]) {
        if units.len() >= 2 && is_low_surrogate(units[1]) {
            let c = (0x10000 + (units[0] - 0xD800) * 0x400 + (units[1] - 0xDC00)) as char;
            match utf16_decode(units.skip(2)) {
                Some(rest) => Some(seq![c] + rest),
                None => None,
            }
        } else {
            None
        }
    } else {
        match utf16_decode(units.skip(1)) {
            Some(rest) => Some(seq![units[0] as char] + rest),
            None => None,
        }
    }
}

/// Calls `String::from_utf16_lossy`. Claims that the result is a function of
/// the code units alone and, as std documents, that valid UTF-16 decodes to the
/// characters it encodes; what replaces invalid units is left unsaid.
#[verifier::external_body]
fn decode_utf16_lossy(units: &[u16]) -> (s: String)
    ensures
        s@ == utf16_lossy(units@),
        utf16_decode(units@) matches Some(t) ==> s@ == t,
{
    String::from_utf16_lossy(units)
}

/// The little-endian 16-bit code units held in `bytes` (a trailing odd byte is ignored).
pub open spec fn le_units(bytes: Seq<u8>) -> Seq<u16> {
    Seq::new((bytes.len() / 2) as nat, |i: int| le_u16(bytes, 2 * i) as u16)
}

fn units_from_le_bytes(bytes: &[u8]) -> (units: Vec<u16>)
    ensures
        units@ == le_units(bytes@),
{
    let mut units: Vec<u16> = Vec::new();
    let mut j: usize = 0;
    while j + 1 < bytes.len()
        invariant
            j <= bytes@.len(),
            j % 2 == 0,
            units@.len() == j / 2,
            forall|k: int| 0 <= k < j / 2 ==> units@[k] as int == le_u16(bytes@, 2 * k),
        decreases bytes@.len() - j,
    {
        let u = bytes[j] as u16 + (bytes[j + 1] as u16) * 256;
        units.push(u);
        j = j + 2;
    }
    assert(units@.len() == bytes@.len() / 2);
    assert(units@ =~= le_units(bytes@));
    units
}

// ---------------------------------------------------------------------------
// UpdateTabNavigation payload
// ---------------------------------------------------------------------------

/// A navigation entry decoded from an UpdateTabNavigation command.
pub struct SnssTab {
    pub id: i32,
    pub index: i32,
    pub url: String,
    pub title: String,
}

pub struct SnssTabModel {
    pub id: i32,
    pub index: i32,
    pub url: Seq<char>,
    pub title: Seq<char>,
}

impl View for SnssTab {
    type V = SnssTabModel;

    open spec fn view(&self) -> SnssTabModel {
        SnssTabModel { id: self.id, index: self.index, url: self.url@, title: self.title@ }
    }
}

pub open spec fn snss_tab_view(t: Option<SnssTab>) -> Option<SnssTabModel> {
    match t {
        Some(t) => Some(t@),
        None => None,
    }
}

/// The text of UTF-8 bytes: decoded exactly when they are valid UTF-8,
/// otherwise what lossy decoding gives.
pub open spec fn text_of_utf8(bytes: Seq<u8>) -> Seq<char> {
    if valid_utf8(bytes) {
        decode_utf8(bytes)
    } else {
        utf8_lossy(bytes)
    }
}

/// The text of UTF-16 units: decoded exactly when they are valid UTF-16,
/// otherwise what lossy decoding gives.
pub open spec fn text_of_utf16(units: Seq<u16>) -> Seq<char> {
    match utf16_decode(units) {
        Some(t) => t,
        None => utf16_lossy(units),
    }
}

/// `n` rounded up to a multiple of four.
pub open spec fn round_up4(n: int) -> int {
    (n + 3) / 4 * 4
}

/// The payload of an UpdateTabNavigation command: command id, four bytes of
/// padding, tab id, navigation index, a length-prefixed UTF-8 URL padded to four
/// bytes, then a length-prefixed (in UTF-16 units) UTF-16LE title.
pub open spec fn tab_command(cmd: Seq<u8>) -> Option<SnssTabModel> {
    if cmd.len() < 17 {
        None
    } else {
        let url_len = le_u32(cmd, 13);
        if 17 + url_len > cmd.len() {
            None
        } else {
            let p = 17 + round_up4(url_len);
            if p + 4 > cmd.len() {
                None
            } else {
                let q = p + 4;
                let title_bytes = 2 * le_u32(cmd, p);
                if q + title_bytes > cmd.len() {
                    None
                } else {
                    Some(
                        SnssTabModel {
                            id: le_i32(cmd, 5) as i32,
                            index: le_i32(cmd, 9) as i32,
                            url: text_of_utf8(cmd.subrange(17, 17 + url_len)),
                            title: text_of_utf16(le_units(cmd.subrange(q, q + title_bytes))),
                        },
                    )
                }
            }
        }
    }
}

pub fn parse_tab_command(cmd: &[u8]) -> (r: Option<SnssTab>)
    ensures
        snss_tab_view(r) == tab_command(cmd@),
{
    let id = match read_i32_le(cmd, 5) {
        Some(v) => v,
        None => return None,
    };
    let index = match read_i32_le(cmd, 9) {
        Some(v) => v,
        None => return None,
    };
    let url_len = match read_u32_le(cmd, 13) {
        Some(v) => v as usize,
        None => return None,
    };
    let mut p: usize = 17;
    if url_len > cmd.len() - p {
        return None;
    }
    let url = decode_utf8_lossy(&cmd[p..p + url_len]);
    let padded = (url_len + 3) / 4 * 4;
    if padded > cmd.len() - p {
        return None;
    }
    p = p + padded;
    let title_clen = match read_u32_le(cmd, p) {
        Some(v) => v as usize,
        None => return None,
    };
    p = p + 4;
    if title_clen > (cmd.len() - p) / 2 {
        return None;
    }
    let units = units_from_le_bytes(&cmd[p..p + 2 * title_clen]);
    let title = decode_utf16_lossy(units.as_slice());
    Some(SnssTab { id, index, url, title })
}

} // verus!

verus! {

// ---------------------------------------------------------------------------
// Per-tab journal state
// ---------------------------------------------------------------------------

/// What the journal has said so far about one tab. The order in which tabs
/// were first seen is their position in the list of states.
pub struct TabState {
    pub tab_id: i32,
    pub window_id: Option<i32>,
    pub visual_index: Option<i32>,
    pub selected_navigation_index: Option<i32>,
    /// Navigation entries, in the order in which they were first recorded.
    pub navs: Vec<NavEntry>,
}

pub struct TabStateModel {
    pub tab_id: i32,
    pub window_id: Option<i32>,
    pub visual_index: Option<i32>,
    pub selected: Option<i32>,
    pub navs: Seq<NavModel>,
}

impl View for TabState {
    type V = TabStateModel;

    open spec fn view(&self) -> TabStateModel {
        TabStateModel {
            tab_id: self.tab_id,
            window_id: self.window_id,
            visual_index: self.visual_index,
            selected: self.selected_navigation_index,
            navs: navs_view(self.navs@),
        }
    }
}

pub open spec fn states_view(v: Seq<TabState>) -> Seq<TabStateModel> {
    v.map_values(|s: TabState| s@)
}

/// A tab that the journal has just mentioned for the first time.
pub open spec fn fresh_state(id: i32) -> TabStateModel {
    TabStateModel {
        tab_id: id,
        window_id: None,
        visual_index: None,
        selected: None,
        navs: Seq::empty(),
    }
}

pub open spec fn below(bound: usize) -> spec_fn(NavModel) -> bool {
    |n: NavModel| n.index < bound
}

pub open spec fn above(bound: usize) -> spec_fn(NavModel) -> bool {
    |n: NavModel| n.index > bound
}

pub open spec fn at_least(bound: usize) -> spec_fn(NavModel) -> bool {
    |n: NavModel| n.index >= bound
}

pub open spec fn at_most(bound: usize) -> spec_fn(NavModel) -> bool {
    |n: NavModel| n.index <= bound
}

/// Position of the first entry with navigation index `idx`, or -1.
pub open spec fn nav_first(navs: Seq<NavModel>, idx: usize) -> int
    decreases navs.len(),
{
    if navs.len() == 0 {
        -1
    } else if navs[0].index == idx {
        0
    } else if nav_first(navs.drop_first(), idx) < 0 {
        -1
    } else {
        nav_first(navs.drop_first(), idx) + 1
    }
}

pub proof fn lemma_nav_first_range(navs: Seq<NavModel>, idx: usize)
    ensures
        -1 <= nav_first(navs, idx) < navs.len(),
        nav_first(navs, idx) >= 0 ==> navs[nav_first(navs, idx)].index == idx,
        forall|k: int|
            0 <= k < navs.len() && (nav_first(navs, idx) < 0 || k < nav_first(navs, idx))
                ==> #[trigger] navs[k].index != idx,
    decreases navs.len(),
{
    if navs.len() > 0 {
        lemma_nav_first_range(navs.drop_first(), idx);
        assert forall|k: int| 0 < k < navs.len() implies navs[k] == navs.drop_first()[k - 1] by {}
    }
}

/// The first entry with index `idx` stands at `j`.
proof fn lemma_nav_first_is(navs: Seq<NavModel>, idx: usize, j: int)
    requires
        0 <= j <= navs.len(),
        j < navs.len() ==> navs[j].index == idx,
        forall|k: int| 0 <= k < j ==> #[trigger] navs[k].index != idx,
    ensures
        nav_first(navs, idx) == if j < navs.len() {
            j
        } else {
            -1
        },
{
    lemma_nav_first_range(navs, idx);
    let r = nav_first(navs, idx);
    if r >= 0 {
        assert(navs[r].index == idx);
    }
    if j < navs.len() && r < 0 {
        assert(navs[j].index != idx);
    }
    if j < navs.len() && r > j {
        assert(navs[j].index != idx);
    }
}

/// Entry `e` recorded at its navigation index: it replaces the first entry
/// already at that index where that entry stands, and is appended after the
/// others when there is none.
pub open spec fn nav_put(s: Seq<NavModel>, e: NavModel) -> Seq<NavModel> {
    if nav_first(s, e.index) >= 0 {
        s.update(nav_first(s, e.index), e)
    } else {
        s.push(e)
    }
}

pub open spec fn shift_nav(n: NavModel, count: usize) -> NavModel {
    NavModel { url: n.url, title: n.title, index: (n.index - count) as usize }
}

pub open spec fn shifted_by(count: usize) -> spec_fn(NavModel) -> NavModel {
    |n: NavModel| shift_nav(n, count)
}

/// Entries at index `count` or later, renumbered to start `count` lower.
pub open spec fn nav_drop_front(s: Seq<NavModel>, count: usize) -> Seq<NavModel> {
    s.filter(at_least(count)).map_values(shifted_by(count))
}

/// UpdateTabNavigation: a negative index is ignored.
pub open spec fn nav_update(s: TabStateModel, index: i32, url: Seq<char>, title: Seq<char>) -> TabStateModel {
    if index < 0 {
        s
    } else {
        TabStateModel { navs: nav_put(s.navs, NavModel { url, title, index: index as usize }), ..s }
    }
}

/// TabNavigationPathPrunedFromBack: entries at `index` or later are dropped,
/// and so is a selection that pointed there.
pub open spec fn prune_back(s: TabStateModel, index: i32) -> TabStateModel {
    if index < 0 {
        s
    } else {
        TabStateModel {
            navs: s.navs.filter(below(index as usize)),
            selected: match s.selected {
                Some(sel) => if sel >= index {
                    None
                } else {
                    Some(sel)
                },
                None => None,
            },
            ..s
        }
    }
}

/// TabNavigationPathPrunedFromFront: the entries below index `count` are
/// dropped and the rest renumbered, the selection moving with them.
pub open spec fn prune_front(s: TabStateModel, count: i32) -> TabStateModel {
    if count <= 0 {
        s
    } else {
        TabStateModel {
            navs: nav_drop_front(s.navs, count as usize),
            selected: match s.selected {
                Some(sel) => if sel - count >= 0 {
                    Some((sel - count) as i32)
                } else {
                    None
                },
                None => None,
            },
            ..s
        }
    }
}

/// Recording an entry at a navigation index twice keeps only the later entry:
/// UpdateTabNavigation is last-write-wins.
pub proof fn lemma_update_last_write_wins(
    s: TabStateModel,
    index: i32,
    url1: Seq<char>,
    title1: Seq<char>,
    url2: Seq<char>,
    title2: Seq<char>,
)
    ensures
        nav_update(nav_update(s, index, url1, title1), index, url2, title2) == nav_update(
            s,
            index,
            url2,
            title2,
        ),
{
    if index >= 0 {
        let i = index as usize;
        let e1 = NavModel { url: url1, title: title1, index: i };
        let e2 = NavModel { url: url2, title: title2, index: i };
        let n = s.navs;
        lemma_nav_first_range(n, i);
        let p = nav_first(n, i);
        let n1 = nav_put(n, e1);
        if p >= 0 {
            assert forall|k: int| 0 <= k < p implies #[trigger] n1[k].index != i by {
                assert(n1[k] == n[k]);
            }
            lemma_nav_first_is(n1, i, p);
            assert(n1.update(p, e2) =~= n.update(p, e2));
        } else {
            assert forall|k: int| 0 <= k < n.len() implies #[trigger] n1[k].index != i by {
                assert(n1[k] == n[k]);
            }
            lemma_nav_first_is(n1, i, n.len() as int);
            assert(n1.update(n.len() as int, e2) =~= n.push(e2));
        }
    }
}

fn copy_nav(e: &NavEntry) -> (r: NavEntry)
    ensures
        r@ == e@,
{
    NavEntry { url: e.url.clone(), title: e.title.clone(), index: e.index }
}

/// UpdateTabNavigation: records `url` and `title` at navigation index `index`,
/// replacing the first entry already at that index where it stands, or
/// appending a new entry after the others. A negative index is ignored.
pub fn update_navigation_entry(tab_state: &mut TabState, index: i32, url: String, title: String)
    ensures
        final(tab_state)@ == nav_update(old(tab_state)@, index, url@, title@),
{
    if index < 0 {
        return ;
    }
    let idx = index as usize;
    let ghost s = navs_view(tab_state.navs@);
    let mut j: usize = 0;
    while j < tab_state.navs.len() && tab_state.navs[j].index != idx
        invariant
            j <= tab_state.navs@.len(),
            navs_view(tab_state.navs@) == s,
            forall|k: int| 0 <= k < j ==> #[trigger] s[k].index != idx,
        decreases tab_state.navs@.len() - j,
    {
        j = j + 1;
    }
    let e = NavEntry { url, title, index: idx };
    if j < tab_state.navs.len() {
        proof {
            lemma_nav_first_is(s, idx, j as int);
        }
        tab_state.navs.set(j, e);
        proof {
            assert(navs_view(tab_state.navs@) =~= s.update(j as int, e@));
        }
    } else {
        proof {
            lemma_nav_first_is(s, idx, j as int);
        }
        tab_state.navs.push(e);
        proof {
            assert(navs_view(tab_state.navs@) =~= s.push(e@));
        }
    }
}

/// TabNavigationPathPrunedFromBack: keeps, in their order, the entries below
/// `index`; a selection at or past `index` is cleared. A negative index is
/// ignored.
pub fn prune_navigation_path_from_back(tab_state: &mut TabState, index: i32)
    ensures
        final(tab_state)@ == prune_back(old(tab_state)@, index),
{
    if index < 0 {
        return ;
    }
    let cutoff = index as usize;
    let ghost s = navs_view(tab_state.navs@);
    let mut kept: Vec<NavEntry> = Vec::new();
    let n = tab_state.navs.len();
    for i in 0..n
        invariant
            n == tab_state.navs@.len(),
            s == navs_view(tab_state.navs@),
            navs_view(kept@) == s.take(i as int).filter(below(cutoff)),
    {
        proof {
            assert(s.take(i + 1) =~= s.take(i as int).push(s[i as int]));
            s.take(i as int).lemma_filter_push(s[i as int], below(cutoff));
        }
        if tab_state.navs[i].index < cutoff {
            let ghost before = kept@;
            let e = copy_nav(&tab_state.navs[i]);
            kept.push(e);
            proof {
                assert(navs_view(kept@) =~= navs_view(before).push(s[i as int]));
            }
        }
    }
    proof {
        assert(s.take(n as int) =~= s);
    }
    tab_state.navs = kept;
    match tab_state.selected_navigation_index {
        Some(selected) => {
            if selected >= index {
                tab_state.selected_navigation_index = None;
            }
        },
        None => {},
    }
}

/// TabNavigationPathPrunedFromFront: keeps, in their order, the entries at
/// `count` or later, renumbered to start `count` lower, and moves the
/// selection with them (clearing it when it falls below zero). A count of zero
/// or less is ignored.
pub fn prune_navigation_path_from_front(tab_state: &mut TabState, count: i32)
    ensures
        final(tab_state)@ == prune_front(old(tab_state)@, count),
{
    if count <= 0 {
        return ;
    }
    let c = count as usize;
    let ghost s = navs_view(tab_state.navs@);
    let mut kept: Vec<NavEntry> = Vec::new();
    let n = tab_state.navs.len();
    for i in 0..n
        invariant
            n == tab_state.navs@.len(),
            s == navs_view(tab_state.navs@),
            navs_view(kept@) == s.take(i as int).filter(at_least(c)).map_values(shifted_by(c)),
    {
        proof {
            assert(s.take(i + 1) =~= s.take(i as int).push(s[i as int]));
            s.take(i as int).lemma_filter_push(s[i as int], at_least(c));
        }
        if tab_state.navs[i].index >= c {
            let ghost before = kept@;
            let mut e = copy_nav(&tab_state.navs[i]);
            e.index = e.index - c;
            kept.push(e);
            proof {
                let f = s.take(i as int).filter(at_least(c));
                assert(f.push(s[i as int]).map_values(shifted_by(c)) =~= f.map_values(shifted_by(c)).push(
                    shift_nav(s[i as int], c),
                ));
                assert(navs_view(kept@) =~= navs_view(before).push(shift_nav(s[i as int], c)));
            }
        }
    }
    proof {
        assert(s.take(n as int) =~= s);
    }
    tab_state.navs = kept;
    match tab_state.selected_navigation_index {
        Some(selected) => {
            let shifted = selected as i64 - count as i64;
            if shifted >= 0 {
                tab_state.selected_navigation_index = Some(shifted as i32);
            } else {
                tab_state.selected_navigation_index = None;
            }
        },
        None => {},
    }
}

} // verus!

verus! {

// ---------------------------------------------------------------------------
// Replaying the journal
// ---------------------------------------------------------------------------

/// Position of the state for `id`, or -1 when the journal has not mentioned it.
pub open spec fn tab_pos(states: Seq<TabStateModel>, id: i32) -> int
    decreases states.len(),
{
    if states.len() == 0 {
        -1
    } else if states.last().tab_id == id {
        states.len() - 1
    } else {
        tab_pos(states.drop_last(), id)
    }
}

/// The states once `id` has been mentioned: a tab seen for the first time is
/// appended with nothing known about it.
pub open spec fn touched(states: Seq<TabStateModel>, id: i32) -> Seq<TabStateModel> {
    if tab_pos(states, id) >= 0 {
        states
    } else {
        states.push(fresh_state(id))
    }
}

/// Where the state for `id` stands in `touched(states, id)`.
pub open spec fn slot(states: Seq<TabStateModel>, id: i32) -> int {
    if tab_pos(states, id) >= 0 {
        tab_pos(states, id)
    } else {
        states.len() as int
    }
}

/// Applies `f` to the state for `id`, creating that state first if need be.
pub open spec fn modify(
    states: Seq<TabStateModel>,
    id: i32,
    f: spec_fn(TabStateModel) -> TabStateModel,
) -> Seq<TabStateModel> {
    let t = touched(states, id);
    let p = slot(states, id);
    t.update(p, f(t[p]))
}

pub proof fn lemma_tab_pos_range(states: Seq<TabStateModel>, id: i32)
    ensures
        -1 <= tab_pos(states, id) < states.len(),
        tab_pos(states, id) >= 0 ==> states[tab_pos(states, id)].tab_id == id,
    decreases states.len(),
{
    if states.len() > 0 {
        lemma_tab_pos_range(states.drop_last(), id);
    }
}

/// One command of a Session_* journal.
pub open spec fn apply_session(states: Seq<TabStateModel>, cmd: Seq<u8>) -> Seq<TabStateModel> {
    let id = cmd[0];
    if id == 0 && cmd.len() >= 9 {
        let window_id = le_i32(cmd, 1) as i32;
        modify(
            states,
            le_i32(cmd, 5) as i32,
            |s: TabStateModel| TabStateModel { window_id: Some(window_id), ..s },
        )
    } else if id == 2 && cmd.len() >= 9 {
        let visual = le_i32(cmd, 5) as i32;
        modify(
            states,
            le_i32(cmd, 1) as i32,
            |s: TabStateModel| TabStateModel { visual_index: Some(visual), ..s },
        )
    } else if id == 5 && cmd.len() >= 9 {
        let index = le_i32(cmd, 5) as i32;
        modify(states, le_i32(cmd, 1) as i32, |s: TabStateModel| prune_back(s, index))
    } else if id == 6 {
        match tab_command(cmd) {
            Some(t) => modify(
                states,
                t.id,
                |s: TabStateModel| nav_update(s, t.index, t.url, t.title),
            ),
            None => states,
        }
    } else if id == 7 && cmd.len() >= 9 {
        let selected = le_i32(cmd, 5) as i32;
        modify(
            states,
            le_i32(cmd, 1) as i32,
            |s: TabStateModel| TabStateModel { selected: Some(selected), ..s },
        )
    } else if id == 11 && cmd.len() >= 9 {
        let count = le_i32(cmd, 5) as i32;
        modify(states, le_i32(cmd, 1) as i32, |s: TabStateModel| prune_front(s, count))
    } else {
        states
    }
}

/// One command of a Tabs_* snapshot, where only UpdateTabNavigation (id 1) counts.
pub open spec fn apply_tabs(states: Seq<TabStateModel>, cmd: Seq<u8>) -> Seq<TabStateModel> {
    if cmd[0] == 1 {
        match tab_command(cmd) {
            Some(t) => modify(
                states,
                t.id,
                |s: TabStateModel| nav_update(s, t.index, t.url, t.title),
            ),
            None => states,
        }
    } else {
        states
    }
}

/// Replays the commands from `offset` on. A command is a little-endian u16
/// length followed by that many bytes; the journal ends at the first empty or
/// truncated command.
pub open spec fn replay(data: Seq<u8>, offset: int, states: Seq<TabStateModel>, session: bool) -> Seq<
    TabStateModel,
>
    decreases data.len() - offset,
{
    if offset < 0 || offset + 2 > data.len() {
        states
    } else {
        let len = le_u16(data, offset);
        if len == 0 || offset + 2 + len > data.len() {
            states
        } else {
            let cmd = data.subrange(offset + 2, offset + 2 + len);
            replay(
                data,
                offset + 2 + len,
                if session {
                    apply_session(states, cmd)
                } else {
                    apply_tabs(states, cmd)
                },
                session,
            )
        }
    }
}

/// A file starts with the `SNSS` magic and a 4-byte version.
pub open spec fn has_snss_header(data: Seq<u8>) -> bool {
    &&& data.len() >= 8
    &&& data[0] == 0x53u8
    &&& data[1] == 0x4eu8
    &&& data[2] == 0x53u8
    &&& data[3] == 0x53u8
}

/// The tab states a Session_* file leaves behind.
pub open spec fn session_states(data: Seq<u8>) -> Seq<TabStateModel> {
    replay(data, 8, Seq::empty(), true)
}

/// The tab states a Tabs_* file leaves behind.
pub open spec fn tabs_file_states(data: Seq<u8>) -> Seq<TabStateModel> {
    replay(data, 8, Seq::empty(), false)
}

fn empty_state(tab_id: i32) -> (s: TabState)
    ensures
        s@ == fresh_state(tab_id),
{
    let s = TabState {
        tab_id,
        window_id: None,
        visual_index: None,
        selected_navigation_index: None,
        navs: Vec::new(),
    };
    proof {
        assert(navs_view(s.navs@) =~= Seq::<NavModel>::empty());
    }
    s
}

/// Position of the state for `tab_id`, appending a fresh one if the tab is new.
pub fn get_or_insert_tab_state(tab_states: &mut Vec<TabState>, tab_id: i32) -> (p: usize)
    ensures
        states_view(final(tab_states)@) == touched(states_view(old(tab_states)@), tab_id),
        p == slot(states_view(old(tab_states)@), tab_id),
        p < final(tab_states)@.len(),
{
    let ghost sv = states_view(tab_states@);
    let mut i = tab_states.len();
    proof {
        assert(sv.take(sv.len() as int) =~= sv);
    }
    while i > 0
        invariant
            i <= tab_states@.len(),
            sv == states_view(tab_states@),
            tab_pos(sv, tab_id) == tab_pos(sv.take(i as int), tab_id),
        decreases i,
    {
        proof {
            assert(sv.take(i as int).drop_last() =~= sv.take(i - 1));
        }
        if tab_states[i - 1].tab_id == tab_id {
            proof {
                assert(sv.take(i as int).last() == sv[i - 1]);
                assert(sv[i - 1].tab_id == tab_id);
                lemma_tab_pos_range(sv, tab_id);
            }
            return i - 1;
        }
        i = i - 1;
    }
    proof {
        assert(sv.take(0) =~= Seq::<TabStateModel>::empty());
    }
    let n = tab_states.len();
    tab_states.push(empty_state(tab_id));
    proof {
        assert(states_view(tab_states@) =~= sv.push(fresh_state(tab_id)));
    }
    n
}

/// Moves the state at `p` out, leaving an empty one in its place.
fn take_state(tab_states: &mut Vec<TabState>, p: usize) -> (st: TabState)
    requires
        p < old(tab_states)@.len(),
    ensures
        st == old(tab_states)@[p as int],
        final(tab_states)@.len() == old(tab_states)@.len(),
        forall|k: int|
            0 <= k < final(tab_states)@.len() && k != p ==> #[trigger] final(tab_states)@[k]
                == old(tab_states)@[k],
{
    let mut st = empty_state(0);
    tab_states.set_and_swap(p, &mut st);
    st
}

/// Replaces the state at `p`.
fn put_state(tab_states: &mut Vec<TabState>, p: usize, st: TabState)
    requires
        p < old(tab_states)@.len(),
    ensures
        final(tab_states)@ == old(tab_states)@.update(p as int, st),
{
    tab_states.set(p, st);
}

/// Applies one command of a Session_* journal.
fn apply_session_command(tab_states: &mut Vec<TabState>, cmd: &[u8])
    requires
        cmd@.len() > 0,
    ensures
        states_view(final(tab_states)@) == apply_session(states_view(old(tab_states)@), cmd@),
{
    let ghost sv = states_view(tab_states@);
    let cmd_id = cmd[0];
    if cmd_id == 0 && cmd.len() >= 9 {
        // SetTabWindow: u8 cmd_id, i32 window_id, i32 tab_id
        let window_id = read_i32_le(cmd, 1).unwrap();
        let tab_id = read_i32_le(cmd, 5).unwrap();
        let p = get_or_insert_tab_state(tab_states, tab_id);
        let ghost t = states_view(tab_states@);
        let mut st = take_state(tab_states, p);
        st.window_id = Some(window_id);
        put_state(tab_states, p, st);
        proof {
            assert(states_view(tab_states@) =~= t.update(
                p as int,
                TabStateModel { window_id: Some(window_id), ..t[p as int] },
            ));
        }
    } else if cmd_id == 2 && cmd.len() >= 9 {
        // SetTabIndexInWindow: u8 cmd_id, i32 tab_id, i32 visual_index
        let tab_id = read_i32_le(cmd, 1).unwrap();
        let visual_index = read_i32_le(cmd, 5).unwrap();
        let p = get_or_insert_tab_state(tab_states, tab_id);
        let ghost t = states_view(tab_states@);
        let mut st = take_state(tab_states, p);
        st.visual_index = Some(visual_index);
        put_state(tab_states, p, st);
        proof {
            assert(states_view(tab_states@) =~= t.update(
                p as int,
                TabStateModel { visual_index: Some(visual_index), ..t[p as int] },
            ));
        }
    } else if cmd_id == 5 && cmd.len() >= 9 {
        // TabNavigationPathPrunedFromBack: u8 cmd_id, i32 tab_id, i32 index
        let tab_id = read_i32_le(cmd, 1).unwrap();
        let index = read_i32_le(cmd, 5).unwrap();
        let p = get_or_insert_tab_state(tab_states, tab_id);
        let ghost t = states_view(tab_states@);
        let mut st = take_state(tab_states, p);
        assert(st@ == t[p as int]);
        prune_navigation_path_from_back(&mut st, index);
        put_state(tab_states, p, st);
        proof {
            assert(states_view(tab_states@) =~= t.update(p as int, prune_back(t[p as int], index)));
        }
    } else if cmd_id == 6 {
        // UpdateTabNavigation
        match parse_tab_command(cmd) {
            Some(tab) => {
                let p = get_or_insert_tab_state(tab_states, tab.id);
                let ghost t = states_view(tab_states@);
                let mut st = take_state(tab_states, p);
                assert(st@ == t[p as int]);
                update_navigation_entry(&mut st, tab.index, tab.url, tab.title);
                put_state(tab_states, p, st);
                proof {
                    assert(states_view(tab_states@) =~= t.update(
                        p as int,
                        nav_update(t[p as int], tab.index, tab.url@, tab.title@),
                    ));
                }
            },
            None => {},
        }
    } else if cmd_id == 7 && cmd.len() >= 9 {
        // SetSelectedNavigationIndex: u8 cmd_id, i32 tab_id, i32 index
        let tab_id = read_i32_le(cmd, 1).unwrap();
        let index = read_i32_le(cmd, 5).unwrap();
        let p = get_or_insert_tab_state(tab_states, tab_id);
        let ghost t = states_view(tab_states@);
        let mut st = take_state(tab_states, p);
        st.selected_navigation_index = Some(index);
        put_state(tab_states, p, st);
        proof {
            assert(states_view(tab_states@) =~= t.update(
                p as int,
                TabStateModel { selected: Some(index), ..t[p as int] },
            ));
        }
    } else if cmd_id == 11 && cmd.len() >= 9 {
        // TabNavigationPathPrunedFromFront: u8 cmd_id, i32 tab_id, i32 count
        let tab_id = read_i32_le(cmd, 1).unwrap();
        let count = read_i32_le(cmd, 5).unwrap();
        let p = get_or_insert_tab_state(tab_states, tab_id);
        let ghost t = states_view(tab_states@);
        let mut st = take_state(tab_states, p);
        assert(st@ == t[p as int]);
        prune_navigation_path_from_front(&mut st, count);
        put_state(tab_states, p, st);
        proof {
            assert(states_view(tab_states@) =~= t.update(p as int, prune_front(t[p as int], count)));
        }
    }
}

/// Applies one command of a Tabs_* snapshot.
fn apply_tabs_command(tab_states: &mut Vec<TabState>, cmd: &[u8])
    requires
        cmd@.len() > 0,
    ensures
        states_view(final(tab_states)@) == apply_tabs(states_view(old(tab_states)@), cmd@),
{
    if cmd[0] == 1 {
        match parse_tab_command(cmd) {
            Some(tab) => {
                let p = get_or_insert_tab_state(tab_states, tab.id);
                let ghost t = states_view(tab_states@);
                let mut st = take_state(tab_states, p);
                assert(st@ == t[p as int]);
                update_navigation_entry(&mut st, tab.index, tab.url, tab.title);
                put_state(tab_states, p, st);
                proof {
                    assert(states_view(tab_states@) =~= t.update(
                        p as int,
                        nav_update(t[p as int], tab.index, tab.url@, tab.title@),
                    ));
                }
            },
            None => {},
        }
    }
}

/// Replays the whole journal of a file whose header has been checked.
fn replay_commands(data: &[u8], session: bool) -> (tab_states: Vec<TabState>)
    requires
        data@.len() >= 8,
    ensures
        states_view(tab_states@) == replay(data@, 8, Seq::empty(), session),
{
    let mut tab_states: Vec<TabState> = Vec::new();
    let mut offset: usize = 8;
    proof {
        assert(states_view(tab_states@) =~= Seq::<TabStateModel>::empty());
    }
    while offset <= data.len() && data.len() - offset >= 2
        invariant
            8 <= offset <= data@.len(),
            replay(data@, 8, Seq::empty(), session) == replay(
                data@,
                offset as int,
                states_view(tab_states@),
                session,
            ),
        ensures
            replay(data@, 8, Seq::empty(), session) == states_view(tab_states@),
        decreases data@.len() - offset,
    {
        let cmd_len = read_u16_le(data, offset).unwrap() as usize;
        if cmd_len == 0 || cmd_len > data.len() - offset - 2 {
            break ;
        }
        let cmd = &data[offset + 2..offset + 2 + cmd_len];
        if session {
            apply_session_command(&mut tab_states, cmd);
        } else {
            apply_tabs_command(&mut tab_states, cmd);
        }
        offset = offset + 2 + cmd_len;
    }
    tab_states
}

fn has_snss_magic(data: &[u8]) -> (b: bool)
    ensures
        b == has_snss_header(data@),
{
    data.len() >= 8 && data[0] == 0x53 && data[1] == 0x4e && data[2] == 0x53 && data[3] == 0x53
}

} // verus!

verus! {

// ---------------------------------------------------------------------------
// From tab states to tabs and windows
// ---------------------------------------------------------------------------

/// Navigation indices never decrease along the list.
pub open spec fn nav_ordered(s: Seq<NavModel>) -> bool {
    forall|i: int, j: int| 0 <= i < j < s.len() ==> #[trigger] s[i].index <= #[trigger] s[j].index
}

/// Entry `e` inserted after every entry whose index is at most its own.
pub open spec fn nav_insert(h: Seq<NavModel>, e: NavModel) -> Seq<NavModel> {
    h.filter(at_most(e.index)).push(e) + h.filter(above(e.index))
}

/// The entries in ascending order of navigation index; entries with the same
/// index keep their order (a stable sort).
pub open spec fn nav_sort(s: Seq<NavModel>) -> Seq<NavModel>
    decreases s.len(),
{
    if s.len() == 0 {
        s
    } else {
        nav_insert(nav_sort(s.drop_last()), s.last())
    }
}

proof fn lemma_filter_ordered(h: Seq<NavModel>, pred: spec_fn(NavModel) -> bool)
    requires
        nav_ordered(h),
    ensures
        nav_ordered(h.filter(pred)),
        forall|i: int| 0 <= i < h.filter(pred).len() ==> h.contains(#[trigger] h.filter(pred)[i]),
    decreases h.len(),
{
    reveal(Seq::filter);
    if h.len() > 0 {
        let d = h.drop_last();
        assert forall|i: int, j: int| 0 <= i < j < d.len() implies #[trigger] d[i].index <= #[trigger] d[j].index by {
            assert(d[i] == h[i] && d[j] == h[j]);
        }
        lemma_filter_ordered(d, pred);
        let f = h.filter(pred);
        let fd = d.filter(pred);
        assert forall|i: int| 0 <= i < fd.len() implies h.contains(#[trigger] fd[i]) by {
            let k = choose|k: int| 0 <= k < d.len() && d[k] == fd[i];
            assert(h[k] == fd[i]);
        }
        if pred(h.last()) {
            assert(f == fd.push(h.last()));
            assert forall|i: int, j: int| 0 <= i < j < f.len() implies #[trigger] f[i].index <= #[trigger] f[j].index by {
                if j == f.len() - 1 && i < fd.len() {
                    let k = choose|k: int| 0 <= k < h.len() && h[k] == fd[i];
                    if k < h.len() - 1 {
                        assert(h[k].index <= h[h.len() - 1].index);
                    }
                } else if j < fd.len() {
                    assert(f[i] == fd[i] && f[j] == fd[j]);
                }
            }
            assert forall|i: int| 0 <= i < f.len() implies h.contains(#[trigger] f[i]) by {
                if i < fd.len() {
                    assert(f[i] == fd[i]);
                } else {
                    assert(f[i] == h[h.len() - 1]);
                }
            }
        } else {
            assert(f == fd);
        }
    }
}

/// Sorting leaves the entries in ascending order of navigation index.
pub proof fn lemma_nav_sort_ordered(s: Seq<NavModel>)
    ensures
        nav_ordered(nav_sort(s)),
    decreases s.len(),
{
    if s.len() > 0 {
        lemma_nav_sort_ordered(s.drop_last());
        let h = nav_sort(s.drop_last());
        let e = s.last();
        let x = e.index;
        let lo = h.filter(at_most(x));
        let hi = h.filter(above(x));
        lemma_filter_ordered(h, at_most(x));
        lemma_filter_ordered(h, above(x));
        assert forall|i: int| 0 <= i < lo.len() implies #[trigger] lo[i].index <= x by {
            h.lemma_filter_pred(at_most(x), i);
        }
        assert forall|i: int| 0 <= i < hi.len() implies #[trigger] hi[i].index > x by {
            h.lemma_filter_pred(above(x), i);
        }
        let r = lo.push(e) + hi;
        assert forall|i: int, j: int| 0 <= i < j < r.len() implies #[trigger] r[i].index <= #[trigger] r[j].index by {
            if j < lo.len() {
                assert(r[i] == lo[i] && r[j] == lo[j]);
            } else if j == lo.len() {
                assert(r[i] == lo[i]);
            } else if i < lo.len() {
                assert(r[i] == lo[i] && r[j] == hi[j - lo.len() - 1]);
            } else if i == lo.len() {
                assert(r[j] == hi[j - lo.len() - 1]);
            } else {
                assert(r[i] == hi[i - lo.len() - 1] && r[j] == hi[j - lo.len() - 1]);
            }
        }
    }
}

/// The index a tab's history selects: the stored selection when an entry has
/// that index, otherwise the last entry's.
pub open spec fn current_of(h: Seq<NavModel>, selected: Option<i32>) -> Option<usize> {
    let by_selection = match selected {
        Some(sel) => nav_first(h, sel as usize) >= 0,
        None => false,
    };
    if by_selection {
        Some(selected.unwrap() as usize)
    } else if h.len() > 0 {
        Some(h.last().index)
    } else {
        None
    }
}

/// The entry a tab shows: the first entry with the current index.
pub open spec fn shown_of(h: Seq<NavModel>, cur: Option<usize>) -> Option<NavModel> {
    match cur {
        Some(c) => if nav_first(h, c) >= 0 {
            Some(h[nav_first(h, c)])
        } else {
            None
        },
        None => None,
    }
}

/// The tab built from a tab's state: its history sorted by navigation index,
/// the current index, and the URL and title of the entry shown (empty when
/// there is none).
pub open spec fn tab_of(s: TabStateModel) -> TabModel {
    let h = nav_sort(s.navs);
    let cur = current_of(h, s.selected);
    let shown = shown_of(h, cur);
    TabModel {
        url: match shown {
            Some(n) => n.url,
            None => Seq::empty(),
        },
        title: match shown {
            Some(n) => n.title,
            None => Seq::empty(),
        },
        history: h,
        current_index: cur,
        deep_history: Seq::empty(),
        tab_id: Some(s.tab_id),
    }
}

/// The visual index a tab is ordered by; tabs without one come last.
pub open spec fn visual_key(s: TabStateModel) -> int {
    match s.visual_index {
        Some(v) => v as int,
        None => 0x7fff_ffff,
    }
}

/// Tab order within a window: by visual index, then by the order in which the
/// journal first mentioned the tab (its position among the states).
pub open spec fn tab_before(states: Seq<TabStateModel>) -> spec_fn(int, int) -> bool {
    |p: int, q: int|
        visual_key(states[p]) < visual_key(states[q]) || (visual_key(states[p]) == visual_key(
            states[q],
        ) && p < q)
}

/// Positions of the tabs assigned to window `w` (`None`: no window).
pub open spec fn members(states: Seq<TabStateModel>, w: Option<i32>) -> Set<int> {
    Set::new(|p: int| 0 <= p < states.len() && states[p].window_id == w)
}

/// The positions of a window's tabs in tab order.
pub open spec fn tab_order(states: Seq<TabStateModel>, w: Option<i32>) -> Seq<int> {
    choose|ps: Seq<int>|
        strictly_sorted(ps, tab_before(states)) && ps.to_set() == members(states, w)
}

/// The tabs of window `w`, in tab order, leaving out tabs without a URL.
pub open spec fn group_tabs(states: Seq<TabStateModel>, w: Option<i32>) -> Seq<TabModel> {
    tab_order(states, w).filter_map(tab_with_url(states))
}

/// The tab at position `p`, if it has a URL.
pub open spec fn tab_with_url(states: Seq<TabStateModel>) -> spec_fn(int) -> Option<TabModel> {
    |p: int|
        if tab_of(states[p]).url.len() > 0 {
            Some(tab_of(states[p]))
        } else {
            None
        }
}

pub open spec fn int_lt() -> spec_fn(i32, i32) -> bool {
    |a: i32, b: i32| a < b
}

/// The windows that some tab is assigned to.
pub open spec fn window_set(states: Seq<TabStateModel>) -> Set<i32> {
    Set::new(|w: i32| exists|p: int| 0 <= p < states.len() && states[p].window_id == Some(w))
}

/// Window ids in ascending order.
pub open spec fn window_order(states: Seq<TabStateModel>) -> Seq<i32> {
    choose|ws: Seq<i32>| strictly_sorted(ws, int_lt()) && ws.to_set() == window_set(states)
}

/// Windows in ascending id order, then one for tabs without a window.
pub open spec fn window_groups(ids: Seq<i32>) -> Seq<Option<i32>> {
    ids.map_values(|w: i32| Some(w)).push(None)
}

/// The windows a Session_* file describes: each window with at least one tab.
pub open spec fn session_windows(states: Seq<TabStateModel>) -> Seq<WindowModel> {
    window_groups(window_order(states)).filter_map(
        |g: Option<i32>|
            if group_tabs(states, g).len() > 0 {
                Some(WindowModel { tabs: group_tabs(states, g) })
            } else {
                None
            },
    )
}

fn copy_string(s: &String) -> (r: String)
    ensures
        r@ == s@,
{
    s.clone()
}

/// Position of the first entry with navigation index `idx`.
fn find_nav(navs: &Vec<NavEntry>, idx: usize) -> (r: Option<usize>)
    ensures
        match r {
            Some(k) => k as int == nav_first(navs_view(navs@), idx) && k < navs@.len(),
            None => nav_first(navs_view(navs@), idx) == -1,
        },
{
    let ghost nv = navs_view(navs@);
    let mut i: usize = 0;
    while i < navs.len()
        invariant
            i <= navs@.len(),
            nv == navs_view(navs@),
            forall|k: int| 0 <= k < i ==> #[trigger] nv[k].index != idx,
        decreases navs@.len() - i,
    {
        if navs[i].index == idx {
            proof {
                lemma_nav_first_is(nv, idx, i as int);
            }
            return Some(i);
        }
        i = i + 1;
    }
    proof {
        lemma_nav_first_is(nv, idx, i as int);
    }
    None
}

/// What every exported Chromium tab satisfies: its history is in ascending
/// order of navigation index, it has a URL, and its current index names a
/// history entry whose URL and title are the tab's.
pub open spec fn tab_well_formed(t: TabModel) -> bool {
    &&& nav_ordered(t.history)
    &&& t.url.len() > 0
    &&& t.current_index is Some
    &&& exists|k: int|
        0 <= k < t.history.len() && Some(t.history[k].index) == t.current_index && t.history[k].url
            == t.url && t.history[k].title == t.title
}

/// The current index names an entry of the history whenever there is one.
proof fn lemma_current_found(h: Seq<NavModel>, selected: Option<i32>)
    ensures
        current_of(h, selected) matches Some(c) ==> nav_first(h, c) >= 0,
{
    match current_of(h, selected) {
        Some(c) => {
            lemma_nav_first_range(h, c);
            match selected {
                Some(sel) => lemma_nav_first_range(h, sel as usize),
                None => {},
            }
            if nav_first(h, c) < 0 {
                assert(h[h.len() - 1].index == c);
            }
        },
        None => {},
    }
}

pub proof fn lemma_tab_of_well_formed(s: TabStateModel)
    requires
        tab_of(s).url.len() > 0,
    ensures
        tab_well_formed(tab_of(s)),
{
    let h = nav_sort(s.navs);
    lemma_nav_sort_ordered(s.navs);
    let cur = current_of(h, s.selected);
    lemma_current_found(h, s.selected);
    let c = cur.unwrap();
    lemma_nav_first_range(h, c);
    let k = nav_first(h, c);
    let t = tab_of(s);
    assert(0 <= k < t.history.len() && Some(t.history[k].index) == t.current_index
        && t.history[k].url == t.url && t.history[k].title == t.title);
}

/// The entries sorted by navigation index, stably (insertion sort).
fn sorted_history(navs: &Vec<NavEntry>) -> (history: Vec<NavEntry>)
    ensures
        navs_view(history@) == nav_sort(navs_view(navs@)),
{
    let ghost sv = navs_view(navs@);
    let mut history: Vec<NavEntry> = Vec::new();
    let n = navs.len();
    proof {
        assert(sv.take(0) =~= Seq::<NavModel>::empty());
        assert(navs_view(history@) =~= Seq::<NavModel>::empty());
    }
    for i in 0..n
        invariant
            n == navs@.len(),
            sv == navs_view(navs@),
            navs_view(history@) == nav_sort(sv.take(i as int)),
    {
        proof {
            lemma_nav_sort_ordered(sv.take(i as int));
            assert(sv.take(i + 1).drop_last() =~= sv.take(i as int));
            assert(sv.take(i + 1).last() == sv[i as int]);
        }
        let x = navs[i].index;
        let ghost h = navs_view(history@);
        let mut p: usize = 0;
        while p < history.len() && history[p].index <= x
            invariant
                p <= history@.len(),
                h == navs_view(history@),
                nav_ordered(h),
                forall|k: int| 0 <= k < p ==> #[trigger] h[k].index <= x,
            decreases history@.len() - p,
        {
            p = p + 1;
        }
        proof {
            assert forall|k: int| p <= k < h.len() implies #[trigger] above(x)(h[k]) by {
                assert(h[p as int].index > x);
                if k > p {
                    assert(h[p as int].index <= h[k].index);
                }
            }
            assert forall|k: int| p <= k < h.len() implies !#[trigger] at_most(x)(h[k]) by {
                assert(above(x)(h[k]));
            }
            assert forall|k: int| 0 <= k < p implies !#[trigger] above(x)(h[k]) by {
                assert(h[k].index <= x);
            }
            lemma_filter_is_prefix(h, at_most(x), p as int);
            lemma_filter_is_suffix(h, above(x), p as int);
        }
        let e = copy_nav(&navs[i]);
        history.insert(p, e);
        proof {
            assert(navs_view(history@) =~= h.take(p as int).push(sv[i as int]) + h.skip(p as int));
        }
    }
    proof {
        assert(sv.take(n as int) =~= sv);
    }
    history
}

/// Builds the tab for one state: its history sorted by navigation index, the
/// current index (the selection when an entry has it, otherwise the last
/// entry's), and the URL and title of the first entry with that index.
pub fn build_tab(state: &TabState) -> (t: Tab)
    ensures
        t@ == tab_of(state@),
{
    let history = sorted_history(&state.navs);
    let ghost h = navs_view(history@);
    let mut cur: Option<usize> = None;
    match state.selected_navigation_index {
        Some(sel) => {
            if find_nav(&history, sel as usize).is_some() {
                cur = Some(sel as usize);
            }
        },
        None => {},
    }
    if cur.is_none() && history.len() > 0 {
        cur = Some(history[history.len() - 1].index);
    }
    assert(cur == current_of(h, state.selected_navigation_index));
    let deep_history: Vec<crate::model::VisitEntry> = Vec::new();
    proof {
        assert(crate::model::visits_view(deep_history@) =~= Seq::<crate::model::VisitModel>::empty());
    }
    let shown = match cur {
        Some(c) => find_nav(&history, c),
        None => None,
    };
    match shown {
        Some(k) => {
            let url = copy_string(&history[k].url);
            let title = copy_string(&history[k].title);
            Tab { url, title, history, current_index: cur, deep_history, tab_id: Some(state.tab_id) }
        },
        None => Tab {
            url: String::new(),
            title: String::new(),
            history,
            current_index: cur,
            deep_history,
            tab_id: Some(state.tab_id),
        },
    }
}

fn same_window(a: Option<i32>, b: Option<i32>) -> (r: bool)
    ensures
        r == (a == b),
{
    match (a, b) {
        (Some(x), Some(y)) => x == y,
        (None, None) => true,
        _ => false,
    }
}

fn visual_key_of(state: &TabState) -> (k: i64)
    ensures
        k as int == visual_key(state@),
{
    match state.visual_index {
        Some(v) => v as i64,
        None => 0x7fff_ffff,
    }
}

proof fn lemma_tab_before_strict(states: Seq<TabStateModel>)
    ensures
        strict_order(tab_before(states)),
{
    let lt = tab_before(states);
    assert forall|a: int, b: int, c: int| #[trigger] lt(a, b) && #[trigger] lt(b, c) implies lt(
        a,
        c,
    ) by {}
}

/// The tabs of one window (or of the tabs without a window), ordered by visual
/// index and then by first appearance in the journal, without those that have
/// no URL.
pub fn build_tabs(tab_states: &Vec<TabState>, window: Option<i32>) -> (tabs: Vec<Tab>)
    ensures
        tabs_view(tabs@) == group_tabs(states_view(tab_states@), window),
        forall|k: int| 0 <= k < tabs@.len() ==> tab_well_formed(#[trigger] tabs@[k]@),
{
    let ghost sv = states_view(tab_states@);
    // (visual key, position) of each member, kept sorted
    let mut keys: Vec<(i64, usize)> = Vec::new();
    let n = tab_states.len();
    for p in 0..n
        invariant
            n == tab_states@.len(),
            sv == states_view(tab_states@),
            forall|i: int, j: int|
                0 <= i < j < keys@.len() ==> #[trigger] tab_before(sv)(keys@[i].1 as int, keys@[j].1 as int),
            forall|i: int|
                0 <= i < keys@.len() ==> (#[trigger] keys@[i]).0 == visual_key(sv[keys@[i].1 as int])
                    && keys@[i].1 < p && sv[keys@[i].1 as int].window_id == window,
            forall|q: int|
                0 <= q < p && sv[q].window_id == window ==> exists|i: int|
                    0 <= i < keys@.len() && (#[trigger] keys@[i]).1 == q,
    {
        if same_window(tab_states[p].window_id, window) {
            let vk = visual_key_of(&tab_states[p]);
            let mut j: usize = 0;
            while j < keys.len() && keys[j].0 <= vk
                invariant
                    j <= keys@.len(),
                    forall|i: int| 0 <= i < j ==> (#[trigger] keys@[i]).0 <= vk,
                decreases keys@.len() - j,
            {
                j = j + 1;
            }
            let ghost old_keys = keys@;
            keys.insert(j, (vk, p));
            proof {
                assert forall|a: int, b: int|
                    0 <= a < b < keys@.len() implies #[trigger] tab_before(sv)(
                    keys@[a].1 as int,
                    keys@[b].1 as int,
                ) by {
                    if b < j {
                        assert(keys@[a] == old_keys[a] && keys@[b] == old_keys[b]);
                    } else if b == j {
                        assert(keys@[a] == old_keys[a]);
                        assert(old_keys[a].0 <= vk);
                        assert(old_keys[a].0 == visual_key(sv[old_keys[a].1 as int]));
                        assert(old_keys[a].1 < p);
                    } else if a == j {
                        assert(keys@[b] == old_keys[b - 1]);
                        assert(old_keys[j as int].0 > vk);
                        assert(old_keys[j as int].0 == visual_key(sv[old_keys[j as int].1 as int]));
                        assert(old_keys[b - 1].0 == visual_key(sv[old_keys[b - 1].1 as int]));
                        if b - 1 > j {
                            assert(tab_before(sv)(old_keys[j as int].1 as int, old_keys[b - 1].1 as int));
                        }
                        assert(old_keys[b - 1].0 > vk);
                    } else if a < j {
                        assert(keys@[a] == old_keys[a] && keys@[b] == old_keys[b - 1]);
                        assert(tab_before(sv)(old_keys[a].1 as int, old_keys[b - 1].1 as int));
                    } else {
                        assert(keys@[a] == old_keys[a - 1] && keys@[b] == old_keys[b - 1]);
                        assert(tab_before(sv)(old_keys[a - 1].1 as int, old_keys[b - 1].1 as int));
                    }
                }
                assert forall|q: int|
                    0 <= q < p + 1 && sv[q].window_id == window implies exists|i: int|
                    0 <= i < keys@.len() && (#[trigger] keys@[i]).1 == q by {
                    if q == p {
                        assert(keys@[j as int].1 == q);
                    } else {
                        let i = choose|i: int| 0 <= i < old_keys.len() && (#[trigger] old_keys[i]).1 == q;
                        if i < j {
                            assert(keys@[i].1 == q);
                        } else {
                            assert(keys@[i + 1].1 == q);
                        }
                    }
                }
                assert forall|i: int| 0 <= i < keys@.len() implies (#[trigger] keys@[i]).0 == visual_key(
                    sv[keys@[i].1 as int],
                ) && keys@[i].1 < p + 1 && sv[keys@[i].1 as int].window_id == window by {
                    if i < j {
                        assert(keys@[i] == old_keys[i]);
                    } else if i > j {
                        assert(keys@[i] == old_keys[i - 1]);
                    }
                }
            }
        }
    }
    let ghost ps = keys@.map_values(|k: (i64, usize)| k.1 as int);
    proof {
        assert(strictly_sorted(ps, tab_before(sv))) by {
            assert forall|i: int, j: int| 0 <= i < j < ps.len() implies #[trigger] tab_before(sv)(ps[i], ps[j]) by {
                assert(tab_before(sv)(keys@[i].1 as int, keys@[j].1 as int));
            }
        }
        assert(ps.to_set() =~= members(sv, window)) by {
            assert forall|q: int| members(sv, window).contains(q) implies ps.to_set().contains(q) by {
                let i = choose|i: int| 0 <= i < keys@.len() && (#[trigger] keys@[i]).1 == q;
                assert(ps[i] == q);
            }
            assert forall|q: int| ps.to_set().contains(q) implies members(sv, window).contains(q) by {
                let i = choose|i: int| 0 <= i < ps.len() && ps[i] == q;
                assert(keys@[i].1 == q);
            }
        }
        lemma_tab_before_strict(sv);
        let order = tab_order(sv, window);
        assert(strictly_sorted(order, tab_before(sv)) && order.to_set() == members(sv, window));
        lemma_strictly_sorted_unique(ps, order, tab_before(sv));
    }
    let mut tabs: Vec<Tab> = Vec::new();
    let m = keys.len();
    for i in 0..m
        invariant
            m == keys@.len(),
            sv == states_view(tab_states@),
            ps == keys@.map_values(|k: (i64, usize)| k.1 as int),
            forall|k: int| 0 <= k < keys@.len() ==> (#[trigger] keys@[k]).1 < tab_states@.len(),
            tabs_view(tabs@) == ps.take(i as int).filter_map(tab_with_url(sv)),
            forall|k: int| 0 <= k < tabs@.len() ==> tab_well_formed(#[trigger] tabs@[k]@),
    {
        let p = keys[i].1;
        let t = build_tab(&tab_states[p]);
        proof {
            assert(ps.take(i + 1).drop_last() =~= ps.take(i as int));
            assert(ps[i as int] == p as int);
            assert(sv[p as int] == tab_states@[p as int]@);
        }
        proof {
            assert(ps.take(i + 1).last() == ps[i as int]);
            assert(t@ == tab_of(sv[ps[i as int]]));
        }
        if !t.url.as_str().is_empty() {
            let ghost before = tabs@;
            proof {
                lemma_tab_of_well_formed(sv[p as int]);
            }
            tabs.push(t);
            proof {
                assert(tab_with_url(sv)(ps[i as int]) == Some(t@));
                assert(tabs_view(tabs@) =~= tabs_view(before).push(t@));
            }
        } else {
            proof {
                assert(tab_with_url(sv)(ps[i as int]) == None::<TabModel>);
            }
        }
    }
    proof {
        assert(ps.take(m as int) =~= ps);
    }
    tabs
}

} // verus!

verus! {

/// The ids of the windows that some tab is assigned to, in ascending order.
fn window_ids(tab_states: &Vec<TabState>) -> (ids: Vec<i32>)
    ensures
        ids@ == window_order(states_view(tab_states@)),
{
    let ghost sv = states_view(tab_states@);
    let mut ids: Vec<i32> = Vec::new();
    let n = tab_states.len();
    for p in 0..n
        invariant
            n == tab_states@.len(),
            sv == states_view(tab_states@),
            strictly_sorted(ids@, int_lt()),
            forall|w: i32|
                ids@.contains(w) <==> exists|q: int|
                    0 <= q < p && (#[trigger] sv[q]).window_id == Some(w),
    {
        match tab_states[p].window_id {
            Some(w) => {
                let mut j: usize = 0;
                while j < ids.len() && ids[j] < w
                    invariant
                        j <= ids@.len(),
                        forall|i: int| 0 <= i < j ==> ids@[i] < w,
                    decreases ids@.len() - j,
                {
                    j = j + 1;
                }
                let ghost old_ids = ids@;
                if j < ids.len() && ids[j] == w {
                    proof {
                        assert forall|v: i32| ids@.contains(v) <==> exists|q: int|
                            0 <= q < p + 1 && (#[trigger] sv[q]).window_id == Some(v) by {
                            if ids@.contains(v) {
                                let q = choose|q: int| 0 <= q < p && (#[trigger] sv[q]).window_id == Some(v);
                                assert(0 <= q < p + 1);
                            }
                            if exists|q: int| 0 <= q < p + 1 && (#[trigger] sv[q]).window_id == Some(v) {
                                let q = choose|q: int| 0 <= q < p + 1 && (#[trigger] sv[q]).window_id == Some(v);
                                if q < p {
                                } else {
                                    assert(sv[q] == tab_states@[p as int]@);
                                    assert(ids@[j as int] == v);
                                }
                            }
                        }
                    }
                } else {
                    ids.insert(j, w);
                    proof {
                        assert forall|a: int, b: int| 0 <= a < b < ids@.len() implies #[trigger] int_lt()(
                            ids@[a],
                            ids@[b],
                        ) by {
                            if b < j {
                                assert(ids@[a] == old_ids[a] && ids@[b] == old_ids[b]);
                                assert(int_lt()(old_ids[a], old_ids[b]));
                            } else if b == j {
                                assert(ids@[a] == old_ids[a]);
                            } else if a == j {
                                assert(ids@[b] == old_ids[b - 1]);
                                assert(old_ids[j as int] > w);
                                if b - 1 > j {
                                    assert(int_lt()(old_ids[j as int], old_ids[b - 1]));
                                }
                            } else if a < j {
                                assert(ids@[a] == old_ids[a] && ids@[b] == old_ids[b - 1]);
                                assert(int_lt()(old_ids[a], old_ids[b - 1]));
                            } else {
                                assert(ids@[a] == old_ids[a - 1] && ids@[b] == old_ids[b - 1]);
                                assert(int_lt()(old_ids[a - 1], old_ids[b - 1]));
                            }
                        }
                        assert forall|v: i32| ids@.contains(v) <==> exists|q: int|
                            0 <= q < p + 1 && (#[trigger] sv[q]).window_id == Some(v) by {
                            if ids@.contains(v) {
                                let i = choose|i: int| 0 <= i < ids@.len() && ids@[i] == v;
                                if i == j {
                                    assert(sv[p as int] == tab_states@[p as int]@);
                                    assert(sv[p as int].window_id == Some(v));
                                } else {
                                    let k = if i < j { i } else { i - 1 };
                                    assert(old_ids[k] == v);
                                    assert(old_ids.contains(v));
                                    let q = choose|q: int| 0 <= q < p && (#[trigger] sv[q]).window_id == Some(v);
                                    assert(0 <= q < p + 1);
                                }
                            }
                            if exists|q: int| 0 <= q < p + 1 && (#[trigger] sv[q]).window_id == Some(v) {
                                let q = choose|q: int| 0 <= q < p + 1 && (#[trigger] sv[q]).window_id == Some(v);
                                if q < p {
                                    assert(old_ids.contains(v));
                                    let i = choose|i: int| 0 <= i < old_ids.len() && old_ids[i] == v;
                                    if i < j {
                                        assert(ids@[i] == v);
                                    } else {
                                        assert(ids@[i + 1] == v);
                                    }
                                } else {
                                    assert(sv[q] == tab_states@[p as int]@);
                                    assert(ids@[j as int] == v);
                                }
                            }
                        }
                    }
                }
            },
            None => {
                proof {
                    assert forall|v: i32| ids@.contains(v) <==> exists|q: int|
                        0 <= q < p + 1 && (#[trigger] sv[q]).window_id == Some(v) by {
                        if exists|q: int| 0 <= q < p + 1 && (#[trigger] sv[q]).window_id == Some(v) {
                            let q = choose|q: int| 0 <= q < p + 1 && (#[trigger] sv[q]).window_id == Some(v);
                            if q == p {
                                assert(sv[q] == tab_states@[p as int]@);
                            }
                        }
                        if ids@.contains(v) {
                            let q = choose|q: int| 0 <= q < p && (#[trigger] sv[q]).window_id == Some(v);
                            assert(0 <= q < p + 1);
                        }
                    }
                }
            },
        }
    }
    proof {
        assert(ids@.to_set() =~= window_set(sv));
        let order = window_order(sv);
        assert(strictly_sorted(order, int_lt()) && order.to_set() == window_set(sv));
        lemma_strictly_sorted_unique(ids@, order, int_lt());
    }
    ids
}

/// The windows of a replayed Session_* journal.
fn build_windows(tab_states: &Vec<TabState>) -> (windows: Vec<Window>)
    ensures
        windows_view(windows@) == session_windows(states_view(tab_states@)),
        forall|i: int, j: int|
            0 <= i < windows@.len() && 0 <= j < windows@[i].tabs@.len() ==> tab_well_formed(
                #[trigger] windows@[i].tabs@[j]@,
            ),
{
    let ghost sv = states_view(tab_states@);
    let ids = window_ids(tab_states);
    let ghost groups = window_groups(ids@);
    let ghost f = |g: Option<i32>|
        if group_tabs(sv, g).len() > 0 {
            Some(WindowModel { tabs: group_tabs(sv, g) })
        } else {
            None
        };
    let mut windows: Vec<Window> = Vec::new();
    let m = ids.len();
    let mut i: usize = 0;
    loop
        invariant_except_break
            windows_view(windows@) == groups.take(i as int).filter_map(f),
        invariant
            i <= m,
            m == ids@.len(),
            sv == states_view(tab_states@),
            groups == window_groups(ids@),
            groups.len() == m + 1,
            forall|a: int, b: int|
                0 <= a < windows@.len() && 0 <= b < windows@[a].tabs@.len() ==> tab_well_formed(
                    #[trigger] windows@[a].tabs@[b]@,
                ),
            f == (|g: Option<i32>|
                if group_tabs(sv, g).len() > 0 {
                    Some(WindowModel { tabs: group_tabs(sv, g) })
                } else {
                    None
                }),
        ensures
            windows_view(windows@) == groups.filter_map(f),
        decreases m - i,
    {
        let group = if i < m {
            Some(ids[i])
        } else {
            None
        };
        proof {
            assert(groups[i as int] == group);
            assert(groups.take(i + 1).drop_last() =~= groups.take(i as int));
            assert(groups.take(i + 1).last() == group);
        }
        let tabs = build_tabs(tab_states, group);
        if tabs.len() > 0 {
            let ghost before = windows@;
            windows.push(Window { tabs });
            proof {
                assert(windows_view(windows@) =~= windows_view(before).push(
                    WindowModel { tabs: group_tabs(sv, group) },
                ));
            }
        }
        if i == m {
            proof {
                assert(groups.take(m + 1) =~= groups);
            }
            break;
        }
        i = i + 1;
    }
    windows
}

/// The error for a file without the SNSS header.
pub open spec fn is_header_error(e: BrowseWakeError) -> bool {
    e matches BrowseWakeError::Snss(m) && m@ == "invalid SNSS header"@
}

/// Parses a Session_* file, extracting both tab-to-window mappings and
/// navigation entries.
pub fn parse_session_file(data: &[u8]) -> (r: Result<Vec<Window>, BrowseWakeError>)
    ensures
        r is Ok <==> has_snss_header(data@),
        r matches Ok(windows) ==> windows_view(windows@) == session_windows(session_states(data@)),
        r matches Ok(windows) ==> forall|i: int, j: int|
            0 <= i < windows@.len() && 0 <= j < windows@[i].tabs@.len() ==> tab_well_formed(
                #[trigger] windows@[i].tabs@[j]@,
            ),
        r matches Err(e) ==> is_header_error(e),
{
    if !has_snss_magic(data) {
        return Err(BrowseWakeError::Snss("invalid SNSS header".to_owned()));
    }
    let tab_states = replay_commands(data, true);
    Ok(build_windows(&tab_states))
}

/// Parses a Tabs_* file: tabs in first-seen order, without window information.
pub fn parse_tabs_file(data: &[u8]) -> (r: Result<Vec<Tab>, BrowseWakeError>)
    ensures
        r is Ok <==> has_snss_header(data@),
        r matches Ok(tabs) ==> tabs_view(tabs@) == group_tabs(tabs_file_states(data@), None),
        r matches Ok(tabs) ==> forall|k: int| 0 <= k < tabs@.len() ==> tab_well_formed(#[trigger] tabs@[k]@),
        r matches Err(e) ==> is_header_error(e),
{
    if !has_snss_magic(data) {
        return Err(BrowseWakeError::Snss("invalid SNSS header".to_owned()));
    }
    let tab_states = replay_commands(data, false);
    Ok(build_tabs(&tab_states, None))
}

/// States that carry neither a window nor a visual index.
pub open spec fn unplaced(states: Seq<TabStateModel>) -> bool {
    forall|p: int|
        0 <= p < states.len() ==> (#[trigger] states[p]).window_id is None
            && states[p].visual_index is None
}

/// The positions `0 .. n` in ascending order.
pub open spec fn positions(n: nat) -> Seq<int> {
    Seq::new(n, |p: int| p)
}

proof fn lemma_apply_tabs_unplaced(states: Seq<TabStateModel>, cmd: Seq<u8>)
    requires
        unplaced(states),
    ensures
        unplaced(apply_tabs(states, cmd)),
{
    if cmd[0] == 1 {
        match tab_command(cmd) {
            Some(t) => {
                let f = |s: TabStateModel| nav_update(s, t.index, t.url, t.title);
                lemma_tab_pos_range(states, t.id);
                let r = modify(states, t.id, f);
                assert(r == apply_tabs(states, cmd));
                assert forall|p: int| 0 <= p < r.len() implies (#[trigger] r[p]).window_id is None
                    && r[p].visual_index is None by {
                    if p == slot(states, t.id) {
                        assert(touched(states, t.id)[p].window_id is None);
                    } else {
                        assert(r[p] == touched(states, t.id)[p]);
                    }
                }
            },
            None => {},
        }
    }
}

proof fn lemma_replay_tabs_unplaced(data: Seq<u8>, offset: int, states: Seq<TabStateModel>)
    requires
        unplaced(states),
    ensures
        unplaced(replay(data, offset, states, false)),
    decreases data.len() - offset,
{
    if offset >= 0 && offset + 2 <= data.len() {
        let len = le_u16(data, offset);
        if len != 0 && offset + 2 + len <= data.len() {
            let cmd = data.subrange(offset + 2, offset + 2 + len);
            lemma_apply_tabs_unplaced(states, cmd);
            lemma_replay_tabs_unplaced(data, offset + 2 + len, apply_tabs(states, cmd));
        }
    }
}

proof fn lemma_unplaced_order(states: Seq<TabStateModel>)
    requires
        unplaced(states),
    ensures
        tab_order(states, None) == positions(states.len()),
{
    let lt = tab_before(states);
    let ps = positions(states.len());
    assert forall|i: int, j: int| 0 <= i < j < ps.len() implies #[trigger] lt(ps[i], ps[j]) by {
        assert(states[i].visual_index is None);
        assert(states[j].visual_index is None);
    }
    assert forall|p: int| ps.to_set().contains(p) <==> members(states, None).contains(p) by {
        if members(states, None).contains(p) {
            assert(ps[p] == p);
        }
    }
    assert(ps.to_set() =~= members(states, None));
    let chosen = tab_order(states, None);
    assert(strictly_sorted(chosen, lt) && chosen.to_set() == members(states, None));
    lemma_tab_before_strict(states);
    lemma_strictly_sorted_unique(chosen, ps, lt);
}

/// A Tabs_* snapshot lists its tabs in the order in which it first mentions
/// them: the tabs are those of its states, taken in order, that have a URL.
pub proof fn lemma_tabs_file_first_seen_order(data: Seq<u8>)
    ensures
        group_tabs(tabs_file_states(data), None) == positions(tabs_file_states(data).len()).filter_map(
            tab_with_url(tabs_file_states(data)),
        ),
{
    lemma_replay_tabs_unplaced(data, 8, Seq::empty());
    lemma_unplaced_order(tabs_file_states(data));
}

} // verus!

verus! {

/// Which of a profile's session files to read: the newest, that is the first
/// of those with the latest modification time. Times are nanoseconds from the
/// Unix epoch, negative before it.
pub fn newest_file(mtimes: &[i128]) -> (r: Option<usize>)
    ensures
        r is None <==> mtimes@.len() == 0,
        r matches Some(i) ==> {
            &&& i < mtimes@.len()
            &&& forall|j: int| 0 <= j < mtimes@.len() ==> mtimes@[j] <= mtimes@[i as int]
            &&& forall|j: int| 0 <= j < i ==> mtimes@[j] < mtimes@[i as int]
        },
{
    if mtimes.len() == 0 {
        return None;
    }
    let mut best: usize = 0;
    let n = mtimes.len();
    for i in 1..n
        invariant
            n == mtimes@.len(),
            best < i,
            forall|j: int| 0 <= j < i ==> mtimes@[j] <= mtimes@[best as int],
            forall|j: int| 0 <= j < best ==> mtimes@[j] < mtimes@[best as int],
    {
        if mtimes[i] > mtimes[best] {
            best = i;
        }
    }
    Some(best)
}

} // verus!

verus! {

// ---------------------------------------------------------------------------
// Laws of the journal
// ---------------------------------------------------------------------------

/// From `offset` on, `d` holds whole commands that end exactly at its end.
pub open spec fn whole_commands(d: Seq<u8>, offset: int) -> bool
    decreases d.len() - offset,
{
    if offset < 0 || offset > d.len() {
        false
    } else if offset == d.len() {
        true
    } else if offset + 2 > d.len() {
        false
    } else if le_u16(d, offset) > 0 && offset + 2 + le_u16(d, offset) <= d.len() {
        whole_commands(d, offset + 2 + le_u16(d, offset))
    } else {
        false
    }
}

/// A Session_* command that changes no tab: an id the journal does not use, or
/// a fixed-size command too short to hold its fields.
pub open spec fn session_ignores(cmd: Seq<u8>) -> bool {
    let id = cmd[0];
    ||| !(id == 0 || id == 2 || id == 5 || id == 6 || id == 7 || id == 11)
    ||| ((id == 0 || id == 2 || id == 5 || id == 7 || id == 11) && cmd.len() < 9)
}

/// A command framed as it stands in a file: its length as a little-endian
/// `u16`, then its bytes.
pub open spec fn framed(cmd: Seq<u8>) -> Seq<u8> {
    seq![(cmd.len() % 256) as u8, (cmd.len() / 256) as u8] + cmd
}

/// Commands the Session_* replay ignores leave the tab states as they were.
pub proof fn lemma_ignored_command_changes_nothing(states: Seq<TabStateModel>, cmd: Seq<u8>)
    requires
        cmd.len() > 0,
        session_ignores(cmd),
    ensures
        apply_session(states, cmd) == states,
{
}

/// The replay from an offset depends only on the bytes from there on.
proof fn lemma_replay_same_rest(
    x: Seq<u8>,
    o1: int,
    y: Seq<u8>,
    o2: int,
    st: Seq<TabStateModel>,
    session: bool,
)
    requires
        0 <= o1 <= x.len(),
        0 <= o2 <= y.len(),
        x.skip(o1) == y.skip(o2),
    ensures
        replay(x, o1, st, session) == replay(y, o2, st, session),
    decreases x.len() - o1,
{
    let xs = x.skip(o1);
    let ys = y.skip(o2);
    assert(xs.len() == x.len() - o1);
    assert(ys.len() == y.len() - o2);
    assert(xs.len() == ys.len());
    assert forall|k: int| 0 <= k < x.len() - o1 implies #[trigger] x[o1 + k] == y[o2 + k] by {
        assert(xs[k] == x[o1 + k]);
        assert(ys[k] == y[o2 + k]);
        assert(xs[k] == ys[k]);
    }
    if o1 + 2 <= x.len() {
        assert(x[o1 + 0] == y[o2 + 0]);
        assert(x[o1 + 1] == y[o2 + 1]);
        let len = le_u16(x, o1);
        assert(len == le_u16(y, o2));
        if len != 0 && o1 + 2 + len <= x.len() {
            let cx = x.subrange(o1 + 2, o1 + 2 + len);
            let cy = y.subrange(o2 + 2, o2 + 2 + len);
            assert forall|k: int| 0 <= k < len implies cx[k] == cy[k] by {
                assert(x[o1 + (2 + k)] == y[o2 + (2 + k)]);
            }
            assert(cx =~= cy);
            let st2 = if session {
                apply_session(st, cx)
            } else {
                apply_tabs(st, cx)
            };
            let m = 2 + len;
            assert forall|k: int| 0 <= k < x.len() - (o1 + m) implies #[trigger] x.skip(o1 + m)[k]
                == y.skip(o2 + m)[k] by {
                assert(x[o1 + (m + k)] == y[o2 + (m + k)]);
            }
            assert(x.skip(o1 + m) =~= y.skip(o2 + m));
            lemma_replay_same_rest(x, o1 + m, y, o2 + m, st2, session);
        }
    }
}

/// Replaying whole commands of `d` and then going on over what follows is
/// replaying `d` and then going on from its end.
proof fn lemma_replay_through(
    d: Seq<u8>,
    a: Seq<u8>,
    off: int,
    st: Seq<TabStateModel>,
    session: bool,
)
    requires
        whole_commands(d, off),
    ensures
        replay(d + a, off, st, session) == replay(
            d + a,
            d.len() as int,
            replay(d, off, st, session),
            session,
        ),
    decreases d.len() - off,
{
    let x = d + a;
    if off < d.len() {
        let len = le_u16(d, off);
        assert(x[off] == d[off] && x[off + 1] == d[off + 1]);
        assert(le_u16(x, off) == len);
        let c = d.subrange(off + 2, off + 2 + len);
        assert(x.subrange(off + 2, off + 2 + len) =~= c);
        let st2 = if session {
            apply_session(st, c)
        } else {
            apply_tabs(st, c)
        };
        lemma_replay_through(d, a, off + 2 + len, st2, session);
    }
}

/// A journal stops at an empty command, at a command that runs past the end of
/// the data, or where fewer than two bytes are left: what follows whole
/// commands there changes nothing, for Session_* and Tabs_* files alike.
pub proof fn lemma_journal_stops(d: Seq<u8>, tail: Seq<u8>)
    requires
        whole_commands(d, 8),
        tail.len() < 2 || le_u16(tail, 0) == 0 || 2 + le_u16(tail, 0) > tail.len(),
    ensures
        session_states(d + tail) == session_states(d),
        tabs_file_states(d + tail) == tabs_file_states(d),
{
    let x = d + tail;
    if tail.len() >= 2 {
        assert(x[d.len() as int] == tail[0] && x[d.len() as int + 1] == tail[1]);
        assert(le_u16(x, d.len() as int) == le_u16(tail, 0));
    }
    lemma_replay_through(d, tail, 8, Seq::empty(), true);
    lemma_replay_through(d, tail, 8, Seq::empty(), false);
}

/// A command that the Session_* replay ignores, inserted between whole
/// commands, leaves the parse as it was: it changes no tab and not the order in
/// which tabs were first seen.
pub proof fn lemma_ignored_command_inserted(d: Seq<u8>, cmd: Seq<u8>, rest: Seq<u8>)
    requires
        whole_commands(d, 8),
        0 < cmd.len() < 65536,
        session_ignores(cmd),
    ensures
        session_states(d + framed(cmd) + rest) == session_states(d + rest),
{
    let n = cmd.len() as int;
    let f = framed(cmd);
    let x = d + f + rest;
    let y = d + rest;
    let e = d.len() as int;
    assert(x =~= d + (f + rest));
    lemma_replay_through(d, f + rest, 8, Seq::empty(), true);
    lemma_replay_through(d, rest, 8, Seq::empty(), true);
    let s = replay(d, 8, Seq::empty(), true);
    assert(f[0] as int == n % 256 && f[1] as int == n / 256);
    assert(x[e] == f[0] && x[e + 1] == f[1]);
    assert(le_u16(x, e) == n);
    assert(x.subrange(e + 2, e + 2 + n) =~= cmd);
    lemma_ignored_command_changes_nothing(s, cmd);
    assert(x.skip(e + 2 + n) =~= y.skip(e));
    lemma_replay_same_rest(x, e + 2 + n, y, e, s, true);
}

} // verus!

verus! {

/// The four little-endian bytes of `v`, for `0 <= v < 2^32`.
pub open spec fn le_bytes32(v: int) -> Seq<u8> {
    seq![
        (v % 256) as u8,
        ((v / 256) % 256) as u8,
        ((v / 65536) % 256) as u8,
        ((v / 16777216) % 256) as u8,
    ]
}

/// `v` as a 32-bit two's-complement number.
pub open spec fn twos32(v: i32) -> int {
    if v >= 0 {
        v as int
    } else {
        v + 0x1_0000_0000
    }
}

/// UTF-16 code units as little-endian bytes.
pub open spec fn units_bytes(units: Seq<u16>) -> Seq<u8> {
    Seq::new(
        2 * units.len(),
        |i: int|
            if i % 2 == 0 {
                (units[i / 2] % 256) as u8
            } else {
                (units[i / 2] / 256) as u8
            },
    )
}

pub open spec fn zeros(n: int) -> Seq<u8> {
    Seq::new(n as nat, |i: int| 0u8)
}

/// An UpdateTabNavigation payload as a browser writes it: command id, four
/// bytes of padding, tab id, navigation index, the URL's length and bytes
/// padded to four, the title's length in UTF-16 units and its units padded to
/// four.
pub open spec fn tab_command_bytes(
    cmd_id: u8,
    id: i32,
    index: i32,
    url: Seq<u8>,
    title: Seq<u16>,
) -> Seq<u8> {
    seq![cmd_id, 0u8, 0u8, 0u8, 0u8] + le_bytes32(twos32(id)) + le_bytes32(twos32(index))
        + le_bytes32(url.len() as int) + url + zeros(round_up4(url.len() as int) - url.len())
        + le_bytes32(title.len() as int) + units_bytes(title) + zeros(
        round_up4(2 * title.len() as int) - 2 * title.len(),
    )
}

proof fn lemma_le_bytes32(s: Seq<u8>, off: int, v: int)
    requires
        0 <= v < 0x1_0000_0000,
        0 <= off,
        off + 4 <= s.len(),
        s.subrange(off, off + 4) == le_bytes32(v),
    ensures
        le_u32(s, off) == v,
{
    let b = le_bytes32(v);
    assert(s[off] == b[0] && s[off + 1] == b[1] && s[off + 2] == b[2] && s[off + 3] == b[3]) by {
        assert(s.subrange(off, off + 4)[0] == s[off]);
        assert(s.subrange(off, off + 4)[1] == s[off + 1]);
        assert(s.subrange(off, off + 4)[2] == s[off + 2]);
        assert(s.subrange(off, off + 4)[3] == s[off + 3]);
    }
    assert((v % 256) + 256 * ((v / 256) % 256) + 65536 * ((v / 65536) % 256) + 16777216 * ((v
        / 16777216) % 256) == v) by (nonlinear_arith)
        requires
            0 <= v < 0x1_0000_0000,
    ;
}

proof fn lemma_sub_right(p: Seq<u8>, x: Seq<u8>)
    ensures
        (p + x).subrange(p.len() as int, (p.len() + x.len()) as int) == x,
{
    assert((p + x).subrange(p.len() as int, (p.len() + x.len()) as int) =~= x);
}

proof fn lemma_sub_left(y: Seq<u8>, z: Seq<u8>, i: int, j: int)
    requires
        0 <= i <= j <= y.len(),
    ensures
        (y + z).subrange(i, j) == y.subrange(i, j),
{
    assert((y + z).subrange(i, j) =~= y.subrange(i, j));
}

proof fn lemma_units_bytes_back(title: Seq<u16>)
    ensures
        le_units(units_bytes(title)) == title,
{
    let tb = units_bytes(title);
    assert forall|i: int| 0 <= i < title.len() implies #[trigger] le_units(tb)[i] == title[i] by {
        assert(tb[2 * i] == (title[(2 * i) / 2] % 256) as u8);
        assert(tb[2 * i + 1] == (title[(2 * i + 1) / 2] / 256) as u8);
        assert((2 * i) / 2 == i && (2 * i + 1) / 2 == i && (2 * i) % 2 == 0 && (2 * i + 1) % 2 == 1);
    }
    assert(le_units(tb) =~= title);
}

/// Decoding a payload written as browsers write it gives back its tab id,
/// navigation index, URL and title (exactly, when the URL is valid UTF-8 and
/// the title valid UTF-16).
pub proof fn lemma_tab_command_round_trip(
    cmd_id: u8,
    id: i32,
    index: i32,
    url: Seq<u8>,
    title: Seq<u16>,
)
    requires
        url.len() < 0x1_0000_0000,
        title.len() < 0x1_0000_0000,
    ensures
        tab_command(tab_command_bytes(cmd_id, id, index, url, title)) == Some(
            SnssTabModel { id, index, url: text_of_utf8(url), title: text_of_utf16(title) },
        ),
{
    let ul = url.len() as int;
    let tl = title.len() as int;
    let r = round_up4(ul);
    let r2 = round_up4(2 * tl);
    let h = seq![cmd_id, 0u8, 0u8, 0u8, 0u8];
    let a = h + le_bytes32(twos32(id));
    let b = a + le_bytes32(twos32(index));
    let c = b + le_bytes32(ul);
    let d = c + url;
    let e = d + zeros(r - ul);
    let f = e + le_bytes32(tl);
    let g = f + units_bytes(title);
    let cmd = g + zeros(r2 - 2 * tl);
    assert(r >= ul && r - ul < 4);
    assert(r2 >= 2 * tl);
    assert(cmd == tab_command_bytes(cmd_id, id, index, url, title));
    assert(a.len() == 9 && b.len() == 13 && c.len() == 17 && d.len() == 17 + ul);
    assert(e.len() == 17 + r && f.len() == 21 + r && g.len() == 21 + r + 2 * tl);
    // each field, read back from where it was written
    lemma_sub_right(h, le_bytes32(twos32(id)));
    lemma_sub_left(a, le_bytes32(twos32(index)), 5, 9);
    lemma_sub_left(b, le_bytes32(ul), 5, 9);
    lemma_sub_left(c, url, 5, 9);
    lemma_sub_left(d, zeros(r - ul), 5, 9);
    lemma_sub_left(e, le_bytes32(tl), 5, 9);
    lemma_sub_left(f, units_bytes(title), 5, 9);
    lemma_sub_left(g, zeros(r2 - 2 * tl), 5, 9);
    lemma_le_bytes32(cmd, 5, twos32(id));

    lemma_sub_right(a, le_bytes32(twos32(index)));
    lemma_sub_left(b, le_bytes32(ul), 9, 13);
    lemma_sub_left(c, url, 9, 13);
    lemma_sub_left(d, zeros(r - ul), 9, 13);
    lemma_sub_left(e, le_bytes32(tl), 9, 13);
    lemma_sub_left(f, units_bytes(title), 9, 13);
    lemma_sub_left(g, zeros(r2 - 2 * tl), 9, 13);
    lemma_le_bytes32(cmd, 9, twos32(index));

    lemma_sub_right(b, le_bytes32(ul));
    lemma_sub_left(c, url, 13, 17);
    lemma_sub_left(d, zeros(r - ul), 13, 17);
    lemma_sub_left(e, le_bytes32(tl), 13, 17);
    lemma_sub_left(f, units_bytes(title), 13, 17);
    lemma_sub_left(g, zeros(r2 - 2 * tl), 13, 17);
    lemma_le_bytes32(cmd, 13, ul);

    lemma_sub_right(c, url);
    lemma_sub_left(d, zeros(r - ul), 17, 17 + ul);
    lemma_sub_left(e, le_bytes32(tl), 17, 17 + ul);
    lemma_sub_left(f, units_bytes(title), 17, 17 + ul);
    lemma_sub_left(g, zeros(r2 - 2 * tl), 17, 17 + ul);

    lemma_sub_right(e, le_bytes32(tl));
    lemma_sub_left(f, units_bytes(title), 17 + r, 21 + r);
    lemma_sub_left(g, zeros(r2 - 2 * tl), 17 + r, 21 + r);
    lemma_le_bytes32(cmd, 17 + r, tl);

    lemma_sub_right(f, units_bytes(title));
    lemma_sub_left(g, zeros(r2 - 2 * tl), 21 + r, 21 + r + 2 * tl);
    lemma_units_bytes_back(title);
    assert(le_i32(cmd, 5) as i32 == id);
    assert(le_i32(cmd, 9) as i32 == index);
}

} // verus!

verus! {

/// Mentioning a tab: a tab already seen keeps its state and place, and the
/// states are unchanged; a new tab gets a fresh state appended after all the
/// others, so positions record the order in which tabs were first seen.
pub proof fn lemma_mention_tab(states: Seq<TabStateModel>, id: i32)
    ensures
        tab_pos(states, id) >= 0 ==> touched(states, id) == states && slot(states, id) < states.len()
            && states[slot(states, id)].tab_id == id,
        tab_pos(states, id) < 0 ==> touched(states, id) == states.push(fresh_state(id)) && slot(
            states,
            id,
        ) == states.len() && forall|p: int| 0 <= p < states.len() ==> #[trigger] states[p].tab_id != id,
    decreases states.len(),
{
    lemma_tab_pos_range(states, id);
    if states.len() > 0 {
        lemma_mention_tab(states.drop_last(), id);
        if tab_pos(states, id) < 0 {
            assert forall|p: int| 0 <= p < states.len() implies #[trigger] states[p].tab_id != id by {
                if p < states.len() - 1 {
                    assert(states.drop_last()[p] == states[p]);
                }
            }
        }
    }
}

} // verus!

verus! {

/// What a Session_* file gives a profile: its windows, when it has any; with
/// none, the profile falls back on its Tabs_* file.
pub fn session_file_windows(windows: Vec<Window>) -> (r: Option<Vec<Window>>)
    ensures
        windows@.len() > 0 ==> r == Some(windows),
        windows@.len() == 0 ==> r is None,
{
    if windows.len() > 0 {
        Some(windows)
    } else {
        None
    }
}

/// What a Tabs_* file gives a profile: its tabs as one window, when it has any.
pub fn tabs_file_windows(tabs: Vec<Tab>) -> (r: Option<Vec<Window>>)
    ensures
        tabs@.len() > 0 ==> (r matches Some(ws) && ws@.len() == 1 && ws@[0].tabs == tabs),
        tabs@.len() == 0 ==> r is None,
{
    if tabs.len() > 0 {
        Some(vec![Window { tabs }])
    } else {
        None
    }
}

} // verus!

verus! {

/// The entry a tab's stored selection names: the first entry with the
/// selected navigation index.
pub open spec fn selected_entry(s: TabStateModel) -> Option<NavModel> {
    match s.selected {
        Some(sel) => if sel >= 0 && nav_first(s.navs, sel as usize) >= 0 {
            Some(s.navs[nav_first(s.navs, sel as usize)])
        } else {
            None
        },
        None => None,
    }
}

/// Dropping the entries below `c` and renumbering the rest keeps, for every
/// index `x >= c`, the first entry with index `x` as the first entry with
/// index `x - c`, renumbered.
proof fn lemma_drop_front_first(s: Seq<NavModel>, c: usize, x: usize)
    requires
        x >= c,
    ensures
        (nav_first(nav_drop_front(s, c), (x - c) as usize) >= 0) == (nav_first(s, x) >= 0),
        nav_first(s, x) >= 0 ==> nav_drop_front(s, c)[nav_first(nav_drop_front(s, c), (x - c) as usize)]
            == shift_nav(s[nav_first(s, x)], c),
    decreases s.len(),
{
    let d = nav_drop_front(s, c);
    let y = (x - c) as usize;
    if s.len() > 0 {
        let a = s[0];
        let rest = s.drop_first();
        assert(s =~= seq![a] + rest);
        rest.lemma_filter_prepend(a, at_least(c));
        lemma_drop_front_first(rest, c, x);
        let dr = nav_drop_front(rest, c);
        lemma_nav_first_range(rest, x);
        lemma_nav_first_range(dr, y);
        if a.index >= c {
            assert(d =~= seq![shift_nav(a, c)] + dr);
            assert(d.drop_first() =~= dr);
            assert(d[0] == shift_nav(a, c));
            if a.index == x {
                assert(nav_first(s, x) == 0);
                assert(nav_first(d, y) == 0);
            } else {
                assert(d[0].index != y);
                assert(nav_first(s, x) >= 0 ==> s[nav_first(s, x)] == rest[nav_first(rest, x)]);
                assert(nav_first(d, y) >= 0 ==> d[nav_first(d, y)] == dr[nav_first(dr, y)]);
            }
        } else {
            assert(d =~= dr);
            assert(a.index != x);
            assert(nav_first(s, x) >= 0 ==> s[nav_first(s, x)] == rest[nav_first(rest, x)]);
        }
    } else {
        assert(d =~= Seq::<NavModel>::empty());
    }
}

/// Pruning from the front keeps the selection on the entry it named: that
/// entry, renumbered, is still the one selected; when the entry itself was
/// dropped, nothing is selected.
pub proof fn lemma_prune_front_keeps_selected_entry(s: TabStateModel, count: i32)
    requires
        count > 0,
        selected_entry(s) is Some,
    ensures
        selected_entry(s).unwrap().index >= count ==> selected_entry(prune_front(s, count)) == Some(
            shift_nav(selected_entry(s).unwrap(), count as usize),
        ),
        selected_entry(s).unwrap().index < count ==> selected_entry(prune_front(s, count)) is None,
{
    let sel = s.selected.unwrap();
    let n = selected_entry(s).unwrap();
    let c = count as usize;
    lemma_nav_first_range(s.navs, sel as usize);
    assert(n.index == sel as usize);
    if n.index >= count {
        lemma_drop_front_first(s.navs, c, sel as usize);
        assert((sel - count) as i32 as usize == (sel as usize - c) as usize);
    }
}

} // verus!
