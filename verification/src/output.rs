//! Rendering an export as plain text or CSV (JSON is written by serde outside
//! the library).
use vstd::prelude::*;
use crate::model::{
    BrowserWindows, BrowserWindowsModel, Export, NavModel, Tab, TabModel, VisitModel, WindowModel,
    kind_name, lemma_tab_total_prefix, tab_total, windows_view,
};

verus! {

/// Output formats.
pub enum Format {
    Json,
    JsonCompact,
    Text,
    Csv,
}

// ---------------------------------------------------------------------------
// Numbers
// ---------------------------------------------------------------------------

pub open spec fn digit_char(d: int) -> char {
    if d == 0 {
        '0'
    } else if d == 1 {
        '1'
    } else if d == 2 {
        '2'
    } else if d == 3 {
        '3'
    } else if d == 4 {
        '4'
    } else if d == 5 {
        '5'
    } else if d == 6 {
        '6'
    } else if d == 7 {
        '7'
    } else if d == 8 {
        '8'
    } else {
        '9'
    }
}

/// Decimal digits of `n`, most significant first.
pub open spec fn decimal(n: nat) -> Seq<char>
    decreases n,
{
    if n < 10 {
        seq![digit_char(n as int)]
    } else {
        decimal(n / 10).push(digit_char((n % 10) as int))
    }
}

/// Decimal form of a signed number, with a leading `-` when negative.
pub open spec fn signed_decimal(v: int) -> Seq<char> {
    if v < 0 {
        seq!['-'] + decimal((-v) as nat)
    } else {
        decimal(v as nat)
    }
}

fn digit_str(d: u64) -> (s: &'static str)
    requires
        d < 10,
    ensures
        s@ == seq![digit_char(d as int)],
{
    proof {
        reveal_strlit("0");
        reveal_strlit("1");
        reveal_strlit("2");
        reveal_strlit("3");
        reveal_strlit("4");
        reveal_strlit("5");
        reveal_strlit("6");
        reveal_strlit("7");
        reveal_strlit("8");
        reveal_strlit("9");
    }
    if d == 0 {
        "0"
    } else if d == 1 {
        "1"
    } else if d == 2 {
        "2"
    } else if d == 3 {
        "3"
    } else if d == 4 {
        "4"
    } else if d == 5 {
        "5"
    } else if d == 6 {
        "6"
    } else if d == 7 {
        "7"
    } else if d == 8 {
        "8"
    } else {
        "9"
    }
}

/// Appends the decimal form of `n`.
pub fn push_decimal(out: &mut String, n: u64)
    ensures
        final(out)@ == old(out)@ + decimal(n as nat),
    decreases n,
{
    if n >= 10 {
        push_decimal(out, n / 10);
        out.append(digit_str(n % 10));
        proof {
            assert(old(out)@ + decimal((n / 10) as nat) + seq![digit_char((n % 10) as int)] =~= old(
                out,
            )@ + decimal(n as nat));
        }
    } else {
        out.append(digit_str(n));
    }
}

/// Appends the decimal form of `v`, signed.
pub fn push_signed_decimal(out: &mut String, v: i64)
    ensures
        final(out)@ == old(out)@ + signed_decimal(v as int),
{
    if v < 0 {
        proof {
            reveal_strlit("-");
        }
        out.append("-");
        let magnitude = (0i128 - v as i128) as u64;
        push_decimal(out, magnitude);
        proof {
            assert(old(out)@ + seq!['-'] + decimal(magnitude as nat) =~= old(out)@ + signed_decimal(
                v as int,
            ));
        }
    } else {
        push_decimal(out, v as u64);
    }
}

// ---------------------------------------------------------------------------
// CSV fields
// ---------------------------------------------------------------------------

pub open spec fn is_csv_special(c: char) -> bool {
    c == ',' || c == '"' || c == '\n'
}

/// A field must be quoted when it holds a comma, a quote or a newline.
pub open spec fn needs_quoting(s: Seq<char>) -> bool {
    exists|k: int| 0 <= k < s.len() && is_csv_special(#[trigger] s[k])
}

/// `s` with every quote doubled.
pub open spec fn double_quotes(s: Seq<char>) -> Seq<char>
    decreases s.len(),
{
    if s.len() == 0 {
        s
    } else if s.last() == '"' {
        double_quotes(s.drop_last()) + seq!['"', '"']
    } else {
        double_quotes(s.drop_last()).push(s.last())
    }
}

/// A CSV field: quoted, with quotes doubled, when it needs quoting; as it is otherwise.
pub open spec fn csv_field(s: Seq<char>) -> Seq<char> {
    if needs_quoting(s) {
        seq!['"'] + double_quotes(s) + seq!['"']
    } else {
        s
    }
}

/// Doubling quotes leaves a stretch without quotes unchanged.
proof fn lemma_double_quotes_plain(s: Seq<char>, a: int, b: int)
    requires
        0 <= a <= b <= s.len(),
        forall|k: int| a <= k < b ==> s[k] != '"',
    ensures
        double_quotes(s.take(b)) == double_quotes(s.take(a)) + s.subrange(a, b),
    decreases b - a,
{
    if b == a {
        assert(s.subrange(a, b) =~= Seq::<char>::empty());
        assert(double_quotes(s.take(a)) + s.subrange(a, b) =~= double_quotes(s.take(a)));
    } else {
        lemma_double_quotes_plain(s, a, b - 1);
        assert(s.take(b).drop_last() =~= s.take(b - 1));
        assert(s.take(b).last() == s[b - 1]);
        assert(double_quotes(s.take(a)) + s.subrange(a, b) =~= (double_quotes(s.take(a))
            + s.subrange(a, b - 1)).push(s[b - 1]));
    }
}

/// Escapes a CSV field.
pub fn csv_escape(s: &str) -> (r: String)
    ensures
        r@ == csv_field(s@),
{
    let n = s.unicode_len();
    let mut special = false;
    for i in 0..n
        invariant
            n == s@.len(),
            special == exists|k: int| 0 <= k < i && is_csv_special(#[trigger] s@[k]),
    {
        let c = s.get_char(i);
        if c == ',' || c == '"' || c == '\n' {
            special = true;
        }
        proof {
            if !special {
                assert forall|k: int| 0 <= k < i + 1 implies !is_csv_special(#[trigger] s@[k]) by {}
            }
        }
    }
    if !special {
        return s.to_owned();
    }
    proof {
        reveal_strlit("\"");
    }
    let mut out = "\"".to_owned();
    let mut start: usize = 0;
    proof {
        assert(s@.take(0) =~= Seq::<char>::empty());
    }
    for i in 0..n
        invariant
            n == s@.len(),
            start <= i,
            "\""@ == seq!['"'],
            forall|k: int| start <= k < i ==> s@[k] != '"',
            out@ == seq!['"'] + double_quotes(s@.take(start as int)),
    {
        if s.get_char(i) == '"' {
            let piece = s.substring_char(start, i + 1);
            out.append(piece);
            out.append("\"");
            proof {
                lemma_double_quotes_plain(s@, start as int, i as int);
                assert(s@.take(i + 1).drop_last() =~= s@.take(i as int));
                assert(s@.take(i + 1).last() == '"');
                assert(seq!['"'] + double_quotes(s@.take(start as int)) + s@.subrange(
                    start as int,
                    i + 1,
                ) + seq!['"'] =~= seq!['"'] + double_quotes(s@.take(i + 1)));
            }
            start = i + 1;
        }
    }
    let rest = s.substring_char(start, n);
    out.append(rest);
    out.append("\"");
    proof {
        lemma_double_quotes_plain(s@, start as int, n as int);
        assert(s@.take(n as int) =~= s@);
        assert(seq!['"'] + double_quotes(s@.take(start as int)) + s@.subrange(start as int, n as int)
            + seq!['"'] =~= seq!['"'] + double_quotes(s@) + seq!['"']);
    }
    out
}

// ---------------------------------------------------------------------------
// Flattening
// ---------------------------------------------------------------------------

/// A browser's tabs, window after window.
pub open spec fn flat_tabs(ws: Seq<WindowModel>) -> Seq<TabModel>
    decreases ws.len(),
{
    if ws.len() == 0 {
        Seq::empty()
    } else {
        flat_tabs(ws.drop_last()) + ws.last().tabs
    }
}

pub proof fn lemma_flat_tabs_len(ws: Seq<crate::model::Window>)
    ensures
        flat_tabs(windows_view(ws)).len() == tab_total(ws),
    decreases ws.len(),
{
    if ws.len() > 0 {
        lemma_flat_tabs_len(ws.drop_last());
        assert(windows_view(ws).drop_last() =~= windows_view(ws.drop_last()));
    }
}

pub open spec fn browsers_view(bs: Seq<BrowserWindows>) -> Seq<BrowserWindowsModel> {
    bs.map_values(|b: BrowserWindows| b@)
}

/// Every browser's tab count fits the machine's word, as it must for the tabs to
/// be held in memory.
pub open spec fn export_fits(export: Export) -> bool {
    forall|b: int| 0 <= b < export.browsers@.len() ==> tab_total(#[trigger] export.browsers@[b].windows@)
        <= usize::MAX
}

// ---------------------------------------------------------------------------
// Text
// ---------------------------------------------------------------------------

/// One back/forward entry, marked when it is the current one.
pub open spec fn entry_line(e: NavModel, current: Option<usize>) -> Seq<char> {
    "      ["@ + decimal(e.index as nat) + "] "@ + e.url + (if current == Some(e.index) {
        " <-- current"@
    } else {
        Seq::empty()
    }) + "\n"@
}

pub open spec fn history_lines(h: Seq<NavModel>, current: Option<usize>) -> Seq<char>
    decreases h.len(),
{
    if h.len() == 0 {
        Seq::empty()
    } else {
        history_lines(h.drop_last(), current) + entry_line(h.last(), current)
    }
}

/// One visit: its time in Unix seconds, its URL and where it came from.
pub open spec fn visit_line(v: VisitModel) -> Seq<char> {
    "      ["@ + signed_decimal(v.visit_time as int) + "] "@ + v.url + (match v.from_url {
        Some(f) => " (from "@ + f + ")"@,
        None => Seq::empty(),
    }) + "\n"@
}

pub open spec fn visit_lines(vs: Seq<VisitModel>) -> Seq<char>
    decreases vs.len(),
{
    if vs.len() == 0 {
        Seq::empty()
    } else {
        visit_lines(vs.drop_last()) + visit_line(vs.last())
    }
}

/// A tab, numbered from 1: title, URL, then its history and visit history when
/// it has them.
pub open spec fn tab_text(t: TabModel, number: nat) -> Seq<char> {
    "  Tab "@ + decimal(number) + ": "@ + t.title + "\n"@ + "    URL: "@ + t.url + "\n"@
        + history_section(t) + visit_section(t)
}

/// Tabs numbered on from `base + 1`.
pub open spec fn tabs_text(ts: Seq<TabModel>, base: nat) -> Seq<char>
    decreases ts.len(),
{
    if ts.len() == 0 {
        Seq::empty()
    } else {
        tabs_text(ts.drop_last(), base) + tab_text(ts.last(), base + ts.len())
    }
}

pub proof fn lemma_tabs_text_concat(a: Seq<TabModel>, b: Seq<TabModel>, base: nat)
    ensures
        tabs_text(a + b, base) == tabs_text(a, base) + tabs_text(b, base + a.len()),
    decreases b.len(),
{
    if b.len() == 0 {
        assert(a + b =~= a);
        assert(tabs_text(a, base) + tabs_text(b, base + a.len()) =~= tabs_text(a, base));
    } else {
        lemma_tabs_text_concat(a, b.drop_last(), base);
        assert((a + b).drop_last() =~= a + b.drop_last());
        assert((a + b).last() == b.last());
        assert(tabs_text(a + b, base) =~= tabs_text(a, base) + tabs_text(b, base + a.len()));
    }
}

/// A browser: a heading with its tab count, its tabs, then a blank line.
pub open spec fn browser_text(b: BrowserWindowsModel) -> Seq<char> {
    "=== "@ + kind_name(b.browser) + " ("@ + decimal(flat_tabs(b.windows).len()) + " tabs) ===\n"@
        + tabs_text(flat_tabs(b.windows), 0) + "\n"@
}

pub open spec fn export_text(bs: Seq<BrowserWindowsModel>) -> Seq<char>
    decreases bs.len(),
{
    if bs.len() == 0 {
        Seq::empty()
    } else {
        export_text(bs.drop_last()) + browser_text(bs.last())
    }
}

fn write_entry(out: &mut String, e: &crate::model::NavEntry, current: Option<usize>)
    ensures
        final(out)@ == old(out)@ + entry_line(e@, current),
{
    out.append("      [");
    push_decimal(out, e.index as u64);
    out.append("] ");
    out.append(e.url.as_str());
    let is_current = match current {
        Some(c) => c == e.index,
        None => false,
    };
    if is_current {
        out.append(" <-- current");
    }
    out.append("\n");
    proof {
        if is_current {
            assert(final(out)@ =~= old(out)@ + entry_line(e@, current));
        } else {
            assert(final(out)@ =~= old(out)@ + entry_line(e@, current));
        }
    }
}

fn write_visit(out: &mut String, v: &crate::model::VisitEntry)
    ensures
        final(out)@ == old(out)@ + visit_line(v@),
{
    out.append("      [");
    push_signed_decimal(out, v.visit_time);
    out.append("] ");
    out.append(v.url.as_str());
    match &v.from_url {
        Some(f) => {
            out.append(" (from ");
            out.append(f.as_str());
            out.append(")");
        },
        None => {},
    }
    out.append("\n");
    proof {
        assert(final(out)@ =~= old(out)@ + visit_line(v@));
    }
}

/// The history section of a tab's text.
pub open spec fn history_section(t: TabModel) -> Seq<char> {
    if t.history.len() > 0 {
        "    History ("@ + decimal(t.history.len()) + " entries):\n"@ + history_lines(
            t.history,
            t.current_index,
        )
    } else {
        Seq::empty()
    }
}

/// The visit-history section of a tab's text.
pub open spec fn visit_section(t: TabModel) -> Seq<char> {
    if t.deep_history.len() > 0 {
        "    Deep History ("@ + decimal(t.deep_history.len()) + " visits):\n"@ + visit_lines(
            t.deep_history,
        )
    } else {
        Seq::empty()
    }
}

fn write_history_section(out: &mut String, tab: &Tab)
    ensures
        final(out)@ == old(out)@ + history_section(tab@),
{
    let ghost t = tab@;
    let n = tab.history.len();
    if n > 0 {
        out.append("    History (");
        push_decimal(out, n as u64);
        out.append(" entries):\n");
        let ghost base = out@;
        for i in 0..n
            invariant
                n == tab.history@.len(),
                t == tab@,
                out@ == base + history_lines(t.history.take(i as int), t.current_index),
        {
            proof {
                assert(t.history.take(i + 1).drop_last() =~= t.history.take(i as int));
                assert(t.history.take(i + 1).last() == tab.history@[i as int]@);
            }
            write_entry(out, &tab.history[i], tab.current_index);
            proof {
                assert(out@ =~= base + history_lines(t.history.take(i + 1), t.current_index));
            }
        }
        proof {
            assert(t.history.take(n as int) =~= t.history);
            assert(final(out)@ =~= old(out)@ + history_section(tab@));
        }
    } else {
        proof {
            assert(final(out)@ =~= old(out)@ + history_section(tab@));
        }
    }
}

fn write_visit_section(out: &mut String, tab: &Tab)
    ensures
        final(out)@ == old(out)@ + visit_section(tab@),
{
    let ghost t = tab@;
    let m = tab.deep_history.len();
    if m > 0 {
        out.append("    Deep History (");
        push_decimal(out, m as u64);
        out.append(" visits):\n");
        let ghost base = out@;
        for i in 0..m
            invariant
                m == tab.deep_history@.len(),
                t == tab@,
                out@ == base + visit_lines(t.deep_history.take(i as int)),
        {
            proof {
                assert(t.deep_history.take(i + 1).drop_last() =~= t.deep_history.take(i as int));
                assert(t.deep_history.take(i + 1).last() == tab.deep_history@[i as int]@);
            }
            write_visit(out, &tab.deep_history[i]);
            proof {
                assert(out@ =~= base + visit_lines(t.deep_history.take(i + 1)));
            }
        }
        proof {
            assert(t.deep_history.take(m as int) =~= t.deep_history);
            assert(final(out)@ =~= old(out)@ + visit_section(tab@));
        }
    } else {
        proof {
            assert(final(out)@ =~= old(out)@ + visit_section(tab@));
        }
    }
}

fn write_tab(out: &mut String, tab: &Tab, number: usize)
    ensures
        final(out)@ == old(out)@ + tab_text(tab@, number as nat),
{
    out.append("  Tab ");
    push_decimal(out, number as u64);
    out.append(": ");
    out.append(tab.title.as_str());
    out.append("\n");
    out.append("    URL: ");
    out.append(tab.url.as_str());
    out.append("\n");
    write_history_section(out, tab);
    write_visit_section(out, tab);
    proof {
        assert(final(out)@ =~= old(out)@ + tab_text(tab@, number as nat));
    }
}

fn write_window_tabs(out: &mut String, tabs: &Vec<Tab>, base: usize)
    requires
        base + tabs@.len() <= usize::MAX,
    ensures
        final(out)@ == old(out)@ + tabs_text(crate::model::tabs_view(tabs@), base as nat),
{
    let ghost tv = crate::model::tabs_view(tabs@);
    let nt = tabs.len();
    let mut number = base;
    proof {
        assert(old(out)@ + tabs_text(tv.take(0), base as nat) =~= old(out)@);
    }
    for j in 0..nt
        invariant
            nt == tabs@.len(),
            tv == crate::model::tabs_view(tabs@),
            base + nt <= usize::MAX,
            number == base + j,
            out@ == old(out)@ + tabs_text(tv.take(j as int), base as nat),
    {
        let ghost x = tv.take(j as int);
        proof {
            assert(tv.take(j + 1).drop_last() =~= x);
            assert(tv.take(j + 1).last() == tv[j as int]);
        }
        number = number + 1;
        write_tab(out, &tabs[j], number);
        proof {
            assert(tabs@[j as int]@ == tv[j as int]);
            assert(out@ =~= old(out)@ + tabs_text(tv.take(j + 1), base as nat));
        }
    }
    proof {
        assert(tv.take(nt as int) =~= tv);
    }
}

fn write_browser(out: &mut String, bw: &BrowserWindows)
    requires
        tab_total(bw.windows@) <= usize::MAX,
    ensures
        final(out)@ == old(out)@ + browser_text(bw@),
{
    let ghost wv = windows_view(bw.windows@);
    proof {
        lemma_flat_tabs_len(bw.windows@);
    }
    let total = bw.tab_count();
    out.append("=== ");
    out.append(bw.browser.name().as_str());
    out.append(" (");
    push_decimal(out, total as u64);
    out.append(" tabs) ===\n");
    let ghost head = out@;
    let mut number: usize = 0;
    let nw = bw.windows.len();
    proof {
        assert(wv.take(0) =~= Seq::<WindowModel>::empty());
    }
    for w in 0..nw
        invariant
            nw == bw.windows@.len(),
            wv == windows_view(bw.windows@),
            flat_tabs(wv).len() <= usize::MAX,
            number == flat_tabs(wv.take(w as int)).len(),
            out@ == head + tabs_text(flat_tabs(wv.take(w as int)), 0),
    {
        let ghost done = flat_tabs(wv.take(w as int));
        let ghost tv = wv[w as int].tabs;
        proof {
            assert(wv.take(w + 1).drop_last() =~= wv.take(w as int));
            assert(wv.take(w + 1).last() == wv[w as int]);
            lemma_flat_prefix_len(wv, w + 1);
            lemma_tabs_text_concat(done, tv, 0);
        }
        let tabs = &bw.windows[w].tabs;
        write_window_tabs(out, tabs, number);
        number = number + tabs.len();
    }
    out.append("\n");
    proof {
        assert(wv.take(nw as int) =~= wv);
        assert(final(out)@ =~= old(out)@ + browser_text(bw@));
    }
}

/// Renders an export as readable text: per browser a heading with its tab
/// count and then each tab with its history and visit history.
pub fn write_text(export: &Export) -> (text: String)
    requires
        export_fits(*export),
    ensures
        text@ == export_text(browsers_view(export.browsers@)),
{
    let ghost bv = browsers_view(export.browsers@);
    let mut out = String::new();
    let nb = export.browsers.len();
    for b in 0..nb
        invariant
            nb == export.browsers@.len(),
            bv == browsers_view(export.browsers@),
            export_fits(*export),
            out@ == export_text(bv.take(b as int)),
    {
        proof {
            assert(tab_total(export.browsers@[b as int].windows@) <= usize::MAX);
            assert(bv.take(b + 1).drop_last() =~= bv.take(b as int));
            assert(bv.take(b + 1).last() == export.browsers@[b as int]@);
        }
        write_browser(&mut out, &export.browsers[b]);
    }
    proof {
        assert(bv.take(nb as int) =~= bv);
    }
    out
}

/// The tabs of a prefix of the windows are no more than those of all windows.
pub proof fn lemma_flat_prefix_len(ws: Seq<WindowModel>, k: int)
    requires
        0 <= k <= ws.len(),
    ensures
        flat_tabs(ws.take(k)).len() <= flat_tabs(ws).len(),
    decreases ws.len(),
{
    if k < ws.len() {
        assert(ws.drop_last().take(k) =~= ws.take(k));
        lemma_flat_prefix_len(ws.drop_last(), k);
    } else {
        assert(ws.take(k) =~= ws);
    }
}

// ---------------------------------------------------------------------------
// CSV
// ---------------------------------------------------------------------------

pub open spec fn csv_header() -> Seq<char> {
    "browser,tab_index,url,title,history_index,history_url,history_title\n"@
}

/// One CSV row: the tab's fields and, when given, one history entry's fields.
pub open spec fn csv_row(browser: Seq<char>, tab_index: nat, t: TabModel, e: Option<NavModel>) -> Seq<
    char,
> {
    csv_tab_fields(browser, tab_index, t) + csv_entry_fields(e) + "\n"@
}

/// The tab's columns: browser, tab index, URL, title.
pub open spec fn csv_tab_fields(browser: Seq<char>, tab_index: nat, t: TabModel) -> Seq<char> {
    browser + ","@ + decimal(tab_index) + ","@ + csv_field(t.url) + ","@ + csv_field(t.title)
}

/// The history columns: index, URL, title, or three empty columns.
pub open spec fn csv_entry_fields(e: Option<NavModel>) -> Seq<char> {
    match e {
        None => ",,,"@,
        Some(e) => ","@ + decimal(e.index as nat) + ","@ + csv_field(e.url) + ","@ + csv_field(
            e.title,
        ),
    }
}

/// One row per history entry; a tab without history still gets one row.
pub open spec fn tab_rows(browser: Seq<char>, tab_index: nat, t: TabModel) -> Seq<Seq<char>> {
    if t.history.len() == 0 {
        seq![csv_row(browser, tab_index, t, None)]
    } else {
        t.history.map_values(|e: NavModel| csv_row(browser, tab_index, t, Some(e)))
    }
}

/// The rows of tabs numbered on from `base` (0-based).
pub open spec fn tabs_rows(browser: Seq<char>, ts: Seq<TabModel>, base: nat) -> Seq<Seq<char>>
    decreases ts.len(),
{
    if ts.len() == 0 {
        Seq::empty()
    } else {
        tabs_rows(browser, ts.drop_last(), base) + tab_rows(
            browser,
            (base + ts.len() - 1) as nat,
            ts.last(),
        )
    }
}

pub open spec fn browser_rows(b: BrowserWindowsModel) -> Seq<Seq<char>> {
    tabs_rows(kind_name(b.browser), flat_tabs(b.windows), 0)
}

pub open spec fn export_rows(bs: Seq<BrowserWindowsModel>) -> Seq<Seq<char>>
    decreases bs.len(),
{
    if bs.len() == 0 {
        Seq::empty()
    } else {
        export_rows(bs.drop_last()) + browser_rows(bs.last())
    }
}

/// Rows written one after another.
pub open spec fn joined(rows: Seq<Seq<char>>) -> Seq<char>
    decreases rows.len(),
{
    if rows.len() == 0 {
        Seq::empty()
    } else {
        joined(rows.drop_last()) + rows.last()
    }
}

pub open spec fn export_csv(bs: Seq<BrowserWindowsModel>) -> Seq<char> {
    csv_header() + joined(export_rows(bs))
}

pub proof fn lemma_joined_concat(a: Seq<Seq<char>>, b: Seq<Seq<char>>)
    ensures
        joined(a + b) == joined(a) + joined(b),
    decreases b.len(),
{
    if b.len() == 0 {
        assert(a + b =~= a);
        assert(joined(a) + joined(b) =~= joined(a));
    } else {
        lemma_joined_concat(a, b.drop_last());
        assert((a + b).drop_last() =~= a + b.drop_last());
        assert((a + b).last() == b.last());
        assert(joined(a + b) =~= joined(a) + joined(b));
    }
}

pub proof fn lemma_tabs_rows_concat(browser: Seq<char>, a: Seq<TabModel>, b: Seq<TabModel>, base: nat)
    ensures
        tabs_rows(browser, a + b, base) == tabs_rows(browser, a, base) + tabs_rows(
            browser,
            b,
            base + a.len(),
        ),
    decreases b.len(),
{
    if b.len() == 0 {
        assert(a + b =~= a);
        assert(tabs_rows(browser, a, base) + tabs_rows(browser, b, base + a.len()) =~= tabs_rows(
            browser,
            a,
            base,
        ));
    } else {
        lemma_tabs_rows_concat(browser, a, b.drop_last(), base);
        assert((a + b).drop_last() =~= a + b.drop_last());
        assert((a + b).last() == b.last());
        assert(tabs_rows(browser, a + b, base) =~= tabs_rows(browser, a, base) + tabs_rows(
            browser,
            b,
            base + a.len(),
        ));
    }
}

/// A tab's CSV rows do not depend on its visit history: deep history is not
/// exported as CSV.
pub proof fn lemma_csv_ignores_deep_history(
    browser: Seq<char>,
    tab_index: nat,
    t: TabModel,
    visits: Seq<VisitModel>,
)
    ensures
        tab_rows(browser, tab_index, t) == tab_rows(
            browser,
            tab_index,
            TabModel { deep_history: visits, ..t },
        ),
{
    let u = TabModel { deep_history: visits, ..t };
    if t.history.len() > 0 {
        assert(t.history.map_values(|e: NavModel| csv_row(browser, tab_index, t, Some(e)))
            =~= u.history.map_values(|e: NavModel| csv_row(browser, tab_index, u, Some(e))));
    }
}

/// Rows a tab contributes: its history length, or one when it has no history.
pub open spec fn tab_row_count(t: TabModel) -> nat {
    if t.history.len() == 0 {
        1
    } else {
        t.history.len()
    }
}

pub open spec fn row_count(ts: Seq<TabModel>) -> nat
    decreases ts.len(),
{
    if ts.len() == 0 {
        0
    } else {
        row_count(ts.drop_last()) + tab_row_count(ts.last())
    }
}

/// The CSV holds one row per history entry, and one row for each tab without
/// history.
pub proof fn lemma_csv_row_count(browser: Seq<char>, ts: Seq<TabModel>, base: nat)
    ensures
        tabs_rows(browser, ts, base).len() == row_count(ts),
    decreases ts.len(),
{
    if ts.len() > 0 {
        lemma_csv_row_count(browser, ts.drop_last(), base);
    }
}

fn write_csv_tab_fields(out: &mut String, browser: &str, tab_index: usize, tab: &Tab)
    ensures
        final(out)@ == old(out)@ + csv_tab_fields(browser@, tab_index as nat, tab@),
{
    out.append(browser);
    out.append(",");
    push_decimal(out, tab_index as u64);
    out.append(",");
    let url = csv_escape(tab.url.as_str());
    out.append(url.as_str());
    out.append(",");
    let title = csv_escape(tab.title.as_str());
    out.append(title.as_str());
    proof {
        assert(out@ =~= old(out)@ + csv_tab_fields(browser@, tab_index as nat, tab@));
    }
}

fn write_csv_entry_fields(out: &mut String, entry: Option<&crate::model::NavEntry>)
    ensures
        final(out)@ == old(out)@ + csv_entry_fields(
            match entry {
                Some(e) => Some(e@),
                None => None,
            },
        ),
{
    match entry {
        None => {
            out.append(",,,");
        },
        Some(e) => {
            out.append(",");
            push_decimal(out, e.index as u64);
            out.append(",");
            let url = csv_escape(e.url.as_str());
            out.append(url.as_str());
            out.append(",");
            let title = csv_escape(e.title.as_str());
            out.append(title.as_str());
            proof {
                assert(out@ =~= old(out)@ + csv_entry_fields(Some(e@)));
            }
        },
    }
}

fn write_csv_row(out: &mut String, browser: &str, tab_index: usize, tab: &Tab, entry: Option<&crate::model::NavEntry>)
    ensures
        final(out)@ == old(out)@ + csv_row(
            browser@,
            tab_index as nat,
            tab@,
            match entry {
                Some(e) => Some(e@),
                None => None,
            },
        ),
{
    write_csv_tab_fields(out, browser, tab_index, tab);
    write_csv_entry_fields(out, entry);
    out.append("\n");
    proof {
        assert(out@ =~= old(out)@ + csv_row(
            browser@,
            tab_index as nat,
            tab@,
            match entry {
                Some(e) => Some(e@),
                None => None,
            },
        ));
    }
}

fn write_csv_tab(out: &mut String, browser: &str, tab_index: usize, tab: &Tab)
    ensures
        final(out)@ == old(out)@ + joined(tab_rows(browser@, tab_index as nat, tab@)),
{
    let ghost t = tab@;
    let n = tab.history.len();
    if n == 0 {
        write_csv_row(out, browser, tab_index, tab, None);
        proof {
            let rows = tab_rows(browser@, tab_index as nat, t);
            assert(rows.drop_last() =~= Seq::<Seq<char>>::empty());
            assert(joined(rows.drop_last()) == Seq::<char>::empty());
            assert(out@ =~= old(out)@ + joined(rows));
        }
    } else {
        let ghost rows = tab_rows(browser@, tab_index as nat, t);
        for i in 0..n
            invariant
                n == tab.history@.len(),
                n > 0,
                t == tab@,
                rows == tab_rows(browser@, tab_index as nat, t),
                out@ == old(out)@ + joined(rows.take(i as int)),
        {
            proof {
                assert(rows.take(i + 1).drop_last() =~= rows.take(i as int));
                assert(rows.take(i + 1).last() == rows[i as int]);
                assert(rows[i as int] == csv_row(browser@, tab_index as nat, t, Some(tab.history@[i as int]@)));
            }
            write_csv_row(out, browser, tab_index, tab, Some(&tab.history[i]));
            proof {
                assert(out@ =~= old(out)@ + joined(rows.take(i + 1)));
            }
        }
        proof {
            assert(rows.take(n as int) =~= rows);
        }
    }
}

fn write_csv_window_tabs(out: &mut String, browser: &str, tabs: &Vec<Tab>, base: usize)
    requires
        base + tabs@.len() <= usize::MAX,
    ensures
        final(out)@ == old(out)@ + joined(tabs_rows(browser@, crate::model::tabs_view(tabs@), base as nat)),
{
    let ghost tv = crate::model::tabs_view(tabs@);
    let nt = tabs.len();
    proof {
        assert(old(out)@ + joined(tabs_rows(browser@, tv.take(0), base as nat)) =~= old(out)@);
    }
    for j in 0..nt
        invariant
            nt == tabs@.len(),
            tv == crate::model::tabs_view(tabs@),
            base + nt <= usize::MAX,
            out@ == old(out)@ + joined(tabs_rows(browser@, tv.take(j as int), base as nat)),
    {
        let ghost x = tv.take(j as int);
        let ghost before = out@;
        proof {
            assert(tv.take(j + 1).drop_last() =~= x);
            assert(tv.take(j + 1).last() == tv[j as int]);
            assert(tabs@[j as int]@ == tv[j as int]);
        }
        write_csv_tab(out, browser, base + j, &tabs[j]);
        proof {
            lemma_joined_concat(
                tabs_rows(browser@, x, base as nat),
                tab_rows(browser@, (base + j) as nat, tv[j as int]),
            );
            assert(out@ =~= old(out)@ + joined(tabs_rows(browser@, tv.take(j + 1), base as nat)));
        }
    }
    proof {
        assert(tv.take(nt as int) =~= tv);
    }
}

fn write_csv_browser(out: &mut String, bw: &BrowserWindows)
    requires
        tab_total(bw.windows@) <= usize::MAX,
    ensures
        final(out)@ == old(out)@ + joined(browser_rows(bw@)),
{
    let ghost wv = windows_view(bw.windows@);
    proof {
        lemma_flat_tabs_len(bw.windows@);
    }
    let name = bw.browser.name();
    let ghost b = name@;
    let mut number: usize = 0;
    let nw = bw.windows.len();
    proof {
        assert(wv.take(0) =~= Seq::<WindowModel>::empty());
        assert(old(out)@ + joined(tabs_rows(b, flat_tabs(wv.take(0)), 0)) =~= old(out)@);
    }
    for w in 0..nw
        invariant
            nw == bw.windows@.len(),
            wv == windows_view(bw.windows@),
            b == name@,
            flat_tabs(wv).len() <= usize::MAX,
            number == flat_tabs(wv.take(w as int)).len(),
            out@ == old(out)@ + joined(tabs_rows(b, flat_tabs(wv.take(w as int)), 0)),
    {
        let ghost done = flat_tabs(wv.take(w as int));
        let ghost tv = wv[w as int].tabs;
        proof {
            assert(wv.take(w + 1).drop_last() =~= wv.take(w as int));
            assert(wv.take(w + 1).last() == wv[w as int]);
            lemma_flat_prefix_len(wv, w + 1);
            lemma_tabs_rows_concat(b, done, tv, 0);
            lemma_joined_concat(tabs_rows(b, done, 0), tabs_rows(b, tv, done.len()));
        }
        let tabs = &bw.windows[w].tabs;
        write_csv_window_tabs(out, name.as_str(), tabs, number);
        number = number + tabs.len();
    }
    proof {
        assert(wv.take(nw as int) =~= wv);
    }
}

/// Renders an export as CSV: a header, then for every tab one row per history
/// entry, or a single row with empty history columns when it has none.
pub fn write_csv(export: &Export) -> (csv: String)
    requires
        export_fits(*export),
    ensures
        csv@ == export_csv(browsers_view(export.browsers@)),
{
    let ghost bv = browsers_view(export.browsers@);
    let mut out = "browser,tab_index,url,title,history_index,history_url,history_title\n".to_owned();
    let nb = export.browsers.len();
    proof {
        assert(out@ =~= csv_header() + joined(export_rows(bv.take(0))));
    }
    for b in 0..nb
        invariant
            nb == export.browsers@.len(),
            bv == browsers_view(export.browsers@),
            export_fits(*export),
            out@ == csv_header() + joined(export_rows(bv.take(b as int))),
    {
        proof {
            assert(tab_total(export.browsers@[b as int].windows@) <= usize::MAX);
            assert(bv.take(b + 1).drop_last() =~= bv.take(b as int));
            assert(bv.take(b + 1).last() == export.browsers@[b as int]@);
            lemma_joined_concat(export_rows(bv.take(b as int)), browser_rows(export.browsers@[b as int]@));
        }
        write_csv_browser(&mut out, &export.browsers[b]);
        proof {
            assert(out@ =~= csv_header() + joined(export_rows(bv.take(b + 1))));
        }
    }
    proof {
        assert(bv.take(nb as int) =~= bv);
    }
    out
}

} // verus!

verus! {

/// A browser's text starts with its heading, which shows its name and its
/// total number of tabs over all windows (what `BrowserWindows::tab_count`
/// returns), however the tabs are split over windows.
pub proof fn lemma_heading_counts_all_tabs(bw: BrowserWindows)
    ensures
        ("=== "@ + kind_name(bw.browser) + " ("@ + decimal(tab_total(bw.windows@) as nat) + " tabs) ===\n"@).is_prefix_of(
            browser_text(bw@),
        ),
{
    crate::output::lemma_flat_tabs_len(bw.windows@);
    let h = "=== "@ + kind_name(bw.browser) + " ("@ + decimal(tab_total(bw.windows@) as nat) + " tabs) ===\n"@;
    let rest = tabs_text(flat_tabs(bw@.windows), 0) + "\n"@;
    assert(browser_text(bw@) =~= h + rest);
    assert((h + rest).subrange(0, h.len() as int) =~= h);
}

} // verus!
