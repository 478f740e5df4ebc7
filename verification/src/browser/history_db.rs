//! Chromium History database: visits recorded per tab, anchored to the URLs of
//! the current session so that only the tab's own, earlier visits are kept.
use vstd::prelude::*;
use crate::model::{NavModel, Tab, TabModel, VisitEntry, VisitModel, Window, WindowModel, empty_tab_model, navs_view, opt_view, visits_view, windows_view};

verus! {

#[verifier::external_type_specification]
#[verifier::external_body]
pub struct ExConnection(rusqlite::Connection);

/// Microseconds between 1601-01-01 (the Windows FILETIME epoch that Chromium
/// uses) and 1970-01-01.
pub open spec fn chrome_epoch_offset_us() -> int {
    11_644_473_600_000_000
}

/// Integer division rounding toward zero, as Rust's `/` does.
pub open spec fn trunc_div(a: int, b: int) -> int {
    if a >= 0 {
        a / b
    } else {
        -((-a) / b)
    }
}

/// Unix seconds for a Chromium visit time.
pub open spec fn unix_secs(chrome_us: i64) -> int {
    trunc_div(chrome_us - chrome_epoch_offset_us(), 1_000_000)
}

/// Converts microseconds since 1601-01-01 to seconds since the Unix epoch.
pub fn chrome_time_to_unix_secs(chrome_us: i64) -> (secs: i64)
    ensures
        secs == unix_secs(chrome_us),
{
    let d: i128 = chrome_us as i128 - 11_644_473_600_000_000i128;
    let q: i128 = if d >= 0 {
        ((d as u128) / 1_000_000u128) as i128
    } else {
        -(((-d) as u128 / 1_000_000u128) as i128)
    };
    q as i64
}

// ---------------------------------------------------------------------------
// Anchors
// ---------------------------------------------------------------------------

/// The URLs a tab is anchored by: its back/forward list, or its current URL
/// when it has none.
pub open spec fn tab_anchor_urls(t: TabModel) -> Seq<Seq<char>> {
    if t.history.len() > 0 {
        t.history.map_values(|e: crate::model::NavModel| e.url)
    } else {
        seq![t.url]
    }
}

/// Tabs that carry a browser tab id, with their anchor URLs.
pub open spec fn tab_anchor(t: TabModel) -> Option<(i32, Seq<Seq<char>>)> {
    match t.tab_id {
        Some(id) => Some((id, tab_anchor_urls(t))),
        None => None,
    }
}

pub open spec fn anchors_of(ws: Seq<WindowModel>) -> Seq<(i32, Seq<Seq<char>>)>
    decreases ws.len(),
{
    if ws.len() == 0 {
        Seq::empty()
    } else {
        anchors_of(ws.drop_last()) + ws.last().tabs.filter_map(|t: TabModel| tab_anchor(t))
    }
}

pub open spec fn strings_view(v: Seq<String>) -> Seq<Seq<char>> {
    v.map_values(|s: String| s@)
}

pub open spec fn anchors_view(v: Seq<(i32, Vec<String>)>) -> Seq<(i32, Seq<Seq<char>>)> {
    v.map_values(|a: (i32, Vec<String>)| (a.0, strings_view(a.1@)))
}

fn anchor_urls_of(tab: &Tab) -> (urls: Vec<String>)
    ensures
        strings_view(urls@) == tab_anchor_urls(tab@),
{
    let mut urls: Vec<String> = Vec::new();
    let n = tab.history.len();
    for i in 0..n
        invariant
            n == tab.history@.len(),
            urls@.len() == i,
            forall|k: int| 0 <= k < i ==> #[trigger] urls@[k]@ == tab.history@[k].url@,
    {
        urls.push(tab.history[i].url.clone());
    }
    if n == 0 {
        urls.push(tab.url.clone());
        proof {
            assert(strings_view(urls@) =~= seq![tab.url@]);
        }
    } else {
        proof {
            assert(strings_view(urls@) =~= tab_anchor_urls(tab@));
        }
    }
    urls
}

/// The (tab id, anchor URLs) of every tab that has a tab id, window by window.
pub fn tab_anchors(windows: &Vec<Window>) -> (anchors: Vec<(i32, Vec<String>)>)
    ensures
        anchors_view(anchors@) == anchors_of(windows_view(windows@)),
{
    let ghost wv = windows_view(windows@);
    let ghost f = |t: TabModel| tab_anchor(t);
    let mut anchors: Vec<(i32, Vec<String>)> = Vec::new();
    let n = windows.len();
    for w in 0..n
        invariant
            n == windows@.len(),
            wv == windows_view(windows@),
            f == (|t: TabModel| tab_anchor(t)),
            anchors_view(anchors@) == anchors_of(wv.take(w as int)),
    {
        let tabs = &windows[w].tabs;
        let ghost tv = wv[w as int].tabs;
        let ghost base = anchors_of(wv.take(w as int));
        let m = tabs.len();
        for j in 0..m
            invariant
                m == tabs@.len(),
                tv == crate::model::tabs_view(tabs@),
                f == (|t: TabModel| tab_anchor(t)),
                anchors_view(anchors@) == base + tv.take(j as int).filter_map(f),
        {
            proof {
                assert(tv.take(j + 1).drop_last() =~= tv.take(j as int));
                assert(tv.take(j + 1).last() == tabs@[j as int]@);
            }
            let tab = &tabs[j];
            match tab.tab_id {
                Some(id) => {
                    let urls = anchor_urls_of(tab);
                    let ghost before = anchors@;
                    anchors.push((id, urls));
                    proof {
                        assert(anchors_view(anchors@) =~= anchors_view(before).push(
                            (id, strings_view(urls@)),
                        ));
                    }
                },
                None => {},
            }
        }
        proof {
            assert(tv.take(m as int) =~= tv);
            assert(wv.take(w + 1).drop_last() =~= wv.take(w as int));
            assert(wv.take(w + 1).last() == wv[w as int]);
        }
    }
    proof {
        assert(wv.take(n as int) =~= wv);
    }
    anchors
}

// ---------------------------------------------------------------------------
// Queries
// ---------------------------------------------------------------------------

/// One row of the visits query: URL, title, raw visit time, the URL of the
/// visit it came from, and the tab the visit is annotated with.
pub struct VisitRow {
    pub url: String,
    pub title: String,
    pub visit_time: i64,
    pub from_url: Option<String>,
    pub tab_id: i64,
}

/// The query for the latest visit of a tab to one of its anchor URLs, up to the
/// opening of the `IN (` list.
pub open spec fn anchor_sql_head() -> Seq<char> {
    "SELECT MAX(v.visit_time) FROM visits v JOIN urls u ON u.id = v.url JOIN context_annotations ca ON ca.visit_id = v.id WHERE ca.tab_id = ? AND u.url IN ("@
}

/// `n` comma-separated `?` placeholders.
pub open spec fn placeholders(n: nat) -> Seq<char>
    decreases n,
{
    if n == 0 {
        Seq::empty()
    } else if n == 1 {
        seq!['?']
    } else {
        placeholders((n - 1) as nat) + seq![',', '?']
    }
}

pub open spec fn anchor_sql(n: nat) -> Seq<char> {
    anchor_sql_head() + placeholders(n) + seq![')']
}

/// The query for all visits of a tab up to a time, oldest first, with the URL of
/// the visit each came from.
pub open spec fn visits_sql() -> Seq<char> {
    "SELECT u.url, u.title, v.visit_time, fv_url.url AS from_url, ca.tab_id FROM context_annotations ca JOIN visits v ON v.id = ca.visit_id JOIN urls u ON u.id = v.url LEFT JOIN visits fv ON fv.id = v.from_visit AND v.from_visit != 0 LEFT JOIN urls fv_url ON fv_url.id = fv.url WHERE ca.tab_id = ? AND v.visit_time <= ? ORDER BY v.visit_time ASC"@
}

fn build_anchor_sql(n: usize) -> (sql: String)
    ensures
        sql@ == anchor_sql(n as nat),
{
    let mut sql = "SELECT MAX(v.visit_time) FROM visits v JOIN urls u ON u.id = v.url JOIN context_annotations ca ON ca.visit_id = v.id WHERE ca.tab_id = ? AND u.url IN (".to_owned();
    let ghost head = sql@;
    for i in 0..n
        invariant
            sql@ == head + placeholders(i as nat),
    {
        proof {
            reveal_strlit("?");
            reveal_strlit(",?");
        }
        if i == 0 {
            sql.append("?");
            proof {
                assert(placeholders(1) == seq!['?']);
            }
        } else {
            sql.append(",?");
            proof {
                assert(placeholders(i as nat + 1) == placeholders(i as nat) + seq![',', '?']);
            }
        }
    }
    proof {
        reveal_strlit(")");
    }
    sql.append(")");
    sql
}

/// Runs the anchor query through `rusqlite::Connection::query_row`, binding the
/// tab id and then each anchor URL, and reads column 0 as an optional integer.
/// Any error, like an empty result, gives `None`. What comes back depends on the
/// database, so nothing is claimed of it.
#[verifier::external_body]
fn query_latest_anchor_time(
    conn: &rusqlite::Connection,
    sql: &str,
    tab_id: i32,
    anchor_urls: &[String],
) -> Option<i64>
    requires
        sql@ == anchor_sql(anchor_urls@.len()),
{
    let mut params: Vec<&dyn rusqlite::ToSql> = vec![&tab_id];
    for url in anchor_urls {
        params.push(url);
    }
    conn.query_row(sql, params.as_slice(), |row| row.get::<usize, Option<i64>>(0)).ok().flatten()
}

/// Every row is annotated with tab `tab_id`.
pub open spec fn rows_of_tab(rows: Seq<VisitRow>, tab_id: i32) -> bool {
    forall|i: int| 0 <= i < rows.len() ==> #[trigger] rows[i].tab_id == tab_id
}

/// Rows ordered by visit time, oldest first.
pub open spec fn rows_ascending(rows: Seq<VisitRow>) -> bool {
    forall|i: int, j: int| 0 <= i < j < rows.len() ==> #[trigger] rows[i].visit_time <= #[trigger] rows[j].visit_time
}

/// Runs the visits query through `Connection::prepare` and
/// `Statement::query_map`, binding the tab id and the time bound, and reads
/// each row's five columns. An error is handed on as its message. Which rows
/// come back depends on the database; what the query itself guarantees is
/// claimed: its `ORDER BY v.visit_time ASC` returns them oldest first, its
/// `v.visit_time <= ?` keeps only times up to the bound, and its
/// `ca.tab_id = ?` only the bound tab's visits (a value that is not an integer
/// either fails those tests or cannot be read as `i64`, an error).
#[verifier::external_body]
fn query_visit_rows(conn: &rusqlite::Connection, sql: &str, tab_id: i32, upper_bound: i64) -> (r: Result<Vec<VisitRow>, String>)
    requires
        sql@ == visits_sql(),
    ensures
        r matches Ok(rows) ==> rows_ascending(rows@) && forall|i: int|
            0 <= i < rows@.len() ==> (#[trigger] rows@[i]).visit_time <= upper_bound && rows@[i].tab_id
                == tab_id,
{
    let mut stmt = match conn.prepare(sql) {
        Ok(s) => s,
        Err(e) => return Err(e.to_string()),
    };
    let rows = stmt.query_map((tab_id, upper_bound), |row| {
        Ok(VisitRow { url: row.get(0)?, title: row.get(1)?, visit_time: row.get(2)?, from_url: row.get(3)?, tab_id: row.get(4)? })
    });
    match rows {
        Ok(rows) => rows.collect::<Result<Vec<VisitRow>, rusqlite::Error>>().map_err(|e| e.to_string()),
        Err(e) => Err(e.to_string()),
    }
}

/// The visit a row describes, its time in Unix seconds.
pub open spec fn row_visit(row: VisitRow) -> VisitModel {
    VisitModel {
        url: row.url@,
        title: row.title@,
        visit_time: unix_secs(row.visit_time) as i64,
        from_url: opt_view(row.from_url),
    }
}

pub open spec fn rows_visits(rows: Seq<VisitRow>) -> Seq<VisitModel> {
    rows.map_values(|r: VisitRow| row_visit(r))
}

fn copy_opt_string(s: &Option<String>) -> (r: Option<String>)
    ensures
        opt_view(r) == opt_view(*s),
{
    match s {
        Some(s) => Some(s.clone()),
        None => None,
    }
}

/// Turns query rows into visits, converting their times to Unix seconds.
pub fn visits_from_rows(rows: &Vec<VisitRow>) -> (visits: Vec<VisitEntry>)
    ensures
        visits_view(visits@) == rows_visits(rows@),
{
    let mut visits: Vec<VisitEntry> = Vec::new();
    let n = rows.len();
    for i in 0..n
        invariant
            n == rows@.len(),
            visits@.len() == i,
            forall|k: int| 0 <= k < i ==> #[trigger] visits@[k]@ == row_visit(rows@[k]),
    {
        let row = &rows[i];
        visits.push(
            VisitEntry {
                url: row.url.clone(),
                title: row.title.clone(),
                visit_time: chrome_time_to_unix_secs(row.visit_time),
                from_url: copy_opt_string(&row.from_url),
            },
        );
    }
    proof {
        assert(visits_view(visits@) =~= rows_visits(rows@));
    }
    visits
}

/// Visits ordered by time, oldest first.
pub open spec fn visits_ascending(v: Seq<VisitModel>) -> bool {
    forall|i: int, j: int| 0 <= i < j < v.len() ==> #[trigger] v[i].visit_time <= #[trigger] v[j].visit_time
}

/// Converting Chromium times keeps their order.
pub proof fn lemma_unix_secs_monotone(a: i64, b: i64)
    requires
        a <= b,
    ensures
        unix_secs(a) <= unix_secs(b),
{
    let x = a - chrome_epoch_offset_us();
    let y = b - chrome_epoch_offset_us();
    if x >= 0 {
        vstd::arithmetic::div_mod::lemma_div_is_ordered(x, y, 1_000_000);
    } else if y < 0 {
        vstd::arithmetic::div_mod::lemma_div_is_ordered(-y, -x, 1_000_000);
    } else {
        vstd::arithmetic::div_mod::lemma_div_pos_is_pos(y, 1_000_000);
        vstd::arithmetic::div_mod::lemma_div_pos_is_pos(-x, 1_000_000);
    }
}

proof fn lemma_rows_visits_ascending(rows: Seq<VisitRow>)
    requires
        rows_ascending(rows),
    ensures
        visits_ascending(rows_visits(rows)),
{
    let v = rows_visits(rows);
    assert forall|i: int, j: int| 0 <= i < j < v.len() implies #[trigger] v[i].visit_time <= #[trigger] v[j].visit_time by {
        assert(rows[i].visit_time <= rows[j].visit_time);
        lemma_unix_secs_monotone(rows[i].visit_time, rows[j].visit_time);
        chrome_time_fits(rows[i].visit_time);
        chrome_time_fits(rows[j].visit_time);
    }
}

/// A converted time fits in an `i64`.
proof fn chrome_time_fits(t: i64)
    ensures
        i64::MIN <= unix_secs(t) <= i64::MAX,
{
    let x = t - chrome_epoch_offset_us();
    if x >= 0 {
        vstd::arithmetic::div_mod::lemma_div_is_ordered(x, 0x7fff_ffff_ffff_ffffint, 1_000_000);
        vstd::arithmetic::div_mod::lemma_div_pos_is_pos(x, 1_000_000);
    } else {
        vstd::arithmetic::div_mod::lemma_div_is_ordered(-x, 0x1_0000_0000_0000_0000int, 1_000_000);
        vstd::arithmetic::div_mod::lemma_div_pos_is_pos(-x, 1_000_000);
    }
}

/// The visits of a tab once its queries have answered: none when the anchor
/// query found no visit to an anchor URL, otherwise the visits of the rows the
/// visits query returned, or that query's error.
pub fn tab_visits(anchor_time: Option<i64>, rows: Result<Vec<VisitRow>, String>) -> (r: Result<
    Vec<VisitEntry>,
    String,
>)
    ensures
        match anchor_time {
            None => r matches Ok(v) && v@.len() == 0,
            Some(_) => match rows {
                Ok(rs) => r matches Ok(v) && visits_view(v@) == rows_visits(rs@),
                Err(e) => r matches Err(m) && m == e,
            },
        },
{
    match anchor_time {
        None => Ok(Vec::new()),
        Some(_) => match rows {
            Ok(rs) => Ok(visits_from_rows(&rs)),
            Err(e) => Err(e),
        },
    }
}

/// All annotated visits of a tab up to its latest visit to one of the anchor
/// URLs, oldest first. Without anchors, or when no anchor was visited in this
/// tab, there are none; otherwise they are the visits of the rows the visits
/// query returns, bounded by the time the anchor query found (`tab_visits`).
pub fn collect_tab_visits(conn: &rusqlite::Connection, tab_id: i32, anchor_urls: &[String]) -> (r:
    Result<Vec<VisitEntry>, String>)
    ensures
        anchor_urls@.len() == 0 ==> (r matches Ok(v) && v@.len() == 0),
        r matches Ok(v) ==> exists|rows: Seq<VisitRow>|
            rows_ascending(rows) && rows_of_tab(rows, tab_id) && visits_view(v@) == rows_visits(rows),
        r matches Ok(v) ==> visits_ascending(visits_view(v@)),
{
    if anchor_urls.len() == 0 {
        let v: Vec<VisitEntry> = Vec::new();
        proof {
            assert(rows_ascending(Seq::<VisitRow>::empty()));
            assert(rows_of_tab(Seq::<VisitRow>::empty(), tab_id));
            assert(visits_view(v@) =~= rows_visits(Seq::<VisitRow>::empty()));
        }
        return Ok(v);
    }
    let sql = build_anchor_sql(anchor_urls.len());
    let anchor_time = query_latest_anchor_time(conn, sql.as_str(), tab_id, anchor_urls);
    let visits_query = "SELECT u.url, u.title, v.visit_time, fv_url.url AS from_url, ca.tab_id FROM context_annotations ca JOIN visits v ON v.id = ca.visit_id JOIN urls u ON u.id = v.url LEFT JOIN visits fv ON fv.id = v.from_visit AND v.from_visit != 0 LEFT JOIN urls fv_url ON fv_url.id = fv.url WHERE ca.tab_id = ? AND v.visit_time <= ? ORDER BY v.visit_time ASC";
    let rows = match anchor_time {
        Some(t) => query_visit_rows(conn, visits_query, tab_id, t),
        None => Ok(Vec::new()),
    };
    let ghost rows_seq = match &rows {
        Ok(rs) => rs@,
        Err(_) => Seq::<VisitRow>::empty(),
    };
    let r = tab_visits(anchor_time, rows);
    proof {
        assert(rows_ascending(rows_seq));
        assert(rows_of_tab(rows_seq, tab_id));
        lemma_rows_visits_ascending(rows_seq);
        if anchor_time is None {
            assert(rows_ascending(Seq::<VisitRow>::empty()));
            assert(rows_of_tab(Seq::<VisitRow>::empty(), tab_id));
            lemma_rows_visits_ascending(Seq::<VisitRow>::empty());
            assert(rows_visits(Seq::<VisitRow>::empty()) =~= Seq::<VisitModel>::empty());
            if let Ok(v) = &r {
                assert(visits_view(v@) =~= Seq::<VisitModel>::empty());
                assert(visits_view(v@) == rows_visits(Seq::<VisitRow>::empty()));
            }
        } else if let Ok(v) = &r {
            assert(visits_view(v@) == rows_visits(rows_seq));
        }
    }
    r
}

// ---------------------------------------------------------------------------
// Per-tab visit lists
// ---------------------------------------------------------------------------

/// The visits recorded for `id`: the last entry for it wins.
pub open spec fn lookup_visits(h: Seq<(i32, Vec<VisitEntry>)>, id: i32) -> Option<Seq<VisitModel>>
    decreases h.len(),
{
    if h.len() == 0 {
        None
    } else if h.last().0 == id {
        Some(visits_view(h.last().1@))
    } else {
        lookup_visits(h.drop_last(), id)
    }
}

pub open spec fn distinct_ids(h: Seq<(i32, Vec<VisitEntry>)>) -> bool {
    forall|a: int, b: int| 0 <= a < b < h.len() ==> h[a].0 != h[b].0
}

fn copy_visits(v: &Vec<VisitEntry>) -> (r: Vec<VisitEntry>)
    ensures
        visits_view(r@) == visits_view(v@),
{
    let mut r: Vec<VisitEntry> = Vec::new();
    let n = v.len();
    for i in 0..n
        invariant
            n == v@.len(),
            r@.len() == i,
            forall|k: int| 0 <= k < i ==> #[trigger] r@[k]@ == v@[k]@,
    {
        let e = &v[i];
        r.push(
            VisitEntry {
                url: e.url.clone(),
                title: e.title.clone(),
                visit_time: e.visit_time,
                from_url: copy_opt_string(&e.from_url),
            },
        );
    }
    proof {
        assert(visits_view(r@) =~= visits_view(v@));
    }
    r
}

fn find_visits(h: &Vec<(i32, Vec<VisitEntry>)>, id: i32) -> (r: Option<usize>)
    ensures
        match r {
            Some(k) => k < h@.len() && lookup_visits(h@, id) == Some(visits_view(h@[k as int].1@))
                && h@[k as int].0 == id,
            None => lookup_visits(h@, id) is None && forall|k: int| 0 <= k < h@.len() ==> h@[k].0 != id,
        },
{
    let mut i = h.len();
    proof {
        assert(h@.take(h@.len() as int) =~= h@);
    }
    while i > 0
        invariant
            i <= h@.len(),
            lookup_visits(h@, id) == lookup_visits(h@.take(i as int), id),
            forall|k: int| i <= k < h@.len() ==> h@[k].0 != id,
        decreases i,
    {
        proof {
            assert(h@.take(i as int).drop_last() =~= h@.take(i - 1));
            assert(h@.take(i as int).last() == h@[i - 1]);
        }
        if h[i - 1].0 == id {
            return Some(i - 1);
        }
        i = i - 1;
    }
    None
}

/// Records the visits of tab `id`, replacing what was recorded for it before.
pub fn upsert_visits(h: &mut Vec<(i32, Vec<VisitEntry>)>, id: i32, visits: Vec<VisitEntry>)
    requires
        distinct_ids(old(h)@),
    ensures
        distinct_ids(final(h)@),
        lookup_visits(final(h)@, id) == Some(visits_view(visits@)),
        forall|k: i32| k != id ==> lookup_visits(final(h)@, k) == lookup_visits(old(h)@, k),
{
    let ghost old_h = h@;
    match find_visits(h, id) {
        Some(k) => {
            h.set(k, (id, visits));
            proof {
                assert forall|q: i32| lookup_visits(h@, q) == (if q == id {
                    Some(visits_view(visits@))
                } else {
                    lookup_visits(old_h, q)
                }) by {
                    lemma_lookup_distinct(h@, q);
                    lemma_lookup_distinct(old_h, q);
                    if q != id {
                        if lookup_visits(old_h, q) is Some {
                            let p = choose|p: int| 0 <= p < old_h.len() && old_h[p].0 == q;
                            assert(h@[p] == old_h[p]);
                        }
                    } else {
                        assert(h@[k as int].0 == q);
                    }
                }
            }
        },
        None => {
            h.push((id, visits));
            proof {
                assert(h@.drop_last() =~= old_h);
            }
        },
    }
}

proof fn lemma_lookup_distinct(h: Seq<(i32, Vec<VisitEntry>)>, id: i32)
    requires
        distinct_ids(h),
    ensures
        lookup_visits(h, id) is None <==> forall|p: int| 0 <= p < h.len() ==> h[p].0 != id,
        forall|p: int| 0 <= p < h.len() && h[p].0 == id ==> lookup_visits(h, id) == Some(visits_view(h[p].1@)),
    decreases h.len(),
{
    if h.len() > 0 {
        lemma_lookup_distinct(h.drop_last(), id);
        assert forall|p: int| 0 <= p < h.len() - 1 implies h.drop_last()[p] == h[p] by {}
    }
}

/// What a tab's visit search gave: its visits, or `None` when it failed.
pub open spec fn outcome_view(r: Result<Vec<VisitEntry>, String>) -> Option<Seq<VisitModel>> {
    match r {
        Ok(v) => Some(visits_view(v@)),
        Err(_) => None,
    }
}

/// A search that succeeded and found at least one visit.
pub open spec fn found(out: Option<Seq<VisitModel>>) -> bool {
    out matches Some(v) && v.len() > 0
}

/// What `collect_tab_visits` guarantees of its outcome whatever the database
/// holds: without anchor URLs it finds nothing, and what it finds are the
/// visits of query rows of that tab, oldest first.
pub open spec fn possible_outcome(
    tab_id: i32,
    anchor_urls: Seq<String>,
    out: Option<Seq<VisitModel>>,
) -> bool {
    &&& anchor_urls.len() == 0 ==> (out matches Some(v) && v.len() == 0)
    &&& out matches Some(v) ==> visits_ascending(v) && exists|rows: Seq<VisitRow>|
        rows_ascending(rows) && rows_of_tab(rows, tab_id) && v == rows_visits(rows)
}

/// The visits recorded for `id` after the searches for `anchors`, whose
/// outcomes are `outs`: those of the last anchor with that id whose search
/// found visits.
pub open spec fn recorded(
    anchors: Seq<(i32, Vec<String>)>,
    outs: Seq<Option<Seq<VisitModel>>>,
    id: i32,
) -> Option<Seq<VisitModel>>
    decreases anchors.len(),
{
    if anchors.len() == 0 || outs.len() == 0 {
        None
    } else if anchors.last().0 == id && found(outs.last()) {
        outs.last()
    } else {
        recorded(anchors.drop_last(), outs.drop_last(), id)
    }
}

/// `h` is what the searches for `anchors`, with outcomes `outs`, record.
pub open spec fn anchored_result(
    anchors: Seq<(i32, Vec<String>)>,
    outs: Seq<Option<Seq<VisitModel>>>,
    h: Seq<(i32, Vec<VisitEntry>)>,
) -> bool {
    &&& outs.len() == anchors.len()
    &&& forall|i: int| 0 <= i < outs.len() ==> possible_outcome(anchors[i].0, anchors[i].1@, #[trigger] outs[i])
    &&& forall|id: i32| #[trigger] lookup_visits(h, id) == recorded(anchors, outs, id)
}

/// Takes one tab's search outcome into the record: visits that were found
/// replace what was recorded for the tab id; a failed or empty search changes
/// nothing.
pub fn record_outcome(
    h: &mut Vec<(i32, Vec<VisitEntry>)>,
    tab_id: i32,
    outcome: Result<Vec<VisitEntry>, String>,
)
    requires
        distinct_ids(old(h)@),
    ensures
        distinct_ids(final(h)@),
        forall|id: i32|
            #[trigger] lookup_visits(final(h)@, id) == if id == tab_id && found(outcome_view(outcome)) {
                outcome_view(outcome)
            } else {
                lookup_visits(old(h)@, id)
            },
{
    match outcome {
        Ok(visits) => {
            if visits.len() > 0 {
                upsert_visits(h, tab_id, visits);
            }
        },
        Err(_) => {},
    }
}

/// The visits of every anchored tab, each tab's searched anew; tabs whose
/// search fails or finds nothing are left out, and a tab id anchored twice
/// keeps the visits of the last of its tabs whose search found some. Which
/// visits each search finds depends on the database; the result is the fold of
/// `record_outcome` over some outcomes that `collect_tab_visits` allows.
pub fn read_anchored_history(conn: &rusqlite::Connection, tab_anchors: &Vec<(i32, Vec<String>)>) -> (h:
    Vec<(i32, Vec<VisitEntry>)>)
    ensures
        distinct_ids(h@),
        exists|outs: Seq<Option<Seq<VisitModel>>>| #[trigger] anchored_result(tab_anchors@, outs, h@),
{
    let mut h: Vec<(i32, Vec<VisitEntry>)> = Vec::new();
    let ghost mut outs: Seq<Option<Seq<VisitModel>>> = Seq::empty();
    let n = tab_anchors.len();
    for i in 0..n
        invariant
            n == tab_anchors@.len(),
            distinct_ids(h@),
            anchored_result(tab_anchors@.take(i as int), outs, h@),
    {
        let tab_id = tab_anchors[i].0;
        let outcome = collect_tab_visits(conn, tab_id, tab_anchors[i].1.as_slice());
        let ghost out = outcome_view(outcome);
        let ghost old_h = h@;
        record_outcome(&mut h, tab_id, outcome);
        proof {
            let a = tab_anchors@.take(i + 1);
            let o = outs.push(out);
            assert(a.drop_last() =~= tab_anchors@.take(i as int));
            assert(o.drop_last() =~= outs);
            assert(a.last() == tab_anchors@[i as int]);
            assert forall|k: int| 0 <= k < o.len() implies possible_outcome(a[k].0, a[k].1@, #[trigger] o[k]) by {
                if k < i {
                    assert(o[k] == outs[k]);
                    assert(a[k] == tab_anchors@.take(i as int)[k]);
                }
            }
            assert forall|id: i32| #[trigger] lookup_visits(h@, id) == recorded(a, o, id) by {
                assert(lookup_visits(old_h, id) == recorded(tab_anchors@.take(i as int), outs, id));
            }
            outs = o;
        }
    }
    proof {
        assert(tab_anchors@.take(n as int) =~= tab_anchors@);
        assert(anchored_result(tab_anchors@, outs, h@));
    }
    h
}

/// A tab given the visits recorded for its tab id, if any.
pub open spec fn with_deep_history(t: TabModel, h: Seq<(i32, Vec<VisitEntry>)>) -> TabModel {
    match t.tab_id {
        Some(id) => match lookup_visits(h, id) {
            Some(v) => TabModel { deep_history: v, ..t },
            None => t,
        },
        None => t,
    }
}

pub open spec fn window_with_deep_history(w: WindowModel, h: Seq<(i32, Vec<VisitEntry>)>) -> WindowModel {
    WindowModel { tabs: w.tabs.map_values(|t: TabModel| with_deep_history(t, h)) }
}

/// Deep history is supplemental: adding it to a tab changes nothing but the
/// tab's deep history, and in particular never extends its back/forward list.
pub proof fn lemma_deep_history_keeps_history(t: TabModel, h: Seq<(i32, Vec<VisitEntry>)>)
    ensures
        with_deep_history(t, h).history == t.history,
        with_deep_history(t, h).current_index == t.current_index,
        with_deep_history(t, h).url == t.url,
        with_deep_history(t, h).title == t.title,
        with_deep_history(t, h).tab_id == t.tab_id,
{
}

fn blank_tab() -> (t: Tab)
    ensures
        t@ == empty_tab_model(),
{
    let t = Tab {
        url: String::new(),
        title: String::new(),
        history: Vec::new(),
        current_index: None,
        deep_history: Vec::new(),
        tab_id: None,
    };
    proof {
        assert(navs_view(t.history@) =~= Seq::<NavModel>::empty());
        assert(visits_view(t.deep_history@) =~= Seq::<VisitModel>::empty());
        assert(t@ =~= empty_tab_model());
    }
    t
}

/// Gives every tab whose tab id has recorded visits those visits as its deep
/// history; everything else is left as it was.
pub fn apply_deep_history(windows: &mut Vec<Window>, history: &Vec<(i32, Vec<VisitEntry>)>)
    ensures
        windows_view(final(windows)@) == windows_view(old(windows)@).map_values(
            |w: WindowModel| window_with_deep_history(w, history@),
        ),
{
    let ghost old_w = windows@;
    let n = windows.len();
    for i in 0..n
        invariant
            n == windows@.len(),
            old_w.len() == n,
            forall|k: int| 0 <= k < i ==> #[trigger] windows@[k]@ == window_with_deep_history(old_w[k]@, history@),
            forall|k: int| i <= k < n ==> #[trigger] windows@[k] == old_w[k],
    {
        let mut w = Window { tabs: Vec::new() };
        windows.set_and_swap(i, &mut w);
        let ghost old_tabs = w.tabs@;
        let m = w.tabs.len();
        for j in 0..m
            invariant
                m == w.tabs@.len(),
                old_tabs.len() == m,
                forall|k: int| 0 <= k < j ==> #[trigger] w.tabs@[k]@ == with_deep_history(old_tabs[k]@, history@),
                forall|k: int| j <= k < m ==> #[trigger] w.tabs@[k] == old_tabs[k],
        {
            let mut t = blank_tab();
            w.tabs.set_and_swap(j, &mut t);
            match t.tab_id {
                Some(id) => match find_visits(history, id) {
                    Some(k) => {
                        t.deep_history = copy_visits(&history[k].1);
                    },
                    None => {},
                },
                None => {},
            }
            w.tabs.set(j, t);
        }
        proof {
            assert(w@.tabs =~= old_tabs.map_values(|t: Tab| t@).map_values(
                |t: TabModel| with_deep_history(t, history@),
            ));
        }
        windows.set(i, w);
    }
    proof {
        assert(windows_view(windows@) =~= windows_view(old_w).map_values(
            |w: WindowModel| window_with_deep_history(w, history@),
        ));
    }
}

} // verus!
