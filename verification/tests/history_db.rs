use browsewake::browser::history_db::{chrome_time_to_unix_secs, collect_tab_visits};
use rusqlite::Connection;

fn create_test_db() -> Connection {
    let conn = Connection::open_in_memory().unwrap();
    conn.execute_batch(
        "CREATE TABLE urls (
            id INTEGER PRIMARY KEY,
            url TEXT NOT NULL,
            title TEXT NOT NULL DEFAULT ''
        );
        CREATE TABLE visits (
            id INTEGER PRIMARY KEY,
            url INTEGER NOT NULL REFERENCES urls(id),
            visit_time INTEGER NOT NULL,
            from_visit INTEGER NOT NULL DEFAULT 0
        );
        CREATE TABLE context_annotations (
            visit_id INTEGER PRIMARY KEY REFERENCES visits(id),
            tab_id INTEGER NOT NULL
        );",
    )
    .unwrap();
    conn
}

fn insert_url(conn: &Connection, id: i64, url: &str, title: &str) {
    conn.execute("INSERT INTO urls (id, url, title) VALUES (?, ?, ?)", (id, url, title))
        .unwrap();
}

fn insert_visit(conn: &Connection, id: i64, url_id: i64, time: i64, from_visit: i64) {
    conn.execute(
        "INSERT INTO visits (id, url, visit_time, from_visit) VALUES (?, ?, ?, ?)",
        (id, url_id, time, from_visit),
    )
    .unwrap();
}

fn annotate(conn: &Connection, visit_id: i64, tab_id: i32) {
    conn.execute(
        "INSERT INTO context_annotations (visit_id, tab_id) VALUES (?, ?)",
        (visit_id, tab_id),
    )
    .unwrap();
}

#[test]
fn collects_all_annotated_visits_for_tab() {
    let conn = create_test_db();
    // Linear chain: A -> B -> C (anchor)
    insert_url(&conn, 1, "https://a.example", "A");
    insert_url(&conn, 2, "https://b.example", "B");
    insert_url(&conn, 3, "https://c.example", "C");

    insert_visit(&conn, 10, 1, 100, 0);
    insert_visit(&conn, 11, 2, 200, 10);
    insert_visit(&conn, 12, 3, 300, 11);

    annotate(&conn, 10, 42);
    annotate(&conn, 11, 42);
    annotate(&conn, 12, 42);

    let visits = collect_tab_visits(&conn, 42, &["https://c.example".into()]).unwrap();

    let urls: Vec<_> = visits.iter().map(|v| v.url.as_str()).collect();
    assert_eq!(urls, vec!["https://a.example", "https://b.example", "https://c.example"]);
    assert_eq!(visits[0].from_url, None);
    assert_eq!(visits[1].from_url.as_deref(), Some("https://a.example"));
    assert_eq!(visits[2].from_url.as_deref(), Some("https://b.example"));
}

#[test]
fn includes_branching_descendants_for_same_tab() {
    let conn = create_test_db();
    // Tree: A -> B -> C, A -> D (branch from same root)
    insert_url(&conn, 1, "https://root.example", "Root");
    insert_url(&conn, 2, "https://b.example", "B");
    insert_url(&conn, 3, "https://c.example", "C");
    insert_url(&conn, 4, "https://d.example", "D");

    insert_visit(&conn, 10, 1, 100, 0);
    insert_visit(&conn, 11, 2, 200, 10);
    insert_visit(&conn, 12, 3, 300, 11);
    insert_visit(&conn, 13, 4, 400, 10); // branch from root

    for v in [10, 11, 12, 13] {
        annotate(&conn, v, 55);
    }

    let visits = collect_tab_visits(&conn, 55, &["https://d.example".into()]).unwrap();

    let urls: Vec<_> = visits.iter().map(|v| v.url.as_str()).collect();
    assert_eq!(
        urls,
        vec![
            "https://root.example",
            "https://b.example",
            "https://c.example",
            "https://d.example",
        ]
    );
}

#[test]
fn excludes_visits_for_different_tab() {
    let conn = create_test_db();
    insert_url(&conn, 1, "https://root.example", "Root");
    insert_url(&conn, 2, "https://same-tab.example", "Same");
    insert_url(&conn, 3, "https://other-tab.example", "Other");

    insert_visit(&conn, 10, 1, 100, 0);
    insert_visit(&conn, 11, 2, 200, 10);
    insert_visit(&conn, 12, 3, 300, 10);

    annotate(&conn, 10, 42);
    annotate(&conn, 11, 42);
    annotate(&conn, 12, 99); // different tab

    let visits = collect_tab_visits(&conn, 42, &["https://same-tab.example".into()]).unwrap();

    let urls: Vec<_> = visits.iter().map(|v| v.url.as_str()).collect();
    assert_eq!(urls, vec!["https://root.example", "https://same-tab.example"]);
}

#[test]
fn skips_unannotated_visits() {
    let conn = create_test_db();
    insert_url(&conn, 1, "https://a.example", "A");
    insert_url(&conn, 2, "https://redirect.example", "Redirect");
    insert_url(&conn, 3, "https://b.example", "B");

    insert_visit(&conn, 10, 1, 100, 0);
    insert_visit(&conn, 11, 2, 200, 10); // no annotation
    insert_visit(&conn, 12, 3, 300, 11);

    annotate(&conn, 10, 42);
    annotate(&conn, 12, 42);

    let visits = collect_tab_visits(&conn, 42, &["https://b.example".into()]).unwrap();

    let urls: Vec<_> = visits.iter().map(|v| v.url.as_str()).collect();
    assert_eq!(urls, vec!["https://a.example", "https://b.example"]);
}

#[test]
fn returns_empty_when_no_anchor_matches() {
    let conn = create_test_db();
    insert_url(&conn, 1, "https://a.example", "A");
    insert_visit(&conn, 10, 1, 100, 0);
    annotate(&conn, 10, 42);

    let visits = collect_tab_visits(&conn, 42, &["https://nonexistent.example".into()]).unwrap();

    assert!(visits.is_empty());
}

#[test]
fn includes_disconnected_roots_for_same_tab() {
    let conn = create_test_db();
    insert_url(&conn, 1, "https://typed1.example", "Typed1");
    insert_url(&conn, 2, "https://clicked.example", "Clicked");
    insert_url(&conn, 3, "https://typed2.example", "Typed2");
    insert_url(&conn, 4, "https://anchor.example", "Anchor");

    insert_visit(&conn, 10, 1, 100, 0); // typed
    insert_visit(&conn, 11, 2, 200, 10); // click from typed1
    insert_visit(&conn, 12, 3, 300, 0); // typed (disconnected root)
    insert_visit(&conn, 13, 4, 400, 12); // click from typed2 (anchor)

    for v in [10, 11, 12, 13] {
        annotate(&conn, v, 42);
    }

    let visits = collect_tab_visits(&conn, 42, &["https://anchor.example".into()]).unwrap();

    let urls: Vec<_> = visits.iter().map(|v| v.url.as_str()).collect();
    assert_eq!(
        urls,
        vec![
            "https://typed1.example",
            "https://clicked.example",
            "https://typed2.example",
            "https://anchor.example",
        ]
    );
}

#[test]
fn excludes_visits_after_temporal_anchor() {
    let conn = create_test_db();
    insert_url(&conn, 1, "https://old.example", "Old");
    insert_url(&conn, 2, "https://anchor.example", "Anchor");
    insert_url(&conn, 3, "https://future.example", "Future");

    insert_visit(&conn, 10, 1, 100, 0);
    insert_visit(&conn, 11, 2, 200, 10); // anchor
    insert_visit(&conn, 12, 3, 500, 0); // later session reusing same tab_id

    annotate(&conn, 10, 42);
    annotate(&conn, 11, 42);
    annotate(&conn, 12, 42);

    let visits = collect_tab_visits(&conn, 42, &["https://anchor.example".into()]).unwrap();

    let urls: Vec<_> = visits.iter().map(|v| v.url.as_str()).collect();
    assert_eq!(urls, vec!["https://old.example", "https://anchor.example"]);
}

#[test]
fn temporal_anchor_uses_latest_matching_visit() {
    let conn = create_test_db();
    insert_url(&conn, 1, "https://a.example", "A");
    insert_url(&conn, 2, "https://anchor.example", "Anchor");
    insert_url(&conn, 3, "https://c.example", "C");

    insert_visit(&conn, 10, 1, 100, 0);
    insert_visit(&conn, 11, 2, 200, 10); // anchor, earlier
    insert_visit(&conn, 12, 3, 300, 0);
    insert_visit(&conn, 13, 2, 400, 12); // anchor, later

    for v in [10, 11, 12, 13] {
        annotate(&conn, v, 42);
    }

    let visits = collect_tab_visits(&conn, 42, &["https://anchor.example".into()]).unwrap();

    let urls: Vec<_> = visits.iter().map(|v| v.url.as_str()).collect();
    assert_eq!(
        urls,
        vec![
            "https://a.example",
            "https://anchor.example",
            "https://c.example",
            "https://anchor.example",
        ]
    );
}

#[test]
fn chrome_epoch_converts_to_unix_seconds() {
    // 1601-01-01 + 11_644_473_600 s is the Unix epoch.
    assert_eq!(chrome_time_to_unix_secs(11_644_473_600_000_000), 0);
    assert_eq!(chrome_time_to_unix_secs(13_000_000_000_999_999), 1_355_526_400);
    // Before 1970 the division rounds toward zero.
    assert_eq!(chrome_time_to_unix_secs(11_644_473_599_500_000), 0);
    assert_eq!(chrome_time_to_unix_secs(0), -11_644_473_600);
    assert_eq!(chrome_time_to_unix_secs(i64::MIN), -9_235_016_510_454);
}

#[test]
fn visit_times_in_collected_visits_are_unix_seconds() {
    let conn = create_test_db();
    insert_url(&conn, 1, "https://a.example", "A");
    insert_visit(&conn, 10, 1, 13_000_000_000_000_000, 0);
    annotate(&conn, 10, 7);
    let visits = collect_tab_visits(&conn, 7, &["https://a.example".into()]).unwrap();
    assert_eq!(visits.len(), 1);
    assert_eq!(visits[0].visit_time, 1_355_526_400);
    assert_eq!(visits[0].title, "A");
}

#[test]
fn no_anchor_urls_gives_no_visits() {
    let conn = create_test_db();
    let visits = collect_tab_visits(&conn, 42, &[]).unwrap();
    assert!(visits.is_empty());
}

use browsewake::browser::history_db::{apply_deep_history, read_anchored_history, tab_anchors};
use browsewake::model::{NavEntry, Tab, VisitEntry, Window};

fn tab(url: &str, tab_id: Option<i32>, history: &[&str]) -> Tab {
    Tab {
        url: url.into(),
        title: String::new(),
        history: history
            .iter()
            .enumerate()
            .map(|(i, u)| NavEntry { url: u.to_string(), title: String::new(), index: i })
            .collect(),
        current_index: None,
        deep_history: vec![],
        tab_id,
    }
}

#[test]
fn anchors_use_history_or_current_url() {
    let windows = vec![
        Window { tabs: vec![tab("https://x.example", Some(1), &["https://w.example", "https://x.example"])] },
        Window { tabs: vec![tab("https://y.example", None, &[]), tab("https://z.example", Some(2), &[])] },
    ];
    let anchors = tab_anchors(&windows);
    assert_eq!(
        anchors,
        vec![
            (1, vec!["https://w.example".to_string(), "https://x.example".to_string()]),
            (2, vec!["https://z.example".to_string()]),
        ]
    );
}

#[test]
fn deep_history_goes_to_the_tabs_with_matching_ids() {
    let conn = create_test_db();
    insert_url(&conn, 1, "https://a.example", "A");
    insert_url(&conn, 2, "https://b.example", "B");
    insert_visit(&conn, 10, 1, 100, 0);
    insert_visit(&conn, 11, 2, 200, 10);
    annotate(&conn, 10, 1);
    annotate(&conn, 11, 1);

    let mut windows = vec![Window {
        tabs: vec![tab("https://b.example", Some(1), &[]), tab("https://q.example", Some(2), &[])],
    }];
    let anchors = tab_anchors(&windows);
    let history = read_anchored_history(&conn, &anchors);
    assert_eq!(history.len(), 1);
    apply_deep_history(&mut windows, &history);
    let urls: Vec<_> = windows[0].tabs[0].deep_history.iter().map(|v| v.url.as_str()).collect();
    assert_eq!(urls, vec!["https://a.example", "https://b.example"]);
    assert!(windows[0].tabs[1].deep_history.is_empty());

    let visit = VisitEntry { url: "u".into(), title: "t".into(), visit_time: 1, from_url: None };
    let mut windows2 = vec![Window { tabs: vec![tab("https://b.example", None, &[])] }];
    apply_deep_history(&mut windows2, &vec![(1, vec![visit])]);
    assert!(windows2[0].tabs[0].deep_history.is_empty());
}

#[test]
fn deep_history_leaves_the_back_forward_list_alone() {
    let visit = VisitEntry {
        url: "https://older.example".into(),
        title: "Older".into(),
        visit_time: 5,
        from_url: Some("https://root.example".into()),
    };
    let mut windows = vec![Window {
        tabs: vec![tab("https://b.example", Some(3), &["https://a.example", "https://b.example"])],
    }];
    apply_deep_history(&mut windows, &vec![(3, vec![visit])]);
    let t = &windows[0].tabs[0];
    assert_eq!(t.deep_history.len(), 1);
    assert_eq!(t.history.len(), 2);
    assert_eq!(t.history[0].url, "https://a.example");
    assert_eq!(t.history[1].url, "https://b.example");
    assert_eq!(t.url, "https://b.example");
    assert_eq!(t.tab_id, Some(3));
}

use browsewake::browser::history_db::{record_outcome, tab_visits, VisitRow};

fn row(url: &str, time: i64) -> VisitRow {
    VisitRow { url: url.into(), title: String::new(), visit_time: time, from_url: None, tab_id: 1 }
}

#[test]
fn tab_visits_follow_the_two_query_outcomes() {
    let chrome_2020 = 13_222_310_400_000_000i64;
    let rows = vec![row("https://a.example", chrome_2020), row("https://b.example", chrome_2020 + 5_000_000)];
    let v = tab_visits(Some(chrome_2020 + 5_000_000), Ok(rows)).unwrap();
    assert_eq!(v.len(), 2);
    assert_eq!(v[0].visit_time, 1_577_836_800);
    assert_eq!(v[1].visit_time, 1_577_836_805);
    assert!(tab_visits(None, Ok(vec![row("https://a.example", 1)])).unwrap().is_empty());
    assert_eq!(tab_visits(Some(1), Err("boom".into())).unwrap_err(), "boom");
}

#[test]
fn recording_outcomes_keeps_found_visits_last_wins() {
    let visit = |u: &str| VisitEntry { url: u.into(), title: String::new(), visit_time: 0, from_url: None };
    let mut h = Vec::new();
    record_outcome(&mut h, 1, Ok(vec![visit("https://a.example")]));
    record_outcome(&mut h, 2, Ok(vec![]));
    record_outcome(&mut h, 3, Err("failed".into()));
    record_outcome(&mut h, 1, Ok(vec![visit("https://b.example")]));
    assert_eq!(h.len(), 1);
    assert_eq!(h[0].0, 1);
    assert_eq!(h[0].1[0].url, "https://b.example");
}
