use browsewake::browser::snss::{parse_session_file, parse_tabs_file};

fn command(cmd: &[u8]) -> Vec<u8> {
    let mut out = Vec::with_capacity(2 + cmd.len());
    out.extend_from_slice(&(cmd.len() as u16).to_le_bytes());
    out.extend_from_slice(cmd);
    out
}

fn session_file(commands: Vec<Vec<u8>>) -> Vec<u8> {
    let mut out = Vec::from(*b"SNSS");
    out.extend_from_slice(&[0, 0, 0, 0]);
    for cmd in commands {
        out.extend_from_slice(&cmd);
    }
    out
}

fn set_tab_window(window_id: i32, tab_id: i32) -> Vec<u8> {
    let mut cmd = vec![0];
    cmd.extend_from_slice(&window_id.to_le_bytes());
    cmd.extend_from_slice(&tab_id.to_le_bytes());
    command(&cmd)
}

fn set_tab_index(tab_id: i32, visual_index: i32) -> Vec<u8> {
    let mut cmd = vec![2];
    cmd.extend_from_slice(&tab_id.to_le_bytes());
    cmd.extend_from_slice(&visual_index.to_le_bytes());
    command(&cmd)
}

fn prune_from_back(tab_id: i32, index: i32) -> Vec<u8> {
    let mut cmd = vec![5];
    cmd.extend_from_slice(&tab_id.to_le_bytes());
    cmd.extend_from_slice(&index.to_le_bytes());
    command(&cmd)
}

fn set_selected_navigation_index(tab_id: i32, index: i32) -> Vec<u8> {
    let mut cmd = vec![7];
    cmd.extend_from_slice(&tab_id.to_le_bytes());
    cmd.extend_from_slice(&index.to_le_bytes());
    command(&cmd)
}

fn prune_from_front(tab_id: i32, count: i32) -> Vec<u8> {
    let mut cmd = vec![11];
    cmd.extend_from_slice(&tab_id.to_le_bytes());
    cmd.extend_from_slice(&count.to_le_bytes());
    command(&cmd)
}

fn update_tab_navigation(cmd_id: u8, tab_id: i32, index: i32, url: &str, title: &str) -> Vec<u8> {
    let mut cmd = vec![cmd_id];
    cmd.extend_from_slice(&[0, 0, 0, 0]);
    cmd.extend_from_slice(&tab_id.to_le_bytes());
    cmd.extend_from_slice(&index.to_le_bytes());
    cmd.extend_from_slice(&(url.len() as u32).to_le_bytes());
    cmd.extend_from_slice(url.as_bytes());
    let url_padding = (4 - (url.len() % 4)) % 4;
    cmd.extend(std::iter::repeat_n(0, url_padding));

    let title_u16: Vec<u16> = title.encode_utf16().collect();
    cmd.extend_from_slice(&(title_u16.len() as u32).to_le_bytes());
    for ch in title_u16 {
        cmd.extend_from_slice(&ch.to_le_bytes());
    }
    let title_byte_len = title.encode_utf16().count() * 2;
    let title_padding = (4 - (title_byte_len % 4)) % 4;
    cmd.extend(std::iter::repeat_n(0, title_padding));

    command(&cmd)
}

#[test]
fn session_tabs_follow_visual_index_order() {
    let data = session_file(vec![
        set_tab_window(7, 300),
        set_tab_window(7, 100),
        update_tab_navigation(6, 300, 0, "https://third.example", "Third"),
        update_tab_navigation(6, 100, 0, "https://first.example", "First"),
        set_tab_index(300, 2),
        set_tab_index(100, 0),
        set_tab_window(7, 200),
        update_tab_navigation(6, 200, 0, "https://second.example", "Second"),
        set_tab_index(200, 1),
    ]);

    let windows = parse_session_file(&data).unwrap();
    let urls: Vec<_> = windows[0].tabs.iter().map(|tab| tab.url.as_str()).collect();

    assert_eq!(
        urls,
        vec![
            "https://first.example",
            "https://second.example",
            "https://third.example"
        ]
    );
}

#[test]
fn session_tabs_fall_back_to_first_seen_order_without_visual_index() {
    let data = session_file(vec![
        set_tab_window(5, 20),
        update_tab_navigation(6, 20, 0, "https://second.example", "Second"),
        set_tab_window(5, 10),
        update_tab_navigation(6, 10, 0, "https://first.example", "First"),
    ]);

    let windows = parse_session_file(&data).unwrap();
    let urls: Vec<_> = windows[0].tabs.iter().map(|tab| tab.url.as_str()).collect();

    assert_eq!(urls, vec!["https://second.example", "https://first.example"]);
}

#[test]
fn tabs_file_follows_first_seen_tab_order() {
    let data = session_file(vec![
        update_tab_navigation(1, 50, 0, "https://two.example", "Two"),
        update_tab_navigation(1, 10, 0, "https://one.example", "One"),
        update_tab_navigation(1, 90, 0, "https://three.example", "Three"),
    ]);

    let tabs = parse_tabs_file(&data).unwrap();
    let urls: Vec<_> = tabs.iter().map(|tab| tab.url.as_str()).collect();

    assert_eq!(
        urls,
        vec![
            "https://two.example",
            "https://one.example",
            "https://three.example"
        ]
    );
}

#[test]
fn tab_history_remains_sorted_by_navigation_index() {
    let data = session_file(vec![
        set_tab_window(1, 42),
        update_tab_navigation(6, 42, 2, "https://third.example", "Third"),
        update_tab_navigation(6, 42, 0, "https://first.example", "First"),
        update_tab_navigation(6, 42, 1, "https://second.example", "Second"),
        set_selected_navigation_index(42, 2),
        set_tab_index(42, 0),
    ]);

    let windows = parse_session_file(&data).unwrap();
    let history_urls: Vec<_> = windows[0].tabs[0]
        .history
        .iter()
        .map(|entry| entry.url.as_str())
        .collect();

    assert_eq!(
        history_urls,
        vec![
            "https://first.example",
            "https://second.example",
            "https://third.example"
        ]
    );
    assert_eq!(windows[0].tabs[0].current_index, Some(2));
    assert_eq!(windows[0].tabs[0].url, "https://third.example");
}

#[test]
fn session_prunes_old_entries_from_front_and_renumbers_history() {
    let data = session_file(vec![
        set_tab_window(1, 99),
        update_tab_navigation(6, 99, 3, "https://four.example", "Four"),
        update_tab_navigation(6, 99, 4, "https://five.example", "Five"),
        update_tab_navigation(6, 99, 5, "https://six.example", "Six"),
        prune_from_front(99, 3),
        set_selected_navigation_index(99, 2),
        set_tab_index(99, 0),
    ]);

    let windows = parse_session_file(&data).unwrap();
    let tab = &windows[0].tabs[0];
    let history: Vec<_> = tab.history.iter().map(|entry| entry.index).collect();
    let urls: Vec<_> = tab.history.iter().map(|entry| entry.url.as_str()).collect();

    assert_eq!(history, vec![0, 1, 2]);
    assert_eq!(
        urls,
        vec![
            "https://four.example",
            "https://five.example",
            "https://six.example"
        ]
    );
    assert_eq!(tab.current_index, Some(2));
    assert_eq!(tab.url, "https://six.example");
}

#[test]
fn session_preserves_original_indices_when_history_starts_above_zero() {
    // Entries 0-33 were pruned in an earlier session cycle; only 34+ are in the file.
    let data = session_file(vec![
        set_tab_window(1, 55),
        update_tab_navigation(6, 55, 34, "https://page34.example", "Page 34"),
        update_tab_navigation(6, 55, 35, "https://page35.example", "Page 35"),
        update_tab_navigation(6, 55, 36, "https://page36.example", "Page 36"),
        set_selected_navigation_index(55, 36),
        set_tab_index(55, 0),
    ]);

    let windows = parse_session_file(&data).unwrap();
    let tab = &windows[0].tabs[0];
    let indices: Vec<_> = tab.history.iter().map(|e| e.index).collect();

    assert_eq!(indices, vec![34, 35, 36]);
    assert_eq!(tab.current_index, Some(36));
    assert_eq!(tab.url, "https://page36.example");
}

#[test]
fn session_prunes_forward_entries_from_back_and_keeps_selected_item() {
    let data = session_file(vec![
        set_tab_window(1, 77),
        update_tab_navigation(6, 77, 0, "https://one.example", "One"),
        update_tab_navigation(6, 77, 1, "https://two.example", "Two"),
        update_tab_navigation(6, 77, 2, "https://three.example", "Three"),
        update_tab_navigation(6, 77, 3, "https://four.example", "Four"),
        prune_from_back(77, 2),
        set_selected_navigation_index(77, 1),
        set_tab_index(77, 0),
    ]);

    let windows = parse_session_file(&data).unwrap();
    let tab = &windows[0].tabs[0];
    let urls: Vec<_> = tab.history.iter().map(|entry| entry.url.as_str()).collect();

    assert_eq!(urls, vec!["https://one.example", "https://two.example"]);
    assert_eq!(tab.current_index, Some(1));
    assert_eq!(tab.url, "https://two.example");
}

use browsewake::error::BrowseWakeError;

#[test]
fn missing_header_is_rejected() {
    let err = parse_session_file(b"SNSX\0\0\0\0").unwrap_err();
    assert!(matches!(err, BrowseWakeError::Snss(m) if m == "invalid SNSS header"));
    assert!(parse_tabs_file(b"SNSS").is_err());
    assert!(parse_session_file(b"SNSS\0\0\0\0").unwrap().is_empty());
}

#[test]
fn journal_ends_at_empty_or_truncated_command() {
    let mut data = session_file(vec![
        set_tab_window(1, 5),
        update_tab_navigation(6, 5, 0, "https://kept.example", "Kept"),
    ]);
    data.extend_from_slice(&[0, 0]); // empty command: end of journal
    data.extend_from_slice(&update_tab_navigation(6, 5, 0, "https://lost.example", "Lost"));
    let windows = parse_session_file(&data).unwrap();
    assert_eq!(windows[0].tabs[0].url, "https://kept.example");

    let mut data = session_file(vec![update_tab_navigation(1, 5, 0, "https://kept.example", "K")]);
    data.extend_from_slice(&[200, 0, 1, 2, 3]); // claims 200 bytes, has 3
    let tabs = parse_tabs_file(&data).unwrap();
    assert_eq!(tabs.len(), 1);
}

#[test]
fn windows_come_in_id_order_with_unassigned_tabs_last() {
    let data = session_file(vec![
        update_tab_navigation(6, 3, 0, "https://loose.example", "Loose"),
        set_tab_window(9, 1),
        update_tab_navigation(6, 1, 0, "https://nine.example", "Nine"),
        set_tab_window(-4, 2),
        update_tab_navigation(6, 2, 0, "https://minus-four.example", "MinusFour"),
        set_tab_window(9, 7), // window 9 tab without any URL: dropped
    ]);
    let windows = parse_session_file(&data).unwrap();
    let urls: Vec<Vec<&str>> = windows
        .iter()
        .map(|w| w.tabs.iter().map(|t| t.url.as_str()).collect())
        .collect();
    assert_eq!(
        urls,
        vec![
            vec!["https://minus-four.example"],
            vec!["https://nine.example"],
            vec!["https://loose.example"]
        ]
    );
    assert_eq!(windows[1].tabs[0].tab_id, Some(1));
}

#[test]
fn later_update_of_an_index_replaces_the_earlier_one() {
    let data = session_file(vec![
        update_tab_navigation(6, 4, 0, "https://old.example", "Old"),
        update_tab_navigation(6, 4, 0, "https://new.example", "New"),
        update_tab_navigation(6, 4, -1, "https://ignored.example", "Ignored"),
    ]);
    let windows = parse_session_file(&data).unwrap();
    let tab = &windows[0].tabs[0];
    assert_eq!(tab.history.len(), 1);
    assert_eq!(tab.url, "https://new.example");
    assert_eq!(tab.title, "New");
}

#[test]
fn missing_selection_falls_back_to_last_entry() {
    let data = session_file(vec![
        update_tab_navigation(6, 8, 0, "https://a.example", "A"),
        update_tab_navigation(6, 8, 1, "https://b.example", "B"),
        set_selected_navigation_index(8, 5),
    ]);
    let windows = parse_session_file(&data).unwrap();
    assert_eq!(windows[0].tabs[0].current_index, Some(1));
    assert_eq!(windows[0].tabs[0].url, "https://b.example");

    // A selection pruned from the front below zero is cleared.
    let data = session_file(vec![
        update_tab_navigation(6, 8, 0, "https://a.example", "A"),
        update_tab_navigation(6, 8, 4, "https://e.example", "E"),
        set_selected_navigation_index(8, 0),
        prune_from_front(8, 2),
    ]);
    let windows = parse_session_file(&data).unwrap();
    let tab = &windows[0].tabs[0];
    assert_eq!(tab.history.len(), 1);
    assert_eq!(tab.history[0].index, 2);
    assert_eq!(tab.current_index, Some(2));

    // Pruning from the back clears a selection at or past the cut.
    let data = session_file(vec![
        update_tab_navigation(6, 8, 0, "https://a.example", "A"),
        update_tab_navigation(6, 8, 1, "https://b.example", "B"),
        update_tab_navigation(6, 8, 2, "https://c.example", "C"),
        set_selected_navigation_index(8, 0),
        prune_from_back(8, 2),
        set_selected_navigation_index(8, 2),
        prune_from_back(8, 2),
    ]);
    let windows = parse_session_file(&data).unwrap();
    let tab = &windows[0].tabs[0];
    assert_eq!(tab.history.len(), 2);
    assert_eq!(tab.current_index, Some(1));
}

#[test]
fn titles_decode_from_utf16() {
    let data = session_file(vec![update_tab_navigation(
        1,
        2,
        0,
        "https://example.com/caf\u{e9}",
        "Gr\u{fc}\u{df}e \u{1F600}",
    )]);
    let tabs = parse_tabs_file(&data).unwrap();
    assert_eq!(tabs[0].title, "Gr\u{fc}\u{df}e \u{1F600}");
    assert_eq!(tabs[0].url, "https://example.com/caf\u{e9}");
}

use browsewake::browser::snss::newest_file;

#[test]
fn newest_file_prefers_latest_time_then_first_listed() {
    assert_eq!(newest_file(&[]), None);
    assert_eq!(newest_file(&[5]), Some(0));
    assert_eq!(newest_file(&[3, 9, 1, 9]), Some(1));
    assert_eq!(newest_file(&[-4, -2, -3]), Some(1));
}

use browsewake::browser::snss::{build_tab, update_navigation_entry, TabState};
use browsewake::model::NavEntry;

#[test]
fn new_navigation_entries_are_appended_and_sorted_when_built() {
    let mut state = TabState {
        tab_id: 3,
        window_id: None,
        visual_index: None,
        selected_navigation_index: None,
        navs: vec![NavEntry { url: "https://five.example".into(), title: "Five".into(), index: 5 }],
    };
    update_navigation_entry(&mut state, 2, "https://two.example".into(), "Two".into());
    let order: Vec<_> = state.navs.iter().map(|e| e.index).collect();
    assert_eq!(order, vec![5, 2]);
    update_navigation_entry(&mut state, 5, "https://new-five.example".into(), "New".into());
    let order: Vec<_> = state.navs.iter().map(|e| e.url.as_str()).collect();
    assert_eq!(order, vec!["https://new-five.example", "https://two.example"]);

    let tab = build_tab(&state);
    let indices: Vec<_> = tab.history.iter().map(|e| e.index).collect();
    assert_eq!(indices, vec![2, 5]);
    assert_eq!(tab.current_index, Some(5));
    assert_eq!(tab.url, "https://new-five.example");
}

#[test]
fn ignored_commands_change_nothing() {
    let plain = session_file(vec![
        set_tab_window(1, 5),
        update_tab_navigation(6, 5, 0, "https://a.example", "A"),
        set_tab_window(1, 6),
        update_tab_navigation(6, 6, 0, "https://b.example", "B"),
    ]);
    let with_noise = session_file(vec![
        set_tab_window(1, 5),
        command(&[3, 1, 2, 3]),
        update_tab_navigation(6, 5, 0, "https://a.example", "A"),
        command(&[0, 7, 0, 0]),
        set_tab_window(1, 6),
        command(&[11, 6, 0, 0, 0]),
        update_tab_navigation(6, 6, 0, "https://b.example", "B"),
    ]);
    let a = parse_session_file(&plain).unwrap();
    let b = parse_session_file(&with_noise).unwrap();
    let urls = |w: &Vec<browsewake::model::Window>| -> Vec<String> {
        w.iter().flat_map(|w| w.tabs.iter().map(|t| t.url.clone())).collect()
    };
    assert_eq!(urls(&a), urls(&b));
    assert_eq!(urls(&a), vec!["https://a.example".to_string(), "https://b.example".to_string()]);
}

#[test]
fn session_windows_first_then_tabs_as_one_window() {
    use_fallback_steps();
}

fn use_fallback_steps() {
    let tab = build_tab(&TabState {
        tab_id: 1,
        window_id: None,
        visual_index: None,
        selected_navigation_index: None,
        navs: vec![NavEntry { url: "https://x.example".into(), title: "X".into(), index: 0 }],
    });
    assert!(browsewake::browser::snss::session_file_windows(vec![]).is_none());
    assert!(browsewake::browser::snss::tabs_file_windows(vec![]).is_none());
    let ws = browsewake::browser::snss::tabs_file_windows(vec![tab]).unwrap();
    assert_eq!(ws.len(), 1);
    assert_eq!(ws[0].tabs[0].url, "https://x.example");
    let again = browsewake::browser::snss::session_file_windows(ws).unwrap();
    assert_eq!(again.len(), 1);
}
