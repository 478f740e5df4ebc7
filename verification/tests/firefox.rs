use browsewake::browser::firefox::{
    decompress_mozlz4, parse_session, SessionDoc, SessionEntry, SessionTab, SessionWindow,
};
use browsewake::browser::safari::safari_windows;
use browsewake::error::BrowseWakeError;

fn mozlz4(payload: &[u8]) -> Vec<u8> {
    let mut out = b"mozLz40\0".to_vec();
    out.extend_from_slice(&(payload.len() as u32).to_le_bytes());
    out.extend_from_slice(&lz4_flex::block::compress(payload));
    out
}

fn entry(url: &str, title: &str) -> SessionEntry {
    SessionEntry { url: Some(url.to_string()), title: Some(title.to_string()) }
}

#[test]
fn mozlz4_round_trips_the_payload() {
    let payload = br#"{"windows":[]}"#;
    let out = decompress_mozlz4(&mozlz4(payload)).unwrap();
    assert_eq!(out, payload.to_vec());
}

#[test]
fn mozlz4_rejects_short_files() {
    let err = decompress_mozlz4(b"mozLz40\0\x01").unwrap_err();
    assert!(matches!(err, BrowseWakeError::MozLz4(m) if m == "file too small"));
}

#[test]
fn mozlz4_rejects_bad_magic() {
    let mut data = mozlz4(b"hello");
    data[0] = b'M';
    let err = decompress_mozlz4(&data).unwrap_err();
    assert!(matches!(err, BrowseWakeError::MozLz4(m) if m == "invalid magic bytes"));
}

#[test]
fn mozlz4_refuses_overlong_length_runs() {
    let mut data = b"mozLz40\0".to_vec();
    data.extend_from_slice(&100u32.to_le_bytes());
    data.push(0xf0);
    data.extend(std::iter::repeat(0xffu8).take(16_843_008));
    data.push(0x00);
    let err = decompress_mozlz4(&data).unwrap_err();
    assert!(matches!(err, BrowseWakeError::Lz4(m) if m == "length run too long"));

    // One byte shorter, the run is handed to the decoder, which reports its own error.
    let mut data = b"mozLz40\0".to_vec();
    data.extend_from_slice(&100u32.to_le_bytes());
    data.push(0xf0);
    data.extend(std::iter::repeat(0xffu8).take(16_843_007));
    data.push(0x00);
    let err = decompress_mozlz4(&data).unwrap_err();
    assert!(matches!(err, BrowseWakeError::Lz4(m) if m != "length run too long"));
}

#[test]
fn mozlz4_reports_corrupt_blocks_as_lz4_errors() {
    let mut data = b"mozLz40\0".to_vec();
    data.extend_from_slice(&100u32.to_le_bytes());
    data.extend_from_slice(&[0xff, 0xff, 0xff]);
    let err = decompress_mozlz4(&data).unwrap_err();
    assert!(matches!(err, BrowseWakeError::Lz4(_)));
}

#[test]
fn session_without_windows_array_is_an_error() {
    let err = parse_session(&SessionDoc { windows: None }).unwrap_err();
    assert!(matches!(err, BrowseWakeError::MozLz4(m) if m == "missing 'windows' array"));
}

#[test]
fn firefox_index_is_one_based_and_selects_the_shown_entry() {
    let doc = SessionDoc {
        windows: Some(vec![SessionWindow {
            tabs: Some(vec![SessionTab {
                entries: Some(vec![entry("https://a.example", "A"), entry("https://b.example", "B")]),
                index: Some(1),
            }]),
        }]),
    };
    let windows = parse_session(&doc).unwrap();
    let tab = &windows[0].tabs[0];
    assert_eq!(tab.current_index, Some(0));
    assert_eq!(tab.url, "https://a.example");
    assert_eq!(tab.title, "A");
    let indices: Vec<_> = tab.history.iter().map(|e| e.index).collect();
    assert_eq!(indices, vec![0, 1]);
    assert_eq!(tab.tab_id, None);
}

#[test]
fn firefox_out_of_range_index_shows_last_entry() {
    let doc = SessionDoc {
        windows: Some(vec![SessionWindow {
            tabs: Some(vec![
                SessionTab {
                    entries: Some(vec![entry("https://a.example", "A"), entry("https://b.example", "B")]),
                    index: Some(9),
                },
                SessionTab { entries: Some(vec![entry("https://c.example", "C")]), index: None },
                SessionTab { entries: Some(vec![entry("https://d.example", "D")]), index: Some(0) },
            ]),
        }]),
    };
    let windows = parse_session(&doc).unwrap();
    let tabs = &windows[0].tabs;
    assert_eq!(tabs[0].url, "https://b.example");
    assert_eq!(tabs[0].current_index, Some(1));
    assert_eq!(tabs[1].url, "https://c.example");
    assert_eq!(tabs[1].current_index, None);
    assert_eq!(tabs[2].current_index, Some(0));
}

#[test]
fn firefox_skips_tabs_without_entries_and_empty_windows() {
    let doc = SessionDoc {
        windows: Some(vec![
            SessionWindow { tabs: None },
            SessionWindow {
                tabs: Some(vec![
                    SessionTab { entries: None, index: Some(1) },
                    SessionTab { entries: Some(vec![]), index: Some(1) },
                ]),
            },
            SessionWindow {
                tabs: Some(vec![SessionTab {
                    entries: Some(vec![SessionEntry { url: None, title: None }]),
                    index: Some(1),
                }]),
            },
        ]),
    };
    let windows = parse_session(&doc).unwrap();
    assert_eq!(windows.len(), 1);
    assert_eq!(windows[0].tabs.len(), 1);
    assert_eq!(windows[0].tabs[0].url, "");
    assert_eq!(windows[0].tabs[0].history[0].title, "");
}

#[test]
fn safari_windows_keep_tabs_and_drop_empty_windows() {
    let jxa = vec![
        vec![entry("https://a.example", "A"), SessionEntry { url: None, title: Some("B".into()) }],
        vec![],
        vec![entry("https://c.example", "C")],
    ];
    let windows = safari_windows(&jxa);
    assert_eq!(windows.len(), 2);
    assert_eq!(windows[0].tabs.len(), 2);
    assert_eq!(windows[0].tabs[1].url, "");
    assert_eq!(windows[0].tabs[1].title, "B");
    assert!(windows[0].tabs[0].history.is_empty());
    assert_eq!(windows[0].tabs[0].current_index, None);
    assert_eq!(windows[1].tabs[0].url, "https://c.example");
}
