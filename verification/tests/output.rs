use browsewake::model::{BrowserKind, BrowserWindows, Export, NavEntry, Tab, VisitEntry, Window};
use browsewake::output::{csv_escape, push_decimal, push_signed_decimal, write_csv, write_text};

fn nav(url: &str, title: &str, index: usize) -> NavEntry {
    NavEntry { url: url.into(), title: title.into(), index }
}

fn sample() -> Export {
    let with_history = Tab {
        url: "https://b.example".into(),
        title: "B, the page".into(),
        history: vec![nav("https://a.example", "A", 0), nav("https://b.example", "B, the page", 1)],
        current_index: Some(1),
        deep_history: vec![VisitEntry {
            url: "https://b.example".into(),
            title: "B".into(),
            visit_time: 1_700_000_000,
            from_url: Some("https://a.example".into()),
        }],
        tab_id: Some(3),
    };
    let plain = Tab {
        url: "https://c.example".into(),
        title: "Say \"hi\"".into(),
        history: vec![],
        current_index: None,
        deep_history: vec![],
        tab_id: None,
    };
    Export {
        browsers: vec![BrowserWindows {
            browser: BrowserKind::Chrome,
            windows: vec![Window { tabs: vec![with_history] }, Window { tabs: vec![plain] }],
        }],
    }
}

#[test]
fn csv_escape_quotes_only_when_needed() {
    assert_eq!(csv_escape("plain"), "plain");
    assert_eq!(csv_escape("a,b"), "\"a,b\"");
    assert_eq!(csv_escape("say \"hi\""), "\"say \"\"hi\"\"\"");
    assert_eq!(csv_escape("two\nlines"), "\"two\nlines\"");
    assert_eq!(csv_escape(""), "");
    assert_eq!(csv_escape("é,ü"), "\"é,ü\"");
}

#[test]
fn decimal_formatting() {
    let mut s = String::from("n=");
    push_decimal(&mut s, 0);
    assert_eq!(s, "n=0");
    let mut s = String::new();
    push_decimal(&mut s, 1234567890123);
    assert_eq!(s, "1234567890123");
    let mut s = String::new();
    push_signed_decimal(&mut s, -42);
    assert_eq!(s, "-42");
    let mut s = String::new();
    push_signed_decimal(&mut s, i64::MIN);
    assert_eq!(s, "-9223372036854775808");
}

#[test]
fn text_output_lists_tabs_history_and_visits() {
    let text = write_text(&sample());
    let expected = [
        "=== chrome (2 tabs) ===\n",
        "  Tab 1: B, the page\n",
        "    URL: https://b.example\n",
        "    History (2 entries):\n",
        "      [0] https://a.example\n",
        "      [1] https://b.example <-- current\n",
        "    Deep History (1 visits):\n",
        "      [1700000000] https://b.example (from https://a.example)\n",
        "  Tab 2: Say \"hi\"\n",
        "    URL: https://c.example\n",
        "\n",
    ]
    .concat();
    assert_eq!(text, expected);
}

#[test]
fn csv_output_has_one_row_per_history_entry() {
    let csv = write_csv(&sample());
    let expected = "browser,tab_index,url,title,history_index,history_url,history_title\n\
chrome,0,https://b.example,\"B, the page\",0,https://a.example,A\n\
chrome,0,https://b.example,\"B, the page\",1,https://b.example,\"B, the page\"\n\
chrome,1,https://c.example,\"Say \"\"hi\"\"\",,,\n";
    assert_eq!(csv, expected);
}

#[test]
fn empty_export_renders_header_only() {
    let export = Export { browsers: vec![] };
    assert_eq!(write_text(&export), "");
    assert_eq!(
        write_csv(&export),
        "browser,tab_index,url,title,history_index,history_url,history_title\n"
    );
}
