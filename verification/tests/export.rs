use browsewake::error::BrowseWakeError;
use browsewake::model::BrowserKind;
use browsewake::validate_requested_browsers;

#[test]
fn explicit_requested_browser_must_be_supported() {
    let err = validate_requested_browsers(
        &[BrowserKind::Safari],
        &[BrowserKind::Firefox, BrowserKind::Chrome, BrowserKind::Brave],
        &[BrowserKind::Firefox, BrowserKind::Chrome, BrowserKind::Brave],
    )
    .unwrap_err();

    assert!(matches!(err, BrowseWakeError::Unsupported(browser) if browser == "safari"));
}

#[test]
fn explicit_requested_browser_must_be_available() {
    let err = validate_requested_browsers(&[BrowserKind::Chrome], &[BrowserKind::Chrome], &[])
        .unwrap_err();

    assert!(matches!(err, BrowseWakeError::NoProfile(browser) if browser == "chrome"));
}

use browsewake::browser::{get_sources, platform_sources};
use browsewake::model::{parse_browser_kind, BrowserWindows, NavEntry, Tab, Window};
use browsewake::{record_export, skip_source, strip_history, ExportStep};

fn tab_with_history() -> Tab {
    Tab {
        url: "https://b.example".into(),
        title: "B".into(),
        history: vec![NavEntry { url: "https://b.example".into(), title: "B".into(), index: 0 }],
        current_index: Some(0),
        deep_history: vec![],
        tab_id: Some(9),
    }
}

#[test]
fn browser_names_parse_ignoring_case() {
    assert_eq!(parse_browser_kind("Firefox").unwrap(), BrowserKind::Firefox);
    assert_eq!(parse_browser_kind("CHROME").unwrap(), BrowserKind::Chrome);
    assert_eq!(parse_browser_kind("brave").unwrap(), BrowserKind::Brave);
    assert_eq!("Safari".parse::<BrowserKind>().unwrap(), BrowserKind::Safari);
    assert_eq!(parse_browser_kind("Opera").unwrap_err(), "unknown browser: opera");
    assert_eq!(BrowserKind::Brave.name(), "brave");
}

#[test]
fn shown_names_parse_back_to_their_browser() {
    for kind in [BrowserKind::Firefox, BrowserKind::Chrome, BrowserKind::Brave, BrowserKind::Safari] {
        assert_eq!(parse_browser_kind(&kind.name()).unwrap(), kind);
    }
}

#[test]
fn requested_browsers_that_are_present_and_installed_pass() {
    assert!(validate_requested_browsers(&[], &[], &[]).is_ok());
    assert!(validate_requested_browsers(
        &[BrowserKind::Chrome, BrowserKind::Firefox],
        &[BrowserKind::Firefox, BrowserKind::Chrome],
        &[BrowserKind::Chrome, BrowserKind::Firefox],
    )
    .is_ok());
    // The first failing request decides the error.
    let err = validate_requested_browsers(
        &[BrowserKind::Firefox, BrowserKind::Safari],
        &[BrowserKind::Firefox],
        &[],
    )
    .unwrap_err();
    assert!(matches!(err, BrowseWakeError::NoProfile(b) if b == "firefox"));
}

#[test]
fn sources_follow_requests_or_availability() {
    assert_eq!(
        platform_sources(false),
        vec![BrowserKind::Firefox, BrowserKind::Chrome, BrowserKind::Brave]
    );
    assert_eq!(platform_sources(true).len(), 4);
    let platform = vec![
        (BrowserKind::Firefox, true),
        (BrowserKind::Chrome, false),
        (BrowserKind::Brave, true),
    ];
    assert_eq!(get_sources(&[], &platform), vec![BrowserKind::Firefox, BrowserKind::Brave]);
    assert_eq!(
        get_sources(&[BrowserKind::Chrome, BrowserKind::Safari], &platform),
        vec![BrowserKind::Chrome]
    );
    assert!(skip_source(&[], false));
    assert!(!skip_source(&[], true));
    assert!(!skip_source(&[BrowserKind::Chrome], false));
}

#[test]
fn no_history_clears_history_but_keeps_the_page() {
    let mut bw = BrowserWindows {
        browser: BrowserKind::Chrome,
        windows: vec![Window { tabs: vec![tab_with_history()] }],
    };
    strip_history(&mut bw);
    let tab = &bw.windows[0].tabs[0];
    assert!(tab.history.is_empty());
    assert_eq!(tab.current_index, None);
    assert_eq!(tab.url, "https://b.example");
    assert_eq!(tab.tab_id, Some(9));
}

#[test]
fn export_steps_add_warn_or_fail() {
    let mut browsers = Vec::new();
    let bw = BrowserWindows {
        browser: BrowserKind::Chrome,
        windows: vec![Window { tabs: vec![tab_with_history()] }],
    };
    assert!(matches!(
        record_export(&[], false, BrowserKind::Chrome, Ok(bw), &mut browsers),
        ExportStep::Added
    ));
    assert_eq!(browsers.len(), 1);
    assert!(browsers[0].windows[0].tabs[0].history.is_empty());

    let step = record_export(
        &[],
        true,
        BrowserKind::Firefox,
        Err(BrowseWakeError::Other("boom".into())),
        &mut browsers,
    );
    assert!(matches!(step, ExportStep::Warned(BrowseWakeError::Other(m)) if m == "boom"));
    let step = record_export(
        &[BrowserKind::Firefox],
        true,
        BrowserKind::Firefox,
        Err(BrowseWakeError::Other("boom".into())),
        &mut browsers,
    );
    assert!(matches!(step, ExportStep::Failed(_)));
    assert_eq!(browsers.len(), 1);
    assert_eq!(browsers[0].tab_count(), 1);
}
