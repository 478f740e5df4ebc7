//! The exported data: browsers, windows, tabs and their navigation history,
//! together with the mathematical model that the contracts speak of.
use vstd::prelude::*;

verus! {

/// The browsers that can be exported.
#[derive(Debug, Clone, Copy, PartialEq, Eq, Structural)]
pub enum BrowserKind {
    Firefox,
    Chrome,
    Brave,
    Safari,
}

/// The lowercase name under which a browser is shown and requested.
pub open spec fn kind_name(k: BrowserKind) -> Seq<char> {
    match k {
        BrowserKind::Firefox => "firefox"@,
        BrowserKind::Chrome => "chrome"@,
        BrowserKind::Brave => "brave"@,
        BrowserKind::Safari => "safari"@,
    }
}

/// One entry of a tab's back/forward list.
#[derive(Debug, Clone)]
pub struct NavEntry {
    pub url: String,
    pub title: String,
    pub index: usize,
}

/// One visit recorded in a Chromium History database.
#[derive(Debug, Clone)]
pub struct VisitEntry {
    pub url: String,
    pub title: String,
    pub visit_time: i64,
    pub from_url: Option<String>,
}

/// An open tab: its current page, its back/forward list and, for Chromium
/// browsers, the supplemental visit history.
#[derive(Debug, Clone)]
pub struct Tab {
    pub url: String,
    pub title: String,
    pub history: Vec<NavEntry>,
    pub current_index: Option<usize>,
    pub deep_history: Vec<VisitEntry>,
    pub tab_id: Option<i32>,
}

#[derive(Debug, Clone)]
pub struct Window {
    pub tabs: Vec<Tab>,
}

#[derive(Debug, Clone)]
pub struct BrowserWindows {
    pub browser: BrowserKind,
    pub windows: Vec<Window>,
}

#[derive(Debug, Clone)]
pub struct Export {
    pub browsers: Vec<BrowserWindows>,
}

/// Mathematical value of a [`NavEntry`].
pub struct NavModel {
    pub url: Seq<char>,
    pub title: Seq<char>,
    pub index: usize,
}

/// Mathematical value of a [`VisitEntry`].
pub struct VisitModel {
    pub url: Seq<char>,
    pub title: Seq<char>,
    pub visit_time: i64,
    pub from_url: Option<Seq<char>>,
}

/// Mathematical value of a [`Tab`].
pub struct TabModel {
    pub url: Seq<char>,
    pub title: Seq<char>,
    pub history: Seq<NavModel>,
    pub current_index: Option<usize>,
    pub deep_history: Seq<VisitModel>,
    pub tab_id: Option<i32>,
}

/// Mathematical value of a [`Window`].
pub struct WindowModel {
    pub tabs: Seq<TabModel>,
}

/// Mathematical value of a [`BrowserWindows`].
pub struct BrowserWindowsModel {
    pub browser: BrowserKind,
    pub windows: Seq<WindowModel>,
}

/// A tab with no page, no history and no tab id.
pub open spec fn empty_tab_model() -> TabModel {
    TabModel {
        url: Seq::empty(),
        title: Seq::empty(),
        history: Seq::empty(),
        current_index: None,
        deep_history: Seq::empty(),
        tab_id: None,
    }
}

pub open spec fn opt_view(s: Option<String>) -> Option<Seq<char>> {
    match s {
        Some(s) => Some(s@),
        None => None,
    }
}

pub open spec fn navs_view(s: Seq<NavEntry>) -> Seq<NavModel> {
    s.map_values(|e: NavEntry| e@)
}

pub open spec fn visits_view(s: Seq<VisitEntry>) -> Seq<VisitModel> {
    s.map_values(|e: VisitEntry| e@)
}

pub open spec fn tabs_view(s: Seq<Tab>) -> Seq<TabModel> {
    s.map_values(|t: Tab| t@)
}

pub open spec fn windows_view(s: Seq<Window>) -> Seq<WindowModel> {
    s.map_values(|w: Window| w@)
}

impl View for NavEntry {
    type V = NavModel;

    open spec fn view(&self) -> NavModel {
        NavModel { url: self.url@, title: self.title@, index: self.index }
    }
}

impl View for VisitEntry {
    type V = VisitModel;

    open spec fn view(&self) -> VisitModel {
        VisitModel {
            url: self.url@,
            title: self.title@,
            visit_time: self.visit_time,
            from_url: opt_view(self.from_url),
        }
    }
}

impl View for Tab {
    type V = TabModel;

    open spec fn view(&self) -> TabModel {
        TabModel {
            url: self.url@,
            title: self.title@,
            history: navs_view(self.history@),
            current_index: self.current_index,
            deep_history: visits_view(self.deep_history@),
            tab_id: self.tab_id,
        }
    }
}

impl View for Window {
    type V = WindowModel;

    open spec fn view(&self) -> WindowModel {
        WindowModel { tabs: tabs_view(self.tabs@) }
    }
}

impl View for BrowserWindows {
    type V = BrowserWindowsModel;

    open spec fn view(&self) -> BrowserWindowsModel {
        BrowserWindowsModel { browser: self.browser, windows: windows_view(self.windows@) }
    }
}

impl BrowserKind {
    /// The browser's lowercase name, the form in which it is shown and requested.
    pub fn name(&self) -> (s: String)
        ensures
            s@ == kind_name(*self),
    {
        match self {
            BrowserKind::Firefox => "firefox".to_owned(),
            BrowserKind::Chrome => "chrome".to_owned(),
            BrowserKind::Brave => "brave".to_owned(),
            BrowserKind::Safari => "safari".to_owned(),
        }
    }
}

/// Number of tabs over a sequence of windows.
pub open spec fn tab_total(ws: Seq<Window>) -> int
    decreases ws.len(),
{
    if ws.len() == 0 {
        0
    } else {
        tab_total(ws.drop_last()) + ws.last().tabs@.len()
    }
}

impl BrowserWindows {
    /// Total number of tabs over all windows.
    pub fn tab_count(&self) -> (n: usize)
        requires
            tab_total(self.windows@) <= usize::MAX,
        ensures
            n == tab_total(self.windows@),
    {
        let mut n: usize = 0;
        let mut i: usize = 0;
        while i < self.windows.len()
            invariant
                i <= self.windows@.len(),
                n == tab_total(self.windows@.take(i as int)),
                tab_total(self.windows@) <= usize::MAX,
            decreases self.windows@.len() - i,
        {
            proof {
                assert(self.windows@.take(i + 1).drop_last() =~= self.windows@.take(i as int));
                lemma_tab_total_prefix(self.windows@, i as int + 1);
            }
            n = n + self.windows[i].tabs.len();
            i = i + 1;
        }
        proof {
            assert(self.windows@.take(i as int) =~= self.windows@);
        }
        n
    }
}

/// The tab total of a prefix never exceeds that of the whole sequence.
pub proof fn lemma_tab_total_prefix(ws: Seq<Window>, k: int)
    requires
        0 <= k <= ws.len(),
    ensures
        tab_total(ws.take(k)) <= tab_total(ws),
    decreases ws.len(),
{
    if k < ws.len() {
        assert(ws.drop_last().take(k) =~= ws.take(k));
        lemma_tab_total_prefix(ws.drop_last(), k);
    } else {
        assert(ws.take(k) =~= ws);
    }
}

/// Tab counts add up over joined window lists, and no windows hold no tabs.
pub proof fn lemma_tab_total_append(a: Seq<Window>, b: Seq<Window>)
    ensures
        tab_total(a + b) == tab_total(a) + tab_total(b),
        tab_total(Seq::<Window>::empty()) == 0,
    decreases b.len(),
{
    if b.len() == 0 {
        assert(a + b =~= a);
    } else {
        assert((a + b).drop_last() =~= a + b.drop_last());
        assert((a + b).last() == b.last());
        lemma_tab_total_append(a, b.drop_last());
    }
}

/// What `str::to_lowercase` gives for `s`.
pub uninterp spec fn lowercase(s: Seq<char>) -> Seq<char>;

/// An ASCII character in lowercase: `A` to `Z` become `a` to `z`, the rest stay.
pub open spec fn ascii_lower(c: char) -> char {
    if 'A' <= c <= 'Z' {
        ((c as u32) + 32) as char
    } else {
        c
    }
}

pub open spec fn all_ascii(s: Seq<char>) -> bool {
    forall|i: int| 0 <= i < s.len() ==> (#[trigger] s[i] as u32) < 128
}

pub open spec fn ascii_lowercase(s: Seq<char>) -> Seq<char> {
    s.map_values(|c: char| ascii_lower(c))
}

/// Calls `str::to_lowercase`. Claims that the result is a function of the text
/// alone (the Unicode lowercase mapping involves no locale), that ASCII text is
/// lowercased character by character (`A` to `Z` become `a` to `z`, every other
/// ASCII character stays), and so that text made only of the letters `a` to `z`
/// comes back unchanged. What it gives for other characters is left unsaid.
#[verifier::external_body]
fn to_lowercase(s: &str) -> (r: String)
    ensures
        r@ == lowercase(s@),
        all_ascii(s@) ==> r@ == ascii_lowercase(s@),
        (forall|i: int| 0 <= i < s@.len() ==> 'a' <= #[trigger] s@[i] <= 'z') ==> r@ == s@,
{
    s.to_lowercase()
}

/// A browser's shown name names that browser and no other, so parsing what is
/// shown gives the browser back.
pub proof fn lemma_name_parses_back(k: BrowserKind)
    ensures
        kind_named(kind_name(k)) == Some(k),
{
    reveal_strlit("firefox");
    reveal_strlit("chrome");
    reveal_strlit("brave");
    reveal_strlit("safari");
    // the four names start with four different letters
    assert("chrome"@[0] != "firefox"@[0]);
    assert("brave"@[0] != "firefox"@[0]);
    assert("brave"@[0] != "chrome"@[0]);
    assert("safari"@[0] != "firefox"@[0]);
    assert("safari"@[0] != "chrome"@[0]);
    assert("safari"@[0] != "brave"@[0]);
}

/// The browser a lowercase name stands for.
pub open spec fn kind_named(name: Seq<char>) -> Option<BrowserKind> {
    if name == "firefox"@ {
        Some(BrowserKind::Firefox)
    } else if name == "chrome"@ {
        Some(BrowserKind::Chrome)
    } else if name == "brave"@ {
        Some(BrowserKind::Brave)
    } else if name == "safari"@ {
        Some(BrowserKind::Safari)
    } else {
        None
    }
}

/// Reads a browser name, ignoring case; an unknown name is an error that
/// repeats it in lowercase.
pub fn parse_browser_kind(s: &str) -> (r: Result<BrowserKind, String>)
    ensures
        match kind_named(lowercase(s@)) {
            Some(k) => r matches Ok(got) && got == k,
            None => r matches Err(m) && m@ == "unknown browser: "@ + lowercase(s@),
        },
        kind_named(s@) matches Some(k) ==> r matches Ok(got) && got == k,
        all_ascii(s@) ==> (kind_named(ascii_lowercase(s@)) matches Some(k) ==> r matches Ok(got)
            && got == k),
{
    proof {
        reveal_strlit("firefox");
        reveal_strlit("chrome");
        reveal_strlit("brave");
        reveal_strlit("safari");
    }
    let lower = to_lowercase(s);
    if lower == "firefox".to_owned() {
        Ok(BrowserKind::Firefox)
    } else if lower == "chrome".to_owned() {
        Ok(BrowserKind::Chrome)
    } else if lower == "brave".to_owned() {
        Ok(BrowserKind::Brave)
    } else if lower == "safari".to_owned() {
        Ok(BrowserKind::Safari)
    } else {
        let mut msg = "unknown browser: ".to_owned();
        msg.append(lower.as_str());
        Err(msg)
    }
}

impl std::str::FromStr for BrowserKind {
    type Err = String;

    fn from_str(s: &str) -> (r: Result<BrowserKind, String>)
        ensures
            match kind_named(lowercase(s@)) {
                Some(k) => r matches Ok(got) && got == k,
                None => r matches Err(m) && m@ == "unknown browser: "@ + lowercase(s@),
            },
            kind_named(s@) matches Some(k) ==> r matches Ok(got) && got == k,
            all_ascii(s@) ==> (kind_named(ascii_lowercase(s@)) matches Some(k) ==> r matches Ok(
                got,
            ) && got == k),
    {
        parse_browser_kind(s)
    }
}

} // verus!
