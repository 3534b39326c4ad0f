//! Top-level application state: what each user action and each finished page
//! load does to the browser, and which outside work (a fetch, a save) it asks
//! the program to do.

use vstd::prelude::*;

use crate::browser::bookmarks::{
    add_spec, has_url, law_add_then_contains, law_remove_then_absent, remove_spec, Bookmarks,
};
use crate::browser::history::{back_state, forward_state, opt_view, push_state};
use crate::browser::tabs::{form_urlencoded, fresh_tab, query_pairs, Tab, TabManager};
use crate::chars::{append_chars, contains_char, copy_string, from_chars, has_prefix, starts_with, to_chars};
use crate::config::settings::Settings;
use crate::network::response::{type_starts_with, HttpResponse};
use crate::parser::dom::{build_dom, html_tokens};
use crate::parser::html::{decode_utf8_lossy, opt_str_view, title_spec, utf8_lossy, ParsedPage};
use crate::parser::layout::{strs_view, wrap_all, wrap_lines, wrapped_index, DEFAULT_WIDTH};
use crate::renderer::text::{
    can_render, fields_view, forms_view, images_view, lines_from, links_view, render_full, render_full_spec,
    renderable, spans_view, split_lines, CodeSpan, FormField, LineKind, PageView, RenderedForm, RenderedImage,
    RenderedLink, decimal, push_decimal,
};

verus! {

// ── Input mode ────────────────────────────────────────────────────────────────

/// Current keyboard input mode.
pub enum InputMode {
    Normal,
    /// Search mode — string is the live query being typed.
    Search(String),
    /// URL edit mode — string is the editable address bar buffer.
    Url(String),
    /// Hint mode — string is the typed hint letters so far.
    Hint(String),
    /// Form-field edit mode. `field_idx` is the index into `tab.fields`;
    /// `buffer` is the live value being typed.
    FieldEdit { field_idx: usize, buffer: String },
}

// ── Background message ────────────────────────────────────────────────────────

/// Messages sent from background fetch tasks to the event loop.
pub enum BgMsg {
    Loaded {
        tab_idx: usize,
        url: String,
        title: Option<String>,
        lines: Vec<String>,
        links: Vec<RenderedLink>,
        line_kinds: Vec<LineKind>,
        code_spans: Vec<CodeSpan>,
        forms: Vec<RenderedForm>,
        fields: Vec<FormField>,
    },
    Error { tab_idx: usize, message: String },
}

/// Outside work that an action asks the program to do.
pub enum Command {
    /// Fetch `url` and report the result for tab `tab_idx`.
    Fetch { url: String, tab_idx: usize },
    /// Write the bookmark store to disk.
    SaveBookmarks,
}

// ── App state ─────────────────────────────────────────────────────────────────

/// Central application state — owned by the main TUI event loop.
pub struct App {
    pub tabs: TabManager,
    pub bookmarks: Bookmarks,
    pub settings: Settings,
    pub status: String,
    pub quit: bool,
    pub input_mode: InputMode,
    /// Hint codes for link-hint mode: (link_index, 2-letter code).
    pub hint_codes: Vec<(usize, String)>,
}

/// The search position is at the start or on one of the matches.
pub open spec fn search_ok(t: Tab) -> bool {
    t.search_idx == 0 || t.search_idx < t.search_matches@.len()
}

/// The command to fetch `url` for tab `tab_idx`.
pub open spec fn is_fetch(c: Option<Command>, url: Seq<char>, tab_idx: usize) -> bool {
    c matches Some(Command::Fetch { url: u, tab_idx: t }) && u@ == url && t == tab_idx
}

/// The app with the current tab replaced by `t`.
pub open spec fn with_current(a: App, t: Tab) -> Seq<Tab> {
    a.tabs.tabs@.update(a.tabs.active as int, t)
}

impl App {
    /// The tab manager keeps at least one tab and an active one among them;
    /// every tab's search position is at the start or on one of its matches;
    /// a field being edited has an index below `usize::MAX`.
    pub open spec fn wf(&self) -> bool {
        &&& self.tabs.wf()
        &&& forall|k: int| 0 <= k < self.tabs.tabs@.len() ==> search_ok(#[trigger] self.tabs.tabs@[k])
        &&& (self.input_mode matches InputMode::FieldEdit { field_idx, .. } ==> field_idx < usize::MAX)
    }

    /// The current tab.
    pub open spec fn cur(&self) -> Tab {
        self.tabs.tabs@[self.tabs.active as int]
    }

    pub fn new(url: String, settings: Settings, bookmarks: Bookmarks) -> (app: Self)
        ensures
            app.wf(),
            app.tabs.tabs@.len() == 1,
            app.tabs.active == 0,
            fresh_tab(app.cur(), url@),
            app.settings == settings,
            app.bookmarks == bookmarks,
            app.status@.len() == 0,
            !app.quit,
            app.input_mode is Normal,
            app.hint_codes@.len() == 0,
    {
        Self {
            tabs: TabManager::new(url),
            bookmarks,
            settings,
            status: String::new(),
            quit: false,
            input_mode: InputMode::Normal,
            hint_codes: Vec::new(),
        }
    }
}

// ── URL resolver ──────────────────────────────────────────────────────────────

/// `href` resolved against `base` by the URL standard (`url::Url::parse` of
/// `base`, then `Url::join`, serialized), or `None` when either fails.
pub uninterp spec fn url_join(base: Seq<char>, href: Seq<char>) -> Option<Seq<char>>;

/// `base` parsed as a URL and serialized without its query and fragment
/// (`Url::set_query(None)`, `Url::set_fragment(None)`), or `None` when it
/// does not parse.
pub uninterp spec fn url_without_query(base: Seq<char>) -> Option<Seq<char>>;

/// `url::Url::parse(base)`, then `Url::join(href)`, then its serialization.
/// The result is named by `url_join`; failures of either step give `None`.
#[verifier::external_body]
fn join_url(base: &str, href: &str) -> (r: Option<String>)
    ensures
        opt_view(r) == url_join(base@, href@),
{
    url::Url::parse(base).ok()?.join(href).ok().map(|u| u.to_string())
}

/// `url::Url::parse(base)`, then `set_query(None)` and `set_fragment(None)`,
/// then its serialization. The result is named by `url_without_query`; a base
/// that does not parse gives `None`.
#[verifier::external_body]
fn strip_query(base: &str) -> (r: Option<String>)
    ensures
        opt_view(r) == url_without_query(base@),
{
    let mut u = url::Url::parse(base).ok()?;
    u.set_query(None);
    u.set_fragment(None);
    Some(u.to_string())
}

/// Where a link leads: absolute `http(s)` links as they are; nothing for
/// empty, `mailto:` and `javascript:` links; anything else resolved against
/// the page's URL.
pub open spec fn resolve_spec(base: Seq<char>, href: Seq<char>) -> Option<Seq<char>> {
    if has_prefix(href, "http://"@) || has_prefix(href, "https://"@) {
        Some(href)
    } else if href.len() == 0 || has_prefix(href, "mailto:"@) || has_prefix(href, "javascript:"@) {
        None
    } else {
        url_join(base, href)
    }
}

fn has_lit_prefix(s: &str, lit: &str) -> (b: bool)
    ensures
        b == has_prefix(s@, lit@),
{
    starts_with(to_chars(s).as_slice(), to_chars(lit).as_slice())
}

/// Resolve `href` against the page URL `base`.
pub fn resolve_url(base: &str, href: &str) -> (r: Option<String>)
    ensures
        opt_view(r) == resolve_spec(base@, href@),
{
    if has_lit_prefix(href, "http://") || has_lit_prefix(href, "https://") {
        return Some(href.to_owned());
    }
    if href.is_empty() || has_lit_prefix(href, "mailto:") || has_lit_prefix(href, "javascript:") {
        return None;
    }
    join_url(base, href)
}

/// `base` without its query and fragment; `base` itself when it does not
/// parse as a URL.
pub open spec fn without_query_spec(base: Seq<char>) -> Seq<char> {
    match url_without_query(base) {
        Some(u) => u,
        None => base,
    }
}

/// Return `base` with any `?query` and `#fragment` stripped. Used for form
/// submissions whose `action` attribute is empty (HTML default: post to self,
/// minus query). Falls back to `base` if parsing fails.
pub fn current_url_without_query(base: &str) -> (r: String)
    ensures
        r@ == without_query_spec(base@),
{
    match strip_query(base) {
        Some(u) => u,
        None => base.to_owned(),
    }
}


// ── Navigation ────────────────────────────────────────────────────────────────

/// `nt` is tab `t` starting to load `url`: new address, loading, nothing
/// focused, search cleared; everything else (but the history) as it was.
pub open spec fn reloaded(t: Tab, nt: Tab, url: Seq<char>) -> bool {
    &&& nt.url@ == url
    &&& nt.search_matches@.len() == 0
    &&& nt == (Tab {
        url: nt.url,
        history: nt.history,
        loading: true,
        focused: None,
        search_matches: nt.search_matches,
        search_idx: 0,
        ..t
    })
}

fn begin_load(t: &mut Tab, url: String)
    ensures
        reloaded(*old(t), *final(t), url@),
        final(t).history == old(t).history,
{
    t.url = url;
    t.loading = true;
    t.focused = None;
    t.clear_search();
}

/// The text `prefix` followed by `s`.
fn prefixed(prefix: &str, s: &str) -> (r: String)
    ensures
        r@ == prefix@ + s@,
{
    let mut v = to_chars(prefix);
    let w = to_chars(s);
    append_chars(&mut v, w.as_slice());
    from_chars(v.as_slice())
}

/// The app after an action that only sets the status line to `msg`.
pub open spec fn status_only(a: App, b: App, msg: Seq<char>) -> bool {
    b.status@ == msg && b == (App { status: b.status, ..a })
}

/// The app after the current tab started a load: the tab replaced by `nt`,
/// status cleared, nothing else changed.
pub open spec fn current_replaced(a: App, b: App) -> bool {
    &&& b.status@.len() == 0
    &&& b.tabs.active == a.tabs.active
    &&& b.tabs.tabs@ == with_current(a, b.cur())
    &&& b == (App { tabs: b.tabs, status: b.status, ..a })
}

/// What navigating to `href` does: a link that leads nowhere only sets the
/// status; otherwise the current tab records its page in its history and
/// starts loading the new one, which is to be fetched.
pub open spec fn navigated(a: App, b: App, cmd: Option<Command>, href: Seq<char>) -> bool {
    match resolve_spec(a.cur().url@, href) {
        None => cmd is None && status_only(a, b, "Skipped: "@ + href),
        Some(u) => {
            &&& is_fetch(cmd, u, a.tabs.active)
            &&& current_replaced(a, b)
            &&& reloaded(a.cur(), b.cur(), u)
            &&& b.cur().history@ == push_state(a.cur().history@, a.cur().url@)
        },
    }
}

/// What going back does: with an empty back stack only the status changes;
/// otherwise the current tab goes to the previous page (its history moving
/// the current page to the forward stack), which is to be fetched.
pub open spec fn went_back(a: App, b: App, cmd: Option<Command>) -> bool {
    let (h2, dest) = back_state(a.cur().history@, a.cur().url@);
    match dest {
        None => cmd is None && status_only(a, b, "No history"@),
        Some(u) => {
            &&& is_fetch(cmd, u, a.tabs.active)
            &&& current_replaced(a, b)
            &&& reloaded(a.cur(), b.cur(), u)
            &&& b.cur().history@ == h2
        },
    }
}

/// What going forward does: with an empty forward stack only the status
/// changes; otherwise the current tab goes to the next page (its history
/// moving the current page to the back stack), which is to be fetched.
pub open spec fn went_forward(a: App, b: App, cmd: Option<Command>) -> bool {
    let (h2, dest) = forward_state(a.cur().history@, a.cur().url@);
    match dest {
        None => cmd is None && status_only(a, b, "No forward history"@),
        Some(u) => {
            &&& is_fetch(cmd, u, a.tabs.active)
            &&& current_replaced(a, b)
            &&& reloaded(a.cur(), b.cur(), u)
            &&& b.cur().history@ == h2
        },
    }
}

/// What opening a link in a new tab does: a link that leads nowhere only
/// sets the status; otherwise a new tab for it is added at the end and made
/// active, and its page is to be fetched.
pub open spec fn opened_tab(a: App, b: App, cmd: Option<Command>, href: Seq<char>) -> bool {
    match resolve_spec(a.cur().url@, href) {
        None => cmd is None && status_only(a, b, "Skipped: "@ + href),
        Some(u) => {
            &&& is_fetch(cmd, u, a.tabs.tabs@.len() as usize)
            &&& b.tabs.tabs@.len() == a.tabs.tabs@.len() + 1
            &&& b.tabs.tabs@.take(a.tabs.tabs@.len() as int) == a.tabs.tabs@
            &&& fresh_tab(b.tabs.tabs@.last(), u)
            &&& b.tabs.active == a.tabs.tabs@.len()
            &&& b == (App { tabs: b.tabs, ..a })
        },
    }
}

impl App {
    /// Navigate the current tab to `href`, resolving relative URLs against the
    /// tab's current URL. Asks for the page to be fetched.
    pub fn navigate(&mut self, href: String) -> (cmd: Option<Command>)
        requires
            old(self).wf(),
        ensures
            final(self).wf(),
            navigated(*old(self), *final(self), cmd, href@),
    {
        let idx = self.tabs.active;
        let base = copy_string(&self.tabs.tabs[idx].url);
        let url = match resolve_url(base.as_str(), href.as_str()) {
            None => {
                self.status = prefixed("Skipped: ", href.as_str());
                return None;
            },
            Some(u) => u,
        };
        let fetch_url = copy_string(&url);
        let ghost t0 = self.cur();
        self.tabs.tabs[idx].history.push(base);
        let ghost t1 = self.cur();
        assert(t1 == Tab { history: t1.history, ..t0 });
        begin_load(&mut self.tabs.tabs[idx], url);
        let ghost t2 = self.cur();
        assert(self.tabs.tabs@ == old(self).tabs.tabs@.update(idx as int, t2));
        assert(reloaded(t0, t2, fetch_url@));
        self.status = String::new();
        Some(Command::Fetch { url: fetch_url, tab_idx: idx })
    }

    pub fn go_back(&mut self) -> (cmd: Option<Command>)
        requires
            old(self).wf(),
        ensures
            final(self).wf(),
            went_back(*old(self), *final(self), cmd),
    {
        let idx = self.tabs.active;
        if !self.tabs.tabs[idx].history.can_go_back() {
            self.status = "No history".to_owned();
            return None;
        }
        let current = copy_string(&self.tabs.tabs[idx].url);
        let ghost t0 = self.cur();
        match self.tabs.tabs[idx].history.go_back(current.as_str()) {
            Some(prev) => {
                let ghost t1 = self.cur();
                assert(t1 == Tab { history: t1.history, ..t0 });
                let fetch_url = copy_string(&prev);
                begin_load(&mut self.tabs.tabs[idx], prev);
                let ghost t2 = self.cur();
                assert(self.tabs.tabs@ == old(self).tabs.tabs@.update(idx as int, t2));
                assert(reloaded(t0, t2, fetch_url@));
                self.status = String::new();
                Some(Command::Fetch { url: fetch_url, tab_idx: idx })
            },
            None => {
                self.status = "No history".to_owned();
                None
            },
        }
    }

    pub fn go_forward(&mut self) -> (cmd: Option<Command>)
        requires
            old(self).wf(),
        ensures
            final(self).wf(),
            went_forward(*old(self), *final(self), cmd),
    {
        let idx = self.tabs.active;
        if !self.tabs.tabs[idx].history.can_go_forward() {
            self.status = "No forward history".to_owned();
            return None;
        }
        let current = copy_string(&self.tabs.tabs[idx].url);
        let ghost t0 = self.cur();
        match self.tabs.tabs[idx].history.go_forward(current.as_str()) {
            Some(next) => {
                let ghost t1 = self.cur();
                assert(t1 == Tab { history: t1.history, ..t0 });
                let fetch_url = copy_string(&next);
                begin_load(&mut self.tabs.tabs[idx], next);
                let ghost t2 = self.cur();
                assert(self.tabs.tabs@ == old(self).tabs.tabs@.update(idx as int, t2));
                assert(reloaded(t0, t2, fetch_url@));
                self.status = String::new();
                Some(Command::Fetch { url: fetch_url, tab_idx: idx })
            },
            None => {
                self.status = "No forward history".to_owned();
                None
            },
        }
    }

    /// Open a new tab navigating to `href` (resolved relative to the current
    /// tab's URL), and make it the active one.
    pub fn open_new_tab(&mut self, href: String) -> (cmd: Option<Command>)
        requires
            old(self).wf(),
        ensures
            final(self).wf(),
            opened_tab(*old(self), *final(self), cmd, href@),
    {
        let idx = self.tabs.active;
        let base = copy_string(&self.tabs.tabs[idx].url);
        let url = match resolve_url(base.as_str(), href.as_str()) {
            None => {
                self.status = prefixed("Skipped: ", href.as_str());
                return None;
            },
            Some(u) => u,
        };
        let fetch_url = copy_string(&url);
        let tab_idx = self.tabs.open_new(url);
        assert forall|k: int| 0 <= k < self.tabs.tabs@.len() implies search_ok(#[trigger] self.tabs.tabs@[k]) by {
            if k < old(self).tabs.tabs@.len() {
                assert(self.tabs.tabs@.take(old(self).tabs.tabs@.len() as int)[k] == self.tabs.tabs@[k]);
            }
        }
        Some(Command::Fetch { url: fetch_url, tab_idx })
    }
}


// ── Messages, hints, bookmarks, forms ─────────────────────────────────────────

/// The live values a freshly loaded page starts with: each field's default.
pub open spec fn default_values(fields: Seq<FormField>) -> Seq<Seq<char>> {
    fields.map_values(|f: FormField| f.value@)
}

pub open spec fn strs(v: Seq<String>) -> Seq<Seq<char>> {
    v.map_values(|s: String| s@)
}

/// `nt` is tab `t` showing a loaded page: its URL, title (empty when none),
/// lines, links, line kinds, code spans, forms and fields, with the fields'
/// defaults as live values, scrolled to the top, nothing focused, not
/// loading, and no search.
pub open spec fn shows_page(
    t: Tab,
    nt: Tab,
    url: String,
    title: Option<String>,
    lines: Vec<String>,
    links: Vec<RenderedLink>,
    line_kinds: Vec<LineKind>,
    code_spans: Vec<CodeSpan>,
    forms: Vec<RenderedForm>,
    fields: Vec<FormField>,
) -> bool {
    &&& nt.url == url
    &&& nt.title@ == (match title {
        Some(s) => s@,
        None => Seq::empty(),
    })
    &&& strs(nt.field_values@) == default_values(fields@)
    &&& nt.search_matches@.len() == 0
    &&& nt == (Tab {
        url: nt.url,
        title: nt.title,
        lines,
        links,
        line_kinds,
        code_spans,
        forms,
        fields,
        field_values: nt.field_values,
        scroll: 0,
        focused: None,
        loading: false,
        search_matches: nt.search_matches,
        search_idx: 0,
        ..t
    })
}

/// The lines of the error page for `message`.
pub open spec fn error_lines(message: Seq<char>) -> Seq<Seq<char>> {
    seq!["Error: "@ + message, Seq::empty(), "Press Backspace to go back."@]
}

/// The letters of hint codes, home row first.
pub open spec fn hint_alphabet() -> Seq<char> {
    seq![
        'A', 'S', 'D', 'F', 'G', 'H', 'J', 'K', 'L', 'Q', 'W', 'E', 'R', 'T', 'Y', 'U', 'I', 'O', 'P',
        'Z', 'X', 'C', 'V', 'B', 'N', 'M'
    ]
}

/// The hint code of link `pos`: two letters, `pos / 26` and `pos % 26` in
/// the alphabet.
pub open spec fn hint_code(pos: int) -> Seq<char> {
    seq![hint_alphabet()[pos / 26], hint_alphabet()[pos % 26]]
}

pub open spec fn hint_codes_view(v: Seq<(usize, String)>) -> Seq<(usize, Seq<char>)> {
    v.map_values(|p: (usize, String)| (p.0, p.1@))
}

/// The most links that two-letter codes can name.
pub const MAX_HINTS: usize = 676;

fn copy_field_values(fields: &Vec<FormField>) -> (r: Vec<String>)
    ensures
        strs(r@) == default_values(fields@),
{
    let mut r: Vec<String> = Vec::new();
    let mut i: usize = 0;
    while i < fields.len()
        invariant
            i <= fields@.len(),
            strs(r@) == default_values(fields@.take(i as int)),
        decreases fields@.len() - i,
    {
        let ghost before = strs(r@);
        r.push(copy_string(&fields[i].value));
        assert(strs(r@) =~= before.push(fields@[i as int].value@));
        assert(default_values(fields@.take(i + 1)) =~= default_values(fields@.take(i as int)).push(
            fields@[i as int].value@,
        ));
        i = i + 1;
    }
    assert(fields@.take(fields@.len() as int) =~= fields@);
    r
}

/// `[i] url` for the first `n` bookmarks, joined by two spaces.
pub open spec fn bookmark_list(urls: Seq<Seq<char>>, n: int) -> Seq<char>
    decreases n,
{
    if n <= 0 {
        Seq::empty()
    } else {
        let item = seq!['['] + decimal(n as nat) + "] "@ + urls[n - 1];
        if n == 1 {
            item
        } else {
            bookmark_list(urls, n - 1) + "  "@ + item
        }
    }
}

/// The status line that lists bookmarks: the first five, then how many more.
pub open spec fn bookmarks_status(urls: Seq<Seq<char>>) -> Seq<char> {
    if urls.len() == 0 {
        "No bookmarks (press b to bookmark this page)"@
    } else {
        let shown: int = if urls.len() < 5 { urls.len() as int } else { 5 };
        let extra = if urls.len() > 5 {
            "  (+"@ + decimal((urls.len() - 5) as nat) + " more)"@
        } else {
            Seq::empty()
        };
        bookmark_list(urls, shown) + extra
    }
}

/// Where a form is sent: the action (or the page URL without its query when
/// the action is empty), with the query appended after `?`, or after `&`
/// when the target already has a query.
pub open spec fn submit_target(action: Seq<char>, page_url: Seq<char>, query: Seq<char>) -> Seq<char> {
    let target = if action.len() == 0 {
        without_query_spec(page_url)
    } else {
        action
    };
    if query.len() == 0 {
        target
    } else {
        target + seq![if target.contains('?') { '&' } else { '?' }] + query
    }
}

/// What entering hint mode does: without links only the status changes;
/// otherwise link `pos` gets the code `hint_code(pos)` and hint mode starts
/// with nothing typed.
pub open spec fn hinted(a: App, b: App) -> bool {
    if a.cur().links@.len() == 0 {
        status_only(a, b, "No links on page"@)
    } else {
        &&& hint_codes_view(b.hint_codes@) == Seq::new(
            a.cur().links@.len(),
            |pos: int| (pos as usize, hint_code(pos)),
        )
        &&& (b.input_mode matches InputMode::Hint(t) && t@.len() == 0)
        &&& b == (App { hint_codes: b.hint_codes, input_mode: b.input_mode, ..a })
    }
}

/// What toggling the bookmark does: the current page's URL is removed from
/// the bookmarks when there, else added with the page title; the status says
/// which.
pub open spec fn toggled(a: App, b: App) -> bool {
    let url = a.cur().url@;
    let es = a.bookmarks.view_entries();
    &&& b.bookmarks.path == a.bookmarks.path
    &&& (if has_url(es, url) {
        &&& b.bookmarks.view_entries() == remove_spec(es, url)
        &&& b.status@ == "Bookmark removed"@
    } else {
        &&& b.bookmarks.view_entries() == add_spec(es, url, a.cur().title@)
        &&& b.status@ == "Bookmarked!"@
    })
    &&& b == (App { bookmarks: b.bookmarks, status: b.status, ..a })
}

impl App {
    /// Apply a message from a background load.
    pub fn handle_msg(&mut self, msg: BgMsg)
        requires
            old(self).wf(),
        ensures
            final(self).wf(),
            match msg {
                BgMsg::Loaded { tab_idx, url, title, lines, links, line_kinds, code_spans, forms, fields } => {
                    if tab_idx < old(self).tabs.tabs@.len() {
                        &&& final(self).tabs.tabs@.len() == old(self).tabs.tabs@.len()
                        &&& final(self).tabs.tabs@ == old(self).tabs.tabs@.update(
                            tab_idx as int,
                            final(self).tabs.tabs@[tab_idx as int],
                        )
                        &&& shows_page(
                            old(self).tabs.tabs@[tab_idx as int],
                            final(self).tabs.tabs@[tab_idx as int],
                            url,
                            title,
                            lines,
                            links,
                            line_kinds,
                            code_spans,
                            forms,
                            fields,
                        )
                        &&& *final(self) == (App { tabs: final(self).tabs, ..*old(self) })
                        &&& final(self).tabs.active == old(self).tabs.active
                    } else {
                        *final(self) == *old(self)
                    }
                },
                BgMsg::Error { tab_idx, message } => {
                    &&& final(self).status@ == "Error: "@ + message@
                    &&& final(self).tabs.active == old(self).tabs.active
                    &&& (if tab_idx < old(self).tabs.tabs@.len() {
                        let t = old(self).tabs.tabs@[tab_idx as int];
                        let nt = final(self).tabs.tabs@[tab_idx as int];
                        &&& final(self).tabs.tabs@ == old(self).tabs.tabs@.update(tab_idx as int, nt)
                        &&& strs(nt.lines@) == error_lines(message@)
                        &&& nt.links@.len() == 0
                        &&& nt == (Tab { lines: nt.lines, links: nt.links, loading: false, ..t })
                    } else {
                        final(self).tabs == old(self).tabs
                    })
                    &&& *final(self) == (App { tabs: final(self).tabs, status: final(self).status, ..*old(self) })
                },
            },
    {
        match msg {
            BgMsg::Loaded { tab_idx, url, title, lines, links, line_kinds, code_spans, forms, fields } => {
                if tab_idx < self.tabs.tabs.len() {
                    let values = copy_field_values(&fields);
                    let tab = &mut self.tabs.tabs[tab_idx];
                    tab.url = url;
                    tab.title = match title {
                        Some(t) => t,
                        None => String::new(),
                    };
                    tab.lines = lines;
                    tab.links = links;
                    tab.line_kinds = line_kinds;
                    tab.code_spans = code_spans;
                    tab.field_values = values;
                    tab.forms = forms;
                    tab.fields = fields;
                    tab.scroll = 0;
                    tab.focused = None;
                    tab.loading = false;
                    tab.clear_search();
                }
            },
            BgMsg::Error { tab_idx, message } => {
                if tab_idx < self.tabs.tabs.len() {
                    let tab = &mut self.tabs.tabs[tab_idx];
                    tab.loading = false;
                    let mut lines: Vec<String> = Vec::new();
                    lines.push(prefixed("Error: ", message.as_str()));
                    lines.push(String::new());
                    lines.push("Press Backspace to go back.".to_owned());
                    assert(strs(lines@) =~= error_lines(message@));
                    tab.lines = lines;
                    tab.links.clear();
                }
                self.status = prefixed("Error: ", message.as_str());
            },
        }
    }

    /// Enter link-hint mode, assigning a 2-letter Vimium-style code to each link.
    pub fn enter_hint_mode(&mut self)
        requires
            old(self).wf(),
            old(self).cur().links@.len() <= MAX_HINTS,
        ensures
            final(self).wf(),
            hinted(*old(self), *final(self)),
    {
        let n_links = self.tabs.tabs[self.tabs.active].links.len();
        if n_links == 0 {
            self.status = "No links on page".to_owned();
            return;
        }
        let alphabet = to_chars("ASDFGHJKLQWERTYUIOPZXCVBNM");
        proof {
            reveal_strlit("ASDFGHJKLQWERTYUIOPZXCVBNM");
            assert(alphabet@ =~= hint_alphabet());
        }
        let n = alphabet.len();
        let mut codes: Vec<(usize, String)> = Vec::new();
        let mut pos: usize = 0;
        while pos < n_links
            invariant
                n == 26,
                alphabet@ == hint_alphabet(),
                n_links <= MAX_HINTS,
                pos <= n_links,
                hint_codes_view(codes@) == Seq::new(pos as nat, |p: int| (p as usize, hint_code(p))),
            decreases n_links - pos,
        {
            let mut code: Vec<char> = Vec::new();
            code.push(alphabet[pos / n]);
            code.push(alphabet[pos % n]);
            let ghost before = hint_codes_view(codes@);
            codes.push((pos, from_chars(code.as_slice())));
            assert(code@ =~= hint_code(pos as int));
            assert(hint_codes_view(codes@) =~= before.push((pos, hint_code(pos as int))));
            pos = pos + 1;
            assert(hint_codes_view(codes@) =~= Seq::new(pos as nat, |p: int| (p as usize, hint_code(p))));
        }
        self.hint_codes = codes;
        self.input_mode = InputMode::Hint(String::new());
    }

    /// Toggle the bookmark for the current tab's URL; the store is to be
    /// saved right away.
    pub fn toggle_bookmark(&mut self) -> (cmd: Command)
        requires
            old(self).wf(),
        ensures
            final(self).wf(),
            cmd is SaveBookmarks,
            toggled(*old(self), *final(self)),
    {
        let idx = self.tabs.active;
        let url = copy_string(&self.tabs.tabs[idx].url);
        let title = copy_string(&self.tabs.tabs[idx].title);
        if self.bookmarks.contains(url.as_str()) {
            self.bookmarks.remove(url.as_str());
            self.status = "Bookmark removed".to_owned();
        } else {
            self.bookmarks.add(url, title);
            self.status = "Bookmarked!".to_owned();
        }
        Command::SaveBookmarks
    }

    /// Show up to 5 bookmarks in the status bar.
    pub fn list_bookmarks(&mut self)
        requires
            old(self).wf(),
        ensures
            final(self).wf(),
            status_only(
                *old(self),
                *final(self),
                bookmarks_status(old(self).bookmarks.view_entries().map_values(|e: (Seq<char>, Seq<char>)| e.0)),
            ),
    {
        let ghost urls = self.bookmarks.view_entries().map_values(|e: (Seq<char>, Seq<char>)| e.0);
        let n = self.bookmarks.entries.len();
        if n == 0 {
            self.status = "No bookmarks (press b to bookmark this page)".to_owned();
            return;
        }
        let shown = if n < 5 { n } else { 5 };
        let mut out: Vec<char> = Vec::new();
        let mut i: usize = 0;
        while i < shown
            invariant
                shown <= n,
                n == self.bookmarks.entries@.len(),
                urls == self.bookmarks.view_entries().map_values(|e: (Seq<char>, Seq<char>)| e.0),
                urls.len() == n,
                i <= shown,
                out@ == bookmark_list(urls, i as int),
            decreases shown - i,
        {
            let ghost before = out@;
            if i > 0 {
                append_chars(&mut out, to_chars("  ").as_slice());
            }
            out.push('[');
            push_decimal(i + 1, &mut out);
            append_chars(&mut out, to_chars("] ").as_slice());
            let u = to_chars(self.bookmarks.entries[i].url.as_str());
            assert(urls[i as int] == self.bookmarks.entries@[i as int].url@);
            append_chars(&mut out, u.as_slice());
            i = i + 1;
            assert(out@ =~= bookmark_list(urls, i as int));
        }
        if n > 5 {
            append_chars(&mut out, to_chars("  (+").as_slice());
            push_decimal(n - 5, &mut out);
            append_chars(&mut out, to_chars(" more)").as_slice());
        }
        assert(out@ =~= bookmarks_status(urls));
        self.status = from_chars(out.as_slice());
    }
}


/// What submitting form `form_idx` of the current tab does: an unknown form
/// only sets the status; otherwise the app navigates to the form's target
/// with its query.
pub open spec fn submitted(a: App, b: App, cmd: Option<Command>, form_idx: usize) -> bool {
    if form_idx >= a.cur().forms@.len() {
        cmd is None && status_only(a, b, "No such form"@)
    } else {
        navigated(
            a,
            b,
            cmd,
            submit_target(
                a.cur().forms@[form_idx as int].action@,
                a.cur().url@,
                form_urlencoded(query_pairs(a.cur().fields@, a.cur().field_values@, form_idx, a.cur().fields@.len() as int)),
            ),
        )
    }
}

impl App {
    /// Submit form `form_idx` of the current tab via GET: build a query string
    /// from named (non-Submit) fields' values and navigate to `action?query`.
    /// Empty `action` resolves to the current URL stripped of any existing query.
    pub fn submit_form(&mut self, form_idx: usize) -> (cmd: Option<Command>)
        requires
            old(self).wf(),
        ensures
            final(self).wf(),
            submitted(*old(self), *final(self), cmd, form_idx),
    {
        let idx = self.tabs.active;
        if form_idx >= self.tabs.tabs[idx].forms.len() {
            self.status = "No such form".to_owned();
            return None;
        }
        let action = copy_string(&self.tabs.tabs[idx].forms[form_idx].action);
        let query = self.tabs.tabs[idx].build_query(form_idx);
        let target = if action.as_str().is_empty() {
            current_url_without_query(self.tabs.tabs[idx].url.as_str())
        } else {
            action
        };
        let href = if query.as_str().is_empty() {
            target
        } else {
            let mut v = to_chars(target.as_str());
            let sep = if contains_char(v.as_slice(), '?') { '&' } else { '?' };
            v.push(sep);
            append_chars(&mut v, to_chars(query.as_str()).as_slice());
            let r = from_chars(v.as_slice());
            assert(r@ =~= target@ + seq![sep] + query@);
            r
        };
        assert(href@ == submit_target(
            old(self).cur().forms@[form_idx as int].action@,
            old(self).cur().url@,
            query@,
        ));
        self.navigate(href)
    }
}


// ── Page loads ────────────────────────────────────────────────────────────────

/// What a fetched response gives to show: the lines with their links, title,
/// images, line kinds, code spans, forms and fields.
pub struct PageData {
    pub lines: Vec<String>,
    pub links: Vec<RenderedLink>,
    pub title: Option<String>,
    pub images: Vec<RenderedImage>,
    pub line_kinds: Vec<LineKind>,
    pub code_spans: Vec<CodeSpan>,
    pub forms: Vec<RenderedForm>,
    pub fields: Vec<FormField>,
}

pub struct PageDataView {
    pub title: Option<Seq<char>>,
    pub page: PageView,
}

pub open spec fn page_data_view(p: PageData) -> PageDataView {
    PageDataView {
        title: opt_str_view(p.title),
        page: PageView {
            lines: strs(p.lines@),
            links: links_view(p.links@),
            images: images_view(p.images@),
            line_kinds: p.line_kinds@,
            code_spans: spans_view(p.code_spans@),
            forms: forms_view(p.forms@),
            fields: fields_view(p.fields@),
        },
    }
}

/// A page of plain lines: no title, links, images, spans, forms or fields,
/// every line `Normal`.
pub open spec fn plain_page(ls: Seq<Seq<char>>) -> PageDataView {
    PageDataView {
        title: None,
        page: PageView {
            lines: ls,
            links: Seq::empty(),
            images: Seq::empty(),
            line_kinds: Seq::new(ls.len(), |k: int| LineKind::Normal),
            code_spans: Seq::empty(),
            forms: Seq::empty(),
            fields: Seq::empty(),
        },
    }
}

/// The one line shown for a response that is neither HTML nor text.
pub open spec fn binary_line(ct: Option<String>, len: nat) -> Seq<char> {
    let t = match ct {
        Some(c) => c@,
        None => "binary"@,
    };
    seq!['['] + t + " — "@ + decimal(len) + " bytes — not renderable]"@
}

/// What a response shows: HTML is parsed (bytes read as UTF-8, invalid
/// sequences replaced) and rendered, with its title — nothing when the page
/// cannot be rendered; other text is shown line by line; anything else as a
/// one-line notice of its type and size.
pub open spec fn response_page(ct: Option<String>, body: Seq<u8>) -> Option<PageDataView> {
    if type_starts_with(ct, "text/html"@) {
        let d = build_dom(html_tokens(utf8_lossy(body)));
        if renderable(d) {
            Some(PageDataView { title: title_spec(d), page: render_full_spec(d) })
        } else {
            None
        }
    } else if type_starts_with(ct, "text/"@) {
        Some(plain_page(lines_from(utf8_lossy(body), 0)))
    } else {
        Some(plain_page(seq![binary_line(ct, body.len())]))
    }
}

fn normal_lines(n: usize) -> (r: Vec<LineKind>)
    ensures
        r@ == Seq::new(n as nat, |k: int| LineKind::Normal),
{
    let mut r: Vec<LineKind> = Vec::new();
    let mut k: usize = 0;
    while k < n
        invariant
            k <= n,
            r@ == Seq::new(k as nat, |j: int| LineKind::Normal),
        decreases n - k,
    {
        r.push(LineKind::Normal);
        k = k + 1;
        assert(r@ =~= Seq::new(k as nat, |j: int| LineKind::Normal));
    }
    r
}

fn plain_data(lines: Vec<String>) -> (p: PageData)
    ensures
        page_data_view(p) == plain_page(strs(lines@)),
{
    let kinds = normal_lines(lines.len());
    let p = PageData {
        lines,
        links: Vec::new(),
        title: None,
        images: Vec::new(),
        line_kinds: kinds,
        code_spans: Vec::new(),
        forms: Vec::new(),
        fields: Vec::new(),
    };
    assert(links_view(p.links@) =~= Seq::<(Seq<char>, usize)>::empty());
    assert(images_view(p.images@) =~= Seq::<(Seq<char>, Seq<char>, usize)>::empty());
    assert(spans_view(p.code_spans@) =~= Seq::<(usize, usize, usize)>::empty());
    assert(forms_view(p.forms@) =~= Seq::<(Seq<char>, Seq<char>)>::empty());
    assert(fields_view(p.fields@) =~= Seq::<crate::renderer::text::FieldView>::empty());
    p
}

/// What a fetched response shows. `None` for an HTML page that cannot be
/// rendered (it has no root element).
pub fn page_data(resp: &HttpResponse) -> (r: Option<PageData>)
    ensures
        match r {
            Some(p) => response_page(resp.content_type, resp.body@) == Some(page_data_view(p)),
            None => response_page(resp.content_type, resp.body@) is None,
        },
{
    if resp.is_html() {
        let page = ParsedPage::from_bytes(resp.body.as_slice());
        if !can_render(&page) {
            return None;
        }
        let title = page.title();
        let rp = render_full(&page);
        let p = PageData {
            lines: rp.lines,
            links: rp.links,
            title,
            images: rp.images,
            line_kinds: rp.line_kinds,
            code_spans: rp.code_spans,
            forms: rp.forms,
            fields: rp.fields,
        };
        Some(p)
    } else if resp.is_text() {
        let text = decode_utf8_lossy(resp.body.as_slice());
        let raw = split_lines(to_chars(text.as_str()).as_slice());
        let mut lines: Vec<String> = Vec::new();
        let mut i: usize = 0;
        while i < raw.len()
            invariant
                i <= raw@.len(),
                strs(lines@) == raw@.take(i as int).map_values(|l: Vec<char>| l@),
            decreases raw@.len() - i,
        {
            let ghost before = strs(lines@);
            lines.push(from_chars(raw[i].as_slice()));
            assert(strs(lines@) =~= before.push(raw@[i as int]@));
            assert(raw@.take(i + 1).map_values(|l: Vec<char>| l@) =~= raw@.take(i as int).map_values(
                |l: Vec<char>| l@,
            ).push(raw@[i as int]@));
            i = i + 1;
        }
        assert(raw@.take(raw@.len() as int) =~= raw@);
        Some(plain_data(lines))
    } else {
        let mut v: Vec<char> = Vec::new();
        v.push('[');
        match &resp.content_type {
            Some(ct) => append_chars(&mut v, to_chars(ct.as_str()).as_slice()),
            None => append_chars(&mut v, to_chars("binary").as_slice()),
        }
        append_chars(&mut v, to_chars(" — ").as_slice());
        push_decimal(resp.body.len(), &mut v);
        append_chars(&mut v, to_chars(" bytes — not renderable]").as_slice());
        assert(v@ =~= binary_line(resp.content_type, resp.body@.len()));
        let mut lines: Vec<String> = Vec::new();
        lines.push(from_chars(v.as_slice()));
        assert(strs(lines@) =~= seq![binary_line(resp.content_type, resp.body@.len())]);
        Some(plain_data(lines))
    }
}

/// `kinds` cut or padded with `Normal` to length `n` (`Vec::resize`).
pub open spec fn resized_kinds(kinds: Seq<LineKind>, n: nat) -> Seq<LineKind> {
    Seq::new(n, |k: int| if k < kinds.len() { kinds[k] } else { LineKind::Normal })
}

fn resize_kinds(kinds: &mut Vec<LineKind>, n: usize)
    ensures
        final(kinds)@ == resized_kinds(old(kinds)@, n as nat),
{
    let mut r: Vec<LineKind> = Vec::new();
    let mut k: usize = 0;
    while k < n
        invariant
            k <= n,
            r@ == Seq::new(k as nat, |j: int| if j < kinds@.len() { kinds@[j] } else { LineKind::Normal }),
        decreases n - k,
    {
        let v = if k < kinds.len() { kinds[k] } else { LineKind::Normal };
        r.push(v);
        k = k + 1;
        assert(r@ =~= Seq::new(k as nat, |j: int| if j < kinds@.len() { kinds@[j] } else { LineKind::Normal }));
    }
    *kinds = r;
}

/// Positions on lines to carry through wrapping: one per link, then one per
/// form field.
fn line_marks(links: &Vec<RenderedLink>, fields: &Vec<FormField>) -> (marks: Vec<RenderedLink>)
    ensures
        marks@.len() == links@.len() + fields@.len(),
        forall|k: int| 0 <= k < links@.len() ==> (#[trigger] marks@[k]).line == links@[k].line,
        forall|j: int| 0 <= j < fields@.len() ==> (#[trigger] marks@[links@.len() + j]).line == fields@[j].line,
{
    let mut marks: Vec<RenderedLink> = Vec::new();
    let mut k: usize = 0;
    while k < links.len()
        invariant
            k <= links@.len(),
            marks@.len() == k,
            forall|i: int| 0 <= i < k ==> (#[trigger] marks@[i]).line == links@[i].line,
        decreases links@.len() - k,
    {
        marks.push(RenderedLink { href: String::new(), line: links[k].line });
        k = k + 1;
    }
    let mut j: usize = 0;
    while j < fields.len()
        invariant
            j <= fields@.len(),
            marks@.len() == links@.len() + j,
            forall|i: int| 0 <= i < links@.len() ==> (#[trigger] marks@[i]).line == links@[i].line,
            forall|i: int| 0 <= i < j ==> (#[trigger] marks@[links@.len() + i]).line == fields@[i].line,
        decreases fields@.len() - j,
    {
        marks.push(RenderedLink { href: String::new(), line: fields[j].line });
        j = j + 1;
    }
    marks
}

/// The message for a finished load: the page's lines word-wrapped to the
/// default width, its links, images and form fields moved to their wrapped
/// lines, and its line kinds cut or padded (with `Normal`) to the new number
/// of lines. Code spans keep the line and offsets they had before wrapping.
pub fn finish_page(tab_idx: usize, url: String, data: PageData) -> (msg: BgMsg)
    ensures
        match msg {
            BgMsg::Loaded { tab_idx: t, url: u, title, lines, links, line_kinds, code_spans, forms, fields } => {
                let ls = strs(data.lines@);
                let w = DEFAULT_WIDTH as nat;
                &&& t == tab_idx
                &&& u == url
                &&& title == data.title
                &&& strs(lines@) == wrap_all(ls, w)
                &&& links@.len() == data.links@.len()
                &&& (forall|k: int|
                    0 <= k < links@.len() ==> (#[trigger] links@[k]).href == data.links@[k].href && links@[k].line
                        == wrapped_index(ls, w, data.links@[k].line as int))
                &&& line_kinds@ == resized_kinds(data.line_kinds@, wrap_all(ls, w).len())
                &&& line_kinds@.len() == lines@.len()
                &&& code_spans == data.code_spans
                &&& forms == data.forms
                &&& fields@.len() == data.fields@.len()
                &&& (forall|k: int|
                    0 <= k < fields@.len() ==> #[trigger] fields@[k] == (FormField {
                        line: wrapped_index(ls, w, data.fields@[k].line as int) as usize,
                        ..data.fields@[k]
                    }))
            },
            BgMsg::Error { .. } => false,
        },
{
    let PageData { lines, mut links, title, mut images, mut line_kinds, code_spans, forms, mut fields } = data;
    let ghost ls = strs(lines@);
    let ghost w = DEFAULT_WIDTH as nat;
    assert(strs_view(lines@) == ls);
    let mut marks = line_marks(&links, &fields);
    let ghost marks0 = marks@;
    let wrapped = wrap_lines(lines, marks.as_mut_slice(), images.as_mut_slice(), DEFAULT_WIDTH);
    let nl = links.len();
    let mut k: usize = 0;
    while k < nl
        invariant
            nl == links@.len(),
            nl == data.links@.len(),
            k <= nl,
            marks@.len() == marks0.len(),
            marks0.len() == nl + data.fields@.len(),
            forall|i: int| 0 <= i < nl ==> (#[trigger] marks0[i]).line == data.links@[i].line,
            forall|i: int| 0 <= i < marks0.len() ==> (#[trigger] marks@[i]).line == wrapped_index(ls, w, marks0[i].line as int),
            forall|i: int| k <= i < nl ==> #[trigger] links@[i] == data.links@[i],
            forall|i: int| 0 <= i < k ==> (#[trigger] links@[i]).href == data.links@[i].href && links@[i].line
                == wrapped_index(ls, w, data.links@[i].line as int),
        decreases nl - k,
    {
        let new_line = marks[k].line;
        links[k].line = new_line;
        k = k + 1;
    }
    let nf = fields.len();
    let total = marks.len();
    let mut j: usize = 0;
    while j < nf
        invariant
            total == marks0.len(),
            nf == fields@.len(),
            nf == data.fields@.len(),
            nl == data.links@.len(),
            j <= nf,
            marks@.len() == marks0.len(),
            marks0.len() == nl + nf,
            forall|i: int| 0 <= i < nf ==> (#[trigger] marks0[nl + i]).line == data.fields@[i].line,
            forall|i: int| 0 <= i < marks0.len() ==> (#[trigger] marks@[i]).line == wrapped_index(ls, w, marks0[i].line as int),
            forall|i: int| j <= i < nf ==> #[trigger] fields@[i] == data.fields@[i],
            forall|i: int| 0 <= i < j ==> #[trigger] fields@[i] == (FormField {
                line: wrapped_index(ls, w, data.fields@[i].line as int) as usize,
                ..data.fields@[i]
            }),
        decreases nf - j,
    {
        assert(marks@[nl + j as int].line == wrapped_index(ls, w, marks0[nl + j as int].line as int));
        let new_line = marks[nl + j].line;
        fields[j].line = new_line;
        j = j + 1;
    }
    resize_kinds(&mut line_kinds, wrapped.len());
    BgMsg::Loaded { tab_idx, url, title, lines: wrapped, links, line_kinds, code_spans, forms, fields }
}


// ── Inline images ─────────────────────────────────────────────────────────────

/// At most this many images of a page are fetched.
pub const MAX_IMAGES: usize = 12;

/// Largest inline image, in terminal cells.
pub const MAX_CELLS_WIDE: u32 = 80;

pub const MAX_CELLS_TALL: u32 = 18;

/// The images to fetch, as (image index, absolute URL), among the first
/// `n`: those whose source resolves against the page URL.
pub open spec fn fetch_list(images: Seq<RenderedImage>, base: Seq<char>, n: int) -> Seq<(usize, Seq<char>)>
    decreases n,
{
    if n <= 0 || n > images.len() {
        Seq::empty()
    } else {
        let prev = fetch_list(images, base, n - 1);
        match resolve_spec(base, images[n - 1].src@) {
            Some(u) => prev.push(((n - 1) as usize, u)),
            None => prev,
        }
    }
}

pub open spec fn pairs_of(v: Seq<(usize, String)>) -> Seq<(usize, Seq<char>)> {
    v.map_values(|p: (usize, String)| (p.0, p.1@))
}

/// Which images to fetch for inline display: the first `MAX_IMAGES`, with
/// their sources resolved against the page URL (those that do not resolve are
/// skipped).
pub fn images_to_fetch(images: &Vec<RenderedImage>, base_url: &str) -> (r: Vec<(usize, String)>)
    ensures
        pairs_of(r@) == fetch_list(
            images@,
            base_url@,
            if images@.len() < MAX_IMAGES { images@.len() as int } else { MAX_IMAGES as int },
        ),
{
    let n = if images.len() < MAX_IMAGES { images.len() } else { MAX_IMAGES };
    let mut r: Vec<(usize, String)> = Vec::new();
    let mut i: usize = 0;
    while i < n
        invariant
            n <= images@.len(),
            i <= n,
            pairs_of(r@) == fetch_list(images@, base_url@, i as int),
        decreases n - i,
    {
        match resolve_url(base_url, images[i].src.as_str()) {
            Some(u) => {
                let ghost before = pairs_of(r@);
                let ghost uv = u@;
                r.push((i, u));
                assert(pairs_of(r@) =~= before.push((i, uv)));
            },
            None => {},
        }
        i = i + 1;
    }
    r
}

/// The line of image `idx` (0 when there is no such image).
pub open spec fn image_line(images: Seq<RenderedImage>, idx: usize) -> usize {
    if idx < images.len() {
        images[idx as int].line
    } else {
        0
    }
}

pub type ImageRows = (usize, Seq<Seq<char>>);

/// `x` placed into `s` after every result whose image line is not smaller.
pub open spec fn insert_desc(images: Seq<RenderedImage>, s: Seq<ImageRows>, x: ImageRows) -> Seq<ImageRows>
    decreases s.len(),
{
    if s.len() == 0 || image_line(images, s.last().0) >= image_line(images, x.0) {
        s.push(x)
    } else {
        insert_desc(images, s.drop_last(), x).push(s.last())
    }
}

/// The results ordered by image line, largest first, equal lines keeping
/// their order (a stable sort).
pub open spec fn sort_desc(images: Seq<RenderedImage>, s: Seq<ImageRows>) -> Seq<ImageRows>
    decreases s.len(),
{
    if s.len() == 0 {
        s
    } else {
        insert_desc(images, sort_desc(images, s.drop_last()), s.last())
    }
}

pub open spec fn rows_of(v: Seq<(usize, Vec<String>)>) -> Seq<ImageRows> {
    v.map_values(|p: (usize, Vec<String>)| (p.0, strs(p.1@)))
}

/// The page after one image's rows replace its placeholder line: links
/// below it move down by the rows added. Nothing changes for an unknown
/// image or a placeholder past the end.
pub open spec fn splice_one(
    images: Seq<RenderedImage>,
    lines: Seq<Seq<char>>,
    links: Seq<(Seq<char>, usize)>,
    r: ImageRows,
) -> (Seq<Seq<char>>, Seq<(Seq<char>, usize)>) {
    if r.0 >= images.len() || images[r.0 as int].line >= lines.len() {
        (lines, links)
    } else {
        let pos = images[r.0 as int].line;
        let n = r.1.len();
        (
            lines.take(pos as int) + r.1 + lines.skip(pos + 1),
            links.map_values(
                |l: (Seq<char>, usize)| if l.1 > pos { (l.0, (l.1 + n - 1) as usize) } else { l },
            ),
        )
    }
}

/// The page after the results from the `k`-th on are spliced in, in order.
pub open spec fn splice_from(
    images: Seq<RenderedImage>,
    lines: Seq<Seq<char>>,
    links: Seq<(Seq<char>, usize)>,
    rs: Seq<ImageRows>,
    k: int,
) -> (Seq<Seq<char>>, Seq<(Seq<char>, usize)>)
    decreases rs.len() - k,
{
    if 0 <= k < rs.len() {
        let (l2, k2) = splice_one(images, lines, links, rs[k]);
        splice_from(images, l2, k2, rs, k + 1)
    } else {
        (lines, links)
    }
}

/// The number of rows that all results bring.
pub open spec fn rows_total(rs: Seq<ImageRows>) -> nat
    decreases rs.len(),
{
    if rs.len() == 0 {
        0
    } else {
        rows_total(rs.drop_last()) + rs.last().1.len()
    }
}

/// What splicing image results into a page gives: the results taken from the
/// lowest placeholder up, each replacing its placeholder line.
pub open spec fn spliced(
    images: Seq<RenderedImage>,
    lines: Seq<Seq<char>>,
    links: Seq<(Seq<char>, usize)>,
    rs: Seq<ImageRows>,
) -> (Seq<Seq<char>>, Seq<(Seq<char>, usize)>) {
    splice_from(images, lines, links, sort_desc(images, rs), 0)
}

fn insert_result(images: &Vec<RenderedImage>, v: &mut Vec<(usize, Vec<String>)>, x: (usize, Vec<String>))
    ensures
        rows_of(final(v)@) == insert_desc(images@, rows_of(old(v)@), (x.0, strs(x.1@))),
    decreases old(v)@.len(),
{
    let n = v.len();
    let xl = if x.0 < images.len() { images[x.0].line } else { 0 };
    let last_line = if n > 0 {
        if v[n - 1].0 < images.len() { images[v[n - 1].0].line } else { 0 }
    } else {
        0
    };
    if n == 0 || last_line >= xl {
        let ghost before = rows_of(v@);
        v.push(x);
        assert(rows_of(v@) =~= before.push((x.0, strs(x.1@))));
    } else {
        let ghost s = rows_of(v@);
        let last = v.pop().unwrap();
        assert(rows_of(v@) =~= s.drop_last());
        let ghost lv = (last.0, strs(last.1@));
        assert(lv == s.last());
        insert_result(images, v, x);
        let ghost mid = rows_of(v@);
        v.push(last);
        assert(rows_of(v@) =~= mid.push(lv));
    }
}

proof fn lemma_rows_total_split(rs: Seq<ImageRows>, k: int)
    requires
        0 <= k <= rs.len(),
    ensures
        rows_total(rs.take(k)) <= rows_total(rs),
    decreases rs.len() - k,
{
    if k < rs.len() {
        lemma_rows_total_split(rs, k + 1);
        assert(rs.take(k + 1).drop_last() =~= rs.take(k));
    } else {
        assert(rs.take(k) =~= rs);
    }
}

proof fn lemma_insert_desc_total(images: Seq<RenderedImage>, s: Seq<ImageRows>, x: ImageRows)
    ensures
        rows_total(insert_desc(images, s, x)) == rows_total(s) + x.1.len(),
        insert_desc(images, s, x).len() == s.len() + 1,
    decreases s.len(),
{
    if !(s.len() == 0 || image_line(images, s.last().0) >= image_line(images, x.0)) {
        lemma_insert_desc_total(images, s.drop_last(), x);
        assert(insert_desc(images, s, x).drop_last() == insert_desc(images, s.drop_last(), x));
    } else {
        assert(s.push(x).drop_last() =~= s);
    }
}

proof fn lemma_sort_desc_total(images: Seq<RenderedImage>, s: Seq<ImageRows>)
    ensures
        rows_total(sort_desc(images, s)) == rows_total(s),
        sort_desc(images, s).len() == s.len(),
    decreases s.len(),
{
    if s.len() > 0 {
        lemma_sort_desc_total(images, s.drop_last());
        lemma_insert_desc_total(images, sort_desc(images, s.drop_last()), s.last());
    }
}

/// Every link line stays at most `bound`.
pub open spec fn links_below(links: Seq<(Seq<char>, usize)>, bound: int) -> bool {
    forall|k: int| 0 <= k < links.len() ==> (#[trigger] links[k]).1 <= bound
}

fn sort_results(images: &Vec<RenderedImage>, results: Vec<(usize, Vec<String>)>) -> (sorted: Vec<
    (usize, Vec<String>),
>)
    ensures
        rows_of(sorted@) == sort_desc(images@, rows_of(results@)),
{
    let ghost rs = rows_of(results@);
    let mut results = results;
    let mut sorted: Vec<(usize, Vec<String>)> = Vec::new();
    let mut i: usize = 0;
    assert(rows_of(sorted@) =~= sort_desc(images@, rs.take(0)));
    assert(rows_of(results@) =~= rs.skip(0));
    assert(results@.len() == results.len());
    while results.len() > 0
        invariant
            rows_of(results@) == rs.skip(i as int),
            i <= rs.len(),
            rs.len() <= usize::MAX,
            rows_of(sorted@) == sort_desc(images@, rs.take(i as int)),
        decreases results@.len(),
    {
        let ghost before = rows_of(results@);
        let ghost old_vec = results@;
        let x = results.remove(0);
        assert(x == old_vec[0]);
        assert(rows_of(old_vec)[0] == (x.0, strs(x.1@)));
        assert(rows_of(results@) =~= before.drop_first());
        assert(before[0] == rs[i as int]);
        assert((x.0, strs(x.1@)) == rs[i as int]);
        assert(rs.take(i + 1).drop_last() =~= rs.take(i as int));
        insert_result(images, &mut sorted, x);
        i = i + 1;
        assert(rows_of(results@) =~= rs.skip(i as int));
    }
    assert(rs.take(i as int) =~= rs);
    sorted
}

/// `lines` with line `pos` replaced by `rows`.
fn replace_line(lines: &mut Vec<String>, pos: usize, rows: Vec<String>)
    requires
        pos < old(lines)@.len(),
    ensures
        strs(final(lines)@) == strs(old(lines)@).take(pos as int) + strs(rows@) + strs(old(lines)@).skip(pos + 1),
{
    let ghost l0 = strs(lines@);
    let ghost rv = strs(rows@);
    lines.remove(pos);
    assert(strs(lines@) =~= l0.take(pos as int) + rv.take(0) + l0.skip(pos + 1));
    let mut rows = rows;
    let mut t: usize = 0;
    assert(rows@.len() == rows.len());
    assert(strs(rows@) =~= rv.skip(0));
    while rows.len() > 0
        invariant
            strs(rows@) == rv.skip(t as int),
            t <= rv.len(),
            rv.len() <= usize::MAX,
            pos < l0.len(),
            strs(lines@) == l0.take(pos as int) + rv.take(t as int) + l0.skip(pos + 1),
        decreases rows@.len(),
    {
        let ghost before = strs(rows@);
        let ghost old_vec = rows@;
        let l = rows.remove(0);
        assert(l == old_vec[0]);
        assert(strs(old_vec)[0] == l@);
        assert(strs(rows@) =~= before.drop_first());
        assert(before[0] == rv[t as int]);
        assert(l@ == rv[t as int]);
        let ghost lb = strs(lines@);
        assert(lines@.len() == lines.len());
        assert(pos + t <= lb.len());
        lines.insert(pos + t, l);
        assert(strs(lines@) =~= lb.insert(pos + t, rv[t as int]));
        t = t + 1;
        assert(strs(lines@) =~= l0.take(pos as int) + rv.take(t as int) + l0.skip(pos + 1));
        assert(strs(rows@) =~= rv.skip(t as int));
    }
    assert(rv.take(t as int) =~= rv);
}

/// The links with every one below line `pos` moved down by `n - 1` lines.
pub open spec fn shifted(links: Seq<(Seq<char>, usize)>, pos: usize, n: nat) -> Seq<(Seq<char>, usize)> {
    links.map_values(|l: (Seq<char>, usize)| if l.1 > pos { (l.0, (l.1 + n - 1) as usize) } else { l })
}

fn shift_links(links: &mut Vec<RenderedLink>, pos: usize, n: usize)
    requires
        forall|m: int| 0 <= m < old(links)@.len() ==> (#[trigger] old(links)@[m]).line + n <= usize::MAX + 1,
    ensures
        links_view(final(links)@) == shifted(links_view(old(links)@), pos, n as nat),
{
    let ghost k0 = links_view(links@);
    let mut k: usize = 0;
    while k < links.len()
        invariant
            k <= links@.len(),
            links@.len() == k0.len(),
            k0 == links_view(old(links)@),
            forall|m: int| 0 <= m < old(links)@.len() ==> (#[trigger] old(links)@[m]).line + n <= usize::MAX + 1,
            forall|m: int| 0 <= m < k ==> #[trigger] links_view(links@)[m] == shifted(k0, pos, n as nat)[m],
            forall|m: int| k <= m < links@.len() ==> #[trigger] links@[m] == old(links)@[m],
        decreases links@.len() - k,
    {
        let ghost prev = links@;
        if links[k].line > pos {
            let l = links[k].line;
            assert(l == old(links)@[k as int].line);
            links[k].line = l - 1 + n;
            assert(links@ == prev.update(k as int, links@[k as int]));
        }
        assert(links_view(links@)[k as int] == shifted(k0, pos, n as nat)[k as int]);
        assert forall|m: int| 0 <= m < k + 1 implies #[trigger] links_view(links@)[m] == shifted(k0, pos, n as nat)[m] by {
            if m < k {
                assert(links@[m] == prev[m]);
                assert(links_view(links@)[m] == links_view(prev)[m]);
            }
        }
        assert forall|m: int| k + 1 <= m < links@.len() implies #[trigger] links@[m] == old(links)@[m] by {
            assert(links@[m] == prev[m]);
        }
        k = k + 1;
    }
    assert(links_view(links@) =~= shifted(k0, pos, n as nat));
}

proof fn lemma_shift_bound(links: Seq<(Seq<char>, usize)>, pos: usize, n: nat, bound: int)
    requires
        links_below(links, bound),
        n > 0,
    ensures
        links_below(shifted(links, pos, n), bound + n),
{
    assert forall|k: int| 0 <= k < links.len() implies (#[trigger] shifted(links, pos, n)[k]).1 <= bound + n by {
        assert(links[k].1 <= bound);
    }
}

/// Splice fetched image rows into the page in place of each image's
/// placeholder line, from the lowest placeholder up so that earlier
/// positions stay valid, and move links below each spliced image down.
pub fn splice_images(
    lines: &mut Vec<String>,
    links: &mut Vec<RenderedLink>,
    images: &Vec<RenderedImage>,
    results: Vec<(usize, Vec<String>)>,
)
    requires
        links_below(links_view(old(links)@), isize::MAX - rows_total(rows_of(results@))),
    ensures
        (strs(final(lines)@), links_view(final(links)@)) == spliced(
            images@,
            strs(old(lines)@),
            links_view(old(links)@),
            rows_of(results@),
        ),
{
    let ghost rs = rows_of(results@);
    let ghost total = rows_total(rs);
    let mut sorted = sort_results(images, results);
    let ghost srt = rows_of(sorted@);
    proof {
        lemma_sort_desc_total(images@, rs);
    }
    let ghost lines0 = strs(lines@);
    let ghost links0 = links_view(links@);
    let mut j: usize = 0;
    assert(rows_of(sorted@) =~= srt.skip(0));
    assert(srt.take(0) =~= Seq::<ImageRows>::empty());
    assert(sorted@.len() == sorted.len());
    while sorted.len() > 0
        invariant
            rows_of(sorted@) == srt.skip(j as int),
            j <= srt.len(),
            srt.len() <= usize::MAX,
            rows_total(srt) == total,
            splice_from(images@, strs(lines@), links_view(links@), srt, j as int) == splice_from(
                images@,
                lines0,
                links0,
                srt,
                0,
            ),
            links_below(links_view(links@), isize::MAX - total + rows_total(srt.take(j as int))),
        decreases sorted@.len(),
    {
        let ghost before = rows_of(sorted@);
        let ghost old_vec = sorted@;
        let (idx, rows) = sorted.remove(0);
        assert((idx, rows) == old_vec[0]);
        assert(rows_of(old_vec)[0] == (idx, strs(rows@)));
        assert(rows_of(sorted@) =~= before.drop_first());
        assert(before[0] == srt[j as int]);
        assert((idx, strs(rows@)) == srt[j as int]);
        assert(srt.take(j + 1).drop_last() =~= srt.take(j as int));
        proof {
            lemma_rows_total_split(srt, j + 1);
        }
        let ghost l_before = strs(lines@);
        let ghost k_before = links_view(links@);
        let ghost bound = isize::MAX - total + rows_total(srt.take(j as int));
        if idx < images.len() && images[idx].line < lines.len() {
            let pos = images[idx].line;
            let n = rows.len();
            proof {
                if n > 0 {
                    lemma_shift_bound(k_before, pos, n as nat, bound);
                }
                assert forall|m: int| 0 <= m < links@.len() implies (#[trigger] links@[m]).line + n <= usize::MAX + 1 by {
                    assert(k_before[m].1 == links@[m].line);
                }
            }
            replace_line(lines, pos, rows);
            shift_links(links, pos, n);
            proof {
                if n == 0 {
                    assert forall|k: int| 0 <= k < k_before.len() implies (#[trigger] shifted(k_before, pos, 0)[k]).1
                        <= bound by {
                        assert(k_before[k].1 <= bound);
                    }
                }
            }
        }
        assert((strs(lines@), links_view(links@)) == splice_one(images@, l_before, k_before, srt[j as int]));
        j = j + 1;
        assert(rows_of(sorted@) =~= srt.skip(j as int));
    }
    assert(srt.take(j as int) =~= srt);
}


// ── Laws ──────────────────────────────────────────────────────────────────────

/// Following a link and then going back returns to the page one came from:
/// it is fetched again, becomes the tab's address, and the back stack is as
/// it was before the link was followed.
pub proof fn law_navigate_then_back(
    a: App,
    b: App,
    c: App,
    cmd1: Option<Command>,
    cmd2: Option<Command>,
    href: Seq<char>,
)
    requires
        resolve_spec(a.cur().url@, href) is Some,
        navigated(a, b, cmd1, href),
        went_back(b, c, cmd2),
    ensures
        is_fetch(cmd2, a.cur().url@, a.tabs.active),
        c.cur().url@ == a.cur().url@,
        c.cur().history@.back == a.cur().history@.back,
{
    let h = a.cur().history@;
    assert(b.cur().history@ == push_state(h, a.cur().url@));
    assert(b.cur().history@.back.drop_last() =~= h.back);
}

/// Toggling the bookmark twice on the same page leaves the page bookmarked
/// exactly when it was before.
pub proof fn law_toggle_twice(a: App, b: App, c: App)
    requires
        a.wf(),
        toggled(a, b),
        toggled(b, c),
    ensures
        has_url(c.bookmarks.view_entries(), a.cur().url@) == has_url(a.bookmarks.view_entries(), a.cur().url@),
{
    let url = a.cur().url@;
    assert(b.cur() == a.cur());
    let es = a.bookmarks.view_entries();
    if has_url(es, url) {
        law_remove_then_absent(es, url);
        law_add_then_contains(b.bookmarks.view_entries(), url, a.cur().title@);
    } else {
        law_add_then_contains(es, url, a.cur().title@);
        law_remove_then_absent(b.bookmarks.view_entries(), url);
    }
}

proof fn lemma_alphabet_distinct(x: int, y: int)
    requires
        0 <= x < 26,
        0 <= y < 26,
        x != y,
    ensures
        hint_alphabet()[x] != hint_alphabet()[y],
{
    let al = hint_alphabet();
    assert(al[0] == 'A' && al[1] == 'S' && al[2] == 'D' && al[3] == 'F' && al[4] == 'G' && al[5] == 'H' && al[6]
        == 'J' && al[7] == 'K' && al[8] == 'L' && al[9] == 'Q' && al[10] == 'W' && al[11] == 'E' && al[12] == 'R'
        && al[13] == 'T' && al[14] == 'Y' && al[15] == 'U' && al[16] == 'I' && al[17] == 'O' && al[18] == 'P'
        && al[19] == 'Z' && al[20] == 'X' && al[21] == 'C' && al[22] == 'V' && al[23] == 'B' && al[24] == 'N'
        && al[25] == 'M');
}

/// Every link gets its own hint code: two links never share one.
pub proof fn law_hint_codes_distinct(p: int, q: int)
    requires
        0 <= p < MAX_HINTS,
        0 <= q < MAX_HINTS,
        p != q,
    ensures
        hint_code(p) != hint_code(q),
{
    assert(p == (p / 26) * 26 + p % 26) by (nonlinear_arith);
    assert(q == (q / 26) * 26 + q % 26) by (nonlinear_arith);
    assert(0 <= p / 26 < 26) by (nonlinear_arith)
        requires
            0 <= p < 676,
    ;
    assert(0 <= q / 26 < 26) by (nonlinear_arith)
        requires
            0 <= q < 676,
    ;
    if p / 26 != q / 26 {
        lemma_alphabet_distinct(p / 26, q / 26);
        assert(hint_code(p)[0] != hint_code(q)[0]);
    } else {
        assert(p % 26 != q % 26);
        lemma_alphabet_distinct(p % 26, q % 26);
        assert(hint_code(p)[1] != hint_code(q)[1]);
    }
}

/// A finished load shows the page's fields with their defaults as live
/// values, one per field.
pub proof fn law_loaded_values_match_fields(
    t: Tab,
    nt: Tab,
    url: String,
    title: Option<String>,
    lines: Vec<String>,
    links: Vec<RenderedLink>,
    line_kinds: Vec<LineKind>,
    code_spans: Vec<CodeSpan>,
    forms: Vec<RenderedForm>,
    fields: Vec<FormField>,
)
    requires
        shows_page(t, nt, url, title, lines, links, line_kinds, code_spans, forms, fields),
    ensures
        nt.field_values@.len() == nt.fields@.len(),
        forall|k: int| 0 <= k < nt.fields@.len() ==> (#[trigger] nt.field_values@[k])@ == nt.fields@[k].value@,
{
    assert(strs(nt.field_values@).len() == nt.field_values@.len());
    assert forall|k: int| 0 <= k < nt.fields@.len() implies (#[trigger] nt.field_values@[k])@ == nt.fields@[k].value@ by {
        assert(strs(nt.field_values@)[k] == default_values(fields@)[k]);
    }
}


/// Submitting a form goes to its action with the encoded query appended:
/// after `&` when the action already holds a query (a `?`), else after `?`;
/// with no query, to the action itself. An empty action stands for the page
/// URL without its query.
pub proof fn law_submit_appends_query(a: App, b: App, cmd: Option<Command>, form_idx: usize)
    requires
        form_idx < a.cur().forms@.len(),
        submitted(a, b, cmd, form_idx),
    ensures
        ({
            let action = a.cur().forms@[form_idx as int].action@;
            let target = if action.len() == 0 { without_query_spec(a.cur().url@) } else { action };
            let q = form_urlencoded(
                query_pairs(a.cur().fields@, a.cur().field_values@, form_idx, a.cur().fields@.len() as int),
            );
            &&& q.len() == 0 ==> navigated(a, b, cmd, target)
            &&& q.len() > 0 && target.contains('?') ==> navigated(a, b, cmd, target + "&"@ + q)
            &&& q.len() > 0 && !target.contains('?') ==> navigated(a, b, cmd, target + "?"@ + q)
        }),
{
    reveal_strlit("&");
    reveal_strlit("?");
    let action = a.cur().forms@[form_idx as int].action@;
    let target = if action.len() == 0 { without_query_spec(a.cur().url@) } else { action };
    assert("&"@ =~= seq!['&']);
    assert("?"@ =~= seq!['?']);
}

} // verus!
