//! Screen layout: what the tab bar, address bar, content pane, search or
//! field bar, and status bar show, as styled text that the program draws.

use vstd::prelude::*;

use crate::app::{search_ok, App, InputMode};
use crate::browser::bookmarks::has_url;
use crate::browser::tabs::{FocusItem, Tab};
use crate::chars::{append_chars, from_chars, has_prefix, starts_with, to_chars};
use crate::renderer::text::{decimal, push_decimal, CodeSpan, LineKind};

verus! {

/// The colours of the palette (Catppuccin Mocha).
#[derive(Debug, Clone, Copy, PartialEq, Eq, Structural)]
pub enum Color {
    Base,
    Crust,
    Surface0,
    Surface1,
    Text,
    Subtext,
    Overlay,
    Mauve,
    Blue,
    Sky,
    Green,
    Red,
    Pink,
}

/// The red, green and blue of a palette colour.
pub open spec fn rgb_spec(c: Color) -> (u8, u8, u8) {
    match c {
        Color::Base => (30, 30, 46),
        Color::Crust => (24, 24, 37),
        Color::Surface0 => (49, 50, 68),
        Color::Surface1 => (69, 71, 90),
        Color::Text => (205, 214, 244),
        Color::Subtext => (166, 173, 200),
        Color::Overlay => (108, 112, 134),
        Color::Mauve => (203, 166, 247),
        Color::Blue => (137, 180, 250),
        Color::Sky => (137, 220, 235),
        Color::Green => (166, 227, 161),
        Color::Red => (243, 139, 168),
        Color::Pink => (245, 194, 231),
    }
}

pub fn rgb(c: Color) -> (r: (u8, u8, u8))
    ensures
        r == rgb_spec(c),
{
    match c {
        Color::Base => (30, 30, 46),
        Color::Crust => (24, 24, 37),
        Color::Surface0 => (49, 50, 68),
        Color::Surface1 => (69, 71, 90),
        Color::Text => (205, 214, 244),
        Color::Subtext => (166, 173, 200),
        Color::Overlay => (108, 112, 134),
        Color::Mauve => (203, 166, 247),
        Color::Blue => (137, 180, 250),
        Color::Sky => (137, 220, 235),
        Color::Green => (166, 227, 161),
        Color::Red => (243, 139, 168),
        Color::Pink => (245, 194, 231),
    }
}

/// How text is drawn: colours (none = the terminal's) and attributes.
#[derive(Debug, Clone, Copy, PartialEq, Eq, Structural)]
pub struct Style {
    pub fg: Option<Color>,
    pub bg: Option<Color>,
    pub bold: bool,
    pub italic: bool,
    pub underlined: bool,
}

/// A run of text in one style.
pub struct StyledSpan {
    pub text: String,
    pub style: Style,
}

/// A line of spans, over a background style.
pub struct StyledLine {
    pub spans: Vec<StyledSpan>,
    pub style: Style,
}

pub open spec fn span_view(s: StyledSpan) -> (Seq<char>, Style) {
    (s.text@, s.style)
}

pub open spec fn spans_view(v: Seq<StyledSpan>) -> Seq<(Seq<char>, Style)> {
    v.map_values(|s: StyledSpan| span_view(s))
}

pub open spec fn line_view(l: StyledLine) -> (Seq<(Seq<char>, Style)>, Style) {
    (spans_view(l.spans@), l.style)
}

pub open spec fn plain() -> Style {
    Style { fg: None, bg: None, bold: false, italic: false, underlined: false }
}

pub open spec fn on(bg: Color, fg: Color) -> Style {
    Style { fg: Some(fg), bg: Some(bg), bold: false, italic: false, underlined: false }
}

pub open spec fn bold(s: Style) -> Style {
    Style { bold: true, ..s }
}

pub open spec fn fg_only(fg: Color) -> Style {
    Style { fg: Some(fg), ..plain() }
}

pub open spec fn bg_only(bg: Color) -> Style {
    Style { bg: Some(bg), ..plain() }
}

fn style_of(fg: Option<Color>, bg: Option<Color>, b: bool, i: bool, u: bool) -> (s: Style)
    ensures
        s == (Style { fg, bg, bold: b, italic: i, underlined: u }),
{
    Style { fg, bg, bold: b, italic: i, underlined: u }
}

fn span(text: Vec<char>, style: Style) -> (s: StyledSpan)
    ensures
        span_view(s) == (text@, style),
{
    StyledSpan { text: from_chars(text.as_slice()), style }
}

fn push_span(v: &mut Vec<StyledSpan>, text: Vec<char>, style: Style)
    ensures
        spans_view(final(v)@) == spans_view(old(v)@).push((text@, style)),
{
    let ghost before = spans_view(v@);
    v.push(span(text, style));
    assert(spans_view(v@) =~= before.push((text@, style)));
}

fn lit(s: &str) -> (r: Vec<char>)
    ensures
        r@ == s@,
{
    to_chars(s)
}

fn cat(a: Vec<char>, b: &[char]) -> (r: Vec<char>)
    ensures
        r@ == a@ + b@,
{
    let mut a = a;
    append_chars(&mut a, b);
    a
}

/// `n` spaces.
pub open spec fn spaces(n: nat) -> Seq<char> {
    Seq::new(n, |k: int| ' ')
}

fn spaces_vec(n: usize) -> (r: Vec<char>)
    ensures
        r@ == spaces(n as nat),
{
    let mut r: Vec<char> = Vec::new();
    let mut k: usize = 0;
    while k < n
        invariant
            k <= n,
            r@ == spaces(k as nat),
        decreases n - k,
    {
        r.push(' ');
        k = k + 1;
        assert(r@ =~= spaces(k as nat));
    }
    r
}

// ── Tab bar ───────────────────────────────────────────────────────────────────

/// The piece of `s` after the `n`-th `/` and before the next
/// (`str::split('/').nth(n)`), if `s` has that many.
pub open spec fn slash_piece(s: Seq<char>, n: nat) -> Option<Seq<char>>
    decreases s.len(),
{
    match first_slash(s, 0) {
        None => if n == 0 {
            Some(s)
        } else {
            None
        },
        Some(k) => if n == 0 {
            Some(s.take(k))
        } else {
            proof {
                lemma_first_slash(s, 0);
            }
            slash_piece(s.skip(k + 1), (n - 1) as nat)
        },
    }
}

/// The first `/` at or after `k`.
pub open spec fn first_slash(s: Seq<char>, k: int) -> Option<int>
    decreases s.len() - k,
{
    if k < 0 || k >= s.len() {
        None
    } else if s[k] == '/' {
        Some(k)
    } else {
        first_slash(s, k + 1)
    }
}

pub proof fn lemma_first_slash(s: Seq<char>, k: int)
    requires
        0 <= k,
    ensures
        first_slash(s, k) matches Some(j) ==> k <= j < s.len() && s[j] == '/',
    decreases s.len() - k,
{
    if k < s.len() && s[k] != '/' {
        lemma_first_slash(s, k + 1);
    }
}

fn find_slash(s: &[char], k: usize) -> (r: Option<usize>)
    requires
        k <= s@.len(),
    ensures
        match r {
            Some(j) => first_slash(s@, k as int) == Some(j as int),
            None => first_slash(s@, k as int) is None,
        },
{
    let mut j = k;
    while j < s.len()
        invariant
            k <= j <= s@.len(),
            first_slash(s@, j as int) == first_slash(s@, k as int),
        decreases s@.len() - j,
    {
        if s[j] == '/' {
            return Some(j);
        }
        j = j + 1;
    }
    None
}

fn nth_slash_piece(s: &[char], n: usize) -> (r: Option<Vec<char>>)
    ensures
        match r {
            Some(p) => slash_piece(s@, n as nat) == Some(p@),
            None => slash_piece(s@, n as nat) is None,
        },
    decreases s@.len(),
{
    proof {
        lemma_first_slash(s@, 0);
    }
    match find_slash(s, 0) {
        None => if n == 0 {
            Some(crate::chars::slice_chars(s, 0, s.len()))
        } else {
            None
        },
        Some(k) => if n == 0 {
            Some(crate::chars::slice_chars(s, 0, k))
        } else {
            assert(k < s@.len());
            let n_all = s.len();
            let rest = crate::chars::slice_chars(s, k + 1, n_all);
            assert(rest@ =~= s@.skip(k + 1));
            nth_slash_piece(rest.as_slice(), n - 1)
        },
    }
}

/// What a tab is called in the tab bar: its title cut to 20 characters, or
/// without a title the host part of its URL (or `tab`).
pub open spec fn tab_title(t: Tab) -> Seq<char> {
    if t.title@.len() == 0 {
        match slash_piece(t.url@, 2) {
            Some(p) => p,
            None => "tab"@,
        }
    } else if t.title@.len() <= 20 {
        t.title@
    } else {
        t.title@.take(20)
    }
}

/// The label of tab `i`: ` n: title ` with ` ⟳` while it loads.
pub open spec fn tab_label(t: Tab, i: nat) -> Seq<char> {
    seq![' '] + decimal(i + 1) + ": "@ + tab_title(t) + (if t.loading { " ⟳"@ } else { Seq::empty() }) + seq![' ']
}

pub open spec fn tab_style(active: bool) -> Style {
    if active {
        Style { underlined: true, ..bold(on(Color::Base, Color::Text)) }
    } else {
        on(Color::Crust, Color::Overlay)
    }
}

/// The tab bar: a label per tab, the active one bold and underlined, then
/// `width` spaces of padding, all on the crust colour.
pub open spec fn tab_bar_spec(tabs: Seq<Tab>, active: usize, width: nat) -> (Seq<(Seq<char>, Style)>, Style) {
    (
        Seq::new(tabs.len(), |i: int| (tab_label(tabs[i], i as nat), tab_style(i == active))) + seq![
            (spaces(width), bg_only(Color::Crust)),
        ],
        bg_only(Color::Crust),
    )
}

fn tab_title_of(t: &Tab) -> (r: Vec<char>)
    ensures
        r@ == tab_title(*t),
{
    let title = to_chars(t.title.as_str());
    if title.len() == 0 {
        match nth_slash_piece(to_chars(t.url.as_str()).as_slice(), 2) {
            Some(p) => p,
            None => lit("tab"),
        }
    } else if title.len() <= 20 {
        title
    } else {
        crate::chars::slice_chars(title.as_slice(), 0, 20)
    }
}

/// The tab bar, padded to `width` cells.
pub fn tab_bar(app: &App, width: usize) -> (l: StyledLine)
    requires
        app.tabs.tabs@.len() < usize::MAX,
    ensures
        line_view(l) == tab_bar_spec(app.tabs.tabs@, app.tabs.active, width as nat),
{
    let mut spans: Vec<StyledSpan> = Vec::new();
    let mut i: usize = 0;
    while i < app.tabs.tabs.len()
        invariant
            i <= app.tabs.tabs@.len(),
            app.tabs.tabs@.len() < usize::MAX,
            spans_view(spans@) == Seq::new(
                i as nat,
                |k: int| (tab_label(app.tabs.tabs@[k], k as nat), tab_style(k == app.tabs.active)),
            ),
        decreases app.tabs.tabs@.len() - i,
    {
        let t = &app.tabs.tabs[i];
        let mut label = lit(" ");
        push_decimal(i + 1, &mut label);
        label = cat(label, lit(": ").as_slice());
        label = cat(label, tab_title_of(t).as_slice());
        if t.loading {
            label = cat(label, lit(" ⟳").as_slice());
        }
        label.push(' ');
        proof {
            reveal_strlit(" ");
        }
        assert(label@ =~= tab_label(*t, i as nat));
        let style = if i == app.tabs.active {
            style_of(Some(Color::Text), Some(Color::Base), true, false, true)
        } else {
            style_of(Some(Color::Overlay), Some(Color::Crust), false, false, false)
        };
        push_span(&mut spans, label, style);
        i = i + 1;
        assert(spans_view(spans@) =~= Seq::new(
            i as nat,
            |k: int| (tab_label(app.tabs.tabs@[k], k as nat), tab_style(k == app.tabs.active)),
        ));
    }
    push_span(&mut spans, spaces_vec(width), style_of(None, Some(Color::Crust), false, false, false));
    assert(spans_view(spans@) =~= tab_bar_spec(app.tabs.tabs@, app.tabs.active, width as nat).0);
    StyledLine { spans, style: style_of(None, Some(Color::Crust), false, false, false) }
}

// ── Address bar ───────────────────────────────────────────────────────────────

/// The address bar: while editing a URL, `▸` and the buffer with a block
/// cursor; otherwise a green (HTTPS) or red dot, the URL (with ` ⟳` while
/// loading) and a filled or empty star for whether it is bookmarked.
pub open spec fn address_bar_spec(a: App) -> (Seq<(Seq<char>, Style)>, Style) {
    let t = a.cur();
    match a.input_mode {
        InputMode::Url(buf) => (
            seq![
                (" ▸ "@, bold(on(Color::Surface1, Color::Blue))),
                (buf@ + "█"@, on(Color::Surface1, Color::Text)),
            ],
            bg_only(Color::Surface1),
        ),
        _ => {
            let dot = if has_prefix(t.url@, "https://"@) { Color::Green } else { Color::Red };
            let marked = has_url(a.bookmarks.view_entries(), t.url@);
            (
                seq![
                    (" ● "@, on(Color::Surface0, dot)),
                    (t.url@ + (if t.loading { " ⟳"@ } else { Seq::empty() }), on(Color::Surface0, Color::Text)),
                    (
                        seq![' '] + (if marked { "★"@ } else { "☆"@ }) + seq![' '],
                        on(Color::Surface0, if marked { Color::Pink } else { Color::Overlay }),
                    ),
                ],
                bg_only(Color::Surface0),
            )
        },
    }
}

pub fn address_bar(app: &App) -> (l: StyledLine)
    requires
        app.wf(),
    ensures
        line_view(l) == address_bar_spec(*app),
{
    let t = &app.tabs.tabs[app.tabs.active];
    match &app.input_mode {
        InputMode::Url(buf) => {
            let mut spans: Vec<StyledSpan> = Vec::new();
            push_span(&mut spans, lit(" ▸ "), style_of(Some(Color::Blue), Some(Color::Surface1), true, false, false));
            push_span(
                &mut spans,
                cat(to_chars(buf.as_str()), lit("█").as_slice()),
                style_of(Some(Color::Text), Some(Color::Surface1), false, false, false),
            );
            let l = StyledLine { spans, style: style_of(None, Some(Color::Surface1), false, false, false) };
            assert(spans_view(l.spans@) =~= address_bar_spec(*app).0);
            l
        },
        _ => {
            let url = to_chars(t.url.as_str());
            let dot = if starts_with(url.as_slice(), lit("https://").as_slice()) {
                Color::Green
            } else {
                Color::Red
            };
            let marked = app.bookmarks.contains(t.url.as_str());
            let mut spans: Vec<StyledSpan> = Vec::new();
            push_span(&mut spans, lit(" ● "), style_of(Some(dot), Some(Color::Surface0), false, false, false));
            let shown = if t.loading { cat(url, lit(" ⟳").as_slice()) } else { url };
            push_span(&mut spans, shown, style_of(Some(Color::Text), Some(Color::Surface0), false, false, false));
            let mut star = lit(" ");
            star = cat(star, if marked { lit("★") } else { lit("☆") }.as_slice());
            star.push(' ');
            proof {
                reveal_strlit(" ");
            }
            let star_color = if marked { Color::Pink } else { Color::Overlay };
            push_span(&mut spans, star, style_of(Some(star_color), Some(Color::Surface0), false, false, false));
            let l = StyledLine { spans, style: style_of(None, Some(Color::Surface0), false, false, false) };
            let ghost sv = spans_view(l.spans@);
            let ghost want = address_bar_spec(*app).0;
            assert(sv.len() == 3);
            assert(sv[0] == want[0]);
            assert(sv[1] == want[1]);
            assert(sv[2] == want[2]);
            assert(spans_view(l.spans@) =~= address_bar_spec(*app).0);
            l
        },
    }
}


// ── Status bar ────────────────────────────────────────────────────────────────

/// The mode badge: its label and colour.
pub open spec fn mode_badge(m: InputMode) -> (Seq<char>, Color) {
    match m {
        InputMode::Normal => ("NORMAL"@, Color::Blue),
        InputMode::Search(_) => ("SEARCH"@, Color::Red),
        InputMode::Url(_) => ("URL"@, Color::Mauve),
        InputMode::Hint(_) => ("HINT"@, Color::Green),
        InputMode::FieldEdit { .. } => ("INPUT"@, Color::Pink),
    }
}

/// The key hints shown for a mode when there is no status message.
pub open spec fn mode_hints(m: InputMode) -> Seq<char> {
    match m {
        InputMode::Normal => " o:open  f:hints  i:input  /:search  b:bmark  j/k:scroll  t:tab"@,
        InputMode::Search(_) => " Esc:cancel  Enter:done  n/N:next/prev"@,
        InputMode::Url(_) => " Enter:go  Esc:cancel  Ctrl+W:clear-word  Backspace:del"@,
        InputMode::Hint(_) => " type letters to follow  ·  Shift+letters:new tab  ·  Esc:cancel"@,
        InputMode::FieldEdit { .. } => " Enter:submit  Tab:next-field  Esc:cancel"@,
    }
}

/// The status bar: the mode badge, the status message (or the mode's key
/// hints), and the scroll position as `line/lines`.
pub open spec fn status_bar_spec(a: App) -> (Seq<(Seq<char>, Style)>, Style) {
    let t = a.cur();
    let (label, color) = mode_badge(a.input_mode);
    let msg = if a.status@.len() > 0 {
        seq![' '] + a.status@ + seq![' ']
    } else {
        mode_hints(a.input_mode)
    };
    let lines: nat = if t.lines@.len() > 1 { t.lines@.len() } else { 1 };
    let info = seq![' '] + decimal((t.scroll + 1) as nat) + seq!['/'] + decimal(lines) + seq![' '];
    (
        seq![
            (seq![' '] + label + seq![' '], bold(on(color, Color::Crust))),
            (msg, on(Color::Crust, Color::Overlay)),
            (info, on(Color::Crust, Color::Subtext)),
        ],
        bg_only(Color::Crust),
    )
}

fn badge_of(m: &InputMode) -> (r: (Vec<char>, Color))
    ensures
        (r.0@, r.1) == mode_badge(*m),
{
    match m {
        InputMode::Normal => (lit("NORMAL"), Color::Blue),
        InputMode::Search(_) => (lit("SEARCH"), Color::Red),
        InputMode::Url(_) => (lit("URL"), Color::Mauve),
        InputMode::Hint(_) => (lit("HINT"), Color::Green),
        InputMode::FieldEdit { .. } => (lit("INPUT"), Color::Pink),
    }
}

fn hints_of(m: &InputMode) -> (r: Vec<char>)
    ensures
        r@ == mode_hints(*m),
{
    match m {
        InputMode::Normal => lit(" o:open  f:hints  i:input  /:search  b:bmark  j/k:scroll  t:tab"),
        InputMode::Search(_) => lit(" Esc:cancel  Enter:done  n/N:next/prev"),
        InputMode::Url(_) => lit(" Enter:go  Esc:cancel  Ctrl+W:clear-word  Backspace:del"),
        InputMode::Hint(_) => lit(" type letters to follow  ·  Shift+letters:new tab  ·  Esc:cancel"),
        InputMode::FieldEdit { .. } => lit(" Enter:submit  Tab:next-field  Esc:cancel"),
    }
}

pub fn status_bar(app: &App) -> (l: StyledLine)
    requires
        app.wf(),
        app.cur().scroll < usize::MAX,
    ensures
        line_view(l) == status_bar_spec(*app),
{
    let t = &app.tabs.tabs[app.tabs.active];
    let (label, color) = badge_of(&app.input_mode);
    let msg = if app.status.as_str().is_empty() {
        hints_of(&app.input_mode)
    } else {
        let mut m = lit(" ");
        m = cat(m, to_chars(app.status.as_str()).as_slice());
        m.push(' ');
        m
    };
    let n = if t.lines.len() > 1 { t.lines.len() } else { 1 };
    let mut info = lit(" ");
    push_decimal(t.scroll + 1, &mut info);
    info.push('/');
    push_decimal(n, &mut info);
    info.push(' ');
    let mut badge = lit(" ");
    badge = cat(badge, label.as_slice());
    badge.push(' ');
    proof {
        reveal_strlit(" ");
    }
    let mut spans: Vec<StyledSpan> = Vec::new();
    push_span(&mut spans, badge, style_of(Some(Color::Crust), Some(color), true, false, false));
    push_span(&mut spans, msg, style_of(Some(Color::Overlay), Some(Color::Crust), false, false, false));
    push_span(&mut spans, info, style_of(Some(Color::Subtext), Some(Color::Crust), false, false, false));
    let l = StyledLine { spans, style: style_of(None, Some(Color::Crust), false, false, false) };
    let ghost sv = spans_view(l.spans@);
    let ghost want = status_bar_spec(*app).0;
    assert(sv[0] == want[0]);
    assert(sv[1] == want[1]);
    assert(sv[2] == want[2]);
    assert(sv =~= want);
    l
}

// ── Search and field bars ─────────────────────────────────────────────────────

/// The bar under the content: in search mode `/query` with the match count
/// (or ` (no matches)`); while editing a field, its name (or `input`) and the
/// buffer with a block cursor; otherwise none.
pub open spec fn bottom_bar_spec(a: App) -> Option<(Seq<(Seq<char>, Style)>, Style)> {
    let t = a.cur();
    match a.input_mode {
        InputMode::Search(q) => {
            let info = if q@.len() > 0 && t.search_matches@.len() == 0 {
                " (no matches)"@
            } else if t.search_matches@.len() > 0 {
                " ("@ + decimal((t.search_idx + 1) as nat) + seq!['/'] + decimal(t.search_matches@.len()) + seq![')']
            } else {
                Seq::empty()
            };
            Some((seq![(seq!['/'] + q@ + info, plain())], on(Color::Surface0, Color::Text)))
        },
        InputMode::FieldEdit { field_idx, buffer } => {
            let name = if field_idx < t.fields@.len() { t.fields@[field_idx as int].name@ } else { "input"@ };
            let label = if name.len() == 0 { "input"@ } else { name };
            Some(
                (
                    seq![
                        (" ✎ "@ + label + ": "@, bold(on(Color::Surface1, Color::Mauve))),
                        (buffer@ + "█"@, on(Color::Surface1, Color::Text)),
                    ],
                    bg_only(Color::Surface1),
                ),
            )
        },
        _ => None,
    }
}

pub open spec fn bar_spans(o: Option<(Seq<(Seq<char>, Style)>, Style)>) -> Seq<(Seq<char>, Style)> {
    match o {
        Some(l) => l.0,
        None => Seq::empty(),
    }
}

pub open spec fn opt_line_view(o: Option<StyledLine>) -> Option<(Seq<(Seq<char>, Style)>, Style)> {
    match o {
        Some(l) => Some(line_view(l)),
        None => None,
    }
}

pub fn bottom_bar(app: &App) -> (r: Option<StyledLine>)
    requires
        app.wf(),
    ensures
        opt_line_view(r) == bottom_bar_spec(*app),
{
    let t = &app.tabs.tabs[app.tabs.active];
    assert(search_ok(app.cur()));
    match &app.input_mode {
        InputMode::Search(q) => {
            let mut text = lit("/");
            text = cat(text, to_chars(q.as_str()).as_slice());
            let nm = t.search_matches.len();
            if !q.as_str().is_empty() && nm == 0 {
                text = cat(text, lit(" (no matches)").as_slice());
            } else if nm > 0 {
                text = cat(text, lit(" (").as_slice());
                push_decimal(t.search_idx + 1, &mut text);
                text.push('/');
                push_decimal(nm, &mut text);
                text.push(')');
            }
            proof {
                reveal_strlit("/");
            }
            let ghost info = if q@.len() > 0 && t.search_matches@.len() == 0 {
                " (no matches)"@
            } else if t.search_matches@.len() > 0 {
                " ("@ + decimal((t.search_idx + 1) as nat) + seq!['/'] + decimal(t.search_matches@.len()) + seq![')']
            } else {
                Seq::empty()
            };
            assert(text@ =~= seq!['/'] + q@ + info);
            let mut spans: Vec<StyledSpan> = Vec::new();
            push_span(&mut spans, text, style_of(None, None, false, false, false));
            let l = StyledLine { spans, style: style_of(Some(Color::Text), Some(Color::Surface0), false, false, false) };
            assert(spans_view(l.spans@) =~= bar_spans(bottom_bar_spec(*app)));
            Some(l)
        },
        InputMode::FieldEdit { field_idx, buffer } => {
            let name = if *field_idx < t.fields.len() {
                to_chars(t.fields[*field_idx].name.as_str())
            } else {
                lit("input")
            };
            let label = if name.len() == 0 { lit("input") } else { name };
            let mut head = lit(" ✎ ");
            head = cat(head, label.as_slice());
            head = cat(head, lit(": ").as_slice());
            let mut spans: Vec<StyledSpan> = Vec::new();
            push_span(&mut spans, head, style_of(Some(Color::Mauve), Some(Color::Surface1), true, false, false));
            push_span(
                &mut spans,
                cat(to_chars(buffer.as_str()), lit("█").as_slice()),
                style_of(Some(Color::Text), Some(Color::Surface1), false, false, false),
            );
            let l = StyledLine { spans, style: style_of(None, Some(Color::Surface1), false, false, false) };
            let ghost sv = spans_view(l.spans@);
            let ghost want = bar_spans(bottom_bar_spec(*app));
            assert(sv[0] == want[0]);
            assert(sv[1] == want[1]);
            assert(sv =~= want);
            Some(l)
        },
        _ => None,
    }
}


// ── Content pane ──────────────────────────────────────────────────────────────

/// The style of a line by its kind: headings in colour (bold for the first
/// two levels, italic from the fourth), other lines in the text colour.
pub open spec fn heading_style(k: LineKind) -> Style {
    match k {
        LineKind::H1 => bold(fg_only(Color::Mauve)),
        LineKind::H2 => bold(fg_only(Color::Blue)),
        LineKind::H3 => fg_only(Color::Sky),
        LineKind::H4Plus => Style { italic: true, ..fg_only(Color::Subtext) },
        LineKind::Normal => fg_only(Color::Text),
    }
}

/// Inline code: green italic.
pub open spec fn code_style() -> Style {
    Style { italic: true, ..fg_only(Color::Green) }
}

pub open spec fn cspan(c: CodeSpan) -> (usize, usize, usize) {
    (c.line, c.start, c.end)
}

/// The code spans, among the first `n`, that lie on line `i`, in order.
pub open spec fn spans_on_line(spans: Seq<CodeSpan>, i: int, n: int) -> Seq<(usize, usize, usize)>
    decreases n,
{
    if n <= 0 || n > spans.len() {
        Seq::empty()
    } else if spans[n - 1].line == i {
        spans_on_line(spans, i, n - 1).push(cspan(spans[n - 1]))
    } else {
        spans_on_line(spans, i, n - 1)
    }
}

/// `x` placed into `s` after every span that starts no later.
pub open spec fn insert_by_start(s: Seq<(usize, usize, usize)>, x: (usize, usize, usize)) -> Seq<
    (usize, usize, usize),
>
    decreases s.len(),
{
    if s.len() == 0 || s.last().1 <= x.1 {
        s.push(x)
    } else {
        insert_by_start(s.drop_last(), x).push(s.last())
    }
}

/// The spans ordered by start, equal starts keeping their order.
pub open spec fn sort_by_start(s: Seq<(usize, usize, usize)>) -> Seq<(usize, usize, usize)>
    decreases s.len(),
{
    if s.len() == 0 {
        s
    } else {
        insert_by_start(sort_by_start(s.drop_last()), s.last())
    }
}

pub open spec fn clamp(x: int, n: int) -> int {
    if x < n {
        x
    } else {
        n
    }
}

/// The pieces of `text` from span `k` on, `pos` characters already taken:
/// plain text up to each span's start in `base`, the span itself in the code
/// style, and what remains after the last span in `base` (offsets cut to the
/// text's length).
pub open spec fn code_pieces(text: Seq<char>, cs: Seq<(usize, usize, usize)>, k: int, pos: int, base: Style) -> Seq<
    (Seq<char>, Style),
>
    decreases cs.len() - k,
{
    if k < 0 || k >= cs.len() {
        if pos < text.len() {
            seq![(text.subrange(pos, text.len() as int), base)]
        } else {
            Seq::empty()
        }
    } else {
        let start = clamp(cs[k].1 as int, text.len() as int);
        let end = clamp(cs[k].2 as int, text.len() as int);
        let before = if start > pos {
            seq![(text.subrange(pos, start), base)]
        } else {
            Seq::empty()
        };
        let code = if end > start {
            seq![(text.subrange(start, end), code_style())]
        } else {
            Seq::empty()
        };
        before + code + code_pieces(text, cs, k + 1, end, base)
    }
}

/// The code of the first hint, in order, whose link is on line `i`.
pub open spec fn hint_for_line(codes: Seq<(usize, String)>, links: Seq<crate::renderer::text::RenderedLink>, i: int, k: int) -> Option<
    Seq<char>,
>
    decreases codes.len() - k,
{
    if k < 0 || k >= codes.len() {
        None
    } else if codes[k].0 < links.len() && links[codes[k].0 as int].line == i {
        Some(codes[k].1@)
    } else {
        hint_for_line(codes, links, i, k + 1)
    }
}

/// A hint badge: green before anything is typed, red when its code starts
/// with what was typed, dim otherwise.
pub open spec fn badge_style(typed: Seq<char>, code: Seq<char>) -> Style {
    if typed.len() == 0 {
        bold(on(Color::Green, Color::Crust))
    } else if has_prefix(code, typed) {
        bold(on(Color::Red, Color::Crust))
    } else {
        on(Color::Surface1, Color::Overlay)
    }
}

/// Line `i` of the current tab as drawn: a two-space margin; the text
/// highlighted when it holds the focused link (outside hint mode), the
/// current search match, or another match; else in its heading style with
/// inline code marked; and in hint mode the badge of a link on it.
pub open spec fn content_line_spec(a: App, i: int) -> Seq<(Seq<char>, Style)> {
    let t = a.cur();
    let text = t.lines@[i]@;
    let in_hint = a.input_mode is Hint;
    let typed = match a.input_mode {
        InputMode::Hint(s) => s@,
        _ => Seq::empty(),
    };
    let selected = !in_hint && (t.focused matches Some(FocusItem::Link(sel)) && sel < t.links@.len()
        && t.links@[sel as int].line == i);
    let current = t.search_matches@.len() > 0 && t.search_matches@[t.search_idx as int] == i;
    let other = !current && t.search_matches@.contains(i as usize);
    let kind = if i < t.line_kinds@.len() {
        t.line_kinds@[i]
    } else {
        LineKind::Normal
    };
    let main = if selected {
        seq![(text, Style { underlined: true, ..on(Color::Surface1, Color::Sky) })]
    } else if current {
        seq![(text, on(Color::Red, Color::Crust))]
    } else if other {
        seq![(text, on(Color::Surface1, Color::Red))]
    } else {
        let cs = sort_by_start(spans_on_line(t.code_spans@, i, t.code_spans@.len() as int));
        if cs.len() == 0 {
            seq![(text, heading_style(kind))]
        } else {
            code_pieces(text, cs, 0, 0, heading_style(kind))
        }
    };
    let badge = if in_hint {
        match hint_for_line(a.hint_codes@, t.links@, i, 0) {
            Some(code) => seq![(seq![' '] + code + seq![' '], badge_style(typed, code))],
            None => Seq::empty(),
        }
    } else {
        Seq::empty()
    };
    seq![("  "@, plain())] + main + badge
}

/// What the content pane shows.
pub enum Content {
    /// A message alone (red on the base colour).
    Message(String),
    /// The visible lines (on the base colour).
    Lines(Vec<Vec<StyledSpan>>),
}

pub enum ContentView {
    Message(Seq<char>),
    Lines(Seq<Seq<(Seq<char>, Style)>>),
}

pub open spec fn content_view(c: Content) -> ContentView {
    match c {
        Content::Message(m) => ContentView::Message(m@),
        Content::Lines(ls) => ContentView::Lines(ls@.map_values(|l: Vec<StyledSpan>| spans_view(l@))),
    }
}

/// The content pane, `height` lines tall: a finished page without lines
/// shows the status (or `No content`); otherwise the lines from the scroll
/// position on.
pub open spec fn content_spec(a: App, height: nat) -> ContentView {
    let t = a.cur();
    if t.lines@.len() == 0 && !t.loading {
        ContentView::Message(if a.status@.len() == 0 { "No content"@ } else { a.status@ })
    } else {
        let avail: int = if t.scroll < t.lines@.len() { t.lines@.len() - t.scroll } else { 0 };
        let count: int = if (height as int) < avail { height as int } else { avail };
        ContentView::Lines(Seq::new(count as nat, |k: int| content_line_spec(a, t.scroll + k)))
    }
}

fn spans_on(spans: &Vec<CodeSpan>, i: usize) -> (r: Vec<(usize, usize, usize)>)
    ensures
        r@ == sort_by_start(spans_on_line(spans@, i as int, spans@.len() as int)),
{
    let mut on_line: Vec<(usize, usize, usize)> = Vec::new();
    let mut k: usize = 0;
    while k < spans.len()
        invariant
            k <= spans@.len(),
            on_line@ == spans_on_line(spans@, i as int, k as int),
        decreases spans@.len() - k,
    {
        if spans[k].line == i {
            on_line.push((spans[k].line, spans[k].start, spans[k].end));
        }
        k = k + 1;
    }
    let mut sorted: Vec<(usize, usize, usize)> = Vec::new();
    let mut m: usize = 0;
    while m < on_line.len()
        invariant
            m <= on_line@.len(),
            sorted@ == sort_by_start(on_line@.take(m as int)),
        decreases on_line@.len() - m,
    {
        assert(on_line@.take(m + 1).drop_last() =~= on_line@.take(m as int));
        insert_span(&mut sorted, on_line[m]);
        m = m + 1;
    }
    assert(on_line@.take(on_line@.len() as int) =~= on_line@);
    sorted
}

fn insert_span(v: &mut Vec<(usize, usize, usize)>, x: (usize, usize, usize))
    ensures
        final(v)@ == insert_by_start(old(v)@, x),
    decreases old(v)@.len(),
{
    let n = v.len();
    if n == 0 || v[n - 1].1 <= x.1 {
        v.push(x);
    } else {
        let last = v.pop().unwrap();
        insert_span(v, x);
        v.push(last);
    }
}

/// Spans for a line that contains inline code spans (green italic).
pub fn build_code_spans(text: &[char], spans: &Vec<(usize, usize, usize)>, base: Style) -> (r: Vec<StyledSpan>)
    ensures
        spans_view(r@) == code_pieces(text@, spans@, 0, 0, base),
{
    let n = text.len();
    let mut result: Vec<StyledSpan> = Vec::new();
    let mut pos: usize = 0;
    let mut k: usize = 0;
    while k < spans.len()
        invariant
            n == text@.len(),
            k <= spans@.len(),
            pos <= n,
            spans_view(result@) + code_pieces(text@, spans@, k as int, pos as int, base) == code_pieces(
                text@,
                spans@,
                0,
                0,
                base,
            ),
        decreases spans@.len() - k,
    {
        let (_, s0, e0) = spans[k];
        let start = if s0 < n { s0 } else { n };
        let end = if e0 < n { e0 } else { n };
        let ghost before = spans_view(result@);
        if start > pos {
            push_span(&mut result, crate::chars::slice_chars(text, pos, start), base);
        }
        if end > start {
            push_span(
                &mut result,
                crate::chars::slice_chars(text, start, end),
                style_of(Some(Color::Green), None, false, true, false),
            );
        }
        assert(spans_view(result@) + code_pieces(text@, spans@, k + 1, end as int, base) =~= before
            + code_pieces(text@, spans@, k as int, pos as int, base));
        pos = end;
        k = k + 1;
    }
    if pos < n {
        push_span(&mut result, crate::chars::slice_chars(text, pos, n), base);
    }
    assert(spans_view(result@) =~= spans_view(result@) + code_pieces(text@, spans@, k as int, n as int, base));
    result
}

fn hint_on_line(codes: &Vec<(usize, String)>, links: &Vec<crate::renderer::text::RenderedLink>, i: usize) -> (r: Option<
    Vec<char>,
>)
    ensures
        match r {
            Some(c) => hint_for_line(codes@, links@, i as int, 0) == Some(c@),
            None => hint_for_line(codes@, links@, i as int, 0) is None,
        },
{
    let mut k: usize = 0;
    while k < codes.len()
        invariant
            k <= codes@.len(),
            hint_for_line(codes@, links@, i as int, k as int) == hint_for_line(codes@, links@, i as int, 0),
        decreases codes@.len() - k,
    {
        let li = codes[k].0;
        if li < links.len() && links[li].line == i {
            return Some(to_chars(codes[k].1.as_str()));
        }
        k = k + 1;
    }
    None
}

fn usize_in(v: &Vec<usize>, x: usize) -> (b: bool)
    ensures
        b == v@.contains(x),
{
    let mut k: usize = 0;
    while k < v.len()
        invariant
            k <= v@.len(),
            forall|m: int| 0 <= m < k ==> v@[m] != x,
        decreases v@.len() - k,
    {
        if v[k] == x {
            return true;
        }
        k = k + 1;
    }
    false
}

fn content_line(app: &App, i: usize) -> (r: Vec<StyledSpan>)
    requires
        app.wf(),
        i < app.cur().lines@.len(),
    ensures
        spans_view(r@) == content_line_spec(*app, i as int),
{
    let t = &app.tabs.tabs[app.tabs.active];
    assert(search_ok(app.cur()));
    let text = to_chars(t.lines[i].as_str());
    let (in_hint, typed) = match &app.input_mode {
        InputMode::Hint(s) => (true, to_chars(s.as_str())),
        _ => (false, Vec::new()),
    };
    let selected = !in_hint && match t.focused {
        Some(FocusItem::Link(sel)) => sel < t.links.len() && t.links[sel].line == i,
        _ => false,
    };
    let nm = t.search_matches.len();
    let current = nm > 0 && t.search_matches[t.search_idx] == i;
    let other = !current && usize_in(&t.search_matches, i);
    let kind = if i < t.line_kinds.len() { t.line_kinds[i] } else { LineKind::Normal };
    let base = match kind {
        LineKind::H1 => style_of(Some(Color::Mauve), None, true, false, false),
        LineKind::H2 => style_of(Some(Color::Blue), None, true, false, false),
        LineKind::H3 => style_of(Some(Color::Sky), None, false, false, false),
        LineKind::H4Plus => style_of(Some(Color::Subtext), None, false, true, false),
        LineKind::Normal => style_of(Some(Color::Text), None, false, false, false),
    };
    let mut out: Vec<StyledSpan> = Vec::new();
    push_span(&mut out, lit("  "), style_of(None, None, false, false, false));
    let ghost head = spans_view(out@);
    let ghost tv = app.cur();
    let ghost main_spec = if selected {
        seq![(text@, Style { underlined: true, ..on(Color::Surface1, Color::Sky) })]
    } else if current {
        seq![(text@, on(Color::Red, Color::Crust))]
    } else if other {
        seq![(text@, on(Color::Surface1, Color::Red))]
    } else {
        let cs = sort_by_start(spans_on_line(tv.code_spans@, i as int, tv.code_spans@.len() as int));
        if cs.len() == 0 {
            seq![(text@, heading_style(kind))]
        } else {
            code_pieces(text@, cs, 0, 0, heading_style(kind))
        }
    };
    if selected {
        push_span(&mut out, text, style_of(Some(Color::Sky), Some(Color::Surface1), false, false, true));
    } else if current {
        push_span(&mut out, text, style_of(Some(Color::Crust), Some(Color::Red), false, false, false));
    } else if other {
        push_span(&mut out, text, style_of(Some(Color::Red), Some(Color::Surface1), false, false, false));
    } else {
        let cs = spans_on(&t.code_spans, i);
        if cs.len() == 0 {
            push_span(&mut out, text, base);
        } else {
            let pieces = build_code_spans(text.as_slice(), &cs, base);
            let ghost pv = spans_view(pieces@);
            let mut pieces = pieces;
            let mut moved: usize = 0;
            let ghost start = spans_view(out@);
            assert(pieces@.len() == pieces.len());
            assert(spans_view(pieces@) =~= pv.skip(0));
            while pieces.len() > 0
                invariant
                    spans_view(pieces@) == pv.skip(moved as int),
                    moved <= pv.len(),
                    pv.len() <= usize::MAX,
                    spans_view(out@) == start + pv.take(moved as int),
                decreases pieces@.len(),
            {
                let ghost bp = spans_view(pieces@);
                let ghost old_vec = pieces@;
                let sp = pieces.remove(0);
                assert(sp == old_vec[0]);
                assert(spans_view(pieces@) =~= bp.drop_first());
                let ghost bo = spans_view(out@);
                out.push(sp);
                assert(spans_view(out@) =~= bo.push(span_view(sp)));
                assert(bp[0] == pv[moved as int]);
                moved = moved + 1;
                assert(spans_view(out@) =~= start + pv.take(moved as int));
                assert(spans_view(pieces@) =~= pv.skip(moved as int));
            }
            assert(pv.take(moved as int) =~= pv);
        }
    }
    assert(spans_view(out@) =~= head + main_spec);
    let ghost mid = spans_view(out@);
    let ghost badge_spec = if in_hint {
        match hint_for_line(app.hint_codes@, tv.links@, i as int, 0) {
            Some(code) => seq![(seq![' '] + code + seq![' '], badge_style(typed@, code))],
            None => Seq::empty(),
        }
    } else {
        Seq::empty()
    };
    if in_hint {
        match hint_on_line(&app.hint_codes, &t.links, i) {
            Some(code) => {
                let st = if typed.len() == 0 {
                    style_of(Some(Color::Crust), Some(Color::Green), true, false, false)
                } else if starts_with(code.as_slice(), typed.as_slice()) {
                    style_of(Some(Color::Crust), Some(Color::Red), true, false, false)
                } else {
                    style_of(Some(Color::Overlay), Some(Color::Surface1), false, false, false)
                };
                let mut label = lit(" ");
                label = cat(label, code.as_slice());
                label.push(' ');
                proof {
                    reveal_strlit(" ");
                }
                assert(label@ =~= seq![' '] + code@ + seq![' ']);
                assert(st == badge_style(typed@, code@));
                assert(hint_for_line(app.hint_codes@, tv.links@, i as int, 0) == Some(code@));
                push_span(&mut out, label, st);
                assert(spans_view(out@) =~= mid + badge_spec);
            },
            None => {
                assert(spans_view(out@) =~= mid + badge_spec);
            },
        }
    } else {
        assert(spans_view(out@) =~= mid + badge_spec);
    }
    assert(head =~= seq![("  "@, plain())]);
    assert(spans_view(out@) =~= content_line_spec(*app, i as int));
    out
}

/// The content pane, `height` lines tall.
pub fn content(app: &App, height: usize) -> (c: Content)
    requires
        app.wf(),
    ensures
        content_view(c) == content_spec(*app, height as nat),
{
    let t = &app.tabs.tabs[app.tabs.active];
    if t.lines.len() == 0 && !t.loading {
        let msg = if app.status.as_str().is_empty() {
            "No content".to_owned()
        } else {
            crate::chars::copy_string(&app.status)
        };
        return Content::Message(msg);
    }
    let avail = if t.scroll < t.lines.len() { t.lines.len() - t.scroll } else { 0 };
    let count = if height < avail { height } else { avail };
    assert(t.lines@.len() == t.lines.len());
    let mut lines: Vec<Vec<StyledSpan>> = Vec::new();
    let mut k: usize = 0;
    while k < count
        invariant
            app.wf(),
            t == app.cur(),
            count <= avail,
            avail == (if t.scroll < t.lines@.len() { t.lines@.len() - t.scroll } else { 0 }),
            k <= count,
            count > 0 ==> t.scroll + count <= t.lines@.len(),
            t.lines@.len() <= usize::MAX,
            lines@.map_values(|l: Vec<StyledSpan>| spans_view(l@)) == Seq::new(
                k as nat,
                |j: int| content_line_spec(*app, t.scroll + j),
            ),
        decreases count - k,
    {
        let ghost before = lines@.map_values(|l: Vec<StyledSpan>| spans_view(l@));
        let line = content_line(app, t.scroll + k);
        let ghost lv = spans_view(line@);
        lines.push(line);
        assert(lines@.map_values(|l: Vec<StyledSpan>| spans_view(l@)) =~= before.push(lv));
        k = k + 1;
        assert(lines@.map_values(|l: Vec<StyledSpan>| spans_view(l@)) =~= Seq::new(
            k as nat,
            |j: int| content_line_spec(*app, t.scroll + j),
        ));
    }
    Content::Lines(lines)
}

} // verus!
