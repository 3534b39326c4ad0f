use spiderweb::app::{App, InputMode};
use spiderweb::browser::bookmarks::Bookmarks;
use spiderweb::config::settings::Settings;
use spiderweb::network::response::HttpResponse;
use spiderweb::renderer::text::{CodeSpan, FormField, FieldKind, LineKind};
use spiderweb::tui::ui::{
    address_bar, bottom_bar, build_code_spans, content, rgb, status_bar, tab_bar, Color, Content, Style, StyledLine,
};

fn make_app() -> App {
    App::new("https://example.com/a/b".into(), Settings::default(), Bookmarks::empty())
}

fn texts(l: &StyledLine) -> Vec<String> {
    l.spans.iter().map(|s| s.text.clone()).collect()
}

fn plain() -> Style {
    Style { fg: None, bg: None, bold: false, italic: false, underlined: false }
}

#[test]
fn placeholder() {}

#[test]
fn default_is_valid() {
    let s = Settings::default();
    assert!(!s.home_page.is_empty());
    assert!(s.timeout_secs > 0);
}

fn make(ct: Option<&str>) -> HttpResponse {
    HttpResponse { status: 200, content_type: ct.map(str::to_owned), body: Vec::new() }
}

#[test]
fn is_text_html() {
    assert!(make(Some("text/html; charset=utf-8")).is_text());
    assert!(make(Some("text/html; charset=utf-8")).is_html());
}

#[test]
fn is_text_plain() {
    assert!(make(Some("text/plain")).is_text());
    assert!(!make(Some("text/plain")).is_html());
}

#[test]
fn not_text() {
    assert!(!make(Some("application/json")).is_text());
    assert!(!make(None).is_text());
    assert!(!make(Some("TEXT/html")).is_html());
}

#[test]
fn palette_colours() {
    assert_eq!(rgb(Color::Base), (30, 30, 46));
    assert_eq!(rgb(Color::Pink), (245, 194, 231));
}

#[test]
fn tab_bar_labels_tabs() {
    let mut app = make_app();
    app.tabs.open_new("https://x.org/".into());
    app.tabs.tabs[1].title = "A very long page title indeed".into();
    let bar = tab_bar(&app, 3);
    let t = texts(&bar);
    assert_eq!(t[0], " 1: example.com ⟳ ");
    assert_eq!(t[1], " 2: A very long page tit ⟳ ");
    assert_eq!(t[2], "   ");
    assert_eq!(bar.spans[1].style.bold, true);
    assert_eq!(bar.spans[0].style.fg, Some(Color::Overlay));
}

#[test]
fn address_bar_shows_url_and_bookmark_star() {
    let mut app = make_app();
    app.tabs.current_mut().loading = false;
    let bar = address_bar(&app);
    assert_eq!(texts(&bar), vec![" ● ", "https://example.com/a/b", " ☆ "]);
    assert_eq!(bar.spans[0].style.fg, Some(Color::Green));
    app.toggle_bookmark();
    let bar = address_bar(&app);
    assert_eq!(bar.spans[2].text, " ★ ");
    app.input_mode = InputMode::Url("abc".into());
    let bar = address_bar(&app);
    assert_eq!(texts(&bar), vec![" ▸ ", "abc█"]);
}

#[test]
fn status_bar_shows_mode_message_and_position() {
    let mut app = make_app();
    app.tabs.current_mut().lines = vec!["a".into(), "b".into()];
    let bar = status_bar(&app);
    assert_eq!(
        texts(&bar),
        vec![" NORMAL ", " o:open  f:hints  i:input  /:search  b:bmark  j/k:scroll  t:tab", " 1/2 "]
    );
    app.status = "hello".into();
    app.input_mode = InputMode::Hint(String::new());
    let bar = status_bar(&app);
    assert_eq!(texts(&bar), vec![" HINT ", " hello ", " 1/2 "]);
}

#[test]
fn bottom_bar_for_search_and_field_edit() {
    let mut app = make_app();
    assert!(bottom_bar(&app).is_none());
    app.input_mode = InputMode::Search("zz".into());
    let bar = bottom_bar(&app).unwrap();
    assert_eq!(texts(&bar), vec!["/zz (no matches)"]);
    let tab = app.tabs.current_mut();
    tab.fields = vec![FormField { form_idx: 0, name: String::new(), kind: FieldKind::Text, value: String::new(), line: 0 }];
    tab.field_values = vec![String::new()];
    app.input_mode = InputMode::FieldEdit { field_idx: 0, buffer: "hi".into() };
    let bar = bottom_bar(&app).unwrap();
    assert_eq!(texts(&bar), vec![" ✎ input: ", "hi█"]);
}

#[test]
fn content_message_when_empty() {
    let mut app = make_app();
    app.tabs.current_mut().loading = false;
    match content(&app, 10) {
        Content::Message(m) => assert_eq!(m, "No content"),
        Content::Lines(_) => panic!("expected a message"),
    }
}

#[test]
fn content_lines_with_heading_and_code() {
    let mut app = make_app();
    let tab = app.tabs.current_mut();
    tab.loading = false;
    tab.lines = vec!["Head".into(), "use x now".into(), "tail".into()];
    tab.line_kinds = vec![LineKind::H1, LineKind::Normal, LineKind::Normal];
    tab.code_spans = vec![CodeSpan { line: 1, start: 4, end: 5 }];
    match content(&app, 2) {
        Content::Lines(ls) => {
            assert_eq!(ls.len(), 2);
            assert_eq!(ls[0][0].text, "  ");
            assert_eq!(ls[0][1].text, "Head");
            assert_eq!(ls[0][1].style.fg, Some(Color::Mauve));
            let t: Vec<String> = ls[1].iter().map(|s| s.text.clone()).collect();
            assert_eq!(t, vec!["  ", "use ", "x", " now"]);
            assert_eq!(ls[1][2].style.fg, Some(Color::Green));
            assert!(ls[1][2].style.italic);
        }
        Content::Message(_) => panic!("expected lines"),
    }
}

#[test]
fn code_spans_are_split_and_clamped() {
    let text: Vec<char> = "abcdef".chars().collect();
    let spans = vec![(0usize, 1usize, 2usize), (0usize, 4usize, 9usize)];
    let out = build_code_spans(&text, &spans, plain());
    let t: Vec<String> = out.iter().map(|s| s.text.clone()).collect();
    assert_eq!(t, vec!["a", "b", "cd", "ef"]);
    assert_eq!(out[1].style.fg, Some(Color::Green));
    assert_eq!(out[2].style, plain());
}
