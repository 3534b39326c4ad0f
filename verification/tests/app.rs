use spiderweb::app::{
    current_url_without_query, finish_page, images_to_fetch, page_data, resolve_url, splice_images, App, BgMsg,
    Command, InputMode, PageData,
};
use spiderweb::browser::bookmarks::Bookmarks;
use spiderweb::browser::tabs::FocusItem;
use spiderweb::config::settings::Settings;
use spiderweb::network::response::HttpResponse;
use spiderweb::renderer::text::{FieldKind, FormField, LineKind, RenderedForm, RenderedImage, RenderedLink};
use spiderweb::tui::keybinds::{handle, Key, KeyCode, CONTROL, NONE, SHIFT};

fn make_app() -> App {
    App::new("https://example.com".into(), Settings::default(), Bookmarks::empty())
}

fn key(code: KeyCode) -> Key {
    Key { code, modifiers: NONE }
}

fn fetch_url(cmd: &Option<Command>) -> Option<(String, usize)> {
    match cmd {
        Some(Command::Fetch { url, tab_idx }) => Some((url.clone(), *tab_idx)),
        _ => None,
    }
}

fn three_links(app: &mut App) {
    let tab = app.tabs.current_mut();
    tab.links = vec![
        RenderedLink { href: "https://a.com".into(), line: 0 },
        RenderedLink { href: "https://b.com".into(), line: 1 },
        RenderedLink { href: "https://c.com".into(), line: 2 },
    ];
    tab.loading = false;
}

#[test]
fn scroll_clamps() {
    let mut app = make_app();
    let tab = app.tabs.current_mut();
    tab.lines = vec!["a".into(), "b".into(), "c".into()];
    tab.loading = false;
    tab.scroll_down(100);
    assert_eq!(tab.scroll, 2);
    tab.scroll_up(100);
    assert_eq!(tab.scroll, 0);
}

#[test]
fn resolve_relative() {
    let r = resolve_url("https://example.com/foo/bar", "/about");
    assert_eq!(r.as_deref(), Some("https://example.com/about"));
}

#[test]
fn resolve_absolute_passthrough() {
    let r = resolve_url("https://example.com", "https://other.com/page");
    assert_eq!(r.as_deref(), Some("https://other.com/page"));
}

#[test]
fn resolve_mailto_returns_none() {
    assert!(resolve_url("https://example.com", "mailto:x@y.com").is_none());
}

#[test]
fn resolve_javascript_returns_none() {
    assert!(resolve_url("https://example.com", "javascript:void(0)").is_none());
}

#[test]
fn resolve_sibling_and_bad_base() {
    assert_eq!(resolve_url("https://example.com/foo/bar", "baz").as_deref(), Some("https://example.com/foo/baz"));
    assert!(resolve_url("not a url", "page").is_none());
    assert!(resolve_url("https://example.com", "").is_none());
}

#[test]
fn url_without_query_strips_query_and_fragment() {
    assert_eq!(current_url_without_query("https://example.com/path?old=1#top"), "https://example.com/path");
    assert_eq!(current_url_without_query("no url here"), "no url here");
}

#[test]
fn bookmark_toggle() {
    let mut app = make_app();
    app.tabs.current_mut().loading = false;
    app.toggle_bookmark();
    assert!(app.bookmarks.contains("https://example.com"));
    app.toggle_bookmark();
    assert!(!app.bookmarks.contains("https://example.com"));
}

#[test]
fn bookmark_toggle_asks_for_save_and_reports() {
    let mut app = make_app();
    let cmd = app.toggle_bookmark();
    assert!(matches!(cmd, Command::SaveBookmarks));
    assert_eq!(app.status, "Bookmarked!");
    app.toggle_bookmark();
    assert_eq!(app.status, "Bookmark removed");
}

#[test]
fn list_bookmarks_shows_first_five() {
    let mut app = make_app();
    app.list_bookmarks();
    assert_eq!(app.status, "No bookmarks (press b to bookmark this page)");
    for i in 0..7 {
        app.bookmarks.add(format!("u{i}"), String::new());
    }
    app.list_bookmarks();
    assert_eq!(app.status, "[1] u0  [2] u1  [3] u2  [4] u3  [5] u4  (+2 more)");
}

#[test]
fn enter_hint_mode_assigns_codes_for_all_links() {
    let mut app = make_app();
    three_links(&mut app);
    app.enter_hint_mode();
    assert!(matches!(app.input_mode, InputMode::Hint(_)));
    assert_eq!(app.hint_codes.len(), 3);
    assert_eq!(app.hint_codes[0], (0, "AA".to_string()));
    assert_eq!(app.hint_codes[1], (1, "AS".to_string()));
    assert_eq!(app.hint_codes[2], (2, "AD".to_string()));
}

#[test]
fn hint_codes_roll_over_to_second_letter() {
    let mut app = make_app();
    let tab = app.tabs.current_mut();
    tab.links = (0..30).map(|i| RenderedLink { href: format!("https://{i}.com"), line: i }).collect();
    app.enter_hint_mode();
    assert_eq!(app.hint_codes[25], (25, "AM".to_string()));
    assert_eq!(app.hint_codes[26], (26, "SA".to_string()));
}

#[test]
fn enter_hint_mode_with_no_links_stays_normal() {
    let mut app = make_app();
    app.tabs.current_mut().loading = false;
    app.enter_hint_mode();
    assert!(matches!(app.input_mode, InputMode::Normal));
    assert!(!app.status.is_empty());
}

#[test]
fn navigate_then_back() {
    let mut app = make_app();
    let cmd = app.navigate("/about".into());
    assert_eq!(fetch_url(&cmd), Some(("https://example.com/about".to_string(), 0)));
    assert_eq!(app.tabs.current().url, "https://example.com/about");
    assert!(app.tabs.current().loading);
    let cmd = app.go_back();
    assert_eq!(fetch_url(&cmd), Some(("https://example.com".to_string(), 0)));
    assert_eq!(app.tabs.current().url, "https://example.com");
    let cmd = app.go_forward();
    assert_eq!(fetch_url(&cmd), Some(("https://example.com/about".to_string(), 0)));
}

#[test]
fn navigate_skips_mailto() {
    let mut app = make_app();
    let cmd = app.navigate("mailto:a@b.c".into());
    assert!(cmd.is_none());
    assert_eq!(app.status, "Skipped: mailto:a@b.c");
    assert_eq!(app.tabs.current().url, "https://example.com");
}

#[test]
fn back_without_history_sets_status() {
    let mut app = make_app();
    assert!(app.go_back().is_none());
    assert_eq!(app.status, "No history");
    assert!(app.go_forward().is_none());
    assert_eq!(app.status, "No forward history");
}

#[test]
fn open_new_tab_fetches_into_new_tab() {
    let mut app = make_app();
    let cmd = app.open_new_tab("/x".into());
    assert_eq!(fetch_url(&cmd), Some(("https://example.com/x".to_string(), 1)));
    assert_eq!(app.tabs.active, 1);
    assert_eq!(app.tabs.tabs.len(), 2);
}

fn app_with_search_form() -> App {
    let mut app = make_app();
    let tab = app.tabs.current_mut();
    tab.loading = false;
    tab.forms = vec![RenderedForm { action: "/search".into(), method: "get".into() }];
    tab.fields = vec![FormField { form_idx: 0, name: "q".into(), kind: FieldKind::Text, value: String::new(), line: 3 }];
    tab.field_values = vec![String::new()];
    app
}

#[test]
fn submit_form_builds_get_url() {
    let mut app = app_with_search_form();
    app.tabs.current_mut().field_values[0] = "a b".into();
    let cmd = app.submit_form(0);
    assert_eq!(fetch_url(&cmd), Some(("https://example.com/search?q=a+b".to_string(), 0)));
    let mut app = app_with_search_form();
    assert!(app.submit_form(3).is_none());
    assert_eq!(app.status, "No such form");
}

#[test]
fn submit_form_with_empty_action_posts_to_self() {
    let mut app = app_with_search_form();
    app.tabs.current_mut().url = "https://example.com/p?old=1".into();
    app.tabs.current_mut().forms[0].action = String::new();
    let cmd = app.submit_form(0);
    assert_eq!(fetch_url(&cmd), Some(("https://example.com/p?q=".to_string(), 0)));
}

fn loaded(tab_idx: usize) -> BgMsg {
    BgMsg::Loaded {
        tab_idx,
        url: "https://example.com/new".into(),
        title: Some("New".into()),
        lines: vec!["one".into()],
        links: vec![],
        line_kinds: vec![LineKind::Normal],
        code_spans: vec![],
        forms: vec![],
        fields: vec![FormField { form_idx: 0, name: "n".into(), kind: FieldKind::Text, value: "v".into(), line: 0 }],
    }
}

#[test]
fn handle_msg_loaded_shows_page() {
    let mut app = make_app();
    app.tabs.current_mut().scroll = 9;
    app.handle_msg(loaded(0));
    let tab = app.tabs.current();
    assert_eq!(tab.url, "https://example.com/new");
    assert_eq!(tab.title, "New");
    assert_eq!(tab.lines, vec!["one".to_string()]);
    assert_eq!(tab.field_values, vec!["v".to_string()]);
    assert_eq!(tab.scroll, 0);
    assert!(!tab.loading);
    app.handle_msg(loaded(5));
    assert_eq!(app.tabs.tabs.len(), 1);
}

#[test]
fn handle_msg_error_shows_message() {
    let mut app = make_app();
    app.handle_msg(BgMsg::Error { tab_idx: 0, message: "boom".into() });
    assert_eq!(app.status, "Error: boom");
    let tab = app.tabs.current();
    assert_eq!(tab.lines, vec!["Error: boom".to_string(), String::new(), "Press Backspace to go back.".to_string()]);
    assert!(!tab.loading);
}

fn response(ct: Option<&str>, body: &[u8]) -> HttpResponse {
    HttpResponse { status: 200, content_type: ct.map(|s| s.to_string()), body: body.to_vec() }
}

#[test]
fn page_data_for_text_and_binary() {
    let p = page_data(&response(Some("text/plain"), b"a\nb\r\nc")).unwrap();
    assert_eq!(p.lines, vec!["a".to_string(), "b".to_string(), "c".to_string()]);
    assert_eq!(p.line_kinds.len(), 3);
    let p = page_data(&response(Some("image/png"), &[1, 2, 3])).unwrap();
    assert_eq!(p.lines, vec!["[image/png — 3 bytes — not renderable]".to_string()]);
    let p = page_data(&response(None, &[])).unwrap();
    assert_eq!(p.lines, vec!["[binary — 0 bytes — not renderable]".to_string()]);
}

#[test]
fn page_data_for_html() {
    let p = page_data(&response(
        Some("text/html; charset=utf-8"),
        b"<html><head><title>T</title></head><body><a href=\"/a\">A</a></body></html>",
    ))
    .unwrap();
    assert_eq!(p.title.as_deref(), Some("T"));
    assert_eq!(p.links.len(), 1);
    assert_eq!(p.links[0].href, "/a");
}

#[test]
fn finish_page_wraps_and_keeps_metadata() {
    let data = PageData {
        lines: vec!["x".repeat(150), "tail".into()],
        links: vec![RenderedLink { href: "h".into(), line: 1 }],
        title: None,
        images: vec![],
        line_kinds: vec![LineKind::H1, LineKind::Normal],
        code_spans: vec![],
        forms: vec![],
        fields: vec![FormField { form_idx: 0, name: "q".into(), kind: FieldKind::Text, value: String::new(), line: 1 }],
    };
    match finish_page(2, "u".into(), data) {
        BgMsg::Loaded { tab_idx, url, lines, links, line_kinds, fields, .. } => {
            assert_eq!(tab_idx, 2);
            assert_eq!(url, "u");
            assert_eq!(lines.len(), 3);
            assert_eq!(links[0].line, 2);
            assert_eq!(fields[0].line, 2);
            assert_eq!(fields[0].name, "q");
            assert_eq!(line_kinds, vec![LineKind::H1, LineKind::Normal, LineKind::Normal]);
        }
        BgMsg::Error { .. } => panic!("expected a loaded page"),
    }
}

#[test]
fn images_to_fetch_resolves_and_caps() {
    let images: Vec<RenderedImage> = (0..14)
        .map(|i| RenderedImage { src: format!("/i{i}.png"), alt: String::new(), line: i })
        .collect();
    let r = images_to_fetch(&images, "https://example.com/dir/");
    assert_eq!(r.len(), 12);
    assert_eq!(r[0], (0, "https://example.com/i0.png".to_string()));
    let skipped = vec![RenderedImage { src: "javascript:x".into(), alt: String::new(), line: 0 }];
    assert!(images_to_fetch(&skipped, "https://example.com").is_empty());
}

#[test]
fn splice_images_replaces_placeholders_and_shifts_links() {
    let mut lines: Vec<String> = vec!["a".into(), "[img]".into(), "b".into(), "[img2]".into(), "c".into()];
    let mut links = vec![
        RenderedLink { href: "l0".into(), line: 0 },
        RenderedLink { href: "l2".into(), line: 2 },
        RenderedLink { href: "l4".into(), line: 4 },
    ];
    let images = vec![
        RenderedImage { src: "i".into(), alt: String::new(), line: 1 },
        RenderedImage { src: "j".into(), alt: String::new(), line: 3 },
    ];
    let results = vec![(0usize, vec!["x".to_string(), "y".to_string(), "z".to_string()]), (1usize, vec![])];
    splice_images(&mut lines, &mut links, &images, results);
    assert_eq!(lines, vec!["a", "x", "y", "z", "b", "c"]);
    assert_eq!(links[0].line, 0);
    assert_eq!(links[1].line, 4);
    assert_eq!(links[2].line, 5);
}

#[test]
fn o_key_enters_url_mode_with_current_url() {
    let mut app = make_app();
    app.tabs.current_mut().loading = false;
    handle(key(KeyCode::Char('o')), &mut app);
    assert!(matches!(app.input_mode, InputMode::Url(ref s) if s == "https://example.com"));
}

#[test]
fn search_mode_enter_exits() {
    let mut app = make_app();
    app.input_mode = InputMode::Search("hello".into());
    handle(key(KeyCode::Enter), &mut app);
    assert!(matches!(app.input_mode, InputMode::Normal));
}

#[test]
fn search_mode_esc_clears() {
    let mut app = make_app();
    app.input_mode = InputMode::Search("hello".into());
    handle(key(KeyCode::Esc), &mut app);
    assert!(matches!(app.input_mode, InputMode::Normal));
    assert!(app.tabs.current().search_matches.is_empty());
}

#[test]
fn search_mode_typing_searches() {
    let mut app = make_app();
    app.tabs.current_mut().lines = vec!["foo".into(), "bar".into(), "Bar".into()];
    handle(key(KeyCode::Char('/')), &mut app);
    handle(key(KeyCode::Char('b')), &mut app);
    assert!(matches!(&app.input_mode, InputMode::Search(s) if s == "b"));
    assert_eq!(app.tabs.current().search_matches, vec![1, 2]);
    handle(key(KeyCode::Enter), &mut app);
    handle(key(KeyCode::Char('n')), &mut app);
    assert_eq!(app.tabs.current().scroll, 2);
}

#[test]
fn url_mode_char_appends() {
    let mut app = make_app();
    app.input_mode = InputMode::Url("https://".into());
    handle(key(KeyCode::Char('x')), &mut app);
    assert!(matches!(&app.input_mode, InputMode::Url(s) if s == "https://x"));
}

#[test]
fn url_mode_backspace_pops() {
    let mut app = make_app();
    app.input_mode = InputMode::Url("https://abc".into());
    handle(key(KeyCode::Backspace), &mut app);
    assert!(matches!(&app.input_mode, InputMode::Url(s) if s == "https://ab"));
}

#[test]
fn url_mode_esc_returns_normal() {
    let mut app = make_app();
    app.input_mode = InputMode::Url("https://foo.com".into());
    handle(key(KeyCode::Esc), &mut app);
    assert!(matches!(app.input_mode, InputMode::Normal));
}

#[test]
fn url_mode_enter_navigates() {
    let mut app = make_app();
    app.input_mode = InputMode::Url("https://foo.com/".into());
    let cmd = handle(key(KeyCode::Enter), &mut app);
    assert!(matches!(app.input_mode, InputMode::Normal));
    assert_eq!(fetch_url(&cmd), Some(("https://foo.com/".to_string(), 0)));
}

#[test]
fn hint_mode_esc_returns_normal_and_clears_codes() {
    let mut app = make_app();
    app.input_mode = InputMode::Hint("A".into());
    app.hint_codes = vec![(0, "AA".into())];
    handle(key(KeyCode::Esc), &mut app);
    assert!(matches!(app.input_mode, InputMode::Normal));
    assert!(app.hint_codes.is_empty());
}

#[test]
fn hint_mode_first_char_updates_typed() {
    let mut app = make_app();
    app.input_mode = InputMode::Hint(String::new());
    app.hint_codes = vec![(0, "AA".into()), (1, "AS".into())];
    handle(key(KeyCode::Char('a')), &mut app);
    assert!(matches!(&app.input_mode, InputMode::Hint(s) if s == "A"));
}

#[test]
fn hint_mode_full_code_follows_link() {
    let mut app = make_app();
    three_links(&mut app);
    handle(key(KeyCode::Char('f')), &mut app);
    handle(key(KeyCode::Char('a')), &mut app);
    let cmd = handle(key(KeyCode::Char('s')), &mut app);
    assert_eq!(fetch_url(&cmd), Some(("https://b.com".to_string(), 0)));
    assert!(matches!(app.input_mode, InputMode::Normal));
    assert!(app.hint_codes.is_empty());
}

#[test]
fn hint_mode_shift_opens_new_tab_and_unknown_code_reports() {
    let mut app = make_app();
    three_links(&mut app);
    handle(key(KeyCode::Char('f')), &mut app);
    handle(Key { code: KeyCode::Char('A'), modifiers: SHIFT }, &mut app);
    let cmd = handle(Key { code: KeyCode::Char('D'), modifiers: SHIFT }, &mut app);
    assert_eq!(fetch_url(&cmd), Some(("https://c.com".to_string(), 1)));
    let mut app = make_app();
    three_links(&mut app);
    handle(key(KeyCode::Char('f')), &mut app);
    handle(key(KeyCode::Char('z')), &mut app);
    let cmd = handle(key(KeyCode::Char('z')), &mut app);
    assert!(cmd.is_none());
    assert_eq!(app.status, "No hint 'ZZ'");
}

#[test]
fn url_mode_ctrl_w_clears_last_segment() {
    let mut app = make_app();
    app.input_mode = InputMode::Url("https://example.com/foo/bar".into());
    handle(Key { code: KeyCode::Char('w'), modifiers: CONTROL }, &mut app);
    assert!(matches!(&app.input_mode, InputMode::Url(s) if s == "https://example.com/foo/"));
}

#[test]
fn i_key_enters_field_edit_on_text_input() {
    let mut app = app_with_search_form();
    handle(key(KeyCode::Char('i')), &mut app);
    assert!(matches!(&app.input_mode, InputMode::FieldEdit { field_idx: 0, buffer } if buffer.is_empty()));
}

#[test]
fn i_key_with_no_form_sets_status() {
    let mut app = make_app();
    app.tabs.current_mut().loading = false;
    handle(key(KeyCode::Char('i')), &mut app);
    assert!(matches!(app.input_mode, InputMode::Normal));
    assert!(!app.status.is_empty());
}

#[test]
fn field_edit_typing_appends_to_buffer() {
    let mut app = app_with_search_form();
    app.input_mode = InputMode::FieldEdit { field_idx: 0, buffer: String::new() };
    for c in "hi".chars() {
        handle(key(KeyCode::Char(c)), &mut app);
    }
    assert!(matches!(&app.input_mode, InputMode::FieldEdit { buffer, .. } if buffer == "hi"));
}

#[test]
fn field_edit_esc_discards_buffer() {
    let mut app = app_with_search_form();
    app.input_mode = InputMode::FieldEdit { field_idx: 0, buffer: "draft".into() };
    handle(key(KeyCode::Esc), &mut app);
    assert!(matches!(app.input_mode, InputMode::Normal));
    assert_eq!(app.tabs.current().field_values[0], "");
}

#[test]
fn field_edit_backspace_pops() {
    let mut app = app_with_search_form();
    app.input_mode = InputMode::FieldEdit { field_idx: 0, buffer: "abc".into() };
    handle(key(KeyCode::Backspace), &mut app);
    assert!(matches!(&app.input_mode, InputMode::FieldEdit { buffer, .. } if buffer == "ab"));
}

#[test]
fn field_edit_enter_commits_and_submits() {
    let mut app = app_with_search_form();
    app.input_mode = InputMode::FieldEdit { field_idx: 0, buffer: "rust".into() };
    let cmd = handle(key(KeyCode::Enter), &mut app);
    assert!(matches!(app.input_mode, InputMode::Normal));
    assert_eq!(fetch_url(&cmd), Some(("https://example.com/search?q=rust".to_string(), 0)));
}

#[test]
fn enter_on_checkbox_toggles_value() {
    let mut app = make_app();
    let tab = app.tabs.current_mut();
    tab.fields = vec![FormField { form_idx: 0, name: "c".into(), kind: FieldKind::Checkbox, value: "on".into(), line: 0 }];
    tab.field_values = vec![String::new()];
    tab.focused = Some(FocusItem::Field(0));
    handle(key(KeyCode::Enter), &mut app);
    assert_eq!(app.tabs.current().field_values[0], "on");
    handle(key(KeyCode::Enter), &mut app);
    assert_eq!(app.tabs.current().field_values[0], "");
}

#[test]
fn enter_on_radio_clears_siblings() {
    let mut app = make_app();
    let tab = app.tabs.current_mut();
    tab.fields = vec![
        FormField { form_idx: 0, name: "r".into(), kind: FieldKind::Radio, value: "a".into(), line: 0 },
        FormField { form_idx: 0, name: "r".into(), kind: FieldKind::Radio, value: "b".into(), line: 1 },
    ];
    tab.field_values = vec!["a".into(), String::new()];
    tab.focused = Some(FocusItem::Field(1));
    handle(key(KeyCode::Enter), &mut app);
    assert_eq!(app.tabs.current().field_values, vec![String::new(), "b".to_string()]);
}

#[test]
fn enter_on_select_cycles_options() {
    let mut app = make_app();
    let tab = app.tabs.current_mut();
    tab.fields = vec![FormField {
        form_idx: 0,
        name: "s".into(),
        kind: FieldKind::Select(vec!["x".into(), "y".into()]),
        value: "x".into(),
        line: 0,
    }];
    tab.field_values = vec!["y".into()];
    tab.focused = Some(FocusItem::Field(0));
    handle(key(KeyCode::Enter), &mut app);
    assert_eq!(app.tabs.current().field_values[0], "x");
}

#[test]
fn normal_keys_scroll_quit_and_switch_tabs() {
    let mut app = make_app();
    app.tabs.current_mut().lines = (0..50).map(|i| format!("{i}")).collect();
    handle(key(KeyCode::Char('d')), &mut app);
    assert_eq!(app.tabs.current().scroll, 20);
    handle(key(KeyCode::Char('k')), &mut app);
    assert_eq!(app.tabs.current().scroll, 19);
    handle(Key { code: KeyCode::Char('G'), modifiers: SHIFT }, &mut app);
    assert_eq!(app.tabs.current().scroll, 49);
    handle(key(KeyCode::Char('g')), &mut app);
    assert_eq!(app.tabs.current().scroll, 0);
    let cmd = handle(key(KeyCode::Char('t')), &mut app);
    assert_eq!(fetch_url(&cmd), Some((Settings::default().home_page, 1)));
    handle(key(KeyCode::Char('1')), &mut app);
    assert_eq!(app.tabs.active, 0);
    handle(key(KeyCode::Char('q')), &mut app);
    assert!(app.quit);
}

#[test]
fn new_app_starts_with_fresh_loading_tab() {
    let app = make_app();
    let tab = app.tabs.current();
    assert_eq!(app.tabs.active, 0);
    assert!(tab.loading);
    assert_eq!(tab.scroll, 0);
    assert!(tab.lines.is_empty() && tab.links.is_empty() && tab.fields.is_empty());
    assert!(!tab.history.can_go_back() && !tab.history.can_go_forward());
}

#[test]
fn search_steps_without_matches_do_nothing() {
    let mut app = make_app();
    let tab = app.tabs.current_mut();
    tab.search_idx = usize::MAX;
    tab.search_next();
    tab.search_prev();
    assert_eq!(tab.search_idx, usize::MAX);
    assert_eq!(tab.scroll, 0);
}
