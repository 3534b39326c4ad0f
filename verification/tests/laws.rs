use spiderweb::app::{App, InputMode};
use spiderweb::browser::bookmarks::Bookmarks;
use spiderweb::browser::history::History;
use spiderweb::config::settings::Settings;
use spiderweb::parser::css::{parse_stylesheet, HiddenSet};
use spiderweb::parser::layout::{visible_width, wrap_lines};
use spiderweb::renderer::text::{RenderedImage, RenderedLink};
use spiderweb::tui::keybinds::{clear_last_segment, handle, Key, KeyCode, NONE};

#[test]
fn bookmark_add_then_remove_restores_entries() {
    let mut b = Bookmarks::empty();
    b.add("https://x.com".into(), "X".into());
    b.add("https://y.com".into(), "Y".into());
    assert!(b.contains("https://y.com"));
    assert!(b.remove("https://y.com"));
    assert_eq!(b.entries.len(), 1);
    assert_eq!(b.entries[0].url, "https://x.com");
    assert!(!b.contains("https://y.com"));
}

#[test]
fn history_forward_then_back_returns() {
    let mut h = History::new();
    h.push("https://a.com".into());
    let a = h.go_back("https://b.com").unwrap();
    let b = h.go_forward(&a).unwrap();
    assert_eq!(b, "https://b.com");
    let a2 = h.go_back(&b).unwrap();
    assert_eq!(a2, "https://a.com");
}

#[test]
fn stylesheet_only_adds_names() {
    let mut set = HiddenSet::empty();
    parse_stylesheet(".keep { display: none }", &mut set);
    parse_stylesheet(".other { color: red } #i { display:none }", &mut set);
    assert_eq!(set.classes, vec!["keep".to_string()]);
    assert_eq!(set.ids, vec!["i".to_string()]);
}

#[test]
fn wrapped_lines_fit_width() {
    let lines = vec!["alpha beta gamma delta epsilon".to_string(), "x".repeat(33)];
    let mut links: Vec<RenderedLink> = vec![];
    let mut images: Vec<RenderedImage> = vec![];
    let out = wrap_lines(lines, &mut links, &mut images, 7);
    assert!(out.iter().all(|l| visible_width(l) <= 7));
}

#[test]
fn clear_last_segment_examples() {
    assert_eq!(clear_last_segment("https://example.com/foo/bar".into()), "https://example.com/foo/");
    assert_eq!(clear_last_segment("https://example.com/foo/".into()), "https://example.com/");
    assert_eq!(clear_last_segment("hello world ".into()), "hello ");
    assert_eq!(clear_last_segment("word".into()), "");
    assert_eq!(clear_last_segment(String::new()), "");
}

#[test]
fn url_type_then_delete_restores_buffer() {
    let mut app = App::new("https://example.com".into(), Settings::default(), Bookmarks::empty());
    app.input_mode = InputMode::Url("abc".into());
    handle(Key { code: KeyCode::Char('Z'), modifiers: NONE }, &mut app);
    handle(Key { code: KeyCode::Backspace, modifiers: NONE }, &mut app);
    assert!(matches!(&app.input_mode, InputMode::Url(s) if s == "abc"));
}

#[test]
fn hint_codes_are_distinct() {
    let mut app = App::new("https://example.com".into(), Settings::default(), Bookmarks::empty());
    app.tabs.current_mut().links =
        (0..676).map(|i| RenderedLink { href: format!("https://{i}.com"), line: i }).collect();
    app.enter_hint_mode();
    let mut codes: Vec<String> = app.hint_codes.iter().map(|(_, c)| c.clone()).collect();
    assert_eq!(codes.len(), 676);
    assert_eq!(codes[675], "MM");
    codes.sort();
    codes.dedup();
    assert_eq!(codes.len(), 676);
}

#[test]
fn empty_store_lives_in_spiderweb_dir() {
    let b = Bookmarks::empty();
    assert!(b.entries.is_empty());
    assert!(b.path.ends_with("spiderweb/bookmarks.json"));
}
