use std::path::PathBuf;

use spiderweb::browser::bookmarks::Bookmarks;
use spiderweb::browser::history::History;
use spiderweb::browser::tabs::{FocusItem, Tab, TabManager};
use spiderweb::renderer::text::{FieldKind, FormField, RenderedForm, RenderedLink};

#[test]
fn add_deduplicates() {
    let mut b = Bookmarks { path: PathBuf::new(), entries: Vec::new() };
    b.add("https://a.com".into(), "A".into());
    b.add("https://a.com".into(), "A again".into());
    assert_eq!(b.entries.len(), 1);
}

#[test]
fn remove_by_url() {
    let mut b = Bookmarks { path: PathBuf::new(), entries: Vec::new() };
    b.add("https://a.com".into(), "A".into());
    assert!(b.remove("https://a.com"));
    assert!(b.entries.is_empty());
    assert!(!b.remove("https://a.com"));
}

#[test]
fn add_keeps_first_title_and_contains_finds_it() {
    let mut b = Bookmarks::empty();
    b.add("https://a.com".into(), "A".into());
    b.add("https://b.com".into(), "B".into());
    b.add("https://a.com".into(), "A again".into());
    assert_eq!(b.entries.len(), 2);
    assert_eq!(b.entries[0].title, "A");
    assert!(b.contains("https://b.com"));
    assert!(!b.contains("https://c.com"));
}

#[test]
fn back_forward_cycle() {
    let mut h = History::new();
    h.push("https://a.com".into());
    h.push("https://b.com".into());

    assert!(h.can_go_back());
    assert!(!h.can_go_forward());

    let prev = h.go_back("https://c.com");
    assert_eq!(prev.as_deref(), Some("https://b.com"));
    assert!(h.can_go_forward());

    let next = h.go_forward("https://b.com");
    assert_eq!(next.as_deref(), Some("https://c.com"));
}

#[test]
fn new_navigate_clears_forward() {
    let mut h = History::new();
    h.push("https://a.com".into());
    h.go_back("https://b.com");
    assert!(h.can_go_forward());
    h.push("https://c.com".into());
    assert!(!h.can_go_forward());
}

#[test]
fn empty_history_returns_none() {
    let mut h = History::new();
    assert!(h.go_back("https://x.com").is_none());
    assert!(h.go_forward("https://x.com").is_none());
}

#[test]
fn back_then_forward_returns_to_start() {
    let mut h = History::new();
    h.push("https://a.com".into());
    let back = h.go_back("https://b.com");
    assert_eq!(back.as_deref(), Some("https://a.com"));
    let fwd = h.go_forward("https://a.com");
    assert_eq!(fwd.as_deref(), Some("https://b.com"));
    assert!(h.can_go_back());
    assert!(!h.can_go_forward());
}

#[test]
fn open_and_switch() {
    let mut tm = TabManager::new("https://a.com".into());
    tm.open_new("https://b.com".into());
    assert_eq!(tm.active, 1);
    tm.switch_to(0);
    assert_eq!(tm.current().url, "https://a.com");
}

#[test]
fn close_keeps_minimum_one() {
    let mut tm = TabManager::new("https://a.com".into());
    tm.close_current();
    assert_eq!(tm.tabs.len(), 1);
}

#[test]
fn close_last_tab_moves_active_back() {
    let mut tm = TabManager::new("https://a.com".into());
    tm.open_new("https://b.com".into());
    tm.open_new("https://c.com".into());
    tm.close_current();
    assert_eq!(tm.tabs.len(), 2);
    assert_eq!(tm.active, 1);
    assert_eq!(tm.current().url, "https://b.com");
    tm.switch_to(7);
    assert_eq!(tm.active, 1);
}

#[test]
fn focus_cycle_wraps_links() {
    let mut tab = Tab::new("https://x.com".into());
    tab.links = vec![
        RenderedLink { href: "https://a.com".into(), line: 0 },
        RenderedLink { href: "https://b.com".into(), line: 2 },
    ];
    tab.next_focus();
    assert_eq!(tab.focused, Some(FocusItem::Link(0)));
    tab.prev_focus();
    assert_eq!(tab.focused, Some(FocusItem::Link(1)));
}

#[test]
fn focus_order_excludes_hidden() {
    let mut tab = Tab::new("https://x.com".into());
    tab.fields = vec![
        FormField { form_idx: 0, name: "h".into(), kind: FieldKind::Hidden, value: "".into(), line: 0 },
        FormField { form_idx: 0, name: "q".into(), kind: FieldKind::Text, value: "".into(), line: 1 },
    ];
    tab.field_values = vec!["".into(), "".into()];
    let order = tab.build_focus_order();
    assert_eq!(order, vec![FocusItem::Field(1)]);
}

#[test]
fn focus_order_sorted_by_line() {
    let mut tab = Tab::new("https://x.com".into());
    tab.links = vec![RenderedLink { href: "https://a.com".into(), line: 5 }];
    tab.fields = vec![
        FormField { form_idx: 0, name: "q".into(), kind: FieldKind::Text, value: "".into(), line: 2 },
        FormField { form_idx: 0, name: "btn".into(), kind: FieldKind::Submit, value: "Go".into(), line: 8 },
    ];
    tab.field_values = vec!["".into(), "Go".into()];
    let order = tab.build_focus_order();
    assert_eq!(order, vec![FocusItem::Field(0), FocusItem::Link(0), FocusItem::Field(1)]);
}

#[test]
fn focus_order_link_before_field_on_same_line() {
    let mut tab = Tab::new("https://x.com".into());
    tab.links = vec![RenderedLink { href: "https://a.com".into(), line: 3 }];
    tab.fields = vec![FormField { form_idx: 0, name: "q".into(), kind: FieldKind::Text, value: "".into(), line: 3 }];
    tab.field_values = vec!["".into()];
    assert_eq!(tab.build_focus_order(), vec![FocusItem::Link(0), FocusItem::Field(0)]);
}

#[test]
fn focus_cycle_wraps_mixed() {
    let mut tab = Tab::new("https://x.com".into());
    tab.links = vec![RenderedLink { href: "https://a.com".into(), line: 5 }];
    tab.fields = vec![FormField { form_idx: 0, name: "q".into(), kind: FieldKind::Text, value: "".into(), line: 2 }];
    tab.field_values = vec!["".into()];
    tab.next_focus();
    assert_eq!(tab.focused, Some(FocusItem::Field(0)));
    tab.next_focus();
    assert_eq!(tab.focused, Some(FocusItem::Link(0)));
    tab.next_focus();
    assert_eq!(tab.focused, Some(FocusItem::Field(0)));
}

#[test]
fn prev_focus_from_none_goes_to_last() {
    let mut tab = Tab::new("https://x.com".into());
    tab.links = vec![
        RenderedLink { href: "https://a.com".into(), line: 0 },
        RenderedLink { href: "https://b.com".into(), line: 1 },
    ];
    tab.prev_focus();
    assert_eq!(tab.focused, Some(FocusItem::Link(1)));
}

#[test]
fn next_then_prev_focus_restores_focus() {
    let mut tab = Tab::new("https://x.com".into());
    tab.links = vec![
        RenderedLink { href: "https://a.com".into(), line: 0 },
        RenderedLink { href: "https://b.com".into(), line: 1 },
        RenderedLink { href: "https://c.com".into(), line: 2 },
    ];
    tab.focused = Some(FocusItem::Link(1));
    tab.next_focus();
    assert_eq!(tab.focused, Some(FocusItem::Link(2)));
    tab.prev_focus();
    assert_eq!(tab.focused, Some(FocusItem::Link(1)));
}

#[test]
fn focus_scrolls_to_item_line() {
    let mut tab = Tab::new("https://x.com".into());
    tab.links = vec![RenderedLink { href: "https://a.com".into(), line: 40 }];
    tab.next_focus();
    assert_eq!(tab.scroll, 40);
}

#[test]
fn focus_without_items_stays_none() {
    let mut tab = Tab::new("https://x.com".into());
    tab.next_focus();
    assert_eq!(tab.focused, None);
    tab.prev_focus();
    assert_eq!(tab.focused, None);
}

#[test]
fn selected_href_none_when_field_focused() {
    let mut tab = Tab::new("https://x.com".into());
    tab.fields = vec![FormField { form_idx: 0, name: "q".into(), kind: FieldKind::Text, value: "".into(), line: 0 }];
    tab.field_values = vec!["".into()];
    tab.focused = Some(FocusItem::Field(0));
    assert_eq!(tab.selected_href(), None);
}

#[test]
fn selected_href_returns_href_when_link_focused() {
    let mut tab = Tab::new("https://x.com".into());
    tab.links = vec![RenderedLink { href: "https://a.com".into(), line: 0 }];
    tab.focused = Some(FocusItem::Link(0));
    assert_eq!(tab.selected_href(), Some("https://a.com"));
}

fn tab_with_search_form() -> Tab {
    let mut tab = Tab::new("https://example.com/path?old=1".into());
    tab.forms = vec![RenderedForm { action: "/search".into(), method: "get".into() }];
    tab.fields = vec![
        FormField { form_idx: 0, name: "csrf".into(), kind: FieldKind::Hidden, value: "tok".into(), line: 0 },
        FormField { form_idx: 0, name: "q".into(), kind: FieldKind::Text, value: String::new(), line: 5 },
        FormField { form_idx: 0, name: "btn".into(), kind: FieldKind::Submit, value: "Go".into(), line: 6 },
    ];
    tab.field_values = tab.fields.iter().map(|f| f.value.clone()).collect();
    tab
}

#[test]
fn build_query_skips_submit_and_unnamed() {
    let mut tab = tab_with_search_form();
    tab.field_values[1] = "hello world".into();
    let q = tab.build_query(0);
    assert_eq!(q, "csrf=tok&q=hello+world");
}

#[test]
fn build_query_urlencodes_special_chars() {
    let mut tab = tab_with_search_form();
    tab.field_values[1] = "a&b=c d".into();
    let q = tab.build_query(0);
    assert!(q.contains("q=a%26b%3Dc+d"), "got: {q}");
}

#[test]
fn build_query_includes_empty_named_text() {
    let tab = tab_with_search_form();
    let q = tab.build_query(0);
    assert!(q.contains("q="), "got: {q}");
}

#[test]
fn build_query_checkbox_only_when_checked() {
    let mut tab = tab_with_search_form();
    tab.fields.push(FormField { form_idx: 0, name: "c".into(), kind: FieldKind::Checkbox, value: "on".into(), line: 7 });
    tab.field_values.push(String::new());
    assert_eq!(tab.build_query(0), "csrf=tok&q=");
    tab.field_values[3] = "on".into();
    assert_eq!(tab.build_query(0), "csrf=tok&q=&c=on");
}

#[test]
fn build_query_other_form_is_empty() {
    let tab = tab_with_search_form();
    assert_eq!(tab.build_query(1), "");
}

#[test]
fn next_editable_field_finds_first_text() {
    let tab = tab_with_search_form();
    assert_eq!(tab.next_editable_field(None), Some(1));
}

#[test]
fn next_editable_field_wraps_within_form() {
    let tab = tab_with_search_form();
    assert_eq!(tab.next_editable_field(Some(1)), Some(1));
}

#[test]
fn next_editable_field_none_when_no_text_inputs() {
    let mut tab = tab_with_search_form();
    tab.fields[1].kind = FieldKind::Checkbox;
    assert_eq!(tab.next_editable_field(None), None);
}

#[test]
fn search_finds_lines_case_insensitively() {
    let mut tab = Tab::new("https://x.com".into());
    tab.lines = vec!["Alpha".into(), "beta".into(), "ALPHABET".into(), "gamma".into()];
    tab.search("alpha");
    assert_eq!(tab.search_matches, vec![0, 2]);
    assert_eq!(tab.search_idx, 0);
    assert_eq!(tab.scroll, 0);
    tab.search_next();
    assert_eq!(tab.search_idx, 1);
    assert_eq!(tab.scroll, 2);
    tab.search_next();
    assert_eq!(tab.search_idx, 0);
    tab.search_prev();
    assert_eq!(tab.search_idx, 1);
    tab.search_next();
    assert_eq!(tab.search_idx, 0);
    tab.clear_search();
    assert!(tab.search_matches.is_empty());
    assert_eq!(tab.search_idx, 0);
}

#[test]
fn search_empty_query_matches_nothing() {
    let mut tab = Tab::new("https://x.com".into());
    tab.lines = vec!["a".into()];
    tab.search("");
    assert!(tab.search_matches.is_empty());
}

#[test]
fn scrolling_is_clamped() {
    let mut tab = Tab::new("https://x.com".into());
    tab.lines = (0..10).map(|i| format!("line {i}")).collect();
    tab.scroll_down(4);
    assert_eq!(tab.scroll, 4);
    tab.scroll_down(100);
    assert_eq!(tab.scroll, 9);
    tab.scroll_up(3);
    assert_eq!(tab.scroll, 6);
    tab.scroll_up(100);
    assert_eq!(tab.scroll, 0);
    tab.scroll_to_bottom();
    assert_eq!(tab.scroll, 9);
}
