use spiderweb::parser::css::{extract_hidden, parse_stylesheet, HiddenSet};
use spiderweb::parser::html::ParsedPage;
use spiderweb::parser::layout::{visible_width, wrap_lines};
use spiderweb::renderer::text::{RenderedImage, RenderedLink};

fn has(v: &[String], name: &str) -> bool {
    v.iter().any(|c| c == name)
}

fn sheet(css: &str) -> HiddenSet {
    let mut set = HiddenSet::empty();
    parse_stylesheet(css, &mut set);
    set
}

#[test]
fn extracts_class_display_none() {
    let set = sheet(".foo { display: none; }");
    assert!(has(&set.classes, "foo"));
}

#[test]
fn extracts_id_visibility_hidden() {
    let set = sheet("#nav { visibility: hidden; color: red; }");
    assert!(has(&set.ids, "nav"));
}

#[test]
fn handles_comments() {
    let set = sheet("/* hi */ .x /* mid */ { display:none; }");
    assert!(has(&set.classes, "x"));
}

#[test]
fn ignores_at_rules() {
    let set = sheet("@media (max-width: 600px) { .foo { display: none; } } .bar { display:none; }");
    assert!(!has(&set.classes, "foo"));
    assert!(has(&set.classes, "bar"));
}

#[test]
fn ignores_compound_selectors() {
    let set = sheet(".a.b { display:none } .a > .c { display:none }");
    assert!(!has(&set.classes, "a"));
    assert!(!has(&set.classes, "b"));
    assert!(!has(&set.classes, "c"));
}

#[test]
fn comma_separated_selectors() {
    let set = sheet(".a, .b, #c { display:none }");
    assert!(has(&set.classes, "a"));
    assert!(has(&set.classes, "b"));
    assert!(has(&set.ids, "c"));
}

#[test]
fn skips_non_hide_rules() {
    let set = sheet(".a { color: red; font-weight: bold; }");
    assert!(!has(&set.classes, "a"));
}

#[test]
fn tag_selector_and_duplicates() {
    let set = sheet("aside { display: none } aside, .k { display:none } .k { visibility:hidden }");
    assert_eq!(set.tags, vec!["aside".to_string()]);
    assert_eq!(set.classes, vec!["k".to_string()]);
    assert!(set.ids.is_empty());
}

#[test]
fn unclosed_block_adds_nothing() {
    assert!(sheet(".a{").is_empty());
    assert!(sheet(".a {").is_empty());
    assert!(sheet("").is_empty());
    assert!(sheet(".b { display: none").is_empty());
    assert!(sheet(".c { display: none;x").classes == vec!["c".to_string()]);
    assert!(HiddenSet::empty().is_empty());
    assert!(!sheet(".q{display:none}").is_empty());
}

#[test]
fn extract_hidden_includes_always_hidden() {
    let page = ParsedPage::parse_html("<html><head></head><body></body></html>");
    let set = extract_hidden(page.document());
    assert!(has(&set.classes, "sr-only"));
    assert!(has(&set.classes, "visually-hidden"));
}

#[test]
fn extract_hidden_reads_style_blocks() {
    let page = ParsedPage::parse_html(
        "<html><head><style>.junk{display:none}</style></head><body></body></html>",
    );
    let set = extract_hidden(page.document());
    assert!(has(&set.classes, "junk"));
}

const SAMPLE: &str = r#"<!DOCTYPE html>
<html>
<head>
  <title>Test Page</title>
  <meta name="description" content="A test page." />
</head>
<body>
  <h1>Hello</h1>
  <p>World</p>
  <a href="https://example.com">Example</a>
  <a href="/relative">Relative</a>
</body>
</html>"#;

#[test]
fn title_extracted() {
    let page = ParsedPage::parse_html(SAMPLE);
    assert_eq!(page.title().as_deref(), Some("Test Page"));
}

#[test]
fn description_extracted() {
    let page = ParsedPage::parse_html(SAMPLE);
    assert_eq!(page.description().as_deref(), Some("A test page."));
}

#[test]
fn links_extracted() {
    let page = ParsedPage::parse_html(SAMPLE);
    let links = page.links();
    assert_eq!(links.len(), 2);
    assert_eq!(links[0].href, "https://example.com");
    assert_eq!(links[0].text, "Example");
    assert_eq!(links[1].href, "/relative");
}

#[test]
fn from_bytes_utf8_lossy() {
    let bytes = b"<html><head><title>Bytes</title></head><body>ok</body></html>";
    let page = ParsedPage::from_bytes(bytes);
    assert_eq!(page.title().as_deref(), Some("Bytes"));
}

#[test]
fn from_bytes_replaces_invalid_utf8() {
    let bytes = b"<html><head><title>A\xffB</title></head></html>";
    let page = ParsedPage::from_bytes(bytes);
    assert_eq!(page.title().as_deref(), Some("A\u{FFFD}B"));
}

#[test]
fn empty_doc_no_panic() {
    let page = ParsedPage::parse_html("");
    assert!(page.title().is_none());
    assert!(page.links().is_empty());
    assert!(page.description().is_none());
}

#[test]
fn blank_title_is_none() {
    let page = ParsedPage::parse_html("<html><head><title>   </title></head></html>");
    assert!(page.title().is_none());
    let page = ParsedPage::parse_html("<html><head><title>  Hi  </title></head></html>");
    assert_eq!(page.title().as_deref(), Some("Hi"));
}

#[test]
fn visible_width_skips_ansi() {
    let s = "\x1b[1;34mHello\x1b[0m world";
    assert_eq!(visible_width(s), "Hello world".chars().count());
}

#[test]
fn short_line_unchanged() {
    let lines = vec!["short".to_owned()];
    let mut links: Vec<RenderedLink> = vec![];
    let mut images: Vec<RenderedImage> = vec![];
    let out = wrap_lines(lines, &mut links, &mut images, 80);
    assert_eq!(out, vec!["short"]);
}

#[test]
fn long_line_wraps_at_space() {
    let lines = vec!["one two three four".to_owned()];
    let mut links: Vec<RenderedLink> = vec![];
    let mut images: Vec<RenderedImage> = vec![];
    let out = wrap_lines(lines, &mut links, &mut images, 8);
    assert!(out.len() >= 2);
    for line in &out {
        assert!(visible_width(line) <= 8, "line too long: {line:?}");
    }
}

#[test]
fn wrap_exact_pieces() {
    let lines = vec!["one two three four".to_owned()];
    let mut links: Vec<RenderedLink> = vec![];
    let mut images: Vec<RenderedImage> = vec![];
    let out = wrap_lines(lines, &mut links, &mut images, 8);
    assert_eq!(out, vec!["one two", "three", "four"]);
}

#[test]
fn ansi_lines_passthrough() {
    let s = "\x1b[31m".to_owned() + &"x".repeat(120) + "\x1b[0m";
    let lines = vec![s.clone()];
    let mut links: Vec<RenderedLink> = vec![];
    let mut images: Vec<RenderedImage> = vec![];
    let out = wrap_lines(lines, &mut links, &mut images, 40);
    assert_eq!(out.len(), 1, "ANSI lines must not be wrapped");
    assert_eq!(out[0], s);
}

#[test]
fn link_line_remapped_after_wrap() {
    let lines = vec![
        "short header".to_owned(),
        "this is a much longer line that will be wrapped into multiple shorter pieces".to_owned(),
        "footer link line".to_owned(),
    ];
    let mut links = vec![RenderedLink { href: "https://x.com".into(), line: 2 }];
    let mut images: Vec<RenderedImage> = vec![];
    let out = wrap_lines(lines, &mut links, &mut images, 20);
    let footer_idx = out.iter().position(|l| l.contains("footer")).expect("footer should still be present");
    assert_eq!(links[0].line, footer_idx);
}

#[test]
fn image_line_remapped_after_wrap() {
    let lines = vec!["aaaa bbbb cccc".to_owned(), "[i]".to_owned()];
    let mut links: Vec<RenderedLink> = vec![];
    let mut images = vec![RenderedImage { src: "p.png".into(), alt: "p".into(), line: 1 }];
    let out = wrap_lines(lines, &mut links, &mut images, 4);
    assert_eq!(out.len(), 4);
    assert_eq!(images[0].line, 3);
    assert_eq!(images[0].src, "p.png");
}

#[test]
fn no_space_hard_break() {
    let lines = vec!["a".repeat(20)];
    let mut links: Vec<RenderedLink> = vec![];
    let mut images: Vec<RenderedImage> = vec![];
    let out = wrap_lines(lines, &mut links, &mut images, 5);
    assert!(out.len() >= 4);
    for line in &out {
        assert!(visible_width(line) <= 5);
    }
}

#[test]
fn tag_selector_with_digits() {
    let set = sheet("h1 { display: none } H2 { display: none } 1x { display: none }");
    assert_eq!(set.tags, vec!["h1".to_string(), "h2".to_string()]);
}

#[test]
fn hard_break_keeps_every_character() {
    let lines = vec!["a".repeat(20)];
    let mut links: Vec<RenderedLink> = vec![];
    let mut images: Vec<RenderedImage> = vec![];
    let out = wrap_lines(lines, &mut links, &mut images, 5);
    assert_eq!(out, vec!["aaaaa", "aaaaa", "aaaaa", "aaaaa"]);
    let lines = vec!["abcdefgh ij".to_string()];
    let out = wrap_lines(lines, &mut links, &mut images, 3);
    assert_eq!(out, vec!["abc", "def", "gh", "ij"]);
}
