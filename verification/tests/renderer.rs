use image::{DynamicImage, ImageBuffer, Rgb, Rgba};

use spiderweb::parser::dom::{Dom, DomNode, NodeKind};
use spiderweb::parser::html::ParsedPage;
use spiderweb::renderer::img::{decode, detect_protocol, half_block_lines, to_ansi_lines, Protocol, TermEnv};
use spiderweb::renderer::text::{can_render, render, render_full, strip_ansi, FieldKind, LineKind, RenderedPage};

fn page(src: &str) -> ParsedPage {
    let p = ParsedPage::parse_html(src);
    assert!(can_render(&p));
    p
}

fn plain(src: &str) -> String {
    strip_ansi(&render(&page(src)))
}

fn full(src: &str) -> RenderedPage {
    render_full(&page(src))
}

#[test]
fn heading_in_output() {
    let plain = plain("<html><body><h1>Title</h1></body></html>");
    assert!(plain.contains("Title"), "got: {plain:?}");
}

#[test]
fn script_stripped() {
    let plain = plain("<html><body><p>Hello</p><script>var x=1;</script></body></html>");
    assert!(!plain.contains("var x"), "script leaked: {plain:?}");
    assert!(plain.contains("Hello"));
}

#[test]
fn link_text_shown_href_hidden() {
    let p = page(r#"<html><body><a href="/about">About</a></body></html>"#);
    let out = render(&p);
    assert!(strip_ansi(&out).contains("About"));
    assert!(!strip_ansi(&out).contains("/about"), "href must not appear inline");
    let rp = render_full(&p);
    assert_eq!(rp.links[0].href, "/about");
}

#[test]
fn list_items_bulleted() {
    let plain = plain("<html><body><ul><li>One</li><li>Two</li></ul></body></html>");
    assert!(plain.contains("• One"), "got: {plain:?}");
    assert!(plain.contains("• Two"));
}

#[test]
fn input_text_renders_with_placeholder() {
    let plain = plain(r#"<html><body><input type="text" placeholder="Search"></body></html>"#);
    assert!(plain.contains("Search"), "got: {plain:?}");
}

#[test]
fn input_submit_renders_value_as_button() {
    let plain = plain(r#"<html><body><input type="submit" value="Go!"></body></html>"#);
    assert!(plain.contains("Go!"));
}

#[test]
fn button_text_rendered() {
    let plain = plain(r#"<html><body><button>Click Me</button></body></html>"#);
    assert!(plain.contains("Click Me"));
}

#[test]
fn hidden_input_skipped() {
    let plain = plain(r#"<html><body><p>Hi</p><input type="hidden" name="csrf" value="secret"></body></html>"#);
    assert!(!plain.contains("secret"), "hidden value leaked: {plain:?}");
}

#[test]
fn select_shows_selected_option() {
    let plain = plain(
        r#"<html><body><select>
            <option>One</option>
            <option selected>Two</option>
            <option>Three</option>
        </select></body></html>"#,
    );
    assert!(plain.contains("Two"));
}

#[test]
fn render_full_captures_image_metadata() {
    let rp = full(r#"<html><body><p>Hi</p><img src="https://x.com/a.png" alt="A"/></body></html>"#);
    assert_eq!(rp.images.len(), 1);
    assert_eq!(rp.images[0].src, "https://x.com/a.png");
    assert_eq!(rp.images[0].alt, "A");
}

#[test]
fn markers_stripped_from_render() {
    let out = render(&page(r#"<html><body><a href="/x">Link</a><img src="a.png" alt="A"/></body></html>"#));
    assert!(!out.contains('\u{F000}'), "marker leaked: {out:?}");
}

#[test]
fn render_full_captures_link_line() {
    let rp = full("<html><body><p>Intro</p><a href=\"https://a.com\">A</a></body></html>");
    assert!(!rp.links.is_empty());
    assert_eq!(rp.links[0].href, "https://a.com");
}

#[test]
fn render_full_link_line_points_at_its_text() {
    let rp = full("<html><body><p>Intro</p><p><a href=\"https://a.com\">Anchor</a></p></body></html>");
    assert_eq!(rp.links.len(), 1);
    assert!(rp.lines[rp.links[0].line].contains("Anchor"));
}

#[test]
fn hidden_attribute_skipped() {
    let plain = plain("<html><body><p>Shown</p><p hidden>Hidden</p></body></html>");
    assert!(plain.contains("Shown"));
    assert!(!plain.contains("Hidden"), "got: {plain:?}");
}

#[test]
fn inline_display_none_skipped() {
    let plain = plain(r#"<html><body><p>Shown</p><div style="display: none">Gone</div></body></html>"#);
    assert!(plain.contains("Shown"));
    assert!(!plain.contains("Gone"), "got: {plain:?}");
}

#[test]
fn css_style_block_hides_class() {
    let plain = plain(
        r#"<html><head><style>.junk { display:none; }</style></head>
        <body><p>Shown</p><div class="junk">Gone</div></body></html>"#,
    );
    assert!(plain.contains("Shown"));
    assert!(!plain.contains("Gone"), "got: {plain:?}");
}

#[test]
fn sr_only_class_hidden_by_default() {
    let plain = plain(r#"<html><body><span class="sr-only">screen reader</span><p>Visible</p></body></html>"#);
    assert!(plain.contains("Visible"));
    assert!(!plain.contains("screen reader"), "got: {plain:?}");
}

#[test]
fn empty_body_no_panic() {
    let out = render(&page("<html><body></body></html>"));
    assert!(out.is_empty() || out.chars().all(|c| c.is_whitespace()));
}

#[test]
fn line_kinds_default_normal() {
    let rp = full("<html><body><p>Hello</p></body></html>");
    assert!(rp.line_kinds.iter().all(|k| *k == LineKind::Normal));
}

#[test]
fn rendered_page_has_line_kinds_same_length_as_lines() {
    let rp = full("<html><body><h1>T</h1><p>P</p></body></html>");
    assert_eq!(rp.lines.len(), rp.line_kinds.len());
}

#[test]
fn code_spans_empty_for_plain_text() {
    let rp = full("<html><body><p>Hello world</p></body></html>");
    assert!(rp.code_spans.is_empty());
}

#[test]
fn h1_gets_linekind_h1() {
    let rp = full("<html><body><h1>Title</h1></body></html>");
    let idx = rp.lines.iter().position(|l| l.contains("Title")).unwrap();
    assert_eq!(rp.line_kinds[idx], LineKind::H1);
}

#[test]
fn h2_gets_linekind_h2() {
    let rp = full("<html><body><h2>Section</h2></body></html>");
    let idx = rp.lines.iter().position(|l| l.contains("Section")).unwrap();
    assert_eq!(rp.line_kinds[idx], LineKind::H2);
}

#[test]
fn h3_gets_linekind_h3() {
    let rp = full("<html><body><h3>Sub</h3></body></html>");
    let idx = rp.lines.iter().position(|l| l.contains("Sub")).unwrap();
    assert_eq!(rp.line_kinds[idx], LineKind::H3);
}

#[test]
fn h4_gets_linekind_h4plus() {
    let rp = full("<html><body><h4>Fine</h4></body></html>");
    let idx = rp.lines.iter().position(|l| l.contains("Fine")).unwrap();
    assert_eq!(rp.line_kinds[idx], LineKind::H4Plus);
}

#[test]
fn h1_line_has_block_glyph_prefix() {
    let rp = full("<html><body><h1>Hello</h1></body></html>");
    let line = rp.lines.iter().find(|l| l.contains("Hello")).unwrap();
    assert!(line.starts_with("▌ "), "got: {line:?}");
}

#[test]
fn code_span_recorded_with_offsets() {
    let rp = full("<html><body><p>Use <code>rustup</code> to install</p></body></html>");
    assert_eq!(rp.code_spans.len(), 1, "expected 1 code span");
    let cs = &rp.code_spans[0];
    let line = &rp.lines[cs.line];
    let slice: String = line.chars().skip(cs.start).take(cs.end - cs.start).collect();
    assert_eq!(slice, "rustup", "got slice: {slice:?} from line: {line:?}");
}

#[test]
fn multiple_code_spans_recorded() {
    let rp = full("<html><body><p><code>foo</code> and <code>bar</code></p></body></html>");
    assert_eq!(rp.code_spans.len(), 2);
}

#[test]
fn form_with_text_input_registered() {
    let rp = full(
        r#"<html><body><form action="/search" method="get">
            <input name="q" type="text" placeholder="Search">
        </form></body></html>"#,
    );
    assert_eq!(rp.forms.len(), 1);
    assert_eq!(rp.forms[0].action, "/search");
    assert_eq!(rp.forms[0].method, "get");
    assert_eq!(rp.fields.len(), 1);
    assert_eq!(rp.fields[0].name, "q");
    assert_eq!(rp.fields[0].kind, FieldKind::Text);
    assert_eq!(rp.fields[0].form_idx, 0);
}

#[test]
fn hidden_input_inside_form_kept_as_field() {
    let src = r#"<html><body><form action="/x">
            <input type="hidden" name="csrf" value="tok123">
            <input name="q" type="text">
        </form></body></html>"#;
    let rp = full(src);
    let csrf = rp.fields.iter().find(|f| f.name == "csrf").expect("csrf field");
    assert_eq!(csrf.kind, FieldKind::Hidden);
    assert_eq!(csrf.value, "tok123");
    let plain = plain(src);
    assert!(!plain.contains("tok123"));
}

#[test]
fn submit_button_recorded_as_submit_field() {
    let rp = full(r#"<html><body><form><input type="submit" value="Go"></form></body></html>"#);
    let submit = rp.fields.iter().find(|f| f.kind == FieldKind::Submit).expect("submit field");
    assert_eq!(submit.value, "Go");
}

#[test]
fn fields_outside_form_not_registered() {
    let rp = full(r#"<html><body><input name="x" type="text"></body></html>"#);
    assert!(rp.fields.is_empty(), "fields outside <form> must not register");
    assert!(rp.forms.is_empty());
}

#[test]
fn select_field_lists_options_and_value() {
    let rp = full(
        r#"<html><body><form><select name="s"><option value="1">One</option>
        <option value="2" selected>Two</option></select></form></body></html>"#,
    );
    assert_eq!(rp.fields.len(), 1);
    assert_eq!(rp.fields[0].kind, FieldKind::Select(vec!["One".to_string(), "Two".to_string()]));
    assert_eq!(rp.fields[0].value, "2");
}

#[test]
fn strip_ansi_removes_escape_sequences() {
    assert_eq!(strip_ansi("\x1b[1;31mred\x1b[0m text"), "red text");
    assert_eq!(strip_ansi("plain"), "plain");
}

#[test]
fn unclosed_style_block_still_renders() {
    let p = ParsedPage::parse_html("<html><head><style>.a {</style></head><body><p class=\"a\">x</p></body></html>");
    assert!(can_render(&p));
    assert!(strip_ansi(&render(&p)).contains('x'));
}

fn env(kitty: bool, term: Option<&str>, program: Option<&str>, sixel: bool) -> TermEnv {
    TermEnv {
        kitty_window_id: kitty,
        term: term.map(|s| s.to_string()),
        term_program: program.map(|s| s.to_string()),
        term_sixel: sixel,
    }
}

#[test]
fn detect_protocol_returns_a_variant() {
    let _p = detect_protocol(&env(false, None, None, false));
}

#[test]
fn detect_protocol_order() {
    assert_eq!(detect_protocol(&env(true, Some("xterm-sixel"), Some("iTerm.app"), true)), Protocol::Kitty);
    assert_eq!(detect_protocol(&env(false, Some("xterm-kitty"), None, false)), Protocol::Kitty);
    assert_eq!(detect_protocol(&env(false, Some("foo-sixel"), Some("iTerm.app"), false)), Protocol::Sixel);
    assert_eq!(detect_protocol(&env(false, Some("xterm"), Some("iTerm.app"), false)), Protocol::ITerm2);
    assert_eq!(detect_protocol(&env(false, Some("foo-sixel-bar"), None, false)), Protocol::Sixel);
    assert_eq!(detect_protocol(&env(false, Some("mlterm"), None, false)), Protocol::Sixel);
    assert_eq!(detect_protocol(&env(false, Some("xterm"), None, true)), Protocol::Sixel);
    assert_eq!(detect_protocol(&env(false, Some("xterm-256color"), None, false)), Protocol::Block);
}

fn png_of(img: DynamicImage) -> Vec<u8> {
    let mut buf = Vec::new();
    img.write_to(&mut std::io::Cursor::new(&mut buf), image::ImageFormat::Png).unwrap();
    buf
}

#[test]
fn decode_invalid_bytes_errors() {
    let result = decode(b"not an image");
    assert!(result.is_err());
}

#[test]
fn decode_round_trip_png() {
    let buf = png_of(DynamicImage::ImageRgb8(ImageBuffer::from_pixel(1, 1, Rgb([255u8, 0, 0]))));
    let result = decode(&buf);
    assert!(result.is_ok(), "round-trip decode failed");
}

#[test]
fn to_ansi_lines_emits_color_cells() {
    let buf = png_of(DynamicImage::ImageRgb8(ImageBuffer::from_pixel(4, 4, Rgb([255u8, 0, 0]))));
    let lines = to_ansi_lines(&buf, 4, 4).ok().unwrap();
    assert!(!lines.is_empty());
    assert!(lines[0].contains("\x1b["));
    assert!(lines[0].contains('▀'));
    assert!(lines[0].ends_with("\x1b[0m"));
}

#[test]
fn to_ansi_lines_rejects_garbage() {
    assert!(to_ansi_lines(b"garbage", 4, 4).is_err());
}

#[test]
fn to_ansi_lines_exact_cells() {
    let buf = png_of(DynamicImage::ImageRgb8(ImageBuffer::from_pixel(2, 2, Rgb([1u8, 2, 3]))));
    let lines = to_ansi_lines(&buf, 2, 1).ok().unwrap();
    let cell = "\x1b[38;2;1;2;3;48;2;1;2;3m▀";
    assert_eq!(lines, vec![format!("{cell}{cell}\x1b[0m")]);
}

#[test]
fn transparent_pixels_become_blanks() {
    let buf = png_of(DynamicImage::ImageRgba8(ImageBuffer::from_pixel(1, 2, Rgba([9u8, 9, 9, 0]))));
    let lines = to_ansi_lines(&buf, 1, 1).ok().unwrap();
    assert_eq!(lines, vec![" \x1b[0m".to_string()]);
}

#[test]
fn half_block_lines_pairs_rows() {
    let raw: Vec<u8> = vec![255, 0, 0, 255, 0, 0, 255, 255, 7, 8, 9, 255];
    let lines = half_block_lines(1, 3, &raw);
    assert_eq!(
        lines,
        vec![
            "\x1b[38;2;255;0;0;48;2;0;0;255m▀\x1b[0m".to_string(),
            "\x1b[38;2;7;8;9;48;2;7;8;9m▀\x1b[0m".to_string(),
        ]
    );
    assert!(half_block_lines(0, 0, &Vec::new()).is_empty());
}

#[test]
fn to_ansi_lines_fits_cell_box() {
    let buf = png_of(DynamicImage::ImageRgb8(ImageBuffer::from_pixel(40, 10, Rgb([5u8, 6, 7]))));
    let lines = to_ansi_lines(&buf, 4, 3).ok().unwrap();
    assert_eq!(lines.len(), 1);
    assert_eq!(lines[0].matches('▀').count(), 4);
}

fn node(kind: NodeKind, name: &str, text: &str, children: Vec<usize>) -> DomNode {
    DomNode { kind, name: name.into(), attrs: Vec::new(), text: text.into(), children }
}

#[test]
fn page_from_hand_built_tree_renders() {
    let d = Dom {
        nodes: vec![
            node(NodeKind::Other, "", "", vec![1]),
            node(NodeKind::Element, "html", "", vec![2]),
            node(NodeKind::Element, "body", "", vec![3]),
            node(NodeKind::Element, "h2", "", vec![4]),
            node(NodeKind::Text, "", "Made by hand", vec![]),
        ],
    };
    let p = ParsedPage::from_dom(d).unwrap();
    assert!(can_render(&p));
    let rp = render_full(&p);
    let idx = rp.lines.iter().position(|l| l.contains("Made by hand")).unwrap();
    assert_eq!(rp.line_kinds[idx], LineKind::H2);
    let bad = Dom { nodes: vec![node(NodeKind::Other, "", "", vec![0])] };
    assert!(ParsedPage::from_dom(bad).is_none());
}
