//! DOM → terminal text with ANSI color mapping.

use vstd::prelude::*;

use crate::parser::css::{names_of, list_contains, HiddenSet, HiddenView};
use crate::parser::css::{document_hidden, extract_hidden};
use crate::parser::dom::{attr_of, subtree_text, Dom, NodeKind, NodeView};
use crate::parser::html::ParsedPage;

use crate::chars::{
    lower_chars, lower_seq, slice_chars, char_is_space, contains_chars, has_infix,
    ansi_visible, append_chars, char_is_digit, from_chars, is_digit, is_space, to_chars, trim_chars, trim_seq,
    visible_chars, ESC,
};

verus! {

// ── Public output types ───────────────────────────────────────────────────────

/// A link extracted from the rendered page with its display line number.
#[derive(Debug, Clone)]
pub struct RenderedLink {
    pub href: String,
    /// Zero-based index into [`RenderedPage::lines`].
    pub line: usize,
}

/// An image extracted from the rendered page, with its placeholder line.
#[derive(Debug, Clone)]
pub struct RenderedImage {
    pub src: String,
    pub alt: String,
    /// Zero-based index into [`RenderedPage::lines`] of the placeholder.
    pub line: usize,
}

/// Per-line semantic kind for typography styling in draw_content.
#[derive(Debug, Clone, Copy, PartialEq, Eq, Structural, Default)]
pub enum LineKind {
    #[default]
    Normal,
    H1,
    H2,
    H3,
    H4Plus,
}

/// Char-offset range of an inline code span within a rendered line.
#[derive(Debug, Clone, Copy)]
pub struct CodeSpan {
    pub line: usize,
    /// Char offset in the stripped line (inclusive).
    pub start: usize,
    /// Char offset in the stripped line (exclusive).
    pub end: usize,
}

/// A `<form>` element parsed from the page; metadata required to submit.
#[derive(Debug, Clone)]
pub struct RenderedForm {
    /// `action` attribute. Empty = post to current URL (minus its query string).
    pub action: String,
    /// `method` attribute lowercased. `"get"` (default) or `"post"`.
    pub method: String,
}

/// A form input/field belonging to a [`RenderedForm`].
#[derive(Debug, Clone, PartialEq, Eq)]
pub enum FieldKind {
    /// Single-line text inputs (text/search/email/url/tel/number/password/no-type).
    Text,
    Checkbox,
    Radio,
    Submit,
    Textarea,
    /// `<select>`. Stores its option labels for cycling later.
    Select(Vec<String>),
    /// `<input type="hidden">` — invisible but included in the query string.
    Hidden,
}

/// A single form control. `value` is the initial/default; the runtime keeps a
/// parallel `field_values` buffer that diverges from this on edits.
#[derive(Debug, Clone)]
pub struct FormField {
    /// Index into [`RenderedPage::forms`].
    pub form_idx: usize,
    /// `name` attribute. Empty = unnamed (skipped at submit time, per HTML).
    pub name: String,
    pub kind: FieldKind,
    /// Default value. For text/textarea: the `value`/innerText. For checkbox/radio: the `value` attr.
    pub value: String,
    /// Zero-based line index in the rendered output. Hidden fields keep `0`.
    pub line: usize,
}

/// Full render result: plain-text lines plus link/image/form metadata.
pub struct RenderedPage {
    pub lines: Vec<String>,
    pub links: Vec<RenderedLink>,
    pub images: Vec<RenderedImage>,
    pub line_kinds: Vec<LineKind>,
    pub code_spans: Vec<CodeSpan>,
    pub forms: Vec<RenderedForm>,
    pub fields: Vec<FormField>,
}

// ── Views ─────────────────────────────────────────────────────────────────────

pub enum KindView {
    Text,
    Checkbox,
    Radio,
    Submit,
    Textarea,
    Select(Seq<Seq<char>>),
    Hidden,
}

pub struct FieldView {
    pub form_idx: usize,
    pub name: Seq<char>,
    pub kind: KindView,
    pub value: Seq<char>,
    pub line: usize,
}

pub open spec fn strings_view(v: Seq<String>) -> Seq<Seq<char>> {
    v.map_values(|s: String| s@)
}

pub open spec fn kind_view(k: FieldKind) -> KindView {
    match k {
        FieldKind::Text => KindView::Text,
        FieldKind::Checkbox => KindView::Checkbox,
        FieldKind::Radio => KindView::Radio,
        FieldKind::Submit => KindView::Submit,
        FieldKind::Textarea => KindView::Textarea,
        FieldKind::Select(opts) => KindView::Select(strings_view(opts@)),
        FieldKind::Hidden => KindView::Hidden,
    }
}

pub open spec fn field_view(f: FormField) -> FieldView {
    FieldView { form_idx: f.form_idx, name: f.name@, kind: kind_view(f.kind), value: f.value@, line: f.line }
}

pub open spec fn fields_view(v: Seq<FormField>) -> Seq<FieldView> {
    v.map_values(|f: FormField| field_view(f))
}

pub open spec fn link_view(l: RenderedLink) -> (Seq<char>, usize) {
    (l.href@, l.line)
}

pub open spec fn links_view(v: Seq<RenderedLink>) -> Seq<(Seq<char>, usize)> {
    v.map_values(|l: RenderedLink| link_view(l))
}

pub open spec fn image_view(i: RenderedImage) -> (Seq<char>, Seq<char>, usize) {
    (i.src@, i.alt@, i.line)
}

pub open spec fn images_view(v: Seq<RenderedImage>) -> Seq<(Seq<char>, Seq<char>, usize)> {
    v.map_values(|i: RenderedImage| image_view(i))
}

pub open spec fn span_view(c: CodeSpan) -> (usize, usize, usize) {
    (c.line, c.start, c.end)
}

pub open spec fn spans_view(v: Seq<CodeSpan>) -> Seq<(usize, usize, usize)> {
    v.map_values(|c: CodeSpan| span_view(c))
}

pub open spec fn form_view(f: RenderedForm) -> (Seq<char>, Seq<char>) {
    (f.action@, f.method@)
}

pub open spec fn forms_view(v: Seq<RenderedForm>) -> Seq<(Seq<char>, Seq<char>)> {
    v.map_values(|f: RenderedForm| form_view(f))
}

// ── Text helpers ──────────────────────────────────────────────────────────────

// Markers placed inline during render so we can locate links and images
// reliably in the post-normalize output. Private-use area chars survive
// strip_ansi but are stripped from the final output before returning.
pub const MARKER: char = '\u{F000}';

pub open spec fn digit_char(d: nat) -> char {
    ((d + 48) as u32) as char
}

/// The decimal digits of `n`.
pub open spec fn decimal(n: nat) -> Seq<char>
    decreases n,
{
    if n < 10 {
        seq![digit_char(n)]
    } else {
        decimal(n / 10).push(digit_char(n % 10))
    }
}

fn digit_of(d: usize) -> (c: char)
    requires
        d < 10,
    ensures
        c == digit_char(d as nat),
{
    let b: u8 = (d as u8) + 48;
    b as char
}

/// Appends the decimal digits of `n` to `out` (what `n.to_string()` writes).
pub fn push_decimal(n: usize, out: &mut Vec<char>)
    ensures
        final(out)@ == old(out)@ + decimal(n as nat),
    decreases n,
{
    if n >= 10 {
        push_decimal(n / 10, out);
    }
    let c = digit_of(n % 10);
    out.push(c);
    assert(final(out)@ =~= old(out)@ + decimal(n as nat));
}

/// The value of a run of decimal digits.
pub open spec fn digits_value(ds: Seq<char>) -> nat
    decreases ds.len(),
{
    if ds.len() == 0 {
        0
    } else {
        digits_value(ds.drop_last()) * 10 + ((ds.last() as u32) - 48) as nat
    }
}

/// `str::parse::<usize>` on a run of ASCII digits: the value, unless the run
/// is empty or the value does not fit.
pub open spec fn parse_digits(ds: Seq<char>) -> Option<usize> {
    if ds.len() == 0 || digits_value(ds) > usize::MAX {
        None
    } else {
        Some(digits_value(ds) as usize)
    }
}

/// Parses a run of ASCII digits as a `usize`.
pub fn parse_usize(ds: &[char]) -> (r: Option<usize>)
    requires
        forall|i: int| 0 <= i < ds@.len() ==> is_digit(#[trigger] ds@[i]),
    ensures
        r == parse_digits(ds@),
{
    if ds.len() == 0 {
        return None;
    }
    let mut v: usize = 0;
    let mut i: usize = 0;
    while i < ds.len()
        invariant
            i <= ds@.len(),
            forall|k: int| 0 <= k < ds@.len() ==> is_digit(#[trigger] ds@[k]),
            v == digits_value(ds@.take(i as int)),
        decreases ds@.len() - i,
    {
        assert(ds@.take(i + 1).drop_last() =~= ds@.take(i as int));
        let d = (ds[i] as u32 - 48) as usize;
        assert(is_digit(ds@[i as int]));
        if v > (usize::MAX - d) / 10 {
            proof {
                assert(digits_value(ds@.take(i + 1)) > usize::MAX) by (nonlinear_arith)
                    requires
                        digits_value(ds@.take(i + 1)) == v * 10 + d,
                        v > (usize::MAX - d) / 10,
                        d < 10,
                ;
                lemma_prefix_value_bound(ds@, i + 1);
            }
            return None;
        }
        assert(v * 10 + d <= usize::MAX) by (nonlinear_arith)
            requires
                v <= (usize::MAX - d) / 10,
                d < 10,
        ;
        v = v * 10 + d;
        i = i + 1;
    }
    assert(ds@.take(ds@.len() as int) =~= ds@);
    Some(v)
}

/// A prefix of a digit run is worth no more than the whole run.
proof fn lemma_prefix_value_bound(ds: Seq<char>, k: int)
    requires
        0 <= k <= ds.len(),
        forall|i: int| 0 <= i < ds.len() ==> is_digit(#[trigger] ds[i]),
    ensures
        digits_value(ds.take(k)) <= digits_value(ds),
    decreases ds.len() - k,
{
    if k < ds.len() {
        lemma_prefix_value_bound(ds, k + 1);
        assert(ds.take(k + 1).drop_last() =~= ds.take(k));
    } else {
        assert(ds.take(k) =~= ds);
    }
}

/// `s` with every run of three or more newlines cut to two, from position `i`
/// on, given `nl` newlines just seen.
pub open spec fn collapse_from(s: Seq<char>, i: int, nl: nat) -> Seq<char>
    decreases s.len() - i,
{
    if i < 0 || i >= s.len() {
        Seq::empty()
    } else if s[i] == '\n' {
        let nl2 = if nl >= 255 { 255nat } else { nl + 1 };
        if nl2 <= 2 {
            seq![s[i]] + collapse_from(s, i + 1, nl2)
        } else {
            collapse_from(s, i + 1, nl2)
        }
    } else {
        seq![s[i]] + collapse_from(s, i + 1, 0)
    }
}

/// Collapse 3+ consecutive newlines to 2, trim leading/trailing whitespace.
pub open spec fn normalize_spec(s: Seq<char>) -> Seq<char> {
    trim_seq(collapse_from(s, 0, 0))
}

/// Collapse 3+ consecutive newlines to 2, trim leading/trailing whitespace.
fn normalize(s: &[char]) -> (r: Vec<char>)
    ensures
        r@ == normalize_spec(s@),
{
    let mut out: Vec<char> = Vec::new();
    let mut nl: u8 = 0;
    let mut i: usize = 0;
    while i < s.len()
        invariant
            i <= s@.len(),
            out@ + collapse_from(s@, i as int, nl as nat) == collapse_from(s@, 0, 0),
        decreases s@.len() - i,
    {
        let ghost before = out@;
        let ch = s[i];
        if ch == '\n' {
            nl = if nl == 255 { 255 } else { nl + 1 };
            if nl <= 2 {
                out.push(ch);
                assert(out@ + collapse_from(s@, i + 1, nl as nat) =~= before + collapse_from(s@, i as int, (if nl == 255 { 255nat } else { (nl - 1) as nat })));
            }
        } else {
            nl = 0;
            out.push(ch);
            assert(out@ + collapse_from(s@, i + 1, 0) =~= before + seq![ch] + collapse_from(s@, i + 1, 0));
        }
        i = i + 1;
    }
    assert(out@ + collapse_from(s@, i as int, nl as nat) =~= out@);
    trim_chars(out.as_slice())
}

/// `s` from position `i` on with every marker (the marker character, the
/// character after it, a run of digits, and a closing marker) taken out.
pub open spec fn unmarked_from(s: Seq<char>, i: int) -> Seq<char>
    decreases s.len() - i,
{
    if i < 0 || i >= s.len() {
        Seq::empty()
    } else if s[i] == MARKER {
        let j = digits_end(s, i + 2);
        proof {
            lemma_digits_end_range(s, i + 2);
        }
        let k = if j < s.len() && s[j] == MARKER { j + 1 } else { j };
        unmarked_from(s, k)
    } else {
        seq![s[i]] + unmarked_from(s, i + 1)
    }
}

/// The position after the run of ASCII digits that starts at `k` (or the end).
pub open spec fn digits_end(s: Seq<char>, k: int) -> int
    decreases s.len() - k,
{
    if k >= s.len() {
        if k < 0 { 0 } else { s.len() as int }
    } else if k >= 0 && is_digit(s[k]) {
        digits_end(s, k + 1)
    } else {
        k
    }
}

pub proof fn lemma_digits_end_range(s: Seq<char>, k: int)
    requires
        0 <= k,
    ensures
        (if k < s.len() { k } else { s.len() as int }) <= digits_end(s, k) <= (if k < s.len() { s.len() as int } else { s.len() as int }),
        forall|j: int| k <= j < digits_end(s, k) ==> is_digit(#[trigger] s[j]),
        digits_end(s, k) < s.len() ==> !is_digit(s[digits_end(s, k)]),
    decreases s.len() - k,
{
    if k < s.len() && is_digit(s[k]) {
        lemma_digits_end_range(s, k + 1);
    }
}

fn skip_digits(s: &[char], k: usize) -> (j: usize)
    requires
        k <= s@.len(),
    ensures
        j == digits_end(s@, k as int),
        k <= j <= s@.len(),
{
    proof {
        lemma_digits_end_range(s@, k as int);
    }
    let mut j = k;
    while j < s.len() && char_is_digit(s[j])
        invariant
            k <= j <= s@.len(),
            digits_end(s@, j as int) == digits_end(s@, k as int),
        decreases s@.len() - j,
    {
        j = j + 1;
    }
    j
}

/// Strip private-use position markers from `s`.
fn strip_markers(s: &[char]) -> (out: Vec<char>)
    ensures
        out@ == unmarked_from(s@, 0),
{
    let mut out: Vec<char> = Vec::new();
    let mut i: usize = 0;
    while i < s.len()
        invariant
            i <= s@.len(),
            out@ + unmarked_from(s@, i as int) == unmarked_from(s@, 0),
        decreases s@.len() - i,
    {
        if s[i] == MARKER {
            // Skip kind char + digits + closing marker.
            let after_kind = if i + 1 < s.len() { i + 2 } else { s.len() };
            let j = skip_digits(s, after_kind);
            proof {
                lemma_digits_end_range(s@, i + 2);
                if i + 1 >= s@.len() {
                    assert(digits_end(s@, i + 2) == s@.len());
                    assert(digits_end(s@, s@.len() as int) == s@.len());
                }
            }
            assert(j == digits_end(s@, i + 2));
            i = if j < s.len() && s[j] == MARKER { j + 1 } else { j };
        } else {
            let ghost before = out@;
            out.push(s[i]);
            assert(out@ + unmarked_from(s@, i + 1) =~= before + unmarked_from(s@, i as int));
            i = i + 1;
        }
    }
    assert(out@ + unmarked_from(s@, i as int) =~= out@);
    out
}

/// Strip ANSI escape sequences from a string.
pub fn strip_ansi(s: &str) -> (r: String)
    ensures
        r@ == ansi_visible(s@),
{
    let cs = to_chars(s);
    let v = visible_chars(cs.as_slice());
    from_chars(v.as_slice())
}

/// `str::lines`: `s` cut at each `\n`, a `\r` just before it dropped, and no
/// empty last line after a final `\n`.
pub open spec fn lines_from(s: Seq<char>, i: int) -> Seq<Seq<char>>
    decreases s.len() - i,
{
    if i < 0 || i >= s.len() {
        Seq::empty()
    } else {
        let e = line_end(s, i);
        proof {
            lemma_line_end_range(s, i);
            assert(i <= e);
        }
        let raw = s.subrange(i, e);
        let line = if raw.len() > 0 && raw.last() == '\r' && e < s.len() {
            raw.drop_last()
        } else {
            raw
        };
        if e < s.len() {
            seq![line] + lines_from(s, e + 1)
        } else {
            seq![line]
        }
    }
}

/// The first position at or after `k` that holds `\n`, or the end.
pub open spec fn line_end(s: Seq<char>, k: int) -> int
    decreases s.len() - k,
{
    if k < 0 || k >= s.len() {
        s.len() as int
    } else if s[k] == '\n' {
        k
    } else {
        line_end(s, k + 1)
    }
}

pub proof fn lemma_line_end_range(s: Seq<char>, k: int)
    requires
        0 <= k <= s.len(),
    ensures
        k <= line_end(s, k) <= s.len(),
        line_end(s, k) < s.len() ==> s[line_end(s, k)] == '\n',
    decreases s.len() - k,
{
    if k < s.len() && s[k] != '\n' {
        lemma_line_end_range(s, k + 1);
    }
}

/// The lines of `s` (`str::lines`), as character vectors.
pub(crate) fn split_lines(s: &[char]) -> (r: Vec<Vec<char>>)
    ensures
        r@.map_values(|l: Vec<char>| l@) == lines_from(s@, 0),
{
    let mut r: Vec<Vec<char>> = Vec::new();
    let mut i: usize = 0;
    while i < s.len()
        invariant
            i <= s@.len(),
            s@.len() == s.len(),
            r@.map_values(|l: Vec<char>| l@) + lines_from(s@, i as int) == lines_from(s@, 0),
        decreases s@.len() - i,
    {
        proof {
            lemma_line_end_range(s@, i as int);
        }
        let mut e = i;
        while e < s.len() && s[e] != '\n'
            invariant
                i <= e <= s@.len(),
                s@.len() == s.len(),
                line_end(s@, e as int) == line_end(s@, i as int),
            decreases s@.len() - e,
        {
            e = e + 1;
        }
        let end = if e > i && s[e - 1] == '\r' && e < s.len() { e - 1 } else { e };
        let line = crate::chars::slice_chars(s, i, end);
        let ghost before = r@.map_values(|l: Vec<char>| l@);
        r.push(line);
        if e > i {
            assert(s@.subrange(i as int, e as int).drop_last() =~= s@.subrange(i as int, e - 1));
        }
        assert(r@.map_values(|l: Vec<char>| l@) =~= before.push(lines_from(s@, i as int)[0]));
        assert(lines_from(s@, i as int) =~= seq![lines_from(s@, i as int)[0]] + lines_from(s@, e + 1));
        i = if e < s.len() { e + 1 } else { e };
        assert(lines_from(s@, e + 1) =~= lines_from(s@, i as int));
    }
    assert(lines_from(s@, i as int) =~= Seq::<Seq<char>>::empty());
    r
}

/// The heading level of a tag name (`h1` … `h6`).
pub open spec fn heading_level_spec(tag: Seq<char>) -> Option<usize> {
    if tag.len() == 2 && tag[0] == 'h' && '1' <= tag[1] <= '6' {
        Some(((tag[1] as u32) - 48) as usize)
    } else {
        None
    }
}

fn heading_level(tag: &[char]) -> (r: Option<usize>)
    ensures
        r == heading_level_spec(tag@),
{
    if tag.len() == 2 && tag[0] == 'h' && '1' <= tag[1] && tag[1] <= '6' {
        let d = (tag[1] as u32 - 48) as usize;
        Some(d)
    } else {
        None
    }
}

// ── Render context ────────────────────────────────────────────────────────────

struct Ctx {
    buf: Vec<char>,
    links: Vec<RenderedLink>,
    images: Vec<RenderedImage>,
    code_spans: Vec<CodeSpan>,
    forms: Vec<RenderedForm>,
    fields: Vec<FormField>,
    /// Index of the enclosing `<form>` during recursion, if any.
    current_form: Option<usize>,
}

/// What rendering has produced so far: the text (with markers and ANSI
/// escapes), and the links, images, code spans, forms and form fields found.
pub struct CtxView {
    pub buf: Seq<char>,
    pub links: Seq<(Seq<char>, usize)>,
    pub images: Seq<(Seq<char>, Seq<char>, usize)>,
    pub code_spans: Seq<(usize, usize, usize)>,
    pub forms: Seq<(Seq<char>, Seq<char>)>,
    pub fields: Seq<FieldView>,
    pub current_form: Option<usize>,
}

spec fn ctx_view(c: Ctx) -> CtxView {
    CtxView {
        buf: c.buf@,
        links: links_view(c.links@),
        images: images_view(c.images@),
        code_spans: spans_view(c.code_spans@),
        forms: forms_view(c.forms@),
        fields: fields_view(c.fields@),
        current_form: c.current_form,
    }
}

/// The state before anything is rendered.
pub open spec fn ctx_empty() -> CtxView {
    CtxView {
        buf: Seq::empty(),
        links: Seq::empty(),
        images: Seq::empty(),
        code_spans: Seq::empty(),
        forms: Seq::empty(),
        fields: Seq::empty(),
        current_form: None,
    }
}

pub open spec fn cx_push(c: CtxView, s: Seq<char>) -> CtxView {
    CtxView { buf: c.buf + s, ..c }
}

/// A position marker: the marker character, a kind letter, the index in
/// decimal, and the marker character again.
pub open spec fn marker(kind: char, idx: nat) -> Seq<char> {
    seq![MARKER, kind] + decimal(idx) + seq![MARKER]
}

/// Registers a form field under the current form, if any, and says which
/// index it got.
pub open spec fn cx_register(c: CtxView, name: Seq<char>, kind: KindView, value: Seq<char>) -> (CtxView, Option<usize>) {
    match c.current_form {
        None => (c, None),
        Some(f) => (
            CtxView {
                fields: c.fields.push(FieldView { form_idx: f, name, kind, value, line: 0 }),
                ..c
            },
            Some(c.fields.len() as usize),
        ),
    }
}

/// The field marker for a registered field, nothing for an unregistered one.
pub open spec fn field_marker(idx: Option<usize>) -> Seq<char> {
    match idx {
        Some(i) => marker('F', i as nat),
        None => Seq::empty(),
    }
}

proof fn lemma_ctx_push(before: CtxView, after: CtxView, s: Seq<char>)
    requires
        after.buf == before.buf + s,
        after.links == before.links,
        after.images == before.images,
        after.code_spans == before.code_spans,
        after.forms == before.forms,
        after.fields == before.fields,
        after.current_form == before.current_form,
    ensures
        after == cx_push(before, s),
{
}

impl Ctx {
    fn new() -> (c: Self)
        ensures
            ctx_view(c) == ctx_empty(),
    {
        let c = Self {
            buf: Vec::new(),
            links: Vec::new(),
            images: Vec::new(),
            code_spans: Vec::new(),
            forms: Vec::new(),
            fields: Vec::new(),
            current_form: None,
        };
        assert(ctx_view(c).buf =~= Seq::<char>::empty());
        assert(ctx_view(c).links =~= Seq::<(Seq<char>, usize)>::empty());
        assert(ctx_view(c).images =~= Seq::<(Seq<char>, Seq<char>, usize)>::empty());
        assert(ctx_view(c).code_spans =~= Seq::<(usize, usize, usize)>::empty());
        assert(ctx_view(c).forms =~= Seq::<(Seq<char>, Seq<char>)>::empty());
        assert(ctx_view(c).fields =~= Seq::<FieldView>::empty());
        c
    }

    fn push_chars(&mut self, s: &[char])
        ensures
            ctx_view(*final(self)) == cx_push(ctx_view(*old(self)), s@),
    {
        append_chars(&mut self.buf, s);
        proof {
            lemma_ctx_push(ctx_view(*old(self)), ctx_view(*self), s@);
        }
    }

    fn push_str(&mut self, s: &str)
        ensures
            ctx_view(*final(self)) == cx_push(ctx_view(*old(self)), s@),
    {
        let cs = to_chars(s);
        self.push_chars(cs.as_slice());
    }

    fn push_char(&mut self, ch: char)
        ensures
            ctx_view(*final(self)) == cx_push(ctx_view(*old(self)), seq![ch]),
    {
        self.buf.push(ch);
        proof {
            assert(self.buf@ =~= old(self).buf@ + seq![ch]);
            lemma_ctx_push(ctx_view(*old(self)), ctx_view(*self), seq![ch]);
        }
    }

    /// Push a position marker of kind `kind` for index `idx`.
    fn push_marker(&mut self, kind: char, idx: usize)
        ensures
            ctx_view(*final(self)) == cx_push(ctx_view(*old(self)), marker(kind, idx as nat)),
    {
        self.buf.push(MARKER);
        self.buf.push(kind);
        push_decimal(idx, &mut self.buf);
        self.buf.push(MARKER);
        proof {
            assert(self.buf@ =~= old(self).buf@ + marker(kind, idx as nat));
            lemma_ctx_push(ctx_view(*old(self)), ctx_view(*self), marker(kind, idx as nat));
        }
    }

    /// Register a [`FormField`] under the current form (if any). Returns the
    /// index of the new field, or `None` if not inside a `<form>`.
    fn register_field(&mut self, name: String, kind: FieldKind, value: String) -> (r: Option<usize>)
        ensures
            (ctx_view(*final(self)), r) == cx_register(ctx_view(*old(self)), name@, kind_view(kind), value@),
    {
        match self.current_form {
            None => None,
            Some(form_idx) => {
                let idx = self.fields.len();
                let ghost f = FieldView { form_idx, name: name@, kind: kind_view(kind), value: value@, line: 0 };
                self.fields.push(FormField { form_idx, name, kind, value, line: 0 });
                assert(fields_view(self.fields@) =~= fields_view(old(self).fields@).push(f));
                Some(idx)
            },
        }
    }

    fn push_field_marker(&mut self, idx: Option<usize>)
        ensures
            ctx_view(*final(self)) == cx_push(ctx_view(*old(self)), field_marker(idx)),
    {
        match idx {
            Some(i) => self.push_marker('F', i),
            None => {
                proof {
                    assert(self.buf@ =~= old(self).buf@ + field_marker(idx));
                    lemma_ctx_push(ctx_view(*old(self)), ctx_view(*self), field_marker(idx));
                }
            },
        }
    }
}

// ── Element renderers ─────────────────────────────────────────────────────────

/// The value of attribute `name`, or `default` when the element has none.
pub open spec fn attr_or(n: NodeView, name: Seq<char>, default: Seq<char>) -> Seq<char> {
    match attr_of(n.attrs, name) {
        Some(v) => v,
        None => default,
    }
}

pub open spec fn has_attr(n: NodeView, name: Seq<char>) -> bool {
    attr_of(n.attrs, name) is Some
}

fn dom_attr_or(d: &Dom, i: usize, name: &str, default: &str) -> (r: String)
    requires
        i < d@.len(),
    ensures
        r@ == attr_or(d@[i as int], name@, default@),
{
    match d.attr(i, name) {
        Some(v) => v,
        None => default.to_owned(),
    }
}

fn dom_has_attr(d: &Dom, i: usize, name: &str) -> (b: bool)
    requires
        i < d@.len(),
    ensures
        b == has_attr(d@[i as int], name@),
{
    d.attr(i, name).is_some()
}

/// The trimmed text under node `i`.
pub open spec fn trimmed_text(d: Seq<NodeView>, i: int) -> Seq<char> {
    trim_seq(subtree_text(d, i))
}

fn dom_trimmed_text(d: &Dom, i: usize) -> (r: Vec<char>)
    requires
        d.wf(),
        i < d@.len(),
    ensures
        r@ == trimmed_text(d@, i as int),
{
    let t = d.text(i);
    trim_chars(t.as_slice())
}

/// `<img>`: an image with a `src` gets a line of its own holding its marker and
/// a dim `[img: alt]` placeholder; one without a `src` shows `[alt]` inline.
pub open spec fn img_spec(n: NodeView, c: CtxView) -> CtxView {
    let src = attr_or(n, "src"@, ""@);
    let alt = attr_or(n, "alt"@, "img"@);
    if src.len() == 0 {
        cx_push(c, "\x1b[2m["@ + alt + "]\x1b[0m "@)
    } else {
        let idx = c.images.len();
        let c1 = CtxView { images: c.images.push((src, alt, 0usize)), ..c };
        cx_push(c1, seq!['\n'] + marker('I', idx) + "\x1b[2m[img: "@ + alt + "]\x1b[0m"@ + seq!['\n'])
    }
}

fn render_img(d: &Dom, i: usize, ctx: &mut Ctx)
    requires
        i < d@.len(),
    ensures
        ctx_view(*final(ctx)) == img_spec(d@[i as int], ctx_view(*old(ctx))),
{
    let src = dom_attr_or(d, i, "src", "");
    let alt = dom_attr_or(d, i, "alt", "img");
    let alt_chars = to_chars(alt.as_str());
    if src.as_str().is_empty() {
        ctx.push_str("\x1b[2m[");
        ctx.push_chars(alt_chars.as_slice());
        ctx.push_str("]\x1b[0m ");
        assert(ctx_view(*ctx).buf =~= img_spec(d@[i as int], ctx_view(*old(ctx))).buf);
        return;
    }
    let idx = ctx.images.len();
    let ghost c0 = ctx_view(*ctx);
    ctx.images.push(RenderedImage { src, alt, line: 0 });
    assert(images_view(ctx.images@) =~= c0.images.push((attr_or(d@[i as int], "src"@, ""@), alt_chars@, 0usize)));
    // Place image on its own line so splice can replace cleanly.
    ctx.push_char('\n');
    ctx.push_marker('I', idx);
    ctx.push_str("\x1b[2m[img: ");
    ctx.push_chars(alt_chars.as_slice());
    ctx.push_str("]\x1b[0m");
    ctx.push_char('\n');
    assert(ctx_view(*ctx).buf =~= img_spec(d@[i as int], c0).buf);
}

/// `true` when `s` spells the literal `lit`.
fn eq_lit(s: &[char], lit: &str) -> (b: bool)
    ensures
        b == (s@ == lit@),
{
    let l = to_chars(lit);
    crate::chars::chars_eq(s, l.as_slice())
}

/// At most the first `n` characters of `s`.
pub open spec fn take_at_most(s: Seq<char>, n: nat) -> Seq<char> {
    if s.len() <= n {
        s
    } else {
        s.take(n as int)
    }
}

/// `n` underscores.
pub open spec fn underscores(n: nat) -> Seq<char> {
    Seq::new(n, |k: int| '_')
}

fn push_take(ctx: &mut Ctx, s: &[char], n: usize) -> (k: usize)
    ensures
        ctx_view(*final(ctx)) == cx_push(ctx_view(*old(ctx)), take_at_most(s@, n as nat)),
        k == take_at_most(s@, n as nat).len(),
{
    if s.len() <= n {
        ctx.push_chars(s);
        s.len()
    } else {
        let t = slice_chars(s, 0, n);
        assert(t@ =~= s@.take(n as int));
        ctx.push_chars(t.as_slice());
        n
    }
}

fn push_underscores(ctx: &mut Ctx, n: usize)
    ensures
        ctx_view(*final(ctx)) == cx_push(ctx_view(*old(ctx)), underscores(n as nat)),
{
    let mut pad: Vec<char> = Vec::new();
    let mut k: usize = 0;
    while k < n
        invariant
            k <= n,
            pad@ == underscores(k as nat),
        decreases n - k,
    {
        pad.push('_');
        k = k + 1;
        assert(pad@ =~= underscores(k as nat));
    }
    ctx.push_chars(pad.as_slice());
}

/// A labelled box: up to `w` characters of `label`, padded with underscores
/// to `w`, in brackets.
pub open spec fn boxed(label: Seq<char>, w: nat) -> Seq<char> {
    let t = take_at_most(label, w);
    seq!['['] + t + underscores((w - t.len()) as nat) + "] "@
}

fn push_boxed(ctx: &mut Ctx, label: &[char], w: usize)
    ensures
        ctx_view(*final(ctx)) == cx_push(ctx_view(*old(ctx)), boxed(label@, w as nat)),
{
    let ghost c0 = ctx_view(*ctx);
    ctx.push_char('[');
    let k = push_take(ctx, label, w);
    push_underscores(ctx, w - k);
    ctx.push_str("] ");
    assert(ctx_view(*ctx).buf =~= cx_push(c0, boxed(label@, w as nat)).buf);
}

/// `<input type=submit|button|reset>`: a submit control showing `[ value ]`
/// (or `[ Submit ]`).
pub open spec fn input_button_spec(n: NodeView, c: CtxView) -> CtxView {
    let name = attr_or(n, "name"@, ""@);
    let value = attr_or(n, "value"@, ""@);
    let (c1, idx) = cx_register(c, name, KindView::Submit, value);
    let label = attr_or(n, "value"@, "Submit"@);
    cx_push(c1, field_marker(idx) + "[ "@ + label + " ] "@)
}

/// `<input type=checkbox>` (`is_box`) or `<input type=radio>`: `[x]`/`[ ]` or
/// `(•)`/`( )`; its initial value is its `value` when checked, else empty.
pub open spec fn input_toggle_spec(n: NodeView, c: CtxView, is_box: bool) -> CtxView {
    let name = attr_or(n, "name"@, ""@);
    let value = attr_or(n, "value"@, ""@);
    let checked = has_attr(n, "checked"@);
    let initial = if checked { value } else { ""@ };
    let kind = if is_box { KindView::Checkbox } else { KindView::Radio };
    let (c1, idx) = cx_register(c, name, kind, initial);
    let mark = if is_box {
        if checked { "[x]"@ } else { "[ ]"@ }
    } else {
        if checked { "(•)"@ } else { "( )"@ }
    };
    cx_push(c1, field_marker(idx) + mark + seq![' '])
}

/// A text `<input>`: a box of 18 labelled by its value, placeholder or name
/// (or `input`).
pub open spec fn input_text_spec(n: NodeView, c: CtxView) -> CtxView {
    let name = attr_or(n, "name"@, ""@);
    let value = attr_or(n, "value"@, ""@);
    let placeholder = attr_or(n, "placeholder"@, ""@);
    let label = if value.len() > 0 {
        value
    } else if placeholder.len() > 0 {
        placeholder
    } else if name.len() > 0 {
        name
    } else {
        "input"@
    };
    let (c1, idx) = cx_register(c, name, KindView::Text, value);
    cx_push(c1, field_marker(idx) + boxed(label, 18))
}

/// `<input>`: a form control, registered under the current form. Hidden
/// inputs show nothing; buttons show `[ label ]`; checkboxes `[x]`/`[ ]`;
/// radios `(•)`/`( )`; anything else a text box labelled by its value,
/// placeholder or name. The type is read lower-cased, `text` by default.
pub open spec fn input_spec(n: NodeView, c: CtxView) -> CtxView {
    let ty = lower_seq(attr_or(n, "type"@, "text"@));
    if ty == "hidden"@ {
        c
    } else if ty == "submit"@ || ty == "button"@ || ty == "reset"@ {
        input_button_spec(n, c)
    } else if ty == "checkbox"@ {
        input_toggle_spec(n, c, true)
    } else if ty == "radio"@ {
        input_toggle_spec(n, c, false)
    } else {
        input_text_spec(n, c)
    }
}

fn render_input_button(d: &Dom, i: usize, ctx: &mut Ctx)
    requires
        i < d@.len(),
    ensures
        ctx_view(*final(ctx)) == input_button_spec(d@[i as int], ctx_view(*old(ctx))),
{
    let ghost c0 = ctx_view(*ctx);
    let name = dom_attr_or(d, i, "name", "");
    let value = dom_attr_or(d, i, "value", "");
    let field_idx = ctx.register_field(name, FieldKind::Submit, value);
    let label = dom_attr_or(d, i, "value", "Submit");
    ctx.push_field_marker(field_idx);
    ctx.push_str("[ ");
    ctx.push_str(label.as_str());
    ctx.push_str(" ] ");
    assert(ctx_view(*ctx).buf =~= input_button_spec(d@[i as int], c0).buf);
}

fn render_input_toggle(d: &Dom, i: usize, ctx: &mut Ctx, is_box: bool)
    requires
        i < d@.len(),
    ensures
        ctx_view(*final(ctx)) == input_toggle_spec(d@[i as int], ctx_view(*old(ctx)), is_box),
{
    let ghost c0 = ctx_view(*ctx);
    let name = dom_attr_or(d, i, "name", "");
    let value = dom_attr_or(d, i, "value", "");
    let checked = dom_has_attr(d, i, "checked");
    let initial = if checked { value } else { String::new() };
    proof {
        reveal_strlit("");
    }
    assert(initial@ == (if checked { attr_or(d@[i as int], "value"@, ""@) } else { ""@ }));
    let kind = if is_box { FieldKind::Checkbox } else { FieldKind::Radio };
    assert(kind_view(kind) == (if is_box { KindView::Checkbox } else { KindView::Radio }));
    let field_idx = ctx.register_field(name, kind, initial);
    ctx.push_field_marker(field_idx);
    if is_box {
        if checked { ctx.push_str("[x]"); } else { ctx.push_str("[ ]"); }
    } else {
        if checked { ctx.push_str("(•)"); } else { ctx.push_str("( )"); }
    }
    ctx.push_char(' ');
    assert(ctx_view(*ctx).buf =~= input_toggle_spec(d@[i as int], c0, is_box).buf);
}

fn render_input_text(d: &Dom, i: usize, ctx: &mut Ctx)
    requires
        i < d@.len(),
    ensures
        ctx_view(*final(ctx)) == input_text_spec(d@[i as int], ctx_view(*old(ctx))),
{
    let ghost c0 = ctx_view(*ctx);
    let name = dom_attr_or(d, i, "name", "");
    let value = dom_attr_or(d, i, "value", "");
    let placeholder = dom_attr_or(d, i, "placeholder", "");
    let label = if !value.as_str().is_empty() {
        to_chars(value.as_str())
    } else if !placeholder.as_str().is_empty() {
        to_chars(placeholder.as_str())
    } else if !name.as_str().is_empty() {
        to_chars(name.as_str())
    } else {
        to_chars("input")
    };
    let field_idx = ctx.register_field(name, FieldKind::Text, value);
    ctx.push_field_marker(field_idx);
    push_boxed(ctx, label.as_slice(), 18);
    assert(ctx_view(*ctx).buf =~= input_text_spec(d@[i as int], c0).buf);
}

fn render_input(d: &Dom, i: usize, ctx: &mut Ctx)
    requires
        i < d@.len(),
    ensures
        ctx_view(*final(ctx)) == input_spec(d@[i as int], ctx_view(*old(ctx))),
{
    let ty_raw = dom_attr_or(d, i, "type", "text");
    let ty = lower_chars(&to_chars(ty_raw.as_str()));
    if eq_lit(ty.as_slice(), "hidden") {
        // Already registered with the enclosing form's hidden fields; nothing
        // visible.
    } else if eq_lit(ty.as_slice(), "submit") || eq_lit(ty.as_slice(), "button") || eq_lit(
        ty.as_slice(),
        "reset",
    ) {
        render_input_button(d, i, ctx);
    } else if eq_lit(ty.as_slice(), "checkbox") {
        render_input_toggle(d, i, ctx, true);
    } else if eq_lit(ty.as_slice(), "radio") {
        render_input_toggle(d, i, ctx, false);
    } else {
        render_input_text(d, i, ctx);
    }
}

/// `<button>`: a submit control labelled by its text (or its `value`, or
/// `Button`).
pub open spec fn button_spec(d: Seq<NodeView>, i: int, c: CtxView) -> CtxView {
    let n = d[i];
    let name = attr_or(n, "name"@, ""@);
    let value = attr_or(n, "value"@, ""@);
    let (c1, idx) = cx_register(c, name, KindView::Submit, value);
    let text = trimmed_text(d, i);
    let label = if text.len() == 0 { attr_or(n, "value"@, "Button"@) } else { text };
    cx_push(c1, field_marker(idx) + "[ "@ + label + " ] "@)
}

fn render_button(d: &Dom, i: usize, ctx: &mut Ctx)
    requires
        d.wf(),
        i < d@.len(),
    ensures
        ctx_view(*final(ctx)) == button_spec(d@, i as int, ctx_view(*old(ctx))),
{
    let ghost c0 = ctx_view(*ctx);
    let name = dom_attr_or(d, i, "name", "");
    let value = dom_attr_or(d, i, "value", "");
    // Default `<button>` is type=submit per HTML; type="button" gets the same
    // Submit kind.
    let field_idx = ctx.register_field(name, FieldKind::Submit, value);
    let text = dom_trimmed_text(d, i);
    let label = if text.len() == 0 {
        to_chars(dom_attr_or(d, i, "value", "Button").as_str())
    } else {
        text
    };
    ctx.push_field_marker(field_idx);
    ctx.push_str("[ ");
    ctx.push_chars(label.as_slice());
    ctx.push_str(" ] ");
    assert(ctx_view(*ctx).buf =~= button_spec(d@, i as int, c0).buf);
}

/// The first line of `s` (`s.lines().next().unwrap_or("")`).
pub open spec fn first_line(s: Seq<char>) -> Seq<char> {
    if lines_from(s, 0).len() > 0 {
        lines_from(s, 0)[0]
    } else {
        Seq::empty()
    }
}

/// `<textarea>`: a text control previewing its first line of text (or its
/// placeholder, or its name).
pub open spec fn textarea_spec(d: Seq<NodeView>, i: int, c: CtxView) -> CtxView {
    let n = d[i];
    let initial = trimmed_text(d, i);
    let placeholder = attr_or(n, "placeholder"@, ""@);
    let name = attr_or(n, "name"@, "textarea"@);
    let preview = if initial.len() > 0 {
        first_line(initial)
    } else if placeholder.len() > 0 {
        placeholder
    } else {
        name
    };
    let (c1, idx) = cx_register(c, name, KindView::Textarea, initial);
    cx_push(c1, field_marker(idx) + boxed(preview, 24))
}

fn render_textarea(d: &Dom, i: usize, ctx: &mut Ctx)
    requires
        d.wf(),
        i < d@.len(),
    ensures
        ctx_view(*final(ctx)) == textarea_spec(d@, i as int, ctx_view(*old(ctx))),
{
    let ghost c0 = ctx_view(*ctx);
    let initial = dom_trimmed_text(d, i);
    let placeholder = dom_attr_or(d, i, "placeholder", "");
    let name = dom_attr_or(d, i, "name", "textarea");
    let preview = if initial.len() > 0 {
        let ls = split_lines(initial.as_slice());
        if ls.len() > 0 {
            assert(ls@.map_values(|l: Vec<char>| l@)[0] == ls@[0]@);
            slice_chars(ls[0].as_slice(), 0, ls[0].len())
        } else {
            Vec::new()
        }
    } else if !placeholder.as_str().is_empty() {
        to_chars(placeholder.as_str())
    } else {
        to_chars(name.as_str())
    };
    assert(preview@ =~= (if initial@.len() > 0 {
        first_line(initial@)
    } else if placeholder@.len() > 0 {
        placeholder@
    } else {
        name@
    }));
    let initial_s = from_chars(initial.as_slice());
    let field_idx = ctx.register_field(name, FieldKind::Textarea, initial_s);
    ctx.push_field_marker(field_idx);
    push_boxed(ctx, preview.as_slice(), 24);
    assert(ctx_view(*ctx).buf =~= textarea_spec(d@, i as int, c0).buf);
}

/// `<a>`: the trimmed link text, underlined cyan, after a link marker when the
/// link has an `href` (which is then recorded). Text-less links show nothing.
pub open spec fn link_spec(d: Seq<NodeView>, i: int, c: CtxView) -> CtxView {
    let href = attr_or(d[i], "href"@, ""@);
    let text = trimmed_text(d, i);
    if text.len() == 0 {
        c
    } else {
        let idx = c.links.len();
        let c1 = if href.len() > 0 {
            cx_push(CtxView { links: c.links.push((href, 0usize)), ..c }, marker('L', idx))
        } else {
            c
        };
        cx_push(c1, "\x1b[4;36m"@ + text + "\x1b[0m "@)
    }
}

fn render_link(d: &Dom, i: usize, ctx: &mut Ctx)
    requires
        d.wf(),
        i < d@.len(),
    ensures
        ctx_view(*final(ctx)) == link_spec(d@, i as int, ctx_view(*old(ctx))),
{
    let ghost c0 = ctx_view(*ctx);
    let href = dom_attr_or(d, i, "href", "");
    let text = dom_trimmed_text(d, i);
    if text.len() == 0 {
        return;
    }
    let idx = ctx.links.len();
    if !href.as_str().is_empty() {
        let ghost hv = href@;
        ctx.links.push(RenderedLink { href, line: 0 });
        assert(links_view(ctx.links@) =~= c0.links.push((hv, 0usize)));
        ctx.push_marker('L', idx);
    }
    ctx.push_str("\x1b[4;36m");
    ctx.push_chars(text.as_slice());
    ctx.push_str("\x1b[0m ");
    assert(ctx_view(*ctx).buf =~= link_spec(d@, i as int, c0).buf);
}

/// `<code>`, `<kbd>`, `<tt>`: the trimmed text between a code-start and a
/// code-end marker, recorded as a code span. Text-less ones show nothing.
pub open spec fn code_spec(d: Seq<NodeView>, i: int, c: CtxView) -> CtxView {
    let text = trimmed_text(d, i);
    if text.len() == 0 {
        c
    } else {
        let idx = c.code_spans.len();
        let c1 = CtxView { code_spans: c.code_spans.push((0usize, 0usize, 0usize)), ..c };
        cx_push(c1, marker('C', idx) + text + marker('Z', idx))
    }
}

/// Render an inline `<code>`, `<kbd>`, or `<tt>` element, recording its char
/// offsets so that `render_full` can later tag it as a [`CodeSpan`].
fn render_code_span(d: &Dom, i: usize, ctx: &mut Ctx)
    requires
        d.wf(),
        i < d@.len(),
    ensures
        ctx_view(*final(ctx)) == code_spec(d@, i as int, ctx_view(*old(ctx))),
{
    let ghost c0 = ctx_view(*ctx);
    let text = dom_trimmed_text(d, i);
    if text.len() == 0 {
        return;
    }
    let idx = ctx.code_spans.len();
    ctx.code_spans.push(CodeSpan { line: 0, start: 0, end: 0 });
    assert(spans_view(ctx.code_spans@) =~= c0.code_spans.push((0usize, 0usize, 0usize)));
    ctx.push_marker('C', idx);
    ctx.push_chars(text.as_slice());
    ctx.push_marker('Z', idx);
    assert(ctx_view(*ctx).buf =~= code_spec(d@, i as int, c0).buf);
}


// ── Visibility ────────────────────────────────────────────────────────────────

/// `s[i..j]` is one of the words of `s` as `str::split_whitespace` cuts them:
/// a maximal non-empty run of non-whitespace characters.
pub open spec fn is_word_at(s: Seq<char>, i: int, j: int) -> bool {
    &&& 0 <= i < j <= s.len()
    &&& (i == 0 || is_space(s[i - 1]))
    &&& (j == s.len() || is_space(s[j]))
    &&& forall|k: int| i <= k < j ==> !is_space(#[trigger] s[k])
}

/// Some whitespace-separated word of `s` is in `names`.
pub open spec fn some_word_in(s: Seq<char>, names: Set<Seq<char>>) -> bool {
    exists|i: int, j: int| is_word_at(s, i, j) && names.contains(#[trigger] s.subrange(i, j))
}

/// `true` when some whitespace-separated word of `s` is listed in `v`.
fn any_word_listed(s: &[char], v: &Vec<String>) -> (b: bool)
    ensures
        b == some_word_in(s@, names_of(v@)),
{
    let n = s.len();
    let mut i: usize = 0;
    while i < n
        invariant
            n == s@.len(),
            i <= n,
            i == 0 || i == n || is_space(s@[i - 1]) || is_space(s@[i as int]),
            forall|a: int, b: int|
                is_word_at(s@, a, b) && a < i ==> !names_of(v@).contains(#[trigger] s@.subrange(a, b)),
        decreases n - i,
    {
        let mut p = i;
        while p < n && char_is_space(s[p])
            invariant
                n == s@.len(),
                i <= p <= n,
                forall|k: int| i <= k < p ==> is_space(#[trigger] s@[k]),
            decreases n - p,
        {
            p = p + 1;
        }
        if p == n {
            assert forall|a: int, b: int|
                is_word_at(s@, a, b) && a < n implies !names_of(v@).contains(#[trigger] s@.subrange(a, b)) by {
                if a >= i {
                    assert(!is_space(s@[a]));
                }
            }
            i = n;
        } else {
            let mut j = p;
            while j < n && !char_is_space(s[j])
                invariant
                    n == s@.len(),
                    p <= j <= n,
                    forall|k: int| p <= k < j ==> !is_space(#[trigger] s@[k]),
                decreases n - j,
            {
                j = j + 1;
            }
            assert(p < j);
            assert(p == 0 || is_space(s@[p - 1]));
            let w = slice_chars(s, p, j);
            if list_contains(v, w.as_slice()) {
                assert(is_word_at(s@, p as int, j as int));
                return true;
            }
            assert forall|a: int, b: int|
                is_word_at(s@, a, b) && a < j implies !names_of(v@).contains(#[trigger] s@.subrange(a, b)) by {
                if a >= i && a < p {
                    assert(!is_space(s@[a]));
                } else if a == p {
                    if b < j {
                        assert(!is_space(s@[b]));
                    } else if b > j {
                        assert(!is_space(s@[j as int]));
                    }
                } else if a > p {
                    assert(!is_space(s@[a - 1]));
                }
            }
            i = j;
        }
    }
    false
}

/// An inline style that hides the element (`display:none` or
/// `visibility:hidden`, with or without a space after the colon), read
/// lower-cased.
pub open spec fn style_hides(lower: Seq<char>) -> bool {
    ||| has_infix(lower, "display:none"@)
    ||| has_infix(lower, "display: none"@)
    ||| has_infix(lower, "visibility:hidden"@)
    ||| has_infix(lower, "visibility: hidden"@)
}

/// An element is skipped when it has a `hidden` attribute, `aria-hidden="true"`,
/// an inline style that hides it, or a tag, id or class that the page's CSS
/// hides.
pub open spec fn is_hidden_spec(n: NodeView, hs: HiddenView) -> bool {
    ||| has_attr(n, "hidden"@)
    ||| attr_of(n.attrs, "aria-hidden"@) == Some("true"@)
    ||| (match attr_of(n.attrs, "style"@) {
        Some(st) => style_hides(lower_seq(st)),
        None => false,
    })
    ||| hs.tags.contains(n.name)
    ||| (match attr_of(n.attrs, "id"@) {
        Some(id) => hs.ids.contains(id),
        None => false,
    })
    ||| (match attr_of(n.attrs, "class"@) {
        Some(cls) => some_word_in(cls, hs.classes),
        None => false,
    })
}

fn contains_lit(s: &[char], lit: &str) -> (b: bool)
    ensures
        b == has_infix(s@, lit@),
{
    let l = to_chars(lit);
    contains_chars(s, l.as_slice())
}

/// `true` if the element should be skipped due to inline style, attribute, or
/// CSS rule indicating it's invisible.
fn is_hidden(d: &Dom, i: usize, hidden: &HiddenSet) -> (b: bool)
    requires
        i < d@.len(),
    ensures
        b == is_hidden_spec(d@[i as int], hidden@),
{
    if d.attr(i, "hidden").is_some() {
        return true;
    }
    match d.attr(i, "aria-hidden") {
        Some(v) => {
            let vc = to_chars(v.as_str());
            if eq_lit(vc.as_slice(), "true") {
                return true;
            }
        },
        None => {},
    }
    match d.attr(i, "style") {
        Some(st) => {
            let lower = lower_chars(&to_chars(st.as_str()));
            if contains_lit(lower.as_slice(), "display:none") || contains_lit(lower.as_slice(), "display: none")
                || contains_lit(lower.as_slice(), "visibility:hidden") || contains_lit(
                lower.as_slice(),
                "visibility: hidden",
            ) {
                return true;
            }
        },
        None => {},
    }
    let name = to_chars(d.nodes[i].name.as_str());
    if list_contains(&hidden.tags, name.as_slice()) {
        return true;
    }
    match d.attr(i, "id") {
        Some(id) => {
            let idc = to_chars(id.as_str());
            if list_contains(&hidden.ids, idc.as_slice()) {
                return true;
            }
        },
        None => {},
    }
    match d.attr(i, "class") {
        Some(cls) => {
            let cc = to_chars(cls.as_str());
            any_word_listed(cc.as_slice(), &hidden.classes)
        },
        None => false,
    }
}

// ── Selects and hidden inputs ─────────────────────────────────────────────────

/// What a `<select>` has gathered from its options so far: the label chosen,
/// the option labels, and the value that is submitted.
pub struct SelectState {
    pub chosen: Option<Seq<char>>,
    pub options: Seq<Seq<char>>,
    pub value: Seq<char>,
}

/// Reads the `<option>` children of node `i` from the `k`-th child on: each
/// adds its trimmed text to the labels; the first option, or a later one
/// marked `selected`, becomes the chosen one, and its `value` (or its text)
/// the submitted value.
pub open spec fn select_from(d: Seq<NodeView>, i: int, k: int, st: SelectState) -> SelectState
    decreases d[i].children.len() - k,
{
    if 0 <= i < d.len() && 0 <= k < d[i].children.len() {
        let c = d[i].children[k] as int;
        let st2 = if 0 <= c < d.len() && d[c].kind == NodeKind::Element && d[c].name == "option"@ {
            let text = trimmed_text(d, c);
            let v = attr_or(d[c], "value"@, text);
            let opts = st.options.push(text);
            if has_attr(d[c], "selected"@) || st.chosen is None {
                SelectState { chosen: Some(text), options: opts, value: v }
            } else {
                SelectState { options: opts, ..st }
            }
        } else {
            st
        };
        select_from(d, i, k + 1, st2)
    } else {
        st
    }
}

/// `<select>`: a control showing the chosen option (or `▼`), registered with
/// all option labels and the chosen option's value.
pub open spec fn select_spec(d: Seq<NodeView>, i: int, c: CtxView) -> CtxView {
    let st = select_from(d, i, 0, SelectState { chosen: None, options: Seq::empty(), value: Seq::empty() });
    let name = attr_or(d[i], "name"@, ""@);
    let label = match st.chosen {
        Some(t) => t,
        None => "▼"@,
    };
    let (c1, idx) = cx_register(c, name, KindView::Select(st.options), st.value);
    cx_push(c1, field_marker(idx) + "[ "@ + label + " \u{25be} ] "@)
}

pub open spec fn opt_chars(o: Option<Vec<char>>) -> Option<Seq<char>> {
    match o {
        Some(v) => Some(v@),
        None => None,
    }
}

fn render_select(d: &Dom, i: usize, ctx: &mut Ctx)
    requires
        d.wf(),
        i < d@.len(),
    ensures
        ctx_view(*final(ctx)) == select_spec(d@, i as int, ctx_view(*old(ctx))),
{
    let ghost c0 = ctx_view(*ctx);
    let ghost init = SelectState { chosen: None, options: Seq::empty(), value: Seq::empty() };
    let mut chosen: Option<Vec<char>> = None;
    let mut options: Vec<String> = Vec::new();
    let mut selected_value: Vec<char> = Vec::new();
    let nk = d.nodes[i].children.len();
    let mut k: usize = 0;
    assert(strings_view(options@) =~= Seq::<Seq<char>>::empty());
    while k < nk
        invariant
            d.wf(),
            i < d@.len(),
            nk == d@[i as int].children.len(),
            k <= nk,
            select_from(
                d@,
                i as int,
                k as int,
                SelectState { chosen: opt_chars(chosen), options: strings_view(options@), value: selected_value@ },
            ) == select_from(d@, i as int, 0, init),
        decreases nk - k,
    {
        let c = d.nodes[i].children[k];
        assert(d@[i as int].children[k as int] == c);
        if d.is_element(c, "option") {
            let text = dom_trimmed_text(d, c);
            let v = match d.attr(c, "value") {
                Some(s) => to_chars(s.as_str()),
                None => slice_chars(text.as_slice(), 0, text.len()),
            };
            assert(text@.subrange(0, text@.len() as int) =~= text@);
            let ghost before = strings_view(options@);
            options.push(from_chars(text.as_slice()));
            assert(strings_view(options@) =~= before.push(text@));
            if d.attr(c, "selected").is_some() || chosen.is_none() {
                chosen = Some(slice_chars(text.as_slice(), 0, text.len()));
                selected_value = v;
            }
        }
        k = k + 1;
    }
    let name = dom_attr_or(d, i, "name", "");
    let label = match chosen {
        Some(t) => t,
        None => to_chars("▼"),
    };
    let value_s = from_chars(selected_value.as_slice());
    let field_idx = ctx.register_field(name, FieldKind::Select(options), value_s);
    ctx.push_field_marker(field_idx);
    ctx.push_str("[ ");
    ctx.push_chars(label.as_slice());
    ctx.push_str(" \u{25be} ] ");
    assert(ctx_view(*ctx).buf =~= select_spec(d@, i as int, c0).buf);
}

/// An `<input type="hidden">` (type compared lower-cased).
pub open spec fn is_hidden_input(n: NodeView) -> bool {
    n.kind == NodeKind::Element && n.name == "input"@ && lower_seq(attr_or(n, "type"@, ""@)) == "hidden"@
}

/// Registers every hidden input at or under node `i`, in document order.
pub open spec fn hidden_fields_of(d: Seq<NodeView>, i: int, c: CtxView) -> CtxView
    decreases d.len() - i, 1int, 0int,
{
    if 0 <= i < d.len() {
        let c1 = if is_hidden_input(d[i]) {
            cx_register(c, attr_or(d[i], "name"@, ""@), KindView::Hidden, attr_or(d[i], "value"@, ""@)).0
        } else {
            c
        };
        hidden_fields_children(d, i, 0, c1)
    } else {
        c
    }
}

/// Registers the hidden inputs under the children of node `i` from the
/// `k`-th on.
pub open spec fn hidden_fields_children(d: Seq<NodeView>, i: int, k: int, c: CtxView) -> CtxView
    decreases d.len() - i, 0int, d[i].children.len() - k,
{
    if 0 <= i < d.len() && 0 <= k < d[i].children.len() {
        let ch = d[i].children[k] as int;
        let c1 = if i < ch < d.len() {
            hidden_fields_of(d, ch, c)
        } else {
            c
        };
        hidden_fields_children(d, i, k + 1, c1)
    } else {
        c
    }
}

/// Register hidden inputs nested inside node `i`. Hidden fields don't emit a
/// marker — they have no visible line — but they must travel with the submit
/// query string.
fn register_hidden_fields(d: &Dom, i: usize, ctx: &mut Ctx)
    requires
        d.wf(),
        i < d@.len(),
    ensures
        ctx_view(*final(ctx)) == hidden_fields_of(d@, i as int, ctx_view(*old(ctx))),
    decreases d@.len() - i, 1int, 0int,
{
    if d.is_element(i, "input") {
        let ty = dom_attr_or(d, i, "type", "");
        let tyl = lower_chars(&to_chars(ty.as_str()));
        if eq_lit(tyl.as_slice(), "hidden") {
            let name = dom_attr_or(d, i, "name", "");
            let value = dom_attr_or(d, i, "value", "");
            let _ = ctx.register_field(name, FieldKind::Hidden, value);
        }
    }
    register_hidden_children(d, i, 0, ctx);
}

fn register_hidden_children(d: &Dom, i: usize, k: usize, ctx: &mut Ctx)
    requires
        d.wf(),
        i < d@.len(),
        k <= d@[i as int].children.len(),
    ensures
        ctx_view(*final(ctx)) == hidden_fields_children(d@, i as int, k as int, ctx_view(*old(ctx))),
    decreases d@.len() - i, 0int, d@[i as int].children.len() - k,
{
    if k < d.nodes[i].children.len() {
        let c = d.nodes[i].children[k];
        assert(d@[i as int].children[k as int] == c);
        register_hidden_fields(d, c, ctx);
        register_hidden_children(d, i, k + 1, ctx);
    }
}


// ── Elements ──────────────────────────────────────────────────────────────────

/// Tags that start and end on a line of their own.
pub open spec fn block_tag(t: Seq<char>) -> bool {
    ||| t == "address"@
    ||| t == "article"@
    ||| t == "aside"@
    ||| t == "blockquote"@
    ||| t == "dd"@
    ||| t == "details"@
    ||| t == "dialog"@
    ||| t == "div"@
    ||| t == "dl"@
    ||| t == "dt"@
    ||| t == "fieldset"@
    ||| t == "figcaption"@
    ||| t == "figure"@
    ||| t == "footer"@
    ||| t == "form"@
    ||| t == "h1"@
    ||| t == "h2"@
    ||| t == "h3"@
    ||| t == "h4"@
    ||| t == "h5"@
    ||| t == "h6"@
    ||| t == "header"@
    ||| t == "hgroup"@
    ||| t == "hr"@
    ||| t == "li"@
    ||| t == "main"@
    ||| t == "menu"@
    ||| t == "nav"@
    ||| t == "ol"@
    ||| t == "p"@
    ||| t == "pre"@
    ||| t == "section"@
    ||| t == "summary"@
    ||| t == "table"@
    ||| t == "tbody"@
    ||| t == "td"@
    ||| t == "th"@
    ||| t == "thead"@
    ||| t == "tr"@
    ||| t == "ul"@
}

/// Tags whose content is never shown.
pub open spec fn skip_tag(t: Seq<char>) -> bool {
    ||| t == "head"@
    ||| t == "math"@
    ||| t == "script"@
    ||| t == "style"@
    ||| t == "svg"@
    ||| t == "template"@
}

/// Inline code tags.
pub open spec fn code_tag(t: Seq<char>) -> bool {
    t == "code"@ || t == "kbd"@ || t == "tt"@
}

fn is_block_tag(t: &[char]) -> (b: bool)
    ensures
        b == block_tag(t@),
{
    eq_lit(t, "address") || eq_lit(t, "article") || eq_lit(t, "aside") ||
        eq_lit(t, "blockquote") || eq_lit(t, "dd") || eq_lit(t, "details") ||
        eq_lit(t, "dialog") || eq_lit(t, "div") || eq_lit(t, "dl") || eq_lit(t, "dt") ||
        eq_lit(t, "fieldset") || eq_lit(t, "figcaption") || eq_lit(t, "figure") ||
        eq_lit(t, "footer") || eq_lit(t, "form") || eq_lit(t, "h1") || eq_lit(t, "h2") ||
        eq_lit(t, "h3") || eq_lit(t, "h4") || eq_lit(t, "h5") || eq_lit(t, "h6") ||
        eq_lit(t, "header") || eq_lit(t, "hgroup") || eq_lit(t, "hr") || eq_lit(t, "li") ||
        eq_lit(t, "main") || eq_lit(t, "menu") || eq_lit(t, "nav") || eq_lit(t, "ol") ||
        eq_lit(t, "p") || eq_lit(t, "pre") || eq_lit(t, "section") || eq_lit(t, "summary") ||
        eq_lit(t, "table") || eq_lit(t, "tbody") || eq_lit(t, "td") || eq_lit(t, "th") ||
        eq_lit(t, "thead") || eq_lit(t, "tr") || eq_lit(t, "ul")
}

fn is_skip_tag(t: &[char]) -> (b: bool)
    ensures
        b == skip_tag(t@),
{
    eq_lit(t, "head") || eq_lit(t, "math") || eq_lit(t, "script") || eq_lit(t, "style") ||
        eq_lit(t, "svg") || eq_lit(t, "template")
}

fn is_code_tag(t: &[char]) -> (b: bool)
    ensures
        b == code_tag(t@),
{
    eq_lit(t, "code") || eq_lit(t, "kbd") || eq_lit(t, "tt")
}

/// What a heading or list item starts with: a heading marker and an indent
/// by level (`▌ ` for `h1`), or a bullet.
pub open spec fn prefix_spec(tag: Seq<char>) -> Seq<char> {
    match heading_level_spec(tag) {
        Some(l) => marker('H', l as nat) + (if l == 1 {
            "▌ "@
        } else if l == 2 {
            "  "@
        } else if l == 3 {
            "    "@
        } else {
            "      "@
        }),
        None => if tag == "li"@ {
            "  • "@
        } else {
            Seq::empty()
        },
    }
}

fn push_prefix(tag: &[char], ctx: &mut Ctx)
    ensures
        ctx_view(*final(ctx)) == cx_push(ctx_view(*old(ctx)), prefix_spec(tag@)),
{
    match heading_level(tag) {
        Some(level) => {
            let ghost c0 = ctx_view(*ctx);
            ctx.push_marker('H', level);
            if level == 1 {
                ctx.push_str("▌ ");
            } else if level == 2 {
                ctx.push_str("  ");
            } else if level == 3 {
                ctx.push_str("    ");
            } else {
                ctx.push_str("      ");
            }
            assert(ctx_view(*ctx).buf =~= cx_push(c0, prefix_spec(tag@)).buf);
        },
        None => {
            if eq_lit(tag, "li") {
                ctx.push_str("  • ");
            } else {
                proof {
                    lemma_ctx_push(ctx_view(*old(ctx)), ctx_view(*ctx), Seq::empty());
                    assert(ctx_view(*ctx).buf =~= ctx_view(*old(ctx)).buf + Seq::<char>::empty());
                }
            }
        },
    }
}

/// Opening a `<form>` records its action and lower-cased method (`get` by
/// default) and makes it the current form.
pub open spec fn form_open_spec(n: NodeView, c: CtxView) -> CtxView {
    CtxView {
        forms: c.forms.push((attr_or(n, "action"@, ""@), lower_seq(attr_or(n, "method"@, "get"@)))),
        current_form: Some(c.forms.len() as usize),
        ..c
    }
}

fn open_form(d: &Dom, i: usize, ctx: &mut Ctx)
    requires
        i < d@.len(),
    ensures
        ctx_view(*final(ctx)) == form_open_spec(d@[i as int], ctx_view(*old(ctx))),
{
    let form_idx = ctx.forms.len();
    let action = dom_attr_or(d, i, "action", "");
    let method_raw = dom_attr_or(d, i, "method", "get");
    let method = from_chars(lower_chars(&to_chars(method_raw.as_str())).as_slice());
    let ghost fv = (action@, method@);
    ctx.forms.push(RenderedForm { action, method });
    assert(forms_view(ctx.forms@) =~= forms_view(old(ctx).forms@).push(fv));
    ctx.current_form = Some(form_idx);
}

/// A horizontal rule.
pub open spec fn rule_line() -> Seq<char> {
    "────────────────────────────────────────"@
}

/// Rendering element `i` (with the hidden set `hs`): skipped and hidden
/// elements give nothing; code tags give a code span; otherwise blocks get a
/// newline before and after, forms are recorded with their hidden inputs and
/// are current while their content renders, `hr` gives a rule, headings and
/// list items their prefix, and the children follow in order.
pub open spec fn element_spec(d: Seq<NodeView>, i: int, hs: HiddenView, c: CtxView) -> CtxView
    decreases d.len() - i, 1int, 0int,
{
    if 0 <= i < d.len() {
        let n = d[i];
        let tag = n.name;
        if skip_tag(tag) || is_hidden_spec(n, hs) {
            c
        } else if code_tag(tag) {
            code_spec(d, i, c)
        } else {
            let c1 = if tag == "form"@ {
                hidden_fields_of(d, i, form_open_spec(n, c))
            } else {
                c
            };
            let c2 = if block_tag(tag) {
                cx_push(c1, seq!['\n'])
            } else {
                c1
            };
            if tag == "hr"@ {
                cx_push(c2, rule_line() + seq!['\n'])
            } else {
                let c3 = children_spec(d, i, 0, hs, cx_push(c2, prefix_spec(tag)));
                let c4 = if block_tag(tag) {
                    cx_push(c3, seq!['\n'])
                } else {
                    c3
                };
                if tag == "form"@ {
                    CtxView { current_form: c.current_form, ..c4 }
                } else {
                    c4
                }
            }
        }
    } else {
        c
    }
}

/// Rendering the children of node `i` from the `k`-th on.
pub open spec fn children_spec(d: Seq<NodeView>, i: int, k: int, hs: HiddenView, c: CtxView) -> CtxView
    decreases d.len() - i, 0int, d[i].children.len() - k,
{
    if 0 <= i < d.len() && 0 <= k < d[i].children.len() {
        let ch = d[i].children[k] as int;
        let c1 = if i < ch < d.len() {
            child_spec(d, ch, hs, c)
        } else {
            c
        };
        children_spec(d, i, k + 1, hs, c1)
    } else {
        c
    }
}

/// Rendering one child: text shows trimmed and followed by a space (nothing
/// when blank); hidden elements give nothing; links, images and form controls
/// have their own renderers; other elements render as elements.
pub open spec fn child_spec(d: Seq<NodeView>, i: int, hs: HiddenView, c: CtxView) -> CtxView
    decreases d.len() - i, 2int, 0int,
{
    if 0 <= i < d.len() {
        let n = d[i];
        if n.kind == NodeKind::Text {
            let s = trim_seq(n.text);
            if s.len() > 0 {
                cx_push(c, s + seq![' '])
            } else {
                c
            }
        } else if n.kind == NodeKind::Element {
            if is_hidden_spec(n, hs) {
                c
            } else if n.name == "a"@ {
                link_spec(d, i, c)
            } else if n.name == "img"@ {
                img_spec(n, c)
            } else if n.name == "input"@ {
                input_spec(n, c)
            } else if n.name == "button"@ {
                button_spec(d, i, c)
            } else if n.name == "textarea"@ {
                textarea_spec(d, i, c)
            } else if n.name == "select"@ {
                select_spec(d, i, c)
            } else {
                element_spec(d, i, hs, c)
            }
        } else {
            c
        }
    } else {
        c
    }
}

fn render_element(d: &Dom, i: usize, ctx: &mut Ctx, hidden: &HiddenSet)
    requires
        d.wf(),
        i < d@.len(),
    ensures
        ctx_view(*final(ctx)) == element_spec(d@, i as int, hidden@, ctx_view(*old(ctx))),
    decreases d@.len() - i, 1int, 0int,
{
    let tag = to_chars(d.nodes[i].name.as_str());
    if is_skip_tag(tag.as_slice()) || is_hidden(d, i, hidden) {
        return;
    }
    // Inline code elements — always handled as inline, never as block.
    if is_code_tag(tag.as_slice()) {
        render_code_span(d, i, ctx);
        return;
    }
    let is_block = is_block_tag(tag.as_slice());
    // A form is recorded, made current, and its hidden inputs gathered so they
    // make it into the submit query string; the outer scope is restored after.
    let is_form = eq_lit(tag.as_slice(), "form");
    let prev = ctx.current_form;
    if is_form {
        open_form(d, i, ctx);
        register_hidden_fields(d, i, ctx);
    }
    if is_block {
        ctx.push_char('\n');
    }
    if eq_lit(tag.as_slice(), "hr") {
        ctx.push_str("────────────────────────────────────────");
        ctx.push_char('\n');
        proof {
            reveal_strlit("hr");
            reveal_strlit("form");
            assert(tag@ != "form"@);
            let c2 = cx_push(ctx_view(*old(ctx)), seq!['\n']);
            assert(ctx_view(*ctx).buf =~= cx_push(c2, rule_line() + seq!['\n']).buf);
        }
        return;
    }
    push_prefix(tag.as_slice(), ctx);
    render_children(d, i, 0, ctx, hidden);
    if is_block {
        ctx.push_char('\n');
    }
    if is_form {
        ctx.current_form = prev;
    }
}

fn render_children(d: &Dom, i: usize, k: usize, ctx: &mut Ctx, hidden: &HiddenSet)
    requires
        d.wf(),
        i < d@.len(),
        k <= d@[i as int].children.len(),
    ensures
        ctx_view(*final(ctx)) == children_spec(d@, i as int, k as int, hidden@, ctx_view(*old(ctx))),
    decreases d@.len() - i, 0int, d@[i as int].children.len() - k,
{
    if k < d.nodes[i].children.len() {
        let c = d.nodes[i].children[k];
        assert(d@[i as int].children[k as int] == c);
        render_child(d, c, ctx, hidden);
        render_children(d, i, k + 1, ctx, hidden);
    }
}

fn render_child(d: &Dom, i: usize, ctx: &mut Ctx, hidden: &HiddenSet)
    requires
        d.wf(),
        i < d@.len(),
    ensures
        ctx_view(*final(ctx)) == child_spec(d@, i as int, hidden@, ctx_view(*old(ctx))),
    decreases d@.len() - i, 2int, 0int,
{
    if d.nodes[i].kind == NodeKind::Text {
        let t = to_chars(d.nodes[i].text.as_str());
        let s = trim_chars(t.as_slice());
        if s.len() > 0 {
            ctx.push_chars(s.as_slice());
            ctx.push_char(' ');
            assert(ctx_view(*ctx).buf =~= cx_push(ctx_view(*old(ctx)), s@ + seq![' ']).buf);
        }
    } else if d.nodes[i].kind == NodeKind::Element {
        if is_hidden(d, i, hidden) {
            return;
        }
        let name = to_chars(d.nodes[i].name.as_str());
        if eq_lit(name.as_slice(), "a") {
            render_link(d, i, ctx);
        } else if eq_lit(name.as_slice(), "img") {
            render_img(d, i, ctx);
        } else if eq_lit(name.as_slice(), "input") {
            render_input(d, i, ctx);
        } else if eq_lit(name.as_slice(), "button") {
            render_button(d, i, ctx);
        } else if eq_lit(name.as_slice(), "textarea") {
            render_textarea(d, i, ctx);
        } else if eq_lit(name.as_slice(), "select") {
            render_select(d, i, ctx);
        } else {
            render_element(d, i, ctx, hidden);
        }
    }
}


// ── Whole pages ───────────────────────────────────────────────────────────────

/// The first child of node `i`, from the `k`-th on, that is an element.
pub open spec fn first_element_child(d: Seq<NodeView>, i: int, k: int) -> Option<int>
    decreases d[i].children.len() - k,
{
    if 0 <= i < d.len() && 0 <= k < d[i].children.len() {
        let c = d[i].children[k] as int;
        if 0 <= c < d.len() && d[c].kind == NodeKind::Element {
            Some(c)
        } else {
            first_element_child(d, i, k + 1)
        }
    } else {
        None
    }
}

/// The root element of the document: the first element under the document
/// node.
pub open spec fn root_element(d: Seq<NodeView>) -> Option<int> {
    if d.len() > 0 {
        first_element_child(d, 0, 0)
    } else {
        None
    }
}

/// A page can be rendered when it has a root element.
pub open spec fn renderable(d: Seq<NodeView>) -> bool {
    root_element(d) is Some
}

/// What rendering the root element leaves behind, with the hidden set that
/// the page's styles give.
pub open spec fn render_ctx(d: Seq<NodeView>) -> CtxView {
    match root_element(d) {
        Some(r) => element_spec(d, r, document_hidden(d), ctx_empty()),
        None => ctx_empty(),
    }
}

/// The terminal text of a page: the rendered text with newline runs cut to
/// two, trimmed, and the position markers taken out (ANSI colours kept).
pub open spec fn render_spec(d: Seq<NodeView>) -> Seq<char> {
    unmarked_from(normalize_spec(render_ctx(d).buf), 0)
}

fn find_root_element(d: &Dom) -> (r: Option<usize>)
    ensures
        match r {
            Some(x) => root_element(d@) == Some(x as int) && x < d@.len(),
            None => root_element(d@) is None,
        },
{
    if d.nodes.len() == 0 {
        return None;
    }
    let n = d.nodes[0].children.len();
    let mut k: usize = 0;
    while k < n
        invariant
            d@.len() > 0,
            n == d@[0].children.len(),
            k <= n,
            first_element_child(d@, 0, k as int) == first_element_child(d@, 0, 0),
        decreases n - k,
    {
        let c = d.nodes[0].children[k];
        assert(d@[0].children[k as int] == c);
        if c < d.nodes.len() && d.nodes[c].kind == NodeKind::Element {
            return Some(c);
        }
        k = k + 1;
    }
    None
}

/// `true` when the page has a root element, so that `render` and
/// `render_full` can take it.
pub fn can_render(page: &ParsedPage) -> (b: bool)
    ensures
        b == renderable(page.dom()),
{
    let d = page.document();
    find_root_element(d).is_some()
}

fn render_buffer(page: &ParsedPage) -> (ctx: Ctx)
    requires
        renderable(page.dom()),
    ensures
        ctx_view(ctx) == render_ctx(page.dom()),
{
    let d = page.document();
    let hidden = extract_hidden(d);
    let mut ctx = Ctx::new();
    match find_root_element(d) {
        Some(root) => render_element(d, root, &mut ctx, &hidden),
        None => {},
    }
    ctx
}

/// Render `page` to a terminal-ready ANSI string.
pub fn render(page: &ParsedPage) -> (r: String)
    requires
        renderable(page.dom()),
    ensures
        r@ == render_spec(page.dom()),
{
    let ctx = render_buffer(page);
    let normalized = normalize(ctx.buf.as_slice());
    let out = strip_markers(normalized.as_slice());
    from_chars(out.as_slice())
}

/// The line kind that a heading marker of `level` gives.
pub open spec fn level_kind(level: usize) -> LineKind {
    if level == 1 {
        LineKind::H1
    } else if level == 2 {
        LineKind::H2
    } else if level == 3 {
        LineKind::H3
    } else {
        LineKind::H4Plus
    }
}

/// The positions being filled in while the lines are scanned for markers.
pub struct ScanState {
    pub links: Seq<(Seq<char>, usize)>,
    pub images: Seq<(Seq<char>, Seq<char>, usize)>,
    pub kinds: Seq<LineKind>,
    pub spans: Seq<(usize, usize, usize)>,
    pub fields: Seq<FieldView>,
}

/// One marker of kind `kind` with digits `ds`, met on line `li` after `count`
/// visible characters: a link, image or field marker sets that item's line; a
/// heading marker sets the line's kind; a code-start marker sets the span's
/// line and start, and a code-end marker on the same line its end. Markers
/// whose digits do not parse or whose index is out of range change nothing.
pub open spec fn apply_marker(st: ScanState, kind: char, ds: Seq<char>, li: usize, count: usize) -> ScanState {
    match parse_digits(ds) {
        None => st,
        Some(x) => {
            let xi = x as int;
            if kind == 'L' && x < st.links.len() {
                ScanState { links: st.links.update(xi, (st.links[xi].0, li)), ..st }
            } else if kind == 'I' && x < st.images.len() {
                ScanState { images: st.images.update(xi, (st.images[xi].0, st.images[xi].1, li)), ..st }
            } else if kind == 'H' && li < st.kinds.len() {
                ScanState { kinds: st.kinds.update(li as int, level_kind(x)), ..st }
            } else if kind == 'C' && x < st.spans.len() {
                ScanState { spans: st.spans.update(xi, (li, count, st.spans[xi].2)), ..st }
            } else if kind == 'Z' && x < st.spans.len() && st.spans[xi].0 == li {
                ScanState { spans: st.spans.update(xi, (li, st.spans[xi].1, count)), ..st }
            } else if kind == 'F' && x < st.fields.len() {
                ScanState { fields: st.fields.update(xi, FieldView { line: li, ..st.fields[xi] }), ..st }
            } else {
                st
            }
        },
    }
}

/// Where the digits of a marker that starts at `pos` begin: after its kind
/// character, or at the end when there is none.
pub open spec fn digits_start(s: Seq<char>, pos: int) -> int {
    if pos + 1 < s.len() {
        pos + 2
    } else {
        s.len() as int
    }
}

/// Where the scan goes on after the marker that starts at `pos`: after its
/// closing marker character, if it has one, else after its digits.
pub open spec fn marker_next(s: Seq<char>, pos: int) -> int {
    let de = digits_end(s, digits_start(s, pos));
    if de < s.len() && s[de] == MARKER {
        de + 1
    } else {
        de
    }
}

/// Scans line `li` (text `s`) from `pos` on, `count` visible characters
/// having been seen, applying each marker met.
pub open spec fn scan_marks(s: Seq<char>, pos: int, li: usize, count: nat, st: ScanState) -> ScanState
    decreases s.len() - pos,
{
    if pos < 0 || pos >= s.len() {
        st
    } else if s[pos] == MARKER {
        let kind = if pos + 1 < s.len() {
            s[pos + 1]
        } else {
            '?'
        };
        let ds = digits_start(s, pos);
        let de = digits_end(s, ds);
        proof {
            lemma_digits_end_range(s, ds);
        }
        scan_marks(s, marker_next(s, pos), li, count, apply_marker(st, kind, s.subrange(ds, de), li, count as usize))
    } else {
        scan_marks(s, pos + 1, li, count + 1, st)
    }
}

/// Scans the lines from the `k`-th on.
pub open spec fn scan_lines(ls: Seq<Seq<char>>, k: int, st: ScanState) -> ScanState
    decreases ls.len() - k,
{
    if 0 <= k < ls.len() {
        scan_lines(ls, k + 1, scan_marks(ls[k], 0, k as usize, 0, st))
    } else {
        st
    }
}

/// The full render result, as values.
pub struct PageView {
    pub lines: Seq<Seq<char>>,
    pub links: Seq<(Seq<char>, usize)>,
    pub images: Seq<(Seq<char>, Seq<char>, usize)>,
    pub line_kinds: Seq<LineKind>,
    pub code_spans: Seq<(usize, usize, usize)>,
    pub forms: Seq<(Seq<char>, Seq<char>)>,
    pub fields: Seq<FieldView>,
}

pub open spec fn page_view(p: RenderedPage) -> PageView {
    PageView {
        lines: strings_view(p.lines@),
        links: links_view(p.links@),
        images: images_view(p.images@),
        line_kinds: p.line_kinds@,
        code_spans: spans_view(p.code_spans@),
        forms: forms_view(p.forms@),
        fields: fields_view(p.fields@),
    }
}

/// The lines of the rendered page before markers are taken out: the
/// normalized text with ANSI escapes removed, cut into lines.
pub open spec fn marked_lines(d: Seq<NodeView>) -> Seq<Seq<char>> {
    lines_from(ansi_visible(normalize_spec(render_ctx(d).buf)), 0)
}

/// What `render_full` gives: each marked line with its markers taken out, and
/// the links, images, line kinds, code spans and fields placed by scanning
/// the lines for markers (every line starting as `Normal`).
pub open spec fn render_full_spec(d: Seq<NodeView>) -> PageView {
    let cx = render_ctx(d);
    let ls = marked_lines(d);
    let st0 = ScanState {
        links: cx.links,
        images: cx.images,
        kinds: Seq::new(ls.len(), |k: int| LineKind::Normal),
        spans: cx.code_spans,
        fields: cx.fields,
    };
    let st = scan_lines(ls, 0, st0);
    PageView {
        lines: ls.map_values(|l: Seq<char>| unmarked_from(l, 0)),
        links: st.links,
        images: st.images,
        line_kinds: st.kinds,
        code_spans: st.spans,
        forms: cx.forms,
        fields: st.fields,
    }
}

/// The vectors that the marker scan fills in.
struct Marks {
    links: Vec<RenderedLink>,
    images: Vec<RenderedImage>,
    kinds: Vec<LineKind>,
    spans: Vec<CodeSpan>,
    fields: Vec<FormField>,
}

spec fn marks_view(m: Marks) -> ScanState {
    ScanState {
        links: links_view(m.links@),
        images: images_view(m.images@),
        kinds: m.kinds@,
        spans: spans_view(m.spans@),
        fields: fields_view(m.fields@),
    }
}

impl Marks {
    fn apply(&mut self, kind: char, ds: &[char], li: usize, count: usize)
        requires
            forall|k: int| 0 <= k < ds@.len() ==> is_digit(#[trigger] ds@[k]),
        ensures
            marks_view(*final(self)) == apply_marker(marks_view(*old(self)), kind, ds@, li, count),
    {
        let ghost st = marks_view(*self);
        match parse_usize(ds) {
            None => {},
            Some(x) => {
                if kind == 'L' && x < self.links.len() {
                    self.links[x].line = li;
                    assert(links_view(self.links@) =~= st.links.update(x as int, (st.links[x as int].0, li)));
                } else if kind == 'I' && x < self.images.len() {
                    self.images[x].line = li;
                    assert(images_view(self.images@) =~= st.images.update(
                        x as int,
                        (st.images[x as int].0, st.images[x as int].1, li),
                    ));
                } else if kind == 'H' && li < self.kinds.len() {
                    let lk = if x == 1 {
                        LineKind::H1
                    } else if x == 2 {
                        LineKind::H2
                    } else if x == 3 {
                        LineKind::H3
                    } else {
                        LineKind::H4Plus
                    };
                    self.kinds.set(li, lk);
                } else if kind == 'C' && x < self.spans.len() {
                    self.spans[x].line = li;
                    self.spans[x].start = count;
                    assert(spans_view(self.spans@) =~= st.spans.update(x as int, (li, count, st.spans[x as int].2)));
                } else if kind == 'Z' && x < self.spans.len() && self.spans[x].line == li {
                    self.spans[x].end = count;
                    assert(spans_view(self.spans@) =~= st.spans.update(x as int, (li, st.spans[x as int].1, count)));
                } else if kind == 'F' && x < self.fields.len() {
                    self.fields[x].line = li;
                    assert(fields_view(self.fields@) =~= st.fields.update(
                        x as int,
                        FieldView { line: li, ..st.fields[x as int] },
                    ));
                }
            },
        }
    }

    /// Scans one line for markers, recording positions; gives the line with
    /// the markers taken out.
    fn scan_line(&mut self, s: &[char], li: usize) -> (text: Vec<char>)
        ensures
            text@ == unmarked_from(s@, 0),
            marks_view(*final(self)) == scan_marks(s@, 0, li, 0, marks_view(*old(self))),
    {
        let mut out: Vec<char> = Vec::new();
        let mut pos: usize = 0;
        let n = s.len();
        while pos < n
            invariant
                n == s@.len(),
                pos <= n,
                out@ + unmarked_from(s@, pos as int) == unmarked_from(s@, 0),
                scan_marks(s@, pos as int, li, out@.len(), marks_view(*self)) == scan_marks(
                    s@,
                    0,
                    li,
                    0,
                    marks_view(*old(self)),
                ),
            decreases n - pos,
        {
            let c = s[pos];
            if c == MARKER {
                let kind = if pos + 1 < n { s[pos + 1] } else { '?' };
                let ds = if pos + 1 < n { pos + 2 } else { n };
                let de = skip_digits(s, ds);
                proof {
                    lemma_digits_end_range(s@, ds as int);
                    lemma_digits_end_range(s@, pos + 2);
                    if pos + 1 >= n {
                        assert(digits_end(s@, pos + 2) == n);
                    }
                }
                let digits = slice_chars(s, ds, de);
                assert forall|k: int| 0 <= k < digits@.len() implies is_digit(#[trigger] digits@[k]) by {
                    assert(digits@[k] == s@[ds + k]);
                }
                self.apply(kind, digits.as_slice(), li, out.len());
                pos = if de < n && s[de] == MARKER { de + 1 } else { de };
            } else {
                let ghost before = out@;
                out.push(c);
                assert(out@ + unmarked_from(s@, pos + 1) =~= before + unmarked_from(s@, pos as int));
                pos = pos + 1;
            }
        }
        assert(out@ + unmarked_from(s@, pos as int) =~= out@);
        out
    }
}

fn normal_kinds(n: usize) -> (r: Vec<LineKind>)
    ensures
        r@ == Seq::new(n as nat, |k: int| LineKind::Normal),
{
    let mut r: Vec<LineKind> = Vec::new();
    let mut k: usize = 0;
    while k < n
        invariant
            k <= n,
            r@ == Seq::new(k as nat, |j: int| LineKind::Normal),
        decreases n - k,
    {
        r.push(LineKind::Normal);
        k = k + 1;
        assert(r@ =~= Seq::new(k as nat, |j: int| LineKind::Normal));
    }
    r
}

/// Render `page` to plain-text lines with link and image position metadata.
pub fn render_full(page: &ParsedPage) -> (rp: RenderedPage)
    requires
        renderable(page.dom()),
    ensures
        page_view(rp) == render_full_spec(page.dom()),
{
    let ghost d = page.dom();
    let ctx = render_buffer(page);
    let normalized = normalize(ctx.buf.as_slice());
    let stripped = visible_chars(normalized.as_slice());
    let raw = split_lines(stripped.as_slice());
    let ghost ls = raw@.map_values(|l: Vec<char>| l@);
    assert(ls == marked_lines(d));
    let Ctx { buf, links, images, code_spans, forms, fields, current_form } = ctx;
    let kinds = normal_kinds(raw.len());
    let mut marks = Marks { links, images, kinds, spans: code_spans, fields };
    let ghost st0 = marks_view(marks);
    let mut lines: Vec<String> = Vec::new();
    let mut li: usize = 0;
    while li < raw.len()
        invariant
            ls == raw@.map_values(|l: Vec<char>| l@),
            li <= raw@.len(),
            scan_lines(ls, li as int, marks_view(marks)) == scan_lines(ls, 0, st0),
            strings_view(lines@) == ls.take(li as int).map_values(|l: Seq<char>| unmarked_from(l, 0)),
        decreases raw@.len() - li,
    {
        assert(ls[li as int] == raw@[li as int]@);
        let text = marks.scan_line(raw[li].as_slice(), li);
        let ghost before = strings_view(lines@);
        lines.push(from_chars(text.as_slice()));
        assert(strings_view(lines@) =~= before.push(unmarked_from(ls[li as int], 0)));
        assert(ls.take(li + 1).map_values(|l: Seq<char>| unmarked_from(l, 0)) =~= ls.take(li as int).map_values(
            |l: Seq<char>| unmarked_from(l, 0),
        ).push(unmarked_from(ls[li as int], 0)));
        li = li + 1;
    }
    assert(ls.take(ls.len() as int) =~= ls);
    let Marks { links, images, kinds, spans, fields } = marks;
    RenderedPage { lines, links, images, line_kinds: kinds, code_spans: spans, forms, fields }
}


// ── Laws ──────────────────────────────────────────────────────────────────────

proof fn lemma_unmarked_has_no_marker(s: Seq<char>, i: int)
    ensures
        !unmarked_from(s, i).contains(MARKER),
    decreases s.len() - i,
{
    if 0 <= i < s.len() {
        if s[i] == MARKER {
            lemma_digits_end_range(s, i + 2);
            let j = digits_end(s, i + 2);
            let k = if j < s.len() && s[j] == MARKER { j + 1 } else { j };
            lemma_unmarked_has_no_marker(s, k);
        } else {
            lemma_unmarked_has_no_marker(s, i + 1);
            let rest = unmarked_from(s, i + 1);
            assert(unmarked_from(s, i) == seq![s[i]] + rest);
            if unmarked_from(s, i).contains(MARKER) {
                let k = choose|k: int| 0 <= k < unmarked_from(s, i).len() && unmarked_from(s, i)[k] == MARKER;
                if k > 0 {
                    assert(rest[k - 1] == MARKER);
                }
            }
        }
    }
}

/// The terminal text of a page never holds a position marker.
pub proof fn law_render_has_no_markers(d: Seq<NodeView>)
    ensures
        !render_spec(d).contains(MARKER),
{
    lemma_unmarked_has_no_marker(normalize_spec(render_ctx(d).buf), 0);
}

/// No line of a fully rendered page holds a position marker.
pub proof fn law_full_lines_have_no_markers(d: Seq<NodeView>, k: int)
    requires
        0 <= k < render_full_spec(d).lines.len(),
    ensures
        !render_full_spec(d).lines[k].contains(MARKER),
{
    lemma_unmarked_has_no_marker(marked_lines(d)[k], 0);
}

/// Two scan states hold the same items: only lines, line kinds and code-span
/// offsets may differ.
pub open spec fn same_items(a: ScanState, b: ScanState) -> bool {
    &&& a.links.len() == b.links.len()
    &&& (forall|k: int| 0 <= k < a.links.len() ==> (#[trigger] a.links[k]).0 == b.links[k].0)
    &&& a.images.len() == b.images.len()
    &&& (forall|k: int|
        0 <= k < a.images.len() ==> (#[trigger] a.images[k]).0 == b.images[k].0 && a.images[k].1 == b.images[k].1)
    &&& a.kinds.len() == b.kinds.len()
    &&& a.spans.len() == b.spans.len()
    &&& a.fields.len() == b.fields.len()
    &&& (forall|k: int|
        0 <= k < a.fields.len() ==> {
            let f = #[trigger] a.fields[k];
            let g = b.fields[k];
            f.form_idx == g.form_idx && f.name == g.name && f.kind == g.kind && f.value == g.value
        })
}

proof fn lemma_scan_marks_same_items(s: Seq<char>, pos: int, li: usize, count: nat, st: ScanState)
    ensures
        same_items(st, scan_marks(s, pos, li, count, st)),
    decreases s.len() - pos,
{
    if 0 <= pos < s.len() {
        if s[pos] == MARKER {
            let kind = if pos + 1 < s.len() { s[pos + 1] } else { '?' };
            let ds = digits_start(s, pos);
            let de = digits_end(s, ds);
            lemma_digits_end_range(s, ds);
            let st2 = apply_marker(st, kind, s.subrange(ds, de), li, count as usize);
            lemma_scan_marks_same_items(s, marker_next(s, pos), li, count, st2);
            let r = scan_marks(s, marker_next(s, pos), li, count, st2);
            assert(same_items(st, st2));
            assert forall|k: int| 0 <= k < st.fields.len() implies {
                let f = #[trigger] st.fields[k];
                let g = r.fields[k];
                f.form_idx == g.form_idx && f.name == g.name && f.kind == g.kind && f.value == g.value
            } by {
                assert(st2.fields[k].form_idx == st.fields[k].form_idx);
            }
            assert forall|k: int| 0 <= k < st.links.len() implies (#[trigger] st.links[k]).0 == r.links[k].0 by {
                assert(st2.links[k].0 == st.links[k].0);
            }
            assert forall|k: int| 0 <= k < st.images.len() implies (#[trigger] st.images[k]).0 == r.images[k].0
                && st.images[k].1 == r.images[k].1 by {
                assert(st2.images[k].0 == st.images[k].0);
            }
        } else {
            lemma_scan_marks_same_items(s, pos + 1, li, count + 1, st);
        }
    }
}

proof fn lemma_scan_lines_same_items(ls: Seq<Seq<char>>, k: int, st: ScanState)
    ensures
        same_items(st, scan_lines(ls, k, st)),
    decreases ls.len() - k,
{
    if 0 <= k < ls.len() {
        let st2 = scan_marks(ls[k], 0, k as usize, 0, st);
        lemma_scan_marks_same_items(ls[k], 0, k as usize, 0, st);
        lemma_scan_lines_same_items(ls, k + 1, st2);
        let r = scan_lines(ls, k + 1, st2);
        assert forall|j: int| 0 <= j < st.fields.len() implies {
            let f = #[trigger] st.fields[j];
            let g = r.fields[j];
            f.form_idx == g.form_idx && f.name == g.name && f.kind == g.kind && f.value == g.value
        } by {
            assert(st2.fields[j].form_idx == st.fields[j].form_idx);
        }
        assert forall|j: int| 0 <= j < st.links.len() implies (#[trigger] st.links[j]).0 == r.links[j].0 by {
            assert(st2.links[j].0 == st.links[j].0);
        }
        assert forall|j: int| 0 <= j < st.images.len() implies (#[trigger] st.images[j]).0 == r.images[j].0
            && st.images[j].1 == r.images[j].1 by {
            assert(st2.images[j].0 == st.images[j].0);
        }
    }
}

/// A fully rendered page has one line kind per line, and keeps every link,
/// image, code span and form field that rendering found, in order: placing
/// them on lines changes only their line numbers and offsets.
pub proof fn law_full_keeps_items(d: Seq<NodeView>)
    ensures
        render_full_spec(d).line_kinds.len() == render_full_spec(d).lines.len(),
        render_full_spec(d).links.len() == render_ctx(d).links.len(),
        forall|k: int|
            0 <= k < render_ctx(d).links.len() ==> (#[trigger] render_full_spec(d).links[k]).0
                == render_ctx(d).links[k].0,
        render_full_spec(d).images.len() == render_ctx(d).images.len(),
        render_full_spec(d).code_spans.len() == render_ctx(d).code_spans.len(),
        render_full_spec(d).fields.len() == render_ctx(d).fields.len(),
        forall|k: int|
            0 <= k < render_ctx(d).fields.len() ==> (#[trigger] render_full_spec(d).fields[k]).form_idx
                == render_ctx(d).fields[k].form_idx,
        render_full_spec(d).forms == render_ctx(d).forms,
{
    let cx = render_ctx(d);
    let ls = marked_lines(d);
    let st0 = ScanState {
        links: cx.links,
        images: cx.images,
        kinds: Seq::new(ls.len(), |k: int| LineKind::Normal),
        spans: cx.code_spans,
        fields: cx.fields,
    };
    lemma_scan_lines_same_items(ls, 0, st0);
    let st = scan_lines(ls, 0, st0);
    assert forall|k: int| 0 <= k < cx.links.len() implies (#[trigger] render_full_spec(d).links[k]).0
        == cx.links[k].0 by {
        assert(st0.links[k].0 == st.links[k].0);
    }
    assert forall|k: int| 0 <= k < cx.fields.len() implies (#[trigger] render_full_spec(d).fields[k]).form_idx
        == cx.fields[k].form_idx by {
        assert(st0.fields[k].form_idx == st.fields[k].form_idx);
    }
}


/// Every registered field belongs to a recorded form, and the current form,
/// if any, is a recorded one.
pub open spec fn ctx_ok(c: CtxView) -> bool {
    &&& forall|k: int| 0 <= k < c.fields.len() ==> (#[trigger] c.fields[k]).form_idx < c.forms.len()
    &&& (c.current_form matches Some(f) ==> f < c.forms.len())
}

/// `c2` came from `c` by a step that kept the invariant, recorded forms only
/// at the end, and left the current form as it was.
pub open spec fn ok_step(c: CtxView, c2: CtxView) -> bool {
    &&& ctx_ok(c2)
    &&& c.forms.len() <= c2.forms.len()
    &&& c2.current_form == c.current_form
}

proof fn lemma_register_ok(c: CtxView, name: Seq<char>, kind: KindView, value: Seq<char>)
    requires
        ctx_ok(c),
    ensures
        ok_step(c, cx_register(c, name, kind, value).0),
{
    let c2 = cx_register(c, name, kind, value).0;
    if let Some(f) = c.current_form {
        assert forall|k: int| 0 <= k < c2.fields.len() implies (#[trigger] c2.fields[k]).form_idx < c2.forms.len() by {
            if k < c.fields.len() {
                assert(c2.fields[k] == c.fields[k]);
            }
        }
    }
}

proof fn lemma_leaves_ok(d: Seq<NodeView>, i: int, c: CtxView)
    requires
        ctx_ok(c),
        0 <= i < d.len(),
    ensures
        ok_step(c, img_spec(d[i], c)),
        ok_step(c, input_spec(d[i], c)),
        ok_step(c, button_spec(d, i, c)),
        ok_step(c, textarea_spec(d, i, c)),
        ok_step(c, link_spec(d, i, c)),
        ok_step(c, code_spec(d, i, c)),
        ok_step(c, select_spec(d, i, c)),
{
    let n = d[i];
    let name = attr_or(n, "name"@, ""@);
    let value = attr_or(n, "value"@, ""@);
    lemma_register_ok(c, name, KindView::Submit, value);
    lemma_register_ok(c, name, KindView::Checkbox, value);
    lemma_register_ok(c, name, KindView::Checkbox, ""@);
    lemma_register_ok(c, name, KindView::Radio, value);
    lemma_register_ok(c, name, KindView::Radio, ""@);
    lemma_register_ok(c, name, KindView::Text, value);
    lemma_register_ok(c, attr_or(n, "name"@, "textarea"@), KindView::Textarea, trimmed_text(d, i));
    let st = select_from(d, i, 0, SelectState { chosen: None, options: Seq::empty(), value: Seq::empty() });
    lemma_register_ok(c, name, KindView::Select(st.options), st.value);
    if trimmed_text(d, i).len() > 0 {
        let c1 = CtxView { links: c.links.push((attr_or(n, "href"@, ""@), 0usize)), ..c };
        assert(ctx_ok(c1));
    }
}

proof fn lemma_hidden_fields_ok(d: Seq<NodeView>, i: int, c: CtxView)
    requires
        ctx_ok(c),
    ensures
        ok_step(c, hidden_fields_of(d, i, c)),
    decreases d.len() - i, 1int, 0int,
{
    if 0 <= i < d.len() {
        let c1 = if is_hidden_input(d[i]) {
            cx_register(c, attr_or(d[i], "name"@, ""@), KindView::Hidden, attr_or(d[i], "value"@, ""@)).0
        } else {
            c
        };
        lemma_register_ok(c, attr_or(d[i], "name"@, ""@), KindView::Hidden, attr_or(d[i], "value"@, ""@));
        lemma_hidden_children_ok(d, i, 0, c1);
    }
}

proof fn lemma_hidden_children_ok(d: Seq<NodeView>, i: int, k: int, c: CtxView)
    requires
        ctx_ok(c),
    ensures
        ok_step(c, hidden_fields_children(d, i, k, c)),
    decreases d.len() - i, 0int, d[i].children.len() - k,
{
    if 0 <= i < d.len() && 0 <= k < d[i].children.len() {
        let ch = d[i].children[k] as int;
        let c1 = if i < ch < d.len() {
            hidden_fields_of(d, ch, c)
        } else {
            c
        };
        if i < ch < d.len() {
            lemma_hidden_fields_ok(d, ch, c);
        }
        lemma_hidden_children_ok(d, i, k + 1, c1);
    }
}

proof fn lemma_element_ok(d: Seq<NodeView>, i: int, hs: HiddenView, c: CtxView)
    requires
        ctx_ok(c),
    ensures
        ok_step(c, element_spec(d, i, hs, c)),
    decreases d.len() - i, 1int, 0int,
{
    if 0 <= i < d.len() {
        let n = d[i];
        let tag = n.name;
        if skip_tag(tag) || is_hidden_spec(n, hs) {
        } else if code_tag(tag) {
            lemma_leaves_ok(d, i, c);
        } else {
            let cf = form_open_spec(n, c);
            if tag == "form"@ {
                assert(ctx_ok(cf));
                lemma_hidden_fields_ok(d, i, cf);
            }
            let c1 = if tag == "form"@ {
                hidden_fields_of(d, i, cf)
            } else {
                c
            };
            let c2 = if block_tag(tag) {
                cx_push(c1, seq!['\n'])
            } else {
                c1
            };
            assert(ok_step(c, c1) || (tag == "form"@ && ctx_ok(c1) && c.forms.len() <= c1.forms.len()));
            if tag == "hr"@ {
                reveal_strlit("hr");
                reveal_strlit("form");
                assert(tag != "form"@);
            } else {
                let cp = cx_push(c2, prefix_spec(tag));
                lemma_children_ok(d, i, 0, hs, cp);
                let c3 = children_spec(d, i, 0, hs, cp);
                let c4 = if block_tag(tag) {
                    cx_push(c3, seq!['\n'])
                } else {
                    c3
                };
                assert(ctx_ok(c4));
                if tag == "form"@ {
                    let r = CtxView { current_form: c.current_form, ..c4 };
                    assert(ctx_ok(r));
                }
            }
        }
    }
}

proof fn lemma_children_ok(d: Seq<NodeView>, i: int, k: int, hs: HiddenView, c: CtxView)
    requires
        ctx_ok(c),
    ensures
        ok_step(c, children_spec(d, i, k, hs, c)),
    decreases d.len() - i, 0int, d[i].children.len() - k,
{
    if 0 <= i < d.len() && 0 <= k < d[i].children.len() {
        let ch = d[i].children[k] as int;
        let c1 = if i < ch < d.len() {
            child_spec(d, ch, hs, c)
        } else {
            c
        };
        if i < ch < d.len() {
            lemma_child_ok(d, ch, hs, c);
        }
        lemma_children_ok(d, i, k + 1, hs, c1);
    }
}

proof fn lemma_child_ok(d: Seq<NodeView>, i: int, hs: HiddenView, c: CtxView)
    requires
        ctx_ok(c),
    ensures
        ok_step(c, child_spec(d, i, hs, c)),
    decreases d.len() - i, 2int, 0int,
{
    if 0 <= i < d.len() {
        lemma_leaves_ok(d, i, c);
        lemma_element_ok(d, i, hs, c);
    }
}

/// Every form field of a rendered page belongs to one of its forms: controls
/// outside any `<form>` are not registered.
pub proof fn law_fields_belong_to_forms(d: Seq<NodeView>, k: int)
    requires
        0 <= k < render_full_spec(d).fields.len(),
    ensures
        render_full_spec(d).fields[k].form_idx < render_full_spec(d).forms.len(),
{
    law_full_keeps_items(d);
    let cx = render_ctx(d);
    assert(ctx_ok(ctx_empty()));
    if let Some(r) = root_element(d) {
        lemma_element_ok(d, r, document_hidden(d), ctx_empty());
    }
    assert(render_full_spec(d).fields[k].form_idx == cx.fields[k].form_idx);
}


/// An element marked `aria-hidden="true"`, or with a `hidden` attribute, or
/// with an inline style that hides it, renders nothing: neither its text
/// nor any link, image, code span, form or field inside it reaches the page.
pub proof fn law_hidden_elements_render_nothing(d: Seq<NodeView>, i: int, hs: HiddenView, c: CtxView)
    requires
        0 <= i < d.len(),
        attr_of(d[i].attrs, "aria-hidden"@) == Some("true"@) || has_attr(d[i], "hidden"@) || (match attr_of(
            d[i].attrs,
            "style"@,
        ) {
            Some(st) => style_hides(lower_seq(st)),
            None => false,
        }),
    ensures
        element_spec(d, i, hs, c) == c,
{
}

} // verus!
