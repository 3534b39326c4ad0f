//! Tab management: per-tab content, history, scroll, and link state.

use vstd::prelude::*;

use crate::browser::history::{History, HistoryState};
use crate::chars::{contains_chars, has_infix, lower_seq, to_chars};
use crate::renderer::text::{CodeSpan, FieldKind, FormField, LineKind, RenderedForm, RenderedLink};

verus! {

/// A single focusable item on a page — either a hyperlink or an interactive
/// form field. Used as the `Tab::focused` cursor.
#[derive(Debug, Clone, Copy, PartialEq, Eq, Structural)]
pub enum FocusItem {
    Link(usize),
    Field(usize),
}

/// State for a single browser tab.
pub struct Tab {
    pub url: String,
    pub title: String,
    pub history: History,
    pub lines: Vec<String>,
    pub links: Vec<RenderedLink>,
    pub line_kinds: Vec<LineKind>,
    pub code_spans: Vec<CodeSpan>,
    pub forms: Vec<RenderedForm>,
    pub fields: Vec<FormField>,
    /// Live values for each `fields[i]`, initialised from `fields[i].value` on load.
    pub field_values: Vec<String>,
    pub scroll: usize,
    pub focused: Option<FocusItem>,
    pub loading: bool,
    pub search_matches: Vec<usize>,
    pub search_idx: usize,
}

// ── Focus order ───────────────────────────────────────────────────────────────

/// The focus entries of the first `n` links: (line, link).
pub open spec fn link_entries(links: Seq<RenderedLink>, n: int) -> Seq<(usize, FocusItem)>
    decreases n,
{
    if n <= 0 || n > links.len() {
        Seq::empty()
    } else {
        link_entries(links, n - 1).push((links[n - 1].line, FocusItem::Link((n - 1) as usize)))
    }
}

/// The focus entries of the first `n` fields, hidden fields left out: (line, field).
pub open spec fn field_entries(fields: Seq<FormField>, n: int) -> Seq<(usize, FocusItem)>
    decreases n,
{
    if n <= 0 || n > fields.len() {
        Seq::empty()
    } else if fields[n - 1].kind is Hidden {
        field_entries(fields, n - 1)
    } else {
        field_entries(fields, n - 1).push((fields[n - 1].line, FocusItem::Field((n - 1) as usize)))
    }
}

/// All focusable items with their lines: the links, then the visible fields.
pub open spec fn focus_entries(links: Seq<RenderedLink>, fields: Seq<FormField>) -> Seq<(usize, FocusItem)> {
    link_entries(links, links.len() as int) + field_entries(fields, fields.len() as int)
}

/// `x` placed into `s` after every entry whose line is not greater.
pub open spec fn insert_by_line(s: Seq<(usize, FocusItem)>, x: (usize, FocusItem)) -> Seq<(usize, FocusItem)>
    decreases s.len(),
{
    if s.len() == 0 || s.last().0 <= x.0 {
        s.push(x)
    } else {
        insert_by_line(s.drop_last(), x).push(s.last())
    }
}

/// `s` sorted by line, entries on the same line keeping their order (a
/// stable sort).
pub open spec fn sort_by_line(s: Seq<(usize, FocusItem)>) -> Seq<(usize, FocusItem)>
    decreases s.len(),
{
    if s.len() == 0 {
        s
    } else {
        insert_by_line(sort_by_line(s.drop_last()), s.last())
    }
}

/// All focusable items (links + non-hidden fields) sorted by line number.
pub open spec fn focus_order_spec(links: Seq<RenderedLink>, fields: Seq<FormField>) -> Seq<FocusItem> {
    sort_by_line(focus_entries(links, fields)).map_values(|e: (usize, FocusItem)| e.1)
}

fn insert_entry(v: &mut Vec<(usize, FocusItem)>, x: (usize, FocusItem))
    ensures
        final(v)@ == insert_by_line(old(v)@, x),
    decreases old(v)@.len(),
{
    let n = v.len();
    if n == 0 || v[n - 1].0 <= x.0 {
        v.push(x);
    } else {
        let last = v.pop().unwrap();
        insert_entry(v, x);
        v.push(last);
    }
}

/// A tab that has just been opened on `url`: no title, history, page or
/// search yet, scrolled to the top, nothing focused, and loading.
pub open spec fn fresh_tab(t: Tab, url: Seq<char>) -> bool {
    &&& t.url@ == url
    &&& t.title@ == Seq::<char>::empty()
    &&& t.history@ == (HistoryState { back: Seq::empty(), forward: Seq::empty() })
    &&& t.lines@.len() == 0
    &&& t.links@.len() == 0
    &&& t.line_kinds@.len() == 0
    &&& t.code_spans@.len() == 0
    &&& t.forms@.len() == 0
    &&& t.fields@.len() == 0
    &&& t.field_values@.len() == 0
    &&& t.scroll == 0
    &&& t.focused is None
    &&& t.loading
    &&& t.search_matches@.len() == 0
    &&& t.search_idx == 0
}

impl Tab {
    pub fn new(url: String) -> (t: Self)
        ensures
            fresh_tab(t, url@),
    {
        Self {
            url,
            title: String::new(),
            history: History::new(),
            lines: Vec::new(),
            links: Vec::new(),
            line_kinds: Vec::new(),
            code_spans: Vec::new(),
            forms: Vec::new(),
            fields: Vec::new(),
            field_values: Vec::new(),
            scroll: 0,
            focused: None,
            loading: true,
            search_matches: Vec::new(),
            search_idx: 0,
        }
    }

    /// All focusable items (links + non-hidden fields) sorted by line number.
    pub fn build_focus_order(&self) -> (order: Vec<FocusItem>)
        ensures
            order@ == focus_order_spec(self.links@, self.fields@),
    {
        let mut items: Vec<(usize, FocusItem)> = Vec::new();
        let mut i: usize = 0;
        while i < self.links.len()
            invariant
                i <= self.links@.len(),
                items@ == link_entries(self.links@, i as int),
            decreases self.links@.len() - i,
        {
            items.push((self.links[i].line, FocusItem::Link(i)));
            i = i + 1;
        }
        let ghost from_links = items@;
        let mut j: usize = 0;
        while j < self.fields.len()
            invariant
                j <= self.fields@.len(),
                from_links == link_entries(self.links@, self.links@.len() as int),
                items@ == from_links + field_entries(self.fields@, j as int),
            decreases self.fields@.len() - j,
        {
            match self.fields[j].kind {
                FieldKind::Hidden => {},
                _ => {
                    items.push((self.fields[j].line, FocusItem::Field(j)));
                    assert(items@ =~= from_links + field_entries(self.fields@, j + 1));
                },
            }
            j = j + 1;
        }
        let ghost entries = items@;
        assert(entries == focus_entries(self.links@, self.fields@));
        let mut sorted: Vec<(usize, FocusItem)> = Vec::new();
        let mut k: usize = 0;
        while k < items.len()
            invariant
                k <= entries.len(),
                items@ == entries,
                sorted@ == sort_by_line(entries.take(k as int)),
            decreases entries.len() - k,
        {
            assert(entries.take(k + 1).drop_last() =~= entries.take(k as int));
            insert_entry(&mut sorted, items[k]);
            k = k + 1;
        }
        assert(entries.take(entries.len() as int) =~= entries);
        let mut order: Vec<FocusItem> = Vec::new();
        let mut m: usize = 0;
        while m < sorted.len()
            invariant
                m <= sorted@.len(),
                order@ == sorted@.take(m as int).map_values(|e: (usize, FocusItem)| e.1),
            decreases sorted@.len() - m,
        {
            order.push(sorted[m].1);
            m = m + 1;
            assert(order@ =~= sorted@.take(m as int).map_values(|e: (usize, FocusItem)| e.1));
        }
        assert(sorted@.take(sorted@.len() as int) =~= sorted@);
        order
    }
}


// ── Focus movement ────────────────────────────────────────────────────────────

/// The first index, from `k` on, where `order` holds `x`.
pub open spec fn position_from(order: Seq<FocusItem>, x: FocusItem, k: int) -> Option<int>
    decreases order.len() - k,
{
    if k < 0 || k >= order.len() {
        None
    } else if order[k] == x {
        Some(k)
    } else {
        position_from(order, x, k + 1)
    }
}

/// Where focus moves forward to: the item after the focused one, wrapping
/// round; the first item when nothing (or an item not in the order) is
/// focused.
pub open spec fn next_focus_index(order: Seq<FocusItem>, focused: Option<FocusItem>) -> int {
    match focused {
        None => 0,
        Some(cur) => match position_from(order, cur, 0) {
            Some(p) => (p + 1) % (order.len() as int),
            None => 0,
        },
    }
}

/// Where focus moves back to: the item before the focused one, wrapping
/// round; the last item when nothing (or an item not in the order) is
/// focused.
pub open spec fn prev_focus_index(order: Seq<FocusItem>, focused: Option<FocusItem>) -> int {
    match focused {
        None => order.len() - 1,
        Some(cur) => match position_from(order, cur, 0) {
            Some(p) => if p == 0 {
                order.len() - 1
            } else {
                p - 1
            },
            None => order.len() - 1,
        },
    }
}

/// The line of a focusable item, if it exists.
pub open spec fn item_line(t: Tab, item: FocusItem) -> Option<usize> {
    match item {
        FocusItem::Link(i) => if i < t.links@.len() {
            Some(t.links@[i as int].line)
        } else {
            None
        },
        FocusItem::Field(i) => if i < t.fields@.len() {
            Some(t.fields@[i as int].line)
        } else {
            None
        },
    }
}

/// The tab with `item` focused and scrolled to its line.
pub open spec fn focus_on(t: Tab, item: FocusItem) -> Tab {
    match item_line(t, item) {
        Some(l) => Tab { focused: Some(item), scroll: l, ..t },
        None => Tab { focused: Some(item), ..t },
    }
}

/// The tab after focus moves forward (unchanged when nothing is focusable).
pub open spec fn next_focus_spec(t: Tab) -> Tab {
    let order = focus_order_spec(t.links@, t.fields@);
    if order.len() == 0 {
        t
    } else {
        focus_on(t, order[next_focus_index(order, t.focused)])
    }
}

/// The tab after focus moves back (unchanged when nothing is focusable).
pub open spec fn prev_focus_spec(t: Tab) -> Tab {
    let order = focus_order_spec(t.links@, t.fields@);
    if order.len() == 0 {
        t
    } else {
        focus_on(t, order[prev_focus_index(order, t.focused)])
    }
}

fn position_of(order: &Vec<FocusItem>, x: FocusItem) -> (r: Option<usize>)
    ensures
        match r {
            Some(p) => position_from(order@, x, 0) == Some(p as int) && p < order@.len(),
            None => position_from(order@, x, 0) is None,
        },
{
    let mut k: usize = 0;
    while k < order.len()
        invariant
            k <= order@.len(),
            position_from(order@, x, k as int) == position_from(order@, x, 0),
        decreases order@.len() - k,
    {
        if order[k] == x {
            return Some(k);
        }
        k = k + 1;
    }
    None
}

impl Tab {
    /// Advance focus to the next item in document order, wrapping around.
    pub fn next_focus(&mut self)
        ensures
            *final(self) == next_focus_spec(*old(self)),
    {
        let order = self.build_focus_order();
        if order.len() == 0 {
            return;
        }
        let next_idx = match self.focused {
            None => 0,
            Some(current) => match position_of(&order, current) {
                Some(p) => (p + 1) % order.len(),
                None => 0,
            },
        };
        self.focused = Some(order[next_idx]);
        self.scroll_to_focused();
    }

    /// Retreat focus to the previous item in document order, wrapping around.
    pub fn prev_focus(&mut self)
        ensures
            *final(self) == prev_focus_spec(*old(self)),
    {
        let order = self.build_focus_order();
        if order.len() == 0 {
            return;
        }
        let next_idx = match self.focused {
            None => order.len() - 1,
            Some(current) => match position_of(&order, current) {
                Some(p) => if p == 0 {
                    order.len() - 1
                } else {
                    p - 1
                },
                None => order.len() - 1,
            },
        };
        self.focused = Some(order[next_idx]);
        self.scroll_to_focused();
    }

    fn scroll_to_focused(&mut self)
        requires
            old(self).focused is Some,
        ensures
            *final(self) == focus_on(*old(self), old(self).focused->0),
    {
        let line = match self.focused {
            Some(FocusItem::Link(i)) => if i < self.links.len() {
                Some(self.links[i].line)
            } else {
                None
            },
            Some(FocusItem::Field(i)) => if i < self.fields.len() {
                Some(self.fields[i].line)
            } else {
                None
            },
            None => None,
        };
        if let Some(l) = line {
            self.scroll = l;
        }
    }

    /// Returns the href of the focused link, or `None` if a field (or nothing) is focused.
    pub fn selected_href(&self) -> (r: Option<&str>)
        ensures
            match self.focused {
                Some(FocusItem::Link(i)) => if i < self.links@.len() {
                    r is Some && r->0@ == self.links@[i as int].href@
                } else {
                    r is None
                },
                _ => r is None,
            },
    {
        match self.focused {
            Some(FocusItem::Link(i)) => if i < self.links.len() {
                Some(self.links[i].href.as_str())
            } else {
                None
            },
            _ => None,
        }
    }
}


// ── Form fields ───────────────────────────────────────────────────────────────

/// A field the user types into: a text input or a textarea.
pub open spec fn editable(f: FormField) -> bool {
    f.kind is Text || f.kind is Textarea
}

/// An editable field, in form `filter` when one is given.
pub open spec fn field_fits(f: FormField, filter: Option<usize>) -> bool {
    editable(f) && (filter matches Some(fi) ==> f.form_idx == fi)
}

/// The first index, from `k` on, of a field that fits `filter`.
pub open spec fn first_fitting(fields: Seq<FormField>, filter: Option<usize>, k: int) -> Option<int>
    decreases fields.len() - k,
{
    if k < 0 || k >= fields.len() {
        None
    } else if field_fits(fields[k], filter) {
        Some(k)
    } else {
        first_fitting(fields, filter, k + 1)
    }
}

/// The next editable field after `from` in the same form (wrapping round to
/// the form's first), or — without `from`, or when `from` is no field — the
/// first editable field of any form.
pub open spec fn next_editable_spec(fields: Seq<FormField>, from: Option<usize>) -> Option<int> {
    let start = match from {
        Some(i) => i + 1,
        None => 0,
    };
    let filter = match from {
        Some(i) => if i < fields.len() {
            Some(fields[i as int].form_idx)
        } else {
            None
        },
        None => None,
    };
    match first_fitting(fields, filter, start) {
        Some(x) => Some(x),
        None => first_fitting(fields, filter, 0),
    }
}

fn find_fitting(fields: &Vec<FormField>, filter: Option<usize>, start: usize) -> (r: Option<usize>)
    ensures
        match r {
            Some(x) => first_fitting(fields@, filter, start as int) == Some(x as int),
            None => first_fitting(fields@, filter, start as int) is None,
        },
{
    let mut k = start;
    while k < fields.len()
        invariant
            start <= k,
            first_fitting(fields@, filter, k as int) == first_fitting(fields@, filter, start as int),
        decreases fields@.len() - k,
    {
        let ed = match fields[k].kind {
            FieldKind::Text | FieldKind::Textarea => true,
            _ => false,
        };
        let in_form = match filter {
            Some(fi) => fields[k].form_idx == fi,
            None => true,
        };
        if ed && in_form {
            return Some(k);
        }
        k = k + 1;
    }
    None
}

/// The pairs that a form submits: every named, non-submit field of form
/// `form_idx` among the first `n`, with its live value (empty when it has
/// none); unchecked checkboxes and radios (empty value) are left out.
pub open spec fn query_pairs(fields: Seq<FormField>, values: Seq<String>, form_idx: usize, n: int) -> Seq<
    (Seq<char>, Seq<char>),
>
    decreases n,
{
    if n <= 0 || n > fields.len() {
        Seq::empty()
    } else {
        let prev = query_pairs(fields, values, form_idx, n - 1);
        let f = fields[n - 1];
        let v = if n - 1 < values.len() {
            values[n - 1]@
        } else {
            Seq::empty()
        };
        if f.form_idx != form_idx || f.name@.len() == 0 || f.kind is Submit {
            prev
        } else if (f.kind is Checkbox || f.kind is Radio) && v.len() == 0 {
            prev
        } else {
            prev.push((f.name@, v))
        }
    }
}

/// The `application/x-www-form-urlencoded` serialization of name/value pairs
/// (`form_urlencoded::Serializer`).
pub uninterp spec fn form_urlencoded(pairs: Seq<(Seq<char>, Seq<char>)>) -> Seq<char>;

/// A byte that the form serializer keeps as it is.
pub open spec fn kept_in_form(c: char) -> bool {
    c == '*' || c == '-' || c == '.' || c == '_' || ('0' <= c <= '9') || ('A' <= c <= 'Z') || ('a' <= c <= 'z')
}

pub open spec fn hex_digit(d: int) -> char {
    if d < 10 {
        ((d + 48) as u32) as char
    } else {
        ((d + 55) as u32) as char
    }
}

/// How the form serializer writes one ASCII character: kept, `+` for a
/// space, else `%` and two upper-case hex digits.
pub open spec fn form_encode_ascii(c: char) -> Seq<char> {
    if kept_in_form(c) {
        seq![c]
    } else if c == ' ' {
        seq!['+']
    } else {
        seq!['%', hex_digit((c as int) / 16), hex_digit((c as int) % 16)]
    }
}

pub open spec fn form_encode_str(s: Seq<char>) -> Seq<char>
    decreases s.len(),
{
    if s.len() == 0 {
        Seq::empty()
    } else {
        form_encode_str(s.drop_last()) + form_encode_ascii(s.last())
    }
}

/// Pairs serialized as `name=value`, joined by `&`, for ASCII text.
pub open spec fn ascii_query(pairs: Seq<(Seq<char>, Seq<char>)>) -> Seq<char>
    decreases pairs.len(),
{
    if pairs.len() == 0 {
        Seq::empty()
    } else {
        let prev = ascii_query(pairs.drop_last());
        let sep = if pairs.len() > 1 {
            seq!['&']
        } else {
            Seq::empty()
        };
        prev + sep + form_encode_str(pairs.last().0) + seq!['='] + form_encode_str(pairs.last().1)
    }
}

pub open spec fn all_ascii(s: Seq<char>) -> bool {
    forall|i: int| 0 <= i < s.len() ==> (#[trigger] s[i] as u32) < 128
}

/// Every name and value is ASCII.
pub open spec fn all_ascii_pairs(ps: Seq<(Seq<char>, Seq<char>)>) -> bool {
    forall|k: int| 0 <= k < ps.len() ==> all_ascii(#[trigger] ps[k].0) && all_ascii(ps[k].1)
}

pub open spec fn pairs_view(ps: Seq<(String, String)>) -> Seq<(Seq<char>, Seq<char>)> {
    ps.map_values(|p: (String, String)| (p.0@, p.1@))
}

/// `form_urlencoded::Serializer::new(String::new())`, `extend_pairs` and
/// `finish`: the pairs as a query string. Its result is named by
/// `form_urlencoded`; when every name and value is ASCII it is each pair as
/// `name=value`, joined by `&`, where letters, digits and `*-._` stay, a space
/// becomes `+`, and every other byte `%XX` in upper-case hex, as the crate's
/// source writes them.
#[verifier::external_body]
fn serialize_pairs(pairs: &Vec<(String, String)>) -> (r: String)
    ensures
        r@ == form_urlencoded(pairs_view(pairs@)),
        all_ascii_pairs(pairs_view(pairs@)) ==> r@ == ascii_query(pairs_view(pairs@)),
{
    url::form_urlencoded::Serializer::new(String::new()).extend_pairs(pairs.iter()).finish()
}

fn copy_str(s: &String) -> (r: String)
    ensures
        r@ == s@,
{
    crate::chars::copy_string(s)
}

impl Tab {
    /// Index of the next editable text/textarea field after `from` in the same
    /// form, or — if `from` is None — the first editable field across all forms.
    /// Returns `None` if there are no editable fields.
    pub fn next_editable_field(&self, from: Option<usize>) -> (r: Option<usize>)
        requires
            from matches Some(i) ==> i < usize::MAX,
        ensures
            match r {
                Some(x) => next_editable_spec(self.fields@, from) == Some(x as int),
                None => next_editable_spec(self.fields@, from) is None,
            },
    {
        let (start, filter): (usize, Option<usize>) = match from {
            Some(i) => (i + 1, if i < self.fields.len() {
                Some(self.fields[i].form_idx)
            } else {
                None
            }),
            None => (0, None),
        };
        let after = find_fitting(&self.fields, filter, start);
        if after.is_some() {
            return after;
        }
        find_fitting(&self.fields, filter, 0)
    }

    /// Build a `k=v&k=v` query string for `form_idx`. Includes every named,
    /// non-Submit field (Hidden values + edited text/textarea values + the
    /// `value` of checked checkboxes and the chosen radio/select option).
    /// Submit buttons are excluded — they're the trigger, not data.
    pub fn build_query(&self, form_idx: usize) -> (q: String)
        ensures
            q@ == form_urlencoded(query_pairs(self.fields@, self.field_values@, form_idx, self.fields@.len() as int)),
            all_ascii_pairs(query_pairs(self.fields@, self.field_values@, form_idx, self.fields@.len() as int)) ==> q@
                == ascii_query(query_pairs(self.fields@, self.field_values@, form_idx, self.fields@.len() as int)),
    {
        let mut pairs: Vec<(String, String)> = Vec::new();
        let mut i: usize = 0;
        while i < self.fields.len()
            invariant
                i <= self.fields@.len(),
                pairs_view(pairs@) == query_pairs(self.fields@, self.field_values@, form_idx, i as int),
            decreases self.fields@.len() - i,
        {
            let field = &self.fields[i];
            let v = if i < self.field_values.len() {
                copy_str(&self.field_values[i])
            } else {
                String::new()
            };
            let skip = field.form_idx != form_idx || field.name.as_str().is_empty() || match field.kind {
                FieldKind::Submit => true,
                FieldKind::Checkbox | FieldKind::Radio => v.as_str().is_empty(),
                _ => false,
            };
            if !skip {
                let ghost before = pairs_view(pairs@);
                let ghost pv = (field.name@, v@);
                pairs.push((copy_str(&field.name), v));
                assert(pairs_view(pairs@) =~= before.push(pv));
            }
            i = i + 1;
        }
        serialize_pairs(&pairs)
    }
}


// ── Search and scrolling ──────────────────────────────────────────────────────

/// The Unicode lower-case mapping of `s` (`str::to_lowercase`).
pub uninterp spec fn unicode_lower(s: Seq<char>) -> Seq<char>;

pub open spec fn all_ascii_chars(s: Seq<char>) -> bool {
    forall|i: int| 0 <= i < s.len() ==> (#[trigger] s[i] as u32) < 128
}

/// `str::to_lowercase`. Its result is named by `unicode_lower`; for ASCII
/// text it lower-cases the letters `A`–`Z` and keeps every other character,
/// as the documentation of the Unicode mapping gives it.
#[verifier::external_body]
fn lowercase(s: &str) -> (r: String)
    ensures
        r@ == unicode_lower(s@),
        all_ascii_chars(s@) ==> r@ == lower_seq(s@),
{
    s.to_lowercase()
}

/// The indices, among the first `n` lines, of the lines whose lower-cased
/// text contains `q`.
pub open spec fn matching_lines(lines: Seq<String>, q: Seq<char>, n: int) -> Seq<usize>
    decreases n,
{
    if n <= 0 || n > lines.len() {
        Seq::empty()
    } else if has_infix(unicode_lower(lines[n - 1]@), q) {
        matching_lines(lines, q, n - 1).push((n - 1) as usize)
    } else {
        matching_lines(lines, q, n - 1)
    }
}

/// `a` and `b` agree on everything but the search results, the search index
/// and the scroll position.
pub open spec fn same_but_search(a: Tab, b: Tab) -> bool {
    b == (Tab { search_matches: b.search_matches, search_idx: b.search_idx, scroll: b.scroll, ..a })
}

/// The scroll position at most `n` further down, kept on the last line.
pub open spec fn scrolled_down(scroll: usize, n: usize, lines: nat) -> usize {
    let last: int = if lines == 0 { 0 } else { lines - 1 };
    let target: int = if scroll + n > usize::MAX { usize::MAX as int } else { scroll + n };
    (if target < last { target } else { last }) as usize
}

/// The tab after stepping to the next search match, wrapping round, and
/// scrolling to it (unchanged without matches).
pub open spec fn search_next_spec(t: Tab) -> Tab {
    let n = t.search_matches@.len();
    if n == 0 {
        t
    } else {
        let idx = ((t.search_idx + 1) % (n as int)) as usize;
        Tab { search_idx: idx, scroll: t.search_matches@[idx as int], ..t }
    }
}

/// The tab after stepping to the previous search match, wrapping round, and
/// scrolling to it (unchanged without matches).
pub open spec fn search_prev_spec(t: Tab) -> Tab {
    let n = t.search_matches@.len();
    if n == 0 {
        t
    } else {
        let idx = (if t.search_idx == 0 { n - 1 } else { t.search_idx - 1 }) as usize;
        Tab { search_idx: idx, scroll: t.search_matches@[idx as int], ..t }
    }
}

/// `b` is `a` with its search cleared: no matches, at the start, same scroll.
pub open spec fn cleared(a: Tab, b: Tab) -> bool {
    &&& same_but_search(a, b)
    &&& b.search_matches@.len() == 0
    &&& b.search_idx == 0
    &&& b.scroll == a.scroll
}

/// `b` is `a` after searching for `query`: an empty query clears the
/// search; otherwise the matches are the lines whose lower-cased text holds
/// the lower-cased query, the position is at the first, scrolled to it.
pub open spec fn searched(a: Tab, b: Tab, query: Seq<char>) -> bool {
    if query.len() == 0 {
        cleared(a, b)
    } else {
        &&& same_but_search(a, b)
        &&& b.search_matches@ == matching_lines(a.lines@, unicode_lower(query), a.lines@.len() as int)
        &&& b.search_idx == 0
        &&& b.scroll == (if b.search_matches@.len() > 0 {
            b.search_matches@[0]
        } else {
            a.scroll
        })
    }
}

/// Line `k` is among the matches of `matching_lines` exactly when its
/// lower-cased text contains `q`.
proof fn lemma_matching_lines_has(lines: Seq<String>, q: Seq<char>, n: int, k: int)
    requires
        0 <= n <= lines.len(),
        0 <= k < lines.len(),
        lines.len() <= usize::MAX,
    ensures
        matching_lines(lines, q, n).contains(k as usize) <==> (k < n && has_infix(unicode_lower(lines[k]@), q)),
        forall|j: int| 0 <= j < matching_lines(lines, q, n).len() ==> (#[trigger] matching_lines(lines, q, n)[j]) < n,
    decreases n,
{
    if n > 0 {
        lemma_matching_lines_has(lines, q, n - 1, k);
        let prev = matching_lines(lines, q, n - 1);
        let cur = matching_lines(lines, q, n);
        if has_infix(unicode_lower(lines[n - 1]@), q) {
            assert(cur == prev.push((n - 1) as usize));
            if k == n - 1 {
                assert(cur[prev.len() as int] == k as usize);
            }
            if cur.contains(k as usize) && k != n - 1 {
                let j = choose|j: int| 0 <= j < cur.len() && cur[j] == k as usize;
                if j < prev.len() {
                    assert(prev[j] == cur[j]);
                }
            }
            if prev.contains(k as usize) {
                let j = choose|j: int| 0 <= j < prev.len() && prev[j] == k as usize;
                assert(cur[j] == prev[j]);
            }
        } else if k == n - 1 {
            if prev.contains(k as usize) {
                let j = choose|j: int| 0 <= j < prev.len() && prev[j] == k as usize;
                assert(prev[j] < n - 1);
            }
        }
    }
}

/// Searching ASCII text ignores case on both sides: a line is a match
/// exactly when its lower-cased text contains the lower-cased query, so a
/// query and its lower-cased form find the same lines.
pub proof fn law_search_ignores_case(a: Tab, b: Tab, c: Tab, q: Seq<char>)
    requires
        q.len() > 0,
        all_ascii_chars(q),
        ascii_search(a, b, q),
        ascii_search(a, c, lower_seq(q)),
    ensures
        forall|k: int| 0 <= k < a.lines@.len() && all_ascii_chars(#[trigger] a.lines@[k]@) ==> (
        b.search_matches@.contains(k as usize) <==> c.search_matches@.contains(k as usize)),
{
    assert(lower_seq(lower_seq(q)) =~= lower_seq(q));
    assert(all_ascii_chars(lower_seq(q))) by {
        assert forall|i: int| 0 <= i < lower_seq(q).len() implies (#[trigger] lower_seq(q)[i] as u32) < 128 by {
            assert((q[i] as u32) < 128);
        }
    }
}

/// For an ASCII query, `b`'s matches are the ASCII lines of `a` whose
/// lower-cased text contains the lower-cased query.
pub open spec fn ascii_search(a: Tab, b: Tab, query: Seq<char>) -> bool {
    all_ascii_chars(query) && query.len() > 0 ==> forall|k: int|
        0 <= k < a.lines@.len() && all_ascii_chars(#[trigger] a.lines@[k]@) ==> (b.search_matches@.contains(k as usize)
            <==> has_infix(lower_seq(a.lines@[k]@), lower_seq(query)))
}

impl Tab {
    /// Case-insensitive search; scrolls to first match.
    pub fn search(&mut self, query: &str)
        ensures
            searched(*old(self), *final(self), query@),
            ascii_search(*old(self), *final(self), query@),
    {
        if query.is_empty() {
            self.clear_search();
            return;
        }
        let q = lowercase(query);
        let qc = to_chars(q.as_str());
        let mut matches: Vec<usize> = Vec::new();
        let mut i: usize = 0;
        while i < self.lines.len()
            invariant
                i <= self.lines@.len(),
                qc@ == unicode_lower(query@),
                all_ascii_chars(query@) ==> qc@ == lower_seq(query@),
                matches@ == matching_lines(self.lines@, qc@, i as int),
                forall|k: int|
                    0 <= k < i && all_ascii_chars(#[trigger] self.lines@[k]@) ==> unicode_lower(self.lines@[k]@)
                        == lower_seq(self.lines@[k]@),
            decreases self.lines@.len() - i,
        {
            let l = lowercase(self.lines[i].as_str());
            let lc = to_chars(l.as_str());
            if contains_chars(lc.as_slice(), qc.as_slice()) {
                matches.push(i);
            }
            i = i + 1;
        }
        proof {
            assert forall|k: int|
                0 <= k < self.lines@.len() && all_ascii_chars(#[trigger] self.lines@[k]@) implies (matches@.contains(
                k as usize,
            ) <==> has_infix(unicode_lower(self.lines@[k]@), qc@)) by {
                lemma_matching_lines_has(self.lines@, qc@, self.lines@.len() as int, k);
            }
        }
        self.search_matches = matches;
        self.search_idx = 0;
        if self.search_matches.len() > 0 {
            self.scroll = self.search_matches[0];
        }
    }

    pub fn search_next(&mut self)
        requires
            old(self).search_matches@.len() > 0 ==> old(self).search_idx < usize::MAX,
        ensures
            *final(self) == search_next_spec(*old(self)),
    {
        if self.search_matches.len() == 0 {
            return;
        }
        self.search_idx = (self.search_idx + 1) % self.search_matches.len();
        self.scroll = self.search_matches[self.search_idx];
    }

    pub fn search_prev(&mut self)
        requires
            old(self).search_matches@.len() > 0 ==> old(self).search_idx <= old(self).search_matches@.len(),
        ensures
            *final(self) == search_prev_spec(*old(self)),
    {
        if self.search_matches.len() == 0 {
            return;
        }
        self.search_idx = if self.search_idx == 0 {
            self.search_matches.len() - 1
        } else {
            self.search_idx - 1
        };
        self.scroll = self.search_matches[self.search_idx];
    }

    pub fn clear_search(&mut self)
        ensures
            cleared(*old(self), *final(self)),
    {
        self.search_matches.clear();
        self.search_idx = 0;
    }

    pub fn scroll_down(&mut self, n: usize)
        ensures
            *final(self) == (Tab { scroll: scrolled_down(old(self).scroll, n, old(self).lines@.len()), ..*old(self) }),
    {
        let target = self.scroll.saturating_add(n);
        let last = self.lines.len().saturating_sub(1);
        self.scroll = if target < last { target } else { last };
    }

    pub fn scroll_up(&mut self, n: usize)
        ensures
            *final(self) == (Tab {
                scroll: (if old(self).scroll >= n { (old(self).scroll - n) as usize } else { 0usize }),
                ..*old(self)
            }),
    {
        self.scroll = self.scroll.saturating_sub(n);
    }

    pub fn scroll_to_bottom(&mut self)
        ensures
            *final(self) == (Tab {
                scroll: (if old(self).lines@.len() == 0 { 0 } else { old(self).lines@.len() - 1 }) as usize,
                ..*old(self)
            }),
    {
        self.scroll = self.lines.len().saturating_sub(1);
    }
}

// ── Tab manager ───────────────────────────────────────────────────────────────

/// Manages all open tabs.
pub struct TabManager {
    pub tabs: Vec<Tab>,
    pub active: usize,
}

/// Closing the active tab: with one tab (or none) nothing changes; otherwise
/// the active tab is removed and the one after it (or the new last one)
/// becomes active.
pub open spec fn tab_closed(a: TabManager, b: TabManager) -> bool {
    if a.tabs@.len() <= 1 {
        b == a
    } else {
        &&& b.tabs@ == a.tabs@.remove(a.active as int)
        &&& b.active == (if a.active < b.tabs@.len() {
            a.active
        } else {
            (b.tabs@.len() - 1) as usize
        })
    }
}

impl TabManager {
    /// At least one tab is open and the active one is among them.
    pub open spec fn wf(&self) -> bool {
        self.tabs@.len() >= 1 && self.active < self.tabs@.len()
    }

    pub fn new(initial_url: String) -> (tm: Self)
        ensures
            tm.wf(),
            tm.tabs@.len() == 1,
            tm.active == 0,
            fresh_tab(tm.tabs@[0], initial_url@),
    {
        let mut tabs: Vec<Tab> = Vec::new();
        tabs.push(Tab::new(initial_url));
        Self { tabs, active: 0 }
    }

    pub fn current(&self) -> (t: &Tab)
        requires
            self.active < self.tabs@.len(),
        ensures
            *t == self.tabs@[self.active as int],
    {
        &self.tabs[self.active]
    }

    pub fn current_mut(&mut self) -> (t: &mut Tab)
        requires
            old(self).active < old(self).tabs@.len(),
        ensures
            *t == old(self).tabs@[old(self).active as int],
            final(self).active == old(self).active,
            final(self).tabs@ == old(self).tabs@.update(old(self).active as int, *final(t)),
    {
        &mut self.tabs[self.active]
    }

    /// Open a new tab and switch to it.
    pub fn open_new(&mut self, url: String) -> (idx: usize)
        ensures
            final(self).tabs@.len() == old(self).tabs@.len() + 1,
            final(self).tabs@.take(old(self).tabs@.len() as int) == old(self).tabs@,
            fresh_tab(final(self).tabs@.last(), url@),
            final(self).active == old(self).tabs@.len(),
            idx == final(self).active,
            final(self).wf(),
    {
        self.tabs.push(Tab::new(url));
        assert(self.tabs@.take(old(self).tabs@.len() as int) =~= old(self).tabs@);
        self.active = self.tabs.len() - 1;
        self.active
    }

    /// Switch to tab by 0-based index. No-op if out of range.
    pub fn switch_to(&mut self, idx: usize)
        ensures
            final(self).tabs == old(self).tabs,
            final(self).active == (if idx < old(self).tabs@.len() { idx } else { old(self).active }),
            old(self).wf() ==> final(self).wf(),
    {
        if idx < self.tabs.len() {
            self.active = idx;
        }
    }

    /// Close the active tab. Keeps at least one tab open.
    pub fn close_current(&mut self)
        requires
            old(self).tabs@.len() <= 1 || old(self).active < old(self).tabs@.len(),
        ensures
            tab_closed(*old(self), *final(self)),
            old(self).wf() ==> final(self).wf(),
    {
        if self.tabs.len() <= 1 {
            return;
        }
        self.tabs.remove(self.active);
        let last = self.tabs.len() - 1;
        self.active = if self.active < last { self.active } else { last };
    }
}


// ── Laws ──────────────────────────────────────────────────────────────────────

/// Some entry of `s` holds item `y`.
pub open spec fn has_item(s: Seq<(usize, FocusItem)>, y: FocusItem) -> bool {
    exists|k: int| 0 <= k < s.len() && (#[trigger] s[k]).1 == y
}

/// No item occurs twice.
pub open spec fn items_distinct(s: Seq<(usize, FocusItem)>) -> bool {
    forall|i: int, j: int| 0 <= i < j < s.len() ==> (#[trigger] s[i]).1 != (#[trigger] s[j]).1
}

/// Entries are in order of their lines.
pub open spec fn sorted_by_line(s: Seq<(usize, FocusItem)>) -> bool {
    forall|i: int, j: int| 0 <= i < j < s.len() ==> (#[trigger] s[i]).0 <= (#[trigger] s[j]).0
}

proof fn lemma_insert_shape(s: Seq<(usize, FocusItem)>, x: (usize, FocusItem))
    ensures
        insert_by_line(s, x).len() == s.len() + 1,
        forall|y: FocusItem| #[trigger] has_item(insert_by_line(s, x), y) <==> (has_item(s, y) || x.1 == y),
        forall|p: (usize, FocusItem)| #[trigger] insert_by_line(s, x).contains(p) <==> (s.contains(p) || p == x),
    decreases s.len(),
{
    let r = insert_by_line(s, x);
    if s.len() == 0 || s.last().0 <= x.0 {
        assert forall|y: FocusItem| has_item(r, y) <==> (has_item(s, y) || x.1 == y) by {
            if has_item(s, y) {
                let k = choose|k: int| 0 <= k < s.len() && (#[trigger] s[k]).1 == y;
                assert(r[k] == s[k]);
            }
            if x.1 == y {
                assert(r[s.len() as int] == x);
            }
            if has_item(r, y) {
                let k = choose|k: int| 0 <= k < r.len() && (#[trigger] r[k]).1 == y;
                if k < s.len() {
                    assert(r[k] == s[k]);
                }
            }
        }
        assert forall|p: (usize, FocusItem)| r.contains(p) <==> (s.contains(p) || p == x) by {
            if s.contains(p) {
                let k = choose|k: int| 0 <= k < s.len() && s[k] == p;
                assert(r[k] == s[k]);
            }
            if p == x {
                assert(r[s.len() as int] == x);
            }
            if r.contains(p) {
                let k = choose|k: int| 0 <= k < r.len() && r[k] == p;
                if k < s.len() {
                    assert(r[k] == s[k]);
                }
            }
        }
    } else {
        let d = s.drop_last();
        let l = s.last();
        lemma_insert_shape(d, x);
        let m = insert_by_line(d, x);
        assert forall|y: FocusItem| has_item(r, y) <==> (has_item(s, y) || x.1 == y) by {
            if has_item(s, y) {
                let k = choose|k: int| 0 <= k < s.len() && (#[trigger] s[k]).1 == y;
                if k < d.len() {
                    assert(d[k] == s[k]);
                    assert(has_item(d, y));
                    assert(has_item(m, y));
                    let j = choose|j: int| 0 <= j < m.len() && (#[trigger] m[j]).1 == y;
                    assert(r[j] == m[j]);
                } else {
                    assert(r[m.len() as int] == l);
                }
            }
            if x.1 == y {
                assert(has_item(m, y));
                let j = choose|j: int| 0 <= j < m.len() && (#[trigger] m[j]).1 == y;
                assert(r[j] == m[j]);
            }
            if has_item(r, y) {
                let k = choose|k: int| 0 <= k < r.len() && (#[trigger] r[k]).1 == y;
                if k < m.len() {
                    assert(r[k] == m[k]);
                    assert(has_item(m, y));
                    if has_item(d, y) {
                        let j = choose|j: int| 0 <= j < d.len() && (#[trigger] d[j]).1 == y;
                        assert(s[j] == d[j]);
                    }
                } else {
                    assert(s[s.len() - 1] == l);
                }
            }
        }
        assert forall|p: (usize, FocusItem)| r.contains(p) <==> (s.contains(p) || p == x) by {
            if s.contains(p) {
                let k = choose|k: int| 0 <= k < s.len() && s[k] == p;
                if k < d.len() {
                    assert(d[k] == s[k]);
                    assert(d.contains(p));
                    assert(m.contains(p));
                    let j = choose|j: int| 0 <= j < m.len() && m[j] == p;
                    assert(r[j] == m[j]);
                } else {
                    assert(r[m.len() as int] == l);
                }
            }
            if p == x {
                assert(m.contains(p));
                let j = choose|j: int| 0 <= j < m.len() && m[j] == p;
                assert(r[j] == m[j]);
            }
            if r.contains(p) {
                let k = choose|k: int| 0 <= k < r.len() && r[k] == p;
                if k < m.len() {
                    assert(r[k] == m[k]);
                    assert(m.contains(p));
                    if d.contains(p) {
                        let j = choose|j: int| 0 <= j < d.len() && d[j] == p;
                        assert(s[j] == d[j]);
                    }
                } else {
                    assert(s[s.len() - 1] == l);
                }
            }
        }
    }
}

proof fn lemma_insert_keeps_order(s: Seq<(usize, FocusItem)>, x: (usize, FocusItem))
    requires
        sorted_by_line(s),
    ensures
        sorted_by_line(insert_by_line(s, x)),
    decreases s.len(),
{
    let r = insert_by_line(s, x);
    if s.len() == 0 || s.last().0 <= x.0 {
        assert forall|i: int, j: int| 0 <= i < j < r.len() implies (#[trigger] r[i]).0 <= (#[trigger] r[j]).0 by {
            if j == s.len() {
                if s.len() > 0 {
                    assert(s[i].0 <= s[s.len() - 1].0);
                }
            } else {
                assert(r[i] == s[i] && r[j] == s[j]);
            }
        }
    } else {
        let d = s.drop_last();
        let l = s.last();
        assert(sorted_by_line(d)) by {
            assert forall|i: int, j: int| 0 <= i < j < d.len() implies (#[trigger] d[i]).0 <= (#[trigger] d[j]).0 by {
                assert(d[i] == s[i] && d[j] == s[j]);
            }
        }
        lemma_insert_keeps_order(d, x);
        lemma_insert_shape(d, x);
        let m = insert_by_line(d, x);
        assert forall|i: int, j: int| 0 <= i < j < r.len() implies (#[trigger] r[i]).0 <= (#[trigger] r[j]).0 by {
            if j == m.len() {
                assert(r[i] == m[i]);
                assert(m.contains(m[i]));
                if m[i] != x {
                    assert(d.contains(m[i]));
                    let k = choose|k: int| 0 <= k < d.len() && d[k] == m[i];
                    assert(s[k] == d[k]);
                    assert(s[k].0 <= s[s.len() - 1].0);
                }
            } else {
                assert(r[i] == m[i] && r[j] == m[j]);
            }
        }
    }
}

proof fn lemma_insert_keeps_distinct(s: Seq<(usize, FocusItem)>, x: (usize, FocusItem))
    requires
        items_distinct(s),
        !has_item(s, x.1),
    ensures
        items_distinct(insert_by_line(s, x)),
    decreases s.len(),
{
    let r = insert_by_line(s, x);
    if s.len() == 0 || s.last().0 <= x.0 {
        assert forall|i: int, j: int| 0 <= i < j < r.len() implies (#[trigger] r[i]).1 != (#[trigger] r[j]).1 by {
            if j == s.len() {
                assert(r[i] == s[i]);
            } else {
                assert(r[i] == s[i] && r[j] == s[j]);
            }
        }
    } else {
        let d = s.drop_last();
        let l = s.last();
        assert(items_distinct(d)) by {
            assert forall|i: int, j: int| 0 <= i < j < d.len() implies (#[trigger] d[i]).1 != (#[trigger] d[j]).1 by {
                assert(d[i] == s[i] && d[j] == s[j]);
            }
        }
        assert(!has_item(d, x.1)) by {
            if has_item(d, x.1) {
                let k = choose|k: int| 0 <= k < d.len() && (#[trigger] d[k]).1 == x.1;
                assert(s[k] == d[k]);
            }
        }
        lemma_insert_keeps_distinct(d, x);
        lemma_insert_shape(d, x);
        let m = insert_by_line(d, x);
        assert(!has_item(m, l.1)) by {
            if has_item(d, l.1) {
                let k = choose|k: int| 0 <= k < d.len() && (#[trigger] d[k]).1 == l.1;
                assert(s[k] == d[k]);
                assert(s[k].1 != s[s.len() - 1].1);
            }
            assert(l.1 != x.1) by {
                assert(s[s.len() - 1] == l);
            }
        }
        assert forall|i: int, j: int| 0 <= i < j < r.len() implies (#[trigger] r[i]).1 != (#[trigger] r[j]).1 by {
            if j == m.len() {
                assert(r[i] == m[i]);
            } else {
                assert(r[i] == m[i] && r[j] == m[j]);
            }
        }
    }
}

proof fn lemma_sort_shape(s: Seq<(usize, FocusItem)>)
    ensures
        sort_by_line(s).len() == s.len(),
        sorted_by_line(sort_by_line(s)),
        forall|y: FocusItem| #[trigger] has_item(sort_by_line(s), y) <==> has_item(s, y),
        forall|p: (usize, FocusItem)| #[trigger] sort_by_line(s).contains(p) <==> s.contains(p),
        items_distinct(s) ==> items_distinct(sort_by_line(s)),
    decreases s.len(),
{
    if s.len() > 0 {
        let d = s.drop_last();
        let l = s.last();
        lemma_sort_shape(d);
        let m = sort_by_line(d);
        lemma_insert_shape(m, l);
        lemma_insert_keeps_order(m, l);
        assert forall|y: FocusItem| has_item(s, y) <==> (has_item(d, y) || l.1 == y) by {
            if has_item(s, y) {
                let k = choose|k: int| 0 <= k < s.len() && (#[trigger] s[k]).1 == y;
                if k < d.len() {
                    assert(d[k] == s[k]);
                }
            }
            if has_item(d, y) {
                let k = choose|k: int| 0 <= k < d.len() && (#[trigger] d[k]).1 == y;
                assert(s[k] == d[k]);
            }
            if l.1 == y {
                assert(s[s.len() - 1] == l);
            }
        }
        assert forall|p: (usize, FocusItem)| s.contains(p) <==> (d.contains(p) || l == p) by {
            if s.contains(p) {
                let k = choose|k: int| 0 <= k < s.len() && s[k] == p;
                if k < d.len() {
                    assert(d[k] == s[k]);
                }
            }
            if d.contains(p) {
                let k = choose|k: int| 0 <= k < d.len() && d[k] == p;
                assert(s[k] == d[k]);
            }
            if l == p {
                assert(s[s.len() - 1] == l);
            }
        }
        if items_distinct(s) {
            assert(items_distinct(d)) by {
                assert forall|i: int, j: int| 0 <= i < j < d.len() implies (#[trigger] d[i]).1 != (#[trigger] d[j]).1 by {
                    assert(d[i] == s[i] && d[j] == s[j]);
                }
            }
            assert(!has_item(d, l.1)) by {
                if has_item(d, l.1) {
                    let k = choose|k: int| 0 <= k < d.len() && (#[trigger] d[k]).1 == l.1;
                    assert(s[k] == d[k]);
                    assert(s[k].1 != s[s.len() - 1].1);
                }
            }
            lemma_insert_keeps_distinct(m, l);
        }
    }
}

/// The line of a focusable item (0 when the index is out of range).
pub open spec fn line_of(links: Seq<RenderedLink>, fields: Seq<FormField>, item: FocusItem) -> usize {
    match item {
        FocusItem::Link(i) => if i < links.len() {
            links[i as int].line
        } else {
            0
        },
        FocusItem::Field(i) => if i < fields.len() {
            fields[i as int].line
        } else {
            0
        },
    }
}

/// The items that can take focus: every link, and every field that is not
/// hidden.
pub open spec fn focusable(links: Seq<RenderedLink>, fields: Seq<FormField>, y: FocusItem) -> bool {
    match y {
        FocusItem::Link(i) => i < links.len(),
        FocusItem::Field(i) => i < fields.len() && !(fields[i as int].kind is Hidden),
    }
}

proof fn lemma_link_entries(links: Seq<RenderedLink>, n: int)
    requires
        0 <= n <= links.len(),
        links.len() <= usize::MAX,
    ensures
        link_entries(links, n).len() == n,
        forall|k: int| 0 <= k < n ==> #[trigger] link_entries(links, n)[k] == (links[k].line, FocusItem::Link(k as usize)),
    decreases n,
{
    if n > 0 {
        lemma_link_entries(links, n - 1);
    }
}

proof fn lemma_field_entries(fields: Seq<FormField>, n: int)
    requires
        0 <= n <= fields.len(),
        fields.len() <= usize::MAX,
    ensures
        forall|k: int| 0 <= k < field_entries(fields, n).len() ==> {
            let e = #[trigger] field_entries(fields, n)[k];
            &&& e.1 is Field
            &&& (e.1->Field_0 as int) < n
            &&& !(fields[e.1->Field_0 as int].kind is Hidden)
            &&& e.0 == fields[e.1->Field_0 as int].line
        },
        forall|a: int, b: int|
            0 <= a < b < field_entries(fields, n).len() ==> ((#[trigger] field_entries(fields, n)[a]).1->Field_0 as int)
                < ((#[trigger] field_entries(fields, n)[b]).1->Field_0 as int),
        forall|i: int|
            0 <= i < n && !((#[trigger] fields[i]).kind is Hidden) ==> has_item(field_entries(fields, n), FocusItem::Field(i as usize)),
    decreases n,
{
    if n > 0 {
        lemma_field_entries(fields, n - 1);
        let prev = field_entries(fields, n - 1);
        let cur = field_entries(fields, n);
        if !(fields[n - 1].kind is Hidden) {
            let new_e = (fields[n - 1].line, FocusItem::Field((n - 1) as usize));
            assert(cur == prev.push(new_e));
            assert forall|k: int| 0 <= k < cur.len() implies {
                let e = #[trigger] cur[k];
                &&& e.1 is Field
                &&& (e.1->Field_0 as int) < n
                &&& !(fields[e.1->Field_0 as int].kind is Hidden)
                &&& e.0 == fields[e.1->Field_0 as int].line
            } by {
                if k < prev.len() {
                    assert(cur[k] == prev[k]);
                }
            }
            assert forall|a: int, b: int| 0 <= a < b < cur.len() implies ((#[trigger] cur[a]).1->Field_0 as int) < ((
            #[trigger] cur[b]).1->Field_0 as int) by {
                assert(cur[a] == prev[a]);
                if b < prev.len() {
                    assert(cur[b] == prev[b]);
                }
            }
        }
        assert forall|i: int| 0 <= i < n && !((#[trigger] fields[i]).kind is Hidden) implies has_item(cur, FocusItem::Field(i as usize)) by {
            if i < n - 1 {
                assert(has_item(prev, FocusItem::Field(i as usize)));
                let k = choose|k: int| 0 <= k < prev.len() && (#[trigger] prev[k]).1 == FocusItem::Field(i as usize);
                assert(cur[k] == prev[k]);
            } else {
                assert(cur[prev.len() as int].1 == FocusItem::Field(i as usize));
            }
        }
    }
}

proof fn lemma_entries_facts(links: Seq<RenderedLink>, fields: Seq<FormField>)
    requires
        links.len() <= usize::MAX,
        fields.len() <= usize::MAX,
    ensures
        items_distinct(focus_entries(links, fields)),
        forall|y: FocusItem| #[trigger] has_item(focus_entries(links, fields), y) <==> focusable(links, fields, y),
        forall|p: (usize, FocusItem)| focus_entries(links, fields).contains(p) ==> p.0 == line_of(links, fields, p.1),
{
    let le = link_entries(links, links.len() as int);
    let fe = field_entries(fields, fields.len() as int);
    let e = focus_entries(links, fields);
    lemma_link_entries(links, links.len() as int);
    lemma_field_entries(fields, fields.len() as int);
    assert forall|k: int| 0 <= k < e.len() implies ((#[trigger] e[k]).0 == line_of(links, fields, e[k].1) && focusable(links, fields, e[k].1)) by {
        if k < le.len() {
            assert(e[k] == le[k]);
        } else {
            assert(e[k] == fe[k - le.len()]);
        }
    }
    assert forall|i: int, j: int| 0 <= i < j < e.len() implies (#[trigger] e[i]).1 != (#[trigger] e[j]).1 by {
        if j < le.len() {
            assert(e[i] == le[i] && e[j] == le[j]);
        } else if i < le.len() {
            assert(e[i] == le[i] && e[j] == fe[j - le.len()]);
        } else {
            assert(e[i] == fe[i - le.len()] && e[j] == fe[j - le.len()]);
        }
    }
    assert forall|y: FocusItem| has_item(e, y) <==> focusable(links, fields, y) by {
        if has_item(e, y) {
            let k = choose|k: int| 0 <= k < e.len() && (#[trigger] e[k]).1 == y;
            assert(focusable(links, fields, e[k].1));
        }
        if focusable(links, fields, y) {
            match y {
                FocusItem::Link(i) => {
                    assert(e[i as int] == le[i as int]);
                },
                FocusItem::Field(i) => {
                    let k = choose|k: int| 0 <= k < fe.len() && (#[trigger] fe[k]).1 == FocusItem::Field(i as usize);
                    assert(e[le.len() + k] == fe[k]);
                },
            }
        }
    }
    assert forall|p: (usize, FocusItem)| e.contains(p) implies p.0 == line_of(links, fields, p.1) by {
        let k = choose|k: int| 0 <= k < e.len() && e[k] == p;
        assert(e[k].0 == line_of(links, fields, e[k].1));
    }
}

/// The focus order holds every link and every visible field, each once, in
/// order of their lines.
pub proof fn law_focus_order(links: Seq<RenderedLink>, fields: Seq<FormField>)
    requires
        links.len() <= usize::MAX,
        fields.len() <= usize::MAX,
    ensures
        forall|y: FocusItem| #[trigger] focus_order_spec(links, fields).contains(y) <==> focusable(links, fields, y),
        forall|i: int, j: int|
            0 <= i < j < focus_order_spec(links, fields).len() ==> (#[trigger] focus_order_spec(links, fields)[i])
                != (#[trigger] focus_order_spec(links, fields)[j]),
        forall|i: int, j: int|
            0 <= i < j < focus_order_spec(links, fields).len() ==> line_of(
                links,
                fields,
                #[trigger] focus_order_spec(links, fields)[i],
            ) <= line_of(links, fields, #[trigger] focus_order_spec(links, fields)[j]),
{
    let e = focus_entries(links, fields);
    let srt = sort_by_line(e);
    let order = focus_order_spec(links, fields);
    lemma_entries_facts(links, fields);
    lemma_sort_shape(e);
    assert forall|k: int| 0 <= k < srt.len() implies (#[trigger] srt[k]).0 == line_of(links, fields, srt[k].1) by {
        assert(srt.contains(srt[k]));
    }
    assert forall|y: FocusItem| order.contains(y) <==> focusable(links, fields, y) by {
        if order.contains(y) {
            let k = choose|k: int| 0 <= k < order.len() && order[k] == y;
            assert(srt[k].1 == y);
            assert(has_item(srt, y));
            assert(has_item(e, y));
        }
        if focusable(links, fields, y) {
            assert(has_item(e, y));
            assert(has_item(srt, y));
            let k = choose|k: int| 0 <= k < srt.len() && (#[trigger] srt[k]).1 == y;
            assert(order[k] == y);
        }
    }
    assert forall|i: int, j: int| 0 <= i < j < order.len() implies (#[trigger] order[i]) != (#[trigger] order[j]) by {
        assert(srt[i].1 != srt[j].1);
    }
    assert forall|i: int, j: int| 0 <= i < j < order.len() implies line_of(links, fields, #[trigger] order[i])
        <= line_of(links, fields, #[trigger] order[j]) by {
        assert(srt[i].0 <= srt[j].0);
    }
}

proof fn lemma_wrap_next(p: int, n: int)
    requires
        0 <= p < n,
    ensures
        (p + 1) % n == (if p + 1 < n { p + 1 } else { 0 }),
{
    if p + 1 < n {
        vstd::arithmetic::div_mod::lemma_small_mod((p + 1) as nat, n as nat);
    } else {
        vstd::arithmetic::div_mod::lemma_mod_self_0(n);
    }
}

proof fn lemma_position_distinct(order: Seq<FocusItem>, k: int, j: int)
    requires
        0 <= j <= k < order.len(),
        forall|a: int, b: int| 0 <= a < b < order.len() ==> (#[trigger] order[a]) != (#[trigger] order[b]),
    ensures
        position_from(order, order[k], j) == Some(k),
    decreases k - j,
{
    if j < k {
        assert(order[j] != order[k]);
        lemma_position_distinct(order, k, j + 1);
    }
}

/// Moving focus forward and then back returns to the item that was focused,
/// when it is one of the page's focusable items.
pub proof fn law_next_then_prev(t: Tab)
    requires
        t.focused matches Some(x) && focusable(t.links@, t.fields@, x),
    ensures
        prev_focus_spec(next_focus_spec(t)).focused == t.focused,
{
    let order = focus_order_spec(t.links@, t.fields@);
    assert(t.links.len() == t.links@.len());
    assert(t.fields.len() == t.fields@.len());
    law_focus_order(t.links@, t.fields@);
    let x = t.focused->0;
    assert(order.contains(x));
    let p = choose|p: int| 0 <= p < order.len() && order[p] == x;
    lemma_position_distinct(order, p, 0);
    lemma_wrap_next(p, order.len() as int);
    let q = (p + 1) % (order.len() as int);
    lemma_position_distinct(order, q, 0);
    let t2 = next_focus_spec(t);
    assert(t2.links == t.links && t2.fields == t.fields);
    assert(t2.focused == Some(order[q]));
}

/// Moving focus back and then forward returns to the item that was focused,
/// when it is one of the page's focusable items.
pub proof fn law_prev_then_next(t: Tab)
    requires
        t.focused matches Some(x) && focusable(t.links@, t.fields@, x),
    ensures
        next_focus_spec(prev_focus_spec(t)).focused == t.focused,
{
    let order = focus_order_spec(t.links@, t.fields@);
    assert(t.links.len() == t.links@.len());
    assert(t.fields.len() == t.fields@.len());
    law_focus_order(t.links@, t.fields@);
    let x = t.focused->0;
    assert(order.contains(x));
    let p = choose|p: int| 0 <= p < order.len() && order[p] == x;
    lemma_position_distinct(order, p, 0);
    let q = if p == 0 { order.len() - 1 } else { p - 1 };
    lemma_position_distinct(order, q, 0);
    lemma_wrap_next(q, order.len() as int);
    let t2 = prev_focus_spec(t);
    assert(t2.links == t.links && t2.fields == t.fields);
    assert(t2.focused == Some(order[q]));
}

/// The field that `next_editable_field` picks is editable and, after a field,
/// in that field's form.
pub proof fn law_next_editable_fits(fields: Seq<FormField>, from: Option<usize>)
    ensures
        next_editable_spec(fields, from) matches Some(x) ==> {
            &&& 0 <= x < fields.len()
            &&& editable(fields[x])
            &&& (from matches Some(i) ==> (i < fields.len() ==> fields[x].form_idx == fields[i as int].form_idx))
        },
{
    let start = match from {
        Some(i) => i + 1,
        None => 0,
    };
    let filter = match from {
        Some(i) => if i < fields.len() {
            Some(fields[i as int].form_idx)
        } else {
            None
        },
        None => None,
    };
    lemma_first_fitting(fields, filter, start);
    lemma_first_fitting(fields, filter, 0);
}

proof fn lemma_first_fitting(fields: Seq<FormField>, filter: Option<usize>, k: int)
    ensures
        first_fitting(fields, filter, k) matches Some(x) ==> 0 <= x < fields.len() && field_fits(fields[x], filter),
    decreases fields.len() - k,
{
    if 0 <= k < fields.len() && !field_fits(fields[k], filter) {
        lemma_first_fitting(fields, filter, k + 1);
    }
}

/// Stepping to the next search match and back returns to the same match and
/// scroll position.
pub proof fn law_search_next_then_prev(t: Tab)
    requires
        t.search_matches@.len() > 0,
        t.search_idx < t.search_matches@.len(),
    ensures
        search_prev_spec(search_next_spec(t)).search_idx == t.search_idx,
        search_prev_spec(search_next_spec(t)).scroll == t.search_matches@[t.search_idx as int],
{
    let n = t.search_matches@.len() as int;
    let si = t.search_idx as int;
    assert(t.search_matches.len() == t.search_matches@.len());
    lemma_wrap_next(si, n);
    let t1 = search_next_spec(t);
    assert(t1.search_matches == t.search_matches);
    assert(t1.search_idx as int == (if si + 1 < n { si + 1 } else { 0 }));
    let t2 = search_prev_spec(t1);
    assert(t2.search_idx == t.search_idx);
}

/// Stepping to the previous search match and forward again returns to the
/// same match and scroll position.
pub proof fn law_search_prev_then_next(t: Tab)
    requires
        t.search_matches@.len() > 0,
        t.search_idx < t.search_matches@.len(),
    ensures
        search_next_spec(search_prev_spec(t)).search_idx == t.search_idx,
        search_next_spec(search_prev_spec(t)).scroll == t.search_matches@[t.search_idx as int],
{
    let n = t.search_matches@.len() as int;
    let q = if t.search_idx == 0 { n - 1 } else { t.search_idx - 1 };
    assert(t.search_matches.len() == t.search_matches@.len());
    lemma_wrap_next(q, n);
    let t1 = search_prev_spec(t);
    assert(t1.search_matches == t.search_matches);
    assert(t1.search_idx as int == q);
    let t2 = search_next_spec(t1);
    assert(t2.search_idx == t.search_idx);
}

} // verus!
