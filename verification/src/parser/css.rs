//! CSS extraction: find rules that hide elements (display:none, visibility:hidden).
//!
//! Handles inline `<style>` blocks with simple selectors only (`.class`, `#id`,
//! or bare `tag`). Compound selectors, combinators, attribute selectors, and
//! pseudo-classes are intentionally skipped to avoid mismatching.

use vstd::prelude::*;

use crate::parser::dom::{subtree_text, Dom, NodeKind, NodeView};
use crate::chars::{
    char_is_alphanumeric, char_is_ascii_alpha, char_is_digit, char_is_space, chars_eq, contains_char, count_char, count_of,
    from_chars, has_prefix, is_ascii_alpha, is_digit, is_space, lower_chars, lower_seq, slice_chars, starts_with,
    to_chars, trim_chars, trim_seq, unicode_alphanumeric,
};

verus! {

/// Class names, IDs, and tag names that should be hidden from rendering.
/// No name is listed twice in one list.
#[derive(Debug, Clone)]
pub struct HiddenSet {
    pub classes: Vec<String>,
    pub ids: Vec<String>,
    pub tags: Vec<String>,
}

/// The three sets of hidden names: classes, ids, tags.
pub struct HiddenView {
    pub classes: Set<Seq<char>>,
    pub ids: Set<Seq<char>>,
    pub tags: Set<Seq<char>>,
}

pub open spec fn names_of(v: Seq<String>) -> Set<Seq<char>> {
    v.map_values(|s: String| s@).to_set()
}

/// No name occurs twice in the list.
pub open spec fn names_distinct(v: Seq<String>) -> bool {
    forall|i: int, j: int| 0 <= i < j < v.len() ==> (#[trigger] v[i])@ != (#[trigger] v[j])@
}

impl View for HiddenSet {
    type V = HiddenView;

    open spec fn view(&self) -> HiddenView {
        HiddenView {
            classes: names_of(self.classes@),
            ids: names_of(self.ids@),
            tags: names_of(self.tags@),
        }
    }
}

impl HiddenSet {
    pub open spec fn wf(&self) -> bool {
        &&& names_distinct(self.classes@)
        &&& names_distinct(self.ids@)
        &&& names_distinct(self.tags@)
    }

    /// Empty hidden set — useful for tests and explicit no-CSS mode.
    pub fn empty() -> (s: Self)
        ensures
            s.wf(),
            s@.classes == Set::<Seq<char>>::empty(),
            s@.ids == Set::<Seq<char>>::empty(),
            s@.tags == Set::<Seq<char>>::empty(),
    {
        let s = HiddenSet { classes: Vec::new(), ids: Vec::new(), tags: Vec::new() };
        assert(s@.classes =~= Set::<Seq<char>>::empty());
        assert(s@.ids =~= Set::<Seq<char>>::empty());
        assert(s@.tags =~= Set::<Seq<char>>::empty());
        s
    }

    pub fn is_empty(&self) -> (b: bool)
        ensures
            b == (self@.classes.is_empty() && self@.ids.is_empty() && self@.tags.is_empty()),
    {
        proof {
            lemma_names_empty(self.classes@);
            lemma_names_empty(self.ids@);
            lemma_names_empty(self.tags@);
        }
        self.classes.len() == 0 && self.ids.len() == 0 && self.tags.len() == 0
    }
}

proof fn lemma_names_empty(v: Seq<String>)
    ensures
        names_of(v).is_empty() <==> v.len() == 0,
{
    if v.len() > 0 {
        assert(v.map_values(|s: String| s@)[0] == v[0]@);
        assert(v.map_values(|s: String| s@).contains(v[0]@));
        assert(names_of(v).contains(v[0]@));
    } else {
        assert(names_of(v) =~= Set::<Seq<char>>::empty());
    }
}

/// `true` when some name in the list equals `name`.
pub fn list_contains(v: &Vec<String>, name: &[char]) -> (b: bool)
    ensures
        b == names_of(v@).contains(name@),
{
    let mut i: usize = 0;
    while i < v.len()
        invariant
            i <= v@.len(),
            forall|k: int| 0 <= k < i ==> (#[trigger] v@[k])@ != name@,
        decreases v@.len() - i,
    {
        let cs = to_chars(v[i].as_str());
        if chars_eq(cs.as_slice(), name) {
            assert(v@.map_values(|s: String| s@)[i as int] == name@);
            return true;
        }
        i = i + 1;
    }
    assert(!names_of(v@).contains(name@)) by {
        if names_of(v@).contains(name@) {
            let vs = v@.map_values(|s: String| s@);
            assert(vs.contains(name@));
            let k = choose|k: int| 0 <= k < vs.len() && vs[k] == name@;
            assert(v@[k]@ == name@);
        }
    }
    false
}

/// Adds `name` to the list unless it is already there.
pub fn insert_name(v: &mut Vec<String>, name: &[char])
    requires
        names_distinct(old(v)@),
    ensures
        names_distinct(final(v)@),
        names_of(final(v)@) == names_of(old(v)@).insert(name@),
{
    if !list_contains(v, name) {
        let s = from_chars(name);
        v.push(s);
        let ghost vs = v@.map_values(|s: String| s@);
        let ghost os = old(v)@.map_values(|s: String| s@);
        assert(vs =~= os.push(name@));
        assert forall|x: Seq<char>| vs.contains(x) <==> (os.contains(x) || x == name@) by {
            if vs.contains(x) {
                let k = choose|k: int| 0 <= k < vs.len() && vs[k] == x;
                if k < os.len() {
                    assert(os[k] == x);
                }
            }
            if os.contains(x) {
                let k = choose|k: int| 0 <= k < os.len() && os[k] == x;
                assert(vs[k] == x);
            }
            if x == name@ {
                assert(vs[os.len() as int] == x);
            }
        }
        assert(names_of(v@) =~= names_of(old(v)@).insert(name@));
        assert forall|i: int, j: int| 0 <= i < j < v@.len() implies (#[trigger] v@[i])@ != (#[trigger] v@[j])@ by {
            if j == old(v)@.len() {
                assert(old(v)@.map_values(|s: String| s@)[i] == v@[i]@);
                assert(names_of(old(v)@).contains(v@[i]@));
            } else {
                assert(v@[i] == old(v)@[i]);
                assert(v@[j] == old(v)@[j]);
            }
        }
    } else {
        assert(names_of(old(v)@).contains(name@));
        assert(names_of(v@) =~= names_of(old(v)@).insert(name@));
    }
}

// ── Comment stripping ─────────────────────────────────────────────────────────

/// Scanning from `k`, the position just past the first `*/`, or the end.
pub open spec fn comment_end(s: Seq<char>, k: int) -> int
    decreases s.len() - k,
{
    if k < 0 || k >= s.len() {
        s.len() as int
    } else if s[k] == '*' && k + 1 < s.len() && s[k + 1] == '/' {
        k + 2
    } else {
        comment_end(s, k + 1)
    }
}

pub proof fn lemma_comment_end_range(s: Seq<char>, k: int)
    requires
        0 <= k <= s.len(),
    ensures
        k <= comment_end(s, k) <= s.len(),
    decreases s.len() - k,
{
    if k < s.len() && !(s[k] == '*' && k + 1 < s.len() && s[k + 1] == '/') {
        lemma_comment_end_range(s, k + 1);
    }
}

/// `s` from position `i` on with every `/* ... */` comment removed (an
/// unterminated comment runs to the end).
pub open spec fn uncommented_from(s: Seq<char>, i: int) -> Seq<char>
    decreases s.len() - i,
{
    if i < 0 || i >= s.len() {
        Seq::empty()
    } else if s[i] == '/' && i + 1 < s.len() && s[i + 1] == '*' {
        let e = comment_end(s, i + 2);
        proof {
            lemma_comment_end_range(s, i + 2);
        }
        uncommented_from(s, e)
    } else {
        seq![s[i]] + uncommented_from(s, i + 1)
    }
}

pub open spec fn uncommented(s: Seq<char>) -> Seq<char> {
    uncommented_from(s, 0)
}

/// Strip `/* ... */` comments from a stylesheet.
pub fn strip_comments(css: &[char]) -> (out: Vec<char>)
    ensures
        out@ == uncommented(css@),
{
    let mut out: Vec<char> = Vec::new();
    let mut i: usize = 0;
    while i < css.len()
        invariant
            i <= css@.len(),
            css@.len() == css.len(),
            out@ + uncommented_from(css@, i as int) == uncommented(css@),
        decreases css@.len() - i,
    {
        if css[i] == '/' && i + 1 < css.len() && css[i + 1] == '*' {
            let mut k: usize = i + 2;
            while k < css.len() && !(css[k] == '*' && k + 1 < css.len() && css[k + 1] == '/')
                invariant
                    i + 2 <= k <= css@.len(),
                    css@.len() == css.len(),
                    comment_end(css@, k as int) == comment_end(css@, i + 2),
                decreases css@.len() - k,
            {
                k = k + 1;
            }
            let e = if k < css.len() {
                k + 2
            } else {
                css.len()
            };
            assert(e == comment_end(css@, i + 2));
            i = e;
        } else {
            let ghost before = out@;
            out.push(css[i]);
            assert(out@ + uncommented_from(css@, i + 1) =~= before + uncommented_from(css@, i as int));
            i = i + 1;
        }
    }
    assert(out@ + uncommented_from(css@, i as int) =~= out@);
    out
}

// ── Block matching ────────────────────────────────────────────────────────────

/// Scanning from `k` with `depth` braces open: the position just past the
/// brace that closes the outermost one, or the end when it is never closed.
pub open spec fn balanced_end(c: Seq<char>, k: int, depth: int) -> int
    decreases c.len() - k,
{
    if k < 0 || k >= c.len() {
        c.len() as int
    } else if c[k] == '{' {
        balanced_end(c, k + 1, depth + 1)
    } else if c[k] == '}' {
        if depth - 1 == 0 {
            k + 1
        } else {
            balanced_end(c, k + 1, depth - 1)
        }
    } else {
        balanced_end(c, k + 1, depth)
    }
}

pub proof fn lemma_balanced_end_range(c: Seq<char>, k: int, depth: int)
    requires
        0 <= k <= c.len(),
    ensures
        k <= balanced_end(c, k, depth) <= c.len(),
        k < c.len() ==> k < balanced_end(c, k, depth),
    decreases c.len() - k,
{
    if k < c.len() {
        if c[k] == '{' {
            lemma_balanced_end_range(c, k + 1, depth + 1);
        } else if c[k] == '}' {
            if depth - 1 != 0 {
                lemma_balanced_end_range(c, k + 1, depth - 1);
            }
        } else {
            lemma_balanced_end_range(c, k + 1, depth);
        }
    }
}

/// Given index of an opening `{`, return index just past the matching `}`.
pub fn skip_balanced(chars: &[char], open_idx: usize) -> (r: usize)
    requires
        open_idx < chars@.len(),
        chars@[open_idx as int] == '{',
    ensures
        r == balanced_end(chars@, open_idx as int, 0),
        open_idx < r <= chars@.len(),
{
    proof {
        lemma_balanced_end_range(chars@, open_idx as int, 0);
    }
    let mut depth: usize = 0;
    let mut i = open_idx;
    while i < chars.len()
        invariant
            open_idx <= i <= chars@.len(),
            chars@.len() == chars.len(),
            chars@[open_idx as int] == '{',
            i > open_idx ==> depth >= 1,
            i == open_idx ==> depth == 0,
            depth <= i - open_idx,
            balanced_end(chars@, i as int, depth as int) == balanced_end(chars@, open_idx as int, 0),
        decreases chars@.len() - i,
    {
        if chars[i] == '{' {
            depth = depth + 1;
        } else if chars[i] == '}' {
            depth = depth - 1;
            if depth == 0 {
                return i + 1;
            }
        }
        i = i + 1;
    }
    chars.len()
}

// ── Declarations ──────────────────────────────────────────────────────────────

/// The first position at or after `k` that holds `d`, or the end.
pub open spec fn first_index(s: Seq<char>, d: char, k: int) -> int
    decreases s.len() - k,
{
    if k < 0 || k >= s.len() {
        s.len() as int
    } else if s[k] == d {
        k
    } else {
        first_index(s, d, k + 1)
    }
}

pub proof fn lemma_first_index_range(s: Seq<char>, d: char, k: int)
    requires
        0 <= k <= s.len(),
    ensures
        k <= first_index(s, d, k) <= s.len(),
        first_index(s, d, k) < s.len() ==> s[first_index(s, d, k)] == d,
        forall|j: int| k <= j < first_index(s, d, k) ==> s[j] != d,
    decreases s.len() - k,
{
    if k < s.len() && s[k] != d {
        lemma_first_index_range(s, d, k + 1);
    }
}

fn find_char(s: &[char], d: char, k: usize) -> (r: usize)
    requires
        k <= s@.len(),
    ensures
        r == first_index(s@, d, k as int),
        k <= r <= s@.len(),
{
    proof {
        lemma_first_index_range(s@, d, k as int);
    }
    let mut i = k;
    while i < s.len() && s[i] != d
        invariant
            k <= i <= s@.len(),
            first_index(s@, d, i as int) == first_index(s@, d, k as int),
        decreases s@.len() - i,
    {
        i = i + 1;
    }
    i
}

pub open spec fn word_display() -> Seq<char> {
    seq!['d', 'i', 's', 'p', 'l', 'a', 'y']
}

pub open spec fn word_none() -> Seq<char> {
    seq!['n', 'o', 'n', 'e']
}

pub open spec fn word_visibility() -> Seq<char> {
    seq!['v', 'i', 's', 'i', 'b', 'i', 'l', 'i', 't', 'y']
}

pub open spec fn word_hidden() -> Seq<char> {
    seq!['h', 'i', 'd', 'd', 'e', 'n']
}

/// One `property: value` declaration hides the element: `display: none…` or
/// `visibility: hidden…`, ignoring case and surrounding white space.
pub open spec fn decl_hides(d: Seq<char>) -> bool {
    let p = first_index(d, ':', 0);
    p < d.len() && {
        let prop = lower_seq(trim_seq(d.subrange(0, p)));
        let val = lower_seq(trim_seq(d.subrange(p + 1, d.len() as int)));
        (prop == word_display() && has_prefix(val, word_none())) || (prop == word_visibility()
            && has_prefix(val, word_hidden()))
    }
}

/// Some `;`-separated declaration of `b`, from position `i` on, hides.
pub open spec fn decls_hide_from(b: Seq<char>, i: int) -> bool
    decreases b.len() - i,
{
    if i < 0 || i > b.len() {
        false
    } else {
        let e = first_index(b, ';', i);
        proof {
            lemma_first_index_range(b, ';', i);
        }
        decl_hides(b.subrange(i, e)) || (e < b.len() && decls_hide_from(b, e + 1))
    }
}

/// `true` if `block` contains `display: none` or `visibility: hidden`.
pub open spec fn block_hides(b: Seq<char>) -> bool {
    decls_hide_from(b, 0)
}

fn literal(s: &str) -> (r: Vec<char>)
    ensures
        r@ == s@,
{
    to_chars(s)
}

fn decl_hides_exec(d: &[char]) -> (b: bool)
    ensures
        b == decl_hides(d@),
{
    let p = find_char(d, ':', 0);
    if p >= d.len() {
        return false;
    }
    let prop_raw = slice_chars(d, 0, p);
    let val_raw = slice_chars(d, p + 1, d.len());
    let prop = lower_chars(&trim_chars(prop_raw.as_slice()));
    let val = lower_chars(&trim_chars(val_raw.as_slice()));
    let w_display = literal("display");
    let w_none = literal("none");
    let w_visibility = literal("visibility");
    let w_hidden = literal("hidden");
    proof {
        reveal_strlit("display");
        reveal_strlit("none");
        reveal_strlit("visibility");
        reveal_strlit("hidden");
        assert(w_display@ =~= word_display());
        assert(w_none@ =~= word_none());
        assert(w_visibility@ =~= word_visibility());
        assert(w_hidden@ =~= word_hidden());
    }
    if chars_eq(prop.as_slice(), w_display.as_slice()) && starts_with(val.as_slice(), w_none.as_slice()) {
        return true;
    }
    if chars_eq(prop.as_slice(), w_visibility.as_slice()) && starts_with(val.as_slice(), w_hidden.as_slice()) {
        return true;
    }
    false
}

/// `true` if `block` contains `display: none` or `visibility: hidden`.
pub fn has_hide_decl(block: &[char]) -> (b: bool)
    ensures
        b == block_hides(block@),
{
    let mut i: usize = 0;
    loop
        invariant
            i <= block@.len(),
            block_hides(block@) == decls_hide_from(block@, i as int),
        decreases block@.len() - i,
    {
        let e = find_char(block, ';', i);
        let decl = slice_chars(block, i, e);
        if decl_hides_exec(decl.as_slice()) {
            return true;
        }
        if e >= block.len() {
            return false;
        }
        i = e + 1;
    }
}

// ── Selectors ─────────────────────────────────────────────────────────────────

pub open spec fn hv_class(hs: HiddenView, n: Seq<char>) -> HiddenView {
    HiddenView { classes: hs.classes.insert(n), ..hs }
}

pub open spec fn hv_id(hs: HiddenView, n: Seq<char>) -> HiddenView {
    HiddenView { ids: hs.ids.insert(n), ..hs }
}

pub open spec fn hv_tag(hs: HiddenView, n: Seq<char>) -> HiddenView {
    HiddenView { tags: hs.tags.insert(n), ..hs }
}

/// A character that makes a selector more than a simple one: white space
/// (combinator), `>`, `+`, `~`, `[` (attribute) or `:` (pseudo-class).
pub open spec fn is_combining(c: char) -> bool {
    c == ' ' || c == '>' || c == '+' || c == '~' || c == '[' || c == ':'
}

pub open spec fn ident_char(c: char) -> bool {
    unicode_alphanumeric(c) || c == '-' || c == '_'
}

pub open spec fn valid_ident(s: Seq<char>) -> bool {
    s.len() > 0 && forall|i: int| 0 <= i < s.len() ==> ident_char(#[trigger] s[i])
}

/// A tag name: an ASCII letter followed by ASCII letters or digits (`p`,
/// `aside`, `h1`).
pub open spec fn tag_name(s: Seq<char>) -> bool {
    &&& s.len() > 0
    &&& is_ascii_alpha(s[0])
    &&& forall|i: int| 0 <= i < s.len() ==> (is_ascii_alpha(#[trigger] s[i]) || is_digit(s[i]))
}

/// A selector is simple when it has no combining character, at most one `.`,
/// at most one `#`, and not both.
pub open spec fn is_simple(s: Seq<char>) -> bool {
    &&& !(exists|i: int| 0 <= i < s.len() && is_combining(#[trigger] s[i]))
    &&& count_char(s, '.') <= 1
    &&& count_char(s, '#') <= 1
    &&& !(s.contains('.') && s.contains('#'))
}

/// What one selector adds: `.foo` hides class `foo`, `#bar` hides id `bar`, a
/// `tag` hides that tag (lower-cased). Anything else adds nothing.
pub open spec fn add_selector_spec(sel: Seq<char>, hs: HiddenView) -> HiddenView {
    let s = trim_seq(sel);
    if s.len() == 0 || !is_simple(s) {
        hs
    } else if s[0] == '.' {
        if valid_ident(s.drop_first()) {
            hv_class(hs, s.drop_first())
        } else {
            hs
        }
    } else if s[0] == '#' {
        if valid_ident(s.drop_first()) {
            hv_id(hs, s.drop_first())
        } else {
            hs
        }
    } else if tag_name(s) {
        hv_tag(hs, lower_seq(s))
    } else {
        hs
    }
}

fn has_combining(s: &[char]) -> (b: bool)
    ensures
        b == exists|i: int| 0 <= i < s@.len() && is_combining(#[trigger] s@[i]),
{
    let mut i: usize = 0;
    while i < s.len()
        invariant
            i <= s@.len(),
            forall|k: int| 0 <= k < i ==> !is_combining(#[trigger] s@[k]),
        decreases s@.len() - i,
    {
        let c = s[i];
        if c == ' ' || c == '>' || c == '+' || c == '~' || c == '[' || c == ':' {
            assert(is_combining(s@[i as int]));
            return true;
        }
        i = i + 1;
    }
    false
}

fn is_valid_ident(s: &[char]) -> (b: bool)
    ensures
        b == valid_ident(s@),
{
    if s.len() == 0 {
        return false;
    }
    let mut i: usize = 0;
    while i < s.len()
        invariant
            i <= s@.len(),
            forall|k: int| 0 <= k < i ==> ident_char(#[trigger] s@[k]),
        decreases s@.len() - i,
    {
        let c = s[i];
        if !(char_is_alphanumeric(c) || c == '-' || c == '_') {
            assert(!ident_char(s@[i as int]));
            return false;
        }
        i = i + 1;
    }
    true
}

fn is_tag_name(s: &[char]) -> (b: bool)
    ensures
        b == tag_name(s@),
{
    if s.len() == 0 || !char_is_ascii_alpha(s[0]) {
        return false;
    }
    let mut i: usize = 0;
    while i < s.len()
        invariant
            i <= s@.len(),
            forall|k: int| 0 <= k < i ==> (is_ascii_alpha(#[trigger] s@[k]) || is_digit(s@[k])),
        decreases s@.len() - i,
    {
        if !(char_is_ascii_alpha(s[i]) || char_is_digit(s[i])) {
            assert(!(is_ascii_alpha(s@[i as int]) || is_digit(s@[i as int])));
            return false;
        }
        i = i + 1;
    }
    true
}

/// Accept only simple selectors: `.foo`, `#bar`, or `tag`.
/// Reject compound (`.a.b`), combinators (`a b`, `a>b`), attribute selectors, pseudos.
pub fn add_simple_selector(sel: &[char], set: &mut HiddenSet)
    requires
        old(set).wf(),
    ensures
        final(set).wf(),
        final(set)@ == add_selector_spec(sel@, old(set)@),
{
    let s = trim_chars(sel);
    if s.len() == 0 {
        return;
    }
    if has_combining(s.as_slice()) || count_of(s.as_slice(), '.') > 1 || count_of(s.as_slice(), '#') > 1
        || (contains_char(s.as_slice(), '.') && contains_char(s.as_slice(), '#')) {
        return;
    }
    if s[0] == '.' {
        let rest = slice_chars(s.as_slice(), 1, s.len());
        assert(rest@ =~= s@.drop_first());
        if is_valid_ident(rest.as_slice()) {
            insert_name(&mut set.classes, rest.as_slice());
        }
    } else if s[0] == '#' {
        let rest = slice_chars(s.as_slice(), 1, s.len());
        assert(rest@ =~= s@.drop_first());
        if is_valid_ident(rest.as_slice()) {
            insert_name(&mut set.ids, rest.as_slice());
        }
    } else if is_tag_name(s.as_slice()) {
        let low = lower_chars(&s);
        insert_name(&mut set.tags, low.as_slice());
    }
}

/// What the comma-separated selector list `t`, from position `i` on, adds.
pub open spec fn add_selectors_from(t: Seq<char>, i: int, hs: HiddenView) -> HiddenView
    decreases t.len() - i,
{
    if i < 0 || i > t.len() {
        hs
    } else {
        let e = first_index(t, ',', i);
        proof {
            lemma_first_index_range(t, ',', i);
        }
        let hs2 = add_selector_spec(t.subrange(i, e), hs);
        if e < t.len() {
            add_selectors_from(t, e + 1, hs2)
        } else {
            hs2
        }
    }
}

fn add_selector_list(t: &[char], set: &mut HiddenSet)
    requires
        old(set).wf(),
    ensures
        final(set).wf(),
        final(set)@ == add_selectors_from(t@, 0, old(set)@),
{
    let mut i: usize = 0;
    loop
        invariant
            i <= t@.len(),
            set.wf(),
            add_selectors_from(t@, i as int, set@) == add_selectors_from(t@, 0, old(set)@),
        decreases t@.len() - i,
    {
        let e = find_char(t, ',', i);
        let one = slice_chars(t, i, e);
        add_simple_selector(one.as_slice(), set);
        if e >= t.len() {
            return;
        }
        i = e + 1;
    }
}

// ── Stylesheets ───────────────────────────────────────────────────────────────

/// The first position at or after `k` that is not white space, or the end.
pub open spec fn skip_space(c: Seq<char>, k: int) -> int
    decreases c.len() - k,
{
    if k < 0 || k >= c.len() {
        k
    } else if is_space(c[k]) {
        skip_space(c, k + 1)
    } else {
        k
    }
}

pub proof fn lemma_skip_space_range(c: Seq<char>, k: int)
    requires
        0 <= k,
    ensures
        k <= skip_space(c, k),
        k <= c.len() ==> skip_space(c, k) <= c.len(),
    decreases c.len() - k,
{
    if k < c.len() && is_space(c[k]) {
        lemma_skip_space_range(c, k + 1);
    }
}

/// The first position at or after `k` that holds `a` or `b`, or the end.
pub open spec fn first_of(c: Seq<char>, a: char, b: char, k: int) -> int
    decreases c.len() - k,
{
    if k < 0 || k >= c.len() {
        c.len() as int
    } else if c[k] == a || c[k] == b {
        k
    } else {
        first_of(c, a, b, k + 1)
    }
}

pub proof fn lemma_first_of_range(c: Seq<char>, a: char, b: char, k: int)
    requires
        0 <= k <= c.len(),
    ensures
        k <= first_of(c, a, b, k) <= c.len(),
        first_of(c, a, b, k) < c.len() ==> (c[first_of(c, a, b, k)] == a || c[first_of(c, a, b, k)] == b),
    decreases c.len() - k,
{
    if k < c.len() && !(c[k] == a || c[k] == b) {
        lemma_first_of_range(c, a, b, k + 1);
    }
}

/// Reading the (comment-free) stylesheet `c` from position `i` on, starting
/// from the hidden set `hs`: what has been added to `hs` by its end.
///
/// At-rules are skipped whole (`@x ...;` or `@x ... { ... }`); a stray `}` is
/// skipped; a rule `selectors { declarations }` whose declarations hide adds
/// each of its comma-separated simple selectors. A block left open at the
/// end reaches to the end of the sheet, its last character dropped as if it
/// were the closing `}`; a `{` that is the last character opens an empty
/// block.
pub open spec fn sheet_from(c: Seq<char>, i: int, hs: HiddenView) -> HiddenView
    decreases c.len() - i,
{
    if i < 0 || i > c.len() {
        hs
    } else {
        let j = skip_space(c, i);
        proof {
            lemma_skip_space_range(c, i);
        }
        if j >= c.len() {
            hs
        } else if c[j] == '@' {
            let k = first_of(c, ';', '{', j);
            proof {
                lemma_first_of_range(c, ';', '{', j);
            }
            if k < c.len() && c[k] == '{' {
                proof {
                    lemma_balanced_end_range(c, k, 0);
                }
                sheet_from(c, balanced_end(c, k, 0), hs)
            } else if k < c.len() {
                sheet_from(c, k + 1, hs)
            } else {
                hs
            }
        } else {
            let k = first_of(c, '{', '}', j);
            proof {
                lemma_first_of_range(c, '{', '}', j);
            }
            if k >= c.len() {
                hs
            } else if c[k] != '{' {
                sheet_from(c, k + 1, hs)
            } else {
                let be = balanced_end(c, k, 0);
                proof {
                    lemma_balanced_end_range(c, k, 0);
                }
                let block = if be - 1 < k + 1 {
                    Seq::empty()
                } else {
                    c.subrange(k + 1, be - 1)
                };
                let hs2 = if block_hides(block) {
                    add_selectors_from(c.subrange(j, k), 0, hs)
                } else {
                    hs
                };
                sheet_from(c, be, hs2)
            }
        }
    }
}

/// What reading the stylesheet `css` adds to `hs`.
pub open spec fn stylesheet_spec(css: Seq<char>, hs: HiddenView) -> HiddenView {
    sheet_from(uncommented(css), 0, hs)
}

/// Reads the comment-free stylesheet `chars`, adding hidden selectors to
/// `set`.
fn scan_stylesheet(chars: &Vec<char>, set: &mut HiddenSet)
    requires
        old(set).wf(),
    ensures
        final(set).wf(),
        final(set)@ == sheet_from(chars@, 0, old(set)@),
{
    let ghost c = chars@;
    let mut i: usize = 0;
    while i < chars.len()
        invariant
            c == chars@,
            chars@.len() == chars.len(),
            i <= c.len(),
            set.wf(),
            sheet_from(c, i as int, set@) == sheet_from(c, 0, old(set)@),
        decreases c.len() - i,
    {
        let ghost i0 = i;
        proof {
            lemma_skip_space_range(c, i as int);
        }
        // Skip whitespace.
        while i < chars.len() && char_is_space(chars[i])
            invariant
                c == chars@,
                chars@.len() == chars.len(),
                i0 <= i <= c.len(),
                skip_space(c, i as int) == skip_space(c, i0 as int),
            decreases c.len() - i,
        {
            i = i + 1;
        }
        if i >= chars.len() {
            assert(sheet_from(c, i0 as int, set@) == set@);
            assert(sheet_from(c, i as int, set@) == set@);
            continue;
        }
        let j = i;
        // At-rules: skip them whole. Either `@thing ... ;` or `@thing ... { ... }`.
        if chars[i] == '@' {
            proof {
                lemma_first_of_range(c, ';', '{', j as int);
            }
            while i < chars.len() && chars[i] != ';' && chars[i] != '{'
                invariant
                    c == chars@,
                    chars@.len() == chars.len(),
                    j <= i <= c.len(),
                    first_of(c, ';', '{', i as int) == first_of(c, ';', '{', j as int),
                decreases c.len() - i,
            {
                i = i + 1;
            }
            if i < chars.len() && chars[i] == '{' {
                i = skip_balanced(chars.as_slice(), i);
            } else if i < chars.len() {
                i = i + 1;
            }
            continue;
        }
        // Collect selector text up to `{`.
        let sel_start = i;
        proof {
            lemma_first_of_range(c, '{', '}', j as int);
        }
        while i < chars.len() && chars[i] != '{' && chars[i] != '}'
            invariant
                c == chars@,
                chars@.len() == chars.len(),
                j <= i <= c.len(),
                first_of(c, '{', '}', i as int) == first_of(c, '{', '}', j as int),
            decreases c.len() - i,
        {
            i = i + 1;
        }
        if i >= chars.len() || chars[i] != '{' {
            // Stray `}` or EOF — bail out of this rule.
            if i < chars.len() {
                i = i + 1;
            }
            continue;
        }
        let selector_text = slice_chars(chars.as_slice(), sel_start, i);
        // Capture block contents up to matching `}`.
        let block_start = i + 1;
        let block_end = skip_balanced(chars.as_slice(), i);
        // A `{` that is the last character opens an empty block.
        let block = if block_end - 1 < block_start {
            Vec::new()
        } else {
            slice_chars(chars.as_slice(), block_start, block_end - 1)
        };
        i = block_end;
        if has_hide_decl(block.as_slice()) {
            add_selector_list(selector_text.as_slice(), set);
        }
    }
    assert(sheet_from(c, i as int, set@) == set@);
}

/// Parse a stylesheet string and add hidden selectors to `set`.
pub fn parse_stylesheet(css: &str, set: &mut HiddenSet)
    requires
        old(set).wf(),
    ensures
        final(set).wf(),
        final(set)@ == stylesheet_spec(css@, old(set)@),
{
    let raw = to_chars(css);
    let chars = strip_comments(raw.as_slice());
    scan_stylesheet(&chars, set);
}

// ── Documents ─────────────────────────────────────────────────────────────────

/// Common accessibility "visually hidden" classes. Pages style these with
/// `position:absolute; clip:rect(0,0,0,0)` rather than `display:none`, so the
/// CSS extractor can't see them — hardcoded for practicality.
pub open spec fn always_hidden_classes() -> Set<Seq<char>> {
    set![
        "sr-only"@,
        "screen-reader-only"@,
        "screen-reader-text"@,
        "visually-hidden"@,
        "visuallyhidden"@,
        "skip-link"@,
        "u-hidden-visually"@,
        "a11y-hidden"@,
    ]
}

pub open spec fn is_style(d: Seq<NodeView>, i: int) -> bool {
    d[i].kind == NodeKind::Element && d[i].name == "style"@
}

/// The hidden set after reading every `<style>` block from node `i` on, in
/// document order, starting from `hs`.
pub open spec fn hidden_from(d: Seq<NodeView>, i: int, hs: HiddenView) -> HiddenView
    decreases d.len() - i,
{
    if i < 0 || i >= d.len() {
        hs
    } else if is_style(d, i) {
        hidden_from(d, i + 1, stylesheet_spec(subtree_text(d, i), hs))
    } else {
        hidden_from(d, i + 1, hs)
    }
}

/// What `extract_hidden` finds in a document: the always-hidden classes plus
/// whatever its `<style>` blocks hide.
pub open spec fn document_hidden(d: Seq<NodeView>) -> HiddenView {
    hidden_from(d, 0, HiddenView { classes: always_hidden_classes(), ids: Set::empty(), tags: Set::empty() })
}

fn add_class_literal(set: &mut HiddenSet, name: &str)
    requires
        old(set).wf(),
    ensures
        final(set).wf(),
        final(set)@ == hv_class(old(set)@, name@),
{
    let cs = to_chars(name);
    insert_name(&mut set.classes, cs.as_slice());
    assert(set@ =~= hv_class(old(set)@, name@));
}

/// Extract hidden selectors from every inline `<style>` block in the document.
pub fn extract_hidden(doc: &Dom) -> (set: HiddenSet)
    requires
        doc.wf(),
    ensures
        set.wf(),
        set@ == document_hidden(doc@),
{
    let mut set = HiddenSet::empty();
    add_class_literal(&mut set, "sr-only");
    add_class_literal(&mut set, "screen-reader-only");
    add_class_literal(&mut set, "screen-reader-text");
    add_class_literal(&mut set, "visually-hidden");
    add_class_literal(&mut set, "visuallyhidden");
    add_class_literal(&mut set, "skip-link");
    add_class_literal(&mut set, "u-hidden-visually");
    add_class_literal(&mut set, "a11y-hidden");
    assert(set@.classes =~= always_hidden_classes());
    assert(set@.ids =~= Set::<Seq<char>>::empty());
    assert(set@.tags =~= Set::<Seq<char>>::empty());
    let ghost d = doc@;
    let n = doc.nodes.len();
    let mut i: usize = 0;
    while i < n
        invariant
            n == d.len(),
            d == doc@,
            doc.wf(),
            i <= n,
            set.wf(),
            hidden_from(d, i as int, set@) == document_hidden(d),
        decreases n - i,
    {
        if doc.is_element(i, "style") {
            let text = doc.text(i);
            let css = from_chars(text.as_slice());
            parse_stylesheet(css.as_str(), &mut set);
        }
        i = i + 1;
    }
    set
}

// ── Laws ──────────────────────────────────────────────────────────────────────

/// Every name hidden in `a` is hidden in `b`.
pub open spec fn hides_at_least(a: HiddenView, b: HiddenView) -> bool {
    a.classes.subset_of(b.classes) && a.ids.subset_of(b.ids) && a.tags.subset_of(b.tags)
}

proof fn lemma_add_selectors_grow(t: Seq<char>, i: int, hs: HiddenView)
    ensures
        hides_at_least(hs, add_selectors_from(t, i, hs)),
    decreases t.len() - i,
{
    if 0 <= i <= t.len() {
        lemma_first_index_range(t, ',', i);
        let e = first_index(t, ',', i);
        let hs2 = add_selector_spec(t.subrange(i, e), hs);
        assert(hides_at_least(hs, hs2));
        if e < t.len() {
            lemma_add_selectors_grow(t, e + 1, hs2);
        }
    }
}

proof fn lemma_sheet_grows(c: Seq<char>, i: int, hs: HiddenView)
    ensures
        hides_at_least(hs, sheet_from(c, i, hs)),
    decreases c.len() - i,
{
    if 0 <= i <= c.len() {
        let j = skip_space(c, i);
        lemma_skip_space_range(c, i);
        if j < c.len() {
            if c[j] == '@' {
                let k = first_of(c, ';', '{', j);
                lemma_first_of_range(c, ';', '{', j);
                if k < c.len() && c[k] == '{' {
                    lemma_balanced_end_range(c, k, 0);
                    lemma_sheet_grows(c, balanced_end(c, k, 0), hs);
                } else if k < c.len() {
                    lemma_sheet_grows(c, k + 1, hs);
                }
            } else {
                let k = first_of(c, '{', '}', j);
                lemma_first_of_range(c, '{', '}', j);
                if k < c.len() {
                    if c[k] != '{' {
                        lemma_sheet_grows(c, k + 1, hs);
                    } else {
                        let be = balanced_end(c, k, 0);
                        lemma_balanced_end_range(c, k, 0);
                        let block = if be - 1 < k + 1 {
                            Seq::empty()
                        } else {
                            c.subrange(k + 1, be - 1)
                        };
                        let hs2 = if block_hides(block) {
                            add_selectors_from(c.subrange(j, k), 0, hs)
                        } else {
                            hs
                        };
                        lemma_add_selectors_grow(c.subrange(j, k), 0, hs);
                        lemma_sheet_grows(c, be, hs2);
                    }
                }
            }
        }
    }
}

/// Reading a stylesheet only ever adds hidden names: whatever was hidden
/// before stays hidden.
pub proof fn law_stylesheet_only_adds(css: Seq<char>, hs: HiddenView)
    ensures
        hides_at_least(hs, stylesheet_spec(css, hs)),
{
    lemma_sheet_grows(uncommented(css), 0, hs);
}

proof fn lemma_hidden_from_grows(d: Seq<NodeView>, i: int, hs: HiddenView)
    ensures
        hides_at_least(hs, hidden_from(d, i, hs)),
    decreases d.len() - i,
{
    if 0 <= i < d.len() {
        if is_style(d, i) {
            law_stylesheet_only_adds(subtree_text(d, i), hs);
            lemma_hidden_from_grows(d, i + 1, stylesheet_spec(subtree_text(d, i), hs));
        } else {
            lemma_hidden_from_grows(d, i + 1, hs);
        }
    }
}

/// Whatever a page's styles say, the usual screen-reader-only classes are
/// always hidden.
pub proof fn law_always_hidden_kept(d: Seq<NodeView>)
    ensures
        always_hidden_classes().subset_of(document_hidden(d).classes),
{
    lemma_hidden_from_grows(
        d,
        0,
        HiddenView { classes: always_hidden_classes(), ids: Set::empty(), tags: Set::empty() },
    );
}


/// If the declarations from position `j` on hide, so do those from any
/// earlier start `i` that reaches `j`: `j` comes right after a `;`.
proof fn lemma_decls_reach(b: Seq<char>, i: int, j: int)
    requires
        0 <= i <= j <= b.len(),
        i == j || b[j - 1] == ';',
        decls_hide_from(b, j),
    ensures
        decls_hide_from(b, i),
    decreases j - i,
{
    if i < j {
        lemma_first_index_range(b, ';', i);
        let e = first_index(b, ';', i);
        assert(e <= j - 1);
        if e < j - 1 {
            lemma_decls_reach(b, e + 1, j);
        }
    }
}

/// A rule block hides its selectors when any one of its `;`-separated
/// declarations hides: a hiding declaration hides the block whether it stands
/// alone, comes first, or follows any other declarations.
pub proof fn law_any_declaration_hides(d1: Seq<char>, d2: Seq<char>)
    requires
        decl_hides(d2),
        !d2.contains(';'),
    ensures
        block_hides(d2),
        block_hides(d2 + seq![';'] + d1),
        block_hides(d1 + seq![';'] + d2),
{
    lemma_first_index_range(d2, ';', 0);
    assert(first_index(d2, ';', 0) == d2.len()) by {
        if first_index(d2, ';', 0) < d2.len() {
            assert(d2.contains(d2[first_index(d2, ';', 0)]));
        }
    }
    assert(d2.subrange(0, d2.len() as int) =~= d2);
    let front = d2 + seq![';'] + d1;
    lemma_first_index_range(front, ';', 0);
    assert forall|k: int| 0 <= k < d2.len() implies front[k] != ';' by {
        if front[k] == ';' {
            assert(d2[k] == ';');
            assert(d2.contains(d2[k]));
        }
    }
    assert(front[d2.len() as int] == ';');
    assert(first_index(front, ';', 0) == d2.len());
    assert(front.subrange(0, d2.len() as int) =~= d2);
    let back = d1 + seq![';'] + d2;
    let j: int = d1.len() as int + 1;
    lemma_first_index_range(back, ';', j);
    assert forall|k: int| j <= k < back.len() implies back[k] != ';' by {
        if back[k] == ';' {
            assert(d2[k - j] == ';');
            assert(d2.contains(d2[k - j]));
        }
    }
    assert(first_index(back, ';', j) == back.len());
    assert(back.subrange(j, back.len() as int) =~= d2);
    assert(decls_hide_from(back, j));
    lemma_decls_reach(back, 0, j);
}

} // verus!
