//! Key event routing.

use vstd::prelude::*;

use crate::app::{
    bookmarks_status, hinted, hint_codes_view, navigated, opened_tab, search_ok, status_only, strs, submitted,
    toggled, went_back, went_forward, with_current, App, Command, InputMode, MAX_HINTS,
};
use crate::browser::tabs::{
    cleared, law_next_editable_fits, next_editable_spec, next_focus_spec, prev_focus_spec, scrolled_down,
    search_next_spec, search_prev_spec, searched, tab_closed, FocusItem, Tab,
};
use crate::renderer::text::FieldKind;
use crate::chars::{from_chars, to_chars};

verus! {

/// A key, as the terminal reports it.
#[derive(Debug, Clone, Copy, PartialEq, Eq)]
pub enum KeyCode {
    Char(char),
    Esc,
    Enter,
    Backspace,
    Tab,
    BackTab,
    Up,
    Down,
    Left,
    Right,
    PageUp,
    PageDown,
    Home,
    End,
    /// Any other key.
    Other,
}

/// A key press: the key and the modifier bits held with it.
#[derive(Debug, Clone, Copy, PartialEq, Eq)]
pub struct Key {
    pub code: KeyCode,
    pub modifiers: u8,
}

/// No modifier held.
pub const NONE: u8 = 0;

pub const SHIFT: u8 = 1;

pub const CONTROL: u8 = 2;

pub const ALT: u8 = 4;

// ── Text edits ────────────────────────────────────────────────────────────────

/// `s` without its last character (`String::pop`).
pub open spec fn pop_char(s: Seq<char>) -> Seq<char> {
    if s.len() > 0 {
        s.drop_last()
    } else {
        s
    }
}

fn popped(s: &String) -> (r: String)
    ensures
        r@ == pop_char(s@),
{
    let v = to_chars(s.as_str());
    if v.len() == 0 {
        return String::new();
    }
    let w = crate::chars::slice_chars(v.as_slice(), 0, v.len() - 1);
    from_chars(w.as_slice())
}

fn pushed(s: &String, c: char) -> (r: String)
    ensures
        r@ == s@.push(c),
{
    let mut v = to_chars(s.as_str());
    v.push(c);
    from_chars(v.as_slice())
}

/// A character that ends a URL segment.
pub open spec fn is_sep(c: char) -> bool {
    c == '/' || c == ' '
}

/// `s` with its trailing separators removed.
pub open spec fn trim_seps(s: Seq<char>) -> Seq<char>
    decreases s.len(),
{
    if s.len() > 0 && is_sep(s.last()) {
        trim_seps(s.drop_last())
    } else {
        s
    }
}

/// `s` with its trailing non-separators removed.
pub open spec fn trim_segment(s: Seq<char>) -> Seq<char>
    decreases s.len(),
{
    if s.len() > 0 && !is_sep(s.last()) {
        trim_segment(s.drop_last())
    } else {
        s
    }
}

/// Pop trailing slash/space, then pop back to the previous slash/space.
pub open spec fn clear_last_segment_spec(s: Seq<char>) -> Seq<char> {
    trim_segment(trim_seps(s))
}

/// Pop trailing slash/space, then pop back to the previous slash/space.
pub fn clear_last_segment(s: String) -> (r: String)
    ensures
        r@ == clear_last_segment_spec(s@),
{
    let v = to_chars(s.as_str());
    let mut n = v.len();
    assert(v@.take(n as int) =~= v@);
    while n > 0 && (v[n - 1] == '/' || v[n - 1] == ' ')
        invariant
            n <= v@.len(),
            trim_seps(v@.take(n as int)) == trim_seps(v@),
        decreases n,
    {
        assert(v@.take(n as int).drop_last() =~= v@.take(n - 1));
        n = n - 1;
    }
    let ghost mid = v@.take(n as int);
    assert(trim_seps(mid) == mid);
    while n > 0 && !(v[n - 1] == '/' || v[n - 1] == ' ')
        invariant
            n <= v@.len(),
            trim_segment(v@.take(n as int)) == trim_segment(mid),
        decreases n,
    {
        assert(v@.take(n as int).drop_last() =~= v@.take(n - 1));
        n = n - 1;
    }
    assert(trim_segment(v@.take(n as int)) == v@.take(n as int));
    let w = crate::chars::slice_chars(v.as_slice(), 0, n);
    assert(w@ =~= v@.take(n as int));
    from_chars(w.as_slice())
}

// ── Relations between the app before and after a key ──────────────────────────

/// Only the current tab and the input mode may differ between `a` and `b`.
pub open spec fn tab_and_mode(a: App, b: App) -> bool {
    &&& b.tabs.active == a.tabs.active
    &&& b.tabs.tabs@ == with_current(a, b.cur())
    &&& b == (App { tabs: b.tabs, input_mode: b.input_mode, ..a })
}

/// Only the input mode differs.
pub open spec fn mode_only(a: App, b: App) -> bool {
    b == (App { input_mode: b.input_mode, ..a })
}

/// Modifiers exactly none or exactly shift.
pub open spec fn plain_or_shift(m: u8) -> bool {
    m == NONE || m == SHIFT
}

/// A key in search mode (query `q`): Esc clears the search and leaves the
/// mode, Enter leaves it, Backspace and typed characters edit the query and
/// search again; other keys do nothing.
pub open spec fn search_key(a: App, b: App, key: Key, q: Seq<char>) -> bool {
    match key.code {
        KeyCode::Esc => tab_and_mode(a, b) && cleared(a.cur(), b.cur()) && b.input_mode is Normal,
        KeyCode::Enter => mode_only(a, b) && b.input_mode is Normal,
        KeyCode::Backspace => {
            &&& tab_and_mode(a, b)
            &&& searched(a.cur(), b.cur(), pop_char(q))
            &&& b.input_mode matches InputMode::Search(nq) && nq@ == pop_char(q)
        },
        KeyCode::Char(c) => if plain_or_shift(key.modifiers) {
            &&& tab_and_mode(a, b)
            &&& searched(a.cur(), b.cur(), q.push(c))
            &&& b.input_mode matches InputMode::Search(nq) && nq@ == q.push(c)
        } else {
            b == a
        },
        _ => b == a,
    }
}

fn clear_current_search(app: &mut App)
    requires
        old(app).wf(),
    ensures
        final(app).wf(),
        final(app).tabs.active == old(app).tabs.active,
        final(app).tabs.tabs@ == with_current(*old(app), final(app).cur()),
        *final(app) == (App { tabs: final(app).tabs, ..*old(app) }),
        cleared(old(app).cur(), final(app).cur()),
{
    let idx = app.tabs.active;
    app.tabs.tabs[idx].clear_search();
}

fn search_current(app: &mut App, q: &String)
    requires
        old(app).wf(),
    ensures
        final(app).wf(),
        final(app).tabs.active == old(app).tabs.active,
        final(app).tabs.tabs@ == with_current(*old(app), final(app).cur()),
        *final(app) == (App { tabs: final(app).tabs, ..*old(app) }),
        searched(old(app).cur(), final(app).cur(), q@),
{
    let idx = app.tabs.active;
    app.tabs.tabs[idx].search(q.as_str());
}

fn handle_search(key: Key, app: &mut App, q: String)
    requires
        old(app).wf(),
        old(app).input_mode is Search,
    ensures
        final(app).wf(),
        search_key(*old(app), *final(app), key, q@),
{
    match key.code {
        KeyCode::Esc => {
            clear_current_search(app);
            app.input_mode = InputMode::Normal;
        },
        KeyCode::Enter => {
            app.input_mode = InputMode::Normal;
        },
        KeyCode::Backspace => {
            let nq = popped(&q);
            search_current(app, &nq);
            app.input_mode = InputMode::Search(nq);
        },
        KeyCode::Char(c) => {
            if key.modifiers == NONE || key.modifiers == SHIFT {
                let nq = pushed(&q, c);
                search_current(app, &nq);
                app.input_mode = InputMode::Search(nq);
            }
        },
        _ => {},
    }
}

/// A key in URL mode (buffer `buf`): Esc leaves the mode; Enter leaves it and
/// navigates to the buffer when it is not empty; Backspace and typed
/// characters edit it; Ctrl+W clears its last segment; other keys do
/// nothing.
pub open spec fn url_key(a: App, b: App, key: Key, buf: Seq<char>, cmd: Option<Command>) -> bool {
    match key.code {
        KeyCode::Esc => if key.modifiers == NONE {
            cmd is None && mode_only(a, b) && b.input_mode is Normal
        } else {
            cmd is None && b == a
        },
        KeyCode::Enter => if key.modifiers == NONE {
            let a1 = App { input_mode: InputMode::Normal, ..a };
            if buf.len() == 0 {
                cmd is None && mode_only(a, b) && b.input_mode is Normal
            } else {
                b.input_mode is Normal && navigated(a1, b, cmd, buf)
            }
        } else {
            cmd is None && b == a
        },
        KeyCode::Backspace => if key.modifiers == NONE {
            cmd is None && mode_only(a, b) && (b.input_mode matches InputMode::Url(nb) && nb@ == pop_char(buf))
        } else {
            cmd is None && b == a
        },
        KeyCode::Char(c) => if key.modifiers == CONTROL && c == 'w' {
            cmd is None && mode_only(a, b) && (b.input_mode matches InputMode::Url(nb) && nb@
                == clear_last_segment_spec(buf))
        } else if plain_or_shift(key.modifiers) {
            cmd is None && mode_only(a, b) && (b.input_mode matches InputMode::Url(nb) && nb@ == buf.push(c))
        } else {
            cmd is None && b == a
        },
        _ => cmd is None && b == a,
    }
}

fn handle_url(key: Key, app: &mut App, buf: String) -> (cmd: Option<Command>)
    requires
        old(app).wf(),
        old(app).input_mode is Url,
    ensures
        final(app).wf(),
        url_key(*old(app), *final(app), key, buf@, cmd),
{
    match key.code {
        KeyCode::Esc => {
            if key.modifiers == NONE {
                app.input_mode = InputMode::Normal;
            }
            None
        },
        KeyCode::Enter => {
            if key.modifiers == NONE {
                app.input_mode = InputMode::Normal;
                if !buf.as_str().is_empty() {
                    return app.navigate(buf);
                }
            }
            None
        },
        KeyCode::Backspace => {
            if key.modifiers == NONE {
                app.input_mode = InputMode::Url(popped(&buf));
            }
            None
        },
        KeyCode::Char(c) => {
            if key.modifiers == CONTROL && c == 'w' {
                app.input_mode = InputMode::Url(clear_last_segment(buf));
            } else if key.modifiers == NONE || key.modifiers == SHIFT {
                app.input_mode = InputMode::Url(pushed(&buf, c));
            }
            None
        },
        _ => None,
    }
}


// ── Form-field editing ────────────────────────────────────────────────────────

/// `nt` is `t` with the live value of field `i` set to `buffer` (no change
/// when there is no such value).
pub open spec fn committed(t: Tab, nt: Tab, i: usize, buffer: Seq<char>) -> bool {
    if i < t.field_values@.len() {
        &&& strs(nt.field_values@) == strs(t.field_values@).update(i as int, buffer)
        &&& nt.field_values@.len() == t.field_values@.len()
        &&& nt == (Tab { field_values: nt.field_values, ..t })
    } else {
        nt == t
    }
}

/// The live value of field `i`, empty when there is none.
pub open spec fn value_of(t: Tab, i: int) -> Seq<char> {
    if 0 <= i < t.field_values@.len() {
        t.field_values@[i]@
    } else {
        Seq::empty()
    }
}

/// Enter ends editing field `i` of the current tab: its buffer is committed
/// and the field focused, and the mode goes back to normal.
pub open spec fn edit_closed(a: App, b: App, i: usize, buffer: Seq<char>) -> bool {
    &&& tab_and_mode(a, b)
    &&& b.input_mode is Normal
    &&& exists|t1: Tab|
        #[trigger] committed(a.cur(), t1, i, buffer) && b.cur() == (Tab { focused: Some(FocusItem::Field(i)), ..t1 })
}

/// Editing field `i` of the current tab moves on to field `n` (or leaves
/// editing with `None`) after committing the buffer.
pub open spec fn edit_moved(a: App, b: App, i: usize, buffer: Seq<char>) -> bool {
    &&& tab_and_mode(a, b)
    &&& exists|t1: Tab|
        #[trigger] committed(a.cur(), t1, i, buffer) && match next_editable_spec(t1.fields@, Some(i)) {
            Some(n) => {
                &&& b.cur() == (Tab { scroll: t1.fields@[n].line, ..t1 })
                &&& (b.input_mode matches InputMode::FieldEdit { field_idx, buffer: nb } && field_idx == n && nb@
                    == value_of(t1, n))
            },
            None => b.cur() == t1 && b.input_mode is Normal,
        }
}

/// A key while editing field `i` (buffer `buffer`): Esc leaves editing with
/// the field focused and the buffer dropped; Enter commits it, focuses the
/// field and submits its form; Tab commits it and moves to the next editable
/// field of the form; Backspace and typed characters edit the buffer; other
/// keys do nothing.
pub open spec fn field_key(a: App, b: App, key: Key, i: usize, buffer: Seq<char>, cmd: Option<Command>) -> bool {
    match key.code {
        KeyCode::Esc => if key.modifiers == NONE {
            &&& cmd is None
            &&& tab_and_mode(a, b)
            &&& b.input_mode is Normal
            &&& b.cur() == (Tab { focused: Some(FocusItem::Field(i)), ..a.cur() })
        } else {
            cmd is None && b == a
        },
        KeyCode::Enter => if key.modifiers == NONE {
            exists|a1: App|
                #[trigger] edit_closed(a, a1, i, buffer) && (if i < a.cur().fields@.len() {
                    submitted(a1, b, cmd, a.cur().fields@[i as int].form_idx)
                } else {
                    cmd is None && b == a1
                })
        } else {
            cmd is None && b == a
        },
        KeyCode::Tab => if key.modifiers == NONE {
            cmd is None && edit_moved(a, b, i, buffer)
        } else {
            cmd is None && b == a
        },
        KeyCode::Backspace => if key.modifiers == NONE {
            &&& cmd is None
            &&& mode_only(a, b)
            &&& (b.input_mode matches InputMode::FieldEdit { field_idx, buffer: nb } && field_idx == i && nb@
                == pop_char(buffer))
        } else {
            cmd is None && b == a
        },
        KeyCode::Char(c) => if plain_or_shift(key.modifiers) {
            &&& cmd is None
            &&& mode_only(a, b)
            &&& (b.input_mode matches InputMode::FieldEdit { field_idx, buffer: nb } && field_idx == i && nb@
                == buffer.push(c))
        } else {
            cmd is None && b == a
        },
        _ => cmd is None && b == a,
    }
}

/// Commit the buffer back onto the tab's `field_values`. No-op if `field_idx`
/// is out of range (e.g. page reloaded mid-edit).
fn commit_field_buffer(app: &mut App, field_idx: usize, buffer: String)
    requires
        old(app).wf(),
    ensures
        final(app).wf(),
        final(app).tabs.active == old(app).tabs.active,
        final(app).tabs.tabs@ == with_current(*old(app), final(app).cur()),
        *final(app) == (App { tabs: final(app).tabs, ..*old(app) }),
        committed(old(app).cur(), final(app).cur(), field_idx, buffer@),
{
    let idx = app.tabs.active;
    if field_idx < app.tabs.tabs[idx].field_values.len() {
        let ghost before = strs(app.cur().field_values@);
        app.tabs.tabs[idx].field_values.set(field_idx, buffer);
        assert(strs(app.cur().field_values@) =~= before.update(field_idx as int, buffer@));
    }
}

fn copy_value(t: &Tab, i: usize) -> (r: String)
    ensures
        r@ == value_of(*t, i as int),
{
    if i < t.field_values.len() {
        crate::chars::copy_string(&t.field_values[i])
    } else {
        String::new()
    }
}

fn handle_field_edit(key: Key, app: &mut App, field_idx: usize, buffer: String) -> (cmd: Option<Command>)
    requires
        old(app).wf(),
        field_idx < usize::MAX,
    ensures
        final(app).wf(),
        field_key(*old(app), *final(app), key, field_idx, buffer@, cmd),
{
    match key.code {
        KeyCode::Esc => {
            if key.modifiers == NONE {
                app.input_mode = InputMode::Normal;
                let idx = app.tabs.active;
                app.tabs.tabs[idx].focused = Some(FocusItem::Field(field_idx));
                assert forall|k: int| 0 <= k < app.tabs.tabs@.len() implies search_ok(#[trigger] app.tabs.tabs@[k]) by {
                    if k != idx {
                        assert(app.tabs.tabs@[k] == old(app).tabs.tabs@[k]);
                    }
                }
            }
            None
        },
        KeyCode::Enter => {
            if key.modifiers != NONE {
                return None;
            }
            let ghost a0 = *app;
            commit_field_buffer(app, field_idx, buffer);
            let ghost t1 = app.cur();
            let idx = app.tabs.active;
            let form_idx = if field_idx < app.tabs.tabs[idx].fields.len() {
                Some(app.tabs.tabs[idx].fields[field_idx].form_idx)
            } else {
                None
            };
            app.input_mode = InputMode::Normal;
            app.tabs.tabs[idx].focused = Some(FocusItem::Field(field_idx));
            let ghost a1 = *app;
            assert(committed(a0.cur(), t1, field_idx, buffer@));
            assert(a1.cur() == (Tab { focused: Some(FocusItem::Field(field_idx)), ..t1 }));
            assert(a1.tabs.tabs@ == with_current(a0, a1.cur()));
            assert(edit_closed(a0, a1, field_idx, buffer@));
            assert forall|k: int| 0 <= k < app.tabs.tabs@.len() implies search_ok(#[trigger] app.tabs.tabs@[k]) by {
                if k != idx {
                    assert(app.tabs.tabs@[k] == a0.tabs.tabs@[k]);
                }
            }
            match form_idx {
                Some(fi) => {
                    assert(fi == a0.cur().fields@[field_idx as int].form_idx);
                    app.submit_form(fi)
                },
                None => None,
            }
        },
        KeyCode::Tab => {
            if key.modifiers != NONE {
                return None;
            }
            let ghost a0 = *app;
            commit_field_buffer(app, field_idx, buffer);
            let ghost t1 = app.cur();
            let idx = app.tabs.active;
            let next = app.tabs.tabs[idx].next_editable_field(Some(field_idx));
            proof {
                law_next_editable_fits(t1.fields@, Some(field_idx));
            }
            match next {
                Some(n) => {
                    let new_buf = copy_value(&app.tabs.tabs[idx], n);
                    assert(app.tabs.tabs[idx as int].fields@.len() == app.tabs.tabs[idx as int].fields.len());
                    let line = app.tabs.tabs[idx].fields[n].line;
                    app.tabs.tabs[idx].scroll = line;
                    app.input_mode = InputMode::FieldEdit { field_idx: n, buffer: new_buf };
                    assert(app.cur() == (Tab { scroll: t1.fields@[n as int].line, ..t1 }));
                },
                None => {
                    app.input_mode = InputMode::Normal;
                    assert(app.cur() == t1);
                },
            }
            assert(app.tabs.tabs@ =~= a0.tabs.tabs@.update(idx as int, app.cur()));
            assert(tab_and_mode(a0, *app));
            assert(committed(a0.cur(), t1, field_idx, buffer@));
            assert forall|k: int| 0 <= k < app.tabs.tabs@.len() implies search_ok(#[trigger] app.tabs.tabs@[k]) by {
                if k != idx {
                    assert(app.tabs.tabs@[k] == a0.tabs.tabs@[k]);
                }
            }
            None
        },
        KeyCode::Backspace => {
            if key.modifiers == NONE {
                app.input_mode = InputMode::FieldEdit { field_idx, buffer: popped(&buffer) };
            }
            None
        },
        KeyCode::Char(c) => {
            if key.modifiers == NONE || key.modifiers == SHIFT {
                app.input_mode = InputMode::FieldEdit { field_idx, buffer: pushed(&buffer, c) };
            }
            None
        },
        _ => None,
    }
}

// ── Link hints ────────────────────────────────────────────────────────────────

/// ASCII upper-casing of one character (`char::to_ascii_uppercase`).
pub open spec fn upper_char(c: char) -> char {
    if 'a' <= c <= 'z' {
        ((c as u32) - 32) as char
    } else {
        c
    }
}

fn char_to_upper(c: char) -> (r: char)
    ensures
        r == upper_char(c),
{
    if 'a' <= c && c <= 'z' {
        let u: u8 = (c as u32 - 32) as u8;
        u as char
    } else {
        c
    }
}

/// The number of bytes of `c` in UTF-8 (`char::len_utf8`).
pub open spec fn utf8_len(c: char) -> nat {
    if (c as u32) < 0x80 {
        1
    } else if (c as u32) < 0x800 {
        2
    } else if (c as u32) < 0x10000 {
        3
    } else {
        4
    }
}

/// The length in bytes of `s` in UTF-8 (`String::len`).
pub open spec fn byte_len(s: Seq<char>) -> nat
    decreases s.len(),
{
    if s.len() == 0 {
        0
    } else {
        byte_len(s.drop_last()) + utf8_len(s.last())
    }
}

proof fn lemma_byte_len_at_least(s: Seq<char>)
    ensures
        byte_len(s) >= s.len(),
        s.len() == 1 ==> byte_len(s) == utf8_len(s[0]),
    decreases s.len(),
{
    if s.len() > 0 {
        lemma_byte_len_at_least(s.drop_last());
    }
}

/// `true` when `s` takes at least two bytes in UTF-8.
fn two_bytes_or_more(s: &String) -> (b: bool)
    ensures
        b == (byte_len(s@) >= 2),
{
    let v = to_chars(s.as_str());
    proof {
        lemma_byte_len_at_least(v@);
    }
    if v.len() >= 2 {
        true
    } else if v.len() == 1 {
        assert(byte_len(v@) == utf8_len(v@[0]));
        (v[0] as u32) >= 0x80
    } else {
        false
    }
}

/// The link of the first hint whose code is `code`.
pub open spec fn hint_target(codes: Seq<(usize, Seq<char>)>, code: Seq<char>, k: int) -> Option<usize>
    decreases codes.len() - k,
{
    if k < 0 || k >= codes.len() {
        None
    } else if codes[k].1 == code {
        Some(codes[k].0)
    } else {
        hint_target(codes, code, k + 1)
    }
}

/// Hints are put away: no codes, normal mode.
pub open spec fn hints_closed(a: App, b: App) -> bool {
    &&& b.hint_codes@.len() == 0
    &&& b.input_mode is Normal
    &&& b == (App { hint_codes: b.hint_codes, input_mode: b.input_mode, ..a })
}

/// A key in hint mode (letters `typed`): Esc puts hints away; Backspace drops
/// a letter; a typed character is added upper-cased, and once two bytes are
/// typed the hints are put away and the link whose code matches is followed
/// (in a new tab with Shift held), or the status says no hint matches; other
/// keys do nothing.
pub open spec fn hint_key(a: App, b: App, key: Key, typed: Seq<char>, cmd: Option<Command>) -> bool {
    match key.code {
        KeyCode::Esc => cmd is None && hints_closed(a, b),
        KeyCode::Backspace => cmd is None && mode_only(a, b) && (b.input_mode matches InputMode::Hint(t) && t@
            == pop_char(typed)),
        KeyCode::Char(c) => {
            let nt = typed.push(upper_char(c));
            if byte_len(nt) >= 2 {
                match hint_target(hint_codes_view(a.hint_codes@), nt, 0) {
                    None => {
                        &&& cmd is None
                        &&& b.status@ == "No hint '"@ + nt + "'"@
                        &&& b.hint_codes@.len() == 0
                        &&& b.input_mode is Normal
                        &&& b == (App { hint_codes: b.hint_codes, input_mode: b.input_mode, status: b.status, ..a })
                    },
                    Some(li) => if li < a.cur().links@.len() {
                        let href = a.cur().links@[li as int].href@;
                        exists|a1: App|
                            #[trigger] hints_closed(a, a1) && (if key.modifiers & SHIFT != 0 {
                                opened_tab(a1, b, cmd, href)
                            } else {
                                navigated(a1, b, cmd, href)
                            })
                    } else {
                        cmd is None && hints_closed(a, b)
                    },
                }
            } else {
                cmd is None && mode_only(a, b) && (b.input_mode matches InputMode::Hint(t) && t@ == nt)
            }
        },
        _ => cmd is None && b == a,
    }
}

fn find_hint(codes: &Vec<(usize, String)>, code: &String) -> (r: Option<usize>)
    ensures
        r == hint_target(hint_codes_view(codes@), code@, 0),
{
    let ghost cv = hint_codes_view(codes@);
    let mut k: usize = 0;
    while k < codes.len()
        invariant
            k <= codes@.len(),
            cv == hint_codes_view(codes@),
            hint_target(cv, code@, k as int) == hint_target(cv, code@, 0),
        decreases codes@.len() - k,
    {
        if crate::chars::str_eq(codes[k].1.as_str(), code.as_str()) {
            return Some(codes[k].0);
        }
        k = k + 1;
    }
    None
}

fn handle_hint(key: Key, app: &mut App, typed: String) -> (cmd: Option<Command>)
    requires
        old(app).wf(),
        old(app).input_mode is Hint,
    ensures
        final(app).wf(),
        hint_key(*old(app), *final(app), key, typed@, cmd),
{
    match key.code {
        KeyCode::Esc => {
            app.hint_codes = Vec::new();
            app.input_mode = InputMode::Normal;
            None
        },
        KeyCode::Backspace => {
            app.input_mode = InputMode::Hint(popped(&typed));
            None
        },
        KeyCode::Char(c) => {
            let open_new_tab = key.modifiers & SHIFT != 0;
            let upper = char_to_upper(c);
            let new_typed = pushed(&typed, upper);
            if two_bytes_or_more(&new_typed) {
                let matched = find_hint(&app.hint_codes, &new_typed);
                app.hint_codes = Vec::new();
                app.input_mode = InputMode::Normal;
                match matched {
                    Some(link_idx) => {
                        let idx = app.tabs.active;
                        if link_idx < app.tabs.tabs[idx].links.len() {
                            let href = crate::chars::copy_string(&app.tabs.tabs[idx].links[link_idx].href);
                            let ghost a1 = *app;
                            assert(hints_closed(*old(app), a1));
                            if open_new_tab {
                                app.open_new_tab(href)
                            } else {
                                app.navigate(href)
                            }
                        } else {
                            None
                        }
                    },
                    None => {
                        let mut msg = to_chars("No hint '");
                        crate::chars::append_chars(&mut msg, to_chars(new_typed.as_str()).as_slice());
                        msg.push('\'');
                        proof {
                            reveal_strlit("'");
                        }
                        assert(msg@ =~= "No hint '"@ + new_typed@ + "'"@);
                        app.status = from_chars(msg.as_slice());
                        None
                    },
                }
            } else {
                app.input_mode = InputMode::Hint(new_typed);
                None
            }
        },
        _ => None,
    }
}


// ── Normal mode ───────────────────────────────────────────────────────────────

/// What a key does in normal mode.
#[derive(Debug, Clone, Copy, PartialEq, Eq, Structural)]
pub enum Action {
    Quit,
    ScrollDown(usize),
    ScrollUp(usize),
    Top,
    Bottom,
    NextFocus,
    PrevFocus,
    Activate,
    Back,
    Forward,
    NewTab,
    CloseTab,
    SwitchTab(usize),
    ToggleBookmark,
    ListBookmarks,
    StartSearch,
    SearchNext,
    SearchPrev,
    EditUrl,
    Hints,
    FirstField,
    Nothing,
}

/// The key map of normal mode: `q`/Ctrl+C quit; `j`/`k`/Down/Up scroll a
/// line, `d`/`u`/PageDown/PageUp twenty; `g`/Home and `G`/End go to the top
/// and bottom; Tab and Shift+BackTab move focus; Enter activates; Backspace
/// goes back and Alt/Ctrl+Right forward; `t` opens a tab, `x` closes it,
/// `1`–`9` switch; `b` toggles and `B` lists bookmarks; `/`, `n`, `N` search;
/// `o` edits the URL; `f` shows link hints; `i` edits the first form field.
pub open spec fn normal_action(key: Key) -> Action {
    let m = key.modifiers;
    match key.code {
        KeyCode::Char(c) => if m == NONE {
            if c == 'q' {
                Action::Quit
            } else if c == 'j' {
                Action::ScrollDown(1)
            } else if c == 'k' {
                Action::ScrollUp(1)
            } else if c == 'd' {
                Action::ScrollDown(20)
            } else if c == 'u' {
                Action::ScrollUp(20)
            } else if c == 'g' {
                Action::Top
            } else if c == 't' {
                Action::NewTab
            } else if c == 'x' {
                Action::CloseTab
            } else if '1' <= c <= '9' {
                Action::SwitchTab(((c as u32) - 49) as usize)
            } else if c == 'b' {
                Action::ToggleBookmark
            } else if c == '/' {
                Action::StartSearch
            } else if c == 'n' {
                Action::SearchNext
            } else if c == 'o' {
                Action::EditUrl
            } else if c == 'f' {
                Action::Hints
            } else if c == 'i' {
                Action::FirstField
            } else {
                Action::Nothing
            }
        } else if m == CONTROL && c == 'c' {
            Action::Quit
        } else if m == SHIFT && c == 'G' {
            Action::Bottom
        } else if m == SHIFT && c == 'B' {
            Action::ListBookmarks
        } else if m == SHIFT && c == 'N' {
            Action::SearchPrev
        } else {
            Action::Nothing
        },
        KeyCode::Down => if m == NONE { Action::ScrollDown(1) } else { Action::Nothing },
        KeyCode::Up => if m == NONE { Action::ScrollUp(1) } else { Action::Nothing },
        KeyCode::PageDown => if m == NONE { Action::ScrollDown(20) } else { Action::Nothing },
        KeyCode::PageUp => if m == NONE { Action::ScrollUp(20) } else { Action::Nothing },
        KeyCode::Home => if m == NONE { Action::Top } else { Action::Nothing },
        KeyCode::End => if m == NONE { Action::Bottom } else { Action::Nothing },
        KeyCode::Tab => if m == NONE { Action::NextFocus } else { Action::Nothing },
        KeyCode::BackTab => if m == SHIFT { Action::PrevFocus } else { Action::Nothing },
        KeyCode::Enter => if m == NONE { Action::Activate } else { Action::Nothing },
        KeyCode::Backspace => if m == NONE { Action::Back } else { Action::Nothing },
        KeyCode::Right => if m == ALT || m == CONTROL { Action::Forward } else { Action::Nothing },
        _ => Action::Nothing,
    }
}

fn action_of(key: Key) -> (a: Action)
    ensures
        a == normal_action(key),
{
    let m = key.modifiers;
    match key.code {
        KeyCode::Char(c) => if m == NONE {
            if c == 'q' {
                Action::Quit
            } else if c == 'j' {
                Action::ScrollDown(1)
            } else if c == 'k' {
                Action::ScrollUp(1)
            } else if c == 'd' {
                Action::ScrollDown(20)
            } else if c == 'u' {
                Action::ScrollUp(20)
            } else if c == 'g' {
                Action::Top
            } else if c == 't' {
                Action::NewTab
            } else if c == 'x' {
                Action::CloseTab
            } else if '1' <= c && c <= '9' {
                Action::SwitchTab((c as u32 - 49) as usize)
            } else if c == 'b' {
                Action::ToggleBookmark
            } else if c == '/' {
                Action::StartSearch
            } else if c == 'n' {
                Action::SearchNext
            } else if c == 'o' {
                Action::EditUrl
            } else if c == 'f' {
                Action::Hints
            } else if c == 'i' {
                Action::FirstField
            } else {
                Action::Nothing
            }
        } else if m == CONTROL && c == 'c' {
            Action::Quit
        } else if m == SHIFT && c == 'G' {
            Action::Bottom
        } else if m == SHIFT && c == 'B' {
            Action::ListBookmarks
        } else if m == SHIFT && c == 'N' {
            Action::SearchPrev
        } else {
            Action::Nothing
        },
        KeyCode::Down => if m == NONE { Action::ScrollDown(1) } else { Action::Nothing },
        KeyCode::Up => if m == NONE { Action::ScrollUp(1) } else { Action::Nothing },
        KeyCode::PageDown => if m == NONE { Action::ScrollDown(20) } else { Action::Nothing },
        KeyCode::PageUp => if m == NONE { Action::ScrollUp(20) } else { Action::Nothing },
        KeyCode::Home => if m == NONE { Action::Top } else { Action::Nothing },
        KeyCode::End => if m == NONE { Action::Bottom } else { Action::Nothing },
        KeyCode::Tab => if m == NONE { Action::NextFocus } else { Action::Nothing },
        KeyCode::BackTab => if m == SHIFT { Action::PrevFocus } else { Action::Nothing },
        KeyCode::Enter => if m == NONE { Action::Activate } else { Action::Nothing },
        KeyCode::Backspace => if m == NONE { Action::Back } else { Action::Nothing },
        KeyCode::Right => if m == ALT || m == CONTROL { Action::Forward } else { Action::Nothing },
        _ => Action::Nothing,
    }
}

/// Only the current tab differs, and it is `t`.
pub open spec fn tab_became(a: App, b: App, t: Tab) -> bool {
    &&& b.tabs.active == a.tabs.active
    &&& b.tabs.tabs@ == with_current(a, t)
    &&& b == (App { tabs: b.tabs, ..a })
}

/// The current tab's live values become `vals` (as many as before).
pub open spec fn values_became(a: App, b: App, vals: Seq<Seq<char>>) -> bool {
    &&& tab_became(a, b, b.cur())
    &&& strs(b.cur().field_values@) == vals
    &&& b.cur().field_values@.len() == a.cur().field_values@.len()
    &&& b.cur() == (Tab { field_values: b.cur().field_values, ..a.cur() })
}

/// Field `j` is another radio button of the same group as field `i`.
pub open spec fn radio_sibling(fields: Seq<crate::renderer::text::FormField>, i: int, j: int) -> bool {
    &&& 0 <= j < fields.len()
    &&& j != i
    &&& fields[j].form_idx == fields[i].form_idx
    &&& fields[j].name@ == fields[i].name@
    &&& fields[j].kind is Radio
}

/// The first index of `x` in `opts`.
pub open spec fn index_in(opts: Seq<Seq<char>>, x: Seq<char>, k: int) -> Option<int>
    decreases opts.len() - k,
{
    if k < 0 || k >= opts.len() {
        None
    } else if opts[k] == x {
        Some(k)
    } else {
        index_in(opts, x, k + 1)
    }
}

/// The option after the current one (the first when the current value is
/// not an option), wrapping round; empty without options.
pub open spec fn next_option(opts: Seq<Seq<char>>, current: Seq<char>) -> Seq<char> {
    let cur: int = match index_in(opts, current, 0) {
        Some(k) => k,
        None => 0,
    };
    let n: int = if opts.len() > 1 { opts.len() as int } else { 1 };
    let next = (cur + 1) % n;
    if next < opts.len() {
        opts[next]
    } else {
        Seq::empty()
    }
}

/// Enter on the focused item: nothing focused sets the status; a link is
/// followed; a submit field submits its form; a text field or textarea is
/// edited; a checkbox toggles; a radio button is chosen and its group
/// cleared; a select moves to its next option.
pub open spec fn activated(a: App, b: App, cmd: Option<Command>) -> bool {
    let t = a.cur();
    match t.focused {
        None => cmd is None && status_only(a, b, "Nothing focused — press Tab to select"@),
        Some(FocusItem::Link(i)) => if i < t.links@.len() {
            navigated(a, b, cmd, t.links@[i as int].href@)
        } else {
            cmd is None && b == a
        },
        Some(FocusItem::Field(i)) => if i >= t.fields@.len() {
            cmd is None && b == a
        } else {
            let f = t.fields@[i as int];
            let vals = strs(t.field_values@);
            match f.kind {
                FieldKind::Submit => submitted(a, b, cmd, f.form_idx),
                FieldKind::Text | FieldKind::Textarea => {
                    &&& cmd is None
                    &&& tab_and_mode(a, b)
                    &&& b.cur() == (Tab { scroll: f.line, ..t })
                    &&& (b.input_mode matches InputMode::FieldEdit { field_idx, buffer } && field_idx == i && buffer@
                        == value_of(t, i as int))
                },
                FieldKind::Checkbox => cmd is None && values_became(
                    a,
                    b,
                    if i < vals.len() {
                        vals.update(i as int, if vals[i as int].len() == 0 { f.value@ } else { Seq::empty() })
                    } else {
                        vals
                    },
                ),
                FieldKind::Radio => cmd is None && values_became(
                    a,
                    b,
                    Seq::new(
                        vals.len(),
                        |j: int| if j == i {
                            f.value@
                        } else if radio_sibling(t.fields@, i as int, j) {
                            Seq::empty()
                        } else {
                            vals[j]
                        },
                    ),
                ),
                FieldKind::Select(opts) => cmd is None && values_became(
                    a,
                    b,
                    if i < vals.len() {
                        vals.update(i as int, next_option(strs(opts@), value_of(t, i as int)))
                    } else {
                        vals
                    },
                ),
                FieldKind::Hidden => cmd is None && b == a,
            }
        },
    }
}

proof fn lemma_others_ok(a: App, b: App)
    requires
        a.wf(),
        b.tabs.active == a.tabs.active,
        b.tabs.tabs@ == with_current(a, b.cur()),
        search_ok(b.cur()),
    ensures
        forall|k: int| 0 <= k < b.tabs.tabs@.len() ==> search_ok(#[trigger] b.tabs.tabs@[k]),
{
    assert forall|k: int| 0 <= k < b.tabs.tabs@.len() implies search_ok(#[trigger] b.tabs.tabs@[k]) by {
        if k != a.tabs.active {
            assert(b.tabs.tabs@[k] == a.tabs.tabs@[k]);
        }
    }
}

proof fn lemma_values_trans(a: App, b: App, c: App, v1: Seq<Seq<char>>, v2: Seq<Seq<char>>)
    requires
        values_became(a, b, v1),
        values_became(b, c, v2),
        a.tabs.active < a.tabs.tabs@.len(),
    ensures
        values_became(a, c, v2),
{
    let i = a.tabs.active as int;
    assert(b.tabs.tabs@.len() == a.tabs.tabs@.len());
    assert(c.tabs.tabs@.len() == a.tabs.tabs@.len());
    assert forall|k: int| 0 <= k < c.tabs.tabs@.len() implies c.tabs.tabs@[k] == with_current(a, c.cur())[k] by {
        if k != i {
            assert(c.tabs.tabs@[k] == b.tabs.tabs@[k]);
            assert(b.tabs.tabs@[k] == a.tabs.tabs@[k]);
        }
    }
    assert(c.tabs.tabs@ =~= with_current(a, c.cur()));
}

fn set_value(app: &mut App, i: usize, v: String)
    requires
        old(app).wf(),
        i < old(app).cur().field_values@.len(),
    ensures
        final(app).wf(),
        values_became(*old(app), *final(app), strs(old(app).cur().field_values@).update(i as int, v@)),
{
    let idx = app.tabs.active;
    let ghost before = strs(app.cur().field_values@);
    app.tabs.tabs[idx].field_values.set(i, v);
    assert(strs(app.cur().field_values@) =~= before.update(i as int, v@));
    proof {
        lemma_others_ok(*old(app), *app);
    }
}

fn choose_radio(app: &mut App, i: usize)
    requires
        old(app).wf(),
        i < old(app).cur().fields@.len(),
        old(app).cur().fields@[i as int].kind is Radio,
    ensures
        final(app).wf(),
        ({
            let t = old(app).cur();
            let vals = strs(t.field_values@);
            values_became(
                *old(app),
                *final(app),
                Seq::new(
                    vals.len(),
                    |j: int| if j == i {
                        t.fields@[i as int].value@
                    } else if radio_sibling(t.fields@, i as int, j) {
                        Seq::empty()
                    } else {
                        vals[j]
                    },
                ),
            )
        }),
{
    let ghost t = app.cur();
    let ghost vals = strs(t.field_values@);
    let idx = app.tabs.active;
    let form = app.tabs.tabs[idx].fields[i].form_idx;
    let name = crate::chars::copy_string(&app.tabs.tabs[idx].fields[i].name);
    let value = crate::chars::copy_string(&app.tabs.tabs[idx].fields[i].value);
    let n = app.tabs.tabs[idx].field_values.len();
    let mut j: usize = 0;
    assert(app.tabs.tabs@ =~= with_current(*old(app), app.cur()));
    assert(strs(app.cur().field_values@) =~= Seq::new(
        n as nat,
        |k: int| if k >= j {
            vals[k]
        } else if k == i {
            t.fields@[i as int].value@
        } else if radio_sibling(t.fields@, i as int, k) {
            Seq::empty()
        } else {
            vals[k]
        },
    ));
    while j < n
        invariant
            app.wf(),
            old(app).wf(),
            t == old(app).cur(),
            vals == strs(t.field_values@),
            idx == app.tabs.active,
            idx == old(app).tabs.active,
            n == vals.len(),
            app.cur().field_values@.len() == n,
            j <= n,
            i < t.fields@.len(),
            form == t.fields@[i as int].form_idx,
            name@ == t.fields@[i as int].name@,
            value@ == t.fields@[i as int].value@,
            app.cur().fields == t.fields,
            values_became(
                *old(app),
                *app,
                Seq::new(
                    n as nat,
                    |k: int| if k >= j {
                        vals[k]
                    } else if k == i {
                        t.fields@[i as int].value@
                    } else if radio_sibling(t.fields@, i as int, k) {
                        Seq::empty()
                    } else {
                        vals[k]
                    },
                ),
            ),
        decreases n - j,
    {
        let ghost before = *app;
        let ghost v1 = strs(before.cur().field_values@);
        if j == i {
            set_value(app, j, crate::chars::copy_string(&value));
            proof {
                lemma_values_trans(*old(app), before, *app, v1, v1.update(j as int, value@));
            }
        } else if j < app.tabs.tabs[idx].fields.len() {
            let same = app.tabs.tabs[idx].fields[j].form_idx == form && crate::chars::str_eq(
                app.tabs.tabs[idx].fields[j].name.as_str(),
                name.as_str(),
            ) && match app.tabs.tabs[idx].fields[j].kind {
                FieldKind::Radio => true,
                _ => false,
            };
            if same {
                set_value(app, j, String::new());
                proof {
                    lemma_values_trans(*old(app), before, *app, v1, v1.update(j as int, Seq::empty()));
                }
            }
        }
        j = j + 1;
        assert(strs(app.cur().field_values@) =~= Seq::new(
            n as nat,
            |k: int| if k >= j {
                vals[k]
            } else if k == i {
                t.fields@[i as int].value@
            } else if radio_sibling(t.fields@, i as int, k) {
                Seq::empty()
            } else {
                vals[k]
            },
        ));
    }
    assert(strs(app.cur().field_values@) =~= Seq::new(
        vals.len(),
        |k: int| if k == i {
            t.fields@[i as int].value@
        } else if radio_sibling(t.fields@, i as int, k) {
            Seq::empty()
        } else {
            vals[k]
        },
    ));
}


proof fn lemma_same_tab(a: App)
    requires
        a.wf(),
    ensures
        values_became(a, a, strs(a.cur().field_values@)),
        tab_became(a, a, a.cur()),
{
    assert(a.tabs.tabs@ =~= with_current(a, a.cur()));
}

fn index_of_str(opts: &Vec<String>, x: &String) -> (r: Option<usize>)
    ensures
        match r {
            Some(k) => index_in(strs(opts@), x@, 0) == Some(k as int) && k < opts@.len(),
            None => index_in(strs(opts@), x@, 0) is None,
        },
{
    let ghost ov = strs(opts@);
    let mut k: usize = 0;
    while k < opts.len()
        invariant
            k <= opts@.len(),
            ov == strs(opts@),
            index_in(ov, x@, k as int) == index_in(ov, x@, 0),
        decreases opts@.len() - k,
    {
        if crate::chars::str_eq(opts[k].as_str(), x.as_str()) {
            return Some(k);
        }
        k = k + 1;
    }
    None
}

fn next_option_of(opts: &Vec<String>, current: &String) -> (r: String)
    ensures
        r@ == next_option(strs(opts@), current@),
{
    let cur = match index_of_str(opts, current) {
        Some(x) => x,
        None => 0,
    };
    let n = if opts.len() > 1 { opts.len() } else { 1 };
    let next = (cur + 1) % n;
    if next < opts.len() {
        crate::chars::copy_string(&opts[next])
    } else {
        String::new()
    }
}

fn activate(app: &mut App) -> (cmd: Option<Command>)
    requires
        old(app).wf(),
    ensures
        final(app).wf(),
        activated(*old(app), *final(app), cmd),
{
    let idx = app.tabs.active;
    match app.tabs.tabs[idx].focused {
        None => {
            app.status = "Nothing focused — press Tab to select".to_owned();
            None
        },
        Some(FocusItem::Link(i)) => {
            if i < app.tabs.tabs[idx].links.len() {
                let href = crate::chars::copy_string(&app.tabs.tabs[idx].links[i].href);
                app.navigate(href)
            } else {
                None
            }
        },
        Some(FocusItem::Field(i)) => {
            if i >= app.tabs.tabs[idx].fields.len() {
                return None;
            }
            proof {
                lemma_same_tab(*app);
            }
            match &app.tabs.tabs[idx].fields[i].kind {
                FieldKind::Submit => {
                    let fi = app.tabs.tabs[idx].fields[i].form_idx;
                    app.submit_form(fi)
                },
                FieldKind::Text | FieldKind::Textarea => {
                    let buffer = copy_value(&app.tabs.tabs[idx], i);
                    let line = app.tabs.tabs[idx].fields[i].line;
                    app.tabs.tabs[idx].scroll = line;
                    app.input_mode = InputMode::FieldEdit { field_idx: i, buffer };
                    proof {
                        lemma_others_ok(*old(app), *app);
                    }
                    None
                },
                FieldKind::Checkbox => {
                    if i < app.tabs.tabs[idx].field_values.len() {
                        let toggle_val = crate::chars::copy_string(&app.tabs.tabs[idx].fields[i].value);
                        let v = if app.tabs.tabs[idx].field_values[i].as_str().is_empty() {
                            toggle_val
                        } else {
                            String::new()
                        };
                        set_value(app, i, v);
                    }
                    None
                },
                FieldKind::Radio => {
                    choose_radio(app, i);
                    None
                },
                FieldKind::Select(opts) => {
                    let current = copy_value(&app.tabs.tabs[idx], i);
                    let v = next_option_of(opts, &current);
                    if i < app.tabs.tabs[idx].field_values.len() {
                        set_value(app, i, v);
                    }
                    None
                },
                FieldKind::Hidden => None,
            }
        },
    }
}

/// The page a new tab opens: the focused link, or else the home page.
pub open spec fn new_tab_href(a: App) -> Seq<char> {
    match a.cur().focused {
        Some(FocusItem::Link(i)) => if i < a.cur().links@.len() {
            a.cur().links@[i as int].href@
        } else {
            a.settings.home_page@
        },
        _ => a.settings.home_page@,
    }
}

/// What a normal-mode action does to the app, and the outside work it asks
/// for.
pub open spec fn normal_effect(a: App, b: App, act: Action, cmd: Option<Command>) -> bool {
    let t = a.cur();
    match act {
        Action::Quit => cmd is None && b == (App { quit: true, ..a }),
        Action::ScrollDown(n) => cmd is None && tab_became(
            a,
            b,
            Tab { scroll: scrolled_down(t.scroll, n, t.lines@.len()), ..t },
        ),
        Action::ScrollUp(n) => cmd is None && tab_became(
            a,
            b,
            Tab { scroll: (if t.scroll >= n { (t.scroll - n) as usize } else { 0usize }), ..t },
        ),
        Action::Top => cmd is None && tab_became(a, b, Tab { scroll: 0, ..t }),
        Action::Bottom => cmd is None && tab_became(
            a,
            b,
            Tab { scroll: (if t.lines@.len() == 0 { 0 } else { t.lines@.len() - 1 }) as usize, ..t },
        ),
        Action::NextFocus => cmd is None && tab_became(a, b, next_focus_spec(t)),
        Action::PrevFocus => cmd is None && tab_became(a, b, prev_focus_spec(t)),
        Action::Activate => activated(a, b, cmd),
        Action::Back => went_back(a, b, cmd),
        Action::Forward => went_forward(a, b, cmd),
        Action::NewTab => opened_tab(a, b, cmd, new_tab_href(a)),
        Action::CloseTab => cmd is None && tab_closed(a.tabs, b.tabs) && b == (App { tabs: b.tabs, ..a }),
        Action::SwitchTab(k) => {
            &&& cmd is None
            &&& b.tabs.tabs == a.tabs.tabs
            &&& b.tabs.active == (if k < a.tabs.tabs@.len() { k } else { a.tabs.active })
            &&& b == (App { tabs: b.tabs, ..a })
        },
        Action::ToggleBookmark => (cmd matches Some(Command::SaveBookmarks)) && toggled(a, b),
        Action::ListBookmarks => cmd is None && status_only(
            a,
            b,
            bookmarks_status(a.bookmarks.view_entries().map_values(|e: (Seq<char>, Seq<char>)| e.0)),
        ),
        Action::StartSearch => {
            &&& cmd is None
            &&& tab_and_mode(a, b)
            &&& cleared(t, b.cur())
            &&& (b.input_mode matches InputMode::Search(q) && q@.len() == 0)
        },
        Action::SearchNext => cmd is None && tab_became(a, b, search_next_spec(t)),
        Action::SearchPrev => cmd is None && tab_became(a, b, search_prev_spec(t)),
        Action::EditUrl => cmd is None && mode_only(a, b) && (b.input_mode matches InputMode::Url(u) && u@ == t.url@),
        Action::Hints => cmd is None && hinted(a, b),
        Action::FirstField => cmd is None && match next_editable_spec(t.fields@, None) {
            Some(x) => {
                &&& tab_and_mode(a, b)
                &&& b.cur() == (Tab { scroll: t.fields@[x].line, ..t })
                &&& (b.input_mode matches InputMode::FieldEdit { field_idx, buffer } && field_idx == x && buffer@
                    == value_of(t, x))
            },
            None => status_only(a, b, "No editable form field on this page"@),
        },
        Action::Nothing => cmd is None && b == a,
    }
}

fn handle_normal(key: Key, app: &mut App) -> (cmd: Option<Command>)
    requires
        old(app).wf(),
        normal_action(key) is Hints ==> old(app).cur().links@.len() <= MAX_HINTS,
    ensures
        final(app).wf(),
        normal_effect(*old(app), *final(app), normal_action(key), cmd),
{
    let idx = app.tabs.active;
    let act = action_of(key);
    match act {
        Action::Quit => {
            app.quit = true;
            None
        },
        Action::ScrollDown(n) => {
            app.tabs.tabs[idx].scroll_down(n);
            proof {
                lemma_others_ok(*old(app), *app);
            }
            None
        },
        Action::ScrollUp(n) => {
            app.tabs.tabs[idx].scroll_up(n);
            proof {
                lemma_others_ok(*old(app), *app);
            }
            None
        },
        Action::Top => {
            app.tabs.tabs[idx].scroll = 0;
            proof {
                lemma_others_ok(*old(app), *app);
            }
            None
        },
        Action::Bottom => {
            app.tabs.tabs[idx].scroll_to_bottom();
            proof {
                lemma_others_ok(*old(app), *app);
            }
            None
        },
        Action::NextFocus => {
            app.tabs.tabs[idx].next_focus();
            proof {
                lemma_others_ok(*old(app), *app);
            }
            None
        },
        Action::PrevFocus => {
            app.tabs.tabs[idx].prev_focus();
            proof {
                lemma_others_ok(*old(app), *app);
            }
            None
        },
        Action::Activate => activate(app),
        Action::Back => app.go_back(),
        Action::Forward => app.go_forward(),
        Action::NewTab => {
            let href = match app.tabs.tabs[idx].selected_href() {
                Some(h) => h.to_owned(),
                None => crate::chars::copy_string(&app.settings.home_page),
            };
            app.open_new_tab(href)
        },
        Action::CloseTab => {
            app.tabs.close_current();
            proof {
                assert forall|k: int| 0 <= k < app.tabs.tabs@.len() implies search_ok(#[trigger] app.tabs.tabs@[k]) by {
                    if old(app).tabs.tabs@.len() > 1 {
                        let r = old(app).tabs.active as int;
                        if k < r {
                            assert(app.tabs.tabs@[k] == old(app).tabs.tabs@[k]);
                        } else {
                            assert(app.tabs.tabs@[k] == old(app).tabs.tabs@[k + 1]);
                        }
                    }
                }
            }
            None
        },
        Action::SwitchTab(k) => {
            app.tabs.switch_to(k);
            None
        },
        Action::ToggleBookmark => Some(app.toggle_bookmark()),
        Action::ListBookmarks => {
            app.list_bookmarks();
            None
        },
        Action::StartSearch => {
            app.input_mode = InputMode::Search(String::new());
            app.tabs.tabs[idx].clear_search();
            proof {
                lemma_others_ok(*old(app), *app);
            }
            None
        },
        Action::SearchNext => {
            assert(search_ok(app.cur()));
            assert(app.cur().search_matches.len() == app.cur().search_matches@.len());
            app.tabs.tabs[idx].search_next();
            proof {
                lemma_wrap_ok(old(app).cur());
                lemma_others_ok(*old(app), *app);
            }
            None
        },
        Action::SearchPrev => {
            assert(search_ok(app.cur()));
            app.tabs.tabs[idx].search_prev();
            proof {
                lemma_wrap_ok(old(app).cur());
            }
            proof {
                lemma_others_ok(*old(app), *app);
            }
            None
        },
        Action::EditUrl => {
            let url = crate::chars::copy_string(&app.tabs.tabs[idx].url);
            app.input_mode = InputMode::Url(url);
            None
        },
        Action::Hints => {
            app.enter_hint_mode();
            None
        },
        Action::FirstField => {
            match app.tabs.tabs[idx].next_editable_field(None) {
                Some(x) => {
                    proof {
                        law_next_editable_fits(old(app).cur().fields@, None);
                    }
                    assert(app.cur().fields@.len() == app.cur().fields.len());
                    let buffer = copy_value(&app.tabs.tabs[idx], x);
                    let line = app.tabs.tabs[idx].fields[x].line;
                    app.tabs.tabs[idx].scroll = line;
                    app.input_mode = InputMode::FieldEdit { field_idx: x, buffer };
                    proof {
                        lemma_others_ok(*old(app), *app);
                    }
                },
                None => {
                    app.status = "No editable form field on this page".to_owned();
                },
            }
            None
        },
        Action::Nothing => None,
    }
}

proof fn lemma_wrap_ok(t: Tab)
    requires
        search_ok(t),
    ensures
        search_ok(search_next_spec(t)),
        search_ok(search_prev_spec(t)),
{
    let n = t.search_matches@.len() as int;
    if n > 0 {
        assert(t.search_matches.len() == t.search_matches@.len());
        assert(((t.search_idx + 1) % n) < n) by (nonlinear_arith)
            requires
                n > 0,
        ;
    }
}


/// What a key does in the current input mode.
pub open spec fn key_effect(a: App, b: App, key: Key, cmd: Option<Command>) -> bool {
    match a.input_mode {
        InputMode::Search(q) => cmd is None && search_key(a, b, key, q@),
        InputMode::Url(buf) => url_key(a, b, key, buf@, cmd),
        InputMode::Hint(typed) => hint_key(a, b, key, typed@, cmd),
        InputMode::FieldEdit { field_idx, buffer } => field_key(a, b, key, field_idx, buffer@, cmd),
        InputMode::Normal => normal_effect(a, b, normal_action(key), cmd),
    }
}

/// Dispatch a key event based on current input mode. Returns the outside
/// work that the key asks for.
pub fn handle(key: Key, app: &mut App) -> (cmd: Option<Command>)
    requires
        old(app).wf(),
        old(app).input_mode is Normal && normal_action(key) is Hints ==> old(app).cur().links@.len() <= MAX_HINTS,
    ensures
        final(app).wf(),
        key_effect(*old(app), *final(app), key, cmd),
{
    match &app.input_mode {
        InputMode::Search(q) => {
            let q = crate::chars::copy_string(q);
            handle_search(key, app, q);
            None
        },
        InputMode::Url(b) => {
            let b = crate::chars::copy_string(b);
            handle_url(key, app, b)
        },
        InputMode::Hint(t) => {
            let t = crate::chars::copy_string(t);
            handle_hint(key, app, t)
        },
        InputMode::FieldEdit { field_idx, buffer } => {
            let i = *field_idx;
            let b = crate::chars::copy_string(buffer);
            handle_field_edit(key, app, i, b)
        },
        InputMode::Normal => handle_normal(key, app),
    }
}


// ── Laws ──────────────────────────────────────────────────────────────────────

proof fn lemma_trim_seps(s: Seq<char>)
    ensures
        trim_seps(s).len() <= s.len(),
        trim_seps(s) == s.take(trim_seps(s).len() as int),
        trim_seps(s).len() == 0 || !is_sep(trim_seps(s).last()),
    decreases s.len(),
{
    if s.len() > 0 && is_sep(s.last()) {
        lemma_trim_seps(s.drop_last());
        assert(s.drop_last().take(trim_seps(s).len() as int) =~= s.take(trim_seps(s).len() as int));
    } else {
        assert(s.take(s.len() as int) =~= s);
    }
}

proof fn lemma_trim_segment(s: Seq<char>)
    ensures
        trim_segment(s).len() <= s.len(),
        trim_segment(s) == s.take(trim_segment(s).len() as int),
        trim_segment(s).len() == 0 || is_sep(trim_segment(s).last()),
    decreases s.len(),
{
    if s.len() > 0 && !is_sep(s.last()) {
        lemma_trim_segment(s.drop_last());
        assert(s.drop_last().take(trim_segment(s).len() as int) =~= s.take(trim_segment(s).len() as int));
    } else {
        assert(s.take(s.len() as int) =~= s);
    }
}

/// Ctrl+W in the address bar keeps a prefix of the buffer that is empty or
/// ends with `/` or a space, and removes at least the last segment.
pub proof fn law_clear_last_segment(s: Seq<char>)
    ensures
        clear_last_segment_spec(s).len() <= s.len(),
        clear_last_segment_spec(s) == s.take(clear_last_segment_spec(s).len() as int),
        clear_last_segment_spec(s).len() == 0 || is_sep(clear_last_segment_spec(s).last()),
        s.len() > 0 && !is_sep(s.last()) ==> clear_last_segment_spec(s).len() < s.len(),
{
    lemma_trim_seps(s);
    let t = trim_seps(s);
    lemma_trim_segment(t);
    let r = trim_segment(t);
    assert(s.take(r.len() as int) =~= t.take(r.len() as int));
    if s.len() > 0 && !is_sep(s.last()) {
        assert(t == s);
        assert(r.len() < s.len());
    }
}

/// Typing a character and then Backspace in the address bar gives back the
/// buffer one had.
pub proof fn law_url_type_then_delete(buf: Seq<char>, c: char)
    ensures
        pop_char(buf.push(c)) == buf,
{
    assert(buf.push(c).drop_last() =~= buf);
}


/// In normal mode `j` and the Down arrow scroll one line down, stopping on
/// the last line; `k` and the Up arrow one line up, stopping at the top.
/// Nothing is fetched, the same tab stays current and its lines are kept.
pub proof fn law_line_scroll_keys(a: App, b: App, key: Key, cmd: Option<Command>)
    requires
        a.wf(),
        a.input_mode is Normal,
        key.modifiers == NONE,
        key_effect(a, b, key, cmd),
    ensures
        key.code == KeyCode::Char('j') || key.code == KeyCode::Down ==> {
            let n = a.cur().lines@.len() as int;
            let last = if n == 0 { 0 } else { n - 1 };
            &&& cmd is None
            &&& b.tabs.active == a.tabs.active
            &&& b.cur().lines == a.cur().lines
            &&& b.cur().scroll as int == (if a.cur().scroll + 1 < last { a.cur().scroll + 1 } else { last })
        },
        key.code == KeyCode::Char('k') || key.code == KeyCode::Up ==> {
            &&& cmd is None
            &&& b.tabs.active == a.tabs.active
            &&& b.cur().lines == a.cur().lines
            &&& b.cur().scroll as int == (if a.cur().scroll >= 1 { a.cur().scroll - 1 } else { 0 })
        },
{
    if key.code == KeyCode::Char('j') || key.code == KeyCode::Down || key.code == KeyCode::Char('k')
        || key.code == KeyCode::Up {
        assert(b.tabs.tabs@[a.tabs.active as int] == with_current(a, b.cur())[a.tabs.active as int]);
        assert(a.cur().lines@.len() == a.cur().lines.len());
    }
}

} // verus!
