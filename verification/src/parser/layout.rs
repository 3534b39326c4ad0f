//! Layout: word-wrap for terminal width.
//!
//! Takes rendered lines + link/image positions and wraps long lines at word
//! boundaries while preserving ANSI escape sequences and adjusting link/image
//! line indices to the new wrapped layout.

use vstd::prelude::*;

use crate::chars::{ansi_visible, ansi_visible_from, contains_char, from_chars, to_chars, ESC};
use crate::renderer::text::{RenderedImage, RenderedLink};

verus! {

/// Default terminal width when none is supplied.
pub const DEFAULT_WIDTH: usize = 100;

/// The views of a list of strings.
pub open spec fn strs_view(v: Seq<String>) -> Seq<Seq<char>> {
    v.map_values(|s: String| s@)
}

/// Visible (printable) width of `s` — skips ANSI escape sequences.
pub fn visible_width(s: &str) -> (n: usize)
    ensures
        n == ansi_visible(s@).len(),
{
    let cs = to_chars(s);
    let mut count: usize = 0;
    let mut esc = false;
    let mut i: usize = 0;
    while i < cs.len()
        invariant
            i <= cs@.len(),
            cs@ == s@,
            count <= i,
            count + ansi_visible_from(cs@, i as int, esc).len() == ansi_visible(cs@).len(),
        decreases cs@.len() - i,
    {
        let c = cs[i];
        if c == ESC {
            esc = true;
        } else if esc {
            if c == 'm' {
                esc = false;
            }
        } else {
            count = count + 1;
        }
        i = i + 1;
    }
    count
}

/// Scanning down from `k`, the last position in `[start, k)` that holds a
/// space, or `none` when there is none.
pub open spec fn last_space(c: Seq<char>, start: int, k: int, none: int) -> int
    decreases k - start,
{
    if k <= start {
        none
    } else if c[k - 1] == ' ' {
        k - 1
    } else {
        last_space(c, start, k - 1, none)
    }
}

pub proof fn lemma_last_space_range(c: Seq<char>, start: int, k: int, none: int)
    requires
        start <= k <= none,
    ensures
        start <= last_space(c, start, k, none) <= none,
        last_space(c, start, k, none) < none ==> c[last_space(c, start, k, none)] == ' ',
    decreases k - start,
{
    if k > start && c[k - 1] != ' ' {
        lemma_last_space_range(c, start, k - 1, none);
    }
}

/// Where the next piece starts after a cut at `cut`: past the space when the
/// cut is at a space; at the cut itself on a hard break, so that no character
/// is lost; one further only when nothing could be cut (a zero width).
pub open spec fn resume_at(c: Seq<char>, start: int, cut: int) -> int {
    if c[cut] == ' ' {
        cut + 1
    } else if cut > start {
        cut
    } else {
        cut + 1
    }
}

/// The pieces that `wrap_one` cuts from `c`, starting at `start`: while more
/// than `w` characters remain, a piece ends at the last space inside the next
/// `w` characters (or after `w` characters when there is none, a hard break),
/// a space at the cut is dropped, and empty pieces are not kept.
pub open spec fn wrap_pieces(c: Seq<char>, start: int, w: nat) -> Seq<Seq<char>>
    decreases c.len() - start,
{
    if start < 0 || start >= c.len() {
        Seq::empty()
    } else if c.len() - start <= w {
        seq![c.subrange(start, c.len() as int)]
    } else {
        let window_end = start + w;
        let cut = last_space(c, start, window_end, window_end);
        proof {
            lemma_last_space_range(c, start, window_end, window_end);
        }
        let chunk = c.subrange(start, cut);
        let rest = wrap_pieces(c, resume_at(c, start, cut), w);
        if chunk.len() > 0 {
            seq![chunk] + rest
        } else {
            rest
        }
    }
}

/// Split `line` into pieces of at most `max_width` visible chars, breaking on
/// spaces where possible; the line holds no ANSI escapes.
fn wrap_one(line: &str, max_width: usize, out: &mut Vec<String>)
    ensures
        strs_view(final(out)@) == strs_view(old(out)@) + wrap_pieces(line@, 0, max_width as nat),
{
    let chars = to_chars(line);
    let ghost c = chars@;
    let mut start: usize = 0;
    while start < chars.len()
        invariant
            c == chars@,
            c == line@,
            start <= c.len(),
            strs_view(out@) + wrap_pieces(c, start as int, max_width as nat) == strs_view(old(out)@)
                + wrap_pieces(c, 0, max_width as nat),
        decreases c.len() - start,
    {
        let remaining = chars.len() - start;
        if remaining <= max_width {
            let piece = from_chars(&chars.as_slice()[start..chars.len()]);
            let ghost before = strs_view(out@);
            out.push(piece);
            assert(strs_view(out@) =~= before.push(c.subrange(start as int, c.len() as int)));
            assert(wrap_pieces(c, chars.len() as int, max_width as nat) =~= Seq::<Seq<char>>::empty());
            start = chars.len();
            assert(strs_view(out@) + wrap_pieces(c, start as int, max_width as nat) =~= strs_view(old(out)@)
                + wrap_pieces(c, 0, max_width as nat));
        } else {
            // Find last space within the window.
            let window_end = start + max_width;
            let mut k: usize = window_end;
            while k > start && chars[k - 1] != ' '
                invariant
                    start <= k <= window_end,
                    window_end < c.len(),
                    c == chars@,
                    last_space(c, start as int, k as int, window_end as int) == last_space(
                        c,
                        start as int,
                        window_end as int,
                        window_end as int,
                    ),
                decreases k - start,
            {
                k = k - 1;
            }
            // hard-break if no space
            let break_at = if k > start {
                k - 1
            } else {
                window_end
            };
            proof {
                lemma_last_space_range(c, start as int, window_end as int, window_end as int);
            }
            assert(break_at == last_space(c, start as int, window_end as int, window_end as int));
            let ghost before = strs_view(out@);
            if break_at > start {
                let chunk = from_chars(&chars.as_slice()[start..break_at]);
                out.push(chunk);
                assert(strs_view(out@) =~= before.push(c.subrange(start as int, break_at as int)));
            } else {
                assert(strs_view(out@) =~= before);
            }
            // A breaking space starts no piece; on a hard break the next piece
            // starts at the cut, unless nothing was cut at all.
            start = if chars[break_at] == ' ' {
                break_at + 1
            } else if break_at > start {
                break_at
            } else {
                break_at + 1
            };
            assert(strs_view(out@) + wrap_pieces(c, start as int, max_width as nat) =~= strs_view(old(out)@)
                + wrap_pieces(c, 0, max_width as nat));
        }
    }
}

/// How one rendered line is laid out: a line holding an escape sequence (an
/// inline image row) or one that fits stays whole; a longer one is cut by
/// [`wrap_pieces`].
pub open spec fn wrap_line(l: Seq<char>, w: nat) -> Seq<Seq<char>> {
    if l.contains(ESC) || ansi_visible(l).len() <= w {
        seq![l]
    } else {
        wrap_pieces(l, 0, w)
    }
}

/// All lines laid out, in order.
pub open spec fn wrap_all(ls: Seq<Seq<char>>, w: nat) -> Seq<Seq<char>>
    decreases ls.len(),
{
    if ls.len() == 0 {
        Seq::empty()
    } else {
        wrap_all(ls.drop_last(), w) + wrap_line(ls.last(), w)
    }
}

/// Where input line `i` lands after wrapping: the index of its first piece.
/// Indices past the input are left unchanged.
pub open spec fn wrapped_index(ls: Seq<Seq<char>>, w: nat, i: int) -> int {
    if 0 <= i < ls.len() {
        wrap_all(ls.take(i), w).len() as int
    } else {
        i
    }
}

/// Wrap `lines` at `max_width` and update link/image line indices to match.
///
/// Lines that already fit pass through unchanged. Lines wider than `max_width`
/// are broken at the nearest preceding space; lines with no space are hard-broken
/// at the width boundary. Lines that contain ANSI escape sequences (typically
/// image lines) are left intact — they're already sized by the image renderer.
pub fn wrap_lines(
    lines: Vec<String>,
    links: &mut [RenderedLink],
    images: &mut [RenderedImage],
    max_width: usize,
) -> (out: Vec<String>)
    ensures
        strs_view(out@) == wrap_all(strs_view(lines@), max_width as nat),
        final(links)@.len() == old(links)@.len(),
        forall|k: int|
            0 <= k < old(links)@.len() ==> {
                &&& (#[trigger] final(links)@[k]).href == old(links)@[k].href
                &&& final(links)@[k].line == wrapped_index(
                    strs_view(lines@),
                    max_width as nat,
                    old(links)@[k].line as int,
                )
            },
        final(images)@.len() == old(images)@.len(),
        forall|k: int|
            0 <= k < old(images)@.len() ==> {
                &&& (#[trigger] final(images)@[k]).src == old(images)@[k].src
                &&& final(images)@[k].alt == old(images)@[k].alt
                &&& final(images)@[k].line == wrapped_index(
                    strs_view(lines@),
                    max_width as nat,
                    old(images)@[k].line as int,
                )
            },
{
    let ghost ls = strs_view(lines@);
    let mut out: Vec<String> = Vec::new();
    let mut index_map: Vec<usize> = Vec::new();
    let n = lines.len();
    let mut i: usize = 0;
    while i < n
        invariant
            n == lines@.len(),
            ls == strs_view(lines@),
            i <= n,
            strs_view(out@) == wrap_all(ls.take(i as int), max_width as nat),
            index_map@.len() == i,
            forall|k: int|
                0 <= k < i ==> #[trigger] index_map@[k] == wrap_all(ls.take(k), max_width as nat).len(),
        decreases n - i,
    {
        assert(ls.take(i + 1).drop_last() =~= ls.take(i as int));
        assert(ls.take(i + 1).last() == lines@[i as int]@);
        index_map.push(out.len());
        let line = &lines[i];
        let cs = to_chars(line.as_str());
        if contains_char(cs.as_slice(), ESC) || visible_width(line.as_str()) <= max_width {
            let copy = from_chars(cs.as_slice());
            let ghost before = strs_view(out@);
            out.push(copy);
            assert(strs_view(out@) =~= before + seq![line@]);
        } else {
            let ghost before = strs_view(out@);
            wrap_one(line.as_str(), max_width, &mut out);
        }
        i = i + 1;
    }
    assert(ls.take(n as int) =~= ls);

    let mut k: usize = 0;
    while k < links.len()
        invariant
            index_map@.len() == n,
            n == ls.len(),
            forall|j: int|
                0 <= j < n ==> #[trigger] index_map@[j] == wrap_all(ls.take(j), max_width as nat).len(),
            k <= links@.len(),
            links@.len() == old(links)@.len(),
            forall|j: int|
                k <= j < links@.len() ==> #[trigger] links@[j] == old(links)@[j],
            forall|j: int|
                0 <= j < k ==> {
                    &&& (#[trigger] links@[j]).href == old(links)@[j].href
                    &&& links@[j].line == wrapped_index(ls, max_width as nat, old(links)@[j].line as int)
                },
        decreases links@.len() - k,
    {
        let line = links[k].line;
        assert(links@[k as int] == old(links)@[k as int]);
        if line < index_map.len() {
            let new_line = index_map[line];
            assert(new_line == wrapped_index(ls, max_width as nat, line as int));
            links[k].line = new_line;
        }
        k = k + 1;
    }

    let mut k: usize = 0;
    while k < images.len()
        invariant
            index_map@.len() == n,
            n == ls.len(),
            forall|j: int|
                0 <= j < n ==> #[trigger] index_map@[j] == wrap_all(ls.take(j), max_width as nat).len(),
            k <= images@.len(),
            images@.len() == old(images)@.len(),
            forall|j: int|
                k <= j < images@.len() ==> #[trigger] images@[j] == old(images)@[j],
            forall|j: int|
                0 <= j < k ==> {
                    &&& (#[trigger] images@[j]).src == old(images)@[j].src
                    &&& images@[j].alt == old(images)@[j].alt
                    &&& images@[j].line == wrapped_index(ls, max_width as nat, old(images)@[j].line as int)
                },
        decreases images@.len() - k,
    {
        let line = images[k].line;
        assert(images@[k as int] == old(images)@[k as int]);
        if line < index_map.len() {
            let new_line = index_map[line];
            assert(new_line == wrapped_index(ls, max_width as nat, line as int));
            images[k].line = new_line;
        }
        k = k + 1;
    }
    out
}

/// A line with no escape character is all printable.
pub proof fn lemma_visible_plain(s: Seq<char>, i: int)
    requires
        0 <= i <= s.len(),
        !s.contains(ESC),
    ensures
        ansi_visible_from(s, i, false) == s.subrange(i, s.len() as int),
    decreases s.len() - i,
{
    if i < s.len() {
        assert(s[i] != ESC);
        lemma_visible_plain(s, i + 1);
        assert(seq![s[i]] + s.subrange(i + 1, s.len() as int) =~= s.subrange(i, s.len() as int));
    } else {
        assert(s.subrange(i, s.len() as int) =~= Seq::<char>::empty());
    }
}

/// Every piece cut from `c` is a run of `c` of at most `w` characters.
proof fn lemma_pieces_short(c: Seq<char>, start: int, w: nat)
    ensures
        forall|k: int|
            0 <= k < wrap_pieces(c, start, w).len() ==> {
                &&& (#[trigger] wrap_pieces(c, start, w)[k]).len() <= w
                &&& forall|x: char| wrap_pieces(c, start, w)[k].contains(x) ==> c.contains(x)
            },
    decreases c.len() - start,
{
    if start < 0 || start >= c.len() {
    } else if c.len() - start <= w {
        let p = c.subrange(start, c.len() as int);
        assert forall|x: char| p.contains(x) implies c.contains(x) by {
            let j = choose|j: int| 0 <= j < p.len() && p[j] == x;
            assert(c[start + j] == x);
        }
    } else {
        let window_end = start + w;
        let cut = last_space(c, start, window_end, window_end);
        lemma_last_space_range(c, start, window_end, window_end);
        lemma_pieces_short(c, resume_at(c, start, cut), w);
        let chunk = c.subrange(start, cut);
        let rest = wrap_pieces(c, resume_at(c, start, cut), w);
        assert forall|x: char| chunk.contains(x) implies c.contains(x) by {
            let j = choose|j: int| 0 <= j < chunk.len() && chunk[j] == x;
            assert(c[start + j] == x);
        }
        if chunk.len() > 0 {
            assert forall|k: int| 0 <= k < wrap_pieces(c, start, w).len() implies {
                &&& (#[trigger] wrap_pieces(c, start, w)[k]).len() <= w
                &&& forall|x: char| wrap_pieces(c, start, w)[k].contains(x) ==> c.contains(x)
            } by {
                if k > 0 {
                    assert(wrap_pieces(c, start, w)[k] == rest[k - 1]);
                }
            }
        }
    }
}

proof fn lemma_wrap_all_fits(ls: Seq<Seq<char>>, w: nat)
    ensures
        forall|k: int|
            0 <= k < wrap_all(ls, w).len() ==> {
                let l = #[trigger] wrap_all(ls, w)[k];
                l.contains(ESC) || ansi_visible(l).len() <= w
            },
    decreases ls.len(),
{
    if ls.len() > 0 {
        lemma_wrap_all_fits(ls.drop_last(), w);
        let pre = wrap_all(ls.drop_last(), w);
        let last = wrap_line(ls.last(), w);
        let l0 = ls.last();
        if !(l0.contains(ESC) || ansi_visible(l0).len() <= w) {
            lemma_pieces_short(l0, 0, w);
        }
        assert forall|k: int| 0 <= k < wrap_all(ls, w).len() implies {
            let l = #[trigger] wrap_all(ls, w)[k];
            l.contains(ESC) || ansi_visible(l).len() <= w
        } by {
            let l = wrap_all(ls, w)[k];
            if k >= pre.len() {
                assert(l == last[k - pre.len()]);
                if !(l0.contains(ESC) || ansi_visible(l0).len() <= w) {
                    if !l.contains(ESC) {
                        lemma_visible_plain(l, 0);
                        assert(l.subrange(0, l.len() as int) =~= l);
                    }
                }
            } else {
                assert(l == pre[k]);
            }
        }
    }
}

/// After wrapping, every line either holds an escape sequence (an image row,
/// which is never cut) or is at most `w` printable characters wide.
pub proof fn law_wrapped_lines_fit(ls: Seq<Seq<char>>, w: nat, k: int)
    requires
        0 <= k < wrap_all(ls, w).len(),
    ensures
        wrap_all(ls, w)[k].contains(ESC) || ansi_visible(wrap_all(ls, w)[k]).len() <= w,
{
    lemma_wrap_all_fits(ls, w);
}

/// A line that already fits is left as it is.
pub proof fn law_short_line_unchanged(l: Seq<char>, w: nat)
    requires
        ansi_visible(l).len() <= w,
    ensures
        wrap_all(seq![l], w) == seq![l],
{
    assert(seq![l].drop_last() =~= Seq::<Seq<char>>::empty());
    assert(wrap_all(Seq::<Seq<char>>::empty(), w) =~= Seq::<Seq<char>>::empty());
    assert(wrap_all(seq![l], w) =~= seq![l]);
}


/// `s` without its spaces.
pub open spec fn no_spaces(s: Seq<char>) -> Seq<char>
    decreases s.len(),
{
    if s.len() == 0 {
        s
    } else {
        (if s[0] == ' ' {
            Seq::empty()
        } else {
            seq![s[0]]
        }) + no_spaces(s.drop_first())
    }
}

/// The pieces joined end to end.
pub open spec fn joined(ps: Seq<Seq<char>>) -> Seq<char>
    decreases ps.len(),
{
    if ps.len() == 0 {
        Seq::empty()
    } else {
        ps[0] + joined(ps.drop_first())
    }
}

proof fn lemma_no_spaces_add(a: Seq<char>, b: Seq<char>)
    ensures
        no_spaces(a + b) == no_spaces(a) + no_spaces(b),
    decreases a.len(),
{
    if a.len() == 0 {
        assert(a + b =~= b);
    } else {
        lemma_no_spaces_add(a.drop_first(), b);
        assert((a + b).drop_first() =~= a.drop_first() + b);
        assert((a + b)[0] == a[0]);
    }
}

proof fn lemma_pieces_keep_characters(c: Seq<char>, start: int, w: nat)
    requires
        w >= 1,
        0 <= start <= c.len(),
    ensures
        no_spaces(joined(wrap_pieces(c, start, w))) == no_spaces(c.subrange(start, c.len() as int)),
    decreases c.len() - start,
{
    let tail = c.subrange(start, c.len() as int);
    if start >= c.len() {
        assert(tail =~= Seq::<char>::empty());
    } else if c.len() - start <= w {
        let ps = wrap_pieces(c, start, w);
        assert(ps[0] == tail);
        assert(ps.drop_first() =~= Seq::<Seq<char>>::empty());
        assert(joined(Seq::<Seq<char>>::empty()) =~= Seq::<char>::empty());
        assert(joined(ps) =~= tail);
    } else {
        let window_end = start + w;
        let cut = last_space(c, start, window_end, window_end);
        lemma_last_space_range(c, start, window_end, window_end);
        let next = resume_at(c, start, cut);
        let chunk = c.subrange(start, cut);
        let gap = c.subrange(cut, next);
        let rest = wrap_pieces(c, next, w);
        lemma_pieces_keep_characters(c, next, w);
        assert(tail =~= chunk + gap + c.subrange(next, c.len() as int));
        lemma_no_spaces_add(chunk + gap, c.subrange(next, c.len() as int));
        lemma_no_spaces_add(chunk, gap);
        if next == cut + 1 {
            assert(c[cut] == ' ');
            assert(gap =~= seq![' ']);
            assert(gap.drop_first() =~= Seq::<char>::empty());
            assert(no_spaces(Seq::<char>::empty()) =~= Seq::<char>::empty());
            assert(gap[0] == ' ');
        } else {
            assert(gap =~= Seq::<char>::empty());
        }
        assert(no_spaces(gap) =~= Seq::<char>::empty());
        if chunk.len() > 0 {
            let ps = wrap_pieces(c, start, w);
            assert(ps.drop_first() =~= rest);
            lemma_no_spaces_add(chunk, joined(rest));
        } else {
            assert(chunk =~= Seq::<char>::empty());
        }
    }
}

/// Wrapping loses no character but the spaces it breaks at: the pieces of a
/// line, joined, hold the line's other characters in order.
pub proof fn law_wrap_keeps_characters(c: Seq<char>, w: nat)
    requires
        w >= 1,
    ensures
        no_spaces(joined(wrap_pieces(c, 0, w))) == no_spaces(c),
{
    lemma_pieces_keep_characters(c, 0, w);
    assert(c.subrange(0, c.len() as int) =~= c);
}

} // verus!
