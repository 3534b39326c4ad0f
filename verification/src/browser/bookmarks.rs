//! Bookmark store — kept in memory here; the program saves it to
//! `~/.config/spiderweb/bookmarks.json`.

use std::path::PathBuf;

use vstd::prelude::*;
use vstd::utf8::encode_utf8;

use crate::chars::{is_ascii_alpha, is_digit};

verus! {

#[verifier::external_type_specification]
#[verifier::external_body]
pub struct ExPathBuf(PathBuf);

/// A single saved bookmark.
#[derive(Debug, Clone)]
pub struct Bookmark {
    pub url: String,
    pub title: String,
}

/// Bookmark store — loaded from and saved to disk.
pub struct Bookmarks {
    pub path: PathBuf,
    pub entries: Vec<Bookmark>,
}

/// A bookmark as (url, title).
pub open spec fn bookmark_view(b: Bookmark) -> (Seq<char>, Seq<char>) {
    (b.url@, b.title@)
}

/// The bookmarks of a store, in the order they were added.
pub open spec fn entries_view(v: Seq<Bookmark>) -> Seq<(Seq<char>, Seq<char>)> {
    v.map_values(|b: Bookmark| bookmark_view(b))
}

/// `true` when some bookmark in `es` has the URL `url`.
pub open spec fn has_url(es: Seq<(Seq<char>, Seq<char>)>, url: Seq<char>) -> bool {
    exists|i: int| 0 <= i < es.len() && (#[trigger] es[i]).0 == url
}

/// No URL is bookmarked twice.
pub open spec fn urls_distinct(es: Seq<(Seq<char>, Seq<char>)>) -> bool {
    forall|i: int, j: int| 0 <= i < j < es.len() ==> (#[trigger] es[i]).0 != (#[trigger] es[j]).0
}

/// The store after adding `(url, title)`: unchanged when the URL is already
/// bookmarked, else the bookmark is appended.
pub open spec fn add_spec(es: Seq<(Seq<char>, Seq<char>)>, url: Seq<char>, title: Seq<char>) -> Seq<
    (Seq<char>, Seq<char>),
> {
    if has_url(es, url) {
        es
    } else {
        es.push((url, title))
    }
}

/// The store with every bookmark of `url` taken out, the others kept in order.
pub open spec fn remove_spec(es: Seq<(Seq<char>, Seq<char>)>, url: Seq<char>) -> Seq<
    (Seq<char>, Seq<char>),
>
    decreases es.len(),
{
    if es.len() == 0 {
        es
    } else if es.last().0 == url {
        remove_spec(es.drop_last(), url)
    } else {
        remove_spec(es.drop_last(), url).push(es.last())
    }
}

/// `dirs::config_dir`: the user's configuration directory, when the platform has one.
#[verifier::external_body]
fn config_dir() -> (r: Option<PathBuf>) {
    dirs::config_dir()
}

/// The components of a path, in order (`Path::components`), each as the
/// bytes of its text (`OsStr::as_encoded_bytes`).
pub uninterp spec fn path_components(p: PathBuf) -> Seq<Seq<u8>>;

/// A name that is always one ordinary path component on every platform:
/// not empty, only ASCII letters, digits, `-`, `_` and `.`, and at least one
/// letter or digit (so neither `.` nor `..`).
pub open spec fn plain_segment(s: Seq<char>) -> bool {
    &&& s.len() > 0
    &&& forall|i: int|
        0 <= i < s.len() ==> (is_ascii_alpha(#[trigger] s[i]) || is_digit(s[i]) || s[i] == '-' || s[i] == '_' || s[i]
            == '.')
    &&& exists|i: int| 0 <= i < s.len() && (is_ascii_alpha(#[trigger] s[i]) || is_digit(s[i]))
}

/// `PathBuf::new`: the empty path, with no components.
#[verifier::external_body]
fn empty_path() -> (r: PathBuf)
    ensures
        path_components(r) == Seq::<Seq<u8>>::empty(),
{
    PathBuf::new()
}

/// `Path::join`: `base` with `segment` adjoined (`PathBuf::push`). A plain
/// relative name is appended as one more component, the others kept; what
/// other segments give (absolute paths replace the base, separators split)
/// is left unsaid.
#[verifier::external_body]
fn join_path(base: &PathBuf, segment: &str) -> (r: PathBuf)
    ensures
        plain_segment(segment@) ==> path_components(r) == path_components(*base).push(encode_utf8(segment@)),
{
    base.join(segment)
}

/// The bookmark file's place: a `spiderweb` directory holding
/// `bookmarks.json`, under some directory.
pub open spec fn bookmark_file(p: PathBuf) -> bool {
    let c = path_components(p);
    &&& c.len() >= 2
    &&& c[c.len() - 2] == encode_utf8("spiderweb"@)
    &&& c[c.len() - 1] == encode_utf8("bookmarks.json"@)
}

impl Bookmarks {
    /// The bookmarks, in order, as (url, title).
    pub open spec fn view_entries(&self) -> Seq<(Seq<char>, Seq<char>)> {
        entries_view(self.entries@)
    }

    /// Empty store at the default path, `spiderweb/bookmarks.json` under the
    /// user's configuration directory — used as a fallback when loading fails.
    pub fn empty() -> (b: Self)
        ensures
            b.view_entries() == Seq::<(Seq<char>, Seq<char>)>::empty(),
            bookmark_file(b.path),
    {
        proof {
            reveal_strlit("spiderweb");
            reveal_strlit("bookmarks.json");
            assert(is_ascii_alpha("spiderweb"@[0]));
            assert(is_ascii_alpha("bookmarks.json"@[0]));
        }
        let dir = match config_dir() {
            Some(d) => d,
            None => empty_path(),
        };
        let app_dir = join_path(&dir, "spiderweb");
        let path = join_path(&app_dir, "bookmarks.json");
        let b = Bookmarks { path, entries: Vec::new() };
        assert(b.view_entries() =~= Seq::<(Seq<char>, Seq<char>)>::empty());
        b
    }

    /// Add a bookmark, deduplicating by URL.
    pub fn add(&mut self, url: String, title: String)
        ensures
            final(self).view_entries() == add_spec(old(self).view_entries(), url@, title@),
            final(self).path == old(self).path,
    {
        if !self.contains(url.as_str()) {
            let ghost u = url@;
            let ghost t = title@;
            self.entries.push(Bookmark { url, title });
            assert(self.view_entries() =~= old(self).view_entries().push((u, t)));
        }
    }

    /// Remove bookmark by URL. Returns `true` if found and removed.
    pub fn remove(&mut self, url: &str) -> (found: bool)
        ensures
            final(self).view_entries() == remove_spec(old(self).view_entries(), url@),
            found == has_url(old(self).view_entries(), url@),
            final(self).path == old(self).path,
    {
        let ghost es = self.view_entries();
        let mut kept: Vec<Bookmark> = Vec::new();
        let mut found = false;
        let n = self.entries.len();
        let mut i: usize = 0;
        while i < n
            invariant
                n == self.entries@.len(),
                es == self.view_entries(),
                self.path == old(self).path,
                self.view_entries() == old(self).view_entries(),
                i <= n,
                entries_view(kept@) == remove_spec(es.take(i as int), url@),
                found == has_url(es.take(i as int), url@),
            decreases n - i,
        {
            assert(es.take(i + 1).drop_last() =~= es.take(i as int));
            assert(es.take(i + 1).last() == es[i as int]);
            if crate::chars::str_eq(self.entries[i].url.as_str(), url) {
                found = true;
                assert(es.take(i + 1)[i as int].0 == url@);
            } else {
                let b = Bookmark {
                    url: crate::chars::copy_string(&self.entries[i].url),
                    title: crate::chars::copy_string(&self.entries[i].title),
                };
                let ghost before = entries_view(kept@);
                kept.push(b);
                assert(entries_view(kept@) =~= before.push(es[i as int]));
                assert(has_url(es.take(i + 1), url@) == has_url(es.take(i as int), url@)) by {
                    if has_url(es.take(i + 1), url@) {
                        let j = choose|j: int| 0 <= j < es.take(i + 1).len() && (#[trigger] es.take(i + 1)[j]).0 == url@;
                        assert(es.take(i as int)[j] == es.take(i + 1)[j]);
                    }
                    if has_url(es.take(i as int), url@) {
                        let j = choose|j: int| 0 <= j < es.take(i as int).len() && (#[trigger] es.take(i as int)[j]).0 == url@;
                        assert(es.take(i as int)[j] == es.take(i + 1)[j]);
                    }
                }
            }
            if found {
                assert(has_url(es.take(i + 1), url@)) by {
                    if has_url(es.take(i as int), url@) {
                        let j = choose|j: int| 0 <= j < es.take(i as int).len() && (#[trigger] es.take(i as int)[j]).0 == url@;
                        assert(es.take(i as int)[j] == es.take(i + 1)[j]);
                    } else {
                        assert(es.take(i + 1)[i as int].0 == url@);
                    }
                }
            }
            i = i + 1;
        }
        assert(es.take(n as int) =~= es);
        self.entries = kept;
        found
    }

    pub fn contains(&self, url: &str) -> (b: bool)
        ensures
            b == has_url(self.view_entries(), url@),
    {
        let mut i: usize = 0;
        while i < self.entries.len()
            invariant
                i <= self.entries@.len(),
                forall|k: int| 0 <= k < i ==> (#[trigger] self.view_entries()[k]).0 != url@,
            decreases self.entries@.len() - i,
        {
            if crate::chars::str_eq(self.entries[i].url.as_str(), url) {
                assert(self.view_entries()[i as int].0 == url@);
                return true;
            }
            i = i + 1;
        }
        false
    }
}

proof fn lemma_remove_spec_no_url(es: Seq<(Seq<char>, Seq<char>)>, url: Seq<char>)
    ensures
        !has_url(remove_spec(es, url), url),
        remove_spec(es, url).len() <= es.len(),
        forall|e: (Seq<char>, Seq<char>)| remove_spec(es, url).contains(e) ==> es.contains(e),
    decreases es.len(),
{
    if es.len() > 0 {
        lemma_remove_spec_no_url(es.drop_last(), url);
        let r0 = remove_spec(es.drop_last(), url);
        let r = remove_spec(es, url);
        assert forall|e: (Seq<char>, Seq<char>)| r.contains(e) implies es.contains(e) by {
            if r0.contains(e) {
                assert(es.drop_last().contains(e));
                let j = choose|j: int| 0 <= j < es.drop_last().len() && es.drop_last()[j] == e;
                assert(es[j] == e);
            } else {
                let k = choose|k: int| 0 <= k < r.len() && r[k] == e;
                assert(es.last().0 != url);
                assert(r == r0.push(es.last()));
                if k < r0.len() {
                    assert(r0[k] == e);
                }
                assert(e == es.last());
                assert(es[es.len() - 1] == e);
            }
        }
        if has_url(r, url) {
            let j = choose|j: int| 0 <= j < r.len() && (#[trigger] r[j]).0 == url;
            if es.last().0 != url && j == r.len() - 1 {
                assert(r[j] == es.last());
            } else {
                assert(r[j] == r0[j]);
            }
        }
    }
}

proof fn lemma_remove_spec_absent(es: Seq<(Seq<char>, Seq<char>)>, url: Seq<char>)
    requires
        !has_url(es, url),
    ensures
        remove_spec(es, url) == es,
    decreases es.len(),
{
    if es.len() > 0 {
        assert(!has_url(es.drop_last(), url)) by {
            if has_url(es.drop_last(), url) {
                let j = choose|j: int| 0 <= j < es.drop_last().len() && (#[trigger] es.drop_last()[j]).0 == url;
                assert(es[j] == es.drop_last()[j]);
            }
        }
        lemma_remove_spec_absent(es.drop_last(), url);
        assert(es.last() == es[es.len() - 1]);
        assert(es.drop_last().push(es.last()) =~= es);
    }
}

/// After adding a bookmark its URL is bookmarked.
pub proof fn law_add_then_contains(es: Seq<(Seq<char>, Seq<char>)>, url: Seq<char>, title: Seq<char>)
    ensures
        has_url(add_spec(es, url, title), url),
{
    if !has_url(es, url) {
        let r = add_spec(es, url, title);
        assert(r[es.len() as int].0 == url);
    }
}

/// Adding the same URL twice stores it once: the second add changes nothing.
pub proof fn law_add_idempotent(
    es: Seq<(Seq<char>, Seq<char>)>,
    url: Seq<char>,
    title: Seq<char>,
    title2: Seq<char>,
)
    ensures
        add_spec(add_spec(es, url, title), url, title2) == add_spec(es, url, title),
{
    law_add_then_contains(es, url, title);
}

/// Adding keeps URLs distinct: no URL is ever bookmarked twice.
pub proof fn law_add_keeps_urls_distinct(es: Seq<(Seq<char>, Seq<char>)>, url: Seq<char>, title: Seq<char>)
    requires
        urls_distinct(es),
    ensures
        urls_distinct(add_spec(es, url, title)),
{
    if !has_url(es, url) {
        let r = add_spec(es, url, title);
        assert forall|i: int, j: int| 0 <= i < j < r.len() implies (#[trigger] r[i]).0 != (#[trigger] r[j]).0 by {
            if j == es.len() {
                assert(r[i] == es[i]);
            } else {
                assert(r[i] == es[i] && r[j] == es[j]);
            }
        }
    }
}

/// After removing a URL it is no longer bookmarked, and nothing new appears.
pub proof fn law_remove_then_absent(es: Seq<(Seq<char>, Seq<char>)>, url: Seq<char>)
    ensures
        !has_url(remove_spec(es, url), url),
        forall|e: (Seq<char>, Seq<char>)| remove_spec(es, url).contains(e) ==> es.contains(e),
{
    lemma_remove_spec_no_url(es, url);
}

/// Bookmarking a page that was not bookmarked and then removing it again
/// gives back the store one started with.
pub proof fn law_add_then_remove(es: Seq<(Seq<char>, Seq<char>)>, url: Seq<char>, title: Seq<char>)
    requires
        !has_url(es, url),
    ensures
        remove_spec(add_spec(es, url, title), url) == es,
{
    let r = es.push((url, title));
    assert(r.drop_last() =~= es);
    lemma_remove_spec_absent(es, url);
}

} // verus!
