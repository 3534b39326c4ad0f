//! HTML parse → document tree.

use vstd::prelude::*;

use crate::chars::{from_chars, trim_chars, trim_seq};
use crate::parser::dom::{
    build_dom, dom_wf, html_tokens, parse_document_tokens, subtree_text, attr_of, Dom, NodeKind, NodeView,
};

verus! {

/// Parsed HTML document.
pub struct ParsedPage {
    html: Dom,
}

/// A hyperlink extracted from the document.
pub struct Link {
    pub href: String,
    pub text: String,
}

/// The text that `String::from_utf8_lossy` makes of `bytes`.
pub uninterp spec fn utf8_lossy(bytes: Seq<u8>) -> Seq<char>;

/// `String::from_utf8_lossy`: the bytes read as UTF-8, each invalid sequence
/// replaced by U+FFFD.
#[verifier::external_body]
pub(crate) fn decode_utf8_lossy(bytes: &[u8]) -> (r: String)
    ensures
        r@ == utf8_lossy(bytes@),
{
    String::from_utf8_lossy(bytes).into_owned()
}

/// Node `i` is an element called `name`.
pub open spec fn is_named(d: Seq<NodeView>, i: int, name: Seq<char>) -> bool {
    d[i].kind == NodeKind::Element && d[i].name == name
}

pub open spec fn word_title() -> Seq<char> {
    seq!['t', 'i', 't', 'l', 'e']
}

pub open spec fn word_a() -> Seq<char> {
    seq!['a']
}

pub open spec fn word_href() -> Seq<char> {
    seq!['h', 'r', 'e', 'f']
}

pub open spec fn word_meta() -> Seq<char> {
    seq!['m', 'e', 't', 'a']
}

pub open spec fn word_name() -> Seq<char> {
    seq!['n', 'a', 'm', 'e']
}

pub open spec fn word_description() -> Seq<char> {
    seq!['d', 'e', 's', 'c', 'r', 'i', 'p', 't', 'i', 'o', 'n']
}

pub open spec fn word_content() -> Seq<char> {
    seq!['c', 'o', 'n', 't', 'e', 'n', 't']
}

/// The first node, from `i` on, that is an element called `name`.
pub open spec fn first_named(d: Seq<NodeView>, name: Seq<char>, i: int) -> Option<int>
    decreases d.len() - i,
{
    if i < 0 || i >= d.len() {
        None
    } else if is_named(d, i, name) {
        Some(i)
    } else {
        first_named(d, name, i + 1)
    }
}

/// The page title: the trimmed text of the first `<title>`, when that is not empty.
pub open spec fn title_spec(d: Seq<NodeView>) -> Option<Seq<char>> {
    match first_named(d, word_title(), 0) {
        Some(i) => {
            let t = trim_seq(subtree_text(d, i));
            if t.len() > 0 {
                Some(t)
            } else {
                None
            }
        },
        None => None,
    }
}

/// The links from node `i` on: every `<a>` with an `href`, as (href, trimmed text).
pub open spec fn links_from(d: Seq<NodeView>, i: int) -> Seq<(Seq<char>, Seq<char>)>
    decreases d.len() - i,
{
    if i < 0 || i >= d.len() {
        Seq::empty()
    } else {
        let rest = links_from(d, i + 1);
        if is_named(d, i, word_a()) && attr_of(d[i].attrs, word_href()) is Some {
            seq![(attr_of(d[i].attrs, word_href()).unwrap(), trim_seq(subtree_text(d, i)))] + rest
        } else {
            rest
        }
    }
}

/// The first `<meta>` whose `name` is `description`, from node `i` on.
pub open spec fn first_description(d: Seq<NodeView>, i: int) -> Option<int>
    decreases d.len() - i,
{
    if i < 0 || i >= d.len() {
        None
    } else if is_named(d, i, word_meta()) && attr_of(d[i].attrs, word_name()) == Some(word_description()) {
        Some(i)
    } else {
        first_description(d, i + 1)
    }
}

/// The `content` of the description `<meta>`, when there is one.
pub open spec fn description_spec(d: Seq<NodeView>) -> Option<Seq<char>> {
    match first_description(d, 0) {
        Some(i) => attr_of(d[i].attrs, word_content()),
        None => None,
    }
}

pub open spec fn opt_str_view(o: Option<String>) -> Option<Seq<char>> {
    match o {
        Some(s) => Some(s@),
        None => None,
    }
}

pub open spec fn link_view(l: Link) -> (Seq<char>, Seq<char>) {
    (l.href@, l.text@)
}

fn lit(s: &str) -> (r: String)
    ensures
        r@ == s@,
{
    s.to_owned()
}

impl ParsedPage {
    #[verifier::type_invariant]
    spec fn inv(self) -> bool {
        dom_wf(self.html@)
    }

    /// The document tree of the page.
    pub closed spec fn dom(self) -> Seq<NodeView> {
        self.html@
    }

    /// Parse HTML from raw bytes (UTF-8, replacing invalid sequences).
    pub fn from_bytes(bytes: &[u8]) -> (p: Self)
        ensures
            p.dom() == build_dom(html_tokens(utf8_lossy(bytes@))),
    {
        let src = decode_utf8_lossy(bytes);
        Self::parse_html(src.as_str())
    }

    /// The page whose document tree is `d`, when `d` is well formed (every
    /// child lies after its node and inside the document); `None` otherwise.
    pub fn from_dom(d: Dom) -> (r: Option<Self>)
        ensures
            r is Some <==> d.wf(),
            r matches Some(p) ==> p.dom() == d@,
    {
        if d.is_wf() {
            Some(ParsedPage { html: d })
        } else {
            None
        }
    }

    /// Parse HTML from a string slice.
    pub fn parse_html(src: &str) -> (p: Self)
        ensures
            p.dom() == build_dom(html_tokens(src@)),
    {
        let tokens = parse_document_tokens(src);
        let html = Dom::from_tokens(tokens);
        ParsedPage { html }
    }

    /// Exposes the parsed document for renderers.
    pub fn document(&self) -> (d: &Dom)
        ensures
            d@ == self.dom(),
            d.wf(),
    {
        proof {
            use_type_invariant(self);
        }
        &self.html
    }

    /// Page `<title>` text, trimmed. Returns `None` if absent or empty.
    pub fn title(&self) -> (r: Option<String>)
        ensures
            opt_str_view(r) == title_spec(self.dom()),
    {
        let d = self.document();
        let ghost dv = d@;
        proof {
            reveal_strlit("title");
            assert("title"@ =~= word_title());
        }
        let n = d.nodes.len();
        let mut i: usize = 0;
        while i < n
            invariant
                n == dv.len(),
                dv == d@,
                dv == self.dom(),
                d.wf(),
                i <= n,
                "title"@ == word_title(),
                first_named(dv, word_title(), 0) == first_named(dv, word_title(), i as int),
            decreases n - i,
        {
            if d.is_element(i, "title") {
                assert(first_named(dv, word_title(), i as int) == Some(i as int));
                let t = trim_chars(d.text(i).as_slice());
                assert(title_spec(dv) == (if t@.len() > 0 { Some(t@) } else { None::<Seq<char>> }));
                if t.len() > 0 {
                    return Some(from_chars(t.as_slice()));
                } else {
                    return None;
                }
            }
            i = i + 1;
        }
        None
    }

    /// All `<a href>` links in document order.
    pub fn links(&self) -> (r: Vec<Link>)
        ensures
            r@.map_values(|l: Link| link_view(l)) == links_from(self.dom(), 0),
    {
        let d = self.document();
        let ghost dv = d@;
        proof {
            reveal_strlit("a");
            reveal_strlit("href");
            assert("a"@ =~= word_a());
            assert("href"@ =~= word_href());
        }
        let n = d.nodes.len();
        let mut out: Vec<Link> = Vec::new();
        let mut i: usize = 0;
        while i < n
            invariant
                n == dv.len(),
                dv == d@,
                dv == self.dom(),
                d.wf(),
                i <= n,
                "a"@ == word_a(),
                "href"@ == word_href(),
                out@.map_values(|l: Link| link_view(l)) + links_from(dv, i as int) == links_from(dv, 0),
            decreases n - i,
        {
            if d.is_element(i, "a") {
                if let Some(href) = d.attr(i, "href") {
                    let text = from_chars(trim_chars(d.text(i).as_slice()).as_slice());
                    let ghost before = out@.map_values(|l: Link| link_view(l));
                    out.push(Link { href, text });
                    assert(out@.map_values(|l: Link| link_view(l)) =~= before.push(
                        (attr_of(dv[i as int].attrs, word_href()).unwrap(), trim_seq(subtree_text(dv, i as int))),
                    ));
                }
            }
            i = i + 1;
        }
        assert(links_from(dv, n as int) =~= Seq::<(Seq<char>, Seq<char>)>::empty());
        assert(out@.map_values(|l: Link| link_view(l)) =~= links_from(dv, 0));
        out
    }

    /// `<meta name="description">` content attribute.
    pub fn description(&self) -> (r: Option<String>)
        ensures
            opt_str_view(r) == description_spec(self.dom()),
    {
        let d = self.document();
        let ghost dv = d@;
        proof {
            reveal_strlit("meta");
            reveal_strlit("name");
            reveal_strlit("description");
            reveal_strlit("content");
            assert("meta"@ =~= word_meta());
            assert("name"@ =~= word_name());
            assert("description"@ =~= word_description());
            assert("content"@ =~= word_content());
        }
        let wanted = lit("description");
        let n = d.nodes.len();
        let mut i: usize = 0;
        while i < n
            invariant
                n == dv.len(),
                dv == d@,
                dv == self.dom(),
                i <= n,
                wanted@ == word_description(),
                "meta"@ == word_meta(),
                "name"@ == word_name(),
                "content"@ == word_content(),
                first_description(dv, 0) == first_description(dv, i as int),
            decreases n - i,
        {
            if d.is_element(i, "meta") {
                match d.attr(i, "name") {
                    Some(v) => {
                        if v == wanted {
                            assert(first_description(dv, i as int) == Some(i as int));
                            return d.attr(i, "content");
                        }
                    },
                    None => {},
                }
            }
            i = i + 1;
        }
        None
    }
}

} // verus!
