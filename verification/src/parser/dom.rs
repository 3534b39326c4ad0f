//! The document tree that the parsers and the renderer read: an arena of nodes
//! in document order, built from the HTML parser's output.

use vstd::prelude::*;
use scraper::Node;

verus! {

/// What a node is.
#[derive(Debug, Clone, Copy, PartialEq, Eq, Structural)]
pub enum NodeKind {
    /// An element, with a tag name and attributes.
    Element,
    /// A run of text.
    Text,
    /// The document itself, a doctype, a comment, or a processing instruction.
    Other,
}

/// One node as the HTML parser reports it, in document order, with the
/// number of children it has.
pub struct DomToken {
    pub kind: NodeKind,
    pub name: String,
    pub attrs: Vec<(String, String)>,
    pub text: String,
    pub child_count: usize,
}

/// A node of the document tree.
pub struct DomNode {
    pub kind: NodeKind,
    /// The tag name of an element (lower case for HTML elements).
    pub name: String,
    /// The attributes of an element, as (name, value), in document order.
    pub attrs: Vec<(String, String)>,
    /// The content of a text node.
    pub text: String,
    /// The indices of the children, in document order.
    pub children: Vec<usize>,
}

/// A document: its nodes in document order; node 0 is the document itself.
pub struct Dom {
    pub nodes: Vec<DomNode>,
}

pub struct NodeView {
    pub kind: NodeKind,
    pub name: Seq<char>,
    pub attrs: Seq<(Seq<char>, Seq<char>)>,
    pub text: Seq<char>,
    pub children: Seq<usize>,
}

pub struct TokenView {
    pub kind: NodeKind,
    pub name: Seq<char>,
    pub attrs: Seq<(Seq<char>, Seq<char>)>,
    pub text: Seq<char>,
    pub child_count: usize,
}

pub open spec fn attrs_view(a: Seq<(String, String)>) -> Seq<(Seq<char>, Seq<char>)> {
    a.map_values(|p: (String, String)| (p.0@, p.1@))
}

pub open spec fn token_view(t: DomToken) -> TokenView {
    TokenView { kind: t.kind, name: t.name@, attrs: attrs_view(t.attrs@), text: t.text@, child_count: t.child_count }
}

pub open spec fn tokens_view(ts: Seq<DomToken>) -> Seq<TokenView> {
    ts.map_values(|t: DomToken| token_view(t))
}

pub open spec fn node_view(n: DomNode) -> NodeView {
    NodeView { kind: n.kind, name: n.name@, attrs: attrs_view(n.attrs@), text: n.text@, children: n.children@ }
}

pub open spec fn nodes_view(ns: Seq<DomNode>) -> Seq<NodeView> {
    ns.map_values(|n: DomNode| node_view(n))
}

impl View for Dom {
    type V = Seq<NodeView>;

    open spec fn view(&self) -> Seq<NodeView> {
        nodes_view(self.nodes@)
    }
}

/// Every child of a node comes after it and lies inside the document.
pub open spec fn dom_wf(d: Seq<NodeView>) -> bool {
    forall|i: int, k: int|
        0 <= i < d.len() && 0 <= k < d[i].children.len() ==> i < #[trigger] d[i].children[k] < d.len()
}

/// The nodes that the HTML parser makes of `src`, in document order, each with
/// its number of children (`scraper::Html::parse_document`, read in pre-order).
pub uninterp spec fn html_tokens(src: Seq<char>) -> Seq<TokenView>;

/// Parses `src` as an HTML document with `scraper::Html::parse_document` and
/// lists its nodes in document order (pre-order from the document node), each
/// with its kind, its tag name and attributes or its text, and how many
/// children it has. With scraper's `deterministic` feature an element keeps
/// its attributes in an insertion-ordered map, so they come out in the order
/// the parser read them, the same on every run.
#[verifier::external_body]
pub(crate) fn parse_document_tokens(src: &str) -> (r: Vec<DomToken>)
    ensures
        tokens_view(r@) == html_tokens(src@),
{
    let html = scraper::Html::parse_document(src);
    html.tree.root().descendants().map(|n| {
        let (kind, name, attrs, text) = match n.value() {
            Node::Element(e) => (NodeKind::Element, e.name().to_owned(), e.attrs().map(|(k, v)| (k.to_owned(), v.to_owned())).collect(), String::new()),
            Node::Text(t) => (NodeKind::Text, String::new(), Vec::new(), t.to_string()),
            _ => (NodeKind::Other, String::new(), Vec::new(), String::new()),
        };
        DomToken { kind, name, attrs, text, child_count: n.children().count() }
    }).collect()
}

/// The tree built so far from tokens in document order: the nodes, and the
/// stack of (node, children still to come) of the nodes still being filled.
pub struct BuildState {
    pub nodes: Seq<NodeView>,
    pub open: Seq<(usize, usize)>,
}

pub open spec fn token_node(t: TokenView) -> NodeView {
    NodeView { kind: t.kind, name: t.name, attrs: t.attrs, text: t.text, children: Seq::empty() }
}

/// One token read: the new node becomes the next child of the innermost node
/// still missing children (which is closed once it has them all), and the new
/// node is itself opened when it has children.
pub open spec fn build_step(s: BuildState, t: TokenView) -> BuildState {
    let n = s.nodes.len();
    let nodes0 = s.nodes.push(token_node(t));
    let (nodes1, open1) = if s.open.len() == 0 {
        (nodes0, s.open)
    } else {
        let (p, left) = s.open.last();
        let pn = nodes0[p as int];
        let nodes1 = nodes0.update(p as int, NodeView { children: pn.children.push(n as usize), ..pn });
        let open1 = if left <= 1 {
            s.open.drop_last()
        } else {
            s.open.drop_last().push((p, (left - 1) as usize))
        };
        (nodes1, open1)
    };
    let open2 = if t.child_count > 0 {
        open1.push((n as usize, t.child_count))
    } else {
        open1
    };
    BuildState { nodes: nodes1, open: open2 }
}

pub open spec fn build_from(ts: Seq<TokenView>) -> BuildState
    decreases ts.len(),
{
    if ts.len() == 0 {
        BuildState { nodes: Seq::empty(), open: Seq::empty() }
    } else {
        build_step(build_from(ts.drop_last()), ts.last())
    }
}

/// The document tree made of tokens in document order.
pub open spec fn build_dom(ts: Seq<TokenView>) -> Seq<NodeView> {
    build_from(ts).nodes
}

pub open spec fn state_wf(s: BuildState) -> bool {
    &&& dom_wf(s.nodes)
    &&& forall|j: int| 0 <= j < s.open.len() ==> (#[trigger] s.open[j]).0 < s.nodes.len()
}

proof fn lemma_build_wf(ts: Seq<TokenView>)
    requires
        ts.len() <= usize::MAX,
    ensures
        state_wf(build_from(ts)),
        build_from(ts).nodes.len() == ts.len(),
    decreases ts.len(),
{
    if ts.len() > 0 {
        lemma_build_wf(ts.drop_last());
        let s = build_from(ts.drop_last());
        let t = ts.last();
        let r = build_step(s, t);
        let n = s.nodes.len();
        assert forall|i: int, k: int| 0 <= i < r.nodes.len() && 0 <= k < r.nodes[i].children.len() implies i
            < #[trigger] r.nodes[i].children[k] < r.nodes.len() by {
            let nodes0 = s.nodes.push(token_node(t));
            if i == n {
                if s.open.len() > 0 {
                    assert(s.open[s.open.len() - 1].0 < n);
                }
                assert(r.nodes[i].children.len() == 0);
            } else if s.open.len() > 0 && i == s.open.last().0 as int {
                let p = s.open.last().0;
                assert(nodes0[p as int] == s.nodes[p as int]);
                assert(r.nodes[p as int].children == s.nodes[p as int].children.push(n as usize));
                assert(r.nodes.len() == n + 1);
                if k < s.nodes[i].children.len() {
                    assert(r.nodes[i].children[k] == s.nodes[i].children[k]);
                    assert(i < s.nodes[i].children[k] < s.nodes.len());
                } else {
                    assert(r.nodes[i].children[k] == n as usize);
                    assert(i < n);
                }
            } else {
                assert(r.nodes[i] == s.nodes[i]);
                assert(i < s.nodes[i].children[k] < s.nodes.len());
            }
        }
        assert forall|j: int| 0 <= j < r.open.len() implies (#[trigger] r.open[j]).0 < r.nodes.len() by {
            if s.open.len() > 0 {
                let (p, left) = s.open.last();
                if j < s.open.len() - 1 {
                    assert(r.open[j] == s.open[j]);
                }
            } else if j < s.open.len() {
                assert(r.open[j] == s.open[j]);
            }
        }
    }
}

proof fn lemma_build_dom_wf(ts: Seq<TokenView>)
    requires
        ts.len() <= usize::MAX,
    ensures
        dom_wf(build_dom(ts)),
        build_dom(ts).len() == ts.len(),
{
    lemma_build_wf(ts);
}

fn copy_attrs(a: &Vec<(String, String)>) -> (r: Vec<(String, String)>)
    ensures
        attrs_view(r@) == attrs_view(a@),
{
    let mut r: Vec<(String, String)> = Vec::new();
    let mut i: usize = 0;
    while i < a.len()
        invariant
            i <= a@.len(),
            attrs_view(r@) == attrs_view(a@.take(i as int)),
        decreases a@.len() - i,
    {
        let k = a[i].0.clone();
        let v = a[i].1.clone();
        let ghost before = attrs_view(r@);
        r.push((k, v));
        assert(attrs_view(r@) =~= before.push((a@[i as int].0@, a@[i as int].1@)));
        assert(attrs_view(a@.take(i + 1)) =~= attrs_view(a@.take(i as int)).push((a@[i as int].0@, a@[i as int].1@)));
        i = i + 1;
    }
    assert(a@.take(a@.len() as int) =~= a@);
    r
}

impl Dom {
    /// Builds the document tree from the parser's tokens.
    pub fn from_tokens(tokens: Vec<DomToken>) -> (d: Dom)
        ensures
            d@ == build_dom(tokens_view(tokens@)),
            dom_wf(d@),
    {
        let ghost ts = tokens_view(tokens@);
        let mut nodes: Vec<DomNode> = Vec::new();
        let mut open: Vec<(usize, usize)> = Vec::new();
        let mut k: usize = 0;
        while k < tokens.len()
            invariant
                k <= tokens@.len(),
                ts == tokens_view(tokens@),
                nodes_view(nodes@) == build_from(ts.take(k as int)).nodes,
                open@ == build_from(ts.take(k as int)).open,
                nodes@.len() == k,
            decreases tokens@.len() - k,
        {
            proof {
                assert(ts.take(k + 1).drop_last() =~= ts.take(k as int));
                assert(ts.take(k + 1).last() == token_view(tokens@[k as int]));
                lemma_build_wf(ts.take(k as int));
            }
            let ghost s = build_from(ts.take(k as int));
            let t = &tokens[k];
            let n = nodes.len();
            nodes.push(DomNode {
                kind: t.kind,
                name: t.name.clone(),
                attrs: copy_attrs(&t.attrs),
                text: t.text.clone(),
                children: Vec::new(),
            });
            assert(nodes_view(nodes@) =~= s.nodes.push(token_node(ts[k as int])));
            if open.len() > 0 {
                let (p, left) = open[open.len() - 1];
                assert(s.open[s.open.len() - 1].0 < s.nodes.len());
                let ghost before = nodes_view(nodes@);
                nodes[p].children.push(n);
                assert(nodes_view(nodes@) =~= before.update(
                    p as int,
                    NodeView { children: before[p as int].children.push(n as usize), ..before[p as int] },
                ));
                open.pop();
                if left > 1 {
                    open.push((p, left - 1));
                }
            }
            if t.child_count > 0 {
                open.push((n, t.child_count));
            }
            k = k + 1;
            assert(open@ =~= build_from(ts.take(k as int)).open);
        }
        assert(ts.take(tokens@.len() as int) =~= ts);
        proof {
            lemma_build_dom_wf(ts);
        }
        Dom { nodes }
    }
}

/// The text of node `i` and everything under it, in document order (what
/// `ElementRef::text` yields, joined).
pub open spec fn subtree_text(d: Seq<NodeView>, i: int) -> Seq<char>
    decreases d.len() - i, 1int, 0int,
{
    if 0 <= i < d.len() {
        let own = if d[i].kind == NodeKind::Text {
            d[i].text
        } else {
            Seq::empty()
        };
        own + children_text(d, i, 0)
    } else {
        Seq::empty()
    }
}

/// The text under the children of node `i` from its `k`-th child on.
pub open spec fn children_text(d: Seq<NodeView>, i: int, k: int) -> Seq<char>
    decreases d.len() - i, 0int, d[i].children.len() - k,
{
    if 0 <= i < d.len() && 0 <= k < d[i].children.len() {
        let c = d[i].children[k] as int;
        let first = if i < c < d.len() {
            subtree_text(d, c)
        } else {
            Seq::empty()
        };
        first + children_text(d, i, k + 1)
    } else {
        Seq::empty()
    }
}

/// The value of the first attribute called `name`, if any.
pub open spec fn attr_of(attrs: Seq<(Seq<char>, Seq<char>)>, name: Seq<char>) -> Option<Seq<char>>
    decreases attrs.len(),
{
    if attrs.len() == 0 {
        None
    } else if attrs[0].0 == name {
        Some(attrs[0].1)
    } else {
        attr_of(attrs.drop_first(), name)
    }
}

impl Dom {
    pub open spec fn wf(&self) -> bool {
        dom_wf(self@)
    }

    /// `true` when every child index of every node lies after the node and
    /// inside the document.
    pub fn is_wf(&self) -> (b: bool)
        ensures
            b == self.wf(),
    {
        let ghost d = self@;
        let n = self.nodes.len();
        let mut i: usize = 0;
        while i < n
            invariant
                n == d.len(),
                d == self@,
                i <= n,
                forall|a: int, k: int| 0 <= a < i && 0 <= k < d[a].children.len() ==> a < #[trigger] d[a].children[k] < d.len(),
            decreases n - i,
        {
            assert(d[i as int].children == self.nodes@[i as int].children@);
            let m = self.nodes[i].children.len();
            let mut k: usize = 0;
            while k < m
                invariant
                    n == d.len(),
                    d == self@,
                    i < n,
                    m == d[i as int].children.len(),
                    d[i as int].children == self.nodes@[i as int].children@,
                    k <= m,
                    forall|a: int, k2: int| 0 <= a < i && 0 <= k2 < d[a].children.len() ==> a < #[trigger] d[a].children[k2] < d.len(),
                    forall|k2: int| 0 <= k2 < k ==> i < #[trigger] d[i as int].children[k2] < d.len(),
                decreases m - k,
            {
                let c = self.nodes[i].children[k];
                if !(i < c && c < n) {
                    assert(!(i < d[i as int].children[k as int] < d.len()));
                    return false;
                }
                k = k + 1;
            }
            i = i + 1;
        }
        true
    }

    /// The text under node `i`, in document order.
    pub fn text(&self, i: usize) -> (r: Vec<char>)
        requires
            self.wf(),
            i < self@.len(),
        ensures
            r@ == subtree_text(self@, i as int),
        decreases self@.len() - i, 1int, 0int,
    {
        let mut out: Vec<char> = Vec::new();
        if self.nodes[i].kind == NodeKind::Text {
            out = crate::chars::to_chars(self.nodes[i].text.as_str());
        }
        self.children_text_into(i, 0, &mut out);
        out
    }

    fn children_text_into(&self, i: usize, k: usize, out: &mut Vec<char>)
        requires
            self.wf(),
            i < self@.len(),
            k <= self@[i as int].children.len(),
        ensures
            final(out)@ == old(out)@ + children_text(self@, i as int, k as int),
        decreases self@.len() - i, 0int, self@[i as int].children.len() - k,
    {
        if k < self.nodes[i].children.len() {
            let c = self.nodes[i].children[k];
            assert(self@[i as int].children[k as int] == c);
            let t = self.text(c);
            crate::chars::append_chars(out, t.as_slice());
            self.children_text_into(i, k + 1, out);
            assert(final(out)@ =~= old(out)@ + children_text(self@, i as int, k as int));
        } else {
            assert(final(out)@ =~= old(out)@ + children_text(self@, i as int, k as int));
        }
    }

    /// The value of attribute `name` of node `i`, if it has one.
    pub fn attr(&self, i: usize, name: &str) -> (r: Option<String>)
        requires
            i < self@.len(),
        ensures
            match r {
                Some(v) => attr_of(self@[i as int].attrs, name@) == Some(v@),
                None => attr_of(self@[i as int].attrs, name@) is None,
            },
    {
        let attrs = &self.nodes[i].attrs;
        let ghost av = attrs_view(attrs@);
        let mut k: usize = 0;
        assert(av.skip(0) =~= av);
        while k < attrs.len()
            invariant
                k <= attrs@.len(),
                av == attrs_view(attrs@),
                av == self@[i as int].attrs,
                attr_of(av, name@) == attr_of(av.skip(k as int), name@),
            decreases attrs@.len() - k,
        {
            assert(av.skip(k as int).drop_first() =~= av.skip(k + 1));
            if crate::chars::str_eq(attrs[k].0.as_str(), name) {
                return Some(attrs[k].1.clone());
            }
            k = k + 1;
        }
        None
    }

    /// `true` when node `i` is an element called `name`.
    pub fn is_element(&self, i: usize, name: &str) -> (b: bool)
        requires
            i < self@.len(),
        ensures
            b == (self@[i as int].kind == NodeKind::Element && self@[i as int].name == name@),
    {
        self.nodes[i].kind == NodeKind::Element && crate::chars::str_eq(self.nodes[i].name.as_str(), name)
    }
}

} // verus!
