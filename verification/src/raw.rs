//! Raw parse tree: the syntax-level view of a `.scene` document before
//! lowering validates it into typed form.

use vstd::prelude::*;

use crate::span::Span;
use crate::text::{chars_of, string_of, text_eq, trim};

verus! {

#[derive(Debug)]
pub struct RawAttr {
    pub name: String,
    pub name_span: Span,
    pub value: String,
    pub value_span: Span,
}

#[derive(Debug)]
pub enum RawChild {
    Node(RawNode),
    Text { text: String, span: Span },
}

#[derive(Debug)]
pub struct RawNode {
    pub name: String,
    pub name_span: Span,
    pub attrs: Vec<RawAttr>,
    pub children: Vec<RawChild>,
    /// Span of the entire element, `<` through `>`.
    pub span: Span,
}

pub struct RawAttrView {
    pub name: Seq<char>,
    pub name_span: Span,
    pub value: Seq<char>,
    pub value_span: Span,
}

pub enum RawChildView {
    Node(RawNodeView),
    Text { text: Seq<char>, span: Span },
}

pub struct RawNodeView {
    pub name: Seq<char>,
    pub name_span: Span,
    pub attrs: Seq<RawAttrView>,
    pub children: Seq<RawChildView>,
    pub span: Span,
}

impl View for RawAttr {
    type V = RawAttrView;

    open spec fn view(&self) -> RawAttrView {
        RawAttrView {
            name: self.name@,
            name_span: self.name_span,
            value: self.value@,
            value_span: self.value_span,
        }
    }
}

pub open spec fn attr_views(attrs: Seq<RawAttr>) -> Seq<RawAttrView> {
    Seq::new(attrs.len(), |i: int| attrs[i]@)
}

impl RawChild {
    pub open spec fn view(&self) -> RawChildView
        decreases self,
    {
        match self {
            RawChild::Node(n) => RawChildView::Node(n.view()),
            RawChild::Text { text, span } => RawChildView::Text { text: text@, span: *span },
        }
    }
}

impl RawNode {
    pub open spec fn view(&self) -> RawNodeView
        decreases self,
    {
        RawNodeView {
            name: self.name@,
            name_span: self.name_span,
            attrs: attr_views(self.attrs@),
            children: Seq::new(
                self.children@.len(),
                |i: int|
                    if 0 <= i < self.children@.len() {
                        self.children@[i].view()
                    } else {
                        arbitrary()
                    },
            ),
            span: self.span,
        }
    }
}

pub open spec fn child_views(children: Seq<RawChild>) -> Seq<RawChildView> {
    Seq::new(children.len(), |i: int| children[i].view())
}

pub proof fn lemma_node_view(n: RawNode)
    ensures
        n.view().children == child_views(n.children@),
{
    assert(n.view().children =~= child_views(n.children@));
}

/// The first attribute of a name among those from `i` on.
pub open spec fn find_attr_from(attrs: Seq<RawAttrView>, name: Seq<char>, i: int) -> Option<
    RawAttrView,
>
    decreases attrs.len() - i,
{
    if i < 0 || i >= attrs.len() {
        None
    } else if attrs[i].name == name {
        Some(attrs[i])
    } else {
        find_attr_from(attrs, name, i + 1)
    }
}

pub open spec fn find_attr(attrs: Seq<RawAttrView>, name: Seq<char>) -> Option<RawAttrView> {
    find_attr_from(attrs, name, 0)
}

pub proof fn lemma_find_attr(attrs: Seq<RawAttrView>, name: Seq<char>, i: int)
    requires
        0 <= i <= attrs.len(),
    ensures
        find_attr_from(attrs, name, i) is Some <==> exists|k: int|
            i <= k < attrs.len() && (#[trigger] attrs[k]).name == name,
        find_attr_from(attrs, name, i) matches Some(a) ==> a.name == name && attrs.contains(a),
    decreases attrs.len() - i,
{
    if i < attrs.len() && attrs[i].name != name {
        lemma_find_attr(attrs, name, i + 1);
        if find_attr_from(attrs, name, i + 1) is Some {
            let k = choose|k: int| i + 1 <= k < attrs.len() && (#[trigger] attrs[k]).name == name;
            assert(attrs[k].name == name);
        }
    } else if i < attrs.len() {
        assert(attrs[i].name == name);
        assert(attrs.contains(attrs[i]));
    }
}

/// The text among the first `n` children: each run trimmed, runs of nothing
/// but whitespace left out, the others joined by a space; with the span over
/// all of them.
pub open spec fn text_of(children: Seq<RawChildView>, n: int) -> Option<(Seq<char>, Span)>
    decreases n,
{
    if n <= 0 || n > children.len() {
        None
    } else {
        match children[n - 1] {
            RawChildView::Node(_) => text_of(children, n - 1),
            RawChildView::Text { text, span } => if crate::text::trimmed(text).len() == 0 {
                text_of(children, n - 1)
            } else {
                match text_of(children, n - 1) {
                    None => Some((crate::text::trimmed(text), span)),
                    Some((t, s)) => Some(
                        (t.push(' ') + crate::text::trimmed(text), crate::span::joined(s, span)),
                    ),
                }
            },
        }
    }
}

/// The elements among the first `n` children.
pub open spec fn nodes_of(children: Seq<RawChildView>, n: int) -> Seq<RawNodeView>
    decreases n,
{
    if n <= 0 || n > children.len() {
        Seq::empty()
    } else {
        match children[n - 1] {
            RawChildView::Node(c) => nodes_of(children, n - 1).push(c),
            RawChildView::Text { .. } => nodes_of(children, n - 1),
        }
    }
}

impl RawNodeView {
    pub open spec fn attr(self, name: Seq<char>) -> Option<RawAttrView> {
        find_attr(self.attrs, name)
    }

    pub open spec fn text_content(self) -> Option<(Seq<char>, Span)> {
        text_of(self.children, self.children.len() as int)
    }

    pub open spec fn elements(self) -> Seq<RawNodeView> {
        nodes_of(self.children, self.children.len() as int)
    }
}

pub open spec fn node_views(nodes: Seq<&RawNode>) -> Seq<RawNodeView> {
    Seq::new(nodes.len(), |i: int| nodes[i].view())
}

impl RawNode {
    /// The first attribute of a name.
    pub fn attr(&self, name: &str) -> (r: Option<&RawAttr>)
        ensures
            match r {
                Some(a) => self@.attr(name@) == Some(a@),
                None => self@.attr(name@) is None,
            },
    {
        let mut i: usize = 0;
        while i < self.attrs.len()
            invariant
                i <= self.attrs@.len(),
                find_attr(self@.attrs, name@) == find_attr_from(self@.attrs, name@, i as int),
            decreases self.attrs@.len() - i,
        {
            let a = &self.attrs[i];
            assert(self@.attrs[i as int] == a@);
            if text_eq(a.name.as_str(), name) {
                return Some(a);
            }
            i = i + 1;
        }
        None
    }

    /// Concatenated non-whitespace text children, with the joined span.
    /// Nested elements are ignored: lowering decides whether text or children
    /// are legal in a given position.
    pub fn text_content(&self) -> (r: Option<(String, Span)>)
        ensures
            match r {
                Some(t) => self@.text_content() == Some((t.0@, t.1)),
                None => self@.text_content() is None,
            },
    {
        let mut found: Option<(String, Span)> = None;
        let mut i: usize = 0;
        proof {
            lemma_node_view(*self);
        }
        let ghost kids = self@.children;
        while i < self.children.len()
            invariant
                i <= self.children@.len(),
                kids == child_views(self.children@),
                match found {
                    Some(t) => text_of(kids, i as int) == Some((t.0@, t.1)),
                    None => text_of(kids, i as int) is None,
                },
            decreases self.children@.len() - i,
        {
            assert(kids[i as int] == self.children@[i as int].view());
            match &self.children[i] {
                RawChild::Text { text, span } => {
                    let cs = chars_of(text.as_str());
                    let t = trim(cs.as_slice());
                    if t.len() > 0 {
                        let word = string_of(t);
                        found =
                        match found {
                            None => Some((word, *span)),
                            Some(prev) => {
                                let mut joined = prev.0;
                                joined.push(' ');
                                joined.append(word.as_str());
                                Some((joined, prev.1.join(*span)))
                            },
                        };
                    }
                },
                RawChild::Node(_) => {},
            }
            i = i + 1;
        }
        found
    }

    /// Element children only.
    pub fn element_children(&self) -> (r: Vec<&RawNode>)
        ensures
            node_views(r@) == self@.elements(),
    {
        let mut out: Vec<&RawNode> = Vec::new();
        let mut i: usize = 0;
        proof {
            lemma_node_view(*self);
        }
        let ghost kids = self@.children;
        assert(node_views(out@) =~= nodes_of(kids, 0));
        while i < self.children.len()
            invariant
                i <= self.children@.len(),
                kids == child_views(self.children@),
                node_views(out@) == nodes_of(kids, i as int),
            decreases self.children@.len() - i,
        {
            assert(kids[i as int] == self.children@[i as int].view());
            let ghost before = out@;
            match &self.children[i] {
                RawChild::Node(n) => {
                    out.push(n);
                    assert(node_views(out@) =~= node_views(before).push(n.view()));
                },
                RawChild::Text { .. } => {},
            }
            i = i + 1;
        }
        out
    }
}

} // verus!
