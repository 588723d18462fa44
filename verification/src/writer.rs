//! Writing markup: a tree of elements, attributes and text to the text that
//! the parser reads back as the same tree.

use vstd::prelude::*;

use crate::text::chars_of;

verus! {

/// An element to be written. Attribute values are given as they are meant;
/// writing escapes them.
#[derive(Debug, PartialEq)]
pub struct Markup {
    pub name: String,
    pub attrs: Vec<(String, String)>,
    pub children: Vec<MarkupChild>,
}

#[derive(Debug, PartialEq)]
pub enum MarkupChild {
    Node(Markup),
    Text(String),
}

pub struct MarkupView {
    pub name: Seq<char>,
    pub attrs: Seq<(Seq<char>, Seq<char>)>,
    pub children: Seq<MarkupChildView>,
}

pub enum MarkupChildView {
    Node(MarkupView),
    Text(Seq<char>),
}

pub open spec fn pair_views(s: Seq<(String, String)>) -> Seq<(Seq<char>, Seq<char>)> {
    Seq::new(s.len(), |i: int| (s[i].0@, s[i].1@))
}

impl MarkupChild {
    pub open spec fn view(&self) -> MarkupChildView
        decreases self,
    {
        match self {
            MarkupChild::Node(n) => MarkupChildView::Node(n.view()),
            MarkupChild::Text(t) => MarkupChildView::Text(t@),
        }
    }
}

impl Markup {
    pub open spec fn view(&self) -> MarkupView
        decreases self,
    {
        MarkupView {
            name: self.name@,
            attrs: pair_views(self.attrs@),
            children: Seq::new(
                self.children@.len(),
                |i: int|
                    if 0 <= i < self.children@.len() {
                        self.children@[i].view()
                    } else {
                        arbitrary()
                    },
            ),
        }
    }
}

pub open spec fn markup_views(s: Seq<MarkupChild>) -> Seq<MarkupChildView> {
    Seq::new(s.len(), |i: int| s[i].view())
}

pub proof fn lemma_markup_view(m: Markup)
    ensures
        m.view().children == markup_views(m.children@),
{
    assert(m.view().children =~= markup_views(m.children@));
}

// The written form.

/// A character of an attribute value, escaped where it must be.
pub open spec fn escaped_char(c: char) -> Seq<char> {
    if c == '&' {
        seq!['&', 'a', 'm', 'p', ';']
    } else if c == '"' {
        seq!['&', 'q', 'u', 'o', 't', ';']
    } else if c == '<' {
        seq!['&', 'l', 't', ';']
    } else if c == '>' {
        seq!['&', 'g', 't', ';']
    } else {
        seq![c]
    }
}

/// An attribute value as it is written.
pub open spec fn escaped(s: Seq<char>) -> Seq<char>
    decreases s.len(),
{
    if s.len() == 0 {
        Seq::empty()
    } else {
        escaped(s.drop_last()) + escaped_char(s.last())
    }
}

/// The attributes from `k` on.
pub open spec fn attrs_from(attrs: Seq<(Seq<char>, Seq<char>)>, k: int) -> Seq<char>
    decreases attrs.len() - k,
{
    if k < 0 || k >= attrs.len() {
        Seq::empty()
    } else {
        seq![' '] + (attrs[k].0 + (seq!['=', '"'] + (escaped(attrs[k].1) + (seq!['"'] + attrs_from(
            attrs,
            k + 1,
        )))))
    }
}

/// An element as it is written.
pub open spec fn printed(m: MarkupView) -> Seq<char>
    decreases m, 0int,
{
    seq!['<'] + (m.name + (attrs_from(m.attrs, 0) + (if m.children.len() == 0 {
        seq!['/', '>']
    } else {
        seq!['>'] + (children_from(m.children, 0) + closing_tag(m.name))
    })))
}

pub open spec fn closing_tag(name: Seq<char>) -> Seq<char> {
    seq!['<', '/'] + (name + seq!['>'])
}

/// The children from `k` on.
pub open spec fn children_from(children: Seq<MarkupChildView>, k: int) -> Seq<char>
    decreases children, children.len() - k,
{
    if k < 0 || k >= children.len() {
        Seq::empty()
    } else {
        (match children[k] {
            MarkupChildView::Node(n) => printed(n),
            MarkupChildView::Text(t) => t,
        }) + children_from(children, k + 1)
    }
}

/// Minimal escaping for attribute values.
pub fn esc_attr(s: &str) -> (r: String)
    ensures
        r@ == escaped(s@),
{
    let cs = chars_of(s);
    let mut out = String::new();
    let mut i: usize = 0;
    assert(out@ =~= escaped(s@.take(0)));
    while i < cs.len()
        invariant
            i <= cs@.len(),
            cs@ == s@,
            out@ == escaped(s@.take(i as int)),
        decreases cs@.len() - i,
    {
        let c = cs[i];
        assert(s@.take(i + 1).drop_last() =~= s@.take(i as int));
        let ghost before = out@;
        if c == '&' {
            proof {
                reveal_strlit("&amp;");
            }
            out.append("&amp;");
            assert("&amp;"@ =~= escaped_char(c));
        } else if c == '"' {
            proof {
                reveal_strlit("&quot;");
            }
            out.append("&quot;");
            assert("&quot;"@ =~= escaped_char(c));
        } else if c == '<' {
            proof {
                reveal_strlit("&lt;");
            }
            out.append("&lt;");
            assert("&lt;"@ =~= escaped_char(c));
        } else if c == '>' {
            proof {
                reveal_strlit("&gt;");
            }
            out.append("&gt;");
            assert("&gt;"@ =~= escaped_char(c));
        } else {
            out.push(c);
            assert(out@ =~= before + escaped_char(c));
        }
        i = i + 1;
    }
    assert(s@.take(s@.len() as int) =~= s@);
    out
}

fn write_attrs(attrs: &Vec<(String, String)>, out: &mut String)
    ensures
        final(out)@ == old(out)@ + attrs_from(pair_views(attrs@), 0),
{
    let ghost all = pair_views(attrs@);
    let mut k: usize = 0;
    while k < attrs.len()
        invariant
            k <= attrs@.len(),
            all == pair_views(attrs@),
            out@ + attrs_from(all, k as int) == old(out)@ + attrs_from(all, 0),
        decreases attrs@.len() - k,
    {
        let ghost before = out@;
        let value = esc_attr(attrs[k].1.as_str());
        assert(all[k as int] == (attrs@[k as int].0@, attrs@[k as int].1@));
        out.push(' ');
        out.append(attrs[k].0.as_str());
        out.push('=');
        out.push('"');
        out.append(value.as_str());
        out.push('"');
        assert(out@ + attrs_from(all, k + 1) =~= before + attrs_from(all, k as int));
        k = k + 1;
    }
    assert(out@ + attrs_from(all, k as int) =~= out@);
}

fn write_node(m: &Markup, out: &mut String)
    ensures
        final(out)@ == old(out)@ + printed(m.view()),
    decreases m, 1int,
{
    let ghost start = out@;
    let ghost v = m.view();
    proof {
        lemma_markup_view(*m);
    }
    out.push('<');
    out.append(m.name.as_str());
    write_attrs(&m.attrs, out);
    if m.children.len() == 0 {
        out.push('/');
        out.push('>');
        assert(out@ =~= start + printed(v));
    } else {
        out.push('>');
        write_children(&m.children, out);
        out.push('<');
        out.push('/');
        out.append(m.name.as_str());
        out.push('>');
        assert(out@ =~= start + printed(v));
    }
}

fn write_children(children: &Vec<MarkupChild>, out: &mut String)
    ensures
        final(out)@ == old(out)@ + children_from(markup_views(children@), 0),
    decreases children, 0int,
{
    let ghost all = markup_views(children@);
    let mut k: usize = 0;
    while k < children.len()
        invariant
            k <= children@.len(),
            all == markup_views(children@),
            out@ + children_from(all, k as int) == old(out)@ + children_from(all, 0),
        decreases children@.len() - k,
    {
        let ghost before = out@;
        assert(all[k as int] == children@[k as int].view());
        assert(decreases_to!(children => children@[k as int]));
        match &children[k] {
            MarkupChild::Node(n) => write_node(n, out),
            MarkupChild::Text(t) => out.append(t.as_str()),
        }
        assert(out@ + children_from(all, k + 1) =~= before + children_from(all, k as int));
        k = k + 1;
    }
    assert(out@ + children_from(all, k as int) =~= out@);
}

/// The markup of a tree.
pub fn write_markup(m: &Markup) -> (r: String)
    ensures
        r@ == printed(m.view()),
{
    let mut out = String::new();
    let ghost empty = out@;
    write_node(m, &mut out);
    assert(empty + printed(m.view()) =~= printed(m.view()));
    out
}

} // verus!
