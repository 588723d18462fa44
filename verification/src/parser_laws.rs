//! What holds of every parse: spans lie inside the document and nest, names
//! of attributes are distinct, nesting is capped, and every failure is one
//! error that points into the document.

use vstd::prelude::*;

use crate::diagnostic::{DiagnosticView, Severity};
use crate::parser::{Open, MAX_DEPTH};
use crate::raw::{RawAttrView, RawChildView, RawNodeView};
use crate::span::Span;

verus! {

pub open spec fn inside(s: Span, lo: nat, hi: nat) -> bool {
    lo <= s.start <= s.end <= hi
}

/// The attributes lie between `lo` and `hi` in order, each name before its
/// value, and no name occurs twice.
pub open spec fn attrs_ok(attrs: Seq<RawAttrView>, lo: nat, hi: nat) -> bool {
    &&& forall|i: int|
        0 <= i < attrs.len() ==> {
            &&& inside((#[trigger] attrs[i]).name_span, lo, hi)
            &&& inside(attrs[i].value_span, lo, hi)
            &&& attrs[i].name_span.start < attrs[i].name_span.end
            &&& attrs[i].name_span.end <= attrs[i].value_span.start
        }
    &&& forall|i: int, j: int|
        0 <= i < j < attrs.len() ==> #[trigger] attrs[i].name != #[trigger] attrs[j].name
            && attrs[i].value_span.end < attrs[j].name_span.start
}

pub open spec fn child_span(c: RawChildView) -> Span {
    match c {
        RawChildView::Node(n) => n.span,
        RawChildView::Text { span, .. } => span,
    }
}

/// The children lie between `lo` and `hi`, one after the other.
pub open spec fn in_order(children: Seq<RawChildView>, lo: nat, hi: nat) -> bool {
    &&& forall|i: int|
        0 <= i < children.len() ==> inside(child_span(#[trigger] children[i]), lo, hi) && child_span(
            children[i],
        ).start < child_span(children[i]).end
    &&& forall|i: int, j: int|
        0 <= i < j < children.len() ==> child_span(#[trigger] children[i]).end <= child_span(
            #[trigger] children[j],
        ).start
}

/// An element whose parts lie inside it in order, with at most `levels`
/// levels of elements.
pub open spec fn node_ok(n: RawNodeView, levels: nat) -> bool
    decreases n,
{
    &&& levels > 0
    &&& n.name.len() > 0
    &&& crate::text::is_letter(n.name[0])
    &&& n.span.start < n.name_span.start < n.name_span.end < n.span.end
    &&& attrs_ok(n.attrs, n.name_span.end as nat, n.span.end as nat)
    &&& in_order(n.children, n.name_span.end as nat, n.span.end as nat)
    &&& forall|i: int|
        0 <= i < n.children.len() ==> match #[trigger] n.children[i] {
            RawChildView::Node(c) => node_ok(c, (levels - 1) as nat),
            RawChildView::Text { .. } => true,
        }
}

/// Every child element satisfies [`node_ok`].
pub open spec fn children_ok(children: Seq<RawChildView>, levels: nat) -> bool {
    forall|i: int|
        0 <= i < children.len() ==> match #[trigger] children[i] {
            RawChildView::Node(c) => node_ok(c, levels),
            RawChildView::Text { .. } => true,
        }
}

/// One error with a span inside the document.
pub open spec fn points_into(src: Seq<char>, d: DiagnosticView) -> bool {
    &&& d.severity == Severity::Error
    &&& d.span matches Some(s) && inside(s, 0, crate::text::byte_len(src))
}

pub open spec fn fits(src: Seq<char>) -> bool {
    crate::text::byte_len(src) <= usize::MAX
}

proof fn lemma_span(src: Seq<char>, a: int, b: int)
    requires
        fits(src),
        0 <= a <= b <= src.len(),
    ensures
        crate::parser::span_of(src, a, b).start == crate::text::offset(src, a),
        crate::parser::span_of(src, a, b).end == crate::text::offset(src, b),
        crate::text::offset(src, a) + (b - a) <= crate::text::offset(src, b) <= crate::text::byte_len(src),
{
    crate::text::lemma_offset_mono(src, a, b);
    crate::text::lemma_offset_mono(src, b, src.len() as int);
    assert(src.take(src.len() as int) =~= src);
}

proof fn lemma_error_at(src: Seq<char>, i: int, message: Seq<char>)
    requires
        fits(src),
        0 <= i <= src.len(),
    ensures
        points_into(src, crate::parser::error_at(src, i, message)),
{
    lemma_span(src, i, i);
}

proof fn lemma_skip_misc_error(src: Seq<char>, i: int)
    requires
        fits(src),
        0 <= i <= src.len(),
    ensures
        crate::parser::skip_misc(src, i) matches Err(e) ==> points_into(src, e),
    decreases src.len() - i,
{
    crate::parser::lemma_skip_space(src, i);
    let j = crate::parser::skip_space(src, i);
    lemma_error_at(src, j, "unterminated comment"@);
    lemma_error_at(src, j, "unterminated processing instruction"@);
    if crate::parser::at_comment(src, j) {
        crate::text::lemma_find_text(src, crate::parser::comment_end(), j + 4);
        match crate::text::find_text(src, crate::parser::comment_end(), j + 4) {
            Some(k) => lemma_skip_misc_error(src, k + 3),
            None => {},
        }
    } else if crate::parser::at2(src, j, '<', '?') {
        crate::text::lemma_find_text(src, crate::parser::instruction_end(), j + 2);
        match crate::text::find_text(src, crate::parser::instruction_end(), j + 2) {
            Some(k) => lemma_skip_misc_error(src, k + 2),
            None => {},
        }
    }
}

proof fn lemma_decoded_error(src: Seq<char>, i: int, end: int, acc: Seq<char>)
    requires
        fits(src),
        0 <= i <= end <= src.len(),
    ensures
        crate::parser::decoded_after(src, i, end, acc) matches Err(e) ==> points_into(src, e),
    decreases end - i,
{
    if i < end {
        lemma_error_at(src, i, "unknown entity (supported: &amp; &lt; &gt; &quot; &apos;)"@);
        if src[i] != '&' {
            lemma_decoded_error(src, i + 1, end, acc.push(src[i]));
        } else {
            match crate::parser::entity(src, i, end) {
                Some((c, n)) => lemma_decoded_error(src, i + n, end, acc.push(c)),
                None => {},
            }
        }
    }
}

proof fn lemma_name_spans(src: Seq<char>, i: int)
    requires
        fits(src),
        0 <= i <= src.len(),
    ensures
        match crate::parser::name(src, i) {
            Ok(n) => {
                &&& i < n.end <= src.len()
                &&& n.span.start == crate::text::offset(src, i)
                &&& n.span.end == crate::text::offset(src, n.end)
                &&& n.text.len() > 0
            },
            Err(e) => points_into(src, e),
        },
{
    crate::parser::lemma_name_end(src, i);
    lemma_error_at(src, i, "expected a name"@);
    lemma_span(src, i, crate::parser::name_end(src, i));
}

proof fn lemma_quoted_spans(src: Seq<char>, i: int)
    requires
        fits(src),
        0 <= i <= src.len(),
    ensures
        match crate::parser::quoted(src, i) {
            Ok(q) => {
                &&& i + 1 < q.end <= src.len()
                &&& q.span.start == crate::text::offset(src, i + 1)
                &&& q.span.end == crate::text::offset(src, q.end - 1)
                &&& crate::text::offset(src, i + 1) <= crate::text::offset(src, q.end - 1)
            },
            Err(e) => points_into(src, e),
        },
{
    lemma_error_at(src, i, "expected a quoted value"@);
    lemma_error_at(src, i, "unterminated quoted value"@);
    if i < src.len() {
        crate::text::lemma_find_from(src, src[i], i + 1);
        let k = crate::text::find_from(src, src[i], i + 1);
        if k < src.len() {
            lemma_decoded_error(src, i + 1, k, Seq::empty());
            lemma_span(src, i + 1, k);
        }
    }
}

proof fn lemma_attribute_spans(src: Seq<char>, i: int, attrs: Seq<RawAttrView>)
    requires
        fits(src),
        0 <= i <= src.len(),
    ensures
        match crate::parser::attribute(src, i, attrs) {
            Ok(a) => {
                &&& i < a.end <= src.len()
                &&& a.attr.name_span.start == crate::text::offset(src, i)
                &&& a.attr.name_span.start < a.attr.name_span.end <= a.attr.value_span.start
                    <= a.attr.value_span.end < crate::text::offset(src, a.end)
                &&& crate::raw::find_attr(attrs, a.attr.name) is None
            },
            Err(e) => points_into(src, e),
        },
{
    lemma_name_spans(src, i);
    match crate::parser::name(src, i) {
        Ok(n) => {
            lemma_span(src, i, n.end);
            crate::parser::lemma_skip_space(src, n.end);
            let eq = crate::parser::skip_space(src, n.end);
            lemma_error_at(src, eq, "expected `=` after `"@ + n.text + "`"@);
            if eq < src.len() {
                crate::parser::lemma_skip_space(src, eq + 1);
                let q = crate::parser::skip_space(src, eq + 1);
                lemma_quoted_spans(src, q);
                match crate::parser::quoted(src, q) {
                    Ok(v) => {
                        crate::text::lemma_offset_mono(src, n.end, q + 1);
                        crate::text::lemma_offset_mono(src, v.end - 1, v.end);
                    },
                    Err(_) => {},
                }
            }
        },
        Err(_) => {},
    }
}

proof fn lemma_attributes_spans(
    src: Seq<char>,
    i: int,
    start: int,
    tag: Seq<char>,
    attrs: Seq<RawAttrView>,
    lo: nat,
)
    requires
        fits(src),
        0 <= start <= i <= src.len(),
        attrs_ok(attrs, lo, crate::text::offset(src, i)),
        attrs.len() > 0 ==> attrs.last().value_span.end < crate::text::offset(src, i),
        lo <= crate::text::offset(src, i),
    ensures
        match crate::parser::attributes(src, i, start, tag, attrs) {
            Ok(a) => i < a.end <= src.len() && attrs_ok(a.attrs, lo, crate::text::offset(src, a.end)),
            Err(e) => points_into(src, e),
        },
    decreases src.len() - i,
{
    crate::parser::lemma_skip_space(src, i);
    let j = crate::parser::skip_space(src, i);
    lemma_error_at(src, start, "unterminated `<"@ + tag + ">`"@);
    crate::text::lemma_offset_mono(src, i, j);
    if crate::parser::at2(src, j, '/', '>') {
        crate::text::lemma_offset_mono(src, i, j + 2);
    } else if crate::parser::at1(src, j, '>') {
        crate::text::lemma_offset_mono(src, i, j + 1);
    } else if j < src.len() {
        lemma_attribute_spans(src, j, attrs);
        match crate::parser::attribute(src, j, attrs) {
            Ok(a) => {
                let more = attrs.push(a.attr);
                crate::text::lemma_offset_mono(src, j, a.end);
                crate::raw::lemma_find_attr(attrs, a.attr.name, 0);
                assert forall|x: int, y: int| 0 <= x < y < more.len() implies #[trigger] more[x].name
                    != #[trigger] more[y].name && more[x].value_span.end
                    < more[y].name_span.start by {
                    if y == attrs.len() {
                        assert(more[x] == attrs[x]);
                        assert(attrs[x].name != a.attr.name);
                        if x < attrs.len() - 1 {
                            assert(attrs[x].name != attrs[attrs.len() - 1].name);
                            assert(attrs[x].value_span.end < attrs.last().name_span.start);
                        }
                    } else {
                        assert(more[x] == attrs[x] && more[y] == attrs[y]);
                        assert(attrs[x].name != attrs[y].name);
                    }
                }
                assert(attrs_ok(more, lo, crate::text::offset(src, a.end))) by {
                    assert forall|x: int| 0 <= x < more.len() implies {
                        &&& inside((#[trigger] more[x]).name_span, lo, crate::text::offset(src, a.end))
                        &&& inside(more[x].value_span, lo, crate::text::offset(src, a.end))
                        &&& more[x].name_span.start < more[x].name_span.end
                        &&& more[x].name_span.end <= more[x].value_span.start
                    } by {
                        if x < attrs.len() {
                            assert(more[x] == attrs[x]);
                        }
                    }
                }
                lemma_attributes_spans(src, a.end, start, tag, more, lo);
            },
            Err(_) => {},
        }
    }
}

/// A start tag's parts, all before its end.
pub open spec fn open_ok(src: Seq<char>, open: Open, end: int) -> bool {
    &&& 0 <= open.start < end <= src.len()
    &&& open.name.len() > 0
    &&& crate::text::is_letter(open.name[0])
    &&& crate::text::offset(src, open.start) < open.name_span.start < open.name_span.end < crate::text::offset(src, end)
    &&& attrs_ok(open.attrs, open.name_span.end as nat, crate::text::offset(src, end))
}

proof fn lemma_start_tag_spans(src: Seq<char>, start: int)
    requires
        fits(src),
        0 <= start <= src.len(),
    ensures
        match crate::parser::start_tag(src, start) {
            Ok(t) => t.open.start == start && open_ok(src, t.open, t.end),
            Err(e) => points_into(src, e),
        },
{
    lemma_error_at(src, start, "expected `<`"@);
    lemma_error_at(src, start, "unexpected closing tag"@);
    if start < src.len() {
        lemma_name_spans(src, start + 1);
        match crate::parser::name(src, start + 1) {
            Ok(n) => {
                lemma_span(src, start, start + 1);
                lemma_span(src, start + 1, n.end);
                assert(attrs_ok(Seq::empty(), n.span.end as nat, crate::text::offset(src, n.end)));
                lemma_attributes_spans(
                    src,
                    n.end,
                    start,
                    n.text,
                    Seq::empty(),
                    n.span.end as nat,
                );
                match crate::parser::attributes(src, n.end, start, n.text, Seq::empty()) {
                    Ok(a) => lemma_span(src, n.end, a.end),
                    Err(_) => {},
                }
            },
            Err(_) => {},
        }
    }
}

proof fn lemma_attrs_ok_widen(attrs: Seq<RawAttrView>, lo: nat, hi: nat, hi2: nat)
    requires
        attrs_ok(attrs, lo, hi),
        hi <= hi2,
    ensures
        attrs_ok(attrs, lo, hi2),
{
}

proof fn lemma_node_spans(src: Seq<char>, start: int, levels: nat)
    requires
        fits(src),
        0 <= start <= src.len(),
    ensures
        match crate::parser::node(src, start, levels) {
            Ok(n) => {
                &&& start < n.end <= src.len()
                &&& n.node.span == crate::parser::span_of(src, start, n.end)
                &&& node_ok(n.node, levels)
            },
            Err(e) => points_into(src, e),
        },
    decreases levels, 0int, 0int,
{
    lemma_error_at(src, start, "document nested too deeply (max 128 levels)"@);
    if levels > 0 {
        lemma_start_tag_spans(src, start);
        match crate::parser::start_tag(src, start) {
            Ok(t) => {
                lemma_span(src, start, t.end);
                if t.self_closing {
                    let n = crate::parser::closed_node(src, t.open, Seq::empty(), t.end);
                    assert(in_order(
                        Seq::<RawChildView>::empty(),
                        n.name_span.end as nat,
                        n.span.end as nat,
                    ));
                } else {
                    lemma_content_spans(src, t.end, (levels - 1) as nat, t.open, Seq::empty());
                }
            },
            Err(_) => {},
        }
    }
}

proof fn lemma_content_spans(
    src: Seq<char>,
    i: int,
    levels: nat,
    open: Open,
    children: Seq<RawChildView>,
)
    requires
        fits(src),
        0 <= i <= src.len(),
        open_ok(src, open, i),
        in_order(children, open.name_span.end as nat, crate::text::offset(src, i)),
        children_ok(children, levels),
    ensures
        match crate::parser::content(src, i, levels, open, children) {
            Ok(n) => {
                &&& i < n.end <= src.len()
                &&& n.node.span == crate::parser::span_of(src, open.start, n.end)
                &&& node_ok(n.node, levels + 1)
            },
            Err(e) => points_into(src, e),
        },
    decreases levels, 1int, src.len() - i,
{
    lemma_error_at(src, open.start, "unterminated `<"@ + open.name + ">`"@);
    if i >= src.len() {
    } else if crate::parser::at_comment(src, i) {
        lemma_skip_misc_error(src, i);
        crate::parser::lemma_skip_misc(src, i);
        match crate::parser::skip_misc(src, i) {
            Ok(j) => {
                lemma_widen(src, i, j, open, children);
                lemma_content_spans(src, j, levels, open, children);
            },
            Err(_) => {},
        }
    } else if crate::parser::at2(src, i, '<', '/') {
        lemma_name_spans(src, i + 2);
        match crate::parser::name(src, i + 2) {
            Ok(n) => {
                crate::parser::lemma_skip_space(src, n.end);
                let g = crate::parser::skip_space(src, n.end);
                lemma_error_at(src, g, "expected `>`"@);
                lemma_span(src, i, n.end);
                if g < src.len() {
                    lemma_widen(src, i, g + 1, open, children);
                    lemma_span(src, open.start, g + 1);
                }
            },
            Err(_) => {},
        }
    } else if crate::parser::at1(src, i, '<') {
        lemma_node_spans(src, i, levels);
        match crate::parser::node(src, i, levels) {
            Ok(n) => {
                lemma_span(src, i, n.end);
                let more = children.push(RawChildView::Node(n.node));
                lemma_widen(src, i, n.end, open, children);
                lemma_push_child(children, RawChildView::Node(n.node), open.name_span.end as nat, crate::text::offset(src, i), crate::text::offset(src, n.end));
                lemma_content_spans(src, n.end, levels, open, more);
            },
            Err(_) => {},
        }
    } else {
        crate::text::lemma_find_from(src, '<', i);
        let k = crate::text::find_from(src, '<', i);
        lemma_decoded_error(src, i, k, Seq::empty());
        match crate::parser::decoded(src, i, k) {
            Ok(text) => {
                lemma_span(src, i, k);
                let c = RawChildView::Text { text, span: crate::parser::span_of(src, i, k) };
                lemma_widen(src, i, k, open, children);
                lemma_push_child(children, c, open.name_span.end as nat, crate::text::offset(src, i), crate::text::offset(src, k));
                lemma_content_spans(src, k, levels, open, children.push(c));
            },
            Err(_) => {},
        }
    }
}

/// What lies before `i` lies before `j`.
proof fn lemma_widen(src: Seq<char>, i: int, j: int, open: Open, children: Seq<RawChildView>)
    requires
        0 <= i <= j <= src.len(),
        open_ok(src, open, i),
        in_order(children, open.name_span.end as nat, crate::text::offset(src, i)),
    ensures
        open_ok(src, open, j),
        in_order(children, open.name_span.end as nat, crate::text::offset(src, j)),
{
    crate::text::lemma_offset_mono(src, i, j);
    lemma_attrs_ok_widen(open.attrs, open.name_span.end as nat, crate::text::offset(src, i), crate::text::offset(src, j));
}

proof fn lemma_push_child(
    children: Seq<RawChildView>,
    c: RawChildView,
    lo: nat,
    mid: nat,
    hi: nat,
)
    requires
        in_order(children, lo, mid),
        lo <= mid,
        child_span(c).start == mid,
        child_span(c).end == hi,
        mid < hi,
    ensures
        in_order(children.push(c), lo, hi),
{
    let more = children.push(c);
    assert forall|i: int| 0 <= i < more.len() implies inside(child_span(#[trigger] more[i]), lo, hi)
        && child_span(more[i]).start < child_span(more[i]).end by {
        if i < children.len() {
            assert(more[i] == children[i]);
        }
    }
    assert forall|i: int, j: int| 0 <= i < j < more.len() implies child_span(#[trigger] more[i]).end
        <= child_span(#[trigger] more[j]).start by {
        assert(more[i] == children[i]);
        if j < children.len() {
            assert(more[j] == children[j]);
        }
    }
}

/// A parsed document is one element in which every part lies inside the
/// element it belongs to, parts follow each other in source order, no
/// attribute is given twice, and elements nest at most [`MAX_DEPTH`] deep;
/// a document that does not parse yields one error that points into it.
pub proof fn parse_is_well_spanned(src: Seq<char>)
    requires
        crate::text::byte_len(src) <= usize::MAX,
    ensures
        match crate::parser::document(src) {
            Ok(n) => node_ok(n, MAX_DEPTH as nat) && n.span.end <= crate::text::byte_len(src),
            Err(e) => points_into(src, e),
        },
{
    lemma_skip_misc_error(src, 0);
    crate::parser::lemma_skip_misc(src, 0);
    crate::parser::lemma_skip_space(src, 0);
    match crate::parser::skip_misc(src, 0) {
        Ok(i) => {
            lemma_node_spans(src, i, MAX_DEPTH as nat);
            match crate::parser::node(src, i, MAX_DEPTH as nat) {
                Ok(n) => {
                    lemma_span(src, i, n.end);
                    lemma_skip_misc_error(src, n.end);
                    crate::parser::lemma_skip_misc(src, n.end);
                    crate::parser::lemma_skip_space(src, n.end);
                    match crate::parser::skip_misc(src, n.end) {
                        Ok(j) => lemma_error_at(
                            src,
                            j,
                            "unexpected content after the root element"@,
                        ),
                        Err(_) => {},
                    }
                },
                Err(_) => {},
            }
        },
        Err(_) => {},
    }
}

} // verus!
