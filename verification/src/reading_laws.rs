//! A source in which an element stands is parsed as that element.

use vstd::prelude::*;

use crate::diagnostic::DiagnosticView;
use crate::parser::{Open, MAX_DEPTH};
use crate::raw::{RawAttrView, RawChildView, RawNodeView};

verus! {

proof fn lemma_skip_to(src: Seq<char>, i: int, j: int)
    requires
        crate::grammar_laws::is_blank(src, i, j),
        j < src.len() ==> !crate::text::is_space(src[j]),
    ensures
        crate::parser::skip_space(src, i) == j,
    decreases j - i,
{
    if i < j {
        assert(crate::text::is_space(src[i]));
        lemma_skip_to(src, i + 1, j);
    }
}

proof fn lemma_name_to(src: Seq<char>, i: int, e: int)
    requires
        0 <= i <= e <= src.len(),
        forall|k: int| i <= k < e ==> crate::grammar_laws::in_names(#[trigger] src[k]),
        e < src.len() ==> !crate::grammar_laws::in_names(src[e]),
    ensures
        crate::parser::name_end(src, i) == e,
    decreases e - i,
{
    if i < e {
        assert(crate::grammar_laws::in_names(src[i]));
        lemma_name_to(src, i + 1, e);
    }
}

proof fn lemma_entity_to(src: Seq<char>, i: int, end: int, c: char)
    requires
        0 <= i < end <= src.len(),
        ({
            let w = crate::grammar_laws::written(c);
            0 < w.len() <= end - i && src.subrange(i, end).take(w.len() as int) == w
        }),
    ensures
        crate::parser::entity(src, i, end) == Some(
            (c, crate::grammar_laws::written(c).len() as int),
        ),
{
    reveal_strlit("&amp;");
    reveal_strlit("&lt;");
    reveal_strlit("&gt;");
    reveal_strlit("&quot;");
    reveal_strlit("&apos;");
    let w = crate::grammar_laws::written(c);
    let t = src.subrange(i, end).take(w.len() as int);
    assert forall|k: int| 0 <= k < w.len() implies src[i + k] == #[trigger] w[k] by {
        assert(t[k] == src[i + k]);
    }
    assert(w[0] == src[i + 0] && w[1] == src[i + 1] && w[2] == src[i + 2] && w[3] == src[i + 3]);
    if w.len() > 4 {
        assert(w[4] == src[i + 4]);
    }
    if w.len() > 5 {
        assert(w[5] == src[i + 5]);
    }
}

proof fn lemma_reads(src: Seq<char>, i: int, end: int, acc: Seq<char>, text: Seq<char>)
    requires
        0 <= i <= end <= src.len(),
        crate::grammar_laws::reads_as(src.subrange(i, end), text),
    ensures
        crate::parser::decoded_after(src, i, end, acc) == Ok::<Seq<char>, DiagnosticView>(
            acc + text,
        ),
    decreases end - i,
{
    let raw = src.subrange(i, end);
    if i >= end {
        assert(acc + text =~= acc);
    } else {
        let n = if src[i] != '&' {
            1int
        } else {
            crate::grammar_laws::written(text[0]).len() as int
        };
        assert(raw[0] == src[i]);
        if src[i] == '&' {
            lemma_entity_to(src, i, end, text[0]);
        }
        assert(raw.skip(n) =~= src.subrange(i + n, end));
        lemma_reads(src, i + n, end, acc.push(text[0]), text.skip(1));
        assert(acc.push(text[0]) + text.skip(1) =~= acc + text);
    }
}

proof fn lemma_text_to(src: Seq<char>, i: int, end: int, text: Seq<char>)
    requires
        0 <= i <= end <= src.len(),
        crate::grammar_laws::reads_as(src.subrange(i, end), text),
    ensures
        crate::parser::decoded(src, i, end) == Ok::<Seq<char>, DiagnosticView>(text),
{
    lemma_reads(src, i, end, Seq::empty(), text);
    assert(Seq::<char>::empty() + text =~= text);
}

// Tags.

proof fn lemma_attr_to(src: Seq<char>, i: int, j: int, a: RawAttrView, before: Seq<RawAttrView>)
    requires
        crate::grammar_laws::attr_stands(src, a, i, j),
        forall|k: int| 0 <= k < before.len() ==> (#[trigger] before[k]).name != a.name,
    ensures
        crate::parser::attribute(src, i, before) matches Ok(r) && r.attr == a && r.end == j,
        0 <= i < j <= src.len(),
        crate::grammar_laws::in_names(src[i]),
{
    let (e, x, q) = choose|e: int, x: int, q: int| #[trigger]
        crate::grammar_laws::attr_parts(src, a, i, e, x, q, j);
    lemma_name_to(src, i, e);
    lemma_skip_to(src, e, x);
    lemma_skip_to(src, x + 1, q);
    crate::raw::lemma_find_attr(before, a.name, 0);
    crate::value_laws::lemma_first(src, src[q], q + 1, j - 1);
    lemma_text_to(src, q + 1, j - 1, a.value);
}

pub open spec fn names_differ(attrs: Seq<RawAttrView>) -> bool {
    forall|i: int, j: int|
        0 <= i < j < attrs.len() ==> #[trigger] attrs[i].name != #[trigger] attrs[j].name
}

proof fn lemma_not_blank(c: char)
    requires
        crate::grammar_laws::in_names(c),
    ensures
        !crate::text::is_space(c),
        c != '/',
        c != '>',
{
}

proof fn lemma_attr_step(
    src: Seq<char>,
    m: int,
    k: int,
    j: int,
    a: RawAttrView,
    before: Seq<RawAttrView>,
    start: int,
    tag: Seq<char>,
)
    requires
        crate::grammar_laws::is_blank(src, m, k),
        crate::grammar_laws::attr_stands(src, a, k, j),
        forall|i: int| 0 <= i < before.len() ==> (#[trigger] before[i]).name != a.name,
    ensures
        0 <= j <= src.len(),
        crate::parser::attributes(src, m, start, tag, before) == crate::parser::attributes(
            src,
            j,
            start,
            tag,
            before.push(a),
        ),
{
    lemma_attr_to(src, k, j, a, before);
    lemma_not_blank(src[k]);
    lemma_skip_to(src, m, k);
}

#[verifier::spinoff_prover]
#[verifier::rlimit(50)]
proof fn lemma_attrs_to(
    src: Seq<char>,
    attrs: Seq<RawAttrView>,
    n: int,
    i: int,
    j: int,
    start: int,
    tag: Seq<char>,
)
    requires
        0 <= n <= attrs.len(),
        0 <= i <= src.len(),
        names_differ(attrs),
        crate::grammar_laws::attrs_stand(src, attrs, n, i, j),
    ensures
        0 <= j <= src.len(),
        crate::parser::attributes(src, i, start, tag, Seq::empty()) == crate::parser::attributes(
            src,
            j,
            start,
            tag,
            attrs.take(n),
        ),
    decreases n,
{
    if n == 0 {
        assert(attrs.take(0) =~= Seq::empty());
    } else {
        let (m, k) = choose|m: int, k: int|
            {
                &&& crate::grammar_laws::attrs_stand(src, attrs, n - 1, i, m)
                &&& #[trigger] crate::grammar_laws::is_blank(src, m, k)
                &&& #[trigger] crate::grammar_laws::attr_stands(src, attrs[n - 1], k, j)
            };
        lemma_attrs_to(src, attrs, n - 1, i, m, start, tag);
        let before = attrs.take(n - 1);
        assert forall|k: int| 0 <= k < before.len() implies (#[trigger] before[k]).name
            != attrs[n - 1].name by {
            assert(before[k] == attrs[k]);
            assert(attrs[k].name != attrs[n - 1].name);
        }
        lemma_attr_step(src, m, k, j, attrs[n - 1], before, start, tag);
        assert(before.push(attrs[n - 1]) =~= attrs.take(n));
    }
}

proof fn lemma_tag_to(src: Seq<char>, n: RawNodeView, i: int, e: int, k: int, g: int)
    requires
        crate::grammar_laws::tag_parts(src, n, i, e, k, g),
        names_differ(n.attrs),
        crate::grammar_laws::holds_at(src, "/>"@, g) || crate::grammar_laws::holds_at(
            src,
            ">"@,
            g,
        ),
    ensures
        crate::parser::start_tag(src, i) matches Ok(t) && {
            &&& t.open == (Open { start: i, name: n.name, name_span: n.name_span, attrs: n.attrs })
            &&& crate::grammar_laws::holds_at(src, "/>"@, g) ==> t.self_closing && t.end == g + 2
            &&& !crate::grammar_laws::holds_at(src, "/>"@, g) ==> !t.self_closing && t.end == g + 1
        },
{
    reveal_strlit("/>");
    reveal_strlit(">");
    lemma_name_to(src, i + 1, e);
    assert(n.name[0] == src[i + 1]);
    lemma_attrs_to(src, n.attrs, n.attrs.len() as int, e, k, i, n.name);
    assert(n.attrs.take(n.attrs.len() as int) =~= n.attrs);
    if crate::grammar_laws::holds_at(src, "/>"@, g) {
        let s = src.subrange(g, g + 2);
        assert(s[0] == src[g] && s[1] == src[g + 1]);
    } else {
        let s = src.subrange(g, g + 1);
        assert(s[0] == src[g]);
        assert(src[g] == '>');
    }
    lemma_skip_to(src, k, g);
}

// Gaps.

proof fn lemma_misc_to(src: Seq<char>, i: int, j: int)
    requires
        crate::grammar_laws::is_gap(src, i, j),
        j < src.len() ==> !crate::text::is_space(src[j]) && !crate::grammar_laws::holds_at(
            src,
            "<!--"@,
            j,
        ) && !crate::grammar_laws::holds_at(src, "<?"@, j),
    ensures
        crate::parser::skip_misc(src, i) == Ok::<int, DiagnosticView>(j),
    decreases j - i,
{
    crate::grammar_laws::lemma_comment_here(src, i);
    if i == j {
        assert(crate::parser::skip_space(src, i) == i);
    } else if crate::text::is_space(src[i]) && crate::grammar_laws::is_gap(src, i + 1, j) {
        lemma_misc_to(src, i + 1, j);
        assert(crate::parser::skip_space(src, i) == crate::parser::skip_space(src, i + 1));
    } else {
        let k = choose|k: int|
            i < k <= j && #[trigger] crate::grammar_laws::is_aside(src, i, k)
                && crate::grammar_laws::is_gap(src, k, j);
        lemma_misc_to(src, k, j);
        reveal_strlit("<!--");
        reveal_strlit("<?");
        assert(src[i] == '<') by {
            if crate::grammar_laws::holds_at(src, "<!--"@, i) {
                assert(src.subrange(i, i + 4)[0] == src[i]);
            } else {
                assert(src.subrange(i, i + 2)[0] == src[i]);
            }
        }
        assert(crate::parser::skip_space(src, i) == i);
        lemma_aside_to(src, i, k);
    }
}

proof fn lemma_aside_to(src: Seq<char>, i: int, k: int)
    requires
        0 <= i,
        crate::grammar_laws::is_aside(src, i, k),
    ensures
        crate::parser::at_comment(src, i) ==> crate::text::find_text(
            src,
            crate::parser::comment_end(),
            i + 4,
        ) == Some(k - 3),
        !crate::parser::at_comment(src, i) ==> crate::parser::at2(src, i, '<', '?')
            && crate::text::find_text(src, crate::parser::instruction_end(), i + 2) == Some(k - 2),
{
    reveal_strlit("-->");
    reveal_strlit("?>");
    reveal_strlit("<!--");
    reveal_strlit("<?");
    assert("-->"@ =~= crate::parser::comment_end());
    assert("?>"@ =~= crate::parser::instruction_end());
    crate::grammar_laws::lemma_comment_here(src, i);
    if crate::parser::at_comment(src, i) {
        assert(!crate::parser::at2(src, i, '<', '?'));
        lemma_found_at(src, crate::parser::comment_end(), i + 4, k - 3);
    } else {
        lemma_found_at(src, crate::parser::instruction_end(), i + 2, k - 2);
    }
}

proof fn lemma_found_at(src: Seq<char>, pat: Seq<char>, from: int, at: int)
    requires
        0 <= from <= at,
        crate::grammar_laws::holds_at(src, pat, at),
        forall|k: int| from <= k < at ==> !#[trigger] crate::grammar_laws::holds_at(src, pat, k),
    ensures
        crate::text::find_text(src, pat, from) == Some(at),
    decreases at - from,
{
    assert(crate::text::stands_at(src, pat, at));
    if from < at {
        assert(!crate::grammar_laws::holds_at(src, pat, from));
        lemma_found_at(src, pat, from + 1, at);
    }
}

// Elements.

/// An element with at most `levels` levels, in which no attribute is given
/// twice.
pub open spec fn nests(n: RawNodeView, levels: nat) -> bool
    decreases n,
{
    &&& levels > 0
    &&& names_differ(n.attrs)
    &&& forall|i: int|
        0 <= i < n.children.len() ==> match #[trigger] n.children[i] {
            RawChildView::Node(c) => nests(c, (levels - 1) as nat),
            RawChildView::Text { .. } => true,
        }
}

pub open spec fn all_nest(cs: Seq<RawChildView>, levels: nat) -> bool {
    forall|i: int|
        0 <= i < cs.len() ==> match #[trigger] cs[i] {
            RawChildView::Node(c) => nests(c, levels),
            RawChildView::Text { .. } => true,
        }
}

proof fn lemma_node_to(src: Seq<char>, n: RawNodeView, i: int, j: int, levels: nat)
    requires
        crate::grammar_laws::node_stands(src, n, i, j),
        nests(n, levels),
    ensures
        crate::parser::node(src, i, levels) matches Ok(r) && r.node == n && r.end == j,
        0 <= i < j <= src.len(),
        crate::parser::at1(src, i, '<'),
        !crate::parser::at2(src, i, '<', '/'),
        !crate::parser::at_comment(src, i),
    decreases n, 0int,
{
    reveal_strlit("/>");
    reveal_strlit(">");
    let (e, k, g) = choose|e: int, k: int, g: int|
        {
            &&& #[trigger] crate::grammar_laws::tag_parts(src, n, i, e, k, g)
            &&& {
                ||| crate::grammar_laws::holds_at(src, "/>"@, g) && j == g + 2
                    && n.children.len() == 0
                ||| crate::grammar_laws::holds_at(src, ">"@, g) && exists|c: int, d: int|
                    #[trigger] crate::grammar_laws::end_parts(src, n.name, c, d, j)
                        && crate::grammar_laws::children_stand(
                        src,
                        n.children,
                        n.children.len() as int,
                        g + 1,
                        c,
                    )
            }
        };
    assert(crate::grammar_laws::tag_parts(src, n, i, e, k, g));
    assert(n.name[0] == src[i + 1]);
    lemma_tag_to(src, n, i, e, k, g);
    let open = Open { start: i, name: n.name, name_span: n.name_span, attrs: n.attrs };
    if crate::grammar_laws::holds_at(src, "/>"@, g) {
        let s = src.subrange(g, g + 2);
        assert(s[0] == src[g]);
        if crate::grammar_laws::holds_at(src, ">"@, g) {
            assert(src.subrange(g, g + 1)[0] == src[g]);
        }
        assert(n.children =~= Seq::empty());
        assert(crate::parser::closed_node(src, open, Seq::empty(), j) == n);
    } else {
        let (c, d) = choose|c: int, d: int|
            #[trigger] crate::grammar_laws::end_parts(src, n.name, c, d, j)
                && crate::grammar_laws::children_stand(
                src,
                n.children,
                n.children.len() as int,
                g + 1,
                c,
            );
        let below = (levels - 1) as nat;
        assert(all_nest(n.children, below));
        lemma_children_to(src, n.children, n.children.len() as int, g + 1, c, below, open);
        assert(n.children.take(n.children.len() as int) =~= n.children);
        lemma_end_to(src, n, open, c, d, j, below);
    }
}

proof fn lemma_end_to(
    src: Seq<char>,
    n: RawNodeView,
    open: Open,
    c: int,
    d: int,
    j: int,
    levels: nat,
)
    requires
        crate::grammar_laws::end_parts(src, n.name, c, d, j),
        open == (Open {
            start: open.start,
            name: n.name,
            name_span: n.name_span,
            attrs: n.attrs,
        }),
        n.span == crate::parser::span_of(src, open.start, j),
    ensures
        crate::parser::content(src, c, levels, open, n.children) matches Ok(r) && r.node == n
            && r.end == j,
{
    reveal_strlit("</");
    let s = src.subrange(c, c + 2);
    assert(s[0] == src[c] && s[1] == src[c + 1]);
    assert(crate::parser::at2(src, c, '<', '/'));
    assert(!crate::parser::at_comment(src, c));
    lemma_name_to(src, c + 2, d);
    lemma_skip_to(src, d, j - 1);
    assert(crate::parser::closed_node(src, open, n.children, j) == n);
}

proof fn lemma_pause_to(
    src: Seq<char>,
    p: int,
    j: int,
    levels: nat,
    open: Open,
    children: Seq<RawChildView>,
)
    requires
        crate::grammar_laws::is_pause(src, p, j),
    ensures
        crate::parser::content(src, p, levels, open, children) == crate::parser::content(
            src,
            j,
            levels,
            open,
            children,
        ),
{
    if p < j {
        crate::grammar_laws::lemma_comment_here(src, p);
        lemma_misc_to(src, p, j);
        assert(crate::parser::at_comment(src, p));
    }
}

proof fn lemma_children_to(
    src: Seq<char>,
    cs: Seq<RawChildView>,
    n: int,
    i: int,
    j: int,
    levels: nat,
    open: Open,
)
    requires
        0 <= n <= cs.len(),
        crate::grammar_laws::children_stand(src, cs, n, i, j),
        all_nest(cs, levels),
    ensures
        crate::parser::content(src, i, levels, open, Seq::empty()) == crate::parser::content(
            src,
            j,
            levels,
            open,
            cs.take(n),
        ),
    decreases cs, n,
{
    if n == 0 {
        assert(cs.take(0) =~= Seq::empty());
        lemma_pause_to(src, i, j, levels, open, Seq::empty());
    } else {
        let (m, p) = choose|m: int, p: int|
            {
                &&& #[trigger] crate::grammar_laws::child_spans(src, cs[n - 1], m, p)
                &&& crate::grammar_laws::children_stand(src, cs, n - 1, i, m)
                &&& crate::grammar_laws::child_stands(src, cs[n - 1], m, p)
                &&& crate::grammar_laws::is_pause(src, p, j)
            };
        lemma_children_to(src, cs, n - 1, i, m, levels, open);
        let before = cs.take(n - 1);
        assert(before.push(cs[n - 1]) =~= cs.take(n));
        match cs[n - 1] {
            RawChildView::Node(c) => {
                assert(nests(c, levels));
                lemma_node_to(src, c, m, p, levels);
            },
            RawChildView::Text { text, span } => {
                assert(src[m] != '<');
                crate::value_laws::lemma_first(src, '<', m, p);
                lemma_text_to(src, m, p, text);
            },
        }
        assert(crate::parser::content(src, m, levels, open, before) == crate::parser::content(
            src,
            p,
            levels,
            open,
            cs.take(n),
        ));
        lemma_pause_to(src, p, j, levels, open, cs.take(n));
    }
}

/// A source that is one element with nothing but whitespace, comments and
/// processing instructions around it is parsed as that element, whatever its
/// quotes, blanks and comments, if no attribute is given twice and elements
/// nest at most [`MAX_DEPTH`] deep.
pub proof fn what_stands_is_parsed(src: Seq<char>, n: RawNodeView, i: int, j: int)
    requires
        crate::grammar_laws::is_gap(src, 0, i),
        crate::grammar_laws::node_stands(src, n, i, j),
        crate::grammar_laws::is_gap(src, j, src.len() as int),
        nests(n, MAX_DEPTH as nat),
    ensures
        crate::parser::document(src) == Ok::<RawNodeView, DiagnosticView>(n),
{
    lemma_node_to(src, n, i, j, MAX_DEPTH as nat);
    crate::grammar_laws::lemma_comment_here(src, i);
    lemma_no_instruction(src, n, i, j);
    lemma_misc_to(src, 0, i);
    lemma_misc_to(src, j, src.len() as int);
}

proof fn lemma_no_instruction(src: Seq<char>, n: RawNodeView, i: int, j: int)
    requires
        crate::grammar_laws::node_stands(src, n, i, j),
    ensures
        !crate::parser::at2(src, i, '<', '?'),
{
    let (e, k, g) = choose|e: int, k: int, g: int|
        {
            &&& #[trigger] crate::grammar_laws::tag_parts(src, n, i, e, k, g)
            &&& {
                ||| crate::grammar_laws::holds_at(src, "/>"@, g) && j == g + 2
                    && n.children.len() == 0
                ||| crate::grammar_laws::holds_at(src, ">"@, g) && exists|c: int, d: int|
                    #[trigger] crate::grammar_laws::end_parts(src, n.name, c, d, j)
                        && crate::grammar_laws::children_stand(
                        src,
                        n.children,
                        n.children.len() as int,
                        g + 1,
                        c,
                    )
            }
        };
    assert(crate::grammar_laws::tag_parts(src, n, i, e, k, g));
    assert(n.name[0] == src[i + 1]);
}

} // verus!
