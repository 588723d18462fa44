//! A parsed document says what its source does: every name, value and text
//! stands in the source where its span says, in order, and nothing of the
//! source is passed over but blanks, comments and processing instructions.

use vstd::prelude::*;

use crate::diagnostic::DiagnosticView;
use crate::parser::{Open, MAX_DEPTH};
use crate::raw::{RawAttrView, RawChildView, RawNodeView};

verus! {

/// Nothing but whitespace from `i` to `j`.
pub open spec fn is_blank(src: Seq<char>, i: int, j: int) -> bool {
    &&& 0 <= i <= j <= src.len()
    &&& forall|k: int| i <= k < j ==> crate::text::is_space(#[trigger] src[k])
}

/// `part` stands at `i`.
pub open spec fn holds_at(src: Seq<char>, part: Seq<char>, i: int) -> bool {
    0 <= i && i + part.len() <= src.len() && src.subrange(i, i + part.len()) == part
}

/// One comment or processing instruction from `i` to `j`, up to the first end
/// mark.
pub open spec fn is_aside(src: Seq<char>, i: int, j: int) -> bool {
    ||| {
        &&& i + 7 <= j
        &&& holds_at(src, "<!--"@, i)
        &&& holds_at(src, "-->"@, j - 3)
        &&& forall|k: int| i + 4 <= k < j - 3 ==> !#[trigger] holds_at(src, "-->"@, k)
    }
    ||| {
        &&& i + 4 <= j
        &&& holds_at(src, "<?"@, i)
        &&& holds_at(src, "?>"@, j - 2)
        &&& forall|k: int| i + 2 <= k < j - 2 ==> !#[trigger] holds_at(src, "?>"@, k)
    }
}

/// Nothing but whitespace, comments and processing instructions from `i` to
/// `j`.
pub open spec fn is_gap(src: Seq<char>, i: int, j: int) -> bool
    decreases j - i,
{
    &&& 0 <= i <= j <= src.len()
    &&& i < j ==> {
        ||| crate::text::is_space(src[i]) && is_gap(src, i + 1, j)
        ||| exists|k: int| i < k <= j && #[trigger] is_aside(src, i, k) && is_gap(src, k, j)
    }
}

/// How a character is written that may not stand for itself.
pub open spec fn written(c: char) -> Seq<char> {
    if c == '&' {
        "&amp;"@
    } else if c == '<' {
        "&lt;"@
    } else if c == '>' {
        "&gt;"@
    } else if c == '"' {
        "&quot;"@
    } else if c == '\'' {
        "&apos;"@
    } else {
        Seq::empty()
    }
}

/// The source text `raw` is read as `text`: each character for itself, but an
/// ampersand with what follows it for the character it names.
pub open spec fn reads_as(raw: Seq<char>, text: Seq<char>) -> bool
    decreases raw.len(),
{
    if raw.len() == 0 {
        text.len() == 0
    } else if raw[0] != '&' {
        text.len() > 0 && text[0] == raw[0] && reads_as(raw.skip(1), text.skip(1))
    } else {
        let w = written(text[0]);
        text.len() > 0 && 0 < w.len() <= raw.len() && raw.take(w.len() as int) == w && reads_as(
            raw.skip(w.len() as int),
            text.skip(1),
        )
    }
}

/// Letters, digits, `_` and `-` make names.
pub open spec fn in_names(c: char) -> bool {
    crate::text::is_letter(c) || crate::text::is_digit(c) || c == '_' || c == '-'
}

/// A whole name from `i` to `e`.
pub open spec fn is_name(src: Seq<char>, name: Seq<char>, i: int, e: int) -> bool {
    &&& 0 <= i < e <= src.len()
    &&& name == src.subrange(i, e)
    &&& forall|k: int| i <= k < e ==> in_names(#[trigger] src[k])
    &&& e < src.len() ==> !in_names(src[e])
}

/// An attribute from `i` to `j`: its name up to `e`, the sign at `x`, and its
/// value between the quotes at `q` and before `j`.
pub open spec fn attr_parts(
    src: Seq<char>,
    a: RawAttrView,
    i: int,
    e: int,
    x: int,
    q: int,
    j: int,
) -> bool {
    &&& is_name(src, a.name, i, e)
    &&& a.name_span == crate::parser::span_of(src, i, e)
    &&& is_blank(src, e, x)
    &&& x < src.len() && src[x] == '='
    &&& is_blank(src, x + 1, q)
    &&& q + 1 < j <= src.len()
    &&& src[q] == '"' || src[q] == '\''
    &&& src[j - 1] == src[q]
    &&& forall|k: int| q < k < j - 1 ==> #[trigger] src[k] != src[q]
    &&& a.value_span == crate::parser::span_of(src, q + 1, j - 1)
    &&& reads_as(src.subrange(q + 1, j - 1), a.value)
}

pub open spec fn attr_stands(src: Seq<char>, a: RawAttrView, i: int, j: int) -> bool {
    exists|e: int, x: int, q: int| #[trigger] attr_parts(src, a, i, e, x, q, j)
}

/// The first `n` attributes from `i` to `j`, blanks before each.
pub open spec fn attrs_stand(src: Seq<char>, attrs: Seq<RawAttrView>, n: int, i: int, j: int) -> bool
    decreases n,
{
    if n <= 0 {
        i == j
    } else {
        exists|m: int, k: int|
            {
                &&& attrs_stand(src, attrs, n - 1, i, m)
                &&& #[trigger] is_blank(src, m, k)
                &&& #[trigger] attr_stands(src, attrs[n - 1], k, j)
            }
    }
}

/// A start tag at `i`: its name up to `e`, and its attributes up to `k`; its
/// end stands at `g`.
pub open spec fn tag_parts(src: Seq<char>, n: RawNodeView, i: int, e: int, k: int, g: int) -> bool {
    &&& 0 <= i < src.len() && src[i] == '<'
    &&& is_name(src, n.name, i + 1, e)
    &&& crate::text::is_letter(n.name[0])
    &&& n.name_span == crate::parser::span_of(src, i + 1, e)
    &&& attrs_stand(src, n.attrs, n.attrs.len() as int, e, k)
    &&& is_blank(src, k, g)
}

/// A closing tag from `c` to `j`, its name up to `d`.
pub open spec fn end_parts(src: Seq<char>, name: Seq<char>, c: int, d: int, j: int) -> bool {
    &&& holds_at(src, "</"@, c)
    &&& is_name(src, name, c + 2, d)
    &&& is_blank(src, d, j - 1)
    &&& src[j - 1] == '>'
    &&& j <= src.len()
}

/// An element from `i` to `j`.
pub open spec fn node_stands(src: Seq<char>, n: RawNodeView, i: int, j: int) -> bool
    decreases n, 0int,
{
    &&& 0 <= i < j <= src.len()
    &&& n.span == crate::parser::span_of(src, i, j)
    &&& exists|e: int, k: int, g: int|
        {
            &&& #[trigger] tag_parts(src, n, i, e, k, g)
            &&& {
                ||| holds_at(src, "/>"@, g) && j == g + 2 && n.children.len() == 0
                ||| holds_at(src, ">"@, g) && exists|c: int, d: int|
                    #[trigger] end_parts(src, n.name, c, d, j) && children_stand(
                        src,
                        n.children,
                        n.children.len() as int,
                        g + 1,
                        c,
                    )
            }
        }
}

/// The span of a child is from `i` to `j`.
pub open spec fn child_spans(src: Seq<char>, c: RawChildView, i: int, j: int) -> bool {
    match c {
        RawChildView::Node(n) => n.span == crate::parser::span_of(src, i, j),
        RawChildView::Text { span, .. } => span == crate::parser::span_of(src, i, j),
    }
}

/// Nothing, or a gap that starts with a comment and goes on as far as it can.
pub open spec fn is_pause(src: Seq<char>, i: int, j: int) -> bool {
    &&& is_gap(src, i, j)
    &&& i < j ==> holds_at(src, "<!--"@, i)
    &&& i < j && j < src.len() ==> !crate::text::is_space(src[j]) && !holds_at(src, "<!--"@, j)
        && !holds_at(src, "<?"@, j)
}

/// The first `n` children from `i` to `j`, with nothing between them but
/// pauses.
pub open spec fn children_stand(
    src: Seq<char>,
    cs: Seq<RawChildView>,
    n: int,
    i: int,
    j: int,
) -> bool
    decreases cs, n,
{
    if n <= 0 || n > cs.len() {
        n == 0 && is_pause(src, i, j)
    } else {
        exists|m: int, p: int|
            {
                &&& #[trigger] child_spans(src, cs[n - 1], m, p)
                &&& children_stand(src, cs, n - 1, i, m)
                &&& child_stands(src, cs[n - 1], m, p)
                &&& is_pause(src, p, j)
            }
    }
}

/// An element, or a text up to the next `<`.
pub open spec fn child_stands(src: Seq<char>, c: RawChildView, i: int, j: int) -> bool
    decreases c, 0int,
{
    match c {
        RawChildView::Node(n) => node_stands(src, n, i, j),
        RawChildView::Text { text, span } => {
            &&& 0 <= i < j <= src.len()
            &&& span == crate::parser::span_of(src, i, j)
            &&& forall|k: int| i <= k < j ==> #[trigger] src[k] != '<'
            &&& j < src.len() ==> src[j] == '<'
            &&& reads_as(src.subrange(i, j), text)
        },
    }
}

// Blanks and gaps.

proof fn lemma_space(src: Seq<char>, i: int)
    requires
        0 <= i <= src.len(),
    ensures
        is_blank(src, i, crate::parser::skip_space(src, i)),
    decreases src.len() - i,
{
    if i < src.len() && crate::text::is_space(src[i]) {
        lemma_space(src, i + 1);
        let j = crate::parser::skip_space(src, i + 1);
        assert forall|k: int| i <= k < j implies crate::text::is_space(#[trigger] src[k]) by {
            if k > i {
                assert(i + 1 <= k);
            }
        }
    }
}

proof fn lemma_blank_gap(src: Seq<char>, i: int, j: int, end: int)
    requires
        is_blank(src, i, j),
        is_gap(src, j, end),
    ensures
        is_gap(src, i, end),
    decreases j - i,
{
    if i < j {
        assert(crate::text::is_space(src[i]));
        lemma_blank_gap(src, i + 1, j, end);
    }
}

proof fn lemma_gaps(src: Seq<char>, i: int, j: int, end: int)
    requires
        is_gap(src, i, j),
        is_gap(src, j, end),
    ensures
        is_gap(src, i, end),
    decreases j - i,
{
    if i < j {
        if crate::text::is_space(src[i]) && is_gap(src, i + 1, j) {
            lemma_gaps(src, i + 1, j, end);
        } else {
            let k = choose|k: int|
                i < k <= j && #[trigger] is_aside(src, i, k) && is_gap(src, k, j);
            lemma_gaps(src, k, j, end);
            assert(i < k <= end && is_aside(src, i, k) && is_gap(src, k, end));
        }
    }
}

proof fn lemma_aside_comment(src: Seq<char>, j: int, k: int)
    requires
        crate::parser::at_comment(src, j),
        crate::text::find_text(src, crate::parser::comment_end(), j + 4) == Some(k),
    ensures
        is_aside(src, j, k + 3),
        j + 7 <= k + 3 <= src.len(),
{
    reveal_strlit("<!--");
    reveal_strlit("-->");
    crate::text::lemma_find_text(src, crate::parser::comment_end(), j + 4);
    assert("-->"@ =~= crate::parser::comment_end());
    assert(src.subrange(j, j + 4) =~= "<!--"@);
    assert(holds_at(src, "<!--"@, j));
    assert(crate::text::stands_at(src, crate::parser::comment_end(), k));
    assert(holds_at(src, "-->"@, k + 3 - 3));
    assert forall|m: int| j + 4 <= m < k + 3 - 3 implies !#[trigger] holds_at(src, "-->"@, m) by {
        assert(!crate::text::stands_at(src, crate::parser::comment_end(), m));
    }
}

proof fn lemma_aside_instruction(src: Seq<char>, j: int, k: int)
    requires
        crate::parser::at2(src, j, '<', '?'),
        crate::text::find_text(src, crate::parser::instruction_end(), j + 2) == Some(k),
    ensures
        is_aside(src, j, k + 2),
        j + 4 <= k + 2 <= src.len(),
{
    reveal_strlit("<?");
    reveal_strlit("?>");
    crate::text::lemma_find_text(src, crate::parser::instruction_end(), j + 2);
    assert("?>"@ =~= crate::parser::instruction_end());
    assert(src.subrange(j, j + 2) =~= "<?"@);
    assert(holds_at(src, "<?"@, j));
    assert(crate::text::stands_at(src, crate::parser::instruction_end(), k));
    assert(holds_at(src, "?>"@, k + 2 - 2));
    assert forall|m: int| j + 2 <= m < k + 2 - 2 implies !#[trigger] holds_at(src, "?>"@, m) by {
        assert(!crate::text::stands_at(src, crate::parser::instruction_end(), m));
    }
}

proof fn lemma_misc(src: Seq<char>, i: int)
    requires
        0 <= i <= src.len(),
    ensures
        crate::parser::skip_misc(src, i) matches Ok(j) ==> is_gap(src, i, j),
    decreases src.len() - i,
{
    let j = crate::parser::skip_space(src, i);
    crate::parser::lemma_skip_space(src, i);
    lemma_space(src, i);
    assert(is_gap(src, j, j));
    lemma_blank_gap(src, i, j, j);
    if crate::parser::at_comment(src, j) {
        match crate::text::find_text(src, crate::parser::comment_end(), j + 4) {
            Some(k) => {
                lemma_aside_comment(src, j, k);
                lemma_misc(src, k + 3);
                match crate::parser::skip_misc(src, k + 3) {
                    Ok(end) => {
                        assert(j < k + 3 <= end && is_aside(src, j, k + 3) && is_gap(
                            src,
                            k + 3,
                            end,
                        ));
                        assert(is_gap(src, j, end));
                        lemma_blank_gap(src, i, j, end);
                    },
                    Err(_) => {},
                }
            },
            None => {},
        }
    } else if crate::parser::at2(src, j, '<', '?') {
        match crate::text::find_text(src, crate::parser::instruction_end(), j + 2) {
            Some(k) => {
                lemma_aside_instruction(src, j, k);
                lemma_misc(src, k + 2);
                match crate::parser::skip_misc(src, k + 2) {
                    Ok(end) => {
                        assert(j < k + 2 <= end && is_aside(src, j, k + 2) && is_gap(
                            src,
                            k + 2,
                            end,
                        ));
                        assert(is_gap(src, j, end));
                        lemma_blank_gap(src, i, j, end);
                    },
                    Err(_) => {},
                }
            },
            None => {},
        }
    }
}

pub proof fn lemma_comment_here(src: Seq<char>, i: int)
    ensures
        crate::parser::at_comment(src, i) == holds_at(src, "<!--"@, i),
        crate::parser::at2(src, i, '<', '?') == holds_at(src, "<?"@, i),
{
    reveal_strlit("<!--");
    reveal_strlit("<?");
    if 0 <= i && i + 4 <= src.len() {
        let s = src.subrange(i, i + 4);
        assert(s[0] == src[i] && s[1] == src[i + 1] && s[2] == src[i + 2] && s[3] == src[i + 3]);
        if crate::parser::at_comment(src, i) {
            assert(s =~= "<!--"@);
        }
    }
    if 0 <= i && i + 2 <= src.len() {
        let s = src.subrange(i, i + 2);
        assert(s[0] == src[i] && s[1] == src[i + 1]);
        if crate::parser::at2(src, i, '<', '?') {
            assert(s =~= "<?"@);
        }
    }
}

proof fn lemma_space_stops(src: Seq<char>, i: int)
    requires
        0 <= i <= src.len(),
    ensures
        ({
            let j = crate::parser::skip_space(src, i);
            j < src.len() ==> !crate::text::is_space(src[j])
        }),
    decreases src.len() - i,
{
    if i < src.len() && crate::text::is_space(src[i]) {
        lemma_space_stops(src, i + 1);
    }
}

/// What is passed over goes on as far as it can.
proof fn lemma_misc_stops(src: Seq<char>, i: int)
    requires
        0 <= i <= src.len(),
    ensures
        crate::parser::skip_misc(src, i) matches Ok(j) ==> (j < src.len()
            ==> !crate::text::is_space(src[j]) && !holds_at(src, "<!--"@, j) && !holds_at(src, "<?"@, j)),
    decreases src.len() - i,
{
    let j = crate::parser::skip_space(src, i);
    crate::parser::lemma_skip_space(src, i);
    lemma_space_stops(src, i);
    lemma_comment_here(src, j);
    if crate::parser::at_comment(src, j) {
        match crate::text::find_text(src, crate::parser::comment_end(), j + 4) {
            Some(k) => {
                lemma_aside_comment(src, j, k);
                lemma_misc_stops(src, k + 3);
            },
            None => {},
        }
    } else if crate::parser::at2(src, j, '<', '?') {
        match crate::text::find_text(src, crate::parser::instruction_end(), j + 2) {
            Some(k) => {
                lemma_aside_instruction(src, j, k);
                lemma_misc_stops(src, k + 2);
            },
            None => {},
        }
    }
}

// Names and values.

proof fn lemma_name_run(src: Seq<char>, i: int)
    requires
        0 <= i <= src.len(),
    ensures
        forall|k: int|
            i <= k < crate::parser::name_end(src, i) ==> crate::parser::name_char(#[trigger] src[k]),
        crate::parser::name_end(src, i) < src.len() ==> !crate::parser::name_char(
            src[crate::parser::name_end(src, i)],
        ),
    decreases src.len() - i,
{
    if i < src.len() && crate::parser::name_char(src[i]) {
        lemma_name_run(src, i + 1);
    }
}

proof fn lemma_name(src: Seq<char>, i: int)
    requires
        0 <= i <= src.len(),
    ensures
        crate::parser::name(src, i) matches Ok(n) ==> is_name(src, n.text, i, n.end) && n.span
            == crate::parser::span_of(src, i, n.end),
{
    crate::parser::lemma_name_end(src, i);
    lemma_name_run(src, i);
}

proof fn lemma_entity(src: Seq<char>, i: int, end: int)
    requires
        0 <= i < end <= src.len(),
    ensures
        crate::parser::entity(src, i, end) matches Some((c, n)) ==> {
            &&& written(c).len() == n
            &&& 0 < n <= end - i
            &&& src.subrange(i, end).take(n) == written(c)
        },
{
    reveal_strlit("&amp;");
    reveal_strlit("&lt;");
    reveal_strlit("&gt;");
    reveal_strlit("&quot;");
    reveal_strlit("&apos;");
    match crate::parser::entity(src, i, end) {
        Some((c, n)) => {
            assert(src.subrange(i, end).take(n) =~= written(c));
        },
        None => {},
    }
}

proof fn lemma_decoded(src: Seq<char>, i: int, end: int, acc: Seq<char>)
    requires
        0 <= i <= end <= src.len(),
    ensures
        crate::parser::decoded_after(src, i, end, acc) matches Ok(t) ==> acc.len() <= t.len()
            && t.take(acc.len() as int) == acc && reads_as(
            src.subrange(i, end),
            t.skip(acc.len() as int),
        ),
    decreases end - i,
{
    match crate::parser::decoded_after(src, i, end, acc) {
        Err(_) => {},
        Ok(t) => {
            let raw = src.subrange(i, end);
            let a = acc.len() as int;
            if i >= end {
                assert(t.take(a) =~= acc);
            } else if src[i] != '&' {
                let more = acc.push(src[i]);
                lemma_decoded(src, i + 1, end, more);
                lemma_pushed(t, acc, src[i]);
                assert(raw.skip(1) =~= src.subrange(i + 1, end));
            } else {
                lemma_entity(src, i, end);
                match crate::parser::entity(src, i, end) {
                    None => {},
                    Some((c, n)) => {
                        let more = acc.push(c);
                        lemma_decoded(src, i + n, end, more);
                        lemma_pushed(t, acc, c);
                        assert(raw.skip(n) =~= src.subrange(i + n, end));
                    },
                }
            }
        },
    }
}

proof fn lemma_pushed(t: Seq<char>, acc: Seq<char>, c: char)
    requires
        acc.len() < t.len(),
        t.take(acc.len() as int + 1) == acc.push(c),
    ensures
        t.take(acc.len() as int) == acc,
        t[acc.len() as int] == c,
        t.skip(acc.len() as int).len() > 0,
        t.skip(acc.len() as int)[0] == c,
        t.skip(acc.len() as int).skip(1) == t.skip(acc.len() as int + 1),
{
    let a = acc.len() as int;
    let head = t.take(a + 1);
    assert(t.take(a) =~= acc) by {
        assert forall|k: int| 0 <= k < a implies t.take(a)[k] == acc[k] by {
            assert(head[k] == acc.push(c)[k]);
        }
    }
    assert(head[a] == c);
    assert(t.skip(a).skip(1) =~= t.skip(a + 1));
}

proof fn lemma_text(src: Seq<char>, i: int, end: int)
    requires
        0 <= i <= end <= src.len(),
    ensures
        crate::parser::decoded(src, i, end) matches Ok(t) ==> reads_as(src.subrange(i, end), t),
{
    lemma_decoded(src, i, end, Seq::empty());
    match crate::parser::decoded(src, i, end) {
        Ok(t) => {
            assert(t.skip(0) =~= t);
        },
        Err(_) => {},
    }
}

// Tags.

proof fn lemma_attr(src: Seq<char>, i: int, attrs: Seq<RawAttrView>)
    requires
        0 <= i <= src.len(),
    ensures
        crate::parser::attribute(src, i, attrs) matches Ok(a) ==> attr_stands(
            src,
            a.attr,
            i,
            a.end,
        ),
{
    match crate::parser::attribute(src, i, attrs) {
        Err(_) => {},
        Ok(a) => {
            lemma_name(src, i);
            crate::parser::lemma_name_end(src, i);
            let e = crate::parser::name_end(src, i);
            crate::parser::lemma_skip_space(src, e);
            lemma_space(src, e);
            let x = crate::parser::skip_space(src, e);
            crate::parser::lemma_skip_space(src, x + 1);
            lemma_space(src, x + 1);
            let q = crate::parser::skip_space(src, x + 1);
            crate::text::lemma_find_from(src, src[q], q + 1);
            let k = crate::text::find_from(src, src[q], q + 1);
            lemma_text(src, q + 1, k);
            assert(attr_parts(src, a.attr, i, e, x, q, a.end));
        },
    }
}

proof fn lemma_attrs(
    src: Seq<char>,
    i: int,
    start: int,
    tag: Seq<char>,
    attrs: Seq<RawAttrView>,
    from: int,
)
    requires
        0 <= i <= src.len(),
        attrs_stand(src, attrs, attrs.len() as int, from, i),
    ensures
        crate::parser::attributes(src, i, start, tag, attrs) matches Ok(a) ==> exists|k: int, g: int|
            {
                &&& attrs_stand(src, a.attrs, a.attrs.len() as int, from, k)
                &&& #[trigger] is_blank(src, k, g)
                &&& a.self_closing ==> holds_at(src, "/>"@, g) && a.end == g + 2
                &&& !a.self_closing ==> holds_at(src, ">"@, g) && a.end == g + 1
            },
    decreases src.len() - i,
{
    reveal_strlit("/>");
    reveal_strlit(">");
    let j = crate::parser::skip_space(src, i);
    crate::parser::lemma_skip_space(src, i);
    lemma_space(src, i);
    if crate::parser::at2(src, j, '/', '>') {
        assert(src.subrange(j, j + 2) =~= "/>"@);
        assert(holds_at(src, "/>"@, j));
        assert(is_blank(src, i, j));
    } else if crate::parser::at1(src, j, '>') {
        assert(src.subrange(j, j + 1) =~= ">"@);
        assert(holds_at(src, ">"@, j));
        assert(is_blank(src, i, j));
    } else if j < src.len() {
        lemma_attr(src, j, attrs);
        crate::parser::lemma_attribute(src, j, attrs);
        match crate::parser::attribute(src, j, attrs) {
            Err(_) => {},
            Ok(a) => {
                let more = attrs.push(a.attr);
                let n = attrs.len() as int;
                assert(more.take(n) =~= attrs);
                lemma_attrs_same(src, attrs, more, n, from, i);
                let all = more.len() as int;
                assert(attrs_stand(src, more, all - 1, from, i) && is_blank(src, i, j)
                    && attr_stands(src, more[all - 1], j, a.end));
                assert(attrs_stand(src, more, all, from, a.end));
                lemma_attrs(src, a.end, start, tag, more, from);
            },
        }
    }
}

proof fn lemma_attrs_same(
    src: Seq<char>,
    a: Seq<RawAttrView>,
    b: Seq<RawAttrView>,
    n: int,
    i: int,
    j: int,
)
    requires
        attrs_stand(src, a, n, i, j),
        n <= a.len() <= b.len(),
        b.take(a.len() as int) == a,
    ensures
        attrs_stand(src, b, n, i, j),
    decreases n,
{
    if n > 0 {
        let (m, k) = choose|m: int, k: int|
            {
                &&& attrs_stand(src, a, n - 1, i, m)
                &&& #[trigger] is_blank(src, m, k)
                &&& #[trigger] attr_stands(src, a[n - 1], k, j)
            };
        lemma_attrs_same(src, a, b, n - 1, i, m);
        assert(b.take(a.len() as int)[n - 1] == b[n - 1]);
        assert(attrs_stand(src, b, n - 1, i, m) && is_blank(src, m, k) && attr_stands(
            src,
            b[n - 1],
            k,
            j,
        ));
    }
}

proof fn lemma_children_same(
    src: Seq<char>,
    a: Seq<RawChildView>,
    b: Seq<RawChildView>,
    n: int,
    i: int,
    j: int,
)
    requires
        children_stand(src, a, n, i, j),
        0 <= n <= a.len() <= b.len(),
        b.take(a.len() as int) == a,
    ensures
        children_stand(src, b, n, i, j),
    decreases n,
{
    if n > 0 {
        let (m, p) = choose|m: int, p: int|
            {
                &&& #[trigger] child_spans(src, a[n - 1], m, p)
                &&& children_stand(src, a, n - 1, i, m)
                &&& child_stands(src, a[n - 1], m, p)
                &&& is_pause(src, p, j)
            };
        lemma_children_same(src, a, b, n - 1, i, m);
        assert(b.take(a.len() as int)[n - 1] == b[n - 1]);
        assert(child_spans(src, b[n - 1], m, p) && children_stand(src, b, n - 1, i, m)
            && child_stands(src, b[n - 1], m, p));
    }
}

/// What stands up to `j` goes on over a pause.
proof fn lemma_children_gap(
    src: Seq<char>,
    cs: Seq<RawChildView>,
    i: int,
    j: int,
    end: int,
)
    requires
        children_stand(src, cs, cs.len() as int, i, j),
        is_pause(src, j, end),
        holds_at(src, "<!--"@, j),
    ensures
        children_stand(src, cs, cs.len() as int, i, end),
{
    let n = cs.len() as int;
    if n == 0 {
        lemma_pauses(src, i, j, end);
    } else {
        let (m, p) = choose|m: int, p: int|
            {
                &&& #[trigger] child_spans(src, cs[n - 1], m, p)
                &&& children_stand(src, cs, n - 1, i, m)
                &&& child_stands(src, cs[n - 1], m, p)
                &&& is_pause(src, p, j)
            };
        lemma_pauses(src, p, j, end);
        assert(child_spans(src, cs[n - 1], m, p) && children_stand(src, cs, n - 1, i, m)
            && child_stands(src, cs[n - 1], m, p));
    }
}

/// A pause ends where no comment starts, so that a pause before a comment is
/// none.
proof fn lemma_pauses(src: Seq<char>, i: int, j: int, end: int)
    requires
        is_pause(src, i, j),
        is_pause(src, j, end),
        holds_at(src, "<!--"@, j),
    ensures
        is_pause(src, i, end),
{
    reveal_strlit("<!--");
    assert(i == j);
}

proof fn lemma_child_added(
    src: Seq<char>,
    cs: Seq<RawChildView>,
    c: RawChildView,
    i: int,
    m: int,
    p: int,
)
    requires
        children_stand(src, cs, cs.len() as int, i, m),
        child_stands(src, c, m, p),
        0 <= p <= src.len(),
    ensures
        children_stand(src, cs.push(c), cs.len() as int + 1, i, p),
{
    let more = cs.push(c);
    let n = cs.len() as int;
    assert(more.take(n) =~= cs);
    lemma_children_same(src, cs, more, n, i, m);
    assert(more[n] == c);
    assert(is_pause(src, p, p));
    assert(child_spans(src, more[n + 1 - 1], m, p));
    assert(children_stand(src, more, n, i, m) && child_stands(src, more[n + 1 - 1], m, p));
}

// Elements.

proof fn lemma_node(src: Seq<char>, start: int, levels: nat)
    requires
        0 <= start <= src.len(),
    ensures
        crate::parser::node(src, start, levels) matches Ok(n) ==> node_stands(
            src,
            n.node,
            start,
            n.end,
        ),
    decreases levels, 0int, 0int,
{
    crate::parser::lemma_node_end(src, start, levels);
    if levels > 0 {
        crate::parser::lemma_start_tag(src, start);
        match crate::parser::start_tag(src, start) {
            Err(_) => {},
            Ok(t) => {
                lemma_name(src, start + 1);
                crate::parser::lemma_name_end(src, start + 1);
                let e = crate::parser::name_end(src, start + 1);
                lemma_attrs(src, e, start, t.open.name, Seq::empty(), e);
                let (k, g) = choose|k: int, g: int|
                    {
                        &&& attrs_stand(src, t.open.attrs, t.open.attrs.len() as int, e, k)
                        &&& #[trigger] is_blank(src, k, g)
                        &&& t.self_closing ==> holds_at(src, "/>"@, g) && t.end == g + 2
                        &&& !t.self_closing ==> holds_at(src, ">"@, g) && t.end == g + 1
                    };
                if t.self_closing {
                    let n = crate::parser::closed_node(src, t.open, Seq::empty(), t.end);
                    assert(tag_parts(src, n, start, e, k, g));
                } else {
                    assert(is_pause(src, g + 1, g + 1));
                    assert(children_stand(src, Seq::empty(), 0, g + 1, g + 1));
                    lemma_content(
                        src,
                        t.end,
                        (levels - 1) as nat,
                        t.open,
                        Seq::empty(),
                        e,
                        k,
                        g,
                    );
                }
            },
        }
    }
}

/// The parts of a start tag stand in the source.
spec fn open_stands(src: Seq<char>, open: Open, e: int, k: int, g: int) -> bool {
    let n = RawNodeView {
        name: open.name,
        name_span: open.name_span,
        attrs: open.attrs,
        children: Seq::empty(),
        span: crate::parser::span_of(src, open.start, open.start),
    };
    tag_parts(src, n, open.start, e, k, g) && holds_at(src, ">"@, g)
}

proof fn lemma_closing(
    src: Seq<char>,
    i: int,
    open: Open,
    children: Seq<RawChildView>,
    e: int,
    k: int,
    g: int,
)
    requires
        crate::parser::at2(src, i, '<', '/'),
        open_stands(src, open, e, k, g),
        children_stand(src, children, children.len() as int, g + 1, i),
        0 <= open.start < i,
        g < i,
    ensures
        crate::parser::closing(src, i, open, children) matches Ok(n) ==> node_stands(
            src,
            n.node,
            open.start,
            n.end,
        ),
{
    reveal_strlit("</");
    assert(src.subrange(i, i + 2) =~= "</"@);
    assert(holds_at(src, "</"@, i));
    lemma_name(src, i + 2);
    crate::parser::lemma_name_end(src, i + 2);
    let d = crate::parser::name_end(src, i + 2);
    crate::parser::lemma_skip_space(src, d);
    lemma_space(src, d);
    match crate::parser::closing(src, i, open, children) {
        Err(_) => {},
        Ok(n) => {
            assert(n.node.children == children);
            assert(end_parts(src, n.node.name, i, d, n.end));
            assert(tag_parts(src, n.node, open.start, e, k, g));
            assert(node_stands(src, n.node, open.start, n.end));
        },
    }
}

proof fn lemma_content(
    src: Seq<char>,
    i: int,
    levels: nat,
    open: Open,
    children: Seq<RawChildView>,
    e: int,
    k: int,
    g: int,
)
    requires
        0 <= i <= src.len(),
        open_stands(src, open, e, k, g),
        children_stand(src, children, children.len() as int, g + 1, i),
        0 <= open.start < i,
        g < i,
    ensures
        crate::parser::content(src, i, levels, open, children) matches Ok(n) ==> node_stands(
            src,
            n.node,
            open.start,
            n.end,
        ),
    decreases levels, 1int, src.len() - i,
{
    crate::parser::lemma_content_end(src, i, levels, open, children);
    if i >= src.len() {
    } else if crate::parser::at_comment(src, i) {
        lemma_misc(src, i);
        crate::parser::lemma_skip_misc(src, i);
        crate::parser::lemma_skip_space(src, i);
        match crate::parser::skip_misc(src, i) {
            Err(_) => {},
            Ok(j) => {
                lemma_comment_here(src, i);
                lemma_misc_stops(src, i);
                lemma_children_gap(src, children, g + 1, i, j);
                lemma_content(src, j, levels, open, children, e, k, g);
            },
        }
    } else if crate::parser::at2(src, i, '<', '/') {
        lemma_closing(src, i, open, children, e, k, g);
    } else if crate::parser::at1(src, i, '<') {
        lemma_node(src, i, levels);
        crate::parser::lemma_node_end(src, i, levels);
        match crate::parser::node(src, i, levels) {
            Err(_) => {},
            Ok(n) => {
                let c = RawChildView::Node(n.node);
                assert(child_stands(src, c, i, n.end));
                lemma_child_added(src, children, c, g + 1, i, n.end);
                lemma_content(src, n.end, levels, open, children.push(c), e, k, g);
            },
        }
    } else {
        crate::text::lemma_find_from(src, '<', i);
        let m = crate::text::find_from(src, '<', i);
        lemma_text(src, i, m);
        match crate::parser::decoded(src, i, m) {
            Err(_) => {},
            Ok(text) => {
                let c = RawChildView::Text { text, span: crate::parser::span_of(src, i, m) };
                assert(child_stands(src, c, i, m));
                lemma_child_added(src, children, c, g + 1, i, m);
                lemma_content(src, m, levels, open, children.push(c), e, k, g);
            },
        }
    }
}

/// A document that parses is one element with nothing but whitespace, comments
/// and processing instructions around it, and the tree holds its names,
/// attributes, texts and elements as they stand in the source, in order and
/// without a loss.
#[verifier::spinoff_prover]
#[verifier::rlimit(60)]
pub proof fn documents_say_what_they_hold(src: Seq<char>)
    ensures
        crate::parser::document(src) matches Ok(n) ==> exists|i: int, j: int|
            is_gap(src, 0, i) && #[trigger] node_stands(src, n, i, j) && is_gap(
                src,
                j,
                src.len() as int,
            ),
{
    match crate::parser::document(src) {
        Err(_) => {},
        Ok(n) => {
            lemma_misc(src, 0);
            crate::parser::lemma_skip_misc(src, 0);
            crate::parser::lemma_skip_space(src, 0);
            let i = crate::parser::skip_misc(src, 0)->Ok_0;
            let levels = MAX_DEPTH as nat;
            assert(crate::parser::skip_misc(src, 0) is Ok);
            assert(crate::parser::node(src, i, levels) is Ok);
            lemma_node(src, i, levels);
            crate::parser::lemma_node_end(src, i, levels);
            let e = crate::parser::node(src, i, levels)->Ok_0.end;
            lemma_misc(src, e);
            crate::parser::lemma_skip_misc(src, e);
            crate::parser::lemma_skip_space(src, e);
            assert(node_stands(src, n, i, e));
        },
    }
}

} // verus!
