//! Written markup parses back to the tree that was written.

use vstd::prelude::*;

use crate::diagnostic::DiagnosticView;
use crate::parser::{Name, Node, Open, MAX_DEPTH};
use crate::raw::{RawAttrView, RawChildView, RawNodeView};
use crate::writer::{MarkupChildView, MarkupView};

verus! {

// The tree of a parse, without its spans.

pub open spec fn attr_shapes(attrs: Seq<RawAttrView>) -> Seq<(Seq<char>, Seq<char>)> {
    Seq::new(attrs.len(), |i: int| (attrs[i].name, attrs[i].value))
}

#[verifier::opaque]
pub open spec fn shape(n: RawNodeView) -> MarkupView
    decreases n,
{
    MarkupView {
        name: n.name,
        attrs: attr_shapes(n.attrs),
        children: Seq::new(
            n.children.len(),
            |i: int|
                if 0 <= i < n.children.len() {
                    child_shape(n.children[i])
                } else {
                    arbitrary()
                },
        ),
    }
}

pub open spec fn child_shape(c: RawChildView) -> MarkupChildView
    decreases c,
{
    match c {
        RawChildView::Node(n) => MarkupChildView::Node(shape(n)),
        RawChildView::Text { text, .. } => MarkupChildView::Text(text),
    }
}

pub proof fn lemma_child_shape(n: RawNodeView)
    ensures
        child_shape(RawChildView::Node(n)) == MarkupChildView::Node(shape(n)),
{
    reveal_with_fuel(shape, 2);
}

pub open spec fn child_shapes(s: Seq<RawChildView>) -> Seq<MarkupChildView> {
    Seq::new(s.len(), |i: int| child_shape(s[i]))
}

pub proof fn lemma_shape(n: RawNodeView)
    ensures
        shape(n).name == n.name,
        shape(n).attrs == attr_shapes(n.attrs),
        shape(n).children == child_shapes(n.children),
{
    reveal(shape);
    assert(shape(n).children =~= child_shapes(n.children));
}

// What can be written.

pub open spec fn is_name(s: Seq<char>) -> bool {
    &&& s.len() > 0
    &&& forall|i: int| 0 <= i < s.len() ==> crate::parser::name_char(#[trigger] s[i])
}

/// Attribute names, each once.
pub open spec fn attrs_writable(attrs: Seq<(Seq<char>, Seq<char>)>) -> bool {
    &&& forall|i: int| 0 <= i < attrs.len() ==> is_name((#[trigger] attrs[i]).0)
    &&& forall|i: int, j: int|
        0 <= i < j < attrs.len() ==> (#[trigger] attrs[i]).0 != (#[trigger] attrs[j]).0
}

/// Text that needs no escaping.
pub open spec fn plain(s: Seq<char>) -> bool {
    &&& s.len() > 0
    &&& forall|i: int| 0 <= i < s.len() ==> #[trigger] s[i] != '<' && s[i] != '&'
}

/// A tree of at most `levels` levels whose names are names, whose text is
/// plain, and in which no text follows another.
#[verifier::opaque]
pub open spec fn writable(m: MarkupView, levels: nat) -> bool
    decreases m,
{
    &&& levels > 0
    &&& is_name(m.name)
    &&& crate::text::is_letter(m.name[0])
    &&& attrs_writable(m.attrs)
    &&& forall|i: int|
        0 <= i < m.children.len() ==> match #[trigger] m.children[i] {
            MarkupChildView::Node(c) => writable(c, (levels - 1) as nat),
            MarkupChildView::Text(t) => plain(t) && (i + 1 < m.children.len() ==> m.children[i + 1]
                is Node),
        }
}

/// The condition on the children alone.
pub open spec fn children_writable(children: Seq<MarkupChildView>, levels: nat) -> bool {
    forall|i: int|
        0 <= i < children.len() ==> match #[trigger] children[i] {
            MarkupChildView::Node(c) => writable(c, levels),
            MarkupChildView::Text(t) => plain(t) && (i + 1 < children.len() ==> children[i + 1] is Node),
        }
}

// Text at a position.

/// `s` stands in `src` at `i`.
#[verifier::opaque]
pub open spec fn holds(src: Seq<char>, i: int, s: Seq<char>) -> bool {
    crate::text::stands_at(src, s, i)
}

proof fn lemma_split(src: Seq<char>, i: int, a: Seq<char>, b: Seq<char>)
    requires
        holds(src, i, a + b),
    ensures
        holds(src, i, a),
        holds(src, i + a.len(), b),
{
    reveal(holds);
    let w = src.subrange(i, i + (a + b).len());
    assert(src.subrange(i, i + a.len()) =~= w.subrange(0, a.len() as int));
    assert(w.subrange(0, a.len() as int) =~= a);
    assert(src.subrange(i + a.len(), i + a.len() + b.len()) =~= w.subrange(
        a.len() as int,
        (a + b).len() as int,
    ));
    assert(w.subrange(a.len() as int, (a + b).len() as int) =~= b);
}

proof fn lemma_at(src: Seq<char>, i: int, s: Seq<char>, k: int)
    requires
        holds(src, i, s),
        0 <= k < s.len(),
    ensures
        0 <= i,
        src[i + k] == s[k],
        i + k < src.len(),
{
    reveal(holds);
    assert(src.subrange(i, i + s.len())[k] == s[k]);
}

proof fn lemma_within(src: Seq<char>, i: int, s: Seq<char>)
    requires
        holds(src, i, s),
    ensures
        0 <= i,
        i + s.len() <= src.len(),
        src.subrange(i, i + s.len()) == s,
{
    reveal(holds);
}

/// A name ends where no name character follows.
proof fn lemma_name_at(src: Seq<char>, i: int, s: Seq<char>, k: int)
    requires
        holds(src, i, s),
        is_name(s),
        0 <= k <= s.len(),
        i + s.len() < src.len(),
        !crate::parser::name_char(src[i + s.len()]),
    ensures
        crate::parser::name_end(src, i + k) == i + s.len(),
    decreases s.len() - k,
{
    if k < s.len() {
        lemma_at(src, i, s, k);
        lemma_name_at(src, i, s, k + 1);
    }
}

/// What parsing a name gives.
proof fn lemma_name(src: Seq<char>, i: int, s: Seq<char>)
    requires
        holds(src, i, s),
        is_name(s),
        i + s.len() < src.len(),
        !crate::parser::name_char(src[i + s.len()]),
    ensures
        crate::parser::name(src, i) == Ok::<Name, DiagnosticView>(
            Name {
                text: s,
                span: crate::parser::span_of(src, i, i + s.len()),
                end: i + s.len(),
            },
        ),
{
    lemma_within(src, i, s);
    lemma_name_at(src, i, s, 0);
}

// Escaped values.

proof fn lemma_escaped_no_quote(v: Seq<char>)
    ensures
        forall|i: int|
            0 <= i < crate::writer::escaped(v).len() ==> #[trigger] crate::writer::escaped(v)[i]
                != '"',
    decreases v.len(),
{
    if v.len() > 0 {
        lemma_escaped_no_quote(v.drop_last());
        let a = crate::writer::escaped(v.drop_last());
        let b = crate::writer::escaped_char(v.last());
        let all = crate::writer::escaped(v);
        assert forall|i: int| 0 <= i < all.len() implies #[trigger] all[i] != '"' by {
            if i < a.len() {
                assert(all[i] == a[i]);
            } else {
                assert(all[i] == b[i - a.len()]);
            }
        }
    }
}

/// What is written after the first `k` characters of a value.
proof fn lemma_escaped_prefix(v: Seq<char>, k: int) -> (rest: Seq<char>)
    requires
        0 <= k <= v.len(),
    ensures
        crate::writer::escaped(v) == crate::writer::escaped(v.take(k)) + rest,
    decreases v.len() - k,
{
    if k == v.len() {
        assert(v.take(k) =~= v);
        let rest = Seq::<char>::empty();
        assert(crate::writer::escaped(v) =~= crate::writer::escaped(v.take(k)) + rest);
        rest
    } else {
        let rest = lemma_escaped_prefix(v, k + 1);
        assert(v.take(k + 1).drop_last() =~= v.take(k));
        let more = crate::writer::escaped_char(v[k]) + rest;
        assert(crate::writer::escaped(v) =~= crate::writer::escaped(v.take(k)) + more);
        more
    }
}

/// Decoding a written value step by step.
proof fn lemma_decode_from(src: Seq<char>, a: int, v: Seq<char>, k: int)
    requires
        holds(src, a, crate::writer::escaped(v)),
        0 <= k <= v.len(),
    ensures
        crate::parser::decoded_after(
            src,
            a + crate::writer::escaped(v.take(k)).len(),
            a + crate::writer::escaped(v).len(),
            v.take(k),
        ) == Ok::<Seq<char>, DiagnosticView>(v),
    decreases v.len() - k,
{
    let end = a + crate::writer::escaped(v).len();
    if k == v.len() {
        assert(v.take(k) =~= v);
    } else {
        let c = v[k];
        let e = crate::writer::escaped_char(c);
        let pos = a + crate::writer::escaped(v.take(k)).len();
        assert(v.take(k + 1).drop_last() =~= v.take(k));
        assert(v.take(k + 1) =~= v.take(k).push(c));
        let rest = lemma_escaped_prefix(v, k + 1);
        assert(crate::writer::escaped(v) =~= crate::writer::escaped(v.take(k)) + (e + rest));
        lemma_split(src, a, crate::writer::escaped(v.take(k)), e + rest);
        lemma_split(src, pos, e, rest);
        lemma_decode_from(src, a, v, k + 1);
        lemma_at(src, pos, e, 0);
        if c == '&' {
            lemma_at(src, pos, e, 1);
            lemma_at(src, pos, e, 2);
            lemma_at(src, pos, e, 3);
            lemma_at(src, pos, e, 4);
            assert(crate::parser::entity(src, pos, end) == Some(('&', 5int)));
        } else if c == '"' {
            lemma_at(src, pos, e, 1);
            lemma_at(src, pos, e, 2);
            lemma_at(src, pos, e, 3);
            lemma_at(src, pos, e, 4);
            lemma_at(src, pos, e, 5);
            assert(crate::parser::entity(src, pos, end) == Some(('"', 6int)));
        } else if c == '<' {
            lemma_at(src, pos, e, 1);
            lemma_at(src, pos, e, 2);
            lemma_at(src, pos, e, 3);
            assert(crate::parser::entity(src, pos, end) == Some(('<', 4int)));
        } else if c == '>' {
            lemma_at(src, pos, e, 1);
            lemma_at(src, pos, e, 2);
            lemma_at(src, pos, e, 3);
            assert(crate::parser::entity(src, pos, end) == Some(('>', 4int)));
        }
    }
}

/// Decoding undoes attribute escaping, wherever the escaped value stands.
pub proof fn decoding_undoes_escaping(src: Seq<char>, at: int, value: Seq<char>)
    requires
        0 <= at,
        at + crate::writer::escaped(value).len() <= src.len(),
        src.subrange(at, at + crate::writer::escaped(value).len()) == crate::writer::escaped(value),
    ensures
        crate::parser::decoded(src, at, at + crate::writer::escaped(value).len()) == Ok::<
            Seq<char>,
            DiagnosticView,
        >(value),
{
    reveal(holds);
    lemma_decode_from(src, at, value, 0);
    assert(value.take(0) =~= Seq::empty());
    assert(crate::writer::escaped(value.take(0)).len() == 0);
}

/// Text without ampersands decodes to itself.
proof fn lemma_decode_plain(src: Seq<char>, i: int, end: int, acc: Seq<char>)
    requires
        0 <= i <= end <= src.len(),
        forall|k: int| i <= k < end ==> #[trigger] src[k] != '&',
    ensures
        crate::parser::decoded_after(src, i, end, acc) == Ok::<Seq<char>, DiagnosticView>(
            acc + src.subrange(i, end),
        ),
    decreases end - i,
{
    if i < end {
        lemma_decode_plain(src, i + 1, end, acc.push(src[i]));
        assert(acc.push(src[i]) + src.subrange(i + 1, end) =~= acc + src.subrange(i, end));
    } else {
        assert(acc + src.subrange(i, end) =~= acc);
    }
}

/// The first occurrence after a run without it.
proof fn lemma_find_at(src: Seq<char>, c: char, from: int, k: int)
    requires
        0 <= from <= k < src.len(),
        src[k] == c,
        forall|j: int| from <= j < k ==> #[trigger] src[j] != c,
    ensures
        crate::text::find_from(src, c, from) == k,
    decreases k - from,
{
    if from < k {
        lemma_find_at(src, c, from + 1, k);
    }
}

/// A quoted value.
proof fn lemma_quoted(src: Seq<char>, i: int, v: Seq<char>)
    requires
        holds(src, i, seq!['"'] + (crate::writer::escaped(v) + seq!['"'])),
    ensures
        crate::parser::quoted(src, i) matches Ok(q) && q.text == v && q.end == i + 2
            + crate::writer::escaped(v).len(),
{
    let e = crate::writer::escaped(v);
    lemma_split(src, i, seq!['"'], e + seq!['"']);
    lemma_split(src, i + 1, e, seq!['"']);
    lemma_at(src, i, seq!['"'], 0);
    let k = i + 1 + e.len();
    lemma_at(src, k, seq!['"'], 0);
    lemma_escaped_no_quote(v);
    assert forall|j: int| i + 1 <= j < k implies #[trigger] src[j] != '"' by {
        lemma_at(src, i + 1, e, j - (i + 1));
        assert(e[j - (i + 1)] != '"');
    }
    lemma_find_at(src, '"', i + 1, k);
    lemma_decode_from(src, i + 1, v, 0);
    assert(v.take(0) =~= Seq::<char>::empty());
    assert(crate::writer::escaped(v.take(0)).len() == 0);
}

// Attributes.

proof fn lemma_no_such_attr(attrs: Seq<RawAttrView>, name: Seq<char>)
    requires
        forall|i: int| 0 <= i < attrs.len() ==> (#[trigger] attrs[i]).name != name,
    ensures
        crate::raw::find_attr(attrs, name) is None,
{
    crate::raw::lemma_find_attr(attrs, name, 0);
}

/// What follows a tag's attributes.
pub open spec fn tag_end(m: MarkupView) -> Seq<char> {
    if m.children.len() == 0 {
        seq!['/', '>']
    } else {
        seq!['>'] + (crate::writer::children_from(m.children, 0) + crate::writer::closing_tag(
            m.name,
        ))
    }
}

/// The parts of the attribute `k` at `i`, and what follows it.
proof fn lemma_attrs_split(
    src: Seq<char>,
    i: int,
    attrs: Seq<(Seq<char>, Seq<char>)>,
    k: int,
    rest: Seq<char>,
)
    requires
        0 <= k < attrs.len(),
        holds(src, i, crate::writer::attrs_from(attrs, k) + rest),
    ensures
        ({
            let name = attrs[k].0;
            let e = crate::writer::escaped(attrs[k].1);
            &&& holds(src, i, seq![' '])
            &&& holds(src, i + 1, name)
            &&& holds(src, i + 1 + name.len(), seq!['='])
            &&& holds(src, i + 2 + name.len(), seq!['"'] + (e + seq!['"']))
            &&& holds(
                src,
                i + 4 + name.len() + e.len(),
                crate::writer::attrs_from(attrs, k + 1) + rest,
            )
            &&& crate::writer::attrs_from(attrs, k).len() == 4 + name.len() + e.len()
                + crate::writer::attrs_from(attrs, k + 1).len()
        }),
{
    let name = attrs[k].0;
    let e = crate::writer::escaped(attrs[k].1);
    let next = crate::writer::attrs_from(attrs, k + 1);
    let quoted = seq!['"'] + (e + seq!['"']);
    let more = next + rest;
    assert(crate::writer::attrs_from(attrs, k) == seq![' '] + (name + (seq!['=', '"'] + (e + (
    seq!['"'] + next)))));
    assert(crate::writer::attrs_from(attrs, k) + rest =~= seq![' '] + (name + (seq!['='] + (quoted
        + more))));
    lemma_split(src, i, seq![' '], name + (seq!['='] + (quoted + more)));
    lemma_split(src, i + 1, name, seq!['='] + (quoted + more));
    lemma_split(src, i + 1 + name.len(), seq!['='], quoted + more);
    lemma_split(src, i + 2 + name.len(), quoted, more);
}

/// One attribute.
proof fn lemma_attribute(
    src: Seq<char>,
    j: int,
    name: Seq<char>,
    value: Seq<char>,
    done: Seq<RawAttrView>,
)
    requires
        is_name(name),
        holds(src, j, name),
        holds(src, j + name.len(), seq!['=']),
        holds(
            src,
            j + name.len() + 1,
            seq!['"'] + (crate::writer::escaped(value) + seq!['"']),
        ),
        forall|x: int| 0 <= x < done.len() ==> (#[trigger] done[x]).name != name,
    ensures
        crate::parser::attribute(src, j, done) matches Ok(a) && {
            &&& a.attr.name == name
            &&& a.attr.value == value
            &&& a.end == j + name.len() + 3 + crate::writer::escaped(value).len()
        },
{
    let eq = j + name.len();
    let q = eq + 1;
    lemma_at(src, eq, seq!['='], 0);
    lemma_within(src, j, name);
    lemma_name(src, j, name);
    assert(crate::parser::skip_space(src, eq) == eq);
    lemma_at(src, q, seq!['"'] + (crate::writer::escaped(value) + seq!['"']), 0);
    assert(crate::parser::skip_space(src, q) == q);
    lemma_quoted(src, q, value);
    lemma_no_such_attr(done, name);
}

#[verifier::rlimit(60)]
proof fn lemma_attributes(
    src: Seq<char>,
    i: int,
    start: int,
    m: MarkupView,
    k: int,
    done: Seq<RawAttrView>,
)
    requires
        attrs_writable(m.attrs),
        0 <= k <= m.attrs.len(),
        attr_shapes(done) == m.attrs.take(k),
        holds(src, i, crate::writer::attrs_from(m.attrs, k) + tag_end(m)),
    ensures
        crate::parser::attributes(src, i, start, m.name, done) matches Ok(a) && {
            &&& attr_shapes(a.attrs) == m.attrs
            &&& a.self_closing == (m.children.len() == 0)
            &&& a.end == i + crate::writer::attrs_from(m.attrs, k).len() + (if m.children.len()
                == 0 {
                2int
            } else {
                1int
            })
        },
    decreases m.attrs.len() - k,
{
    let rest = tag_end(m);
    assert(done.len() == k) by {
        assert(attr_shapes(done).len() == m.attrs.take(k).len());
    }
    if k == m.attrs.len() {
        assert(crate::writer::attrs_from(m.attrs, k) + rest =~= rest);
        assert(m.attrs.take(k) =~= m.attrs);
        lemma_at(src, i, rest, 0);
        if m.children.len() == 0 {
            lemma_at(src, i, rest, 1);
        }
        assert(crate::parser::skip_space(src, i) == i);
    } else {
        let name = m.attrs[k].0;
        let value = m.attrs[k].1;
        lemma_attrs_split(src, i, m.attrs, k, rest);
        lemma_at(src, i, seq![' '], 0);
        let j = i + 1;
        assert(is_name(m.attrs[k].0));
        lemma_at(src, j, name, 0);
        assert(crate::parser::name_char(name[0]));
        // One space before the name.
        assert(crate::parser::skip_space(src, j) == j);
        assert(crate::parser::skip_space(src, i) == j);
        assert forall|x: int| 0 <= x < done.len() implies (#[trigger] done[x]).name != name by {
            assert(attr_shapes(done)[x] == m.attrs.take(k)[x]);
            assert(m.attrs[x].0 != m.attrs[k].0);
        }
        lemma_attribute(src, j, name, value, done);
        let a = crate::parser::attribute(src, j, done)->Ok_0;
        let next = done.push(a.attr);
        assert(attr_shapes(next) =~= m.attrs.take(k + 1)) by {
            assert forall|x: int| 0 <= x < k implies attr_shapes(next)[x] == m.attrs.take(
                k + 1,
            )[x] by {
                assert(attr_shapes(done)[x] == m.attrs.take(k)[x]);
            }
        }
        lemma_attributes(src, a.end, start, m, k + 1, next);
        assert(crate::parser::attributes(src, i, start, m.name, done)
            == crate::parser::attributes(src, a.end, start, m.name, next));
    }
}

// Elements.

proof fn lemma_start_tag(src: Seq<char>, i: int, m: MarkupView)
    requires
        is_name(m.name),
        crate::text::is_letter(m.name[0]),
        attrs_writable(m.attrs),
        holds(src, i, crate::writer::printed(m)),
    ensures
        crate::parser::start_tag(src, i) matches Ok(t) && {
            &&& t.open.name == m.name
            &&& t.open.start == i
            &&& attr_shapes(t.open.attrs) == m.attrs
            &&& t.self_closing == (m.children.len() == 0)
            &&& t.end == i + 1 + m.name.len() + crate::writer::attrs_from(m.attrs, 0).len() + (
            if m.children.len() == 0 {
                2int
            } else {
                1int
            })
        },
{
    let attrs = crate::writer::attrs_from(m.attrs, 0);
    let rest = attrs + tag_end(m);
    assert(crate::writer::printed(m) == seq!['<'] + (m.name + rest));
    lemma_split(src, i, seq!['<'], m.name + rest);
    lemma_at(src, i, seq!['<'], 0);
    lemma_split(src, i + 1, m.name, rest);
    lemma_at(src, i + 1, m.name, 0);
    // A name character is followed by a space, a slash or a bracket.
    let stop = i + 1 + m.name.len();
    lemma_at(src, stop, rest, 0);
    if m.attrs.len() > 0 {
        assert(attrs[0] == ' ');
        assert(rest[0] == ' ');
    } else {
        assert(rest =~= tag_end(m));
    }
    lemma_name(src, i + 1, m.name);
    assert(attr_shapes(Seq::empty()) =~= m.attrs.take(0));
    lemma_attributes(src, stop, i, m, 0, Seq::empty());
}

pub proof fn lemma_writable(m: MarkupView, levels: nat)
    ensures
        writable(m, levels) <==> {
            &&& levels > 0
            &&& is_name(m.name)
            &&& crate::text::is_letter(m.name[0])
            &&& attrs_writable(m.attrs)
            &&& children_writable(m.children, (levels - 1) as nat)
        },
{
    reveal(writable);
}

/// A written element starts with `<` and a letter.
proof fn lemma_opening(src: Seq<char>, i: int, m: MarkupView)
    requires
        is_name(m.name),
        crate::text::is_letter(m.name[0]),
        holds(src, i, crate::writer::printed(m)),
    ensures
        0 <= i,
        i + 1 < src.len(),
        src[i] == '<',
        crate::text::is_letter(src[i + 1]),
{
    let rest = crate::writer::attrs_from(m.attrs, 0) + tag_end(m);
    assert(crate::writer::printed(m) == seq!['<'] + (m.name + rest));
    lemma_split(src, i, seq!['<'], m.name + rest);
    lemma_at(src, i, seq!['<'], 0);
    lemma_split(src, i + 1, m.name, rest);
    lemma_at(src, i + 1, m.name, 0);
}

/// A written element parses to its tree.
pub proof fn lemma_node(src: Seq<char>, i: int, levels: nat, m: MarkupView)
    requires
        writable(m, levels),
        holds(src, i, crate::writer::printed(m)),
    ensures
        crate::parser::node(src, i, levels) matches Ok(n) && {
            &&& shape(n.node) == m
            &&& n.end == i + crate::writer::printed(m).len()
        },
    decreases m, 1int, 0int,
{
    lemma_writable(m, levels);
    lemma_start_tag(src, i, m);
    let t = crate::parser::start_tag(src, i)->Ok_0;
    let attrs = crate::writer::attrs_from(m.attrs, 0);
    assert(crate::writer::printed(m) == seq!['<'] + (m.name + (attrs + tag_end(m))));
    if m.children.len() == 0 {
        let n = crate::parser::closed_node(src, t.open, Seq::empty(), t.end);
        lemma_shape(n);
        assert(shape(n).children =~= m.children);
        assert(shape(n) == m);
    } else {
        let rest = crate::writer::children_from(m.children, 0) + crate::writer::closing_tag(
            m.name,
        );
        let head = seq!['<'] + m.name + attrs + seq!['>'];
        assert(crate::writer::printed(m) =~= head + rest);
        lemma_split(src, i, head, rest);
        assert(child_shapes(Seq::empty()) =~= m.children.take(0));
        lemma_content(src, t.end, (levels - 1) as nat, t.open, Seq::empty(), m, 0);
    }
}

/// The closing tag of an element whose children are all read.
proof fn lemma_closing(
    src: Seq<char>,
    i: int,
    levels: nat,
    open: Open,
    done: Seq<RawChildView>,
    m: MarkupView,
)
    requires
        is_name(m.name),
        open.name == m.name,
        attr_shapes(open.attrs) == m.attrs,
        child_shapes(done) == m.children,
        holds(src, i, crate::writer::closing_tag(m.name)),
    ensures
        crate::parser::content(src, i, levels, open, done) matches Ok(n) && {
            &&& shape(n.node) == m
            &&& n.end == i + crate::writer::closing_tag(m.name).len()
        },
{
    lemma_split(src, i, seq!['<', '/'], m.name + seq!['>']);
    lemma_split(src, i + 2, m.name, seq!['>']);
    lemma_at(src, i, seq!['<', '/'], 0);
    lemma_at(src, i, seq!['<', '/'], 1);
    let g = i + 2 + m.name.len();
    lemma_at(src, g, seq!['>'], 0);
    lemma_name(src, i + 2, m.name);
    assert(crate::parser::skip_space(src, g) == g);
    let n = crate::parser::closed_node(src, open, done, g + 1);
    lemma_shape(n);
    assert(shape(n) == m);
    assert(!crate::parser::at_comment(src, i));
    assert(crate::parser::at2(src, i, '<', '/'));
}

proof fn lemma_push_shape(
    done: Seq<RawChildView>,
    c: RawChildView,
    children: Seq<MarkupChildView>,
    k: int,
)
    requires
        0 <= k < children.len(),
        child_shapes(done) == children.take(k),
        child_shape(c) == children[k],
    ensures
        child_shapes(done.push(c)) == children.take(k + 1),
{
    let next = done.push(c);
    assert(done.len() == k) by {
        assert(child_shapes(done).len() == children.take(k).len());
    }
    assert(child_shapes(next) =~= children.take(k + 1)) by {
        assert forall|x: int| 0 <= x < k implies child_shapes(next)[x] == children.take(k + 1)[x] by {
            assert(child_shapes(done)[x] == children.take(k)[x]);
        }
    }
}

/// One text child, up to the `<` that follows it.
proof fn lemma_text(
    src: Seq<char>,
    i: int,
    levels: nat,
    open: Open,
    done: Seq<RawChildView>,
    t: Seq<char>,
)
    requires
        plain(t),
        holds(src, i, t),
        i + t.len() < src.len(),
        src[i + t.len()] == '<',
    ensures
        crate::parser::content(src, i, levels, open, done) == crate::parser::content(
            src,
            i + t.len(),
            levels,
            open,
            done.push(
                RawChildView::Text {
                    text: t,
                    span: crate::parser::span_of(src, i, i + t.len()),
                },
            ),
        ),
{
    let e = i + t.len();
    lemma_within(src, i, t);
    assert forall|j: int| i <= j < e implies #[trigger] src[j] != '<' && src[j] != '&' by {
        lemma_at(src, i, t, j - i);
        assert(t[j - i] != '<');
    }
    lemma_find_at(src, '<', i, e);
    lemma_decode_plain(src, i, e, Seq::empty());
    assert(Seq::<char>::empty() + src.subrange(i, e) =~= t);
    assert(src[i] != '<');
}

/// One child element.
proof fn lemma_child_node(
    src: Seq<char>,
    i: int,
    levels: nat,
    open: Open,
    done: Seq<RawChildView>,
    n: Node,
)
    requires
        0 <= i,
        i + 1 < src.len(),
        src[i] == '<',
        crate::text::is_letter(src[i + 1]),
        crate::parser::node(src, i, levels) == Ok::<Node, DiagnosticView>(n),
        i < n.end <= src.len(),
    ensures
        crate::parser::content(src, i, levels, open, done) == crate::parser::content(
            src,
            n.end,
            levels,
            open,
            done.push(RawChildView::Node(n.node)),
        ),
{
    assert(!crate::parser::at_comment(src, i));
    assert(!crate::parser::at2(src, i, '<', '/'));
}

/// The written children from `k` on: the first of them, and the rest.
proof fn lemma_children_split(
    src: Seq<char>,
    i: int,
    children: Seq<MarkupChildView>,
    k: int,
    close: Seq<char>,
)
    requires
        0 <= k < children.len(),
        holds(src, i, crate::writer::children_from(children, k) + close),
    ensures
        ({
            let first = match children[k] {
                MarkupChildView::Node(c) => crate::writer::printed(c),
                MarkupChildView::Text(t) => t,
            };
            let next = crate::writer::children_from(children, k + 1);
            &&& holds(src, i, first)
            &&& holds(src, i + first.len(), next + close)
            &&& crate::writer::children_from(children, k).len() == first.len() + next.len()
        }),
{
    let first = match children[k] {
        MarkupChildView::Node(c) => crate::writer::printed(c),
        MarkupChildView::Text(t) => t,
    };
    let next = crate::writer::children_from(children, k + 1);
    assert(crate::writer::children_from(children, k) == first + next);
    assert(crate::writer::children_from(children, k) + close =~= first + (next + close));
    lemma_split(src, i, first, next + close);
}

/// What is written after a text starts with `<`.
proof fn lemma_after_text(children: Seq<MarkupChildView>, k: int, name: Seq<char>)
    requires
        0 <= k <= children.len(),
        k < children.len() ==> children[k] is Node,
    ensures
        (crate::writer::children_from(children, k) + crate::writer::closing_tag(name)).len() > 0,
        (crate::writer::children_from(children, k) + crate::writer::closing_tag(name))[0] == '<',
{
    if k < children.len() {
        let c = children[k]->Node_0;
        let next = crate::writer::children_from(children, k + 1);
        assert(crate::writer::children_from(children, k) == crate::writer::printed(c) + next);
        assert(crate::writer::printed(c)[0] == '<');
    }
}

#[verifier::rlimit(60)]
proof fn lemma_content(
    src: Seq<char>,
    i: int,
    levels: nat,
    open: Open,
    done: Seq<RawChildView>,
    m: MarkupView,
    k: int,
)
    requires
        children_writable(m.children, levels),
        is_name(m.name),
        open.name == m.name,
        attr_shapes(open.attrs) == m.attrs,
        0 <= k <= m.children.len(),
        child_shapes(done) == m.children.take(k),
        holds(
            src,
            i,
            crate::writer::children_from(m.children, k) + crate::writer::closing_tag(m.name),
        ),
    ensures
        crate::parser::content(src, i, levels, open, done) matches Ok(n) && {
            &&& shape(n.node) == m
            &&& n.end == i + crate::writer::children_from(m.children, k).len()
                + crate::writer::closing_tag(m.name).len()
        },
    decreases m, 0int, m.children.len() - k,
{
    let close = crate::writer::closing_tag(m.name);
    if k == m.children.len() {
        assert(crate::writer::children_from(m.children, k) + close =~= close);
        assert(m.children.take(k) =~= m.children);
        lemma_closing(src, i, levels, open, done, m);
    } else {
        let next = crate::writer::children_from(m.children, k + 1);
        lemma_children_split(src, i, m.children, k, close);
        match m.children[k] {
            MarkupChildView::Node(c) => {
                let p = crate::writer::printed(c);
                assert(writable(c, levels));
                lemma_writable(c, levels);
                lemma_node(src, i, levels, c);
                lemma_opening(src, i, c);
                lemma_within(src, i, p);
                let n = crate::parser::node(src, i, levels)->Ok_0;
                let child = RawChildView::Node(n.node);
                lemma_child_shape(n.node);
                lemma_push_shape(done, child, m.children, k);
                lemma_child_node(src, i, levels, open, done, n);
                lemma_content(src, n.end, levels, open, done.push(child), m, k + 1);
            },
            MarkupChildView::Text(t) => {
                let e = i + t.len();
                lemma_after_text(m.children, k + 1, m.name);
                lemma_at(src, e, next + close, 0);
                lemma_text(src, i, levels, open, done, t);
                let child = RawChildView::Text {
                    text: t,
                    span: crate::parser::span_of(src, i, e),
                };
                lemma_push_shape(done, child, m.children, k);
                lemma_content(src, e, levels, open, done.push(child), m, k + 1);
            },
        }
    }
}

proof fn lemma_blank_tail(src: Seq<char>, i: int)
    requires
        0 <= i <= src.len(),
        forall|j: int| i <= j < src.len() ==> crate::text::is_space(#[trigger] src[j]),
    ensures
        crate::parser::skip_space(src, i) == src.len(),
    decreases src.len() - i,
{
    if i < src.len() {
        lemma_blank_tail(src, i + 1);
    }
}

/// Written markup, with nothing but whitespace after it, parses to the tree
/// that was written.
pub proof fn print_then_parse(m: MarkupView, tail: Seq<char>)
    requires
        writable(m, MAX_DEPTH as nat),
        forall|j: int| 0 <= j < tail.len() ==> crate::text::is_space(#[trigger] tail[j]),
    ensures
        crate::parser::document(crate::writer::printed(m) + tail) matches Ok(n) && shape(n) == m,
{
    let p = crate::writer::printed(m);
    let src = p + tail;
    assert(holds(src, 0, p)) by {
        reveal(holds);
        assert(src.subrange(0, p.len() as int) =~= p);
    }
    lemma_writable(m, MAX_DEPTH as nat);
    lemma_node(src, 0, MAX_DEPTH as nat, m);
    let n = crate::parser::node(src, 0, MAX_DEPTH as nat)->Ok_0;
    lemma_opening(src, 0, m);
    assert(crate::parser::skip_space(src, 0) == 0);
    assert(crate::parser::skip_misc(src, 0) == Ok::<int, DiagnosticView>(0));
    assert forall|j: int| n.end <= j < src.len() implies crate::text::is_space(
        #[trigger] src[j],
    ) by {
        assert(src[j] == tail[j - p.len()]);
    }
    lemma_blank_tail(src, n.end);
}

} // verus!
