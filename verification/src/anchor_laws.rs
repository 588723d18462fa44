//! How anchors read: the edges of a range, and where a cue ends and its offset
//! starts.

use vstd::prelude::*;

use crate::anchor::{
    AnchorRangeView, AnchorRefView, AnchorView, BindPathView, BindProp, Edge, Granularity,
    OffsetUnit, OffsetView,
};
use crate::number::NumberView;

verus! {

/// A range runs from the start edge of its first anchor to the end edge of
/// its last; the whole span of a lone cue ends at that cue's end.
pub proof fn range_edges(text: Seq<char>)
    ensures
        crate::anchor::anchor_range(text) matches Ok(r) ==> {
            let s = crate::text::trimmed(text);
            &&& r.end matches AnchorView::Cue { edge, .. } ==> edge == Edge::End
            &&& crate::text::contains_text(s, ".."@) ==> (r.start matches AnchorView::Cue {
                edge,
                ..
            } ==> edge == Edge::Start)
            &&& !crate::text::contains_text(s, ".."@) ==> crate::anchor::anchor(s) == Ok::<
                AnchorView,
                Seq<char>,
            >(r.start) && r.end == crate::anchor::at_edge(r.start, Edge::End)
        },
{
}

proof fn lemma_tail_extends(cue: Seq<char>, rest: Seq<char>, i: int)
    requires
        1 <= i <= cue.len(),
        crate::anchor::ident_tail(cue, i) == cue.len(),
        rest.len() > 0,
        !crate::anchor::ident_char(rest[0]),
        rest[0] == '-' ==> rest.len() < 2 || !(crate::text::is_letter(rest[1]) || rest[1] == '_'),
    ensures
        crate::anchor::ident_tail(cue + rest, i) == cue.len(),
    decreases cue.len() - i,
{
    let s = cue + rest;
    if i < cue.len() {
        assert(s[i] == cue[i]);
        if !crate::anchor::ident_char(cue[i]) {
            assert(i + 1 < cue.len());
            assert(s[i + 1] == cue[i + 1]);
        }
        lemma_tail_extends(cue, rest, i + 1);
    } else {
        assert(s[i] == rest[0]);
        if rest.len() > 1 {
            assert(s[i + 1] == rest[1]);
        }
    }
}

/// What can follow a cue's name: an edge, or a signed offset.
pub open spec fn follows_a_cue(rest: Seq<char>) -> bool {
    rest.len() > 0 && (rest[0] == '.' || rest[0] == '+' || (rest[0] == '-' && rest.len() > 1
        && crate::text::is_digit(rest[1])))
}

/// A cue's name ends where its edge or offset starts: an offset such as `-6f`
/// is never read as part of the name.
pub proof fn offset_ends_the_cue(cue: Seq<char>, rest: Seq<char>)
    requires
        crate::anchor::is_ident(cue),
        follows_a_cue(rest),
    ensures
        crate::anchor::ident_prefix(cue + rest) == cue.len(),
{
    let s = cue + rest;
    assert(s[0] == cue[0]);
    lemma_tail_extends(cue, rest, 1);
}

/// A cue with a signed offset is an anchor at the start of that cue, with
/// exactly that offset.
pub proof fn cue_with_offset(cue: Seq<char>, rest: Seq<char>)
    requires
        crate::anchor::is_ident(cue),
        follows_a_cue(rest),
        rest[0] != '.',
        !crate::text::is_space(rest.last()),
    ensures
        crate::anchor::anchor(cue + rest) == (match crate::anchor::anchor_offset(rest, cue) {
            Ok(offset) => Ok::<AnchorView, Seq<char>>(
                AnchorView::Cue { cue, edge: Edge::Start, offset },
            ),
            Err(e) => Err::<AnchorView, Seq<char>>(e),
        }),
{
    reveal_strlit(".start");
    reveal_strlit(".end");
    let s = cue + rest;
    offset_ends_the_cue(cue, rest);
    crate::anchor::ident_shape(cue);
    assert(s[0] == cue[0]);
    assert(s.last() == rest.last());
    assert(crate::text::trimmed(s) == s);
    assert(s.take(cue.len() as int) =~= cue);
    assert(s.skip(cue.len() as int) =~= rest);
    assert(!crate::text::stands_at(rest, ".start"@, 0)) by {
        if crate::text::stands_at(rest, ".start"@, 0) {
            assert(rest.subrange(0, ".start"@.len() as int)[0] == '.');
        }
    }
    assert(!crate::text::stands_at(rest, ".end"@, 0)) by {
        if crate::text::stands_at(rest, ".end"@, 0) {
            assert(rest.subrange(0, ".end"@.len() as int)[0] == '.');
        }
    }
}

// Reading back what is written.

proof fn lemma_trimmed(s: Seq<char>)
    requires
        s.len() > 0,
        !crate::text::is_space(s[0]),
        !crate::text::is_space(s.last()),
    ensures
        crate::text::trimmed(s) == s,
{
}

proof fn lemma_ident_ends(cue: Seq<char>)
    requires
        crate::anchor::is_ident(cue),
    ensures
        !crate::text::is_space(cue[0]),
        !crate::text::is_space(cue.last()),
        !crate::text::is_digit(cue[0]),
        forall|i: int| 0 <= i < cue.len() ==> #[trigger] cue[i] != '.',
{
    crate::anchor::ident_shape(cue);
}

/// How an edge is written after a cue.
pub open spec fn edge_text(edge: Option<Edge>) -> Seq<char> {
    match edge {
        None => Seq::empty(),
        Some(Edge::Start) => seq!['.', 's', 't', 'a', 'r', 't'],
        Some(Edge::End) => seq!['.', 'e', 'n', 'd'],
    }
}

pub open spec fn unit_char(unit: OffsetUnit) -> char {
    match unit {
        OffsetUnit::Seconds => 's',
        OffsetUnit::Frames => 'f',
        OffsetUnit::Words => 'w',
    }
}

/// A run of digits and points that is a number.
pub open spec fn writes(q: Seq<char>, n: NumberView) -> bool {
    &&& q.len() > 0
    &&& forall|i: int| 0 <= i < q.len() ==> crate::text::is_digit(#[trigger] q[i]) || q[i] == '.'
    &&& crate::number::number(q) == Some(n)
}

/// A number with a sign and a unit, or nothing.
pub open spec fn offset_text(sign: Option<char>, q: Seq<char>, unit: OffsetUnit) -> Seq<char> {
    match sign {
        Some(c) => seq![c] + q + seq![unit_char(unit)],
        None => Seq::empty(),
    }
}

proof fn lemma_run(q: Seq<char>, c: char, i: int)
    requires
        0 <= i <= q.len(),
        forall|k: int| 0 <= k < q.len() ==> crate::text::is_digit(#[trigger] q[k]) || q[k] == '.',
        !crate::text::is_digit(c),
        c != '.',
    ensures
        crate::anchor::decimal_run(q.push(c), i) == q.len(),
    decreases q.len() - i,
{
    if i < q.len() {
        assert(q.push(c)[i] == q[i]);
        lemma_run(q, c, i + 1);
    } else {
        assert(q.push(c)[i] == c);
    }
}

proof fn lemma_quantity(q: Seq<char>, n: NumberView, unit: OffsetUnit)
    requires
        writes(q, n),
    ensures
        crate::anchor::quantity(q.push(unit_char(unit))) == Some((n, unit)),
{
    let s = q.push(unit_char(unit));
    lemma_run(q, unit_char(unit), 0);
    assert(s.take(q.len() as int) =~= q);
}

proof fn lemma_tail_whole(cue: Seq<char>, rest: Seq<char>)
    requires
        crate::anchor::is_ident(cue),
        rest.len() == 0 || follows_a_cue(rest),
    ensures
        crate::anchor::ident_prefix(cue + rest) == cue.len(),
{
    if rest.len() == 0 {
        assert(cue + rest =~= cue);
    } else {
        offset_ends_the_cue(cue, rest);
    }
}

/// A cue, an edge of it or none, and a signed offset or none read back as
/// exactly these; without an edge the anchor stands at the start.
pub proof fn cues_read_back(
    cue: Seq<char>,
    edge: Option<Edge>,
    sign: Option<char>,
    q: Seq<char>,
    n: NumberView,
    unit: OffsetUnit,
)
    requires
        crate::anchor::is_ident(cue),
        sign matches Some(c) ==> (c == '+' || c == '-') && writes(q, n),
        sign matches Some(c) ==> crate::text::is_digit(q[0]),
    ensures
        crate::anchor::anchor(cue + edge_text(edge) + offset_text(sign, q, unit)) == Ok::<
            AnchorView,
            Seq<char>,
        >(
            AnchorView::Cue {
                cue,
                edge: match edge {
                    Some(e) => e,
                    None => Edge::Start,
                },
                offset: match sign {
                    Some(c) => Some(OffsetView { value: n.with_sign(c == '-'), unit }),
                    None => None,
                },
            },
        ),
{
    reveal_strlit(".start");
    reveal_strlit(".end");
    let e = edge_text(edge);
    let o = offset_text(sign, q, unit);
    let rest = e + o;
    let s = cue + e + o;
    assert(s =~= cue + rest);
    lemma_ident_ends(cue);
    if o.len() > 0 {
        assert(o[0] == '+' || o[0] == '-');
        assert(o[1] == q[0]);
        lemma_quantity(q, n, unit);
        assert(o.drop_first() =~= q.push(unit_char(unit)));
        assert(o.last() == unit_char(unit));
    }
    if e.len() > 0 {
        assert(rest[0] == '.');
    } else {
        assert(rest =~= o);
    }
    lemma_tail_whole(cue, rest);
    assert(s[0] == cue[0]);
    if rest.len() > 0 {
        assert(s.last() == rest.last());
        if o.len() > 0 {
            assert(rest.last() == o.last());
        } else {
            assert(rest.last() == e.last());
        }
    } else {
        assert(s =~= cue);
    }
    lemma_trimmed(s);
    assert(s.take(cue.len() as int) =~= cue);
    assert(s.skip(cue.len() as int) =~= rest);
    assert(".start"@ =~= edge_text(Some(Edge::Start)));
    assert(".end"@ =~= edge_text(Some(Edge::End)));
    match edge {
        Some(Edge::Start) => {
            assert(rest.subrange(0, 6) =~= e);
            assert(rest.skip(6) =~= o);
        },
        Some(Edge::End) => {
            assert(rest.subrange(0, 4) =~= e);
            assert(rest.skip(4) =~= o);
            if crate::text::stands_at(rest, ".start"@, 0) {
                assert(rest.subrange(0, 6)[1] == 's');
                assert(rest[1] == e[1]);
            }
        },
        None => {
            if crate::text::stands_at(rest, ".start"@, 0) {
                assert(rest.subrange(0, 6)[0] == '.');
            }
            if crate::text::stands_at(rest, ".end"@, 0) {
                assert(rest.subrange(0, 4)[0] == '.');
            }
        },
    }
}

/// A number of seconds or frames reads back as a literal position.
pub proof fn literals_read_back(q: Seq<char>, n: NumberView, unit: OffsetUnit)
    requires
        writes(q, n),
        crate::text::is_digit(q[0]),
        unit != OffsetUnit::Words,
    ensures
        crate::anchor::anchor(q.push(unit_char(unit))) == Ok::<AnchorView, Seq<char>>(
            AnchorView::Literal { value: n, unit },
        ),
{
    let s = q.push(unit_char(unit));
    lemma_quantity(q, n, unit);
    assert(s[0] == q[0]);
    lemma_trimmed(s);
}

/// A text that can stand on one side of a range: no whitespace around it, and
/// no point that another one follows.
pub open spec fn is_side(s: Seq<char>) -> bool {
    &&& s.len() > 0
    &&& !crate::text::is_space(s[0])
    &&& !crate::text::is_space(s.last())
    &&& forall|i: int| 0 <= i < s.len() && #[trigger] s[i] == '.' ==> i + 1 < s.len() && s[i + 1] != '.'
}

/// `out` is the anchor `a`, at an edge where it is a cue.
pub open spec fn is_at(out: AnchorView, a: AnchorView, edge: Edge) -> bool {
    match a {
        AnchorView::Cue { cue, offset, .. } => out == (AnchorView::Cue { cue, edge, offset }),
        AnchorView::Literal { value, unit } => out == (AnchorView::Literal { value, unit }),
    }
}

proof fn lemma_first_dots(a: Seq<char>, b: Seq<char>, i: int)
    requires
        is_side(a),
        0 <= i <= a.len(),
    ensures
        crate::text::find_text(a + seq!['.', '.'] + b, seq!['.', '.'], i) == Some(a.len() as int),
    decreases a.len() - i,
{
    let dots = seq!['.', '.'];
    let s = a + dots + b;
    if i == a.len() {
        assert(s.subrange(i, i + 2) =~= dots);
    } else {
        lemma_first_dots(a, b, i + 1);
        if crate::text::stands_at(s, dots, i) {
            assert(s.subrange(i, i + 2)[0] == s[i]);
            assert(s.subrange(i, i + 2)[1] == s[i + 1]);
            assert(s[i] == a[i]);
            assert(i + 1 < a.len() && a[i + 1] != '.');
            assert(s[i + 1] == a[i + 1]);
        }
    }
}

/// `a..b` runs from the start of `a` to the end of `b`.
pub proof fn ranges_read_back(a: Seq<char>, b: Seq<char>, start: AnchorView, end: AnchorView)
    requires
        is_side(a),
        is_side(b),
        crate::anchor::anchor(a) == Ok::<AnchorView, Seq<char>>(start),
        crate::anchor::anchor(b) == Ok::<AnchorView, Seq<char>>(end),
    ensures
        crate::anchor::anchor_range(a + seq!['.', '.'] + b) matches Ok(r) && is_at(
            r.start,
            start,
            Edge::Start,
        ) && is_at(r.end, end, Edge::End),
{
    reveal_strlit("..");
    let dots = seq!['.', '.'];
    let s = a + dots + b;
    assert(".."@ =~= dots);
    assert(s[0] == a[0]);
    assert(s.last() == b.last());
    lemma_trimmed(s);
    lemma_first_dots(a, b, 0);
    assert(s.take(a.len() as int) =~= a);
    assert(s.skip((a.len() + 2) as int) =~= b);
}

/// A lone anchor is a range from where it stands to the end of its cue.
pub proof fn lone_anchors_read_back(a: Seq<char>, at: AnchorView)
    requires
        is_side(a),
        crate::anchor::anchor(a) == Ok::<AnchorView, Seq<char>>(at),
    ensures
        crate::anchor::anchor_range(a) matches Ok(r) && r.start == at && is_at(
            r.end,
            at,
            Edge::End,
        ),
{
    reveal_strlit("..");
    lemma_trimmed(a);
    crate::text::lemma_find_text(a, ".."@, 0);
    match crate::text::find_text(a, ".."@, 0) {
        Some(i) => {
            assert(a.subrange(i, i + 2)[0] == '.' && a.subrange(i, i + 2)[1] == '.');
            assert(a[i] == '.' && a[i + 1] == '.');
        },
        None => {},
    }
}

/// `a..b` between two cues runs from the start of the first to the end of the
/// second.
pub proof fn cue_ranges_run_forward(a: Seq<char>, b: Seq<char>)
    requires
        crate::anchor::is_ident(a),
        crate::anchor::is_ident(b),
    ensures
        crate::anchor::anchor_range(a + seq!['.', '.'] + b) == Ok::<AnchorRangeView, Seq<char>>(
            AnchorRangeView {
                start: AnchorView::Cue { cue: a, edge: Edge::Start, offset: None },
                end: AnchorView::Cue { cue: b, edge: Edge::End, offset: None },
            },
        ),
{
    let n = NumberView::Nan;
    cues_read_back(a, None, None, Seq::empty(), n, OffsetUnit::Seconds);
    cues_read_back(b, None, None, Seq::empty(), n, OffsetUnit::Seconds);
    assert(a + edge_text(None) + offset_text(None, Seq::empty(), OffsetUnit::Seconds) =~= a);
    assert(b + edge_text(None) + offset_text(None, Seq::empty(), OffsetUnit::Seconds) =~= b);
    lemma_ident_ends(a);
    lemma_ident_ends(b);
    ranges_read_back(
        a,
        b,
        AnchorView::Cue { cue: a, edge: Edge::Start, offset: None },
        AnchorView::Cue { cue: b, edge: Edge::Start, offset: None },
    );
}

/// A timing source reads back, by line or by word.
pub proof fn sources_read_back(name: Seq<char>)
    requires
        crate::anchor::is_ident(name),
    ensures
        crate::anchor::anchor_ref(name) == Ok::<AnchorRefView, Seq<char>>(
            AnchorRefView { source: name, granularity: Granularity::Line },
        ),
        crate::anchor::anchor_ref(name + seq!['.', 'w', 'o', 'r', 'd', 's']) == Ok::<
            AnchorRefView,
            Seq<char>,
        >(AnchorRefView { source: name, granularity: Granularity::Word }),
{
    reveal_strlit(".words");
    let words = seq!['.', 'w', 'o', 'r', 'd', 's'];
    assert(".words"@ =~= words);
    lemma_ident_ends(name);
    lemma_trimmed(name);
    if crate::text::ends_in(name, ".words"@) {
        let i = name.len() - 6;
        assert(name.subrange(i, i + 6)[0] == '.');
        assert(name[i] == '.');
    }
    let s = name + words;
    assert(s[0] == name[0]);
    assert(s.last() == 's');
    lemma_trimmed(s);
    assert(s.subrange(s.len() - 6, s.len() as int) =~= words);
    assert(s.take(s.len() - 6) =~= name);
}

/// The text of a line reads back as a binding to it.
pub proof fn bindings_read_back(line: Seq<char>)
    requires
        crate::anchor::is_ident(line),
    ensures
        crate::anchor::bind_path(line + seq!['.', 't', 'e', 'x', 't']) == Ok::<
            BindPathView,
            Seq<char>,
        >(BindPathView { line, property: BindProp::Text }),
{
    reveal_strlit("text");
    let s = line + seq!['.', 't', 'e', 'x', 't'];
    lemma_ident_ends(line);
    assert(s[0] == line[0]);
    assert(s.last() == 't');
    lemma_trimmed(s);
    crate::text::lemma_find_from(s, '.', 0);
    let dot = crate::text::find_from(s, '.', 0);
    assert(s[line.len() as int] == '.');
    assert(dot <= line.len());
    if dot < line.len() {
        assert(s[dot] == line[dot]);
    }
    assert(s.take(dot) =~= line);
    assert(s.skip(dot + 1) =~= "text"@);
}

} // verus!
