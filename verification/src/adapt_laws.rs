//! Every draft compiles: what adaptation writes is accepted by the parser and
//! by lowering, whatever the source and whatever was learned about it.

use vstd::prelude::*;

use crate::adapt::Analysis;
use crate::anchor::OffsetUnit;
use crate::diagnostic::DiagnosticView;
use crate::lower::LowerView;
use crate::parser::MAX_DEPTH;
use crate::raw::{RawAttrView, RawChildView, RawNodeView};
use crate::scene::{Canvas, ElementView, TrackView};
use crate::span::Span;
use crate::writer::{MarkupChildView, MarkupView};

verus! {

// Numerals.

proof fn lemma_unsigned(n: nat, max: nat)
    requires
        n <= max,
    ensures
        crate::text::unsigned(crate::text::dec(n), max) == Some(n),
{
    crate::text::lemma_dec(n);
    assert(crate::text::is_digit(crate::text::dec(n)[0]));
}

/// Where a character first stands that does not occur before `i`.
proof fn lemma_find(s: Seq<char>, c: char, from: int, i: int)
    requires
        0 <= from <= i < s.len(),
        s[i] == c,
        forall|k: int| from <= k < i ==> s[k] != c,
    ensures
        crate::text::find_from(s, c, from) == i,
    decreases i - from,
{
    if from < i {
        lemma_find(s, c, from + 1, i);
    }
}

proof fn lemma_find_none(s: Seq<char>, c: char, from: int)
    requires
        0 <= from <= s.len(),
        forall|k: int| from <= k < s.len() ==> s[k] != c,
    ensures
        crate::text::find_from(s, c, from) == s.len(),
    decreases s.len() - from,
{
    if from < s.len() {
        lemma_find_none(s, c, from + 1);
    }
}

proof fn lemma_canvas(w: nat, h: nat)
    requires
        0 < w <= u32::MAX,
        0 < h <= u32::MAX,
    ensures
        crate::scene::canvas(crate::text::dec(w) + "x"@ + crate::text::dec(h)) == Ok::<
            Canvas,
            Seq<char>,
        >(Canvas { width: w as u32, height: h as u32 }),
{
    reveal_strlit("x");
    crate::text::lemma_dec(w);
    let a = crate::text::dec(w);
    let b = crate::text::dec(h);
    let s = a + "x"@ + b;
    assert forall|k: int| 0 <= k < a.len() implies s[k] != 'x' by {
        assert(crate::text::is_digit(a[k]));
    }
    lemma_find(s, 'x', 0, a.len() as int);
    assert(s.take(a.len() as int) =~= a);
    assert(s.skip(a.len() as int + 1) =~= b);
    lemma_unsigned(w, u32::MAX as nat);
    lemma_unsigned(h, u32::MAX as nat);
}

proof fn lemma_rate(fps: Option<(u32, u32)>)
    ensures
        crate::scene::rational(crate::adapt::rate_text(fps)) is Ok,
{
    reveal_strlit("/");
    reveal_strlit("30");
    let s = crate::adapt::rate_text(fps);
    if s == "30"@ {
        lemma_find_none(s, '/', 0);
        lemma_find_none(s, '.', 0);
        assert(s.drop_last().drop_last() =~= Seq::<char>::empty());
        reveal_with_fuel(crate::text::dec_value, 3);
        assert(crate::text::unsigned(s, u32::MAX as nat) == Some(30nat));
    } else {
        let (n, d) = fps->0;
        let a = crate::text::dec(n as nat);
        let b = crate::text::dec(d as nat);
        crate::text::lemma_dec(n as nat);
        assert forall|k: int| 0 <= k < a.len() implies s[k] != '/' by {
            assert(crate::text::is_digit(a[k]));
        }
        lemma_find(s, '/', 0, a.len() as int);
        assert(s.take(a.len() as int) =~= a);
        assert(s.skip(a.len() as int + 1) =~= b);
        lemma_unsigned(n as nat, u32::MAX as nat);
        lemma_unsigned(d as nat, u32::MAX as nat);
    }
}

proof fn lemma_black()
    ensures
        crate::scene::color("#000"@) is Ok,
{
    reveal_strlit("#000");
}

// Times.

proof fn lemma_trimmed(s: Seq<char>)
    requires
        s.len() > 0,
        !crate::text::is_space(s[0]),
        !crate::text::is_space(s.last()),
    ensures
        crate::text::trimmed(s) == s,
{
}

proof fn lemma_decimal_run(s: Seq<char>, i: int, n: int)
    requires
        0 <= i <= n < s.len(),
        forall|k: int| i <= k < n ==> crate::text::is_digit(#[trigger] s[k]) || s[k] == '.',
        !crate::text::is_digit(s[n]),
        s[n] != '.',
    ensures
        crate::anchor::decimal_run(s, i) == n,
    decreases n - i,
{
    if i < n {
        lemma_decimal_run(s, i + 1, n);
    }
}

proof fn lemma_digits_end(s: Seq<char>, i: int, n: int)
    requires
        0 <= i <= n <= s.len(),
        forall|k: int| i <= k < n ==> crate::text::is_digit(#[trigger] s[k]),
        n == s.len() || !crate::text::is_digit(s[n]),
    ensures
        crate::number::digits_end(s, i) == n,
    decreases n - i,
{
    if i < n {
        lemma_digits_end(s, i + 1, n);
    }
}

/// A digit at the front, a single point, digits around it, an `s` at the end.
spec fn is_time(s: Seq<char>, point: int) -> bool {
    &&& 0 < point < s.len() - 1
    &&& s.last() == 's'
    &&& s[point] == '.'
    &&& forall|k: int| 0 <= k < s.len() - 1 && k != point ==> crate::text::is_digit(#[trigger] s[k])
}

proof fn lemma_seconds(us: u64) -> (point: int)
    ensures
        is_time(crate::adapt::seconds(us), point),
        point + 2 < crate::adapt::seconds(us).len(),
{
    reveal_strlit(".");
    reveal_strlit("s");
    let ms = crate::adapt::millis(us);
    let whole = crate::text::dec(ms / 1000);
    let part = (ms % 1000) as nat;
    crate::text::lemma_dec(ms / 1000);
    crate::text::lemma_digit(part / 100 % 10);
    crate::text::lemma_digit(part / 10 % 10);
    crate::text::lemma_digit(part % 10);
    let s = crate::adapt::seconds(us);
    assert forall|k: int| 0 <= k < s.len() - 1 && k != whole.len() implies crate::text::is_digit(
        #[trigger] s[k],
    ) by {
        if k < whole.len() {
            assert(s[k] == whole[k]);
        } else {
            assert(s[k] == crate::adapt::three_digits(part)[k - whole.len() - 1]);
        }
    }
    whole.len() as int
}

/// A time is a literal anchor in seconds.
proof fn lemma_time_anchor(s: Seq<char>, point: int)
    requires
        is_time(s, point),
    ensures
        crate::anchor::anchor(s) matches Ok(a) && a is Literal,
{
    assert(crate::text::is_digit(s[0]));
    lemma_trimmed(s);
    let n = s.len() - 1;
    lemma_decimal_run(s, 0, n);
    let body = s.take(n);
    lemma_digits_end(body, 0, point);
    lemma_digits_end(body, point + 1, n);
    assert((body.subrange(0, point) + body.subrange(point + 1, n)).len() > 0);
    assert(crate::number::number(body) is Some);
    assert(crate::anchor::quantity(s) matches Some((_, u)) && u == OffsetUnit::Seconds);
}

proof fn lemma_zero_anchor()
    ensures
        crate::anchor::anchor("0s"@) matches Ok(a) && a is Literal,
{
    reveal_strlit("0s");
    let s = "0s"@;
    lemma_trimmed(s);
    lemma_decimal_run(s, 0, 1);
    let body = s.take(1);
    lemma_digits_end(body, 0, 1);
    assert((body.subrange(0, 1) + body.subrange(1, 1)).len() > 0);
    assert(crate::number::number(body) is Some);
    assert(crate::anchor::quantity(s) matches Some((_, u)) && u == OffsetUnit::Seconds);
}

/// A range between two literal positions.
pub open spec fn is_literal_range(s: Seq<char>) -> bool {
    crate::anchor::anchor_range(s) matches Ok(r) && r.start is Literal && r.end is Literal
}

proof fn lemma_find_text(s: Seq<char>, pat: Seq<char>, from: int, i: int)
    requires
        0 <= from <= i,
        crate::text::stands_at(s, pat, i),
        forall|j: int| from <= j < i ==> !#[trigger] crate::text::stands_at(s, pat, j),
    ensures
        crate::text::find_text(s, pat, from) == Some(i),
    decreases i - from,
{
    if from < i {
        lemma_find_text(s, pat, from + 1, i);
    }
}

proof fn lemma_range(a: Seq<char>, b: Seq<char>)
    requires
        a.len() > 0,
        a.last() != '.',
        !crate::text::is_space(a[0]),
        forall|k: int| 0 <= k < a.len() - 1 && a[k] == '.' ==> #[trigger] a[k + 1] != '.',
        b.len() > 0,
        !crate::text::is_space(b.last()),
        crate::anchor::anchor(a) matches Ok(x) && x is Literal,
        crate::anchor::anchor(b) matches Ok(x) && x is Literal,
    ensures
        is_literal_range(a + ".."@ + b),
{
    reveal_strlit("..");
    let s = a + ".."@ + b;
    lemma_trimmed(s);
    let n = a.len() as int;
    assert(s.subrange(n, n + 2) =~= ".."@);
    assert forall|j: int| 0 <= j < n implies !#[trigger] crate::text::stands_at(s, ".."@, j) by {
        if crate::text::stands_at(s, ".."@, j) {
            assert(s.subrange(j, j + 2)[0] == '.');
            assert(s.subrange(j, j + 2)[1] == '.');
            assert(a[j] == '.');
            if j + 1 < n {
                assert(a[j + 1] != '.');
            }
        }
    }
    lemma_find_text(s, ".."@, 0, n);
    assert(s.take(n) =~= a);
    assert(s.skip(n + ".."@.len()) =~= b);
}

proof fn lemma_times(a: u64, b: u64)
    ensures
        is_literal_range(crate::adapt::seconds(a) + ".."@ + crate::adapt::seconds(b)),
{
    let s = crate::adapt::seconds(a);
    let t = crate::adapt::seconds(b);
    let p = lemma_seconds(a);
    let q = lemma_seconds(b);
    lemma_time_anchor(s, p);
    lemma_time_anchor(t, q);
    assert(crate::text::is_digit(s[0]));
    assert forall|k: int| 0 <= k < s.len() - 1 && s[k] == '.' implies #[trigger] s[k + 1]
        != '.' by {
        if k != p {
            assert(crate::text::is_digit(s[k]));
        }
    }
    lemma_range(s, t);
}

proof fn lemma_whole(b: u64)
    ensures
        is_literal_range("0s.."@ + crate::adapt::seconds(b)),
{
    reveal_strlit("0s");
    reveal_strlit("..");
    reveal_strlit("0s..");
    let t = crate::adapt::seconds(b);
    let q = lemma_seconds(b);
    lemma_time_anchor(t, q);
    lemma_zero_anchor();
    lemma_range("0s"@, t);
    assert("0s"@ + ".."@ + t =~= "0s.."@ + t);
}

// Lowering steps that find no error.

/// As free of errors as before, with the same tables.
spec fn same(a: LowerView, b: LowerView) -> bool {
    &&& crate::lower_laws::clean(a) ==> crate::lower_laws::clean(b)
    &&& b.cues == a.cues
    &&& b.tracks == a.tracks
    &&& b.script_track == a.script_track
    &&& b.script_span == a.script_span
}

proof fn lemma_warning(st: LowerView, span: Span, message: Seq<char>)
    ensures
        same(st, crate::lower::with_warning(st, span, message)),
{
    crate::lower_laws::lemma_push(
        st,
        crate::diagnostic::warning_view(message, Some(span)),
    );
}

proof fn lemma_unknown(st: LowerView, node: RawNodeView, allowed: Seq<Seq<char>>, n: int)
    ensures
        same(st, crate::lower::unknown_attrs(st, node, allowed, n)),
    decreases n,
{
    if 0 < n <= node.attrs.len() {
        lemma_unknown(st, node, allowed, n - 1);
        let before = crate::lower::unknown_attrs(st, node, allowed, n - 1);
        let a = node.attrs[n - 1];
        lemma_warning(
            before,
            a.name_span,
            "unknown attribute `"@ + a.name + "` on <"@ + node.name + ">"@,
        );
    }
}

proof fn lemma_allowed(st: LowerView, node: RawNodeView, allowed: Seq<Seq<char>>)
    ensures
        same(st, crate::lower::checked_attrs(st, node, allowed)),
{
    lemma_unknown(st, node, allowed, node.attrs.len() as int);
}

proof fn lemma_source(st: LowerView, node: RawNodeView)
    requires
        node.attr("src"@) is Some,
    ensures
        same(st, crate::lower::source(st, node).0),
        crate::lower::source(st, node).1 is Some,
{
    let a = node.attr("src"@)->0;
    lemma_warning(
        st,
        a.value_span,
        "src path contains `..` — it may escape the project root"@,
    );
}

/// The attribute at `k` is the one of its name.
proof fn lemma_attr(attrs: Seq<RawAttrView>, name: Seq<char>, from: int, k: int)
    requires
        0 <= from <= k < attrs.len(),
        attrs[k].name == name,
        forall|j: int| from <= j < k ==> (#[trigger] attrs[j]).name != name,
    ensures
        crate::raw::find_attr_from(attrs, name, from) == Some(attrs[k]),
    decreases k - from,
{
    if from < k {
        lemma_attr(attrs, name, from + 1, k);
    }
}

proof fn lemma_no_attr(attrs: Seq<RawAttrView>, name: Seq<char>, from: int)
    requires
        0 <= from,
        forall|j: int| from <= j < attrs.len() ==> (#[trigger] attrs[j]).name != name,
    ensures
        crate::raw::find_attr_from(attrs, name, from) is None,
    decreases attrs.len() - from,
{
    if from < attrs.len() {
        lemma_no_attr(attrs, name, from + 1);
    }
}

/// Text children are blank.
spec fn blank_text(children: Seq<RawChildView>) -> bool {
    forall|i: int|
        0 <= i < children.len() ==> match #[trigger] children[i] {
            RawChildView::Text { text, .. } => crate::text::trimmed(text).len() == 0,
            RawChildView::Node(_) => true,
        }
}

proof fn lemma_blank_text(children: Seq<RawChildView>, n: int)
    requires
        blank_text(children),
    ensures
        crate::raw::text_of(children, n) is None,
    decreases n,
{
    if 0 < n <= children.len() {
        lemma_blank_text(children, n - 1);
    }
}

proof fn lemma_blank(s: Seq<char>)
    requires
        forall|i: int| 0 <= i < s.len() ==> crate::text::is_space(#[trigger] s[i]),
    ensures
        crate::text::trimmed(s).len() == 0,
    decreases s.len(),
{
    if s.len() > 0 {
        assert(crate::text::is_space(s[0]));
        lemma_blank(s.drop_first());
    }
}

/// The words of a draft are told apart.
proof fn lemma_words()
    ensures
        "src"@ != "during"@,
        "src"@ != "from"@,
        "src"@ != "gain"@,
        "src"@ != "duck"@,
        "src"@ != "at"@,
        "src"@ != "anim"@,
        "during"@ != "from"@,
        "during"@ != "gain"@,
        "during"@ != "duck"@,
        "during"@ != "at"@,
        "during"@ != "anim"@,
        "at"@ != "anim"@,
        "kind"@ != "id"@,
        "kind"@ != "anchor"@,
        "image"@ != "clip"@,
        "text"@ != "clip"@,
        "text"@ != "image"@,
        "board"@ != "clip"@,
        "board"@ != "image"@,
        "board"@ != "text"@,
        "music"@ != "clip"@,
        "music"@ != "image"@,
        "music"@ != "text"@,
        "music"@ != "board"@,
        "music"@ != "captions"@,
        "track"@ != "script"@,
        "render"@ != "script"@,
        "render"@ != "track"@,
        "canvas"@ != "fps"@,
        "canvas"@ != "clear"@,
        "fps"@ != "clear"@,
        "bottom"@ != "center"@,
        "bottom"@ != "top"@,
{
    reveal_strlit("src");
    reveal_strlit("during");
    reveal_strlit("from");
    reveal_strlit("gain");
    reveal_strlit("duck");
    reveal_strlit("at");
    reveal_strlit("anim");
    reveal_strlit("kind");
    reveal_strlit("id");
    reveal_strlit("anchor");
    reveal_strlit("image");
    reveal_strlit("clip");
    reveal_strlit("text");
    reveal_strlit("board");
    reveal_strlit("music");
    reveal_strlit("captions");
    reveal_strlit("track");
    reveal_strlit("script");
    reveal_strlit("render");
    reveal_strlit("canvas");
    reveal_strlit("fps");
    reveal_strlit("clear");
    reveal_strlit("bottom");
    reveal_strlit("center");
    reveal_strlit("top");
    assert("text"@[0] != "clip"@[0]);
    assert("board"@[0] != "image"@[0]);
    assert("music"@[0] != "image"@[0]);
    assert("music"@[0] != "board"@[0]);
    assert("render"@[0] != "script"@[0]);
    assert("bottom"@[0] != "center"@[0]);
    assert("src"@.len() != "during"@.len());
    assert("src"@.len() != "from"@.len());
    assert("src"@.len() != "gain"@.len());
    assert("src"@.len() != "duck"@.len());
    assert("src"@.len() != "at"@.len());
    assert("src"@.len() != "anim"@.len());
    assert("during"@.len() != "from"@.len());
    assert("during"@.len() != "gain"@.len());
    assert("during"@.len() != "duck"@.len());
    assert("during"@.len() != "at"@.len());
    assert("during"@.len() != "anim"@.len());
    assert("at"@.len() != "anim"@.len());
    assert("kind"@.len() != "id"@.len());
    assert("kind"@.len() != "anchor"@.len());
    assert("image"@.len() != "clip"@.len());
    assert("text"@.len() != "image"@.len());
    assert("board"@.len() != "clip"@.len());
    assert("board"@.len() != "text"@.len());
    assert("music"@.len() != "clip"@.len());
    assert("music"@.len() != "text"@.len());
    assert("music"@.len() != "captions"@.len());
    assert("track"@.len() != "script"@.len());
    assert("render"@.len() != "track"@.len());
    assert("canvas"@.len() != "fps"@.len());
    assert("canvas"@.len() != "clear"@.len());
    assert("fps"@.len() != "clear"@.len());
    assert("bottom"@.len() != "top"@.len());
}

// Elements whose references all hold.

/// Checking the references of an element finds nothing.
spec fn quiet(e: ElementView) -> bool {
    forall|st: LowerView| #[trigger] crate::lower::tree_check(st, e) == st
}

spec fn all_quiet(s: Seq<ElementView>) -> bool {
    forall|i: int| 0 <= i < s.len() ==> quiet(#[trigger] s[i])
}

proof fn lemma_all_quiet(st: LowerView, s: Seq<ElementView>, n: int)
    requires
        all_quiet(s),
    ensures
        crate::lower::list_check(st, s, n) == st,
    decreases n,
{
    if 0 < n <= s.len() {
        assert(quiet(s[n - 1]));
        assert(crate::lower::tree_check(st, s[n - 1]) == st);
        lemma_all_quiet(st, s, n - 1);
    }
}

proof fn lemma_quiet(e: ElementView)
    requires
        e.timing matches Some(t) ==> t.start is Literal && t.end is Literal,
        e.kind is Clip || e.kind is Board || (e.kind matches crate::scene::ElementKindView::Music {
            duck,
            ..
        } && duck is None) || (e.kind matches crate::scene::ElementKindView::Text { content }
            && content is Literal),
        all_quiet(e.children),
    ensures
        quiet(e),
{
    assert forall|st: LowerView| #[trigger] crate::lower::tree_check(st, e) == st by {
        assert(crate::lower::element_check(st, e) == st);
        lemma_all_quiet(st, e.children, e.children.len() as int);
    }
}

/// An element of a draft is lowered without an error, and its references hold.
spec fn fine(st: LowerView, node: RawNodeView) -> bool {
    let (st1, e) = crate::lower::element(st, node);
    same(st, st1) && (e matches Some(v) && quiet(v))
}

/// `<clip>` or `<music>` over a literal range.
spec fn is_source_element(m: MarkupView) -> bool {
    &&& m.name == "clip"@ || m.name == "music"@
    &&& m.attrs.len() == 2
    &&& m.attrs[0].0 == "src"@
    &&& m.attrs[1].0 == "during"@
    &&& is_literal_range(m.attrs[1].1)
    &&& m.children.len() == 0
}

spec fn is_caption(m: MarkupView) -> bool {
    &&& m.name == "text"@
    &&& m.attrs.len() == 0
    &&& m.children.len() == 1
    &&& m.children[0] matches MarkupChildView::Text(t) && crate::text::trimmed(t).len() > 0
}

spec fn is_blank(c: MarkupChildView) -> bool {
    c matches MarkupChildView::Text(t) && crate::text::trimmed(t).len() == 0
}

spec fn is_board(m: MarkupView) -> bool {
    &&& m.name == "board"@
    &&& m.attrs.len() == 3
    &&& m.attrs[0].0 == "during"@
    &&& is_literal_range(m.attrs[0].1)
    &&& m.attrs[1] == ("at"@, "bottom"@)
    &&& m.attrs[2] == ("anim"@, "rise"@)
    &&& m.children.len() == 3
    &&& is_blank(m.children[0])
    &&& m.children[1] matches MarkupChildView::Node(c) && is_caption(c)
    &&& is_blank(m.children[2])
}

proof fn lemma_source_element(st: LowerView, node: RawNodeView)
    requires
        is_source_element(crate::writer_laws::shape(node)),
    ensures
        fine(st, node),
{
    lemma_words();
    crate::writer_laws::lemma_shape(node);
    let shapes = crate::writer_laws::attr_shapes(node.attrs);
    assert(shapes[0] == (node.attrs[0].name, node.attrs[0].value));
    assert(shapes[1] == (node.attrs[1].name, node.attrs[1].value));
    lemma_attr(node.attrs, "src"@, 0, 0);
    lemma_attr(node.attrs, "during"@, 0, 1);
    lemma_no_attr(node.attrs, "from"@, 0);
    lemma_no_attr(node.attrs, "gain"@, 0);
    lemma_no_attr(node.attrs, "duck"@, 0);
    lemma_no_attr(node.attrs, "at"@, 0);
    lemma_no_attr(node.attrs, "anim"@, 0);
    let clip_attrs = seq!["src"@, "from"@] + crate::lower::common_attrs();
    let audio_attrs = seq!["src"@, "gain"@, "duck"@, "from"@] + crate::lower::common_attrs();
    lemma_allowed(st, node, clip_attrs);
    lemma_allowed(st, node, audio_attrs);
    lemma_source(crate::lower::checked_attrs(st, node, clip_attrs), node);
    lemma_source(crate::lower::checked_attrs(st, node, audio_attrs), node);
    let (st1, kind) = crate::lower::element_kind(st, node);
    assert(same(st, st1));
    assert(kind is Some);
    let c = crate::lower::common(st1, node);
    assert(c.st == st1);
    assert(crate::lower::elements(c.st, node.children, 0) == (c.st, Seq::<ElementView>::empty()));
    assert(crate::raw::text_of(node.children, 0) is None);
    let (_, e) = crate::lower::element(st, node);
    lemma_quiet(e->0);
}

proof fn lemma_caption(st: LowerView, node: RawNodeView)
    requires
        is_caption(crate::writer_laws::shape(node)),
    ensures
        fine(st, node),
{
    lemma_words();
    crate::writer_laws::lemma_shape(node);
    let child = node.children[0];
    assert(crate::writer_laws::child_shapes(node.children)[0]
        == crate::writer_laws::child_shape(child));
    let allowed = seq!["bind"@] + crate::lower::common_attrs();
    lemma_allowed(st, node, allowed);
    lemma_no_attr(node.attrs, "bind"@, 0);
    lemma_no_attr(node.attrs, "during"@, 0);
    lemma_no_attr(node.attrs, "at"@, 0);
    lemma_no_attr(node.attrs, "anim"@, 0);
    assert(crate::raw::text_of(node.children, 0) is None);
    assert(node.text_content() is Some);
    let (st1, kind) = crate::lower::element_kind(st, node);
    assert(kind is Some);
    assert(crate::lower::elements(st1, node.children, 0) == (st1, Seq::<ElementView>::empty()));
    assert(crate::lower::elements(st1, node.children, 1) == (st1, Seq::<ElementView>::empty()));
    let (_, e) = crate::lower::element(st, node);
    lemma_quiet(e->0);
}

/// `fine` after whatever came before.
spec fn always_fine(node: RawNodeView) -> bool {
    forall|st: LowerView| #[trigger] fine(st, node)
}

/// Children that are text or elements of a draft.
spec fn all_fine(children: Seq<RawChildView>) -> bool {
    forall|i: int|
        0 <= i < children.len() ==> match #[trigger] children[i] {
            RawChildView::Text { .. } => true,
            RawChildView::Node(c) => always_fine(c),
        }
}

proof fn lemma_elements(st: LowerView, children: Seq<RawChildView>, n: int)
    requires
        all_fine(children),
        0 <= n <= children.len(),
    ensures
        same(st, crate::lower::elements(st, children, n).0),
        all_quiet(crate::lower::elements(st, children, n).1),
    decreases n,
{
    if n > 0 {
        lemma_elements(st, children, n - 1);
        let (st1, done) = crate::lower::elements(st, children, n - 1);
        let c = children[n - 1];
        assert(c is Node ==> fine(st1, c->Node_0));
    }
}

proof fn lemma_board(st: LowerView, node: RawNodeView)
    requires
        is_board(crate::writer_laws::shape(node)),
    ensures
        fine(st, node),
{
    lemma_words();
    crate::writer_laws::lemma_shape(node);
    let shapes = crate::writer_laws::attr_shapes(node.attrs);
    assert(shapes[0] == (node.attrs[0].name, node.attrs[0].value));
    assert(shapes[1] == (node.attrs[1].name, node.attrs[1].value));
    assert(shapes[2] == (node.attrs[2].name, node.attrs[2].value));
    lemma_attr(node.attrs, "during"@, 0, 0);
    lemma_attr(node.attrs, "at"@, 0, 1);
    lemma_attr(node.attrs, "anim"@, 0, 2);
    lemma_allowed(st, node, crate::lower::common_attrs());
    let (st1, kind) = crate::lower::element_kind(st, node);
    assert(same(st, st1));
    assert(kind is Some);
    assert(crate::scene::placement("bottom"@) is Ok);
    let c = crate::lower::common(st1, node);
    assert(c.st == st1);
    let children = node.children;
    let kinds = crate::writer_laws::child_shapes(children);
    assert(kinds[0] == crate::writer_laws::child_shape(children[0]));
    assert(kinds[1] == crate::writer_laws::child_shape(children[1]));
    assert(kinds[2] == crate::writer_laws::child_shape(children[2]));
    crate::writer_laws::lemma_child_shape(children[1]->Node_0);
    let inner = children[1]->Node_0;
    assert forall|s: LowerView| #[trigger] fine(s, inner) by {
        lemma_caption(s, inner);
    }
    assert(all_fine(children)) by {
        assert forall|i: int| 0 <= i < children.len() implies match #[trigger] children[i] {
            RawChildView::Text { .. } => true,
            RawChildView::Node(x) => always_fine(x),
        } by {
            assert(i == 0 || i == 1 || i == 2);
        }
    }
    lemma_elements(c.st, children, 3);
    assert(blank_text(children)) by {
        assert forall|i: int| 0 <= i < children.len() implies match #[trigger] children[i] {
            RawChildView::Text { text, .. } => crate::text::trimmed(text).len() == 0,
            RawChildView::Node(_) => true,
        } by {
            assert(i == 0 || i == 1 || i == 2);
        }
    }
    lemma_blank_text(children, 3);
    let (_, e) = crate::lower::element(st, node);
    lemma_quiet(e->0);
}

// Tracks.

/// What stands in a track of a draft.
spec fn is_draft_child(c: MarkupChildView) -> bool {
    is_blank(c) || (c matches MarkupChildView::Node(m) && (is_source_element(m) || is_board(m)))
}

spec fn is_draft_track(m: MarkupView) -> bool {
    &&& m.name == "track"@
    &&& m.attrs.len() == 1
    &&& m.attrs[0].0 == "kind"@
    &&& m.attrs[0].1 == "visual"@ || m.attrs[0].1 == "audio"@
    &&& forall|i: int| 0 <= i < m.children.len() ==> is_draft_child(#[trigger] m.children[i])
}

/// A track is lowered without an error: only its id is new.
proof fn lemma_track(st: LowerView, node: RawNodeView, index: nat)
    requires
        is_draft_track(crate::writer_laws::shape(node)),
        !st.tracks.contains("track"@ + crate::text::dec(index)),
    ensures
        ({
            let (st1, t) = crate::lower::track(st, node, index);
            &&& same(
                LowerView { tracks: st.tracks.push("track"@ + crate::text::dec(index)), ..st },
                st1,
            )
            &&& t matches Some(v) && v.anchor is None && all_quiet(v.elements)
        }),
{
    lemma_words();
    crate::writer_laws::lemma_shape(node);
    let shapes = crate::writer_laws::attr_shapes(node.attrs);
    assert(shapes[0] == (node.attrs[0].name, node.attrs[0].value));
    lemma_attr(node.attrs, "kind"@, 0, 0);
    lemma_no_attr(node.attrs, "id"@, 0);
    lemma_no_attr(node.attrs, "anchor"@, 0);
    let allowed = seq!["kind"@, "id"@, "anchor"@];
    lemma_allowed(st, node, allowed);
    let st1 = crate::lower::checked_attrs(st, node, allowed);
    let id = "track"@ + crate::text::dec(index);
    let st2 = LowerView { tracks: st1.tracks.push(id), ..st1 };
    let children = node.children;
    let kinds = crate::writer_laws::child_shapes(children);
    assert forall|i: int| 0 <= i < children.len() implies match #[trigger] children[i] {
        RawChildView::Text { text, .. } => crate::text::trimmed(text).len() == 0,
        RawChildView::Node(x) => always_fine(x),
    } by {
        assert(is_draft_child(kinds[i]));
        assert(kinds[i] == crate::writer_laws::child_shape(children[i]));
        if children[i] is Node {
            let x = children[i]->Node_0;
            crate::writer_laws::lemma_child_shape(x);
            assert forall|s: LowerView| #[trigger] fine(s, x) by {
                if is_board(crate::writer_laws::shape(x)) {
                    lemma_board(s, x);
                } else {
                    lemma_source_element(s, x);
                }
            }
        }
    }
    assert(all_fine(children));
    assert(blank_text(children));
    lemma_blank_text(children, children.len() as int);
    lemma_elements(st2, children, children.len() as int);
}

proof fn lemma_tracks_quiet(st: LowerView, tracks: Seq<TrackView>, n: int)
    requires
        forall|i: int|
            0 <= i < tracks.len() ==> (#[trigger] tracks[i]).anchor is None && all_quiet(
                tracks[i].elements,
            ),
    ensures
        crate::lower::tracks_check(st, tracks, n) == st,
    decreases n,
{
    if 0 < n <= tracks.len() {
        lemma_tracks_quiet(st, tracks, n - 1);
        let t = tracks[n - 1];
        lemma_all_quiet(st, t.elements, t.elements.len() as int);
    }
}

proof fn lemma_render(st: LowerView, node: RawNodeView)
    requires
        crate::writer_laws::shape(node) == crate::adapt::leaf_view(
            "render"@,
            seq![("target"@, "out/adapted.mp4"@)],
        ),
    ensures
        same(st, crate::lower::render_target(st, node).0),
        crate::lower::render_target(st, node).1 is Some,
{
    crate::writer_laws::lemma_shape(node);
    let m = crate::writer_laws::shape(node);
    assert(m.attrs.len() == 1 && m.attrs[0].0 == "target"@);
    let shapes = crate::writer_laws::attr_shapes(node.attrs);
    assert(shapes[0] == (node.attrs[0].name, node.attrs[0].value));
    assert(m.children.len() == 0);
    lemma_attr(node.attrs, "target"@, 0, 0);
    lemma_allowed(st, node, seq!["target"@]);
    assert(crate::raw::text_of(node.children, 0) is None);
    assert(crate::raw::nodes_of(node.children, 0).len() == 0);
}

// Text of a draft.

spec fn is_blank_text(s: Seq<char>) -> bool {
    &&& s.len() > 0
    &&& forall|i: int| 0 <= i < s.len() ==> (#[trigger] s[i] == ' ' || s[i] == '\n')
}

proof fn lemma_blank_child(s: Seq<char>)
    requires
        is_blank_text(s),
    ensures
        is_blank(crate::adapt::text_child(s)),
        crate::writer_laws::plain(s),
{
    lemma_blank(s);
}

proof fn lemma_blanks()
    ensures
        is_blank_text("\n"@),
        is_blank_text("\n  "@),
        is_blank_text("\n    "@),
        is_blank_text("\n      "@),
{
    reveal_strlit("\n");
    reveal_strlit("\n  ");
    reveal_strlit("\n    ");
    reveal_strlit("\n      ");
}

proof fn lemma_label(number: nat)
    ensures
        crate::writer_laws::plain("Shot "@ + crate::text::dec(number)),
        crate::text::trimmed("Shot "@ + crate::text::dec(number)).len() > 0,
{
    reveal_strlit("Shot ");
    let d = crate::text::dec(number);
    crate::text::lemma_dec(number);
    let s = "Shot "@ + d;
    assert(s.last() == d.last());
    assert(crate::text::is_digit(d[d.len() - 1]));
    lemma_trimmed(s);
    assert forall|i: int| 0 <= i < s.len() implies #[trigger] s[i] != '<' && s[i] != '&' by {
        if i >= 5 {
            assert(crate::text::is_digit(d[i - 5]));
            assert(s[i] == d[i - 5]);
        }
    }
}

proof fn lemma_tag_names()
    ensures
        crate::writer_laws::is_name("scene"@) && crate::text::is_letter("scene"@[0]),
        crate::writer_laws::is_name("track"@) && crate::text::is_letter("track"@[0]),
        crate::writer_laws::is_name("clip"@) && crate::text::is_letter("clip"@[0]),
        crate::writer_laws::is_name("music"@) && crate::text::is_letter("music"@[0]),
        crate::writer_laws::is_name("board"@) && crate::text::is_letter("board"@[0]),
        crate::writer_laws::is_name("text"@) && crate::text::is_letter("text"@[0]),
        crate::writer_laws::is_name("render"@) && crate::text::is_letter("render"@[0]),
{
    reveal_strlit("scene");
    reveal_strlit("track");
    reveal_strlit("clip");
    reveal_strlit("music");
    reveal_strlit("board");
    reveal_strlit("text");
    reveal_strlit("render");
}

proof fn lemma_attr_names()
    ensures
        crate::writer_laws::is_name("canvas"@),
        crate::writer_laws::is_name("fps"@),
        crate::writer_laws::is_name("clear"@),
        crate::writer_laws::is_name("kind"@),
        crate::writer_laws::is_name("src"@),
        crate::writer_laws::is_name("during"@),
        crate::writer_laws::is_name("at"@),
        crate::writer_laws::is_name("anim"@),
        crate::writer_laws::is_name("target"@),
{
    reveal_strlit("canvas");
    reveal_strlit("fps");
    reveal_strlit("clear");
    reveal_strlit("kind");
    reveal_strlit("src");
    reveal_strlit("during");
    reveal_strlit("at");
    reveal_strlit("anim");
    reveal_strlit("target");
}

// Parts of a draft can be written and are elements of a draft.

proof fn lemma_whole_source(name: Seq<char>, src: Seq<char>, length: u64, levels: nat)
    requires
        name == "clip"@ || name == "music"@,
        levels > 0,
    ensures
        is_source_element(crate::adapt::whole_source(name, src, length)),
        crate::writer_laws::writable(crate::adapt::whole_source(name, src, length), levels),
{
    lemma_whole(length);
    lemma_tag_names();
    lemma_attr_names();
    lemma_words();
    crate::writer_laws::lemma_writable(crate::adapt::whole_source(name, src, length), levels);
}

proof fn lemma_caption_view(number: nat, levels: nat)
    requires
        levels > 0,
    ensures
        ({
            let c = crate::adapt::caption_view(number);
            is_caption(c) && crate::writer_laws::writable(c, levels)
        }),
{
    let c = crate::adapt::caption_view(number);
    lemma_label(number);
    lemma_tag_names();
    crate::writer_laws::lemma_writable(c, levels);
}

proof fn lemma_board_view(from: u64, to: u64, number: nat, levels: nat)
    requires
        levels > 1,
    ensures
        is_board(crate::adapt::board_view(from, to, number)),
        crate::writer_laws::writable(crate::adapt::board_view(from, to, number), levels),
{
    let b = crate::adapt::board_view(from, to, number);
    lemma_times(from, to);
    lemma_tag_names();
    lemma_attr_names();
    lemma_words();
    lemma_blanks();
    lemma_blank_child("\n      "@);
    lemma_blank_child("\n    "@);
    lemma_caption_view(number, (levels - 1) as nat);
    crate::writer_laws::lemma_writable(b, levels);
    assert(crate::writer_laws::children_writable(b.children, (levels - 1) as nat));
}

/// Children in which a text stands before each element.
spec fn alternates(s: Seq<MarkupChildView>, levels: nat) -> bool {
    &&& s.len() % 2 == 0
    &&& forall|i: int|
        0 <= i < s.len() ==> is_draft_child(#[trigger] s[i]) && match s[i] {
            MarkupChildView::Node(m) => i % 2 == 1 && crate::writer_laws::writable(m, levels),
            MarkupChildView::Text(t) => i % 2 == 0 && crate::writer_laws::plain(t),
        }
}

proof fn lemma_boards(bounds: Seq<u64>, n: int, levels: nat)
    requires
        levels > 1,
    ensures
        alternates(crate::adapt::boards(bounds, n), levels),
    decreases n,
{
    if 0 < n <= bounds.len() {
        lemma_boards(bounds, n - 1, levels);
        if crate::adapt::is_shot(bounds, n - 1) {
            let from = crate::adapt::shot_start(bounds, n - 1);
            lemma_board_view(from, bounds[n - 1], n as nat, levels);
            lemma_blanks();
            lemma_blank_child("\n    "@);
        }
    }
}

proof fn lemma_visual_track(src: Seq<char>, length: u64, bounds: Seq<u64>, levels: nat)
    requires
        levels > 2,
    ensures
        is_draft_track(crate::adapt::visual_track(src, length, bounds)),
        crate::writer_laws::writable(crate::adapt::visual_track(src, length, bounds), levels),
{
    let m = crate::adapt::visual_track(src, length, bounds);
    let below = (levels - 1) as nat;
    lemma_tag_names();
    lemma_attr_names();
    lemma_blanks();
    lemma_blank_child("\n    "@);
    lemma_blank_child("\n  "@);
    lemma_whole_source("clip"@, src, length, below);
    let middle = crate::adapt::boards(bounds, bounds.len() as int);
    lemma_boards(bounds, bounds.len() as int, below);
    let c = m.children;
    assert forall|i: int| 0 <= i < c.len() implies is_draft_child(#[trigger] c[i]) && match c[i] {
        MarkupChildView::Node(x) => crate::writer_laws::writable(x, below),
        MarkupChildView::Text(t) => crate::writer_laws::plain(t) && (i + 1 < c.len() ==> c[i + 1]
            is Node),
    } by {
        if 2 <= i < middle.len() + 2 {
            assert(c[i] == middle[i - 2]);
            if (i - 2) % 2 == 0 {
                assert(i - 1 < middle.len());
                assert(c[i + 1] == middle[i - 1]);
                assert(is_draft_child(middle[i - 1]));
            }
        }
    }
    crate::writer_laws::lemma_writable(m, levels);
    assert(crate::writer_laws::children_writable(c, below));
}

proof fn lemma_audio_track(src: Seq<char>, length: u64, levels: nat)
    requires
        levels > 1,
    ensures
        is_draft_track(crate::adapt::audio_track(src, length)),
        crate::writer_laws::writable(crate::adapt::audio_track(src, length), levels),
{
    let m = crate::adapt::audio_track(src, length);
    let below = (levels - 1) as nat;
    lemma_tag_names();
    lemma_attr_names();
    lemma_blanks();
    lemma_blank_child("\n    "@);
    lemma_blank_child("\n  "@);
    lemma_whole_source("music"@, src, length, below);
    crate::writer_laws::lemma_writable(m, levels);
    assert(crate::writer_laws::children_writable(m.children, below));
}

// The root.

proof fn lemma_draft_writable(src: Seq<char>, a: Analysis)
    ensures
        crate::writer_laws::writable(crate::adapt::draft(src, a), MAX_DEPTH as nat),
{
    let m = crate::adapt::draft(src, a);
    let length = crate::adapt::draft_length(a.duration_us);
    let bounds = crate::adapt::boundaries(a.cuts_us@, length);
    let below = (MAX_DEPTH - 1) as nat;
    lemma_tag_names();
    lemma_attr_names();
    lemma_words();
    lemma_blanks();
    lemma_blank_child("\n  "@);
    lemma_blank_child("\n"@);
    lemma_visual_track(src, length, bounds, below);
    lemma_audio_track(src, length, below);
    let render = crate::adapt::leaf_view("render"@, seq![("target"@, "out/adapted.mp4"@)]);
    crate::writer_laws::lemma_writable(render, below);
    crate::writer_laws::lemma_writable(m, MAX_DEPTH as nat);
    assert(crate::writer_laws::children_writable(m.children, below));
}

/// The element at child `i` of a parsed draft.
proof fn lemma_child(node: RawNodeView, i: int, m: MarkupView)
    requires
        0 <= i < node.children.len(),
        crate::writer_laws::shape(node).children[i] == MarkupChildView::Node(m),
    ensures
        node.children[i] matches RawChildView::Node(c) && crate::writer_laws::shape(c) == m
            && c.name == m.name,
{
    crate::writer_laws::lemma_shape(node);
    assert(crate::writer_laws::child_shapes(node.children)[i] == crate::writer_laws::child_shape(
        node.children[i],
    ));
    if node.children[i] is Node {
        crate::writer_laws::lemma_child_shape(node.children[i]->Node_0);
        crate::writer_laws::lemma_shape(node.children[i]->Node_0);
    }
}

proof fn lemma_text_child(node: RawNodeView, i: int)
    requires
        0 <= i < node.children.len(),
        is_blank(crate::writer_laws::shape(node).children[i]),
    ensures
        node.children[i] matches RawChildView::Text { text, .. } && crate::text::trimmed(text).len()
            == 0,
{
    crate::writer_laws::lemma_shape(node);
    assert(crate::writer_laws::child_shapes(node.children)[i] == crate::writer_laws::child_shape(
        node.children[i],
    ));
    if node.children[i] is Node {
        crate::writer_laws::lemma_child_shape(node.children[i]->Node_0);
    }
}

/// The elements of a parsed draft: its tracks, then its target; no text
/// stands between them.
proof fn lemma_draft_elements(root: RawNodeView, src: Seq<char>, a: Analysis)
    requires
        crate::writer_laws::shape(root) == crate::adapt::draft(src, a),
    ensures
        root.text_content() is None,
        ({
            let nodes = root.elements();
            let length = crate::adapt::draft_length(a.duration_us);
            let bounds = crate::adapt::boundaries(a.cuts_us@, length);
            let tracks: int = if a.has_audio {
                2
            } else {
                1
            };
            &&& nodes.len() == tracks + 1
            &&& crate::writer_laws::shape(nodes[0]) == crate::adapt::visual_track(
                src,
                length,
                bounds,
            )
            &&& a.has_audio ==> crate::writer_laws::shape(nodes[1]) == crate::adapt::audio_track(
                src,
                length,
            )
            &&& crate::writer_laws::shape(nodes[tracks]) == crate::adapt::leaf_view(
                "render"@,
                seq![("target"@, "out/adapted.mp4"@)],
            )
        }),
{
    let length = crate::adapt::draft_length(a.duration_us);
    let bounds = crate::adapt::boundaries(a.cuts_us@, length);
    let render = crate::adapt::leaf_view("render"@, seq![("target"@, "out/adapted.mp4"@)]);
    let m = crate::adapt::draft(src, a);
    crate::writer_laws::lemma_shape(root);
    lemma_blanks();
    lemma_blank_child("\n  "@);
    lemma_blank_child("\n"@);
    let c = root.children;
    assert(c.len() == m.children.len());
    lemma_text_child(root, 0);
    lemma_child(root, 1, crate::adapt::visual_track(src, length, bounds));
    lemma_text_child(root, 2);
    if a.has_audio {
        assert(c.len() == 7);
        lemma_child(root, 3, crate::adapt::audio_track(src, length));
        lemma_text_child(root, 4);
        lemma_child(root, 5, render);
        lemma_text_child(root, 6);
    } else {
        assert(c.len() == 5);
        lemma_child(root, 3, render);
        lemma_text_child(root, 4);
    }
    assert(blank_text(c)) by {
        assert forall|i: int| 0 <= i < c.len() implies match #[trigger] c[i] {
            RawChildView::Text { text, .. } => crate::text::trimmed(text).len() == 0,
            RawChildView::Node(_) => true,
        } by {
            assert(i == 0 || i == 1 || i == 2 || i == 3 || i == 4 || i == 5 || i == 6);
        }
    }
    lemma_blank_text(c, c.len() as int);
    reveal_with_fuel(crate::raw::nodes_of, 8);
}

proof fn lemma_draft_attrs(root: RawNodeView, src: Seq<char>, a: Analysis)
    requires
        crate::writer_laws::shape(root) == crate::adapt::draft(src, a),
    ensures
        root.name == "scene"@,
        root.attr("canvas"@) matches Some(c) && crate::scene::canvas(c.value) == Ok::<
            Canvas,
            Seq<char>,
        >(
            Canvas {
                width: crate::adapt::at_least_two(a.width) as u32,
                height: crate::adapt::at_least_two(a.height) as u32,
            },
        ),
        root.attr("fps"@) matches Some(c) && crate::scene::rational(c.value) is Ok,
        root.attr("clear"@) matches Some(c) && crate::scene::color(c.value) is Ok,
{
    lemma_words();
    crate::writer_laws::lemma_shape(root);
    let m = crate::adapt::draft(src, a);
    assert(m.attrs.len() == 3);
    let shapes = crate::writer_laws::attr_shapes(root.attrs);
    assert(shapes[0] == (root.attrs[0].name, root.attrs[0].value));
    assert(shapes[1] == (root.attrs[1].name, root.attrs[1].value));
    assert(shapes[2] == (root.attrs[2].name, root.attrs[2].value));
    lemma_attr(root.attrs, "canvas"@, 0, 0);
    lemma_attr(root.attrs, "fps"@, 0, 1);
    lemma_attr(root.attrs, "clear"@, 0, 2);
    lemma_canvas(crate::adapt::at_least_two(a.width), crate::adapt::at_least_two(a.height));
    lemma_rate(a.fps);
    lemma_black();
}

/// The tracks and the target of a draft are lowered without an error.
proof fn lemma_draft_children(st: LowerView, root: RawNodeView, src: Seq<char>, a: Analysis)
    requires
        crate::writer_laws::shape(root) == crate::adapt::draft(src, a),
        crate::lower_laws::clean(st),
        st.tracks.len() == 0,
        st.script_track is None,
    ensures
        crate::lower::first_script_track(root.elements(), 0) is None,
        ({
            let nodes = root.elements();
            let b = crate::lower::root_children(st, nodes, nodes.len() as int);
            &&& crate::lower_laws::clean(b.st)
            &&& b.st.script_track is None
            &&& b.tracks.len() == (if a.has_audio {
                2int
            } else {
                1int
            })
            &&& forall|i: int|
                0 <= i < b.tracks.len() ==> (#[trigger] b.tracks[i]).anchor is None && all_quiet(
                    b.tracks[i].elements,
                )
        }),
{
    let length = crate::adapt::draft_length(a.duration_us);
    let bounds = crate::adapt::boundaries(a.cuts_us@, length);
    let nodes = root.elements();
    lemma_words();
    lemma_draft_elements(root, src, a);
    lemma_visual_track(src, length, bounds, 3);
    lemma_audio_track(src, length, 3);
    let last = nodes.len() - 1;
    crate::writer_laws::lemma_shape(nodes[0]);
    crate::writer_laws::lemma_shape(nodes[1]);
    crate::writer_laws::lemma_shape(nodes[last]);
    reveal_with_fuel(crate::lower::first_script_track, 4);
    reveal_with_fuel(crate::lower::root_children, 4);
    let b0 = crate::lower::root_children(st, nodes, 0);
    let first = "track"@ + crate::text::dec(0);
    let second = "track"@ + crate::text::dec(1);
    assert(!st.tracks.contains(first));
    lemma_track(st, nodes[0], 0);
    let b1 = crate::lower::root_child(b0, nodes[0], 0);
    assert(b1 == crate::lower::root_children(st, nodes, 1));
    if a.has_audio {
        assert(first.last() == '0');
        assert(second.last() == '1');
        assert(!b1.st.tracks.contains(second)) by {
            assert(b1.st.tracks.len() == 1);
            assert(b1.st.tracks[0] == first);
        }
        lemma_track(b1.st, nodes[1], 1);
        let b2 = crate::lower::root_child(b1, nodes[1], 1);
        assert(b2 == crate::lower::root_children(st, nodes, 2));
        lemma_render(b2.st, nodes[2]);
    } else {
        lemma_render(b1.st, nodes[1]);
    }
}

/// A parsed draft is lowered without an error.
proof fn lemma_draft_lowered(root: RawNodeView, src: Seq<char>, a: Analysis)
    requires
        crate::writer_laws::shape(root) == crate::adapt::draft(src, a),
    ensures
        ({
            let (st, scene) = crate::lower::scene(crate::lower::fresh(), root);
            &&& crate::lower_laws::clean(st)
            &&& scene matches Some(s) && {
                &&& s.canvas.width == crate::adapt::at_least_two(a.width)
                &&& s.canvas.height == crate::adapt::at_least_two(a.height)
                &&& s.tracks.len() == (if a.has_audio {
                    2int
                } else {
                    1int
                })
            }
        }),
{
    lemma_draft_attrs(root, src, a);
    lemma_draft_elements(root, src, a);
    let st = crate::lower::fresh();
    assert(crate::lower_laws::clean(st));
    let allowed = seq!["canvas"@, "fps"@, "clear"@];
    lemma_allowed(st, root, allowed);
    let st1 = crate::lower::checked_attrs(st, root, allowed);
    lemma_draft_children(st1, root, src, a);
    let nodes = root.elements();
    let b = crate::lower::root_children(st1, nodes, nodes.len() as int);
    lemma_tracks_quiet(b.st, b.tracks, b.tracks.len() as int);
    assert(crate::lower::references(b.st, b.tracks) == b.st);
}

proof fn lemma_parsed(m: MarkupView) -> (root: RawNodeView)
    requires
        crate::writer_laws::writable(m, MAX_DEPTH as nat),
    ensures
        crate::parser::document(crate::writer::printed(m) + "\n"@) == Ok::<
            RawNodeView,
            DiagnosticView,
        >(root),
        crate::writer_laws::shape(root) == m,
{
    reveal_strlit("\n");
    crate::writer_laws::print_then_parse(m, "\n"@);
    crate::parser::document(crate::writer::printed(m) + "\n"@)->Ok_0
}

/// Whatever was learned about a source, and however its path is written, its
/// draft compiles without an error: to a scene on a canvas of the source's
/// size, with a visual track and, for a source with sound, an audio track.
pub proof fn draft_compiles(src: Seq<char>, a: Analysis)
    ensures
        !crate::diagnostic::any_error(
            crate::markup::compiled(crate::adapt::draft_text(src, a)).1,
        ),
        crate::markup::compiled(crate::adapt::draft_text(src, a)).0 matches Some(s) && {
            &&& s.canvas.width == crate::adapt::at_least_two(a.width)
            &&& s.canvas.height == crate::adapt::at_least_two(a.height)
            &&& s.tracks.len() == (if a.has_audio {
                2int
            } else {
                1int
            })
        },
{
    lemma_draft_writable(src, a);
    let root = lemma_parsed(crate::adapt::draft(src, a));
    lemma_draft_lowered(root, src, a);
}

// What a draft says.

/// Microseconds to the nearest millisecond, as seconds with three decimals.
pub open spec fn writes_seconds(t: Seq<char>, us: u64) -> bool {
    exists|whole: Seq<char>, part: Seq<char>|
        {
            &&& t == #[trigger] (whole + "."@ + part + "s"@)
            &&& whole.len() > 0 && part.len() == 3
            &&& crate::text::all_digits(whole + part)
            &&& -500 <= 1000 * crate::text::dec_value(whole + part) - us <= 500
        }
}

proof fn lemma_three(s: Seq<char>, a: nat, b: nat, c: nat)
    requires
        a < 10,
        b < 10,
        c < 10,
    ensures
        ({
            let d = seq![
                crate::text::digit_char(a),
                crate::text::digit_char(b),
                crate::text::digit_char(c),
            ];
            crate::text::dec_value(s + d) == crate::text::dec_value(s) * 1000 + a * 100 + b * 10 + c
        }),
{
    let x = crate::text::digit_char(a);
    let y = crate::text::digit_char(b);
    let z = crate::text::digit_char(c);
    crate::text::lemma_digit(a);
    crate::text::lemma_digit(b);
    crate::text::lemma_digit(c);
    let d = seq![x, y, z];
    let s3 = s + d;
    let s2 = s.push(x).push(y);
    let s1 = s.push(x);
    assert(s3 =~= s2.push(z));
    assert(s3.drop_last() =~= s2);
    assert(s2.drop_last() =~= s1);
    assert(s1.drop_last() =~= s);
    assert(crate::text::dec_value(s1) == crate::text::dec_value(s) * 10 + a);
    assert(crate::text::dec_value(s2) == crate::text::dec_value(s1) * 10 + b);
    assert(crate::text::dec_value(s3) == crate::text::dec_value(s2) * 10 + c);
}

proof fn lemma_writes_seconds(us: u64)
    ensures
        writes_seconds(crate::adapt::seconds(us), us),
{
    let ms = crate::adapt::millis(us);
    let whole = crate::text::dec(ms / 1000);
    let part = crate::adapt::three_digits(ms % 1000);
    crate::text::lemma_dec(ms / 1000);
    let n = ms % 1000;
    lemma_three(whole, n / 100 % 10, n / 10 % 10, n % 10);
    assert(n == (n / 100 % 10) * 100 + (n / 10 % 10) * 10 + n % 10);
    crate::text::lemma_digit(n / 100 % 10);
    crate::text::lemma_digit(n / 10 % 10);
    crate::text::lemma_digit(n % 10);
    assert(crate::adapt::seconds(us) == whole + "."@ + part + "s"@);
    let all = whole + part;
    assert forall|i: int| 0 <= i < all.len() implies crate::text::is_digit(#[trigger] all[i]) by {
        if i < whole.len() {
            assert(all[i] == whole[i]);
        } else {
            assert(all[i] == part[i - whole.len()]);
        }
    }
}

/// A range of seconds.
pub open spec fn writes_range(t: Seq<char>, from: u64, to: u64) -> bool {
    exists|a: Seq<char>, b: Seq<char>|
        t == #[trigger] (a + ".."@ + b) && writes_seconds(a, from) && writes_seconds(b, to)
}

/// The whole program, from zero on.
pub open spec fn writes_whole(t: Seq<char>, to: u64) -> bool {
    exists|b: Seq<char>|
        t == #[trigger] ("0s.."@ + b) && writes_seconds(b, to)
}

/// The board of a shot: its range, and its number as a caption.
pub open spec fn is_shot_board(m: MarkupView, from: u64, to: u64, number: nat) -> bool {
    &&& m.name == "board"@
    &&& m.attrs.len() == 3
    &&& m.attrs[0].0 == "during"@ && writes_range(m.attrs[0].1, from, to)
    &&& m.attrs[1] == ("at"@, "bottom"@)
    &&& m.attrs[2] == ("anim"@, "rise"@)
    &&& m.children.len() == 3
    &&& m.children[1] matches MarkupChildView::Node(c) && c.name == "text"@ && c.attrs.len() == 0
        && c.children.len() == 1 && c.children[0] == MarkupChildView::Text(
        "Shot "@ + crate::text::dec(number),
    )
}

/// An element that plays a source for a whole program.
pub open spec fn plays_whole(m: MarkupView, name: Seq<char>, src: Seq<char>, length: u64) -> bool {
    &&& m.name == name
    &&& m.attrs.len() == 2
    &&& m.attrs[0] == ("src"@, src)
    &&& m.attrs[1].0 == "during"@ && writes_whole(m.attrs[1].1, length)
    &&& m.children.len() == 0
}

proof fn lemma_plays_whole(name: Seq<char>, src: Seq<char>, length: u64)
    ensures
        plays_whole(crate::adapt::whole_source(name, src, length), name, src, length),
{
    lemma_writes_seconds(length);
    let b = crate::adapt::seconds(length);
}

proof fn lemma_shot_board(from: u64, to: u64, number: nat)
    ensures
        is_shot_board(crate::adapt::board_view(from, to, number), from, to, number),
{
    lemma_writes_seconds(from);
    lemma_writes_seconds(to);
    let a = crate::adapt::seconds(from);
    let b = crate::adapt::seconds(to);
}

/// Where the shot before boundary `k` starts.
pub open spec fn starts_at(bounds: Seq<u64>, k: int) -> u64 {
    if k == 0 {
        0
    } else {
        bounds[k - 1]
    }
}

/// The shots that are at least 50 milliseconds long.
pub open spec fn shot_at(bounds: Seq<u64>) -> spec_fn(int) -> bool {
    |k: int| bounds[k] - starts_at(bounds, k) >= 50_000
}

proof fn lemma_boards_are(bounds: Seq<u64>, n: int) -> (at: Seq<int>)
    requires
        0 <= n <= bounds.len(),
    ensures
        crate::select::selects(at, n, shot_at(bounds)),
        crate::adapt::boards(bounds, n).len() == 2 * at.len(),
        forall|k: int|
            0 <= k < at.len() ==> (
            #[trigger] crate::adapt::boards(bounds, n)[2 * k + 1] matches MarkupChildView::Node(b)
                && is_shot_board(
                b,
                starts_at(bounds, at[k]),
                bounds[at[k]],
                (at[k] + 1) as nat,
            )),
    decreases n,
{
    let keep = shot_at(bounds);
    if n == 0 {
        crate::select::lemma_select_none(keep);
        Seq::empty()
    } else {
        let at = lemma_boards_are(bounds, n - 1);
        let before = crate::adapt::boards(bounds, n - 1);
        let all = crate::adapt::boards(bounds, n);
        if keep(n - 1) {
            lemma_shot_board(starts_at(bounds, n - 1), bounds[n - 1], n as nat);
            crate::select::lemma_select_take(at, n, keep);
            let out = at.push(n - 1);
            assert forall|k: int| 0 <= k < out.len() implies (
            #[trigger] all[2 * k + 1] matches MarkupChildView::Node(b) && is_shot_board(
                b,
                starts_at(bounds, out[k]),
                bounds[out[k]],
                (out[k] + 1) as nat,
            )) by {
                if k < at.len() {
                    assert(all[2 * k + 1] == before[2 * k + 1]);
                }
            }
            out
        } else {
            crate::select::lemma_select_skip(at, n, keep);
            at
        }
    }
}

/// The boundaries of the shots of a program: the cuts inside it in ascending
/// order, each once, and its end.
pub open spec fn are_bounds(bounds: Seq<u64>, cuts: Seq<i64>, length: u64) -> bool {
    &&& bounds.len() > 0
    &&& bounds.last() == length
    &&& forall|i: int, j: int| 0 <= i < j < bounds.len() ==> #[trigger] bounds[i] < #[trigger] bounds[j]
    &&& forall|i: int|
        0 <= i < bounds.len() - 1 ==> 0 < #[trigger] bounds[i] < length && cuts.contains(
            bounds[i] as i64,
        ) && bounds[i] <= i64::MAX
    &&& forall|i: int|
        0 <= i < cuts.len() && 0 < #[trigger] cuts[i] < length ==> bounds.contains(cuts[i] as u64)
}

proof fn lemma_inner(cuts: Seq<i64>, length: u64, n: int)
    requires
        0 <= n <= cuts.len(),
    ensures
        ({
            let s = crate::adapt::inner_cuts(cuts, length, n);
            &&& forall|i: int|
                0 <= i < s.len() ==> 0 < #[trigger] s[i] < length && s[i] <= i64::MAX
                    && cuts.contains(s[i] as i64)
            &&& forall|i: int|
                0 <= i < n && 0 < #[trigger] cuts[i] < length ==> s.contains(cuts[i] as u64)
        }),
    decreases n,
{
    if n > 0 {
        lemma_inner(cuts, length, n - 1);
        let before = crate::adapt::inner_cuts(cuts, length, n - 1);
        let s = crate::adapt::inner_cuts(cuts, length, n);
        assert(cuts.contains(cuts[n - 1]));
        assert forall|i: int| 0 <= i < n && 0 < #[trigger] cuts[i] < length implies s.contains(
            cuts[i] as u64,
        ) by {
            if i == n - 1 {
                assert(s[before.len() as int] == cuts[i] as u64);
            } else {
                let k = choose|k: int| 0 <= k < before.len() && before[k] == cuts[i] as u64;
                assert(s[k] == cuts[i] as u64);
            }
        }
    }
}

proof fn lemma_distinct(s: Seq<u64>)
    requires
        crate::shots::is_ascending(s),
    ensures
        ({
            let d = crate::adapt::distinct(s);
            &&& forall|i: int, j: int| 0 <= i < j < d.len() ==> #[trigger] d[i] < #[trigger] d[j]
            &&& forall|i: int| 0 <= i < d.len() ==> s.contains(#[trigger] d[i])
            &&& forall|i: int| 0 <= i < s.len() ==> d.contains(#[trigger] s[i])
            &&& s.len() > 0 ==> d.len() > 0 && d.last() == s.last()
        }),
    decreases s.len(),
{
    let d = crate::adapt::distinct(s);
    if s.len() < 2 {
        assert forall|i: int| 0 <= i < s.len() implies d.contains(#[trigger] s[i]) by {
            assert(d[i] == s[i]);
        }
    } else {
        let rest = s.drop_last();
        lemma_distinct(rest);
        let e = crate::adapt::distinct(rest);
        assert forall|i: int| 0 <= i < e.len() implies s.contains(#[trigger] e[i]) by {
            let k = choose|k: int| 0 <= k < rest.len() && rest[k] == e[i];
            assert(s[k] == e[i]);
        }
        assert(s[s.len() - 1] == s.last());
        assert(rest.last() == s[s.len() - 2]);
        assert forall|i: int| 0 <= i < s.len() implies d.contains(#[trigger] s[i]) by {
            if i < rest.len() {
                assert(rest[i] == s[i]);
                let k = choose|k: int| 0 <= k < e.len() && e[k] == s[i];
                assert(d[k] == s[i]);
            } else if s[s.len() - 2] == s.last() {
                assert(d[d.len() - 1] == s.last());
            } else {
                assert(d[e.len() as int] == s.last());
            }
        }
        if s[s.len() - 2] != s.last() {
            assert forall|i: int, j: int| 0 <= i < j < d.len() implies #[trigger] d[i]
                < #[trigger] d[j] by {
                if j == e.len() {
                    if i < e.len() - 1 {
                        assert(e[i] < e[e.len() - 1]);
                    }
                    assert(e[e.len() - 1] == rest.last());
                }
            }
        }
    }
}

/// The shot boundaries of a draft.
pub proof fn boundaries_are_the_cuts(cuts: Seq<i64>, length: u64)
    ensures
        are_bounds(crate::adapt::boundaries(cuts, length), cuts, length),
{
    broadcast use vstd::seq_lib::group_to_multiset_ensures;

    let inner = crate::adapt::inner_cuts(cuts, length, cuts.len() as int);
    let sorted = crate::shots::ascending(inner);
    let d = crate::adapt::distinct(sorted);
    let bounds = crate::adapt::boundaries(cuts, length);
    lemma_inner(cuts, length, cuts.len() as int);
    crate::shots::ascending_is_sorted(inner);
    lemma_distinct(sorted);
    assert forall|i: int| 0 <= i < d.len() implies 0 < #[trigger] d[i] < length && cuts.contains(
        d[i] as i64,
    ) && d[i] <= i64::MAX by {
        assert(sorted.contains(d[i]));
        assert(sorted.to_multiset().contains(d[i]));
        assert(inner.contains(d[i]));
        let k = choose|k: int| 0 <= k < inner.len() && inner[k] == d[i];
        assert(0 < inner[k] < length);
    }
    assert forall|i: int| 0 <= i < bounds.len() - 1 implies 0 < #[trigger] bounds[i] < length
        && cuts.contains(bounds[i] as i64) && bounds[i] <= i64::MAX by {
        assert(bounds[i] == d[i]);
    }
    assert forall|i: int, j: int| 0 <= i < j < bounds.len() implies #[trigger] bounds[i]
        < #[trigger] bounds[j] by {
        assert(bounds[i] == d[i]);
        if j < d.len() {
            assert(bounds[j] == d[j]);
        }
    }
    assert forall|i: int| 0 <= i < cuts.len() && 0 < #[trigger] cuts[i] < length implies
        bounds.contains(cuts[i] as u64) by {
        assert(inner.contains(cuts[i] as u64));
        assert(inner.to_multiset().contains(cuts[i] as u64));
        assert(sorted.contains(cuts[i] as u64));
        let k = choose|k: int| 0 <= k < sorted.len() && sorted[k] == cuts[i] as u64;
        assert(d.contains(sorted[k]));
        let x = choose|x: int| 0 <= x < d.len() && d[x] == sorted[k];
        assert(bounds[x] == cuts[i] as u64);
    }
}

/// The visual track of a draft: the whole source, then a board for each shot.
pub open spec fn shows_shots(m: MarkupView, src: Seq<char>, bounds: Seq<u64>, length: u64) -> bool {
    &&& m.name == "track"@
    &&& m.attrs =~= seq![("kind"@, "visual"@)]
    &&& exists|at: Seq<int>|
        {
            &&& #[trigger] crate::select::selects(at, bounds.len() as int, shot_at(bounds))
            &&& m.children.len() == 3 + 2 * at.len()
            &&& m.children[1] matches MarkupChildView::Node(c) && plays_whole(
                c,
                "clip"@,
                src,
                length,
            )
            &&& forall|k: int|
                0 <= k < at.len() ==> (
                #[trigger] m.children[2 * k + 3] matches MarkupChildView::Node(b) && is_shot_board(
                    b,
                    starts_at(bounds, at[k]),
                    bounds[at[k]],
                    (at[k] + 1) as nat,
                ))
        }
}

/// A number, or the least there may be.
pub open spec fn or_more(n: u64, least: u64) -> u64 {
    if n < least {
        least
    } else {
        n
    }
}

/// A draft plays the whole source on a canvas of its size and at its rate, with
/// a numbered board for each shot between two cuts; a source with sound is
/// also heard, for as long.
pub proof fn drafts_show_every_shot(src: Seq<char>, a: Analysis)
    ensures
        ({
            let m = crate::adapt::draft(src, a);
            let length = or_more(a.duration_us, 100_000);
            let sound = if a.has_audio {
                2int
            } else {
                0int
            };
            &&& m.name == "scene"@
            &&& m.attrs.len() == 3
            &&& m.attrs[0] == ("canvas"@, crate::text::dec(
                or_more(a.width as u64, 2) as nat,
            ) + "x"@ + crate::text::dec(or_more(a.height as u64, 2) as nat))
            &&& m.attrs[1].0 == "fps"@
            &&& match a.fps {
                Some((num, den)) => num > 0 && den > 0 ==> m.attrs[1].1 == crate::text::dec(
                    num as nat,
                ) + "/"@ + crate::text::dec(den as nat),
                None => m.attrs[1].1 == "30"@,
            }
            &&& m.attrs[2] == ("clear"@, "#000"@)
            &&& m.children.len() == 5 + sound
            &&& m.children[1] matches MarkupChildView::Node(t) && exists|bounds: Seq<u64>|
                #[trigger] are_bounds(bounds, a.cuts_us@, length) && shows_shots(
                    t,
                    src,
                    bounds,
                    length,
                )
            &&& a.has_audio ==> (m.children[3] matches MarkupChildView::Node(t) && t.name
                == "track"@ && t.attrs =~= seq![("kind"@, "audio"@)] && t.children.len() == 3
                && (t.children[1] matches MarkupChildView::Node(c) && plays_whole(
                c,
                "music"@,
                src,
                length,
            )))
            &&& m.children[3 + sound] matches MarkupChildView::Node(r) && r.name == "render"@
                && r.attrs =~= seq![("target"@, "out/adapted.mp4"@)]
        }),
{
    let length = or_more(a.duration_us, 100_000);
    assert(length == crate::adapt::draft_length(a.duration_us));
    let bounds = crate::adapt::boundaries(a.cuts_us@, length);
    boundaries_are_the_cuts(a.cuts_us@, length);
    lemma_plays_whole("clip"@, src, length);
    lemma_plays_whole("music"@, src, length);
    let n = bounds.len() as int;
    let at = lemma_boards_are(bounds, n);
    let t = crate::adapt::visual_track(src, length, bounds);
    let b = crate::adapt::boards(bounds, n);
    assert forall|k: int| 0 <= k < at.len() implies (
    #[trigger] t.children[2 * k + 3] matches MarkupChildView::Node(m) && is_shot_board(
        m,
        starts_at(bounds, at[k]),
        bounds[at[k]],
        (at[k] + 1) as nat,
    )) by {
        assert(t.children[2 * k + 3] == b[2 * k + 1]);
    }
    assert(crate::select::selects(at, n, shot_at(bounds)));
    assert(shows_shots(t, src, bounds, length));
    let m = crate::adapt::draft(src, a);
    assert(m.children[1] == MarkupChildView::Node(t));
    let end = crate::adapt::leaf_view("render"@, seq![("target"@, "out/adapted.mp4"@)]);
    if a.has_audio {
        let sound = crate::adapt::audio_track(src, length);
        assert(m.children[3] == MarkupChildView::Node(sound));
        assert(m.children[5] == MarkupChildView::Node(end));
    } else {
        assert(m.children[3] == MarkupChildView::Node(end));
    }
    assert(are_bounds(bounds, a.cuts_us@, length));
}

/// A draft is read back as it was made.
pub proof fn drafts_read_back(src: Seq<char>, a: Analysis)
    ensures
        crate::parser::document(crate::adapt::draft_text(src, a)) matches Ok(root)
            && crate::writer_laws::shape(root) == crate::adapt::draft(src, a),
{
    lemma_draft_writable(src, a);
    let root = lemma_parsed(crate::adapt::draft(src, a));
}

/// The frames of cuts that lie inside a program, but for its last 50
/// milliseconds, at four frames a second.
pub open spec fn kept_at(frames: Seq<u64>, duration_us: u64) -> spec_fn(int) -> bool {
    |i: int| 0 < frames[i] * 250_000 < duration_us - 50_000
}

/// The cut times of a file are those of the frames at which cuts were called,
/// a quarter of a second each, those at its end left out.
pub proof fn cut_times_are_the_frames(frames: Seq<u64>, duration_us: u64)
    requires
        duration_us <= i64::MAX,
    ensures
        exists|at: Seq<int>|
            {
                let t = crate::adapt::cut_times(frames, duration_us, frames.len() as int);
                &&& #[trigger] crate::select::selects(
                    at,
                    frames.len() as int,
                    kept_at(frames, duration_us),
                )
                &&& t.len() == at.len()
                &&& forall|k: int|
                    0 <= k < at.len() ==> #[trigger] t[k] == frames[at[k]] * 250_000
            },
{
    let at = lemma_cut_times(frames, duration_us, frames.len() as int);
    assert(crate::select::selects(at, frames.len() as int, kept_at(frames, duration_us)));
}

proof fn lemma_cut_times(frames: Seq<u64>, duration_us: u64, n: int) -> (at: Seq<int>)
    requires
        duration_us <= i64::MAX,
        0 <= n <= frames.len(),
    ensures
        crate::select::selects(at, n, kept_at(frames, duration_us)),
        crate::adapt::cut_times(frames, duration_us, n).len() == at.len(),
        forall|k: int|
            0 <= k < at.len() ==> #[trigger] crate::adapt::cut_times(frames, duration_us, n)[k]
                == frames[at[k]] * 250_000,
    decreases n,
{
    let keep = kept_at(frames, duration_us);
    if n == 0 {
        crate::select::lemma_select_none(keep);
        Seq::empty()
    } else {
        let at = lemma_cut_times(frames, duration_us, n - 1);
        assert(crate::adapt::frame_time(frames[n - 1]) == frames[n - 1] * 250_000);
        if keep(n - 1) {
            crate::select::lemma_select_take(at, n, keep);
            at.push(n - 1)
        } else {
            crate::select::lemma_select_skip(at, n, keep);
            at
        }
    }
}

} // verus!
