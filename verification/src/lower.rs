//! Lowering: raw tree to typed scene. Collects every diagnostic it can rather
//! than failing on the first, so that all problems of a scene show in one
//! pass.
//!
//! Each step is a specification function from the state before it (the
//! findings so far and the symbol tables) to the state after it and what it
//! made of the markup; the code is proved to take exactly these steps.

use vstd::prelude::*;

use crate::anchor::{
    Anchor, AnchorRange, AnchorRangeView, AnchorRef, AnchorRefView, AnchorView, BindPath,
    Granularity,
};
use crate::diagnostic::{has_errors, Diagnostic, DiagnosticView};
use crate::json::is_json_object;
use crate::number::{Number, NumberView};
use crate::raw::{RawAttr, RawAttrView, RawChild, RawChildView, RawNode, RawNodeView};
use crate::scene::{
    parse_gain_db, parse_secs, AnimKind, Canvas, CaptionStyle, Color, Element, ElementKind,
    ElementKindView, ElementView, Placement, PlacementView, Rational, RenderTarget,
    RenderTargetView, Scene, SceneView, Script, ScriptLine, ScriptLineView, ScriptView,
    TextContent, TextContentView, Track, TrackKind, TrackView,
};
use crate::span::Span;
use crate::text::{cat2, cat3, cat5, chars_of, contains, dec_text, text_eq};

verus! {

/// The state of a lowering: findings so far, the `<line id>` values and track
/// ids seen (none twice), and the script's timing source and span.
pub struct LowerView {
    pub diags: Seq<DiagnosticView>,
    pub cues: Seq<Seq<char>>,
    pub tracks: Seq<Seq<char>>,
    pub script_track: Option<Seq<char>>,
    pub script_span: Option<Span>,
}

pub open spec fn with_error(st: LowerView, span: Span, message: Seq<char>) -> LowerView {
    LowerView {
        diags: st.diags.push(crate::diagnostic::error_view(message, Some(span))),
        ..st
    }
}

pub open spec fn with_warning(st: LowerView, span: Span, message: Seq<char>) -> LowerView {
    LowerView {
        diags: st.diags.push(crate::diagnostic::warning_view(message, Some(span))),
        ..st
    }
}

// Attributes.

/// A required attribute; its absence is an error.
pub open spec fn required(st: LowerView, node: RawNodeView, name: Seq<char>) -> (
    LowerView,
    Option<RawAttrView>,
) {
    match node.attr(name) {
        Some(a) => (st, Some(a)),
        None => (
            with_error(
                st,
                node.name_span,
                "<"@ + node.name + "> requires `"@ + name + "`"@,
            ),
            None,
        ),
    }
}

/// Some `/`-separated part of a path is `..`.
pub open spec fn has_parent_dir(path: Seq<char>) -> bool {
    exists|i: int| #[trigger] parent_dir_at(path, i)
}

pub open spec fn parent_dir_at(path: Seq<char>, i: int) -> bool {
    &&& 0 <= i && i + 2 <= path.len()
    &&& path[i] == '.' && path[i + 1] == '.'
    &&& i == 0 || path[i - 1] == '/'
    &&& i + 2 == path.len() || path[i + 2] == '/'
}

/// Required `src` plus a parent-dir advisory: a project is meant to be
/// self-contained. URLs pass.
pub open spec fn source(st: LowerView, node: RawNodeView) -> (LowerView, Option<RawAttrView>) {
    let (st1, found) = required(st, node, "src"@);
    match found {
        Some(a) => if !crate::text::contains_text(a.value, "://"@) && has_parent_dir(a.value) {
            (
                with_warning(
                    st1,
                    a.value_span,
                    "src path contains `..` — it may escape the project root"@,
                ),
                Some(a),
            )
        } else {
            (st1, Some(a))
        },
        None => (st1, None),
    }
}

/// A warning for each of the first `n` attributes whose name is not allowed.
pub open spec fn unknown_attrs(
    st: LowerView,
    node: RawNodeView,
    allowed: Seq<Seq<char>>,
    n: int,
) -> LowerView
    decreases n,
{
    if n <= 0 || n > node.attrs.len() {
        st
    } else {
        let before = unknown_attrs(st, node, allowed, n - 1);
        let a = node.attrs[n - 1];
        if allowed.contains(a.name) {
            before
        } else {
            with_warning(
                before,
                a.name_span,
                "unknown attribute `"@ + a.name + "` on <"@ + node.name + ">"@,
            )
        }
    }
}

pub open spec fn checked_attrs(
    st: LowerView,
    node: RawNodeView,
    allowed: Seq<Seq<char>>,
) -> LowerView {
    unknown_attrs(st, node, allowed, node.attrs.len() as int)
}

/// The attributes every element accepts.
pub open spec fn common_attrs() -> Seq<Seq<char>> {
    seq!["id"@, "during"@, "at"@, "anim"@]
}

pub open spec fn without_text(st: LowerView, node: RawNodeView) -> LowerView {
    match node.text_content() {
        Some((_, span)) => with_error(
            st,
            span,
            "unexpected text inside <"@ + node.name + ">"@,
        ),
        None => st,
    }
}

/// What became of parsing a value: the value, or an error at its span.
pub open spec fn settled<T>(st: LowerView, span: Span, r: Result<T, Seq<char>>) -> (
    LowerView,
    Option<T>,
) {
    match r {
        Ok(v) => (st, Some(v)),
        Err(m) => (with_error(st, span, m), None),
    }
}

/// An attribute that is read by `f` where it is given.
pub open spec fn optional<T>(
    st: LowerView,
    node: RawNodeView,
    name: Seq<char>,
    f: spec_fn(Seq<char>) -> Result<T, Seq<char>>,
) -> (LowerView, Option<T>) {
    match node.attr(name) {
        Some(a) => settled(st, a.value_span, f(a.value)),
        None => (st, None),
    }
}

/// A required attribute that `f` must also read.
pub open spec fn required_parse<T>(
    st: LowerView,
    node: RawNodeView,
    name: Seq<char>,
    f: spec_fn(Seq<char>) -> Result<T, Seq<char>>,
) -> (LowerView, Option<T>) {
    let (st1, found) = required(st, node, name);
    match found {
        Some(a) => settled(st1, a.value_span, f(a.value)),
        None => (st1, None),
    }
}

pub open spec fn value_of(node: RawNodeView, name: Seq<char>) -> Option<Seq<char>> {
    match node.attr(name) {
        Some(a) => Some(a.value),
        None => None,
    }
}

/// `or_else` with a default.
pub open spec fn or_default<T>(v: Option<T>, d: T) -> T {
    match v {
        Some(x) => x,
        None => d,
    }
}

pub open spec fn zero() -> NumberView {
    NumberView::Finite { negative: false, mantissa: 0, exponent: 0 }
}

// Element kinds.

pub open spec fn clip_kind(st: LowerView, node: RawNodeView) -> (
    LowerView,
    Option<ElementKindView>,
) {
    let st1 = checked_attrs(st, node, seq!["src"@, "from"@] + common_attrs());
    let (st2, src) = source(st1, node);
    let (st3, from) = optional(st2, node, "from"@, |v: Seq<char>| crate::scene::secs(v));
    match src {
        Some(a) => (
            st3,
            Some(ElementKindView::Clip { src: a.value, from_s: or_default(from, zero()) }),
        ),
        None => (st3, None),
    }
}

pub open spec fn image_kind(st: LowerView, node: RawNodeView) -> (
    LowerView,
    Option<ElementKindView>,
) {
    let st1 = checked_attrs(st, node, seq!["src"@] + common_attrs());
    let (st2, src) = source(st1, node);
    match src {
        Some(a) => (st2, Some(ElementKindView::Image { src: a.value })),
        None => (st2, None),
    }
}

pub open spec fn text_kind(st: LowerView, node: RawNodeView) -> (
    LowerView,
    Option<ElementKindView>,
) {
    let st1 = checked_attrs(st, node, seq!["bind"@] + common_attrs());
    let (st2, bind) = optional(st1, node, "bind"@, |v: Seq<char>| crate::anchor::bind_path(v));
    match (bind, node.text_content()) {
        (Some(path), found) => (
            match found {
                Some((_, span)) => with_warning(
                    st2,
                    span,
                    "text content is ignored when `bind` is set"@,
                ),
                None => st2,
            },
            Some(ElementKindView::Text { content: TextContentView::Bind(path) }),
        ),
        (None, Some((text, _))) => (
            st2,
            Some(ElementKindView::Text { content: TextContentView::Literal(text) }),
        ),
        (None, None) => (
            with_error(st2, node.name_span, "<text> needs content or a `bind` attribute"@),
            None,
        ),
    }
}

pub open spec fn caption_style(v: Seq<char>) -> Result<CaptionStyle, Seq<char>> {
    if v == "karaoke"@ {
        Ok(CaptionStyle::Karaoke)
    } else if v == "block"@ {
        Ok(CaptionStyle::Block)
    } else {
        Err("unknown caption style `"@ + v + "` (karaoke|block)"@)
    }
}

pub open spec fn captions_kind(st: LowerView, node: RawNodeView) -> (
    LowerView,
    Option<ElementKindView>,
) {
    let st1 = checked_attrs(st, node, seq!["style"@, "anchor"@] + common_attrs());
    let (st2, given) = optional(st1, node, "style"@, |v: Seq<char>| caption_style(v));
    let style = or_default(given, CaptionStyle::Karaoke);
    let (st3, anchor) = optional(st2, node, "anchor"@, |v: Seq<char>| crate::anchor::anchor_ref(v));
    match (anchor, st3.script_track) {
        (Some(source), _) => (st3, Some(ElementKindView::Captions { style, source })),
        (None, Some(track)) => (
            st3,
            Some(
                ElementKindView::Captions {
                    style,
                    source: AnchorRefView { source: track, granularity: Granularity::Word },
                },
            ),
        ),
        (None, None) => (
            with_error(
                st3,
                node.name_span,
                "<captions> needs `anchor` when the scene has no <script>"@,
            ),
            None,
        ),
    }
}

/// `<music>` and `<sound>`; ducking is for music alone.
pub open spec fn audio_kind(st: LowerView, node: RawNodeView) -> (
    LowerView,
    Option<ElementKindView>,
) {
    let st1 = checked_attrs(st, node, seq!["src"@, "gain"@, "duck"@, "from"@] + common_attrs());
    let (st2, src) = source(st1, node);
    let (st3, gain) = optional(st2, node, "gain"@, |v: Seq<char>| crate::scene::gain_db(v));
    let (st4, from) = optional(st3, node, "from"@, |v: Seq<char>| crate::scene::secs(v));
    let gain_db = or_default(gain, zero());
    let from_s = or_default(from, zero());
    match src {
        None => (st4, None),
        Some(a) => if node.name == "music"@ {
            (
                st4,
                Some(
                    ElementKindView::Music {
                        src: a.value,
                        gain_db,
                        duck: value_of(node, "duck"@),
                        from_s,
                    },
                ),
            )
        } else {
            (
                match node.attr("duck"@) {
                    Some(d) => with_warning(
                        st4,
                        d.name_span,
                        "`duck` has no effect on <sound> (use <music>)"@,
                    ),
                    None => st4,
                },
                Some(ElementKindView::Sound { src: a.value, gain_db, from_s }),
            )
        },
    }
}

pub open spec fn program_kind(st: LowerView, node: RawNodeView) -> (
    LowerView,
    Option<ElementKindView>,
) {
    let st1 = checked_attrs(st, node, seq!["src"@, "with"@] + common_attrs());
    let (st2, src) = source(st1, node);
    let st3 = match node.attr("with"@) {
        Some(w) => match with_finding(crate::json::json_is_object(w.value), w.name_span) {
            Some(d) => LowerView { diags: st2.diags.push(d), ..st2 },
            None => st2,
        },
        None => st2,
    };
    match src {
        Some(a) => (
            st3,
            Some(ElementKindView::Program { src: a.value, with: value_of(node, "with"@) }),
        ),
        None => (st3, None),
    }
}

/// A `with` payload that is not a JSON object is an error.
pub open spec fn with_finding(is_object: bool, span: Span) -> Option<DiagnosticView> {
    if is_object {
        None
    } else {
        Some(
            crate::diagnostic::error_view("`with` must be a JSON object literal"@, Some(span)),
        )
    }
}

pub open spec fn element_kind(st: LowerView, node: RawNodeView) -> (
    LowerView,
    Option<ElementKindView>,
) {
    if node.name == "clip"@ {
        clip_kind(st, node)
    } else if node.name == "image"@ {
        image_kind(st, node)
    } else if node.name == "text"@ {
        text_kind(st, node)
    } else if node.name == "board"@ {
        (checked_attrs(st, node, common_attrs()), Some(ElementKindView::Board))
    } else if node.name == "captions"@ {
        captions_kind(st, node)
    } else if node.name == "music"@ || node.name == "sound"@ {
        audio_kind(st, node)
    } else if node.name == "program"@ {
        program_kind(st, node)
    } else {
        (
            with_error(
                st,
                node.name_span,
                "unknown element <"@ + node.name
                    + "> (known: clip, image, text, board, captions, music, sound, program)"@,
            ),
            None,
        )
    }
}

// Elements.

pub struct Common {
    pub st: LowerView,
    pub timing: Option<AnchorRangeView>,
    pub placement: Option<PlacementView>,
    pub anim: Option<AnimKind>,
}

/// The attributes that every element accepts.
pub open spec fn common(st: LowerView, node: RawNodeView) -> Common {
    let (st1, timing) = optional(
        st,
        node,
        "during"@,
        |v: Seq<char>| crate::anchor::anchor_range(v),
    );
    let (st2, placement) = optional(st1, node, "at"@, |v: Seq<char>| crate::scene::placement(v));
    let (st3, anim) = optional(st2, node, "anim"@, |v: Seq<char>| crate::scene::anim_kind(v));
    Common { st: st3, timing, placement, anim }
}

/// Only boards keep children, and only texts hold text.
pub open spec fn finished(
    st: LowerView,
    node: RawNodeView,
    kind: ElementKindView,
    c: Common,
    children: Seq<ElementView>,
) -> (LowerView, ElementView) {
    let barren = node.name != "board"@ && children.len() > 0;
    let st1 = if barren {
        with_error(
            st,
            node.name_span,
            "<"@ + node.name + "> does not take child elements"@,
        )
    } else {
        st
    };
    let st2 = if node.name != "text"@ {
        without_text(st1, node)
    } else {
        st1
    };
    (
        st2,
        ElementView {
            id: value_of(node, "id"@),
            kind,
            timing: c.timing,
            placement: c.placement,
            anim: c.anim,
            children: if barren {
                Seq::empty()
            } else {
                children
            },
            span: node.span,
        },
    )
}

pub open spec fn element(st: LowerView, node: RawNodeView) -> (LowerView, Option<ElementView>)
    decreases node, 0int,
{
    let (st1, kind) = element_kind(st, node);
    match kind {
        None => (st1, None),
        Some(k) => {
            let c = common(st1, node);
            let (st2, children) = elements(c.st, node.children, node.children.len() as int);
            let (st3, e) = finished(st2, node, k, c, children);
            (st3, Some(e))
        },
    }
}

/// The elements among the first `n` children, those that could not be lowered
/// left out.
pub open spec fn elements(st: LowerView, children: Seq<RawChildView>, n: int) -> (
    LowerView,
    Seq<ElementView>,
)
    decreases children, n,
{
    if n <= 0 || n > children.len() {
        (st, Seq::empty())
    } else {
        let (st1, done) = elements(st, children, n - 1);
        match children[n - 1] {
            RawChildView::Text { .. } => (st1, done),
            RawChildView::Node(c) => {
                let (st2, e) = element(st1, c);
                match e {
                    Some(v) => (st2, done.push(v)),
                    None => (st2, done),
                }
            },
        }
    }
}

// Tracks, script and render target.

pub open spec fn track_kind(v: Seq<char>) -> Result<TrackKind, Seq<char>> {
    if v == "visual"@ {
        Ok(TrackKind::Visual)
    } else if v == "audio"@ {
        Ok(TrackKind::Audio)
    } else {
        Err("unknown track kind `"@ + v + "` (visual|audio)"@)
    }
}

pub open spec fn track(st: LowerView, node: RawNodeView, index: nat) -> (
    LowerView,
    Option<TrackView>,
) {
    let st1 = checked_attrs(st, node, seq!["kind"@, "id"@, "anchor"@]);
    let (st2, kind) = required_parse(st1, node, "kind"@, |v: Seq<char>| track_kind(v));
    match kind {
        None => (st2, None),
        Some(k) => {
            let id = or_default(value_of(node, "id"@), "track"@ + crate::text::dec(index));
            let st3 = if st2.tracks.contains(id) {
                with_error(st2, node.name_span, "duplicate track id `"@ + id + "`"@)
            } else {
                LowerView { tracks: st2.tracks.push(id), ..st2 }
            };
            let (st4, anchor) = optional(
                st3,
                node,
                "anchor"@,
                |v: Seq<char>| crate::anchor::anchor_ref(v),
            );
            let st5 = without_text(st4, node);
            let (st6, children) = elements(st5, node.children, node.children.len() as int);
            (
                st6,
                Some(
                    TrackView { id, kind: k, anchor, elements: children, span: node.span },
                ),
            )
        },
    }
}

/// An error for each of the first `n` elements.
pub open spec fn refused(
    st: LowerView,
    nodes: Seq<RawNodeView>,
    message: Seq<char>,
    n: int,
) -> LowerView
    decreases n,
{
    if n <= 0 || n > nodes.len() {
        st
    } else {
        with_error(refused(st, nodes, message, n - 1), nodes[n - 1].name_span, message)
    }
}

pub open spec fn render_target(st: LowerView, node: RawNodeView) -> (
    LowerView,
    Option<RenderTargetView>,
) {
    let st1 = checked_attrs(st, node, seq!["target"@]);
    let st2 = without_text(st1, node);
    let st3 = refused(
        st2,
        node.elements(),
        "<render> takes no elements"@,
        node.elements().len() as int,
    );
    let (st4, target) = required(st3, node, "target"@);
    match target {
        Some(a) => (st4, Some(RenderTargetView { target: a.value, span: node.span })),
        None => (st4, None),
    }
}

/// One child of a script.
pub open spec fn script_line(st: LowerView, child: RawNodeView) -> (
    LowerView,
    Option<ScriptLineView>,
) {
    if child.name != "line"@ {
        (
            with_error(
                st,
                child.name_span,
                "unexpected <"@ + child.name + "> inside <script> (only <line> is allowed)"@,
            ),
            None,
        )
    } else {
        let st1 = checked_attrs(st, child, seq!["id"@]);
        let (st2, found) = required(st1, child, "id"@);
        match found {
            None => (st2, None),
            Some(a) => {
                let st3 = if st2.cues.contains(a.value) {
                    with_error(st2, a.value_span, "duplicate line id `"@ + a.value + "`"@)
                } else {
                    LowerView { cues: st2.cues.push(a.value), ..st2 }
                };
                let st4 = refused(
                    st3,
                    child.elements(),
                    "<line> takes text only, not elements"@,
                    child.elements().len() as int,
                );
                match child.text_content() {
                    Some((text, span)) => (
                        st4,
                        Some(ScriptLineView { id: a.value, text, span }),
                    ),
                    None => (
                        with_error(
                            st4,
                            child.name_span,
                            "<line id=\""@ + a.value + "\"> is empty"@,
                        ),
                        None,
                    ),
                }
            },
        }
    }
}

pub open spec fn script_lines(st: LowerView, nodes: Seq<RawNodeView>, n: int) -> (
    LowerView,
    Seq<ScriptLineView>,
)
    decreases n,
{
    if n <= 0 || n > nodes.len() {
        (st, Seq::empty())
    } else {
        let (st1, lines) = script_lines(st, nodes, n - 1);
        let (st2, line) = script_line(st1, nodes[n - 1]);
        match line {
            Some(l) => (st2, lines.push(l)),
            None => (st2, lines),
        }
    }
}

pub open spec fn script(st: LowerView, node: RawNodeView) -> (LowerView, Option<ScriptView>) {
    let st1 = checked_attrs(st, node, seq!["track"@, "voice"@]);
    let st2 = LowerView { script_span: Some(node.span), ..st1 };
    let (st3, track) = required(st2, node, "track"@);
    let st4 = match track {
        Some(t) => LowerView { script_track: Some(t.value), ..st3 },
        None => st3,
    };
    let (st5, lines) = script_lines(st4, node.elements(), node.elements().len() as int);
    let st6 = if lines.len() == 0 {
        with_error(st5, node.name_span, "<script> has no <line> children"@)
    } else {
        st5
    };
    match track {
        Some(t) => (
            st6,
            Some(
                ScriptView {
                    track: t.value,
                    voice: value_of(node, "voice"@),
                    lines,
                    span: node.span,
                },
            ),
        ),
        None => (st6, None),
    }
}

// Cross-references.

/// Order by code points, the order of the texts' bytes.
pub open spec fn text_before(a: Seq<char>, b: Seq<char>) -> bool
    decreases a.len(),
{
    if b.len() == 0 {
        false
    } else if a.len() == 0 {
        true
    } else if a[0] != b[0] {
        a[0] < b[0]
    } else {
        text_before(a.drop_first(), b.drop_first())
    }
}

/// `x` put in its place among the sorted first `n` members of `s`.
pub open spec fn inserted(s: Seq<Seq<char>>, x: Seq<char>) -> Seq<Seq<char>>
    decreases s.len(),
{
    if s.len() == 0 || !text_before(x, s.last()) {
        s.push(x)
    } else {
        inserted(s.drop_last(), x).push(s.last())
    }
}

/// The members in order.
pub open spec fn sorted(s: Seq<Seq<char>>) -> Seq<Seq<char>>
    decreases s.len(),
{
    if s.len() == 0 {
        s
    } else {
        inserted(sorted(s.drop_last()), s.last())
    }
}

/// The texts with `sep` between them.
pub open spec fn join(s: Seq<Seq<char>>, sep: Seq<char>) -> Seq<char>
    decreases s.len(),
{
    if s.len() == 0 {
        Seq::empty()
    } else if s.len() == 1 {
        s[0]
    } else {
        join(s.drop_last(), sep) + sep + s.last()
    }
}

pub open spec fn known_cues(st: LowerView) -> Seq<char> {
    join(sorted(st.cues), ", "@)
}

pub open spec fn valid_source(st: LowerView, source: Seq<char>) -> bool {
    st.script_track == Some(source) || st.tracks.contains(source)
}

/// A cue must be a line of the script.
pub open spec fn cue_check(st: LowerView, a: AnchorView, span: Span) -> LowerView {
    match a {
        AnchorView::Cue { cue, .. } => if st.cues.contains(cue) {
            st
        } else {
            with_error(
                st,
                span,
                "unknown cue `"@ + cue + "` (known: "@ + known_cues(st) + ")"@,
            )
        },
        AnchorView::Literal { .. } => st,
    }
}

pub open spec fn kind_check(st: LowerView, kind: ElementKindView, span: Span) -> LowerView {
    match kind {
        ElementKindView::Captions { source, .. } => if valid_source(st, source.source) {
            st
        } else {
            with_error(st, span, "unknown timing source `"@ + source.source + "`"@)
        },
        ElementKindView::Text { content: TextContentView::Bind(path) } => if st.cues.contains(
            path.line,
        ) {
            st
        } else {
            with_error(
                st,
                span,
                "bind target `"@ + path.line + "` is not a script line"@,
            )
        },
        ElementKindView::Music { duck: Some(target), .. } => if st.tracks.contains(target) {
            st
        } else {
            with_error(st, span, "duck target `"@ + target + "` is not a track"@)
        },
        _ => st,
    }
}

pub open spec fn element_check(st: LowerView, e: ElementView) -> LowerView {
    let st1 = match e.timing {
        Some(t) => cue_check(cue_check(st, t.start, e.span), t.end, e.span),
        None => st,
    };
    kind_check(st1, e.kind, e.span)
}

/// The references of an element, then those of its children, last child
/// first.
pub open spec fn tree_check(st: LowerView, e: ElementView) -> LowerView
    decreases e, 0int,
{
    list_check(element_check(st, e), e.children, e.children.len() as int)
}

/// The references of the first `n` elements of a list, the last one first.
pub open spec fn list_check(st: LowerView, s: Seq<ElementView>, n: int) -> LowerView
    decreases s, n,
{
    if n <= 0 || n > s.len() {
        st
    } else {
        list_check(tree_check(st, s[n - 1]), s, n - 1)
    }
}

pub open spec fn track_check(st: LowerView, t: TrackView) -> LowerView {
    let st1 = match t.anchor {
        Some(a) => if valid_source(st, a.source) {
            st
        } else {
            with_error(st, t.span, "unknown timing source `"@ + a.source + "`"@)
        },
        None => st,
    };
    list_check(st1, t.elements, t.elements.len() as int)
}

pub open spec fn tracks_check(st: LowerView, tracks: Seq<TrackView>, n: int) -> LowerView
    decreases n,
{
    if n <= 0 || n > tracks.len() {
        st
    } else {
        track_check(tracks_check(st, tracks, n - 1), tracks[n - 1])
    }
}

/// The first track of an id, from `i` on.
pub open spec fn find_track(tracks: Seq<TrackView>, id: Seq<char>, i: int) -> Option<TrackView>
    decreases tracks.len() - i,
{
    if i < 0 || i >= tracks.len() {
        None
    } else if tracks[i].id == id {
        Some(tracks[i])
    } else {
        find_track(tracks, id, i + 1)
    }
}

/// The script's timing source must be a real audio track.
pub open spec fn script_check(st: LowerView, tracks: Seq<TrackView>) -> LowerView {
    match (st.script_track, st.script_span) {
        (Some(source), Some(span)) => match find_track(tracks, source, 0) {
            Some(t) => if t.kind != TrackKind::Audio {
                with_error(st, span, "script track `"@ + source + "` names a visual track"@)
            } else {
                st
            },
            None => with_error(
                st,
                span,
                "script track `"@ + source + "` has no matching <track id>"@,
            ),
        },
        _ => st,
    }
}

/// Reference checks that need the full symbol tables.
pub open spec fn references(st: LowerView, tracks: Seq<TrackView>) -> LowerView {
    tracks_check(script_check(st, tracks), tracks, tracks.len() as int)
}

// The scene.

/// What the children of the root have made so far.
pub struct Build {
    pub st: LowerView,
    pub script: Option<ScriptView>,
    pub tracks: Seq<TrackView>,
    pub render: Option<RenderTargetView>,
}

pub open spec fn root_child(b: Build, child: RawNodeView, index: nat) -> Build {
    if child.name == "script"@ {
        if b.script is Some {
            Build { st: with_error(b.st, child.name_span, "duplicate <script>"@), ..b }
        } else {
            let (st, s) = script(b.st, child);
            Build { st, script: s, ..b }
        }
    } else if child.name == "track"@ {
        let (st, t) = track(b.st, child, index);
        match t {
            Some(v) => Build { st, tracks: b.tracks.push(v), ..b },
            None => Build { st, ..b },
        }
    } else if child.name == "render"@ {
        if b.render is Some {
            Build { st: with_error(b.st, child.name_span, "duplicate <render>"@), ..b }
        } else {
            let (st, r) = render_target(b.st, child);
            Build { st, render: r, ..b }
        }
    } else {
        Build {
            st: with_error(
                b.st,
                child.name_span,
                "unexpected <"@ + child.name + "> (allowed: script, track, render)"@,
            ),
            ..b
        }
    }
}

pub open spec fn root_children(st: LowerView, nodes: Seq<RawNodeView>, n: int) -> Build
    decreases n,
{
    if n <= 0 || n > nodes.len() {
        Build { st, script: None, tracks: Seq::empty(), render: None }
    } else {
        root_child(root_children(st, nodes, n - 1), nodes[n - 1], (n - 1) as nat)
    }
}

/// The timing source of the first `<script>` that names one: known before any
/// track is lowered, wherever the script stands.
pub open spec fn first_script_track(nodes: Seq<RawNodeView>, i: int) -> Option<Seq<char>>
    decreases nodes.len() - i,
{
    if i < 0 || i >= nodes.len() {
        None
    } else if nodes[i].name == "script"@ && nodes[i].attr("track"@) is Some {
        value_of(nodes[i], "track"@)
    } else {
        first_script_track(nodes, i + 1)
    }
}

pub open spec fn scene(st: LowerView, root: RawNodeView) -> (LowerView, Option<SceneView>) {
    if root.name != "scene"@ {
        (
            with_error(
                st,
                root.name_span,
                "expected <scene>, found <"@ + root.name + ">"@,
            ),
            None,
        )
    } else {
        let st1 = checked_attrs(st, root, seq!["canvas"@, "fps"@, "clear"@]);
        let (st2, canvas) = required_parse(
            st1,
            root,
            "canvas"@,
            |v: Seq<char>| crate::scene::canvas(v),
        );
        let (st3, frame_rate) = required_parse(
            st2,
            root,
            "fps"@,
            |v: Seq<char>| crate::scene::rational(v),
        );
        let (st4, given) = optional(st3, root, "clear"@, |v: Seq<char>| crate::scene::color(v));
        let clear = or_default(given, Color { r: 0, g: 0, b: 0, a: 0 });
        let st5 = without_text(st4, root);
        let nodes = root.elements();
        let st6 = match first_script_track(nodes, 0) {
            Some(t) => LowerView { script_track: Some(t), ..st5 },
            None => st5,
        };
        let b = root_children(st6, nodes, nodes.len() as int);
        let st7 = references(b.st, b.tracks);
        let st8 = if b.tracks.len() == 0 {
            with_warning(
                st7,
                root.span,
                "scene declares no tracks; it will render nothing"@,
            )
        } else {
            st7
        };
        match (canvas, frame_rate) {
            (Some(c), Some(f)) => (
                st8,
                Some(
                    SceneView {
                        canvas: c,
                        frame_rate: f,
                        clear,
                        script: b.script,
                        tracks: b.tracks,
                        render: b.render,
                    },
                ),
            ),
            _ => (st8, None),
        }
    }
}

pub open spec fn fresh() -> LowerView {
    LowerView {
        diags: Seq::empty(),
        cues: Seq::empty(),
        tracks: Seq::empty(),
        script_track: None,
        script_span: None,
    }
}

/// The scene, unless an error was found, and all findings.
pub open spec fn lowered(root: RawNodeView) -> (Option<SceneView>, Seq<DiagnosticView>) {
    let (st, s) = scene(fresh(), root);
    if crate::diagnostic::any_error(st.diags) {
        (None, st.diags)
    } else {
        (s, st.diags)
    }
}

// Code.

fn listed(names: &Vec<String>, x: &str) -> (r: bool)
    ensures
        r == crate::text::text_views(names@).contains(x@),
{
    let mut i: usize = 0;
    while i < names.len()
        invariant
            i <= names@.len(),
            forall|k: int| 0 <= k < i ==> #[trigger] crate::text::text_views(names@)[k] != x@,
        decreases names@.len() - i,
    {
        if text_eq(names[i].as_str(), x) {
            assert(crate::text::text_views(names@)[i as int] == x@);
            return true;
        }
        i = i + 1;
    }
    false
}

fn allows(names: &[&str], x: &str) -> (r: bool)
    ensures
        r == crate::text::str_views(names@).contains(x@),
{
    let mut i: usize = 0;
    while i < names.len()
        invariant
            i <= names@.len(),
            forall|k: int| 0 <= k < i ==> #[trigger] crate::text::str_views(names@)[k] != x@,
        decreases names@.len() - i,
    {
        if text_eq(names[i], x) {
            assert(crate::text::str_views(names@)[i as int] == x@);
            return true;
        }
        i = i + 1;
    }
    false
}

/// Element-specific attributes plus the common set every element accepts.
pub fn with_common(extra: &[&'static str]) -> (r: Vec<&'static str>)
    ensures
        crate::text::str_views(r@) == crate::text::str_views(extra@) + common_attrs(),
{
    let mut all: Vec<&'static str> = Vec::new();
    let mut i: usize = 0;
    while i < extra.len()
        invariant
            i <= extra@.len(),
            all@ == extra@.take(i as int),
        decreases extra@.len() - i,
    {
        all.push(extra[i]);
        assert(extra@.take(i + 1) =~= extra@.take(i as int).push(extra@[i as int]));
        i = i + 1;
    }
    assert(all@ =~= extra@);
    all.push("id");
    all.push("during");
    all.push("at");
    all.push("anim");
    assert(crate::text::str_views(all@) =~= crate::text::str_views(extra@) + common_attrs());
    all
}

fn parent_dir(path: &str) -> (r: bool)
    ensures
        r == has_parent_dir(path@),
{
    let cs = chars_of(path);
    let n = cs.len();
    let mut i: usize = 0;
    while i < n && n - i >= 2
        invariant
            i <= n == cs@.len(),
            cs@ == path@,
            forall|k: int| 0 <= k < i ==> !#[trigger] parent_dir_at(path@, k),
        decreases n - i,
    {
        if cs[i] == '.' && cs[i + 1] == '.' && (i == 0 || cs[i - 1] == '/') && (n - i == 2 || cs[i
            + 2] == '/') {
            assert(parent_dir_at(path@, i as int));
            return true;
        }
        i = i + 1;
    }
    false
}

/// The finding for a `with` payload, given whether it is a JSON object.
pub fn check_with(is_object: bool, span: Span) -> (r: Option<Diagnostic>)
    ensures
        match r {
            Some(d) => with_finding(is_object, span) == Some(d@),
            None => with_finding(is_object, span) is None,
        },
{
    if is_object {
        None
    } else {
        Some(Diagnostic::error("`with` must be a JSON object literal".to_owned(), Some(span)))
    }
}

fn attr_value(node: &RawNode, name: &str) -> (r: Option<String>)
    ensures
        crate::scene::text_view(r) == value_of(node@, name@),
{
    match node.attr(name) {
        Some(a) => Some(a.value.clone()),
        None => None,
    }
}

struct Lower {
    diags: Vec<Diagnostic>,
    /// `<line id>` values seen in the script; anchors resolve against them.
    cue_ids: Vec<String>,
    track_ids: Vec<String>,
    /// `script track="..."`, the timing source anchors may name.
    script_track: Option<String>,
    /// Span of the `<script>` element, for cross-reference diagnostics.
    script_span: Option<Span>,
}

impl Lower {
    spec fn view(&self) -> LowerView {
        LowerView {
            diags: crate::diagnostic::views(self.diags@),
            cues: crate::text::text_views(self.cue_ids@),
            tracks: crate::text::text_views(self.track_ids@),
            script_track: crate::scene::text_view(self.script_track),
            script_span: self.script_span,
        }
    }

    fn push(&mut self, d: Diagnostic)
        ensures
            final(self)@ == (LowerView { diags: old(self)@.diags.push(d@), ..old(self)@ }),
    {
        proof {
            crate::diagnostic::lemma_views_push(self.diags@, d);
        }
        self.diags.push(d);
    }

    fn error(&mut self, span: Span, message: String)
        ensures
            final(self)@ == with_error(old(self)@, span, message@),
    {
        self.push(Diagnostic::error(message, Some(span)));
    }

    fn warning(&mut self, span: Span, message: String)
        ensures
            final(self)@ == with_warning(old(self)@, span, message@),
    {
        self.push(Diagnostic::warning(message, Some(span)));
    }

    /// Required attribute; on absence emits an error and returns `None`.
    fn req_attr<'a>(&mut self, node: &'a RawNode, name: &str) -> (r: Option<&'a RawAttr>)
        ensures
            final(self)@ == required(old(self)@, node@, name@).0,
            match r {
                Some(a) => required(old(self)@, node@, name@).1 == Some(a@),
                None => required(old(self)@, node@, name@).1 is None,
            },
    {
        match node.attr(name) {
            Some(a) => Some(a),
            None => {
                self.error(
                    node.name_span,
                    cat5("<", node.name.as_str(), "> requires `", name, "`"),
                );
                None
            },
        }
    }

    /// Required `src` plus a parent-dir advisory.
    fn src_attr<'a>(&mut self, node: &'a RawNode) -> (r: Option<&'a RawAttr>)
        ensures
            final(self)@ == source(old(self)@, node@).0,
            match r {
                Some(a) => source(old(self)@, node@).1 == Some(a@),
                None => source(old(self)@, node@).1 is None,
            },
    {
        let a = match self.req_attr(node, "src") {
            Some(a) => a,
            None => {
                return None;
            },
        };
        if !contains(a.value.as_str(), "://") && parent_dir(a.value.as_str()) {
            self.warning(
                a.value_span,
                "src path contains `..` — it may escape the project root".to_owned(),
            );
        }
        Some(a)
    }

    /// Warn on attributes outside `allowed` so that the vocabulary stays
    /// honest but forward-compatible.
    fn check_attrs(&mut self, node: &RawNode, allowed: &[&str])
        ensures
            final(self)@ == checked_attrs(old(self)@, node@, crate::text::str_views(allowed@)),
    {
        let mut i: usize = 0;
        while i < node.attrs.len()
            invariant
                i <= node.attrs@.len(),
                self@ == unknown_attrs(old(self)@, node@, crate::text::str_views(allowed@), i as int),
            decreases node.attrs@.len() - i,
        {
            let a = &node.attrs[i];
            assert(node@.attrs[i as int] == a@);
            if !allows(allowed, a.name.as_str()) {
                self.warning(
                    a.name_span,
                    cat5(
                        "unknown attribute `",
                        a.name.as_str(),
                        "` on <",
                        node.name.as_str(),
                        ">",
                    ),
                );
            }
            i = i + 1;
        }
    }

    fn no_text(&mut self, node: &RawNode)
        ensures
            final(self)@ == without_text(old(self)@, node@),
    {
        match node.text_content() {
            Some(t) => self.error(
                t.1,
                cat3("unexpected text inside <", node.name.as_str(), ">"),
            ),
            None => {},
        }
    }

    /// The parsed value, or an error at the value's span.
    fn settle<T>(&mut self, span: Span, r: Result<T, String>) -> (v: Option<T>)
        ensures
            match r {
                Ok(x) => v == Some(x) && final(self)@ == old(self)@,
                Err(m) => v is None && final(self)@ == with_error(old(self)@, span, m@),
            },
    {
        match r {
            Ok(x) => Some(x),
            Err(m) => {
                self.error(span, m);
                None
            },
        }
    }
}

/// A kind and the state it leaves, as code and specification see them.
spec fn kind_is(r: Option<ElementKind>, out: (LowerView, Option<ElementKindView>)) -> bool {
    match r {
        Some(k) => out.1 == Some(k@),
        None => out.1 is None,
    }
}

fn number_or_zero(n: Option<Number>) -> (r: Number)
    ensures
        r@ == (match n {
            Some(v) => v@,
            None => zero(),
        }),
{
    match n {
        Some(v) => v,
        None => Number::zero(),
    }
}

impl Lower {
    fn clip(&mut self, node: &RawNode) -> (r: Option<ElementKind>)
        ensures
            final(self)@ == clip_kind(old(self)@, node@).0,
            kind_is(r, clip_kind(old(self)@, node@)),
    {
        let extra: [&'static str; 2] = ["src", "from"];
        let allowed = with_common(extra.as_slice());
        assert(crate::text::str_views(extra@) =~= seq!["src"@, "from"@]);
        self.check_attrs(node, allowed.as_slice());
        let src = self.src_attr(node);
        let from = match node.attr("from") {
            Some(a) => self.settle(a.value_span, parse_secs(a.value.as_str())),
            None => None,
        };
        match src {
            Some(a) => Some(
                ElementKind::Clip { src: a.value.clone(), from_s: number_or_zero(from) },
            ),
            None => None,
        }
    }

    fn image(&mut self, node: &RawNode) -> (r: Option<ElementKind>)
        ensures
            final(self)@ == image_kind(old(self)@, node@).0,
            kind_is(r, image_kind(old(self)@, node@)),
    {
        let extra: [&'static str; 1] = ["src"];
        let allowed = with_common(extra.as_slice());
        assert(crate::text::str_views(extra@) =~= seq!["src"@]);
        self.check_attrs(node, allowed.as_slice());
        match self.src_attr(node) {
            Some(a) => Some(ElementKind::Image { src: a.value.clone() }),
            None => None,
        }
    }

    fn text(&mut self, node: &RawNode) -> (r: Option<ElementKind>)
        ensures
            final(self)@ == text_kind(old(self)@, node@).0,
            kind_is(r, text_kind(old(self)@, node@)),
    {
        let extra: [&'static str; 1] = ["bind"];
        let allowed = with_common(extra.as_slice());
        assert(crate::text::str_views(extra@) =~= seq!["bind"@]);
        self.check_attrs(node, allowed.as_slice());
        let bind = match node.attr("bind") {
            Some(a) => self.settle(a.value_span, BindPath::parse(a.value.as_str())),
            None => None,
        };
        let found = node.text_content();
        match bind {
            Some(path) => {
                match found {
                    Some(t) => self.warning(
                        t.1,
                        "text content is ignored when `bind` is set".to_owned(),
                    ),
                    None => {},
                }
                Some(ElementKind::Text { content: TextContent::Bind(path) })
            },
            None => match found {
                Some(t) => Some(ElementKind::Text { content: TextContent::Literal(t.0) }),
                None => {
                    self.error(
                        node.name_span,
                        "<text> needs content or a `bind` attribute".to_owned(),
                    );
                    None
                },
            },
        }
    }

    fn captions(&mut self, node: &RawNode) -> (r: Option<ElementKind>)
        ensures
            final(self)@ == captions_kind(old(self)@, node@).0,
            kind_is(r, captions_kind(old(self)@, node@)),
    {
        let extra: [&'static str; 2] = ["style", "anchor"];
        let allowed = with_common(extra.as_slice());
        assert(crate::text::str_views(extra@) =~= seq!["style"@, "anchor"@]);
        self.check_attrs(node, allowed.as_slice());
        let given = match node.attr("style") {
            Some(a) => self.settle(a.value_span, parse_caption_style(a.value.as_str())),
            None => None,
        };
        let style = match given {
            Some(v) => v,
            None => CaptionStyle::Karaoke,
        };
        let anchor = match node.attr("anchor") {
            Some(a) => self.settle(a.value_span, AnchorRef::parse(a.value.as_str())),
            None => None,
        };
        match anchor {
            Some(source) => Some(ElementKind::Captions { style, source }),
            None => match &self.script_track {
                Some(track) => Some(
                    ElementKind::Captions {
                        style,
                        source: AnchorRef {
                            source: track.clone(),
                            granularity: Granularity::Word,
                        },
                    },
                ),
                None => {
                    self.error(
                        node.name_span,
                        "<captions> needs `anchor` when the scene has no <script>".to_owned(),
                    );
                    None
                },
            },
        }
    }

    fn audio(&mut self, node: &RawNode) -> (r: Option<ElementKind>)
        ensures
            final(self)@ == audio_kind(old(self)@, node@).0,
            kind_is(r, audio_kind(old(self)@, node@)),
    {
        let extra: [&'static str; 4] = ["src", "gain", "duck", "from"];
        let allowed = with_common(extra.as_slice());
        assert(crate::text::str_views(extra@) =~= seq!["src"@, "gain"@, "duck"@, "from"@]);
        self.check_attrs(node, allowed.as_slice());
        let src = self.src_attr(node);
        let gain = match node.attr("gain") {
            Some(a) => self.settle(a.value_span, parse_gain_db(a.value.as_str())),
            None => None,
        };
        let from = match node.attr("from") {
            Some(a) => self.settle(a.value_span, parse_secs(a.value.as_str())),
            None => None,
        };
        let gain_db = number_or_zero(gain);
        let from_s = number_or_zero(from);
        match src {
            None => None,
            Some(a) => {
                if text_eq(node.name.as_str(), "music") {
                    Some(
                        ElementKind::Music {
                            src: a.value.clone(),
                            gain_db,
                            duck: attr_value(node, "duck"),
                            from_s,
                        },
                    )
                } else {
                    match node.attr("duck") {
                        Some(d) => self.warning(
                            d.name_span,
                            "`duck` has no effect on <sound> (use <music>)".to_owned(),
                        ),
                        None => {},
                    }
                    Some(ElementKind::Sound { src: a.value.clone(), gain_db, from_s })
                }
            },
        }
    }

    fn program(&mut self, node: &RawNode) -> (r: Option<ElementKind>)
        ensures
            final(self)@ == program_kind(old(self)@, node@).0,
            kind_is(r, program_kind(old(self)@, node@)),
    {
        let extra: [&'static str; 2] = ["src", "with"];
        let allowed = with_common(extra.as_slice());
        assert(crate::text::str_views(extra@) =~= seq!["src"@, "with"@]);
        self.check_attrs(node, allowed.as_slice());
        let src = self.src_attr(node);
        match node.attr("with") {
            Some(w) => match check_with(is_json_object(w.value.as_str()), w.name_span) {
                Some(d) => self.push(d),
                None => {},
            },
            None => {},
        }
        match src {
            Some(a) => Some(
                ElementKind::Program { src: a.value.clone(), with: attr_value(node, "with") },
            ),
            None => None,
        }
    }

    fn kind(&mut self, node: &RawNode) -> (r: Option<ElementKind>)
        ensures
            final(self)@ == element_kind(old(self)@, node@).0,
            kind_is(r, element_kind(old(self)@, node@)),
    {
        let name = node.name.as_str();
        if text_eq(name, "clip") {
            self.clip(node)
        } else if text_eq(name, "image") {
            self.image(node)
        } else if text_eq(name, "text") {
            self.text(node)
        } else if text_eq(name, "board") {
            let none: [&'static str; 0] = [];
            let allowed = with_common(none.as_slice());
            assert(crate::text::str_views(none@) + common_attrs() =~= common_attrs());
            self.check_attrs(node, allowed.as_slice());
            Some(ElementKind::Board)
        } else if text_eq(name, "captions") {
            self.captions(node)
        } else if text_eq(name, "music") || text_eq(name, "sound") {
            self.audio(node)
        } else if text_eq(name, "program") {
            self.program(node)
        } else {
            self.error(
                node.name_span,
                cat3(
                    "unknown element <",
                    name,
                    "> (known: clip, image, text, board, captions, music, sound, program)",
                ),
            );
            None
        }
    }

    fn element(&mut self, node: &RawNode) -> (r: Option<Element>)
        ensures
            final(self)@ == element(old(self)@, node@).0,
            match r {
                Some(e) => element(old(self)@, node@).1 == Some(e.view()),
                None => element(old(self)@, node@).1 is None,
            },
        decreases node, 1int,
    {
        let ghost st0 = self@;
        let kind = match self.kind(node) {
            Some(k) => k,
            None => {
                return None;
            },
        };
        let ghost st1 = self@;
        let timing = match node.attr("during") {
            Some(a) => self.settle(a.value_span, AnchorRange::parse(a.value.as_str())),
            None => None,
        };
        let placement = match node.attr("at") {
            Some(a) => self.settle(a.value_span, Placement::parse(a.value.as_str())),
            None => None,
        };
        let anim = match node.attr("anim") {
            Some(a) => self.settle(a.value_span, AnimKind::parse(a.value.as_str())),
            None => None,
        };
        let ghost c = common(st1, node@);
        assert(c.st == self@);
        assert(c.timing == crate::scene::timing_view(timing));
        assert(c.placement == crate::scene::placement_view(placement));
        assert(c.anim == anim);
        let children = self.element_list(node);
        let ghost st2 = self@;
        let ghost done = crate::scene::element_views(children@);
        let barren = !text_eq(node.name.as_str(), "board") && children.len() > 0;
        if barren {
            self.error(
                node.name_span,
                cat3("<", node.name.as_str(), "> does not take child elements"),
            );
        }
        if !text_eq(node.name.as_str(), "text") {
            self.no_text(node);
        }
        let kept: Vec<Element> = if barren {
            Vec::new()
        } else {
            children
        };
        let e = Element {
            id: attr_value(node, "id"),
            kind,
            timing,
            placement,
            anim,
            children: kept,
            span: node.span,
        };
        proof {
            crate::scene::lemma_children_view(e);
            if barren {
                assert(crate::scene::element_views(kept@) =~= Seq::<ElementView>::empty());
            }
            assert((self@, e.view()) == finished(st2, node@, kind@, c, done));
        }
        Some(e)
    }

    fn element_list(&mut self, node: &RawNode) -> (r: Vec<Element>)
        ensures
            (final(self)@, crate::scene::element_views(r@)) == elements(
                old(self)@,
                node@.children,
                node@.children.len() as int,
            ),
        decreases node, 0int,
    {
        let mut children: Vec<Element> = Vec::new();
        let mut i: usize = 0;
        let ghost kids = node@.children;
        proof {
            crate::raw::lemma_node_view(*node);
            assert(crate::scene::element_views(children@) =~= Seq::<ElementView>::empty());
        }
        while i < node.children.len()
            invariant
                i <= node.children@.len(),
                kids == crate::raw::child_views(node.children@),
                (self@, crate::scene::element_views(children@)) == elements(
                    old(self)@,
                    kids,
                    i as int,
                ),
            decreases node.children@.len() - i,
        {
            let ghost before = crate::scene::element_views(children@);
            assert(kids[i as int] == node.children@[i as int].view());
            match &node.children[i] {
                RawChild::Node(n) => {
                    match self.element(n) {
                        Some(e) => {
                            children.push(e);
                            assert(crate::scene::element_views(children@) =~= before.push(
                                e.view(),
                            ));
                        },
                        None => {},
                    }
                },
                RawChild::Text { .. } => {},
            }
            i = i + 1;
        }
        children
    }
}

fn parse_caption_style(v: &str) -> (r: Result<CaptionStyle, String>)
    ensures
        match r {
            Ok(s) => caption_style(v@) == Ok::<CaptionStyle, Seq<char>>(s),
            Err(e) => caption_style(v@) == Err::<CaptionStyle, Seq<char>>(e@),
        },
{
    if text_eq(v, "karaoke") {
        Ok(CaptionStyle::Karaoke)
    } else if text_eq(v, "block") {
        Ok(CaptionStyle::Block)
    } else {
        Err(cat3("unknown caption style `", v, "` (karaoke|block)"))
    }
}

fn parse_track_kind(v: &str) -> (r: Result<TrackKind, String>)
    ensures
        match r {
            Ok(k) => track_kind(v@) == Ok::<TrackKind, Seq<char>>(k),
            Err(e) => track_kind(v@) == Err::<TrackKind, Seq<char>>(e@),
        },
{
    if text_eq(v, "visual") {
        Ok(TrackKind::Visual)
    } else if text_eq(v, "audio") {
        Ok(TrackKind::Audio)
    } else {
        Err(cat3("unknown track kind `", v, "` (visual|audio)"))
    }
}

impl Lower {
    fn track(&mut self, node: &RawNode, index: usize) -> (r: Option<Track>)
        ensures
            final(self)@ == track(old(self)@, node@, index as nat).0,
            match r {
                Some(t) => track(old(self)@, node@, index as nat).1 == Some(t@),
                None => track(old(self)@, node@, index as nat).1 is None,
            },
    {
        let allowed: [&'static str; 3] = ["kind", "id", "anchor"];
        assert(crate::text::str_views(allowed@) =~= seq!["kind"@, "id"@, "anchor"@]);
        self.check_attrs(node, allowed.as_slice());
        let kind = match self.req_attr(node, "kind") {
            Some(a) => self.settle(a.value_span, parse_track_kind(a.value.as_str())),
            None => None,
        };
        let kind = match kind {
            Some(k) => k,
            None => {
                return None;
            },
        };
        let id = match attr_value(node, "id") {
            Some(v) => v,
            None => {
                let n = dec_text(index as u64);
                cat2("track", n.as_str())
            },
        };
        if listed(&self.track_ids, id.as_str()) {
            self.error(node.name_span, cat3("duplicate track id `", id.as_str(), "`"));
        } else {
            let ghost before = crate::text::text_views(self.track_ids@);
            self.track_ids.push(id.clone());
            assert(crate::text::text_views(self.track_ids@) =~= before.push(id@));
        }
        let anchor = match node.attr("anchor") {
            Some(a) => self.settle(a.value_span, AnchorRef::parse(a.value.as_str())),
            None => None,
        };
        self.no_text(node);
        let elements = self.element_list(node);
        Some(Track { id, kind, anchor, elements, span: node.span })
    }

    fn refuse_elements(&mut self, node: &RawNode, message: &str)
        ensures
            final(self)@ == refused(
                old(self)@,
                node@.elements(),
                message@,
                node@.elements().len() as int,
            ),
    {
        let nodes = node.element_children();
        let ghost all = node@.elements();
        assert(all == crate::raw::node_views(nodes@));
        let mut i: usize = 0;
        while i < nodes.len()
            invariant
                i <= nodes@.len(),
                all == crate::raw::node_views(nodes@),
                self@ == refused(old(self)@, all, message@, i as int),
            decreases nodes@.len() - i,
        {
            assert(all[i as int] == nodes@[i as int].view());
            self.error(nodes[i].name_span, message.to_owned());
            i = i + 1;
        }
    }

    fn render_target(&mut self, node: &RawNode) -> (r: Option<RenderTarget>)
        ensures
            final(self)@ == render_target(old(self)@, node@).0,
            match r {
                Some(t) => render_target(old(self)@, node@).1 == Some(t@),
                None => render_target(old(self)@, node@).1 is None,
            },
    {
        let allowed: [&'static str; 1] = ["target"];
        assert(crate::text::str_views(allowed@) =~= seq!["target"@]);
        self.check_attrs(node, allowed.as_slice());
        self.no_text(node);
        self.refuse_elements(node, "<render> takes no elements");
        match self.req_attr(node, "target") {
            Some(a) => Some(RenderTarget { target: a.value.clone(), span: node.span }),
            None => None,
        }
    }

    fn line(&mut self, child: &RawNode) -> (r: Option<ScriptLine>)
        ensures
            final(self)@ == script_line(old(self)@, child@).0,
            match r {
                Some(l) => script_line(old(self)@, child@).1 == Some(l@),
                None => script_line(old(self)@, child@).1 is None,
            },
    {
        if !text_eq(child.name.as_str(), "line") {
            self.error(
                child.name_span,
                cat3(
                    "unexpected <",
                    child.name.as_str(),
                    "> inside <script> (only <line> is allowed)",
                ),
            );
            return None;
        }
        let allowed: [&'static str; 1] = ["id"];
        assert(crate::text::str_views(allowed@) =~= seq!["id"@]);
        self.check_attrs(child, allowed.as_slice());
        let id_attr = match self.req_attr(child, "id") {
            Some(a) => a,
            None => {
                return None;
            },
        };
        let id: String = id_attr.value.clone();
        if listed(&self.cue_ids, id.as_str()) {
            self.error(id_attr.value_span, cat3("duplicate line id `", id.as_str(), "`"));
        } else {
            let ghost before = crate::text::text_views(self.cue_ids@);
            self.cue_ids.push(id.clone());
            assert(crate::text::text_views(self.cue_ids@) =~= before.push(id@));
        }
        self.refuse_elements(child, "<line> takes text only, not elements");
        match child.text_content() {
            Some(t) => Some(ScriptLine { id, text: t.0, span: t.1 }),
            None => {
                self.error(child.name_span, cat3("<line id=\"", id.as_str(), "\"> is empty"));
                None
            },
        }
    }

    fn script(&mut self, node: &RawNode) -> (r: Option<Script>)
        ensures
            final(self)@ == script(old(self)@, node@).0,
            match r {
                Some(s) => script(old(self)@, node@).1 == Some(s@),
                None => script(old(self)@, node@).1 is None,
            },
    {
        let allowed: [&'static str; 2] = ["track", "voice"];
        assert(crate::text::str_views(allowed@) =~= seq!["track"@, "voice"@]);
        self.check_attrs(node, allowed.as_slice());
        self.script_span = Some(node.span);
        let track: Option<String> = match self.req_attr(node, "track") {
            Some(a) => Some(a.value.clone()),
            None => None,
        };
        match &track {
            Some(t) => {
                self.script_track = Some(t.clone());
            },
            None => {},
        }
        let ghost st4 = self@;
        let voice = attr_value(node, "voice");
        let nodes = node.element_children();
        let ghost all = node@.elements();
        let mut lines: Vec<ScriptLine> = Vec::new();
        let mut i: usize = 0;
        assert(crate::scene::line_views(lines@) =~= Seq::<ScriptLineView>::empty());
        while i < nodes.len()
            invariant
                i <= nodes@.len(),
                all == crate::raw::node_views(nodes@),
                (self@, crate::scene::line_views(lines@)) == script_lines(st4, all, i as int),
            decreases nodes@.len() - i,
        {
            assert(all[i as int] == nodes@[i as int].view());
            let ghost before = crate::scene::line_views(lines@);
            match self.line(nodes[i]) {
                Some(l) => {
                    lines.push(l);
                    assert(crate::scene::line_views(lines@) =~= before.push(l@));
                },
                None => {},
            }
            i = i + 1;
        }
        if lines.len() == 0 {
            self.error(node.name_span, "<script> has no <line> children".to_owned());
        }
        match track {
            Some(t) => Some(Script { track: t, voice, lines, span: node.span }),
            None => None,
        }
    }
}

// Reference checks.

pub fn before(a: &[char], b: &[char]) -> (r: bool)
    ensures
        r == text_before(a@, b@),
{
    let mut i: usize = 0;
    assert(a@.skip(0) =~= a@);
    assert(b@.skip(0) =~= b@);
    while i < a.len() && i < b.len() && a[i] == b[i]
        invariant
            i <= a@.len(),
            i <= b@.len(),
            text_before(a@, b@) == text_before(a@.skip(i as int), b@.skip(i as int)),
        decreases a@.len() - i,
    {
        assert(a@.skip(i as int).drop_first() =~= a@.skip(i + 1));
        assert(b@.skip(i as int).drop_first() =~= b@.skip(i + 1));
        i = i + 1;
    }
    if i >= b.len() {
        false
    } else if i >= a.len() {
        true
    } else {
        a[i] < b[i]
    }
}

fn insert_sorted(s: &mut Vec<String>, x: String)
    ensures
        crate::text::text_views(final(s)@) == inserted(crate::text::text_views(old(s)@), x@),
{
    let xs = chars_of(x.as_str());
    let n = s.len();
    let ghost all = crate::text::text_views(s@);
    let mut i: usize = n;
    assert(all.take(n as int) =~= all);
    assert(all.skip(n as int) =~= Seq::<Seq<char>>::empty());
    assert(inserted(all.take(i as int), x@) + all.skip(i as int) =~= inserted(all, x@));
    while i > 0
        invariant_except_break
            i <= n == s@.len(),
            xs@ == x@,
            s@ == old(s)@,
            all == crate::text::text_views(s@),
            inserted(all, x@) == inserted(all.take(i as int), x@) + all.skip(i as int),
        ensures
            i <= s@.len(),
            s@ == old(s)@,
            inserted(all, x@) == all.take(i as int).push(x@) + all.skip(i as int),
        decreases i,
    {
        let last = chars_of(s[i - 1].as_str());
        assert(all.take(i as int).last() == last@);
        if !before(xs.as_slice(), last.as_slice()) {
            break;
        }
        proof {
            assert(all.take(i as int).drop_last() =~= all.take(i - 1));
            assert(inserted(all.take(i - 1), x@).push(last@) + all.skip(i as int) =~= inserted(
                all.take(i - 1),
                x@,
            ) + all.skip(i - 1));
        }
        i = i - 1;
    }
    s.insert(i, x);
    assert(crate::text::text_views(s@) =~= all.take(i as int).push(x@) + all.skip(i as int));
}

pub fn sorted_names(names: &Vec<String>) -> (r: Vec<String>)
    ensures
        crate::text::text_views(r@) == sorted(crate::text::text_views(names@)),
{
    let ghost all = crate::text::text_views(names@);
    let mut out: Vec<String> = Vec::new();
    let mut i: usize = 0;
    assert(crate::text::text_views(out@) =~= sorted(all.take(0)));
    while i < names.len()
        invariant
            i <= names@.len(),
            all == crate::text::text_views(names@),
            crate::text::text_views(out@) == sorted(all.take(i as int)),
        decreases names@.len() - i,
    {
        assert(all.take(i + 1).drop_last() =~= all.take(i as int));
        assert(all.take(i + 1).last() == names@[i as int]@);
        insert_sorted(&mut out, names[i].clone());
        i = i + 1;
    }
    assert(all.take(all.len() as int) =~= all);
    out
}

pub fn join_names(names: &Vec<String>, sep: &str) -> (r: String)
    ensures
        r@ == join(crate::text::text_views(names@), sep@),
{
    let ghost all = crate::text::text_views(names@);
    if names.len() == 0 {
        let s = String::new();
        assert(s@ =~= join(all, sep@));
        return s;
    }
    let mut out: String = names[0].clone();
    let mut i: usize = 1;
    assert(join(all.take(1), sep@) == out@);
    while i < names.len()
        invariant
            1 <= i <= names@.len(),
            all == crate::text::text_views(names@),
            out@ == join(all.take(i as int), sep@),
        decreases names@.len() - i,
    {
        assert(all.take(i + 1).drop_last() =~= all.take(i as int));
        assert(all.take(i + 1).last() == names@[i as int]@);
        out.append(sep);
        out.append(names[i].as_str());
        i = i + 1;
    }
    assert(all.take(all.len() as int) =~= all);
    out
}

impl Lower {
    fn valid_source(&self, source: &str) -> (r: bool)
        ensures
            r == valid_source(self@, source@),
    {
        match &self.script_track {
            Some(t) => text_eq(t.as_str(), source) || listed(&self.track_ids, source),
            None => listed(&self.track_ids, source),
        }
    }

    fn check_cue(&mut self, a: &Anchor, span: Span)
        ensures
            final(self)@ == cue_check(old(self)@, a@, span),
    {
        match a {
            Anchor::Cue { cue, .. } => {
                if !listed(&self.cue_ids, cue.as_str()) {
                    let names = sorted_names(&self.cue_ids);
                    let known = join_names(&names, ", ");
                    self.error(
                        span,
                        cat5("unknown cue `", cue.as_str(), "` (known: ", known.as_str(), ")"),
                    );
                }
            },
            Anchor::Literal { .. } => {},
        }
    }

    fn check_kind(&mut self, kind: &ElementKind, span: Span)
        ensures
            final(self)@ == kind_check(old(self)@, kind@, span),
    {
        match kind {
            ElementKind::Captions { source, .. } => {
                if !self.valid_source(source.source.as_str()) {
                    self.error(
                        span,
                        cat3("unknown timing source `", source.source.as_str(), "`"),
                    );
                }
            },
            ElementKind::Text { content } => match content {
                TextContent::Bind(path) => {
                    if !listed(&self.cue_ids, path.line.as_str()) {
                        self.error(
                            span,
                            cat3("bind target `", path.line.as_str(), "` is not a script line"),
                        );
                    }
                },
                TextContent::Literal(_) => {},
            },
            ElementKind::Music { duck, .. } => match duck {
                Some(target) => {
                    if !listed(&self.track_ids, target.as_str()) {
                        self.error(
                            span,
                            cat3("duck target `", target.as_str(), "` is not a track"),
                        );
                    }
                },
                None => {},
            },
            _ => {},
        }
    }

    fn check_elements(&mut self, elements: &Vec<Element>)
        ensures
            final(self)@ == list_check(
                old(self)@,
                crate::scene::element_views(elements@),
                elements@.len() as int,
            ),
        decreases elements,
    {
        let ghost all = crate::scene::element_views(elements@);
        let mut i: usize = elements.len();
        while i > 0
            invariant
                i <= elements@.len(),
                all == crate::scene::element_views(elements@),
                list_check(old(self)@, all, elements@.len() as int) == list_check(
                    self@,
                    all,
                    i as int,
                ),
            decreases i,
        {
            let e = &elements[i - 1];
            let ghost st = self@;
            assert(all[i - 1] == e.view());
            match &e.timing {
                Some(t) => {
                    self.check_cue(&t.start, e.span);
                    self.check_cue(&t.end, e.span);
                },
                None => {},
            }
            self.check_kind(&e.kind, e.span);
            assert(self@ == element_check(st, e.view()));
            proof {
                crate::scene::lemma_children_view(*e);
                assert(decreases_to!(elements => elements@[i - 1].children));
            }
            self.check_elements(&e.children);
            assert(self@ == tree_check(st, e.view()));
            i = i - 1;
        }
    }

    /// Reference checks that need the full symbol tables.
    fn check_references(&mut self, tracks: &Vec<Track>)
        ensures
            final(self)@ == references(old(self)@, crate::scene::track_views(tracks@)),
    {
        let ghost all = crate::scene::track_views(tracks@);
        let ghost st0 = self@;
        self.check_script(tracks);
        let ghost st1 = self@;
        let mut i: usize = 0;
        while i < tracks.len()
            invariant
                i <= tracks@.len(),
                all == crate::scene::track_views(tracks@),
                self@ == tracks_check(st1, all, i as int),
            decreases tracks@.len() - i,
        {
            let t = &tracks[i];
            assert(all[i as int] == t@);
            match &t.anchor {
                Some(a) => {
                    if !self.valid_source(a.source.as_str()) {
                        self.error(
                            t.span,
                            cat3("unknown timing source `", a.source.as_str(), "`"),
                        );
                    }
                },
                None => {},
            }
            self.check_elements(&t.elements);
            i = i + 1;
        }
    }

    fn check_script(&mut self, tracks: &Vec<Track>)
        ensures
            final(self)@ == script_check(old(self)@, crate::scene::track_views(tracks@)),
    {
        let source: String = match &self.script_track {
            Some(s) => s.clone(),
            None => {
                return;
            },
        };
        let span = match self.script_span {
            Some(s) => s,
            None => {
                return;
            },
        };
        let ghost all = crate::scene::track_views(tracks@);
        let mut i: usize = 0;
        while i < tracks.len()
            invariant
                i <= tracks@.len(),
                all == crate::scene::track_views(tracks@),
                self@ == old(self)@,
                old(self)@.script_track == Some(source@),
                old(self)@.script_span == Some(span),
                find_track(all, source@, 0) == find_track(all, source@, i as int),
            decreases tracks@.len() - i,
        {
            assert(all[i as int] == tracks@[i as int]@);
            if text_eq(tracks[i].id.as_str(), source.as_str()) {
                match tracks[i].kind {
                    TrackKind::Visual => {
                        self.error(
                            span,
                            cat3("script track `", source.as_str(), "` names a visual track"),
                        );
                    },
                    TrackKind::Audio => {},
                }
                return;
            }
            i = i + 1;
        }
        self.error(
            span,
            cat3("script track `", source.as_str(), "` has no matching <track id>"),
        );
    }

    fn scene(&mut self, root: &RawNode) -> (r: Option<Scene>)
        ensures
            final(self)@ == scene(old(self)@, root@).0,
            match r {
                Some(s) => scene(old(self)@, root@).1 == Some(s@),
                None => scene(old(self)@, root@).1 is None,
            },
    {
        if !text_eq(root.name.as_str(), "scene") {
            self.error(
                root.name_span,
                cat3("expected <scene>, found <", root.name.as_str(), ">"),
            );
            return None;
        }
        let allowed: [&'static str; 3] = ["canvas", "fps", "clear"];
        assert(crate::text::str_views(allowed@) =~= seq!["canvas"@, "fps"@, "clear"@]);
        self.check_attrs(root, allowed.as_slice());
        let canvas = match self.req_attr(root, "canvas") {
            Some(a) => self.settle(a.value_span, Canvas::parse(a.value.as_str())),
            None => None,
        };
        let frame_rate = match self.req_attr(root, "fps") {
            Some(a) => self.settle(a.value_span, Rational::parse(a.value.as_str())),
            None => None,
        };
        let given = match root.attr("clear") {
            Some(a) => self.settle(a.value_span, Color::parse(a.value.as_str())),
            None => None,
        };
        let clear = match given {
            Some(c) => c,
            None => Color::transparent(),
        };
        self.no_text(root);
        let nodes = root.element_children();
        let ghost all = root@.elements();
        let mut k: usize = 0;
        let ghost st5 = self@;
        while k < nodes.len()
            invariant_except_break
                k <= nodes@.len(),
                all == crate::raw::node_views(nodes@),
                self@ == st5,
                first_script_track(all, 0) == first_script_track(all, k as int),
            ensures
                self@ == (match first_script_track(all, 0) {
                    Some(t) => LowerView { script_track: Some(t), ..st5 },
                    None => st5,
                }),
            decreases nodes@.len() - k,
        {
            let n = nodes[k];
            assert(all[k as int] == n.view());
            if text_eq(n.name.as_str(), "script") {
                match attr_value(n, "track") {
                    Some(t) => {
                        self.script_track = Some(t);
                        break;
                    },
                    None => {},
                }
            }
            k = k + 1;
        }
        let ghost st6 = self@;
        let mut script: Option<Script> = None;
        let mut tracks: Vec<Track> = Vec::new();
        let mut render: Option<RenderTarget> = None;
        let mut i: usize = 0;
        assert(crate::scene::track_views(tracks@) =~= Seq::<TrackView>::empty());
        while i < nodes.len()
            invariant
                i <= nodes@.len(),
                all == crate::raw::node_views(nodes@),
                root_children(st6, all, i as int) == (Build {
                    st: self@,
                    script: crate::scene::script_view(script),
                    tracks: crate::scene::track_views(tracks@),
                    render: crate::scene::render_view(render),
                }),
            decreases nodes@.len() - i,
        {
            let child = nodes[i];
            assert(all[i as int] == child.view());
            let name = child.name.as_str();
            let ghost done = crate::scene::track_views(tracks@);
            if text_eq(name, "script") {
                if script.is_some() {
                    self.error(child.name_span, "duplicate <script>".to_owned());
                } else {
                    script = self.script(child);
                }
            } else if text_eq(name, "track") {
                match self.track(child, i) {
                    Some(t) => {
                        tracks.push(t);
                        assert(crate::scene::track_views(tracks@) =~= done.push(t@));
                    },
                    None => {},
                }
            } else if text_eq(name, "render") {
                if render.is_some() {
                    self.error(child.name_span, "duplicate <render>".to_owned());
                } else {
                    render = self.render_target(child);
                }
            } else {
                self.error(
                    child.name_span,
                    cat3("unexpected <", name, "> (allowed: script, track, render)"),
                );
            }
            i = i + 1;
        }
        self.check_references(&tracks);
        if tracks.len() == 0 {
            self.warning(
                root.span,
                "scene declares no tracks; it will render nothing".to_owned(),
            );
        }
        match (canvas, frame_rate) {
            (Some(canvas), Some(frame_rate)) => Some(
                Scene { canvas, frame_rate, clear, script, tracks, render },
            ),
            _ => None,
        }
    }
}

/// Lower a raw tree into a scene; the scene is present only when no error was
/// found.
pub fn lower(root: &RawNode) -> (r: (Option<Scene>, Vec<Diagnostic>))
    ensures
        match r.0 {
            Some(s) => lowered(root@).0 == Some(s@),
            None => lowered(root@).0 is None,
        },
        crate::diagnostic::views(r.1@) == lowered(root@).1,
{
    let mut lower = Lower {
        diags: Vec::new(),
        cue_ids: Vec::new(),
        track_ids: Vec::new(),
        script_track: None,
        script_span: None,
    };
    assert(lower@.diags =~= fresh().diags);
    assert(lower@.cues =~= fresh().cues);
    assert(lower@.tracks =~= fresh().tracks);
    let scene = lower.scene(root);
    if has_errors(lower.diags.as_slice()) {
        (None, lower.diags)
    } else {
        (scene, lower.diags)
    }
}

} // verus!
