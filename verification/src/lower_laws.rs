//! What holds of every lowering: a scene comes out exactly when there is no
//! error, every reference in it resolves, and it says what its document does.

use vstd::prelude::*;

use crate::anchor::{
    AnchorRangeView, AnchorRefView, AnchorView, BindPathView, Granularity,
};
use crate::diagnostic::{DiagnosticView, Severity};
use crate::lower::{Build, LowerView};
use crate::number::NumberView;
use crate::raw::{RawChildView, RawNodeView};
use crate::scene::{
    AnimKind, Canvas, CaptionStyle, Color, ElementKindView, ElementView, PlacementView, Rational,
    RenderTargetView, SceneView, ScriptLineView, ScriptView, TextContentView, TrackKind,
    TrackView,
};
use crate::span::Span;

verus! {

/// No error has been found.
pub open spec fn clean(st: LowerView) -> bool {
    !crate::diagnostic::any_error(st.diags)
}

/// `b` follows `a` with the same tables: clean only if `a` was.
spec fn follows(a: LowerView, b: LowerView) -> bool {
    &&& clean(b) ==> clean(a)
    &&& b.cues == a.cues
    &&& b.tracks == a.tracks
    &&& b.script_track == a.script_track
    &&& b.script_span == a.script_span
}

proof fn lemma_with_error(st: LowerView, span: Span, message: Seq<char>)
    ensures
        !clean(crate::lower::with_error(st, span, message)),
        follows(st, crate::lower::with_error(st, span, message)),
{
    let out = crate::lower::with_error(st, span, message);
    assert(out.diags[st.diags.len() as int].severity == Severity::Error);
}

pub proof fn lemma_push(st: LowerView, d: DiagnosticView)
    ensures
        clean(LowerView { diags: st.diags.push(d), ..st }) <==> clean(st) && d.severity
            != Severity::Error,
{
    let out = LowerView { diags: st.diags.push(d), ..st };
    assert(out.diags[st.diags.len() as int] == d);
    if !clean(st) {
        let i = choose|i: int|
            0 <= i < st.diags.len() && (#[trigger] st.diags[i]).severity == Severity::Error;
        assert(out.diags[i].severity == Severity::Error);
    }
    if clean(st) && d.severity != Severity::Error {
        assert forall|i: int| 0 <= i < out.diags.len() implies (#[trigger] out.diags[i]).severity
            != Severity::Error by {
            if i < st.diags.len() {
                assert(out.diags[i] == st.diags[i]);
            }
        }
    }
}

proof fn lemma_with_warning(st: LowerView, span: Span, message: Seq<char>)
    ensures
        clean(crate::lower::with_warning(st, span, message)) == clean(st),
        follows(st, crate::lower::with_warning(st, span, message)),
{
    lemma_push(st, crate::diagnostic::warning_view(message, Some(span)));
}

proof fn lemma_required(st: LowerView, node: RawNodeView, name: Seq<char>)
    ensures
        follows(st, crate::lower::required(st, node, name).0),
        crate::lower::required(st, node, name).1 is None ==> !clean(
            crate::lower::required(st, node, name).0,
        ),
{
    lemma_with_error(
        st,
        node.name_span,
        "<"@ + node.name + "> requires `"@ + name + "`"@,
    );
}

proof fn lemma_source(st: LowerView, node: RawNodeView)
    ensures
        follows(st, crate::lower::source(st, node).0),
        crate::lower::source(st, node).1 is None ==> !clean(crate::lower::source(st, node).0),
{
    lemma_required(st, node, "src"@);
    let (st1, found) = crate::lower::required(st, node, "src"@);
    match found {
        Some(a) => lemma_with_warning(
            st1,
            a.value_span,
            "src path contains `..` — it may escape the project root"@,
        ),
        None => {},
    }
}

proof fn lemma_unknown_attrs(
    st: LowerView,
    node: RawNodeView,
    allowed: Seq<Seq<char>>,
    n: int,
)
    ensures
        follows(st, crate::lower::unknown_attrs(st, node, allowed, n)),
    decreases n,
{
    if 0 < n <= node.attrs.len() {
        lemma_unknown_attrs(st, node, allowed, n - 1);
        let a = node.attrs[n - 1];
        lemma_with_warning(
            crate::lower::unknown_attrs(st, node, allowed, n - 1),
            a.name_span,
            "unknown attribute `"@ + a.name + "` on <"@ + node.name + ">"@,
        );
    }
}

proof fn lemma_without_text(st: LowerView, node: RawNodeView)
    ensures
        follows(st, crate::lower::without_text(st, node)),
{
    match node.text_content() {
        Some((_, span)) => lemma_with_error(
            st,
            span,
            "unexpected text inside <"@ + node.name + ">"@,
        ),
        None => {},
    }
}

proof fn lemma_settled<T>(st: LowerView, span: Span, r: Result<T, Seq<char>>)
    ensures
        follows(st, crate::lower::settled(st, span, r).0),
        crate::lower::settled(st, span, r).1 is None ==> !clean(
            crate::lower::settled(st, span, r).0,
        ),
{
    match r {
        Ok(_) => {},
        Err(m) => lemma_with_error(st, span, m),
    }
}

proof fn lemma_element_kind(st: LowerView, node: RawNodeView)
    ensures
        follows(st, crate::lower::element_kind(st, node).0),
        crate::lower::element_kind(st, node).1 is None ==> !clean(
            crate::lower::element_kind(st, node).0,
        ),
        node.name == "board"@ ==> crate::lower::element_kind(st, node).1 == Some(
            ElementKindView::Board,
        ),
{
    reveal_strlit("clip");
    reveal_strlit("image");
    reveal_strlit("text");
    reveal_strlit("board");
    assert("board"@[0] == 'b' && "clip"@[0] == 'c' && "image"@[0] == 'i' && "text"@[0] == 't');
    if node.name == "clip"@ {
        lemma_clip(st, node);
    } else if node.name == "image"@ {
        let allowed = seq!["src"@] + crate::lower::common_attrs();
        lemma_unknown_attrs(st, node, allowed, node.attrs.len() as int);
        lemma_source(crate::lower::checked_attrs(st, node, allowed), node);
    } else if node.name == "text"@ {
        lemma_text(st, node);
    } else if node.name == "board"@ {
        lemma_unknown_attrs(st, node, crate::lower::common_attrs(), node.attrs.len() as int);
    } else if node.name == "captions"@ {
        lemma_captions(st, node);
    } else if node.name == "music"@ || node.name == "sound"@ {
        lemma_audio(st, node);
    } else if node.name == "program"@ {
        lemma_program(st, node);
    } else {
        lemma_with_error(
            st,
            node.name_span,
            "unknown element <"@ + node.name
                + "> (known: clip, image, text, board, captions, music, sound, program)"@,
        );
    }
}

proof fn lemma_clip(st: LowerView, node: RawNodeView)
    ensures
        follows(st, crate::lower::clip_kind(st, node).0),
        crate::lower::clip_kind(st, node).1 is None ==> !clean(
            crate::lower::clip_kind(st, node).0,
        ),
{
    let allowed = seq!["src"@, "from"@] + crate::lower::common_attrs();
    lemma_unknown_attrs(st, node, allowed, node.attrs.len() as int);
    let st1 = crate::lower::checked_attrs(st, node, allowed);
    lemma_source(st1, node);
    let st2 = crate::lower::source(st1, node).0;
    match node.attr("from"@) {
        Some(a) => lemma_settled(st2, a.value_span, crate::scene::secs(a.value)),
        None => {},
    }
}

proof fn lemma_text(st: LowerView, node: RawNodeView)
    ensures
        follows(st, crate::lower::text_kind(st, node).0),
        crate::lower::text_kind(st, node).1 is None ==> !clean(
            crate::lower::text_kind(st, node).0,
        ),
{
    let allowed = seq!["bind"@] + crate::lower::common_attrs();
    lemma_unknown_attrs(st, node, allowed, node.attrs.len() as int);
    let st1 = crate::lower::checked_attrs(st, node, allowed);
    match node.attr("bind"@) {
        Some(a) => lemma_settled(st1, a.value_span, crate::anchor::bind_path(a.value)),
        None => {},
    }
    let st2 = match node.attr("bind"@) {
        Some(a) => crate::lower::settled(
            st1,
            a.value_span,
            crate::anchor::bind_path(a.value),
        ).0,
        None => st1,
    };
    lemma_with_error(st2, node.name_span, "<text> needs content or a `bind` attribute"@);
    match node.text_content() {
        Some((_, span)) => lemma_with_warning(
            st2,
            span,
            "text content is ignored when `bind` is set"@,
        ),
        None => {},
    }
}

proof fn lemma_captions(st: LowerView, node: RawNodeView)
    ensures
        follows(st, crate::lower::captions_kind(st, node).0),
        crate::lower::captions_kind(st, node).1 is None ==> !clean(
            crate::lower::captions_kind(st, node).0,
        ),
{
    let allowed = seq!["style"@, "anchor"@] + crate::lower::common_attrs();
    lemma_unknown_attrs(st, node, allowed, node.attrs.len() as int);
    let st1 = crate::lower::checked_attrs(st, node, allowed);
    let st2 = match node.attr("style"@) {
        Some(a) => crate::lower::settled(
            st1,
            a.value_span,
            crate::lower::caption_style(a.value),
        ).0,
        None => st1,
    };
    match node.attr("style"@) {
        Some(a) => lemma_settled(st1, a.value_span, crate::lower::caption_style(a.value)),
        None => {},
    }
    let st3 = match node.attr("anchor"@) {
        Some(a) => crate::lower::settled(
            st2,
            a.value_span,
            crate::anchor::anchor_ref(a.value),
        ).0,
        None => st2,
    };
    match node.attr("anchor"@) {
        Some(a) => lemma_settled(st2, a.value_span, crate::anchor::anchor_ref(a.value)),
        None => {},
    }
    lemma_with_error(
        st3,
        node.name_span,
        "<captions> needs `anchor` when the scene has no <script>"@,
    );
}

proof fn lemma_audio(st: LowerView, node: RawNodeView)
    ensures
        follows(st, crate::lower::audio_kind(st, node).0),
        crate::lower::audio_kind(st, node).1 is None ==> !clean(
            crate::lower::audio_kind(st, node).0,
        ),
{
    let allowed = seq!["src"@, "gain"@, "duck"@, "from"@] + crate::lower::common_attrs();
    lemma_unknown_attrs(st, node, allowed, node.attrs.len() as int);
    let st1 = crate::lower::checked_attrs(st, node, allowed);
    lemma_source(st1, node);
    let st2 = crate::lower::source(st1, node).0;
    let st3 = match node.attr("gain"@) {
        Some(a) => crate::lower::settled(st2, a.value_span, crate::scene::gain_db(a.value)).0,
        None => st2,
    };
    match node.attr("gain"@) {
        Some(a) => lemma_settled(st2, a.value_span, crate::scene::gain_db(a.value)),
        None => {},
    }
    let st4 = match node.attr("from"@) {
        Some(a) => crate::lower::settled(st3, a.value_span, crate::scene::secs(a.value)).0,
        None => st3,
    };
    match node.attr("from"@) {
        Some(a) => lemma_settled(st3, a.value_span, crate::scene::secs(a.value)),
        None => {},
    }
    match node.attr("duck"@) {
        Some(d) => lemma_with_warning(
            st4,
            d.name_span,
            "`duck` has no effect on <sound> (use <music>)"@,
        ),
        None => {},
    }
}

proof fn lemma_program(st: LowerView, node: RawNodeView)
    ensures
        follows(st, crate::lower::program_kind(st, node).0),
        crate::lower::program_kind(st, node).1 is None ==> !clean(
            crate::lower::program_kind(st, node).0,
        ),
{
    let allowed = seq!["src"@, "with"@] + crate::lower::common_attrs();
    lemma_unknown_attrs(st, node, allowed, node.attrs.len() as int);
    let st1 = crate::lower::checked_attrs(st, node, allowed);
    lemma_source(st1, node);
    let st2 = crate::lower::source(st1, node).0;
    match node.attr("with"@) {
        Some(w) => {
            match crate::lower::with_finding(
                crate::json::json_is_object(w.value),
                w.name_span,
            ) {
                Some(d) => lemma_push(st2, d),
                None => {},
            }
        },
        None => {},
    }
}

/// Only boards have children.
pub open spec fn boards_alone_nest(e: ElementView) -> bool
    decreases e,
{
    &&& e.kind !is Board ==> e.children.len() == 0
    &&& forall|i: int| 0 <= i < e.children.len() ==> boards_alone_nest(#[trigger] e.children[i])
}

proof fn lemma_element(st: LowerView, node: RawNodeView)
    ensures
        follows(st, crate::lower::element(st, node).0),
        crate::lower::element(st, node).1 matches Some(e) ==> boards_alone_nest(e),
    decreases node, 0int,
{
    lemma_element_kind(st, node);
    let (st1, kind) = crate::lower::element_kind(st, node);
    match kind {
        None => {},
        Some(k) => {
            let c = crate::lower::common(st1, node);
            lemma_common(st1, node);
            lemma_elements(c.st, node.children, node.children.len() as int);
            let (st2, children) = crate::lower::elements(
                c.st,
                node.children,
                node.children.len() as int,
            );
            let message = "<"@ + node.name + "> does not take child elements"@;
            lemma_with_error(st2, node.name_span, message);
            lemma_without_text(st2, node);
            lemma_without_text(
                crate::lower::with_error(st2, node.name_span, message),
                node,
            );
            let (st3, e) = crate::lower::finished(st2, node, k, c, children);
            if node.name == "board"@ {
                assert(e.children == children);
            } else {
                assert(e.children.len() == 0);
            }
        },
    }
}

proof fn lemma_common(st: LowerView, node: RawNodeView)
    ensures
        follows(st, crate::lower::common(st, node).st),
{
    let st1 = match node.attr("during"@) {
        Some(a) => crate::lower::settled(
            st,
            a.value_span,
            crate::anchor::anchor_range(a.value),
        ).0,
        None => st,
    };
    match node.attr("during"@) {
        Some(a) => lemma_settled(st, a.value_span, crate::anchor::anchor_range(a.value)),
        None => {},
    }
    let st2 = match node.attr("at"@) {
        Some(a) => crate::lower::settled(st1, a.value_span, crate::scene::placement(a.value)).0,
        None => st1,
    };
    match node.attr("at"@) {
        Some(a) => lemma_settled(st1, a.value_span, crate::scene::placement(a.value)),
        None => {},
    }
    match node.attr("anim"@) {
        Some(a) => lemma_settled(st2, a.value_span, crate::scene::anim_kind(a.value)),
        None => {},
    }
}

proof fn lemma_elements(st: LowerView, children: Seq<RawChildView>, n: int)
    ensures
        follows(st, crate::lower::elements(st, children, n).0),
        forall|i: int|
            0 <= i < crate::lower::elements(st, children, n).1.len() ==> boards_alone_nest(
                #[trigger] crate::lower::elements(st, children, n).1[i],
            ),
    decreases children, n,
{
    if 0 < n <= children.len() {
        lemma_elements(st, children, n - 1);
        let (st1, done) = crate::lower::elements(st, children, n - 1);
        match children[n - 1] {
            RawChildView::Text { .. } => {},
            RawChildView::Node(c) => {
                lemma_element(st1, c);
                let (st2, e) = crate::lower::element(st1, c);
                match e {
                    Some(v) => {
                        let all = done.push(v);
                        assert forall|i: int| 0 <= i < all.len() implies boards_alone_nest(
                            #[trigger] all[i],
                        ) by {
                            if i < done.len() {
                                assert(all[i] == done[i]);
                            }
                        }
                    },
                    None => {},
                }
            },
        }
    }
}

// References.

pub open spec fn line_ids(lines: Seq<ScriptLineView>) -> Seq<Seq<char>> {
    Seq::new(lines.len(), |i: int| lines[i].id)
}

pub open spec fn script_ids(s: Option<ScriptView>) -> Seq<Seq<char>> {
    match s {
        Some(v) => line_ids(v.lines),
        None => Seq::empty(),
    }
}

pub open spec fn track_ids(tracks: Seq<TrackView>) -> Seq<Seq<char>> {
    Seq::new(tracks.len(), |i: int| tracks[i].id)
}

/// What an element may refer to: the script's lines, its timing source, and
/// the tracks.
pub struct Names {
    pub cues: Seq<Seq<char>>,
    pub source: Option<Seq<char>>,
    pub tracks: Seq<Seq<char>>,
}

pub open spec fn cue_resolves(a: AnchorView, names: Names) -> bool {
    a matches AnchorView::Cue { cue, .. } ==> names.cues.contains(cue)
}

pub open spec fn source_resolves(s: Seq<char>, names: Names) -> bool {
    names.source == Some(s) || names.tracks.contains(s)
}

pub open spec fn kind_resolves(k: ElementKindView, names: Names) -> bool {
    match k {
        ElementKindView::Captions { source, .. } => source_resolves(source.source, names),
        ElementKindView::Text { content: TextContentView::Bind(path) } => names.cues.contains(
            path.line,
        ),
        ElementKindView::Music { duck: Some(target), .. } => names.tracks.contains(target),
        _ => true,
    }
}

/// Every reference of an element and of the elements below it resolves.
pub open spec fn resolves(e: ElementView, names: Names) -> bool
    decreases e,
{
    &&& e.timing matches Some(t) ==> cue_resolves(t.start, names) && cue_resolves(t.end, names)
    &&& kind_resolves(e.kind, names)
    &&& forall|i: int| 0 <= i < e.children.len() ==> resolves(#[trigger] e.children[i], names)
}

spec fn names_of(st: LowerView) -> Names {
    Names { cues: st.cues, source: st.script_track, tracks: st.tracks }
}

proof fn lemma_cue_check(st: LowerView, a: AnchorView, span: Span)
    ensures
        follows(st, crate::lower::cue_check(st, a, span)),
        clean(crate::lower::cue_check(st, a, span)) ==> cue_resolves(a, names_of(st)),
{
    match a {
        AnchorView::Cue { cue, .. } => lemma_with_error(
            st,
            span,
            "unknown cue `"@ + cue + "` (known: "@ + crate::lower::known_cues(st) + ")"@,
        ),
        AnchorView::Literal { .. } => {},
    }
}

proof fn lemma_kind_check(st: LowerView, kind: ElementKindView, span: Span)
    ensures
        follows(st, crate::lower::kind_check(st, kind, span)),
        clean(crate::lower::kind_check(st, kind, span)) ==> kind_resolves(kind, names_of(st)),
{
    match kind {
        ElementKindView::Captions { source, .. } => lemma_with_error(
            st,
            span,
            "unknown timing source `"@ + source.source + "`"@,
        ),
        ElementKindView::Text { content: TextContentView::Bind(path) } => lemma_with_error(
            st,
            span,
            "bind target `"@ + path.line + "` is not a script line"@,
        ),
        ElementKindView::Music { duck: Some(target), .. } => lemma_with_error(
            st,
            span,
            "duck target `"@ + target + "` is not a track"@,
        ),
        _ => {},
    }
}

proof fn lemma_tree_check(st: LowerView, e: ElementView)
    ensures
        follows(st, crate::lower::tree_check(st, e)),
        clean(crate::lower::tree_check(st, e)) ==> resolves(e, names_of(st)),
    decreases e, 0int,
{
    let st1 = match e.timing {
        Some(t) => {
            lemma_cue_check(st, t.start, e.span);
            let mid = crate::lower::cue_check(st, t.start, e.span);
            lemma_cue_check(mid, t.end, e.span);
            crate::lower::cue_check(mid, t.end, e.span)
        },
        None => st,
    };
    lemma_kind_check(st1, e.kind, e.span);
    let st2 = crate::lower::element_check(st, e);
    lemma_list_check(st2, e.children, e.children.len() as int);
}

proof fn lemma_list_check(st: LowerView, s: Seq<ElementView>, n: int)
    ensures
        follows(st, crate::lower::list_check(st, s, n)),
        clean(crate::lower::list_check(st, s, n)) && n <= s.len() ==> forall|i: int|
            0 <= i < n ==> resolves(#[trigger] s[i], names_of(st)),
    decreases s, n,
{
    if 0 < n <= s.len() {
        lemma_tree_check(st, s[n - 1]);
        lemma_list_check(crate::lower::tree_check(st, s[n - 1]), s, n - 1);
    }
}

spec fn track_resolves(t: TrackView, names: Names) -> bool {
    &&& t.anchor matches Some(a) ==> source_resolves(a.source, names)
    &&& forall|i: int| 0 <= i < t.elements.len() ==> resolves(#[trigger] t.elements[i], names)
}

proof fn lemma_tracks_check(st: LowerView, tracks: Seq<TrackView>, n: int)
    ensures
        follows(st, crate::lower::tracks_check(st, tracks, n)),
        clean(crate::lower::tracks_check(st, tracks, n)) && n <= tracks.len() ==> forall|i: int|
            0 <= i < n ==> track_resolves(#[trigger] tracks[i], names_of(st)),
    decreases n,
{
    if 0 < n <= tracks.len() {
        lemma_tracks_check(st, tracks, n - 1);
        let before = crate::lower::tracks_check(st, tracks, n - 1);
        let t = tracks[n - 1];
        match t.anchor {
            Some(a) => {
                lemma_with_error(
                    before,
                    t.span,
                    "unknown timing source `"@ + a.source + "`"@,
                );
                lemma_list_check(
                    crate::lower::with_error(
                        before,
                        t.span,
                        "unknown timing source `"@ + a.source + "`"@,
                    ),
                    t.elements,
                    t.elements.len() as int,
                );
            },
            None => {},
        }
        lemma_list_check(before, t.elements, t.elements.len() as int);
    }
}

proof fn lemma_find_track(tracks: Seq<TrackView>, id: Seq<char>, i: int)
    requires
        0 <= i,
    ensures
        crate::lower::find_track(tracks, id, i) matches Some(t) ==> t.id == id
            && tracks.contains(t),
    decreases tracks.len() - i,
{
    if i < tracks.len() && tracks[i].id != id {
        lemma_find_track(tracks, id, i + 1);
    } else if i < tracks.len() {
        assert(tracks.contains(tracks[i]));
    }
}

proof fn lemma_script_check(st: LowerView, tracks: Seq<TrackView>)
    ensures
        follows(st, crate::lower::script_check(st, tracks)),
        clean(crate::lower::script_check(st, tracks)) && st.script_span is Some ==> (
        st.script_track matches Some(source) ==> exists|i: int|
            0 <= i < tracks.len() && (#[trigger] tracks[i]).id == source && tracks[i].kind
                == TrackKind::Audio),
{
    match (st.script_track, st.script_span) {
        (Some(source), Some(span)) => {
            lemma_find_track(tracks, source, 0);
            lemma_with_error(
                st,
                span,
                "script track `"@ + source + "` names a visual track"@,
            );
            lemma_with_error(
                st,
                span,
                "script track `"@ + source + "` has no matching <track id>"@,
            );
            match crate::lower::find_track(tracks, source, 0) {
                Some(t) => {
                    let i = choose|i: int| 0 <= i < tracks.len() && tracks[i] == t;
                    assert(tracks[i].id == source);
                },
                None => {},
            }
        },
        _ => {},
    }
}

// Script, tracks and the root.

proof fn lemma_refused(st: LowerView, nodes: Seq<RawNodeView>, message: Seq<char>, n: int)
    ensures
        follows(st, crate::lower::refused(st, nodes, message, n)),
    decreases n,
{
    if 0 < n <= nodes.len() {
        lemma_refused(st, nodes, message, n - 1);
        lemma_with_error(
            crate::lower::refused(st, nodes, message, n - 1),
            nodes[n - 1].name_span,
            message,
        );
    }
}

/// A clean step through a script line adds exactly that line's id.
proof fn lemma_script_line(st: LowerView, child: RawNodeView)
    ensures
        ({
            let (out, line) = crate::lower::script_line(st, child);
            &&& clean(out) ==> clean(st)
            &&& out.tracks == st.tracks
            &&& out.script_track == st.script_track
            &&& out.script_span == st.script_span
            &&& clean(out) ==> match line {
                Some(l) => out.cues == st.cues.push(l.id) && !st.cues.contains(l.id),
                None => false,
            }
        }),
{
    if child.name != "line"@ {
        lemma_with_error(
            st,
            child.name_span,
            "unexpected <"@ + child.name + "> inside <script> (only <line> is allowed)"@,
        );
    } else {
        lemma_unknown_attrs(st, child, seq!["id"@], child.attrs.len() as int);
        let st1 = crate::lower::checked_attrs(st, child, seq!["id"@]);
        lemma_required(st1, child, "id"@);
        let (st2, found) = crate::lower::required(st1, child, "id"@);
        match found {
            None => {},
            Some(a) => {
                let message = "duplicate line id `"@ + a.value + "`"@;
                lemma_with_error(st2, a.value_span, message);
                let st3 = if st2.cues.contains(a.value) {
                    crate::lower::with_error(st2, a.value_span, message)
                } else {
                    LowerView { cues: st2.cues.push(a.value), ..st2 }
                };
                let n = child.elements().len() as int;
                let refusal = "<line> takes text only, not elements"@;
                lemma_refused(st3, child.elements(), refusal, n);
                let st4 = crate::lower::refused(st3, child.elements(), refusal, n);
                lemma_with_error(
                    st4,
                    child.name_span,
                    "<line id=\""@ + a.value + "\"> is empty"@,
                );
            },
        }
    }
}

proof fn lemma_script_lines(st: LowerView, nodes: Seq<RawNodeView>, n: int)
    ensures
        ({
            let (out, lines) = crate::lower::script_lines(st, nodes, n);
            &&& clean(out) ==> clean(st)
            &&& out.tracks == st.tracks
            &&& out.script_track == st.script_track
            &&& out.script_span == st.script_span
            &&& clean(out) ==> out.cues == st.cues + line_ids(lines)
            &&& clean(out) && st.cues.no_duplicates() ==> out.cues.no_duplicates()
        }),
    decreases n,
{
    if 0 < n <= nodes.len() {
        lemma_script_lines(st, nodes, n - 1);
        let (st1, lines) = crate::lower::script_lines(st, nodes, n - 1);
        lemma_script_line(st1, nodes[n - 1]);
        let (st2, line) = crate::lower::script_line(st1, nodes[n - 1]);
        match line {
            Some(l) => {
                assert(line_ids(lines.push(l)) =~= line_ids(lines).push(l.id));
                assert(st.cues + line_ids(lines.push(l)) =~= (st.cues + line_ids(lines)).push(
                    l.id,
                ));
                if clean(st2) && st.cues.no_duplicates() {
                    lemma_push_no_duplicates(st1.cues, l.id);
                }
            },
            None => {},
        }
    } else {
        assert(st.cues + line_ids(Seq::empty()) =~= st.cues);
    }
}

proof fn lemma_push_no_duplicates(s: Seq<Seq<char>>, x: Seq<char>)
    requires
        s.no_duplicates(),
        !s.contains(x),
    ensures
        s.push(x).no_duplicates(),
{
    let t = s.push(x);
    assert forall|i: int, j: int| 0 <= i < t.len() && 0 <= j < t.len() && i != j implies t[i]
        != t[j] by {
        if i < s.len() && j < s.len() {
            assert(s[i] != s[j]);
        } else if i < s.len() {
            assert(s.contains(s[i]));
        } else {
            assert(s.contains(s[j]));
        }
    }
}

proof fn lemma_script(st: LowerView, node: RawNodeView)
    ensures
        ({
            let (out, s) = crate::lower::script(st, node);
            &&& clean(out) ==> clean(st)
            &&& out.tracks == st.tracks
            &&& clean(out) ==> match s {
                Some(v) => {
                    &&& out.cues == st.cues + line_ids(v.lines)
                    &&& out.script_track == Some(v.track)
                    &&& out.script_span is Some
                    &&& v.lines.len() > 0
                },
                None => false,
            }
            &&& clean(out) && st.cues.no_duplicates() ==> out.cues.no_duplicates()
        }),
{
    let allowed = seq!["track"@, "voice"@];
    lemma_unknown_attrs(st, node, allowed, node.attrs.len() as int);
    let st1 = crate::lower::checked_attrs(st, node, allowed);
    let st2 = LowerView { script_span: Some(node.span), ..st1 };
    lemma_required(st2, node, "track"@);
    let (st3, track) = crate::lower::required(st2, node, "track"@);
    let st4 = match track {
        Some(t) => LowerView { script_track: Some(t.value), ..st3 },
        None => st3,
    };
    let n = node.elements().len() as int;
    lemma_script_lines(st4, node.elements(), n);
    let st5 = crate::lower::script_lines(st4, node.elements(), n).0;
    lemma_with_error(st5, node.name_span, "<script> has no <line> children"@);
}

proof fn lemma_track(st: LowerView, node: RawNodeView, index: nat)
    ensures
        ({
            let (out, t) = crate::lower::track(st, node, index);
            &&& clean(out) ==> clean(st)
            &&& out.cues == st.cues
            &&& out.script_track == st.script_track
            &&& out.script_span == st.script_span
            &&& clean(out) ==> match t {
                Some(v) => {
                    &&& out.tracks == st.tracks.push(v.id)
                    &&& !st.tracks.contains(v.id)
                    &&& forall|i: int|
                        0 <= i < v.elements.len() ==> boards_alone_nest(#[trigger] v.elements[i])
                },
                None => false,
            }
        }),
{
    let allowed = seq!["kind"@, "id"@, "anchor"@];
    lemma_unknown_attrs(st, node, allowed, node.attrs.len() as int);
    let st1 = crate::lower::checked_attrs(st, node, allowed);
    lemma_required(st1, node, "kind"@);
    let (st1b, found) = crate::lower::required(st1, node, "kind"@);
    match found {
        Some(a) => lemma_settled(st1b, a.value_span, crate::lower::track_kind(a.value)),
        None => {},
    }
    let (st2, kind) = match found {
        Some(a) => crate::lower::settled(st1b, a.value_span, crate::lower::track_kind(a.value)),
        None => (st1b, None),
    };
    match kind {
        None => {},
        Some(k) => {
            let id = crate::lower::or_default(
                crate::lower::value_of(node, "id"@),
                "track"@ + crate::text::dec(index),
            );
            let message = "duplicate track id `"@ + id + "`"@;
            lemma_with_error(st2, node.name_span, message);
            let st3 = if st2.tracks.contains(id) {
                crate::lower::with_error(st2, node.name_span, message)
            } else {
                LowerView { tracks: st2.tracks.push(id), ..st2 }
            };
            let st4 = match node.attr("anchor"@) {
                Some(a) => crate::lower::settled(
                    st3,
                    a.value_span,
                    crate::anchor::anchor_ref(a.value),
                ).0,
                None => st3,
            };
            match node.attr("anchor"@) {
                Some(a) => lemma_settled(st3, a.value_span, crate::anchor::anchor_ref(a.value)),
                None => {},
            }
            lemma_without_text(st4, node);
            let st5 = crate::lower::without_text(st4, node);
            lemma_elements(st5, node.children, node.children.len() as int);
        },
    }
}

proof fn lemma_render_target(st: LowerView, node: RawNodeView)
    ensures
        follows(st, crate::lower::render_target(st, node).0),
{
    let allowed = seq!["target"@];
    lemma_unknown_attrs(st, node, allowed, node.attrs.len() as int);
    let st1 = crate::lower::checked_attrs(st, node, allowed);
    lemma_without_text(st1, node);
    let st2 = crate::lower::without_text(st1, node);
    let n = node.elements().len() as int;
    lemma_refused(st2, node.elements(), "<render> takes no elements"@, n);
    lemma_required(
        crate::lower::refused(st2, node.elements(), "<render> takes no elements"@, n),
        node,
        "target"@,
    );
}

/// What a clean build of the first children holds.
spec fn build_ok(b: Build, nodes: Seq<RawNodeView>, n: int, st: LowerView) -> bool {
    &&& b.st.cues == script_ids(b.script)
    &&& b.st.cues.no_duplicates()
    &&& b.st.tracks == track_ids(b.tracks)
    &&& b.st.tracks.no_duplicates()
    &&& match b.script {
        Some(s) => b.st.script_track == Some(s.track) && b.st.script_span is Some && s.lines.len()
            > 0,
        None => b.st.script_track == st.script_track && b.st.script_span == st.script_span
            && forall|i: int| 0 <= i < n ==> (#[trigger] nodes[i]).name != "script"@,
    }
    &&& forall|i: int, j: int|
        0 <= i < b.tracks.len() && 0 <= j < b.tracks[i].elements.len() ==> boards_alone_nest(
            #[trigger] b.tracks[i].elements[j],
        )
}

proof fn lemma_root_children(st: LowerView, nodes: Seq<RawNodeView>, n: int)
    requires
        st.cues.len() == 0,
        st.tracks.len() == 0,
        n <= nodes.len(),
    ensures
        ({
            let b = crate::lower::root_children(st, nodes, n);
            &&& clean(b.st) ==> clean(st)
            &&& clean(b.st) ==> build_ok(b, nodes, n, st)
        }),
    decreases n,
{
    if n <= 0 {
        assert(st.cues =~= script_ids(None));
        assert(st.tracks =~= track_ids(Seq::empty()));
    } else {
        lemma_root_children(st, nodes, n - 1);
        let b = crate::lower::root_children(st, nodes, n - 1);
        let child = nodes[n - 1];
        let out = crate::lower::root_children(st, nodes, n);
        if child.name == "script"@ {
            lemma_with_error(b.st, child.name_span, "duplicate <script>"@);
            if b.script is None {
                lemma_script(b.st, child);
                let (after, s) = crate::lower::script(b.st, child);
                if clean(after) {
                    assert(Seq::<Seq<char>>::empty() + line_ids(s->0.lines) =~= line_ids(
                        s->0.lines,
                    ));
                }
            }
        } else if child.name == "track"@ {
            lemma_track(b.st, child, (n - 1) as nat);
            let (after, t) = crate::lower::track(b.st, child, (n - 1) as nat);
            if clean(after) {
                let v = t->0;
                assert(track_ids(b.tracks.push(v)) =~= track_ids(b.tracks).push(v.id));
                lemma_push_no_duplicates(b.st.tracks, v.id);
                let all = b.tracks.push(v);
                assert forall|i: int, j: int|
                    0 <= i < all.len() && 0 <= j < all[i].elements.len() implies boards_alone_nest(
                    #[trigger] all[i].elements[j],
                ) by {
                    if i < b.tracks.len() {
                        assert(all[i] == b.tracks[i]);
                    }
                }
            }
        } else if child.name == "render"@ {
            lemma_with_error(b.st, child.name_span, "duplicate <render>"@);
            lemma_render_target(b.st, child);
        } else {
            lemma_with_error(
                b.st,
                child.name_span,
                "unexpected <"@ + child.name + "> (allowed: script, track, render)"@,
            );
        }
    }
}

pub proof fn lemma_first_script_track(nodes: Seq<RawNodeView>, i: int)
    requires
        0 <= i,
        forall|k: int| 0 <= k < nodes.len() ==> (#[trigger] nodes[k]).name != "script"@,
    ensures
        crate::lower::first_script_track(nodes, i) is None,
    decreases nodes.len() - i,
{
    if i < nodes.len() {
        lemma_first_script_track(nodes, i + 1);
    }
}

pub open spec fn scene_names(s: SceneView) -> Names {
    Names {
        cues: script_ids(s.script),
        source: match s.script {
            Some(v) => Some(v.track),
            None => None,
        },
        tracks: track_ids(s.tracks),
    }
}

/// A scene in which every reference resolves: ids are unique, the script
/// names an audio track, every cue and bound line is a line of the script,
/// every timing source is the script's or a track, every duck target is a
/// track, and only boards have children.
pub open spec fn sound(s: SceneView) -> bool {
    let names = scene_names(s);
    &&& names.cues.no_duplicates()
    &&& names.tracks.no_duplicates()
    &&& s.script matches Some(v) ==> v.lines.len() > 0 && exists|i: int|
        0 <= i < s.tracks.len() && (#[trigger] s.tracks[i]).id == v.track && s.tracks[i].kind
            == TrackKind::Audio
    &&& forall|i: int|
        0 <= i < s.tracks.len() ==> ((#[trigger] s.tracks[i]).anchor matches Some(a)
            ==> source_resolves(a.source, names))
    &&& forall|i: int, j: int|
        0 <= i < s.tracks.len() && 0 <= j < s.tracks[i].elements.len() ==> resolves(
            #[trigger] s.tracks[i].elements[j],
            names,
        ) && boards_alone_nest(s.tracks[i].elements[j])
}

/// Lowering yields a scene exactly when it finds no error, and in that scene
/// every reference resolves.
pub proof fn scene_iff_no_error(root: RawNodeView)
    ensures
        crate::lower::lowered(root).0 is Some <==> !crate::diagnostic::any_error(
            crate::lower::lowered(root).1,
        ),
        crate::lower::lowered(root).0 matches Some(s) ==> sound(s),
{
    let st = crate::lower::fresh();
    let (end, s) = crate::lower::scene(st, root);
    if root.name != "scene"@ {
        lemma_with_error(
            st,
            root.name_span,
            "expected <scene>, found <"@ + root.name + ">"@,
        );
    } else {
        let allowed = seq!["canvas"@, "fps"@, "clear"@];
        lemma_unknown_attrs(st, root, allowed, root.attrs.len() as int);
        let st1 = crate::lower::checked_attrs(st, root, allowed);
        lemma_required(st1, root, "canvas"@);
        let (st1b, found) = crate::lower::required(st1, root, "canvas"@);
        let (st2, canvas) = match found {
            Some(a) => {
                lemma_settled(st1b, a.value_span, crate::scene::canvas(a.value));
                crate::lower::settled(st1b, a.value_span, crate::scene::canvas(a.value))
            },
            None => (st1b, None),
        };
        lemma_required(st2, root, "fps"@);
        let (st2b, found) = crate::lower::required(st2, root, "fps"@);
        let (st3, fps) = match found {
            Some(a) => {
                lemma_settled(st2b, a.value_span, crate::scene::rational(a.value));
                crate::lower::settled(st2b, a.value_span, crate::scene::rational(a.value))
            },
            None => (st2b, None),
        };
        let st4 = match root.attr("clear"@) {
            Some(a) => {
                lemma_settled(st3, a.value_span, crate::scene::color(a.value));
                crate::lower::settled(st3, a.value_span, crate::scene::color(a.value)).0
            },
            None => st3,
        };
        lemma_without_text(st4, root);
        let st5 = crate::lower::without_text(st4, root);
        let nodes = root.elements();
        let st6 = match crate::lower::first_script_track(nodes, 0) {
            Some(t) => LowerView { script_track: Some(t), ..st5 },
            None => st5,
        };
        let n = nodes.len() as int;
        lemma_root_children(st6, nodes, n);
        let b = crate::lower::root_children(st6, nodes, n);
        lemma_script_check(b.st, b.tracks);
        let mid = crate::lower::script_check(b.st, b.tracks);
        lemma_tracks_check(mid, b.tracks, b.tracks.len() as int);
        let st7 = crate::lower::references(b.st, b.tracks);
        lemma_with_warning(
            st7,
            root.span,
            "scene declares no tracks; it will render nothing"@,
        );
        if clean(end) {
            assert(canvas is Some && fps is Some);
            let v = s->0;
            if b.script is None {
                lemma_first_script_track(nodes, 0);
                assert(b.st.script_track is None);
            }
            assert(names_of(mid) == scene_names(v));
            assert forall|i: int, j: int|
                0 <= i < v.tracks.len() && 0 <= j < v.tracks[i].elements.len() implies resolves(
                #[trigger] v.tracks[i].elements[j],
                scene_names(v),
            ) && boards_alone_nest(v.tracks[i].elements[j]) by {
                assert(track_resolves(b.tracks[i], names_of(mid)));
            }
            assert forall|i: int| 0 <= i < v.tracks.len() implies ((
            #[trigger] v.tracks[i]).anchor matches Some(a) ==> source_resolves(
                a.source,
                scene_names(v),
            )) by {
                assert(track_resolves(b.tracks[i], names_of(mid)));
            }
        }
    }
}

// The order of names.

proof fn lemma_order_transitive(a: Seq<char>, b: Seq<char>, c: Seq<char>)
    requires
        !crate::lower::text_before(b, a),
        !crate::lower::text_before(c, b),
    ensures
        !crate::lower::text_before(c, a),
    decreases a.len(),
{
    if a.len() > 0 && b.len() > 0 && c.len() > 0 && a[0] == b[0] && b[0] == c[0] {
        lemma_order_transitive(a.drop_first(), b.drop_first(), c.drop_first());
    }
}

proof fn lemma_order_total(a: Seq<char>, b: Seq<char>)
    requires
        crate::lower::text_before(a, b),
    ensures
        !crate::lower::text_before(b, a),
    decreases a.len(),
{
    if a.len() > 0 && b.len() > 0 && a[0] == b[0] {
        lemma_order_total(a.drop_first(), b.drop_first());
    }
}

pub open spec fn in_name_order(s: Seq<Seq<char>>) -> bool {
    forall|i: int, j: int|
        0 <= i < j < s.len() ==> !crate::lower::text_before(#[trigger] s[j], #[trigger] s[i])
}

proof fn lemma_inserted(s: Seq<Seq<char>>, x: Seq<char>)
    requires
        in_name_order(s),
    ensures
        in_name_order(crate::lower::inserted(s, x)),
        crate::lower::inserted(s, x).to_multiset() == s.to_multiset().insert(x),
        crate::lower::inserted(s, x).len() == s.len() + 1,
    decreases s.len(),
{
    broadcast use vstd::seq_lib::group_to_multiset_ensures;

    let out = crate::lower::inserted(s, x);
    if s.len() == 0 || !crate::lower::text_before(x, s.last()) {
        assert forall|i: int, j: int| 0 <= i < j < out.len() implies !crate::lower::text_before(
            #[trigger] out[j],
            #[trigger] out[i],
        ) by {
            if j == s.len() && i < s.len() - 1 {
                assert(!crate::lower::text_before(s[s.len() - 1], s[i]));
                lemma_order_transitive(s[i], s.last(), x);
            }
        }
    } else {
        let rest = s.drop_last();
        assert(in_name_order(rest));
        lemma_inserted(rest, x);
        let head = crate::lower::inserted(rest, x);
        lemma_order_total(x, s.last());
        assert forall|i: int| 0 <= i < head.len() implies !crate::lower::text_before(
            s.last(),
            #[trigger] head[i],
        ) by {
            assert(head.to_multiset().contains(head[i]));
            if head[i] != x {
                assert(rest.to_multiset().contains(head[i]));
                assert(rest.contains(head[i]));
                let k = choose|k: int| 0 <= k < rest.len() && rest[k] == head[i];
                assert(!crate::lower::text_before(s[s.len() - 1], s[k]));
            }
        }
        assert forall|i: int, j: int| 0 <= i < j < out.len() implies !crate::lower::text_before(
            #[trigger] out[j],
            #[trigger] out[i],
        ) by {
            assert(out[i] == head[i]);
            if j < head.len() {
                assert(out[j] == head[j]);
            }
        }
        assert(s =~= rest.push(s.last()));
        assert(rest.to_multiset().insert(x).insert(s.last()) =~= rest.to_multiset().insert(
            s.last(),
        ).insert(x));
    }
}

/// The cues that an unknown-cue message lists are all the known ones, in
/// order.
pub proof fn sorted_is_in_order(s: Seq<Seq<char>>)
    ensures
        in_name_order(crate::lower::sorted(s)),
        crate::lower::sorted(s).to_multiset() == s.to_multiset(),
    decreases s.len(),
{
    broadcast use vstd::seq_lib::group_to_multiset_ensures;

    if s.len() > 0 {
        sorted_is_in_order(s.drop_last());
        lemma_inserted(crate::lower::sorted(s.drop_last()), s.last());
        assert(s =~= s.drop_last().push(s.last()));
    }
}

// What a scene says of its document.

/// `value` is what the first attribute of a name holds.
pub open spec fn gives(node: RawNodeView, name: Seq<char>, value: Seq<char>) -> bool {
    exists|i: int|
        {
            &&& 0 <= i < node.attrs.len()
            &&& (#[trigger] node.attrs[i]).name == name
            &&& node.attrs[i].value == value
            &&& forall|j: int| 0 <= j < i ==> (#[trigger] node.attrs[j]).name != name
        }
}

pub open spec fn lacks(node: RawNodeView, name: Seq<char>) -> bool {
    forall|i: int| 0 <= i < node.attrs.len() ==> (#[trigger] node.attrs[i]).name != name
}

proof fn lemma_attr_from(node: RawNodeView, name: Seq<char>, i: int)
    requires
        0 <= i <= node.attrs.len(),
        forall|j: int| 0 <= j < i ==> (#[trigger] node.attrs[j]).name != name,
    ensures
        match crate::raw::find_attr_from(node.attrs, name, i) {
            Some(a) => gives(node, name, a.value),
            None => lacks(node, name),
        },
    decreases node.attrs.len() - i,
{
    if i < node.attrs.len() {
        if node.attrs[i].name == name {
            assert(node.attrs[i].value == node.attrs[i].value);
        } else {
            lemma_attr_from(node, name, i + 1);
        }
    }
}

pub proof fn lemma_attr(node: RawNodeView, name: Seq<char>)
    ensures
        match node.attr(name) {
            Some(a) => gives(node, name, a.value),
            None => lacks(node, name),
        },
{
    lemma_attr_from(node, name, 0);
}

/// A text that is given as it is, or not at all.
pub open spec fn text_is(node: RawNodeView, name: Seq<char>, found: Option<Seq<char>>) -> bool {
    match found {
        Some(v) => gives(node, name, v),
        None => lacks(node, name),
    }
}

/// What an attribute reads as, or zero without it.
pub open spec fn seconds_are(node: RawNodeView, name: Seq<char>, n: NumberView) -> bool {
    ||| exists|v: Seq<char>| #[trigger]
        gives(node, name, v) && crate::scene::secs(v) == Ok::<NumberView, Seq<char>>(n)
    ||| lacks(node, name) && n == (NumberView::Finite {
        negative: false,
        mantissa: 0,
        exponent: 0,
    })
}

pub open spec fn gain_is(node: RawNodeView, n: NumberView) -> bool {
    ||| exists|v: Seq<char>| #[trigger]
        gives(node, "gain"@, v) && crate::scene::gain_db(v) == Ok::<NumberView, Seq<char>>(n)
    ||| lacks(node, "gain"@) && n == (NumberView::Finite {
        negative: false,
        mantissa: 0,
        exponent: 0,
    })
}

/// The timing of an element is exactly the range that `during` reads as.
pub open spec fn timing_is(node: RawNodeView, t: Option<AnchorRangeView>) -> bool {
    match t {
        Some(r) => exists|v: Seq<char>| #[trigger]
            gives(node, "during"@, v) && crate::anchor::anchor_range(v) == Ok::<
                AnchorRangeView,
                Seq<char>,
            >(r),
        None => lacks(node, "during"@),
    }
}

pub open spec fn placement_is(node: RawNodeView, p: Option<PlacementView>) -> bool {
    match p {
        Some(r) => exists|v: Seq<char>| #[trigger]
            gives(node, "at"@, v) && crate::scene::placement(v) == Ok::<PlacementView, Seq<char>>(
                r,
            ),
        None => lacks(node, "at"@),
    }
}

pub open spec fn anim_is(node: RawNodeView, a: Option<AnimKind>) -> bool {
    match a {
        Some(r) => exists|v: Seq<char>| #[trigger]
            gives(node, "anim"@, v) && crate::scene::anim_kind(v) == Ok::<AnimKind, Seq<char>>(r),
        None => lacks(node, "anim"@),
    }
}

/// What an element is, by the name and the attributes of its node. Captions
/// without `anchor` follow the words of the script's track.
pub open spec fn kind_is(
    kind: ElementKindView,
    node: RawNodeView,
    script_track: Option<Seq<char>>,
) -> bool {
    if node.name == "clip"@ {
        kind matches ElementKindView::Clip { src, from_s } && gives(node, "src"@, src)
            && seconds_are(node, "from"@, from_s)
    } else if node.name == "image"@ {
        kind matches ElementKindView::Image { src } && gives(node, "src"@, src)
    } else if node.name == "text"@ {
        kind matches ElementKindView::Text { content } && match content {
            TextContentView::Bind(path) => exists|v: Seq<char>| #[trigger]
                gives(node, "bind"@, v) && crate::anchor::bind_path(v) == Ok::<
                    BindPathView,
                    Seq<char>,
                >(path),
            TextContentView::Literal(t) => lacks(node, "bind"@) && (
            node.text_content() matches Some(f) && f.0 == t),
        }
    } else if node.name == "board"@ {
        kind is Board
    } else if node.name == "captions"@ {
        kind matches ElementKindView::Captions { style, source } && {
            &&& match style {
                CaptionStyle::Karaoke => lacks(node, "style"@) || gives(
                    node,
                    "style"@,
                    "karaoke"@,
                ),
                CaptionStyle::Block => gives(node, "style"@, "block"@),
            }
            &&& {
                ||| exists|v: Seq<char>| #[trigger]
                    gives(node, "anchor"@, v) && crate::anchor::anchor_ref(v) == Ok::<
                        AnchorRefView,
                        Seq<char>,
                    >(source)
                ||| lacks(node, "anchor"@) && script_track == Some(source.source)
                    && source.granularity == Granularity::Word
            }
        }
    } else if node.name == "music"@ {
        kind matches ElementKindView::Music { src, gain_db, duck, from_s } && gives(
            node,
            "src"@,
            src,
        ) && gain_is(node, gain_db) && text_is(node, "duck"@, duck) && seconds_are(
            node,
            "from"@,
            from_s,
        )
    } else if node.name == "sound"@ {
        kind matches ElementKindView::Sound { src, gain_db, from_s } && gives(node, "src"@, src)
            && gain_is(node, gain_db) && seconds_are(node, "from"@, from_s)
    } else {
        node.name == "program"@ && (kind matches ElementKindView::Program { src, with } && gives(
            node,
            "src"@,
            src,
        ) && text_is(node, "with"@, with))
    }
}

proof fn lemma_source_given(st: LowerView, node: RawNodeView)
    ensures
        crate::lower::source(st, node).1 == node.attr("src"@),
        node.attr("src"@) matches Some(a) ==> gives(node, "src"@, a.value),
{
    lemma_attr(node, "src"@);
}

proof fn lemma_seconds(st: LowerView, node: RawNodeView, name: Seq<char>)
    ensures
        ({
            let (out, r) = match node.attr(name) {
                Some(a) => crate::lower::settled(st, a.value_span, crate::scene::secs(a.value)),
                None => (st, None),
            };
            &&& follows(st, out)
            &&& clean(out) ==> seconds_are(
                node,
                name,
                crate::lower::or_default(r, crate::lower::zero()),
            )
        }),
{
    lemma_attr(node, name);
    match node.attr(name) {
        Some(a) => lemma_settled(st, a.value_span, crate::scene::secs(a.value)),
        None => {},
    }
}

proof fn lemma_clip_is(st: LowerView, node: RawNodeView)
    requires
        node.name == "clip"@,
    ensures
        ({
            let (out, k) = crate::lower::clip_kind(st, node);
            clean(out) ==> (k matches Some(v) ==> kind_is(v, node, st.script_track))
        }),
{
    let allowed = seq!["src"@, "from"@] + crate::lower::common_attrs();
    let st1 = crate::lower::checked_attrs(st, node, allowed);
    lemma_source_given(st1, node);
    let st2 = crate::lower::source(st1, node).0;
    lemma_seconds(st2, node, "from"@);
}

proof fn lemma_text_is(st: LowerView, node: RawNodeView)
    requires
        node.name == "text"@,
        node.name != "clip"@,
        node.name != "image"@,
    ensures
        ({
            let (out, k) = crate::lower::text_kind(st, node);
            clean(out) ==> (k matches Some(v) ==> kind_is(v, node, st.script_track))
        }),
{
    let allowed = seq!["bind"@] + crate::lower::common_attrs();
    let st1 = crate::lower::checked_attrs(st, node, allowed);
    lemma_attr(node, "bind"@);
    let st2 = match node.attr("bind"@) {
        Some(a) => {
            lemma_settled(st1, a.value_span, crate::anchor::bind_path(a.value));
            crate::lower::settled(st1, a.value_span, crate::anchor::bind_path(a.value)).0
        },
        None => st1,
    };
    match node.text_content() {
        Some((_, span)) => lemma_with_warning(
            st2,
            span,
            "text content is ignored when `bind` is set"@,
        ),
        None => lemma_with_error(
            st2,
            node.name_span,
            "<text> needs content or a `bind` attribute"@,
        ),
    }
}

proof fn lemma_captions_are(st: LowerView, node: RawNodeView)
    requires
        node.name == "captions"@,
        node.name != "clip"@,
        node.name != "image"@,
        node.name != "text"@,
        node.name != "board"@,
    ensures
        ({
            let (out, k) = crate::lower::captions_kind(st, node);
            clean(out) ==> (k matches Some(v) ==> kind_is(v, node, st.script_track))
        }),
{
    let allowed = seq!["style"@, "anchor"@] + crate::lower::common_attrs();
    lemma_unknown_attrs(st, node, allowed, node.attrs.len() as int);
    let st1 = crate::lower::checked_attrs(st, node, allowed);
    lemma_attr(node, "style"@);
    lemma_attr(node, "anchor"@);
    let st2 = match node.attr("style"@) {
        Some(a) => {
            lemma_settled(st1, a.value_span, crate::lower::caption_style(a.value));
            crate::lower::settled(st1, a.value_span, crate::lower::caption_style(a.value)).0
        },
        None => st1,
    };
    let st3 = match node.attr("anchor"@) {
        Some(a) => {
            lemma_settled(st2, a.value_span, crate::anchor::anchor_ref(a.value));
            crate::lower::settled(st2, a.value_span, crate::anchor::anchor_ref(a.value)).0
        },
        None => st2,
    };
    lemma_with_error(
        st3,
        node.name_span,
        "<captions> needs `anchor` when the scene has no <script>"@,
    );
}

proof fn lemma_audio_is(st: LowerView, node: RawNodeView)
    requires
        node.name == "music"@ || node.name == "sound"@,
        node.name != "clip"@,
        node.name != "image"@,
        node.name != "text"@,
        node.name != "board"@,
        node.name != "captions"@,
    ensures
        ({
            let (out, k) = crate::lower::audio_kind(st, node);
            clean(out) ==> (k matches Some(v) ==> kind_is(v, node, st.script_track))
        }),
{
    let allowed = seq!["src"@, "gain"@, "duck"@, "from"@] + crate::lower::common_attrs();
    let st1 = crate::lower::checked_attrs(st, node, allowed);
    lemma_source_given(st1, node);
    let st2 = crate::lower::source(st1, node).0;
    lemma_attr(node, "gain"@);
    let st3 = match node.attr("gain"@) {
        Some(a) => {
            lemma_settled(st2, a.value_span, crate::scene::gain_db(a.value));
            crate::lower::settled(st2, a.value_span, crate::scene::gain_db(a.value)).0
        },
        None => st2,
    };
    lemma_seconds(st3, node, "from"@);
    let st4 = match node.attr("from"@) {
        Some(a) => crate::lower::settled(st3, a.value_span, crate::scene::secs(a.value)).0,
        None => st3,
    };
    lemma_attr(node, "duck"@);
    match node.attr("duck"@) {
        Some(d) => lemma_with_warning(
            st4,
            d.name_span,
            "`duck` has no effect on <sound> (use <music>)"@,
        ),
        None => {},
    }
}

proof fn lemma_kind_is(st: LowerView, node: RawNodeView)
    ensures
        ({
            let (out, k) = crate::lower::element_kind(st, node);
            clean(out) ==> (k matches Some(v) ==> kind_is(v, node, st.script_track))
        }),
{
    lemma_attr(node, "with"@);
    if node.name == "clip"@ {
        lemma_clip_is(st, node);
    } else if node.name == "image"@ {
        let allowed = seq!["src"@] + crate::lower::common_attrs();
        lemma_source_given(crate::lower::checked_attrs(st, node, allowed), node);
    } else if node.name == "text"@ {
        lemma_text_is(st, node);
    } else if node.name == "board"@ {
    } else if node.name == "captions"@ {
        lemma_captions_are(st, node);
    } else if node.name == "music"@ || node.name == "sound"@ {
        lemma_audio_is(st, node);
    } else if node.name == "program"@ {
        let allowed = seq!["src"@, "with"@] + crate::lower::common_attrs();
        lemma_source_given(crate::lower::checked_attrs(st, node, allowed), node);
    }
}

/// The children of a node that are elements.
pub open spec fn node_at(children: Seq<RawChildView>) -> spec_fn(int) -> bool {
    |i: int| children[i] is Node
}

/// An element says what its node does: its id, its kind, its timing, placement
/// and entrance, each by the attribute of its own, and below it all elements
/// that the node holds.
pub open spec fn says(e: ElementView, node: RawNodeView, script_track: Option<Seq<char>>) -> bool
    decreases node, 0int,
{
    &&& e.span == node.span
    &&& text_is(node, "id"@, e.id)
    &&& kind_is(e.kind, node, script_track)
    &&& timing_is(node, e.timing)
    &&& placement_is(node, e.placement)
    &&& anim_is(node, e.anim)
    &&& node.name != "text"@ ==> node.text_content() is None
    &&& all_say(e.children, node.children, script_track)
}

/// A list of elements says what the elements among some children do, in order.
pub open spec fn all_say(
    list: Seq<ElementView>,
    children: Seq<RawChildView>,
    script_track: Option<Seq<char>>,
) -> bool
    decreases children, 1int,
{
    exists|at: Seq<int>|
        {
            &&& #[trigger] crate::select::selects(at, children.len() as int, node_at(children))
            &&& list.len() == at.len()
            &&& forall|k: int|
                0 <= k < at.len() ==> 0 <= at[k] < children.len() && (
                children[at[k]] matches RawChildView::Node(c) && says(
                    #[trigger] list[k],
                    c,
                    script_track,
                ))
        }
}

proof fn lemma_common_says(st: LowerView, node: RawNodeView)
    ensures
        ({
            let c = crate::lower::common(st, node);
            clean(c.st) ==> timing_is(node, c.timing) && placement_is(node, c.placement)
                && anim_is(node, c.anim)
        }),
{
    lemma_attr(node, "during"@);
    lemma_attr(node, "at"@);
    lemma_attr(node, "anim"@);
    let st1 = match node.attr("during"@) {
        Some(a) => {
            lemma_settled(st, a.value_span, crate::anchor::anchor_range(a.value));
            crate::lower::settled(st, a.value_span, crate::anchor::anchor_range(a.value)).0
        },
        None => st,
    };
    let st2 = match node.attr("at"@) {
        Some(a) => {
            lemma_settled(st1, a.value_span, crate::scene::placement(a.value));
            crate::lower::settled(st1, a.value_span, crate::scene::placement(a.value)).0
        },
        None => st1,
    };
    match node.attr("anim"@) {
        Some(a) => lemma_settled(st2, a.value_span, crate::scene::anim_kind(a.value)),
        None => {},
    }
}

proof fn lemma_element_says(st: LowerView, node: RawNodeView)
    ensures
        ({
            let (out, e) = crate::lower::element(st, node);
            clean(out) ==> (e matches Some(v) && says(v, node, st.script_track))
        }),
    decreases node, 0int, 0int,
{
    lemma_element_kind(st, node);
    lemma_kind_is(st, node);
    let (st1, kind) = crate::lower::element_kind(st, node);
    match kind {
        None => {},
        Some(k) => {
            let c = crate::lower::common(st1, node);
            lemma_common(st1, node);
            lemma_common_says(st1, node);
            let n = node.children.len() as int;
            lemma_elements(c.st, node.children, n);
            lemma_elements_say(c.st, node.children);
            let (st2, children) = crate::lower::elements(c.st, node.children, n);
            let message = "<"@ + node.name + "> does not take child elements"@;
            lemma_with_error(st2, node.name_span, message);
            lemma_without_text(st2, node);
            lemma_without_text(
                crate::lower::with_error(st2, node.name_span, message),
                node,
            );
            match node.text_content() {
                Some((_, span)) => lemma_with_error(
                    st2,
                    span,
                    "unexpected text inside <"@ + node.name + ">"@,
                ),
                None => {},
            }
            lemma_attr(node, "id"@);
            let (st3, e) = crate::lower::finished(st2, node, k, c, children);
            if clean(st3) {
                assert(e.children =~= children);
            }
        },
    }
}

proof fn lemma_elements_say(st: LowerView, children: Seq<RawChildView>)
    ensures
        ({
            let (out, list) = crate::lower::elements(st, children, children.len() as int);
            clean(out) ==> all_say(list, children, st.script_track)
        }),
    decreases children, 1int, 0int,
{
    let n = children.len() as int;
    if clean(crate::lower::elements(st, children, n).0) {
        let at = lemma_first_say(st, children, n);
        assert(crate::select::selects(at, n, node_at(children)));
    }
}

proof fn lemma_first_say(st: LowerView, children: Seq<RawChildView>, n: int) -> (at: Seq<int>)
    requires
        0 <= n <= children.len(),
        clean(crate::lower::elements(st, children, n).0),
    ensures
        crate::select::selects(at, n, node_at(children)),
        ({
            let list = crate::lower::elements(st, children, n).1;
            &&& list.len() == at.len()
            &&& forall|k: int|
                0 <= k < at.len() ==> 0 <= at[k] < children.len() && (
                children[at[k]] matches RawChildView::Node(c) && says(
                    #[trigger] list[k],
                    c,
                    st.script_track,
                ))
        }),
    decreases children, 0int, n,
{
    let keep = node_at(children);
    if n == 0 {
        crate::select::lemma_select_none(keep);
        Seq::empty()
    } else {
        let (st1, done) = crate::lower::elements(st, children, n - 1);
        lemma_elements(st, children, n - 1);
        match children[n - 1] {
            RawChildView::Text { .. } => {
                let at = lemma_first_say(st, children, n - 1);
                crate::select::lemma_select_skip(at, n, keep);
                at
            },
            RawChildView::Node(c) => {
                lemma_element(st1, c);
                lemma_element_says(st1, c);
                let at = lemma_first_say(st, children, n - 1);
                crate::select::lemma_select_take(at, n, keep);
                let list = crate::lower::elements(st, children, n).1;
                let all = at.push(n - 1);
                assert forall|k: int| 0 <= k < all.len() implies 0 <= all[k] < children.len() && (
                children[all[k]] matches RawChildView::Node(c) && says(
                    #[trigger] list[k],
                    c,
                    st.script_track,
                )) by {
                    if k < at.len() {
                        assert(list[k] == done[k]);
                    }
                }
                all
            },
        }
    }
}

// Tracks, script and render target.

pub open spec fn track_says(
    t: TrackView,
    node: RawNodeView,
    index: nat,
    script_track: Option<Seq<char>>,
) -> bool {
    &&& t.span == node.span
    &&& match t.kind {
        TrackKind::Visual => gives(node, "kind"@, "visual"@),
        TrackKind::Audio => gives(node, "kind"@, "audio"@),
    }
    &&& gives(node, "id"@, t.id) || lacks(node, "id"@) && t.id == "track"@ + crate::text::dec(index)
    &&& match t.anchor {
        Some(r) => exists|v: Seq<char>| #[trigger]
            gives(node, "anchor"@, v) && crate::anchor::anchor_ref(v) == Ok::<
                AnchorRefView,
                Seq<char>,
            >(r),
        None => lacks(node, "anchor"@),
    }
    &&& all_say(t.elements, node.children, script_track)
}

proof fn lemma_track_says(st: LowerView, node: RawNodeView, index: nat)
    ensures
        ({
            let (out, t) = crate::lower::track(st, node, index);
            clean(out) ==> (t matches Some(v) && track_says(v, node, index, st.script_track))
        }),
{
    lemma_track(st, node, index);
    let allowed = seq!["kind"@, "id"@, "anchor"@];
    lemma_unknown_attrs(st, node, allowed, node.attrs.len() as int);
    let st1 = crate::lower::checked_attrs(st, node, allowed);
    lemma_required(st1, node, "kind"@);
    lemma_attr(node, "kind"@);
    lemma_attr(node, "id"@);
    lemma_attr(node, "anchor"@);
    let (st1b, found) = crate::lower::required(st1, node, "kind"@);
    let (st2, kind) = match found {
        Some(a) => {
            lemma_settled(st1b, a.value_span, crate::lower::track_kind(a.value));
            crate::lower::settled(st1b, a.value_span, crate::lower::track_kind(a.value))
        },
        None => (st1b, None),
    };
    match kind {
        None => {},
        Some(k) => {
            let id = crate::lower::or_default(
                crate::lower::value_of(node, "id"@),
                "track"@ + crate::text::dec(index),
            );
            let message = "duplicate track id `"@ + id + "`"@;
            lemma_with_error(st2, node.name_span, message);
            let st3 = if st2.tracks.contains(id) {
                crate::lower::with_error(st2, node.name_span, message)
            } else {
                LowerView { tracks: st2.tracks.push(id), ..st2 }
            };
            let st4 = match node.attr("anchor"@) {
                Some(a) => {
                    lemma_settled(st3, a.value_span, crate::anchor::anchor_ref(a.value));
                    crate::lower::settled(
                        st3,
                        a.value_span,
                        crate::anchor::anchor_ref(a.value),
                    ).0
                },
                None => st3,
            };
            lemma_without_text(st4, node);
            let st5 = crate::lower::without_text(st4, node);
            lemma_elements(st5, node.children, node.children.len() as int);
            lemma_elements_say(st5, node.children);
        },
    }
}

pub open spec fn line_says(l: ScriptLineView, node: RawNodeView) -> bool {
    &&& node.name == "line"@
    &&& gives(node, "id"@, l.id)
    &&& node.text_content() == Some((l.text, l.span))
}

pub open spec fn script_says(s: ScriptView, node: RawNodeView) -> bool {
    &&& gives(node, "track"@, s.track)
    &&& text_is(node, "voice"@, s.voice)
    &&& s.span == node.span
    &&& s.lines.len() == node.elements().len()
    &&& forall|i: int|
        0 <= i < s.lines.len() ==> line_says(#[trigger] s.lines[i], node.elements()[i])
}

proof fn lemma_line_says(st: LowerView, child: RawNodeView)
    ensures
        ({
            let (out, l) = crate::lower::script_line(st, child);
            clean(out) ==> (l matches Some(v) && line_says(v, child))
        }),
{
    lemma_script_line(st, child);
    lemma_attr(child, "id"@);
}

proof fn lemma_lines_say(st: LowerView, nodes: Seq<RawNodeView>, n: int)
    requires
        0 <= n <= nodes.len(),
    ensures
        ({
            let (out, lines) = crate::lower::script_lines(st, nodes, n);
            clean(out) ==> lines.len() == n && forall|i: int|
                0 <= i < n ==> line_says(#[trigger] lines[i], nodes[i])
        }),
    decreases n,
{
    if n > 0 {
        lemma_lines_say(st, nodes, n - 1);
        lemma_script_lines(st, nodes, n - 1);
        let (st1, lines) = crate::lower::script_lines(st, nodes, n - 1);
        lemma_script_line(st1, nodes[n - 1]);
        lemma_line_says(st1, nodes[n - 1]);
    }
}

proof fn lemma_script_says(st: LowerView, node: RawNodeView)
    ensures
        ({
            let (out, s) = crate::lower::script(st, node);
            clean(out) ==> (s matches Some(v) && script_says(v, node))
        }),
{
    lemma_script(st, node);
    lemma_attr(node, "track"@);
    lemma_attr(node, "voice"@);
    let allowed = seq!["track"@, "voice"@];
    let st1 = crate::lower::checked_attrs(st, node, allowed);
    let st2 = LowerView { script_span: Some(node.span), ..st1 };
    let (st3, track) = crate::lower::required(st2, node, "track"@);
    let st4 = match track {
        Some(t) => LowerView { script_track: Some(t.value), ..st3 },
        None => st3,
    };
    let n = node.elements().len() as int;
    lemma_lines_say(st4, node.elements(), n);
    let st5 = crate::lower::script_lines(st4, node.elements(), n).0;
    lemma_with_error(st5, node.name_span, "<script> has no <line> children"@);
}

pub open spec fn render_says(r: RenderTargetView, node: RawNodeView) -> bool {
    gives(node, "target"@, r.target) && r.span == node.span
}

proof fn lemma_render_says(st: LowerView, node: RawNodeView)
    ensures
        ({
            let (out, r) = crate::lower::render_target(st, node);
            clean(out) ==> (r matches Some(v) && render_says(v, node))
        }),
{
    lemma_attr(node, "target"@);
    let st1 = crate::lower::checked_attrs(st, node, seq!["target"@]);
    let st2 = crate::lower::without_text(st1, node);
    let n = node.elements().len() as int;
    let st3 = crate::lower::refused(st2, node.elements(), "<render> takes no elements"@, n);
    lemma_required(st3, node, "target"@);
}

/// The nodes of a name.
pub open spec fn named_at(nodes: Seq<RawNodeView>, name: Seq<char>) -> spec_fn(int) -> bool {
    |i: int| nodes[i].name == name
}

/// Among the first `n` nodes there is one of a name, and it is node `i`.
pub open spec fn is_only(nodes: Seq<RawNodeView>, name: Seq<char>, n: int, i: int) -> bool {
    &&& 0 <= i < n
    &&& nodes[i].name == name
    &&& forall|j: int| 0 <= j < n && (#[trigger] nodes[j]).name == name ==> j == i
}

pub open spec fn has_none(nodes: Seq<RawNodeView>, name: Seq<char>, n: int) -> bool {
    forall|i: int| 0 <= i < n ==> (#[trigger] nodes[i]).name != name
}

spec fn build_says(b: Build, nodes: Seq<RawNodeView>, n: int, src: Option<Seq<char>>) -> bool {
    &&& match b.script {
        Some(s) => exists|i: int| #[trigger]
            is_only(nodes, "script"@, n, i) && script_says(s, nodes[i]),
        None => has_none(nodes, "script"@, n),
    }
    &&& match b.render {
        Some(r) => exists|i: int| #[trigger]
            is_only(nodes, "render"@, n, i) && render_says(r, nodes[i]),
        None => has_none(nodes, "render"@, n),
    }
    &&& exists|at: Seq<int>|
        {
            &&& #[trigger] crate::select::selects(at, n, named_at(nodes, "track"@))
            &&& b.tracks.len() == at.len()
            &&& forall|k: int|
                0 <= k < at.len() ==> track_says(
                    #[trigger] b.tracks[k],
                    nodes[at[k]],
                    at[k] as nat,
                    src,
                )
        }
    &&& forall|i: int|
        0 <= i < n ==> (#[trigger] nodes[i]).name == "script"@ || nodes[i].name == "track"@
            || nodes[i].name == "render"@
    &&& b.st.script_track == src
}

pub proof fn lemma_first_source(nodes: Seq<RawNodeView>, i: int, n: int)
    requires
        0 <= i <= n < nodes.len(),
        has_none(nodes, "script"@, n),
        nodes[n].name == "script"@,
        nodes[n].attr("track"@) is Some,
    ensures
        crate::lower::first_script_track(nodes, i) == crate::lower::value_of(
            nodes[n],
            "track"@,
        ),
    decreases n - i,
{
    if i < n {
        lemma_first_source(nodes, i + 1, n);
    }
}

pub proof fn lemma_names_differ()
    ensures
        "script"@ != "track"@,
        "script"@ != "render"@,
        "track"@ != "render"@,
{
    reveal_strlit("script");
    reveal_strlit("track");
    reveal_strlit("render");
    assert("script"@[0] == 's' && "track"@[0] == 't' && "render"@[0] == 'r');
}

proof fn lemma_build_says(st: LowerView, nodes: Seq<RawNodeView>, n: int)
    requires
        st.cues.len() == 0,
        st.tracks.len() == 0,
        st.script_track == crate::lower::first_script_track(nodes, 0),
        0 <= n <= nodes.len(),
    ensures
        ({
            let b = crate::lower::root_children(st, nodes, n);
            clean(b.st) ==> build_says(b, nodes, n, st.script_track)
        }),
    decreases n,
{
    let src = st.script_track;
    let keep = named_at(nodes, "track"@);
    let out = crate::lower::root_children(st, nodes, n);
    if n == 0 {
        crate::select::lemma_select_none(keep);
        assert(crate::select::selects(Seq::empty(), 0, keep));
    } else if clean(out.st) {
        lemma_names_differ();
        lemma_root_children(st, nodes, n - 1);
        let b = crate::lower::root_children(st, nodes, n - 1);
        let child = nodes[n - 1];
        let i = n - 1;
        lemma_with_error(b.st, child.name_span, "duplicate <script>"@);
        lemma_with_error(b.st, child.name_span, "duplicate <render>"@);
        lemma_with_error(
            b.st,
            child.name_span,
            "unexpected <"@ + child.name + "> (allowed: script, track, render)"@,
        );
        lemma_script(b.st, child);
        lemma_script_says(b.st, child);
        lemma_track(b.st, child, i as nat);
        lemma_track_says(b.st, child, i as nat);
        lemma_render_target(b.st, child);
        lemma_render_says(b.st, child);
        assert(clean(b.st));
        lemma_build_says(st, nodes, n - 1);
        let at = choose|at: Seq<int>|
            {
                &&& #[trigger] crate::select::selects(at, n - 1, keep)
                &&& b.tracks.len() == at.len()
                &&& forall|k: int|
                    0 <= k < at.len() ==> track_says(
                        #[trigger] b.tracks[k],
                        nodes[at[k]],
                        at[k] as nat,
                        src,
                    )
            };
        if child.name == "track"@ {
            crate::select::lemma_select_take(at, n, keep);
            let all = at.push(i);
            assert(crate::select::selects(all, n, keep));
            assert forall|k: int| 0 <= k < all.len() implies track_says(
                #[trigger] out.tracks[k],
                nodes[all[k]],
                all[k] as nat,
                src,
            ) by {
                if k < at.len() {
                    assert(out.tracks[k] == b.tracks[k]);
                }
            }
        } else {
            crate::select::lemma_select_skip(at, n, keep);
            assert(crate::select::selects(at, n, keep));
        }
        if child.name == "script"@ {
            lemma_attr(child, "track"@);
            lemma_required(
                LowerView {
                    script_span: Some(child.span),
                    ..crate::lower::checked_attrs(b.st, child, seq!["track"@, "voice"@])
                },
                child,
                "track"@,
            );
            assert(out.script is Some);
            assert(child.attr("track"@) is Some);
            lemma_first_source(nodes, 0, i);
            assert(is_only(nodes, "script"@, n, i));
        } else {
            match b.script {
                Some(s) => {
                    let j = choose|j: int| #[trigger]
                        is_only(nodes, "script"@, n - 1, j) && script_says(s, nodes[j]);
                    assert(is_only(nodes, "script"@, n, j));
                },
                None => {},
            }
        }
        if child.name == "render"@ {
            assert(is_only(nodes, "render"@, n, i));
        } else {
            match b.render {
                Some(r) => {
                    let j = choose|j: int| #[trigger]
                        is_only(nodes, "render"@, n - 1, j) && render_says(r, nodes[j]);
                    assert(is_only(nodes, "render"@, n, j));
                },
                None => {},
            }
        }
    }
}

/// The timing source that a scene's script names.
pub open spec fn scene_source(s: SceneView) -> Option<Seq<char>> {
    match s.script {
        Some(v) => Some(v.track),
        None => None,
    }
}

/// A scene says what its document does.
pub open spec fn scene_says(s: SceneView, root: RawNodeView) -> bool {
    let nodes = root.elements();
    &&& root.name == "scene"@
    &&& exists|v: Seq<char>| #[trigger]
        gives(root, "canvas"@, v) && crate::scene::canvas(v) == Ok::<Canvas, Seq<char>>(s.canvas)
    &&& exists|v: Seq<char>| #[trigger]
        gives(root, "fps"@, v) && crate::scene::rational(v) == Ok::<Rational, Seq<char>>(
            s.frame_rate,
        )
    &&& {
        ||| exists|v: Seq<char>| #[trigger]
            gives(root, "clear"@, v) && crate::scene::color(v) == Ok::<Color, Seq<char>>(s.clear)
        ||| lacks(root, "clear"@) && s.clear == (Color { r: 0, g: 0, b: 0, a: 0 })
    }
    &&& match s.script {
        Some(v) => exists|i: int| #[trigger]
            is_only(nodes, "script"@, nodes.len() as int, i) && script_says(v, nodes[i]),
        None => has_none(nodes, "script"@, nodes.len() as int),
    }
    &&& match s.render {
        Some(v) => exists|i: int| #[trigger]
            is_only(nodes, "render"@, nodes.len() as int, i) && render_says(v, nodes[i]),
        None => has_none(nodes, "render"@, nodes.len() as int),
    }
    &&& exists|at: Seq<int>|
        {
            &&& #[trigger] crate::select::selects(
                at,
                root.elements().len() as int,
                named_at(root.elements(), "track"@),
            )
            &&& s.tracks.len() == at.len()
            &&& forall|k: int|
                0 <= k < at.len() ==> track_says(
                    #[trigger] s.tracks[k],
                    nodes[at[k]],
                    at[k] as nat,
                    scene_source(s),
                )
        }
    &&& forall|i: int|
        0 <= i < nodes.len() ==> (#[trigger] nodes[i]).name == "script"@ || nodes[i].name
            == "track"@ || nodes[i].name == "render"@
}

/// A scene says what its document does, and nothing else: its canvas, rate and
/// color; its script with every line; its tracks in order; and in each track
/// every element with its own kind, id, timing, placement, entrance and
/// children, all read off the attributes of its own node.
pub proof fn scenes_say_what_documents_do(root: RawNodeView)
    ensures
        crate::lower::lowered(root).0 matches Some(s) ==> scene_says(s, root),
{
    let st = crate::lower::fresh();
    let (end, s) = crate::lower::scene(st, root);
    if clean(end) && root.name == "scene"@ {
        let allowed = seq!["canvas"@, "fps"@, "clear"@];
        lemma_unknown_attrs(st, root, allowed, root.attrs.len() as int);
        let st1 = crate::lower::checked_attrs(st, root, allowed);
        lemma_required(st1, root, "canvas"@);
        lemma_attr(root, "canvas"@);
        lemma_attr(root, "fps"@);
        lemma_attr(root, "clear"@);
        let (st1b, found) = crate::lower::required(st1, root, "canvas"@);
        let (st2, canvas) = match found {
            Some(a) => {
                lemma_settled(st1b, a.value_span, crate::scene::canvas(a.value));
                crate::lower::settled(st1b, a.value_span, crate::scene::canvas(a.value))
            },
            None => (st1b, None),
        };
        lemma_required(st2, root, "fps"@);
        let (st2b, found) = crate::lower::required(st2, root, "fps"@);
        let (st3, fps) = match found {
            Some(a) => {
                lemma_settled(st2b, a.value_span, crate::scene::rational(a.value));
                crate::lower::settled(st2b, a.value_span, crate::scene::rational(a.value))
            },
            None => (st2b, None),
        };
        let st4 = match root.attr("clear"@) {
            Some(a) => {
                lemma_settled(st3, a.value_span, crate::scene::color(a.value));
                crate::lower::settled(st3, a.value_span, crate::scene::color(a.value)).0
            },
            None => st3,
        };
        lemma_without_text(st4, root);
        let st5 = crate::lower::without_text(st4, root);
        let nodes = root.elements();
        let n = nodes.len() as int;
        let st6 = match crate::lower::first_script_track(nodes, 0) {
            Some(t) => LowerView { script_track: Some(t), ..st5 },
            None => st5,
        };
        lemma_root_children(st6, nodes, n);
        let b = crate::lower::root_children(st6, nodes, n);
        lemma_script_check(b.st, b.tracks);
        let mid = crate::lower::script_check(b.st, b.tracks);
        lemma_tracks_check(mid, b.tracks, b.tracks.len() as int);
        let st7 = crate::lower::references(b.st, b.tracks);
        lemma_with_warning(
            st7,
            root.span,
            "scene declares no tracks; it will render nothing"@,
        );
        assert(clean(b.st));
        assert(st6.script_track == crate::lower::first_script_track(nodes, 0));
        lemma_build_says(st6, nodes, n);
        let v = s->0;
        if b.script is None {
            lemma_first_script_track(nodes, 0);
        }
        assert(st6.script_track == scene_source(v));
        let at = choose|at: Seq<int>|
            {
                &&& #[trigger] crate::select::selects(at, n, named_at(nodes, "track"@))
                &&& b.tracks.len() == at.len()
                &&& forall|k: int|
                    0 <= k < at.len() ==> track_says(
                        #[trigger] b.tracks[k],
                        nodes[at[k]],
                        at[k] as nat,
                        st6.script_track,
                    )
            };
        assert(crate::select::selects(at, n, named_at(nodes, "track"@)));
        assert(scene_says(v, root));
    } else {
        lemma_with_error(
            st,
            root.name_span,
            "expected <scene>, found <"@ + root.name + ">"@,
        );
    }
}

// Children of raw nodes.

/// The elements of a node are its element children, in order.
pub proof fn elements_are_the_nodes(node: RawNodeView)
    ensures
        exists|at: Seq<int>|
            {
                &&& #[trigger] crate::select::selects(
                    at,
                    node.children.len() as int,
                    node_at(node.children),
                )
                &&& node.elements().len() == at.len()
                &&& forall|k: int|
                    0 <= k < at.len() ==> node.children[at[k]] == RawChildView::Node(
                        #[trigger] node.elements()[k],
                    )
            },
{
    let n = node.children.len() as int;
    let at = lemma_nodes(node.children, n);
    assert(crate::select::selects(at, n, node_at(node.children)));
}

proof fn lemma_nodes(children: Seq<RawChildView>, n: int) -> (at: Seq<int>)
    requires
        0 <= n <= children.len(),
    ensures
        crate::select::selects(at, n, node_at(children)),
        crate::raw::nodes_of(children, n).len() == at.len(),
        forall|k: int|
            0 <= k < at.len() ==> children[at[k]] == RawChildView::Node(
                #[trigger] crate::raw::nodes_of(children, n)[k],
            ),
    decreases n,
{
    let keep = node_at(children);
    if n == 0 {
        crate::select::lemma_select_none(keep);
        Seq::empty()
    } else {
        let at = lemma_nodes(children, n - 1);
        if children[n - 1] is Node {
            crate::select::lemma_select_take(at, n, keep);
            at.push(n - 1)
        } else {
            crate::select::lemma_select_skip(at, n, keep);
            at
        }
    }
}

/// The text children that hold more than whitespace.
pub open spec fn words_at(children: Seq<RawChildView>) -> spec_fn(int) -> bool {
    |i: int|
        children[i] matches RawChildView::Text { text, .. } && crate::text::trimmed(text).len() > 0
}

/// The trimmed texts at some children, a space between them.
pub open spec fn spoken(children: Seq<RawChildView>, at: Seq<int>) -> Seq<char>
    decreases at.len(),
{
    if at.len() == 0 {
        Seq::empty()
    } else {
        let last = match children[at.last()] {
            RawChildView::Text { text, .. } => crate::text::trimmed(text),
            RawChildView::Node(_) => Seq::empty(),
        };
        if at.len() == 1 {
            last
        } else {
            spoken(children, at.drop_last()) + seq![' '] + last
        }
    }
}

proof fn lemma_spoken(children: Seq<RawChildView>, n: int) -> (at: Seq<int>)
    requires
        0 <= n <= children.len(),
    ensures
        crate::select::selects(at, n, words_at(children)),
        match crate::raw::text_of(children, n) {
            Some((t, _)) => at.len() > 0 && t == spoken(children, at),
            None => at.len() == 0,
        },
    decreases n,
{
    let keep = words_at(children);
    if n == 0 {
        crate::select::lemma_select_none(keep);
        Seq::empty()
    } else {
        let at = lemma_spoken(children, n - 1);
        if keep(n - 1) {
            crate::select::lemma_select_take(at, n, keep);
            let all = at.push(n - 1);
            assert(all.drop_last() =~= at);
            match crate::raw::text_of(children, n - 1) {
                Some((t, _)) => {
                    let word = crate::text::trimmed(children[n - 1]->text);
                    assert(t.push(' ') + word =~= t + seq![' '] + word);
                },
                None => {},
            }
            all
        } else {
            crate::select::lemma_select_skip(at, n, keep);
            at
        }
    }
}

/// The text of a node is that of its text children, each trimmed, a space
/// between them, those of nothing but whitespace left out.
pub proof fn texts_are_spoken_in_order(node: RawNodeView)
    ensures
        exists|at: Seq<int>|
            {
                &&& #[trigger] crate::select::selects(
                    at,
                    node.children.len() as int,
                    words_at(node.children),
                )
                &&& match node.text_content() {
                    Some((t, _)) => at.len() > 0 && t == spoken(node.children, at),
                    None => at.len() == 0,
                }
            },
{
    let n = node.children.len() as int;
    let at = lemma_spoken(node.children, n);
    assert(crate::select::selects(at, n, words_at(node.children)));
}

} // verus!
