//! A document that says a scene in which every reference resolves compiles to
//! that scene.

use vstd::prelude::*;

use crate::lower::{Build, LowerView};
use crate::lower_laws::Names;
use crate::raw::{RawChildView, RawNodeView};
use crate::scene::{
    ElementKindView, ElementView, RenderTargetView, SceneView, ScriptLineView, ScriptView,
    TrackKind, TrackView,
};
use crate::span::Span;

verus! {

/// Every `with` payload of a node and of the nodes below it is a JSON object.
pub open spec fn tidy(node: RawNodeView) -> bool
    decreases node,
{
    &&& node.name == "program"@ ==> forall|v: Seq<char>|
        #[trigger] crate::lower_laws::gives(node, "with"@, v) ==> crate::json::json_is_object(v)
    &&& forall|i: int|
        0 <= i < node.children.len() ==> match #[trigger] node.children[i] {
            RawChildView::Node(c) => tidy(c),
            RawChildView::Text { .. } => true,
        }
}

/// A document with nothing in it that a scene does not say: no stray text, no
/// elements in lines and render targets, and only objects for programs.
pub open spec fn tidy_root(root: RawNodeView) -> bool {
    &&& root.text_content() is None
    &&& forall|i: int|
        0 <= i < root.elements().len() ==> {
            let n = #[trigger] root.elements()[i];
            &&& n.name == "track"@ ==> n.text_content() is None && tidy(n)
            &&& n.name == "render"@ ==> n.text_content() is None && n.elements().len() == 0
            &&& n.name == "script"@ ==> forall|j: int|
                0 <= j < n.elements().len() ==> (#[trigger] n.elements()[j]).elements().len() == 0
        }
}

// States.

/// The same tables and still no error.
spec fn goes_on(a: LowerView, b: LowerView) -> bool {
    &&& crate::lower_laws::clean(b)
    &&& b.cues == a.cues
    &&& b.tracks == a.tracks
    &&& b.script_track == a.script_track
    &&& b.script_span == a.script_span
}

proof fn lemma_warned(st: LowerView, span: Span, message: Seq<char>)
    requires
        crate::lower_laws::clean(st),
    ensures
        goes_on(st, crate::lower::with_warning(st, span, message)),
{
    crate::lower_laws::lemma_push(st, crate::diagnostic::warning_view(message, Some(span)));
}

proof fn lemma_attrs(st: LowerView, node: RawNodeView, allowed: Seq<Seq<char>>, n: int)
    requires
        crate::lower_laws::clean(st),
    ensures
        goes_on(st, crate::lower::unknown_attrs(st, node, allowed, n)),
    decreases n,
{
    if 0 < n <= node.attrs.len() {
        lemma_attrs(st, node, allowed, n - 1);
        let a = node.attrs[n - 1];
        lemma_warned(
            crate::lower::unknown_attrs(st, node, allowed, n - 1),
            a.name_span,
            "unknown attribute `"@ + a.name + "` on <"@ + node.name + ">"@,
        );
    }
}

/// The attribute that is found is the one that is given.
proof fn lemma_given(node: RawNodeView, name: Seq<char>)
    ensures
        crate::lower_laws::lacks(node, name) ==> node.attr(name) is None,
        forall|v: Seq<char>| #[trigger]
            crate::lower_laws::gives(node, name, v) ==> (node.attr(name) matches Some(a)
                && a.value == v),
{
    crate::lower_laws::lemma_attr(node, name);
    assert forall|v: Seq<char>| #[trigger]
        crate::lower_laws::gives(node, name, v) implies (node.attr(name) matches Some(a)
        && a.value == v) by {
        let i = choose|i: int|
            {
                &&& 0 <= i < node.attrs.len()
                &&& (#[trigger] node.attrs[i]).name == name
                &&& node.attrs[i].value == v
                &&& forall|j: int| 0 <= j < i ==> (#[trigger] node.attrs[j]).name != name
            };
        if node.attr(name) is None {
            assert(node.attrs[i].name != name);
        } else {
            let w = node.attr(name)->0.value;
            let k = choose|k: int|
                {
                    &&& 0 <= k < node.attrs.len()
                    &&& (#[trigger] node.attrs[k]).name == name
                    &&& node.attrs[k].value == w
                    &&& forall|j: int| 0 <= j < k ==> (#[trigger] node.attrs[j]).name != name
                };
            assert(!(k < i)) by {
                if k < i {
                    assert(node.attrs[k].name != name);
                }
            }
            assert(!(i < k)) by {
                if i < k {
                    assert(node.attrs[i].name != name);
                }
            }
        }
    }
    if crate::lower_laws::lacks(node, name) && node.attr(name) is Some {
        let w = node.attr(name)->0.value;
        let k = choose|k: int|
            {
                &&& 0 <= k < node.attrs.len()
                &&& (#[trigger] node.attrs[k]).name == name
                &&& node.attrs[k].value == w
                &&& forall|j: int| 0 <= j < k ==> (#[trigger] node.attrs[j]).name != name
            };
        assert(node.attrs[k].name != name);
    }
}

proof fn lemma_source(st: LowerView, node: RawNodeView, src: Seq<char>)
    requires
        crate::lower_laws::clean(st),
        crate::lower_laws::gives(node, "src"@, src),
    ensures
        goes_on(st, crate::lower::source(st, node).0),
        crate::lower::source(st, node).1 matches Some(a) && a.value == src,
{
    lemma_given(node, "src"@);
    let a = node.attr("src"@)->0;
    lemma_warned(
        st,
        a.value_span,
        "src path contains `..` — it may escape the project root"@,
    );
}

// Elements.

proof fn lemma_kind(st: LowerView, node: RawNodeView, kind: ElementKindView)
    requires
        crate::lower_laws::clean(st),
        crate::lower_laws::kind_is(kind, node, st.script_track),
        tidy(node),
    ensures
        goes_on(st, crate::lower::element_kind(st, node).0),
        crate::lower::element_kind(st, node).1 == Some(kind),
{
    if node.name == "clip"@ {
        lemma_clip(st, node, kind);
    } else if node.name == "image"@ {
        let allowed = seq!["src"@] + crate::lower::common_attrs();
        lemma_attrs(st, node, allowed, node.attrs.len() as int);
        lemma_source(crate::lower::checked_attrs(st, node, allowed), node, kind->Image_src);
    } else if node.name == "text"@ {
        lemma_text(st, node, kind);
    } else if node.name == "board"@ {
        lemma_attrs(st, node, crate::lower::common_attrs(), node.attrs.len() as int);
    } else if node.name == "captions"@ {
        lemma_captions(st, node, kind);
    } else if node.name == "music"@ || node.name == "sound"@ {
        lemma_audio(st, node, kind);
    } else {
        lemma_program(st, node, kind);
    }
}

proof fn lemma_clip(st: LowerView, node: RawNodeView, kind: ElementKindView)
    requires
        crate::lower_laws::clean(st),
        node.name == "clip"@,
        crate::lower_laws::kind_is(kind, node, st.script_track),
    ensures
        goes_on(st, crate::lower::clip_kind(st, node).0),
        crate::lower::clip_kind(st, node).1 == Some(kind),
{
    let allowed = seq!["src"@, "from"@] + crate::lower::common_attrs();
    lemma_attrs(st, node, allowed, node.attrs.len() as int);
    lemma_source(crate::lower::checked_attrs(st, node, allowed), node, kind->Clip_src);
    lemma_given(node, "from"@);
}

proof fn lemma_text(st: LowerView, node: RawNodeView, kind: ElementKindView)
    requires
        crate::lower_laws::clean(st),
        node.name == "text"@,
        crate::lower_laws::kind_is(kind, node, st.script_track),
    ensures
        goes_on(st, crate::lower::text_kind(st, node).0),
        crate::lower::text_kind(st, node).1 == Some(kind),
{
    lemma_different_names();
    let allowed = seq!["bind"@] + crate::lower::common_attrs();
    lemma_attrs(st, node, allowed, node.attrs.len() as int);
    let st1 = crate::lower::checked_attrs(st, node, allowed);
    lemma_given(node, "bind"@);
    match node.text_content() {
        Some((_, span)) => lemma_warned(
            st1,
            span,
            "text content is ignored when `bind` is set"@,
        ),
        None => {},
    }
}

proof fn lemma_different_names()
    ensures
        "text"@ != "clip"@,
        "text"@ != "image"@,
        "captions"@ != "clip"@,
        "captions"@ != "image"@,
        "captions"@ != "text"@,
        "captions"@ != "board"@,
        "music"@ != "clip"@,
        "music"@ != "image"@,
        "music"@ != "text"@,
        "music"@ != "board"@,
        "music"@ != "captions"@,
        "sound"@ != "clip"@,
        "sound"@ != "image"@,
        "sound"@ != "text"@,
        "sound"@ != "board"@,
        "sound"@ != "captions"@,
        "sound"@ != "music"@,
        "board"@ != "clip"@,
        "board"@ != "image"@,
        "board"@ != "text"@,
        "block"@ != "karaoke"@,
        "visual"@ != "audio"@,
{
    reveal_strlit("clip");
    reveal_strlit("image");
    reveal_strlit("text");
    reveal_strlit("board");
    reveal_strlit("captions");
    reveal_strlit("music");
    reveal_strlit("sound");
    reveal_strlit("block");
    reveal_strlit("karaoke");
    reveal_strlit("visual");
    reveal_strlit("audio");
    assert("clip"@.len() == 4 && "text"@.len() == 4 && "clip"@[0] == 'c' && "text"@[0] == 't');
    assert("image"@.len() == 5 && "board"@.len() == 5 && "music"@.len() == 5 && "sound"@.len()
        == 5 && "captions"@.len() == 8);
    assert("image"@[0] == 'i' && "board"@[0] == 'b' && "music"@[0] == 'm' && "sound"@[0] == 's');
    assert("block"@.len() == 5 && "karaoke"@.len() == 7 && "visual"@.len() == 6 && "audio"@.len()
        == 5);
}

proof fn lemma_captions(st: LowerView, node: RawNodeView, kind: ElementKindView)
    requires
        crate::lower_laws::clean(st),
        node.name == "captions"@,
        crate::lower_laws::kind_is(kind, node, st.script_track),
    ensures
        goes_on(st, crate::lower::captions_kind(st, node).0),
        crate::lower::captions_kind(st, node).1 == Some(kind),
{
    lemma_different_names();
    let allowed = seq!["style"@, "anchor"@] + crate::lower::common_attrs();
    lemma_attrs(st, node, allowed, node.attrs.len() as int);
    lemma_given(node, "style"@);
    lemma_given(node, "anchor"@);
}

proof fn lemma_audio(st: LowerView, node: RawNodeView, kind: ElementKindView)
    requires
        crate::lower_laws::clean(st),
        node.name == "music"@ || node.name == "sound"@,
        crate::lower_laws::kind_is(kind, node, st.script_track),
    ensures
        goes_on(st, crate::lower::audio_kind(st, node).0),
        crate::lower::audio_kind(st, node).1 == Some(kind),
{
    lemma_different_names();
    let allowed = seq!["src"@, "gain"@, "duck"@, "from"@] + crate::lower::common_attrs();
    lemma_attrs(st, node, allowed, node.attrs.len() as int);
    let st1 = crate::lower::checked_attrs(st, node, allowed);
    let src = if node.name == "music"@ {
        kind->Music_src
    } else {
        kind->Sound_src
    };
    lemma_source(st1, node, src);
    let st2 = crate::lower::source(st1, node).0;
    lemma_given(node, "gain"@);
    lemma_given(node, "from"@);
    lemma_given(node, "duck"@);
    match node.attr("duck"@) {
        Some(d) => lemma_warned(
            st2,
            d.name_span,
            "`duck` has no effect on <sound> (use <music>)"@,
        ),
        None => {},
    }
}

proof fn lemma_program(st: LowerView, node: RawNodeView, kind: ElementKindView)
    requires
        crate::lower_laws::clean(st),
        node.name == "program"@,
        crate::lower_laws::kind_is(kind, node, st.script_track),
        tidy(node),
    ensures
        goes_on(st, crate::lower::element_kind(st, node).0),
        crate::lower::element_kind(st, node).1 == Some(kind),
{
    reveal_strlit("program");
    reveal_strlit("clip");
    reveal_strlit("image");
    reveal_strlit("text");
    reveal_strlit("board");
    reveal_strlit("captions");
    reveal_strlit("music");
    reveal_strlit("sound");
    assert("program"@.len() == 7 && "clip"@.len() == 4 && "text"@.len() == 4 && "image"@.len() == 5
        && "board"@.len() == 5 && "music"@.len() == 5 && "sound"@.len() == 5 && "captions"@.len()
        == 8);
    let allowed = seq!["src"@, "with"@] + crate::lower::common_attrs();
    lemma_attrs(st, node, allowed, node.attrs.len() as int);
    lemma_source(crate::lower::checked_attrs(st, node, allowed), node, kind->Program_src);
    lemma_given(node, "with"@);
    crate::lower_laws::lemma_attr(node, "with"@);
}

proof fn lemma_common(st: LowerView, node: RawNodeView, e: ElementView)
    requires
        crate::lower_laws::clean(st),
        crate::lower_laws::timing_is(node, e.timing),
        crate::lower_laws::placement_is(node, e.placement),
        crate::lower_laws::anim_is(node, e.anim),
    ensures
        ({
            let c = crate::lower::common(st, node);
            &&& c.st == st
            &&& c.timing == e.timing
            &&& c.placement == e.placement
            &&& c.anim == e.anim
        }),
{
    lemma_given(node, "during"@);
    lemma_given(node, "at"@);
    lemma_given(node, "anim"@);
}

proof fn lemma_element(st: LowerView, node: RawNodeView, e: ElementView)
    requires
        crate::lower_laws::clean(st),
        crate::lower_laws::says(e, node, st.script_track),
        crate::lower_laws::boards_alone_nest(e),
        tidy(node),
    ensures
        goes_on(st, crate::lower::element(st, node).0),
        crate::lower::element(st, node).1 == Some(e),
    decreases node, 0int,
{
    lemma_kind(st, node, e.kind);
    let st1 = crate::lower::element_kind(st, node).0;
    lemma_common(st1, node, e);
    lemma_given(node, "id"@);
    let n = node.children.len() as int;
    let at = choose|at: Seq<int>|
        {
            &&& #[trigger] crate::select::selects(
                at,
                node.children.len() as int,
                crate::lower_laws::node_at(node.children),
            )
            &&& e.children.len() == at.len()
            &&& forall|k: int|
                0 <= k < at.len() ==> 0 <= at[k] < node.children.len() && (
                node.children[at[k]] matches RawChildView::Node(c) && crate::lower_laws::says(
                    #[trigger] e.children[k],
                    c,
                    st.script_track,
                ))
        };
    assert(crate::lower_laws::all_say(e.children, node.children, st.script_track));
    lemma_elements(st1, node.children, n, at, e.children);
    let (st2, children) = crate::lower::elements(st1, node.children, n);
    assert(children == e.children);
    if node.name != "board"@ {
        assert(e.kind !is Board);
        assert(children.len() == 0);
    }
    let (st3, v) = crate::lower::finished(
        st2,
        node,
        e.kind,
        crate::lower::common(st1, node),
        children,
    );
    assert(v.children =~= e.children);
}

proof fn lemma_elements(
    st: LowerView,
    children: Seq<RawChildView>,
    n: int,
    at: Seq<int>,
    list: Seq<ElementView>,
)
    requires
        crate::lower_laws::clean(st),
        0 <= n <= children.len(),
        crate::select::selects(at, n, crate::lower_laws::node_at(children)),
        list.len() == at.len(),
        forall|k: int|
            0 <= k < at.len() ==> 0 <= at[k] < children.len() && (
            children[at[k]] matches RawChildView::Node(c) && crate::lower_laws::says(
                #[trigger] list[k],
                c,
                st.script_track,
            ) && tidy(c)) && crate::lower_laws::boards_alone_nest(list[k]),
    ensures
        goes_on(st, crate::lower::elements(st, children, n).0),
        crate::lower::elements(st, children, n).1 == list,
    decreases children, n,
{
    let keep = crate::lower_laws::node_at(children);
    if n == 0 {
        if at.len() > 0 {
            let first = at[0];
            assert(first < n);
        }
        assert(list =~= Seq::empty());
    } else {
        match children[n - 1] {
            RawChildView::Text { .. } => {
                lemma_unskip(at, n, keep);
                lemma_elements(st, children, n - 1, at, list);
            },
            RawChildView::Node(c) => {
                lemma_untake(at, n, keep);
                let head = list.drop_last();
                let k = list.len() - 1;
                assert forall|j: int| 0 <= j < at.drop_last().len() implies 0 <= at.drop_last()[j]
                    < children.len() && (children[at.drop_last()[j]] matches RawChildView::Node(c)
                    && crate::lower_laws::says(#[trigger] head[j], c, st.script_track) && tidy(c))
                    && crate::lower_laws::boards_alone_nest(head[j]) by {
                    assert(head[j] == list[j]);
                }
                lemma_elements(st, children, n - 1, at.drop_last(), head);
                let st1 = crate::lower::elements(st, children, n - 1).0;
                assert(crate::lower_laws::says(list[k], c, st.script_track));
                lemma_element(st1, c, list[k]);
                assert(head.push(list[k]) =~= list);
            },
        }
    }
}

proof fn lemma_unskip(at: Seq<int>, n: int, keep: spec_fn(int) -> bool)
    requires
        n > 0,
        crate::select::selects(at, n, keep),
        !keep(n - 1),
    ensures
        crate::select::selects(at, n - 1, keep),
{
    assert forall|k: int| 0 <= k < at.len() implies 0 <= #[trigger] at[k] < n - 1 && keep(
        at[k],
    ) by {
        assert(keep(at[k]));
    }
}

proof fn lemma_untake(at: Seq<int>, n: int, keep: spec_fn(int) -> bool)
    requires
        n > 0,
        crate::select::selects(at, n, keep),
        keep(n - 1),
    ensures
        at.len() > 0,
        at.last() == n - 1,
        crate::select::selects(at.drop_last(), n - 1, keep),
{
    assert(at.contains(n - 1));
    let k = choose|k: int| 0 <= k < at.len() && at[k] == n - 1;
    if k < at.len() - 1 {
        assert(at[k] < at[at.len() - 1]);
    }
    let head = at.drop_last();
    assert forall|j: int| 0 <= j < head.len() implies 0 <= #[trigger] head[j] < n - 1 && keep(
        head[j],
    ) by {
        assert(at[j] < at[at.len() - 1]);
    }
    assert forall|i: int| 0 <= i < n - 1 && #[trigger] keep(i) implies head.contains(i) by {
        let j = choose|j: int| 0 <= j < at.len() && at[j] == i;
        assert(head[j] == i);
    }
}

// References.

spec fn names_of(st: LowerView) -> Names {
    Names { cues: st.cues, source: st.script_track, tracks: st.tracks }
}

proof fn lemma_tree_resolves(st: LowerView, e: ElementView)
    requires
        crate::lower_laws::resolves(e, names_of(st)),
    ensures
        crate::lower::tree_check(st, e) == st,
    decreases e, 0int,
{
    assert(crate::lower::element_check(st, e) == st);
    lemma_list_resolves(st, e.children, e.children.len() as int);
}

proof fn lemma_list_resolves(st: LowerView, s: Seq<ElementView>, n: int)
    requires
        0 <= n <= s.len(),
        forall|i: int|
            0 <= i < n ==> crate::lower_laws::resolves(#[trigger] s[i], names_of(st)),
    ensures
        crate::lower::list_check(st, s, n) == st,
    decreases s, n,
{
    if n > 0 {
        assert(crate::lower_laws::resolves(s[n - 1], names_of(st)));
        lemma_tree_resolves(st, s[n - 1]);
        lemma_list_resolves(st, s, n - 1);
    }
}

proof fn lemma_tracks_resolve(st: LowerView, s: SceneView, n: int)
    requires
        crate::lower_laws::sound(s),
        names_of(st) == crate::lower_laws::scene_names(s),
        0 <= n <= s.tracks.len(),
    ensures
        crate::lower::tracks_check(st, s.tracks, n) == st,
    decreases n,
{
    if n > 0 {
        lemma_tracks_resolve(st, s, n - 1);
        let t = s.tracks[n - 1];
        assert forall|j: int| 0 <= j < t.elements.len() implies crate::lower_laws::resolves(
            #[trigger] t.elements[j],
            names_of(st),
        ) by {
            assert(crate::lower_laws::resolves(
                s.tracks[n - 1].elements[j],
                crate::lower_laws::scene_names(s),
            ));
        }
        lemma_list_resolves(st, t.elements, t.elements.len() as int);
    }
}

proof fn lemma_found(tracks: Seq<TrackView>, id: Seq<char>, i: int, k: int)
    requires
        0 <= i <= k < tracks.len(),
        tracks[k].id == id,
        forall|j: int| 0 <= j < k ==> (#[trigger] tracks[j]).id != id,
    ensures
        crate::lower::find_track(tracks, id, i) == Some(tracks[k]),
    decreases k - i,
{
    if i < k {
        assert(tracks[i].id != id);
        lemma_found(tracks, id, i + 1, k);
    }
}

proof fn lemma_script_resolves(st: LowerView, s: SceneView)
    requires
        crate::lower_laws::sound(s),
        st.script_track == crate::lower_laws::scene_source(s),
    ensures
        crate::lower::script_check(st, s.tracks) == st,
{
    match s.script {
        Some(v) => {
            let k = choose|i: int|
                0 <= i < s.tracks.len() && (#[trigger] s.tracks[i]).id == v.track
                    && s.tracks[i].kind == TrackKind::Audio;
            let ids = crate::lower_laws::track_ids(s.tracks);
            assert forall|j: int| 0 <= j < k implies (#[trigger] s.tracks[j]).id != v.track by {
                assert(ids[j] != ids[k]);
            }
            lemma_found(s.tracks, v.track, 0, k);
        },
        None => {},
    }
}

// Tracks, script and render target.

proof fn lemma_track(st: LowerView, node: RawNodeView, index: nat, t: TrackView)
    requires
        crate::lower_laws::clean(st),
        crate::lower_laws::track_says(t, node, index, st.script_track),
        node.text_content() is None,
        tidy(node),
        !st.tracks.contains(t.id),
        forall|j: int|
            0 <= j < t.elements.len() ==> crate::lower_laws::boards_alone_nest(
                #[trigger] t.elements[j],
            ),
    ensures
        ({
            let (out, v) = crate::lower::track(st, node, index);
            &&& v == Some(t)
            &&& goes_on(LowerView { tracks: st.tracks.push(t.id), ..st }, out)
        }),
{
    lemma_different_names();
    let allowed = seq!["kind"@, "id"@, "anchor"@];
    lemma_attrs(st, node, allowed, node.attrs.len() as int);
    let st1 = crate::lower::checked_attrs(st, node, allowed);
    lemma_given(node, "kind"@);
    lemma_given(node, "id"@);
    lemma_given(node, "anchor"@);
    let st3 = LowerView { tracks: st1.tracks.push(t.id), ..st1 };
    let at = choose|at: Seq<int>|
        {
            &&& #[trigger] crate::select::selects(
                at,
                node.children.len() as int,
                crate::lower_laws::node_at(node.children),
            )
            &&& t.elements.len() == at.len()
            &&& forall|k: int|
                0 <= k < at.len() ==> 0 <= at[k] < node.children.len() && (
                node.children[at[k]] matches RawChildView::Node(c) && crate::lower_laws::says(
                    #[trigger] t.elements[k],
                    c,
                    st.script_track,
                ))
        };
    assert(crate::lower_laws::all_say(t.elements, node.children, st.script_track));
    lemma_elements(st3, node.children, node.children.len() as int, at, t.elements);
}

proof fn lemma_render(st: LowerView, node: RawNodeView, r: RenderTargetView)
    requires
        crate::lower_laws::clean(st),
        crate::lower_laws::render_says(r, node),
        node.text_content() is None,
        node.elements().len() == 0,
    ensures
        goes_on(st, crate::lower::render_target(st, node).0),
        crate::lower::render_target(st, node).1 == Some(r),
{
    lemma_attrs(st, node, seq!["target"@], node.attrs.len() as int);
    lemma_given(node, "target"@);
}

proof fn lemma_line(st: LowerView, node: RawNodeView, l: ScriptLineView)
    requires
        crate::lower_laws::clean(st),
        crate::lower_laws::line_says(l, node),
        node.elements().len() == 0,
        !st.cues.contains(l.id),
    ensures
        ({
            let (out, v) = crate::lower::script_line(st, node);
            &&& v == Some(l)
            &&& goes_on(LowerView { cues: st.cues.push(l.id), ..st }, out)
        }),
{
    lemma_attrs(st, node, seq!["id"@], node.attrs.len() as int);
    lemma_given(node, "id"@);
}

proof fn lemma_lines(st: LowerView, nodes: Seq<RawNodeView>, n: int, lines: Seq<ScriptLineView>)
    requires
        crate::lower_laws::clean(st),
        st.cues.len() == 0,
        0 <= n <= nodes.len() == lines.len(),
        crate::lower_laws::line_ids(lines).no_duplicates(),
        forall|i: int|
            0 <= i < lines.len() ==> crate::lower_laws::line_says(#[trigger] lines[i], nodes[i]),
        forall|i: int| 0 <= i < nodes.len() ==> (#[trigger] nodes[i]).elements().len() == 0,
    ensures
        ({
            let (out, v) = crate::lower::script_lines(st, nodes, n);
            &&& v == lines.take(n)
            &&& goes_on(
                LowerView { cues: crate::lower_laws::line_ids(lines).take(n), ..st },
                out,
            )
        }),
    decreases n,
{
    let ids = crate::lower_laws::line_ids(lines);
    if n == 0 {
        assert(lines.take(0) =~= Seq::empty());
        assert(ids.take(0) =~= st.cues);
    } else {
        lemma_lines(st, nodes, n - 1, lines);
        let (st1, before) = crate::lower::script_lines(st, nodes, n - 1);
        let l = lines[n - 1];
        assert(crate::lower_laws::line_says(lines[n - 1], nodes[n - 1]));
        assert(nodes[n - 1].elements().len() == 0);
        assert(!st1.cues.contains(l.id)) by {
            if st1.cues.contains(l.id) {
                let some = ids.take(n - 1);
                let k = choose|k: int| 0 <= k < some.len() && some[k] == l.id;
                assert(ids[k] == ids[n - 1]);
            }
        }
        lemma_line(st1, nodes[n - 1], l);
        assert(lines.take(n) =~= lines.take(n - 1).push(l));
        assert(ids.take(n) =~= ids.take(n - 1).push(l.id));
    }
}

proof fn lemma_script(st: LowerView, node: RawNodeView, s: ScriptView)
    requires
        crate::lower_laws::clean(st),
        crate::lower_laws::script_says(s, node),
        st.cues.len() == 0,
        st.script_track == Some(s.track),
        s.lines.len() > 0,
        crate::lower_laws::line_ids(s.lines).no_duplicates(),
        forall|j: int|
            0 <= j < node.elements().len() ==> (#[trigger] node.elements()[j]).elements().len()
                == 0,
    ensures
        ({
            let (out, v) = crate::lower::script(st, node);
            &&& v == Some(s)
            &&& goes_on(
                LowerView {
                    cues: crate::lower_laws::line_ids(s.lines),
                    script_span: Some(node.span),
                    ..st
                },
                out,
            )
        }),
{
    let allowed = seq!["track"@, "voice"@];
    lemma_attrs(st, node, allowed, node.attrs.len() as int);
    let st1 = crate::lower::checked_attrs(st, node, allowed);
    lemma_given(node, "track"@);
    lemma_given(node, "voice"@);
    let st4 = LowerView { script_span: Some(node.span), ..st1 };
    let n = node.elements().len() as int;
    lemma_lines(st4, node.elements(), n, s.lines);
    assert(s.lines.take(n) =~= s.lines);
    assert(crate::lower_laws::line_ids(s.lines).take(n) =~= crate::lower_laws::line_ids(s.lines));
}

// The root.

/// What the first `n` nodes have made of a scene.
spec fn makes(b: Build, st: LowerView, s: SceneView, nodes: Seq<RawNodeView>, n: int, k: int) -> bool {
    let seen = !crate::lower_laws::has_none(nodes, "script"@, n);
    &&& crate::lower_laws::clean(b.st)
    &&& b.tracks == s.tracks.take(k)
    &&& b.st.tracks == crate::lower_laws::track_ids(s.tracks).take(k)
    &&& b.st.script_track == st.script_track
    &&& b.script == if seen {
        s.script
    } else {
        None
    }
    &&& b.st.cues == if seen {
        crate::lower_laws::script_ids(s.script)
    } else {
        Seq::empty()
    }
    &&& b.render == if crate::lower_laws::has_none(nodes, "render"@, n) {
        None
    } else {
        s.render
    }
}

proof fn lemma_makes(
    st: LowerView,
    s: SceneView,
    root: RawNodeView,
    n: int,
    at: Seq<int>,
)
    requires
        crate::lower_laws::clean(st),
        st.tracks.len() == 0,
        st.cues.len() == 0,
        st.script_track == crate::lower_laws::scene_source(s),
        crate::lower_laws::scene_says(s, root),
        crate::lower_laws::sound(s),
        tidy_root(root),
        0 <= n <= root.elements().len(),
        at.len() <= s.tracks.len(),
        crate::select::selects(at, n, crate::lower_laws::named_at(root.elements(), "track"@)),
        forall|k: int|
            0 <= k < at.len() ==> crate::lower_laws::track_says(
                #[trigger] s.tracks[k],
                root.elements()[at[k]],
                at[k] as nat,
                st.script_track,
            ),
    ensures
        makes(
            crate::lower::root_children(st, root.elements(), n),
            st,
            s,
            root.elements(),
            n,
            at.len() as int,
        ),
    decreases n,
{
    let nodes = root.elements();
    let keep = crate::lower_laws::named_at(nodes, "track"@);
    let ids = crate::lower_laws::track_ids(s.tracks);
    crate::lower_laws::lemma_names_differ();
    if n == 0 {
        if at.len() > 0 {
            let first = at[0];
            assert(first < n);
        }
        assert(s.tracks.take(0) =~= Seq::empty());
        assert(ids.take(0) =~= st.tracks);
        assert(st.cues =~= Seq::empty());
    } else {
        let node = nodes[n - 1];
        assert(node.name == "script"@ || node.name == "track"@ || node.name == "render"@);
        if node.name == "track"@ {
            lemma_untake(at, n, keep);
            lemma_makes(st, s, root, n - 1, at.drop_last());
            let b = crate::lower::root_children(st, nodes, n - 1);
            let k = at.len() - 1;
            let t = s.tracks[k];
            assert(at[k] == n - 1);
            assert(crate::lower_laws::track_says(
                s.tracks[k],
                nodes[at[k]],
                at[k] as nat,
                st.script_track,
            ));
            assert(!b.st.tracks.contains(t.id)) by {
                if b.st.tracks.contains(t.id) {
                    let some = ids.take(k);
                    let j = choose|j: int| 0 <= j < some.len() && some[j] == t.id;
                    assert(ids[j] == ids[k]);
                }
            }
            assert forall|j: int| 0 <= j < t.elements.len() implies
                crate::lower_laws::boards_alone_nest(#[trigger] t.elements[j]) by {
                assert(crate::lower_laws::boards_alone_nest(s.tracks[k].elements[j]));
            }
            lemma_track(b.st, node, (n - 1) as nat, t);
            assert(s.tracks.take(k + 1) =~= s.tracks.take(k).push(t));
            assert(ids.take(k + 1) =~= ids.take(k).push(t.id));
            lemma_still_none(nodes, "script"@, n);
            lemma_still_none(nodes, "render"@, n);
        } else {
            lemma_unskip(at, n, keep);
            lemma_makes(st, s, root, n - 1, at);
            let b = crate::lower::root_children(st, nodes, n - 1);
            if node.name == "script"@ {
                assert(s.script is Some);
                let i = choose|i: int| #[trigger]
                    crate::lower_laws::is_only(nodes, "script"@, nodes.len() as int, i)
                        && crate::lower_laws::script_says(s.script->0, nodes[i]);
                assert(i == n - 1);
                assert(crate::lower_laws::has_none(nodes, "script"@, n - 1));
                lemma_script(b.st, node, s.script->0);
                lemma_now_some(nodes, "script"@, n);
                lemma_still_none(nodes, "render"@, n);
            } else {
                assert(s.render is Some);
                let i = choose|i: int| #[trigger]
                    crate::lower_laws::is_only(nodes, "render"@, nodes.len() as int, i)
                        && crate::lower_laws::render_says(s.render->0, nodes[i]);
                assert(i == n - 1);
                assert(crate::lower_laws::has_none(nodes, "render"@, n - 1));
                lemma_render(b.st, node, s.render->0);
                lemma_now_some(nodes, "render"@, n);
                lemma_still_none(nodes, "script"@, n);
            }
        }
    }
}

proof fn lemma_still_none(nodes: Seq<RawNodeView>, name: Seq<char>, n: int)
    requires
        0 < n <= nodes.len(),
        nodes[n - 1].name != name,
    ensures
        crate::lower_laws::has_none(nodes, name, n) == crate::lower_laws::has_none(
            nodes,
            name,
            n - 1,
        ),
{
    if crate::lower_laws::has_none(nodes, name, n - 1) {
        assert forall|i: int| 0 <= i < n implies (#[trigger] nodes[i]).name != name by {}
    }
}

proof fn lemma_now_some(nodes: Seq<RawNodeView>, name: Seq<char>, n: int)
    requires
        0 < n <= nodes.len(),
        nodes[n - 1].name == name,
    ensures
        !crate::lower_laws::has_none(nodes, name, n),
{
    if crate::lower_laws::has_none(nodes, name, n) {
        assert(nodes[n - 1].name != name);
    }
}

/// A document that says a scene in which every reference resolves, and holds
/// nothing that a scene does not say, compiles to that scene.
pub proof fn sound_documents_compile(root: RawNodeView, s: SceneView)
    requires
        crate::lower_laws::scene_says(s, root),
        crate::lower_laws::sound(s),
        tidy_root(root),
    ensures
        crate::lower::lowered(root).0 == Some(s),
{
    let st = crate::lower::fresh();
    assert(crate::lower_laws::clean(st));
    let allowed = seq!["canvas"@, "fps"@, "clear"@];
    lemma_attrs(st, root, allowed, root.attrs.len() as int);
    let st1 = crate::lower::checked_attrs(st, root, allowed);
    lemma_given(root, "canvas"@);
    lemma_given(root, "fps"@);
    lemma_given(root, "clear"@);
    let nodes = root.elements();
    let n = nodes.len() as int;
    let source = crate::lower_laws::scene_source(s);
    match s.script {
        Some(v) => {
            let i = choose|i: int| #[trigger]
                crate::lower_laws::is_only(nodes, "script"@, n, i)
                    && crate::lower_laws::script_says(v, nodes[i]);
            lemma_given(nodes[i], "track"@);
            assert forall|j: int| 0 <= j < i implies (#[trigger] nodes[j]).name != "script"@ by {}
            crate::lower_laws::lemma_first_source(nodes, 0, i);
            assert(crate::lower::first_script_track(nodes, 0) == Some(v.track));
            lemma_now_some(nodes, "script"@, i + 1);
            assert(!crate::lower_laws::has_none(nodes, "script"@, n)) by {
                if crate::lower_laws::has_none(nodes, "script"@, n) {
                    assert(nodes[i].name != "script"@);
                }
            }
        },
        None => {
            crate::lower_laws::lemma_first_script_track(nodes, 0);
        },
    }
    match s.render {
        Some(v) => {
            let i = choose|i: int| #[trigger]
                crate::lower_laws::is_only(nodes, "render"@, n, i)
                    && crate::lower_laws::render_says(v, nodes[i]);
            assert(!crate::lower_laws::has_none(nodes, "render"@, n)) by {
                if crate::lower_laws::has_none(nodes, "render"@, n) {
                    assert(nodes[i].name != "render"@);
                }
            }
        },
        None => {},
    }
    let st6 = LowerView { script_track: source, ..st1 };
    let at = choose|at: Seq<int>|
        {
            &&& #[trigger] crate::select::selects(
                at,
                root.elements().len() as int,
                crate::lower_laws::named_at(root.elements(), "track"@),
            )
            &&& s.tracks.len() == at.len()
            &&& forall|k: int|
                0 <= k < at.len() ==> crate::lower_laws::track_says(
                    #[trigger] s.tracks[k],
                    nodes[at[k]],
                    at[k] as nat,
                    crate::lower_laws::scene_source(s),
                )
        };
    lemma_makes(st6, s, root, n, at);
    let b = crate::lower::root_children(st6, nodes, n);
    let ids = crate::lower_laws::track_ids(s.tracks);
    assert(s.tracks.take(at.len() as int) =~= s.tracks);
    assert(ids.take(at.len() as int) =~= ids);
    assert(b.tracks == s.tracks);
    lemma_script_resolves(b.st, s);
    assert(names_of(b.st) == crate::lower_laws::scene_names(s));
    lemma_tracks_resolve(b.st, s, s.tracks.len() as int);
    lemma_warned(b.st, root.span, "scene declares no tracks; it will render nothing"@);
    assert(b.script == s.script);
    assert(b.render == s.render);
}

} // verus!
