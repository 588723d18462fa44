//! Every finding of a compilation points into the source.

use vstd::prelude::*;

use crate::diagnostic::DiagnosticView;
use crate::lower::LowerView;
use crate::parser::MAX_DEPTH;
use crate::raw::{RawAttrView, RawChildView, RawNodeView};
use crate::scene::{ElementView, TrackView};
use crate::span::Span;

verus! {

/// A span that ends by `hi`.
pub open spec fn within(s: Span, hi: nat) -> bool {
    s.start <= s.end <= hi
}

/// Every finding has a span, and it ends by `hi`.
pub open spec fn all_within(diags: Seq<DiagnosticView>, hi: nat) -> bool {
    forall|i: int|
        0 <= i < diags.len() ==> ((#[trigger] diags[i]).span matches Some(s) && within(s, hi))
}

/// The state of a lowering whose spans end by `hi`.
spec fn good(st: LowerView, hi: nat) -> bool {
    &&& all_within(st.diags, hi)
    &&& st.script_span matches Some(s) ==> within(s, hi)
}

proof fn lemma_findings(hi: nat)
    ensures
        forall|st: LowerView, span: Span, m: Seq<char>|
            good(st, hi) && within(span, hi) ==> good(
                #[trigger] crate::lower::with_error(st, span, m),
                hi,
            ),
        forall|st: LowerView, span: Span, m: Seq<char>|
            good(st, hi) && within(span, hi) ==> good(
                #[trigger] crate::lower::with_warning(st, span, m),
                hi,
            ),
{
    assert forall|st: LowerView, span: Span, m: Seq<char>|
        good(st, hi) && within(span, hi) implies good(
        #[trigger] crate::lower::with_error(st, span, m),
        hi,
    ) by {
        lemma_push(st.diags, crate::diagnostic::error_view(m, Some(span)), hi);
    }
    assert forall|st: LowerView, span: Span, m: Seq<char>|
        good(st, hi) && within(span, hi) implies good(
        #[trigger] crate::lower::with_warning(st, span, m),
        hi,
    ) by {
        lemma_push(st.diags, crate::diagnostic::warning_view(m, Some(span)), hi);
    }
}

proof fn lemma_push(diags: Seq<DiagnosticView>, d: DiagnosticView, hi: nat)
    requires
        all_within(diags, hi),
        d.span matches Some(s) && within(s, hi),
    ensures
        all_within(diags.push(d), hi),
{
}

// The tree.

spec fn attrs_within(attrs: Seq<RawAttrView>, hi: nat) -> bool {
    forall|i: int|
        0 <= i < attrs.len() ==> within((#[trigger] attrs[i]).name_span, hi) && within(
            attrs[i].value_span,
            hi,
        )
}

/// An element all of whose spans end by `hi`.
spec fn node_within(n: RawNodeView, hi: nat) -> bool
    decreases n,
{
    &&& within(n.span, hi)
    &&& within(n.name_span, hi)
    &&& attrs_within(n.attrs, hi)
    &&& forall|i: int|
        0 <= i < n.children.len() ==> match #[trigger] n.children[i] {
            RawChildView::Node(c) => node_within(c, hi),
            RawChildView::Text { span, .. } => within(span, hi),
        }
}

spec fn children_within(children: Seq<RawChildView>, hi: nat) -> bool {
    forall|i: int|
        0 <= i < children.len() ==> match #[trigger] children[i] {
            RawChildView::Node(c) => node_within(c, hi),
            RawChildView::Text { span, .. } => within(span, hi),
        }
}

proof fn lemma_node_within(n: RawNodeView, levels: nat, hi: nat)
    requires
        crate::parser_laws::node_ok(n, levels),
        n.span.end <= hi,
    ensures
        node_within(n, hi),
    decreases n,
{
    assert forall|i: int| 0 <= i < n.children.len() implies match #[trigger] n.children[i] {
        RawChildView::Node(c) => node_within(c, hi),
        RawChildView::Text { span, .. } => within(span, hi),
    } by {
        assert(crate::parser_laws::inside(
            crate::parser_laws::child_span(n.children[i]),
            n.name_span.end as nat,
            n.span.end as nat,
        ));
        match n.children[i] {
            RawChildView::Node(c) => {
                assert(decreases_to!(n => n.children[i]));
                lemma_node_within(c, (levels - 1) as nat, hi);
            },
            RawChildView::Text { .. } => {},
        }
    }
}

spec fn attr_within(a: Option<RawAttrView>, hi: nat) -> bool {
    match a {
        Some(v) => within(v.name_span, hi) && within(v.value_span, hi),
        None => true,
    }
}

proof fn lemma_attrs(node: RawNodeView, hi: nat)
    requires
        node_within(node, hi),
    ensures
        forall|name: Seq<char>| attr_within(#[trigger] node.attr(name), hi),
{
    assert forall|name: Seq<char>| attr_within(#[trigger] node.attr(name), hi) by {
        crate::raw::lemma_find_attr(node.attrs, name, 0);
    }
}

proof fn lemma_text_of(children: Seq<RawChildView>, n: int, hi: nat)
    requires
        children_within(children, hi),
    ensures
        crate::raw::text_of(children, n) matches Some((_, s)) ==> within(s, hi),
    decreases n,
{
    if 0 < n <= children.len() {
        lemma_text_of(children, n - 1, hi);
        assert(children[n - 1] is Text ==> within(children[n - 1]->span, hi));
    }
}

proof fn lemma_text(node: RawNodeView, hi: nat)
    requires
        node_within(node, hi),
    ensures
        node.text_content() matches Some((_, s)) ==> within(s, hi),
{
    assert(children_within(node.children, hi));
    lemma_text_of(node.children, node.children.len() as int, hi);
}

spec fn nodes_within(nodes: Seq<RawNodeView>, hi: nat) -> bool {
    forall|i: int| 0 <= i < nodes.len() ==> node_within(#[trigger] nodes[i], hi)
}

proof fn lemma_nodes(children: Seq<RawChildView>, n: int, hi: nat)
    requires
        children_within(children, hi),
    ensures
        nodes_within(crate::raw::nodes_of(children, n), hi),
    decreases n,
{
    if 0 < n <= children.len() {
        lemma_nodes(children, n - 1, hi);
        assert(children[n - 1] is Node ==> node_within(children[n - 1]->Node_0, hi));
    }
}

/// Everything the steps below need of a node.
proof fn lemma_facts(node: RawNodeView, hi: nat)
    requires
        node_within(node, hi),
    ensures
        within(node.span, hi),
        within(node.name_span, hi),
        node.text_content() matches Some((_, s)) ==> within(s, hi),
        nodes_within(node.elements(), hi),
        children_within(node.children, hi),
{
    lemma_text(node, hi);
    assert(children_within(node.children, hi));
    lemma_nodes(node.children, node.children.len() as int, hi);
}

// Elements.

proof fn lemma_unknown(st: LowerView, node: RawNodeView, allowed: Seq<Seq<char>>, n: int, hi: nat)
    requires
        good(st, hi),
        node_within(node, hi),
    ensures
        good(crate::lower::unknown_attrs(st, node, allowed, n), hi),
    decreases n,
{
    if 0 < n <= node.attrs.len() {
        lemma_unknown(st, node, allowed, n - 1, hi);
        lemma_findings(hi);
        assert(within(node.attrs[n - 1].name_span, hi));
    }
}

proof fn lemma_checked(node: RawNodeView, hi: nat)
    requires
        node_within(node, hi),
    ensures
        forall|st: LowerView, allowed: Seq<Seq<char>>|
            good(st, hi) ==> good(#[trigger] crate::lower::checked_attrs(st, node, allowed), hi),
        forall|st: LowerView|
            good(st, hi) ==> good((#[trigger] crate::lower::source(st, node)).0, hi),
{
    assert forall|st: LowerView, allowed: Seq<Seq<char>>| good(st, hi) implies good(
        #[trigger] crate::lower::checked_attrs(st, node, allowed),
        hi,
    ) by {
        lemma_unknown(st, node, allowed, node.attrs.len() as int, hi);
    }
    assert forall|st: LowerView| good(st, hi) implies good(
        (#[trigger] crate::lower::source(st, node)).0,
        hi,
    ) by {
        lemma_findings(hi);
        lemma_attrs(node, hi);
        let found = node.attr("src"@);
    }
}

proof fn lemma_clip(st: LowerView, node: RawNodeView, hi: nat)
    requires
        good(st, hi),
        node_within(node, hi),
    ensures
        good(crate::lower::clip_kind(st, node).0, hi),
        good(crate::lower::image_kind(st, node).0, hi),
{
    lemma_checked(node, hi);
    lemma_findings(hi);
    lemma_attrs(node, hi);
    let st1 = crate::lower::checked_attrs(
        st,
        node,
        seq!["src"@, "from"@] + crate::lower::common_attrs(),
    );
    let st2 = crate::lower::source(st1, node).0;
    assert(good(st2, hi));
    let found = node.attr("from"@);
    let st3 = crate::lower::checked_attrs(st, node, seq!["src"@] + crate::lower::common_attrs());
    assert(good(crate::lower::source(st3, node).0, hi));
}

proof fn lemma_text_kind(st: LowerView, node: RawNodeView, hi: nat)
    requires
        good(st, hi),
        node_within(node, hi),
    ensures
        good(crate::lower::text_kind(st, node).0, hi),
{
    lemma_checked(node, hi);
    lemma_findings(hi);
    lemma_attrs(node, hi);
    lemma_facts(node, hi);
    let st1 = crate::lower::checked_attrs(st, node, seq!["bind"@] + crate::lower::common_attrs());
    assert(good(st1, hi));
    let found = node.attr("bind"@);
}

proof fn lemma_captions(st: LowerView, node: RawNodeView, hi: nat)
    requires
        good(st, hi),
        node_within(node, hi),
    ensures
        good(crate::lower::captions_kind(st, node).0, hi),
{
    lemma_checked(node, hi);
    lemma_findings(hi);
    lemma_attrs(node, hi);
    lemma_facts(node, hi);
    let st1 = crate::lower::checked_attrs(
        st,
        node,
        seq!["style"@, "anchor"@] + crate::lower::common_attrs(),
    );
    assert(good(st1, hi));
    let style = node.attr("style"@);
    let anchor = node.attr("anchor"@);
}

proof fn lemma_audio(st: LowerView, node: RawNodeView, hi: nat)
    requires
        good(st, hi),
        node_within(node, hi),
    ensures
        good(crate::lower::audio_kind(st, node).0, hi),
{
    lemma_checked(node, hi);
    lemma_findings(hi);
    lemma_attrs(node, hi);
    let st1 = crate::lower::checked_attrs(
        st,
        node,
        seq!["src"@, "gain"@, "duck"@, "from"@] + crate::lower::common_attrs(),
    );
    let st2 = crate::lower::source(st1, node).0;
    assert(good(st2, hi));
    let gain = node.attr("gain"@);
    let from = node.attr("from"@);
    let duck = node.attr("duck"@);
}

proof fn lemma_program(st: LowerView, node: RawNodeView, hi: nat)
    requires
        good(st, hi),
        node_within(node, hi),
    ensures
        good(crate::lower::program_kind(st, node).0, hi),
{
    lemma_checked(node, hi);
    lemma_attrs(node, hi);
    let st1 = crate::lower::checked_attrs(
        st,
        node,
        seq!["src"@, "with"@] + crate::lower::common_attrs(),
    );
    let st2 = crate::lower::source(st1, node).0;
    assert(good(st2, hi));
    match node.attr("with"@) {
        Some(w) => {
            match crate::lower::with_finding(
                crate::json::json_is_object(w.value),
                w.name_span,
            ) {
                Some(d) => lemma_push(st2.diags, d, hi),
                None => {},
            }
        },
        None => {},
    }
}

proof fn lemma_element_kind(st: LowerView, node: RawNodeView, hi: nat)
    requires
        good(st, hi),
        node_within(node, hi),
    ensures
        good(crate::lower::element_kind(st, node).0, hi),
{
    lemma_clip(st, node, hi);
    lemma_text_kind(st, node, hi);
    lemma_captions(st, node, hi);
    lemma_audio(st, node, hi);
    lemma_program(st, node, hi);
    lemma_checked(node, hi);
    lemma_findings(hi);
    lemma_facts(node, hi);
    assert(good(crate::lower::checked_attrs(st, node, crate::lower::common_attrs()), hi));
}

proof fn lemma_common(st: LowerView, node: RawNodeView, hi: nat)
    requires
        good(st, hi),
        node_within(node, hi),
    ensures
        good(crate::lower::common(st, node).st, hi),
{
    lemma_findings(hi);
    lemma_attrs(node, hi);
    let during = node.attr("during"@);
    let at = node.attr("at"@);
    let anim = node.attr("anim"@);
}

/// A lowered element all of whose spans end by `hi`.
spec fn element_within(e: ElementView, hi: nat) -> bool
    decreases e,
{
    &&& within(e.span, hi)
    &&& forall|i: int|
        0 <= i < e.children.len() ==> element_within(#[trigger] e.children[i], hi)
}

spec fn elements_within(s: Seq<ElementView>, hi: nat) -> bool {
    forall|i: int| 0 <= i < s.len() ==> element_within(#[trigger] s[i], hi)
}

proof fn lemma_element(st: LowerView, node: RawNodeView, hi: nat)
    requires
        good(st, hi),
        node_within(node, hi),
    ensures
        good(crate::lower::element(st, node).0, hi),
        crate::lower::element(st, node).1 matches Some(e) ==> element_within(e, hi),
    decreases node, 0int,
{
    lemma_element_kind(st, node, hi);
    lemma_facts(node, hi);
    let (st1, kind) = crate::lower::element_kind(st, node);
    match kind {
        None => {},
        Some(k) => {
            lemma_common(st1, node, hi);
            let c = crate::lower::common(st1, node);
            lemma_elements(c.st, node.children, node.children.len() as int, hi);
            let (st2, children) = crate::lower::elements(
                c.st,
                node.children,
                node.children.len() as int,
            );
            lemma_findings(hi);
            let (st3, e) = crate::lower::finished(st2, node, k, c, children);
            assert(good(st3, hi));
            assert(elements_within(e.children, hi));
        },
    }
}

proof fn lemma_elements(st: LowerView, children: Seq<RawChildView>, n: int, hi: nat)
    requires
        good(st, hi),
        children_within(children, hi),
    ensures
        good(crate::lower::elements(st, children, n).0, hi),
        elements_within(crate::lower::elements(st, children, n).1, hi),
    decreases children, n,
{
    if 0 < n <= children.len() {
        lemma_elements(st, children, n - 1, hi);
        let (st1, done) = crate::lower::elements(st, children, n - 1);
        match children[n - 1] {
            RawChildView::Text { .. } => {},
            RawChildView::Node(c) => {
                assert(decreases_to!(children => children[n - 1]));
                lemma_element(st1, c, hi);
            },
        }
    }
}

// Tracks, script and target.

spec fn track_within(t: TrackView, hi: nat) -> bool {
    within(t.span, hi) && elements_within(t.elements, hi)
}

proof fn lemma_track(st: LowerView, node: RawNodeView, index: nat, hi: nat)
    requires
        good(st, hi),
        node_within(node, hi),
    ensures
        good(crate::lower::track(st, node, index).0, hi),
        crate::lower::track(st, node, index).1 matches Some(t) ==> track_within(t, hi),
{
    lemma_checked(node, hi);
    lemma_findings(hi);
    lemma_attrs(node, hi);
    lemma_facts(node, hi);
    let st1 = crate::lower::checked_attrs(st, node, seq!["kind"@, "id"@, "anchor"@]);
    assert(good(st1, hi));
    let kind = node.attr("kind"@);
    let (st2, k) = crate::lower::required_parse(
        st1,
        node,
        "kind"@,
        |v: Seq<char>| crate::lower::track_kind(v),
    );
    assert(good(st2, hi));
    let id = crate::lower::or_default(
        crate::lower::value_of(node, "id"@),
        "track"@ + crate::text::dec(index),
    );
    let st3 = if st2.tracks.contains(id) {
        crate::lower::with_error(st2, node.name_span, "duplicate track id `"@ + id + "`"@)
    } else {
        LowerView { tracks: st2.tracks.push(id), ..st2 }
    };
    assert(good(st3, hi));
    let anchor = node.attr("anchor"@);
    let (st4, a) = crate::lower::optional(
        st3,
        node,
        "anchor"@,
        |v: Seq<char>| crate::anchor::anchor_ref(v),
    );
    let st5 = crate::lower::without_text(st4, node);
    assert(good(st5, hi));
    lemma_elements(st5, node.children, node.children.len() as int, hi);
}

proof fn lemma_refused(
    st: LowerView,
    nodes: Seq<RawNodeView>,
    message: Seq<char>,
    n: int,
    hi: nat,
)
    requires
        good(st, hi),
        nodes_within(nodes, hi),
    ensures
        good(crate::lower::refused(st, nodes, message, n), hi),
    decreases n,
{
    if 0 < n <= nodes.len() {
        lemma_refused(st, nodes, message, n - 1, hi);
        lemma_findings(hi);
        assert(node_within(nodes[n - 1], hi));
    }
}

proof fn lemma_render(st: LowerView, node: RawNodeView, hi: nat)
    requires
        good(st, hi),
        node_within(node, hi),
    ensures
        good(crate::lower::render_target(st, node).0, hi),
{
    lemma_checked(node, hi);
    lemma_findings(hi);
    lemma_attrs(node, hi);
    lemma_facts(node, hi);
    let st1 = crate::lower::checked_attrs(st, node, seq!["target"@]);
    let st2 = crate::lower::without_text(st1, node);
    assert(good(st2, hi));
    lemma_refused(
        st2,
        node.elements(),
        "<render> takes no elements"@,
        node.elements().len() as int,
        hi,
    );
    let target = node.attr("target"@);
}

proof fn lemma_script_line(st: LowerView, child: RawNodeView, hi: nat)
    requires
        good(st, hi),
        node_within(child, hi),
    ensures
        good(crate::lower::script_line(st, child).0, hi),
{
    lemma_checked(child, hi);
    lemma_findings(hi);
    lemma_attrs(child, hi);
    lemma_facts(child, hi);
    let st1 = crate::lower::checked_attrs(st, child, seq!["id"@]);
    assert(good(st1, hi));
    match child.attr("id"@) {
        None => {},
        Some(a) => {
            let st3 = if st1.cues.contains(a.value) {
                crate::lower::with_error(
                    st1,
                    a.value_span,
                    "duplicate line id `"@ + a.value + "`"@,
                )
            } else {
                LowerView { cues: st1.cues.push(a.value), ..st1 }
            };
            assert(good(st3, hi));
            lemma_refused(
                st3,
                child.elements(),
                "<line> takes text only, not elements"@,
                child.elements().len() as int,
                hi,
            );
        },
    }
}

proof fn lemma_script_lines(st: LowerView, nodes: Seq<RawNodeView>, n: int, hi: nat)
    requires
        good(st, hi),
        nodes_within(nodes, hi),
    ensures
        good(crate::lower::script_lines(st, nodes, n).0, hi),
    decreases n,
{
    if 0 < n <= nodes.len() {
        lemma_script_lines(st, nodes, n - 1, hi);
        assert(node_within(nodes[n - 1], hi));
        lemma_script_line(crate::lower::script_lines(st, nodes, n - 1).0, nodes[n - 1], hi);
    }
}

proof fn lemma_script(st: LowerView, node: RawNodeView, hi: nat)
    requires
        good(st, hi),
        node_within(node, hi),
    ensures
        good(crate::lower::script(st, node).0, hi),
{
    lemma_checked(node, hi);
    lemma_findings(hi);
    lemma_attrs(node, hi);
    lemma_facts(node, hi);
    let st1 = crate::lower::checked_attrs(st, node, seq!["track"@, "voice"@]);
    let st2 = LowerView { script_span: Some(node.span), ..st1 };
    assert(good(st2, hi));
    let (st3, track) = crate::lower::required(st2, node, "track"@);
    assert(good(st3, hi));
    let st4 = match track {
        Some(t) => LowerView { script_track: Some(t.value), ..st3 },
        None => st3,
    };
    assert(good(st4, hi));
    lemma_script_lines(st4, node.elements(), node.elements().len() as int, hi);
}

// References.

proof fn lemma_tree_check(st: LowerView, e: ElementView, hi: nat)
    requires
        good(st, hi),
        element_within(e, hi),
    ensures
        good(crate::lower::tree_check(st, e), hi),
    decreases e, 0int,
{
    lemma_findings(hi);
    let st1 = crate::lower::element_check(st, e);
    assert(good(st1, hi)) by {
        match e.timing {
            Some(t) => {
                let a = crate::lower::cue_check(st, t.start, e.span);
                assert(good(a, hi));
                assert(good(crate::lower::cue_check(a, t.end, e.span), hi));
            },
            None => {},
        }
    }
    assert(elements_within(e.children, hi));
    lemma_list_check(st1, e.children, e.children.len() as int, hi);
}

proof fn lemma_list_check(st: LowerView, s: Seq<ElementView>, n: int, hi: nat)
    requires
        good(st, hi),
        elements_within(s, hi),
    ensures
        good(crate::lower::list_check(st, s, n), hi),
    decreases s, n,
{
    if 0 < n <= s.len() {
        assert(decreases_to!(s => s[n - 1]));
        lemma_tree_check(st, s[n - 1], hi);
        lemma_list_check(crate::lower::tree_check(st, s[n - 1]), s, n - 1, hi);
    }
}

spec fn tracks_within(tracks: Seq<TrackView>, hi: nat) -> bool {
    forall|i: int| 0 <= i < tracks.len() ==> track_within(#[trigger] tracks[i], hi)
}

proof fn lemma_tracks_check(st: LowerView, tracks: Seq<TrackView>, n: int, hi: nat)
    requires
        good(st, hi),
        tracks_within(tracks, hi),
    ensures
        good(crate::lower::tracks_check(st, tracks, n), hi),
    decreases n,
{
    if 0 < n <= tracks.len() {
        lemma_tracks_check(st, tracks, n - 1, hi);
        lemma_findings(hi);
        let before = crate::lower::tracks_check(st, tracks, n - 1);
        let t = tracks[n - 1];
        assert(track_within(t, hi));
        let st1 = match t.anchor {
            Some(a) => if crate::lower::valid_source(before, a.source) {
                before
            } else {
                crate::lower::with_error(
                    before,
                    t.span,
                    "unknown timing source `"@ + a.source + "`"@,
                )
            },
            None => before,
        };
        assert(good(st1, hi));
        lemma_list_check(st1, t.elements, t.elements.len() as int, hi);
    }
}

// The root.

proof fn lemma_root_children(st: LowerView, nodes: Seq<RawNodeView>, n: int, hi: nat)
    requires
        good(st, hi),
        nodes_within(nodes, hi),
    ensures
        good(crate::lower::root_children(st, nodes, n).st, hi),
        tracks_within(crate::lower::root_children(st, nodes, n).tracks, hi),
    decreases n,
{
    if 0 < n <= nodes.len() {
        lemma_root_children(st, nodes, n - 1, hi);
        let b = crate::lower::root_children(st, nodes, n - 1);
        let child = nodes[n - 1];
        assert(node_within(child, hi));
        lemma_findings(hi);
        lemma_facts(child, hi);
        lemma_script(b.st, child, hi);
        lemma_track(b.st, child, (n - 1) as nat, hi);
        lemma_render(b.st, child, hi);
    }
}

proof fn lemma_scene(root: RawNodeView, hi: nat)
    requires
        node_within(root, hi),
    ensures
        good(crate::lower::scene(crate::lower::fresh(), root).0, hi),
{
    let st = crate::lower::fresh();
    lemma_checked(root, hi);
    lemma_findings(hi);
    lemma_attrs(root, hi);
    lemma_facts(root, hi);
    assert(good(st, hi));
    let st1 = crate::lower::checked_attrs(st, root, seq!["canvas"@, "fps"@, "clear"@]);
    assert(good(st1, hi));
    let canvas = root.attr("canvas"@);
    let st2 = crate::lower::required_parse(
        st1,
        root,
        "canvas"@,
        |v: Seq<char>| crate::scene::canvas(v),
    ).0;
    assert(good(st2, hi));
    let fps = root.attr("fps"@);
    let st3 = crate::lower::required_parse(
        st2,
        root,
        "fps"@,
        |v: Seq<char>| crate::scene::rational(v),
    ).0;
    assert(good(st3, hi));
    let clear = root.attr("clear"@);
    let st4 = crate::lower::optional(
        st3,
        root,
        "clear"@,
        |v: Seq<char>| crate::scene::color(v),
    ).0;
    assert(good(st4, hi));
    let st5 = crate::lower::without_text(st4, root);
    assert(good(st5, hi));
    let nodes = root.elements();
    let st6 = match crate::lower::first_script_track(nodes, 0) {
        Some(t) => LowerView { script_track: Some(t), ..st5 },
        None => st5,
    };
    assert(good(st6, hi));
    lemma_root_children(st6, nodes, nodes.len() as int, hi);
    let b = crate::lower::root_children(st6, nodes, nodes.len() as int);
    let checked = crate::lower::script_check(b.st, b.tracks);
    assert(good(checked, hi));
    lemma_tracks_check(checked, b.tracks, b.tracks.len() as int, hi);
}

/// Whatever the source text, every finding of its compilation, error or
/// warning, has a span, and the span lies inside the text.
pub proof fn findings_point_into_the_source(src: Seq<char>)
    requires
        crate::text::byte_len(src) <= usize::MAX,
    ensures
        all_within(crate::markup::compiled(src).1, crate::text::byte_len(src)),
{
    crate::parser_laws::parse_is_well_spanned(src);
    match crate::parser::document(src) {
        Ok(root) => {
            lemma_node_within(root, MAX_DEPTH as nat, crate::text::byte_len(src));
            lemma_scene(root, crate::text::byte_len(src));
        },
        Err(_) => {},
    }
}

} // verus!
