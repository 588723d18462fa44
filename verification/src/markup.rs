//! `.scene` markup: parse, then lower.
//!
//! ```text
//! source text ──parse_document──▶ RawNode ──lower──▶ Scene + diagnostics
//! ```
//!
//! The parser knows syntax only; the lowering stage knows the vocabulary.
//! Errors carry byte spans into the original source.

use vstd::prelude::*;

use crate::anchor::{AnchorRangeView, AnchorView, Edge};
use crate::diagnostic::{Diagnostic, DiagnosticView};
use crate::lower::lower;
use crate::parser::parse_document;
use crate::raw::RawNodeView;
use crate::scene::{ElementView, Scene, SceneView};

verus! {

/// Everything one pass over a `.scene` file can say about it.
#[derive(Debug)]
pub struct Outcome {
    /// The lowered scene, present only when no error was found.
    pub scene: Option<Scene>,
    /// All findings, warnings included.
    pub diagnostics: Vec<Diagnostic>,
}

/// The scene that a source text denotes, if it has no error, and all
/// findings.
pub open spec fn compiled(src: Seq<char>) -> (Option<SceneView>, Seq<DiagnosticView>) {
    match crate::parser::document(src) {
        Ok(root) => crate::lower::lowered(root),
        Err(fatal) => (None, seq![fatal]),
    }
}

pub open spec fn scene_view(s: Option<Scene>) -> Option<SceneView> {
    match s {
        Some(v) => Some(v@),
        None => None,
    }
}

/// Parse and lower in one step, the common entry point.
pub fn compile(source: &str) -> (r: Outcome)
    ensures
        scene_view(r.scene) == compiled(source@).0,
        crate::diagnostic::views(r.diagnostics@) == compiled(source@).1,
{
    match parse_document(source) {
        Ok(raw) => {
            let (scene, diagnostics) = lower(&raw);
            Outcome { scene, diagnostics }
        },
        Err(fatal) => {
            let mut diagnostics: Vec<Diagnostic> = Vec::new();
            diagnostics.push(fatal);
            assert(crate::diagnostic::views(diagnostics@) =~= seq![fatal@]);
            Outcome { scene: None, diagnostics }
        },
    }
}

/// A source text compiles to a scene exactly when none of its findings is an
/// error, and every reference in that scene resolves.
pub proof fn compile_is_sound(src: Seq<char>)
    requires
        crate::text::byte_len(src) <= usize::MAX,
    ensures
        compiled(src).0 is Some <==> !crate::diagnostic::any_error(compiled(src).1),
        compiled(src).0 matches Some(s) ==> crate::lower_laws::sound(s),
{
    crate::parser_laws::parse_is_well_spanned(src);
    match crate::parser::document(src) {
        Ok(root) => crate::lower_laws::scene_iff_no_error(root),
        Err(fatal) => {
            assert(compiled(src).1[0] == fatal);
        },
    }
}

/// A compiled scene says what its source does: it is read off the document
/// that the source parses to, element by element and attribute by attribute.
pub proof fn compiled_scenes_say_what_sources_do(src: Seq<char>)
    ensures
        compiled(src).0 matches Some(s) ==> (crate::parser::document(src) matches Ok(root)
            && crate::lower_laws::scene_says(s, root)),
{
    match crate::parser::document(src) {
        Ok(root) => crate::lower_laws::scenes_say_what_documents_do(root),
        Err(_) => {},
    }
}

/// An element whose `during` is a range between two cues runs from the start
/// of the first to the end of the second.
pub proof fn elements_run_from_cue_to_cue(
    e: ElementView,
    node: RawNodeView,
    source: Option<Seq<char>>,
    a: Seq<char>,
    b: Seq<char>,
)
    requires
        crate::lower_laws::says(e, node, source),
        crate::lower_laws::gives(node, "during"@, a + seq!['.', '.'] + b),
        crate::anchor::is_ident(a),
        crate::anchor::is_ident(b),
    ensures
        e.timing == Some(
            AnchorRangeView {
                start: AnchorView::Cue { cue: a, edge: Edge::Start, offset: None },
                end: AnchorView::Cue { cue: b, edge: Edge::End, offset: None },
            },
        ),
{
    crate::anchor_laws::cue_ranges_run_forward(a, b);
    let v = a + seq!['.', '.'] + b;
    match e.timing {
        Some(r) => {
            let w = choose|w: Seq<char>| #[trigger]
                crate::lower_laws::gives(node, "during"@, w) && crate::anchor::anchor_range(w)
                    == Ok::<AnchorRangeView, Seq<char>>(r);
            lemma_given_once(node, "during"@, v, w);
        },
        None => {
            let i = choose|i: int|
                0 <= i < node.attrs.len() && (#[trigger] node.attrs[i]).name == "during"@;
            assert(node.attrs[i].name != "during"@);
        },
    }
}

proof fn lemma_given_once(node: RawNodeView, name: Seq<char>, v: Seq<char>, w: Seq<char>)
    requires
        crate::lower_laws::gives(node, name, v),
        crate::lower_laws::gives(node, name, w),
    ensures
        v == w,
{
    let i = choose|i: int|
        {
            &&& 0 <= i < node.attrs.len()
            &&& (#[trigger] node.attrs[i]).name == name
            &&& node.attrs[i].value == v
            &&& forall|j: int| 0 <= j < i ==> (#[trigger] node.attrs[j]).name != name
        };
    let k = choose|k: int|
        {
            &&& 0 <= k < node.attrs.len()
            &&& (#[trigger] node.attrs[k]).name == name
            &&& node.attrs[k].value == w
            &&& forall|j: int| 0 <= j < k ==> (#[trigger] node.attrs[j]).name != name
        };
    assert(node.attrs[i].name == name && node.attrs[k].name == name);
}

} // verus!
