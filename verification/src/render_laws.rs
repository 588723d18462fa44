//! What a render reports on its way.

use vstd::prelude::*;

use crate::diagnostic::Severity;
use crate::engine::BundleView;
use crate::render::LogView;
use crate::resolved::FrameRange;

verus! {

/// A render goes on with the scene that its source compiles to, and fails
/// where there is none. Either way it reports all that compiling found, under
/// the name of the source.
pub proof fn renders_compile_their_source(name: Seq<char>, source: Seq<char>)
    ensures
        ({
            let (scene, diags) = crate::markup::compiled(source);
            let found = seq![BundleView { name, source, diags }];
            match crate::render::compiled_source(name, source) {
                Ok((log, s)) => {
                    &&& scene == Some(s)
                    &&& log.bundles == found
                    &&& log.name == name
                    &&& log.source == source
                },
                Err(e) => scene is None && e.bundles == found && e.message.len() > 0,
            }
        }),
{
    reveal_strlit("parse error");
    reveal_strlit("scene has errors");
    let none = Seq::<BundleView>::empty();
    match crate::parser::document(source) {
        Err(d) => {
            assert(none.push(BundleView { name, source, diags: seq![d] }) =~= seq![
                BundleView { name, source, diags: seq![d] },
            ]);
        },
        Ok(root) => {
            let diags = crate::lower::lowered(root).1;
            assert(none.push(BundleView { name, source, diags }) =~= seq![
                BundleView { name, source, diags },
            ]);
        },
    }
}

/// What a stage finds comes after all that was found before, under the name of
/// the source.
pub proof fn findings_come_in_order(
    log: LogView,
    diags: Seq<crate::diagnostic::DiagnosticView>,
)
    ensures
        ({
            let out = crate::render::noted(log, diags);
            &&& out.name == log.name
            &&& out.source == log.source
            &&& out.bundles.len() == log.bundles.len() + 1
            &&& out.bundles.last() == (BundleView { name: log.name, source: log.source, diags })
            &&& forall|i: int|
                0 <= i < log.bundles.len() ==> #[trigger] out.bundles[i] == log.bundles[i]
        }),
{
}

proof fn lemma_warnings(messages: Seq<Seq<char>>, n: int)
    requires
        0 <= n <= messages.len(),
    ensures
        ({
            let ds = crate::render::warnings(messages, n);
            &&& ds.len() == n
            &&& forall|i: int|
                0 <= i < n ==> (#[trigger] ds[i]).message == messages[i] && ds[i].severity
                    == Severity::Warning && ds[i].span is None
        }),
    decreases n,
{
    if n > 0 {
        lemma_warnings(messages, n - 1);
    }
}

/// Of timings a render says first that they are stale, where they are, and
/// then each problem of their word times once, in order; all of it warns.
pub proof fn timings_are_complained_of(stale: bool, problems: Seq<Seq<char>>)
    ensures
        ({
            let ds = crate::render::timing_findings(stale, problems);
            let k = if stale {
                1int
            } else {
                0int
            };
            &&& ds.len() == problems.len() + k
            &&& forall|i: int|
                0 <= i < ds.len() ==> (#[trigger] ds[i]).severity == Severity::Warning
            &&& forall|i: int|
                0 <= i < problems.len() ==> ds[i + k].message == #[trigger] problems[i]
            &&& stale ==> ds[0].message == crate::engine::stale_message()
        }),
{
    lemma_warnings(problems, problems.len() as int);
    let ws = crate::render::warnings(problems, problems.len() as int);
    let ds = crate::render::timing_findings(stale, problems);
    let k = if stale {
        1int
    } else {
        0int
    };
    assert forall|i: int| 0 <= i < ds.len() implies (#[trigger] ds[i]).severity
        == Severity::Warning by {
        if i >= k {
            assert(ds[i] == ws[i - k]);
        }
    }
    assert forall|i: int| 0 <= i < problems.len() implies ds[i + k].message
        == #[trigger] problems[i] by {
        assert(ds[i + k] == ws[i]);
    }
}

/// The frames asked for are rendered, and the whole program where none are.
pub proof fn frames_are_those_asked_for(start: u32, end: u32, program: FrameRange)
    ensures
        crate::render::wanted_frames(None, program) == Some(
            (program.start as nat, program.end as nat),
        ),
        start < end ==> crate::render::wanted_frames(
            Some(crate::text::dec(start as nat) + ":"@ + crate::text::dec(end as nat)),
            program,
        ) == Some((start as nat, end as nat)),
        start >= end ==> crate::render::wanted_frames(
            Some(crate::text::dec(start as nat) + ":"@ + crate::text::dec(end as nat)),
            program,
        ) is None,
{
    crate::engine_laws::frame_ranges_read_back(start, end);
}

} // verus!
