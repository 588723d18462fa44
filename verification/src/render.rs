//! A render, stage by stage: compile, look for the referenced files, take the
//! timings, resolve them to frames, aim at an output file, mix, encode and
//! publish.
//!
//! What a stage needs from outside (a file read, a scene resolved, frames
//! drawn) is handed to the stage before it, which decides how the render goes
//! on. Each stage is a type of its own, so none can be left out or taken out
//! of turn, and each carries every finding so far: a render that fails
//! reports them all.

use vstd::prelude::*;

use crate::audio::{AudioGraph, GraphView};
use crate::diagnostic::{has_errors, Diagnostic, DiagnosticView};
use crate::engine::{
    asset_files, asset_warnings, bundle, confine_target, parse_frame_range,
    resolved_tracks_target, sample_of, stale_timing_warning, BundleView, DiagBundle,
};
use crate::lower::lower;
use crate::parser::parse_document;
use crate::paths::{Escapes, Part, PartView};
use crate::resolved::{FrameRange, ResolvedScene};
use crate::scene::{Scene, SceneView};
use crate::text::{cat2, cat3, cat4, dec_text};
use crate::timing::TimingMap;

verus! {

/// What a successful render produced, with every finding raised on the way.
#[derive(Debug)]
pub struct RenderReport {
    pub frames: usize,
    pub target: Target,
    pub bundles: Vec<DiagBundle>,
}

/// Why a render failed, with the findings gathered before the failure.
#[derive(Debug)]
pub struct RenderError {
    pub message: String,
    pub bundles: Vec<DiagBundle>,
}

pub struct RenderErrorView {
    pub message: Seq<char>,
    pub bundles: Seq<BundleView>,
}

impl View for RenderError {
    type V = RenderErrorView;

    open spec fn view(&self) -> RenderErrorView {
        RenderErrorView {
            message: self.message@,
            bundles: crate::engine::bundle_views(self.bundles@),
        }
    }
}

/// Where the output goes: where the operator said, or to the authored path,
/// confined to the project root.
#[derive(Debug)]
pub enum Target {
    Operator(String),
    Confined(Vec<Part>),
}

pub enum TargetView {
    Operator(Seq<char>),
    Confined(Seq<PartView>),
}

impl View for Target {
    type V = TargetView;

    open spec fn view(&self) -> TargetView {
        match self {
            Target::Operator(s) => TargetView::Operator(s@),
            Target::Confined(p) => TargetView::Confined(crate::paths::part_views(p@)),
        }
    }
}

// The findings of a render.

#[derive(Debug)]
struct Log {
    name: String,
    source: String,
    bundles: Vec<DiagBundle>,
}

pub struct LogView {
    pub name: Seq<char>,
    pub source: Seq<char>,
    pub bundles: Seq<BundleView>,
}

/// The log with the findings of one more stage.
pub open spec fn noted(log: LogView, diags: Seq<DiagnosticView>) -> LogView {
    LogView {
        bundles: log.bundles.push(BundleView { name: log.name, source: log.source, diags }),
        ..log
    }
}

pub open spec fn failure(log: LogView, message: Seq<char>) -> RenderErrorView {
    RenderErrorView { message, bundles: log.bundles }
}

impl Log {
    spec fn view(&self) -> LogView {
        LogView {
            name: self.name@,
            source: self.source@,
            bundles: crate::engine::bundle_views(self.bundles@),
        }
    }

    fn note(&mut self, diags: Vec<Diagnostic>)
        ensures
            final(self)@ == noted(old(self)@, crate::diagnostic::views(diags@)),
    {
        let ghost before = crate::engine::bundle_views(self.bundles@);
        let b = bundle(self.name.as_str(), self.source.as_str(), diags);
        self.bundles.push(b);
        assert(crate::engine::bundle_views(self.bundles@) =~= before.push(b@));
    }

    fn fail(self, message: String) -> (r: RenderError)
        ensures
            r@ == failure(self@, message@),
    {
        RenderError { message, bundles: self.bundles }
    }
}

// The source.

/// A scene that compiled. Its files are to be looked for.
#[derive(Debug)]
pub struct Compiled {
    log: Log,
    scene: Scene,
}

/// The outcome of reading and compiling the source.
pub open spec fn compiled_source(name: Seq<char>, source: Seq<char>) -> Result<
    (LogView, SceneView),
    RenderErrorView,
> {
    let log = LogView { name, source, bundles: Seq::empty() };
    match crate::parser::document(source) {
        Err(d) => Err(failure(noted(log, seq![d]), "parse error"@)),
        Ok(root) => {
            let (scene, diags) = crate::lower::lowered(root);
            match scene {
                Some(s) => Ok((noted(log, diags), s)),
                None => Err(failure(noted(log, diags), "scene has errors"@)),
            }
        },
    }
}

/// Starts a render with what reading its source gave: a name and the text, or
/// why there is none.
pub fn render_source(read: Result<(String, String), String>) -> (r: Result<Compiled, RenderError>)
    ensures
        match (read, r) {
            (Err(m), Err(e)) => e@ == (RenderErrorView { message: m@, bundles: Seq::empty() }),
            (Ok((name, source)), Ok(c)) => compiled_source(name@, source@) == Ok::<
                (LogView, SceneView),
                RenderErrorView,
            >((c.log(), c.scene())),
            (Ok((name, source)), Err(e)) => compiled_source(name@, source@) == Err::<
                (LogView, SceneView),
                RenderErrorView,
            >(e@),
            _ => false,
        },
{
    let (name, source) = match read {
        Ok(v) => v,
        Err(message) => {
            let bundles: Vec<DiagBundle> = Vec::new();
            assert(crate::engine::bundle_views(bundles@) =~= Seq::<BundleView>::empty());
            return Err(RenderError { message, bundles });
        },
    };
    let parsed = parse_document(source.as_str());
    let mut log = Log { name, source, bundles: Vec::new() };
    assert(log@.bundles =~= Seq::<BundleView>::empty());
    match parsed {
        Err(d) => {
            let mut diags: Vec<Diagnostic> = Vec::new();
            diags.push(d);
            assert(crate::diagnostic::views(diags@) =~= seq![d@]);
            log.note(diags);
            Err(log.fail("parse error".to_owned()))
        },
        Ok(root) => {
            let (scene, diags) = lower(&root);
            log.note(diags);
            match scene {
                Some(scene) => Ok(Compiled { log, scene }),
                None => Err(log.fail("scene has errors".to_owned())),
            }
        },
    }
}

impl Compiled {
    pub closed spec fn log(self) -> LogView {
        self.log@
    }

    pub closed spec fn scene(self) -> SceneView {
        self.scene@
    }

    /// The files to look for.
    pub fn files(&self) -> (r: Vec<String>)
        ensures
            crate::text::text_views(r@) == crate::engine::ref_texts(
                crate::engine::scene_files(self.scene()),
            ),
    {
        asset_files(&self.scene)
    }

    /// Missing files do not stop a render (placeholders are drawn), but they
    /// are reported.
    pub fn looked(self, found: &Vec<bool>) -> (r: Looked)
        requires
            found@.len() == crate::engine::scene_files(self.scene()).len(),
        ensures
            r.scene() == self.scene(),
            r.log() == noted(
                self.log(),
                crate::engine::missing(
                    crate::engine::scene_files(self.scene()),
                    found@,
                    found@.len() as int,
                ),
            ),
    {
        let mut log = self.log;
        log.note(asset_warnings(&self.scene, found));
        Looked { log, scene: self.scene }
    }
}

// Timings.

/// A scene whose files were looked for. It waits for timings.
#[derive(Debug)]
pub struct Looked {
    log: Log,
    scene: Scene,
}

impl Looked {
    pub closed spec fn log(self) -> LogView {
        self.log@
    }

    pub closed spec fn scene(self) -> SceneView {
        self.scene@
    }

    /// Goes on with the timings of a file, or with none if no file was given.
    /// A file that cannot be read stops the render.
    pub fn timings(self, loaded: Option<(&str, Result<TimingMap, String>)>) -> (r: Result<
        Timed,
        RenderError,
    >)
        ensures
            match (loaded, r) {
                (None, Ok(t)) => t.log() == self.log() && t.scene() == self.scene()
                    && t.timings().sources@.len() == 0 && t.timings().script_hash is None,
                (Some((_, Ok(m))), Ok(t)) => t.log() == self.log() && t.scene() == self.scene()
                    && t.timings() == m,
                (Some((path, Err(e))), Err(f)) => f@ == failure(
                    self.log(),
                    "cannot load timings "@ + path@ + ": "@ + e@,
                ),
                _ => false,
            },
    {
        match loaded {
            None => Ok(
                Timed {
                    log: self.log,
                    scene: self.scene,
                    timings: TimingMap { sources: Vec::new(), script_hash: None },
                },
            ),
            Some((_, Ok(timings))) => Ok(Timed { log: self.log, scene: self.scene, timings }),
            Some((path, Err(e))) => Err(
                self.log.fail(cat4("cannot load timings ", path, ": ", e.as_str())),
            ),
        }
    }
}

/// A scene with timings. Their word times are to be checked.
#[derive(Debug)]
pub struct Timed {
    log: Log,
    scene: Scene,
    timings: TimingMap,
}

/// The first `n` messages as warnings without a place.
pub open spec fn warnings(messages: Seq<Seq<char>>, n: int) -> Seq<DiagnosticView>
    decreases n,
{
    if n <= 0 || n > messages.len() {
        Seq::empty()
    } else {
        warnings(messages, n - 1).push(
            crate::diagnostic::warning_view(messages[n - 1], None),
        )
    }
}

fn push_warnings(diags: &mut Vec<Diagnostic>, messages: &Vec<String>)
    ensures
        crate::diagnostic::views(final(diags)@) == crate::diagnostic::views(old(diags)@) + warnings(
            crate::text::text_views(messages@),
            messages@.len() as int,
        ),
{
    let ghost before = crate::diagnostic::views(diags@);
    let ghost all = crate::text::text_views(messages@);
    let mut i: usize = 0;
    assert(before + warnings(all, 0) =~= before);
    while i < messages.len()
        invariant
            i <= messages@.len(),
            all == crate::text::text_views(messages@),
            crate::diagnostic::views(diags@) == before + warnings(all, i as int),
        decreases messages@.len() - i,
    {
        let d = Diagnostic::warning(messages[i].clone(), None);
        proof {
            crate::diagnostic::lemma_views_push(diags@, d);
        }
        diags.push(d);
        assert(crate::diagnostic::views(diags@) =~= before + warnings(all, i + 1));
        i = i + 1;
    }
}

/// A log to which nothing is added where there is nothing to say.
pub open spec fn noted_if_any(log: LogView, diags: Seq<DiagnosticView>) -> LogView {
    if diags.len() > 0 {
        noted(log, diags)
    } else {
        log
    }
}

/// What there is to say about timings: that they are stale, then the problems
/// of their word times.
pub open spec fn timing_findings(stale: bool, problems: Seq<Seq<char>>) -> Seq<DiagnosticView> {
    (if stale {
        seq![crate::diagnostic::warning_view(crate::engine::stale_message(), None)]
    } else {
        Seq::empty()
    }) + warnings(problems, problems.len() as int)
}

impl Timed {
    pub closed spec fn log(self) -> LogView {
        self.log@
    }

    pub closed spec fn scene(self) -> SceneView {
        self.scene@
    }

    pub closed spec fn timings(self) -> TimingMap {
        self.timings
    }

    /// The timings to check.
    pub fn get_timings(&self) -> (r: &TimingMap)
        ensures
            *r == self.timings(),
    {
        &self.timings
    }

    /// Timings of other words, and word times that are out of order, are
    /// reported: captions would be wrong without a word of complaint.
    pub fn checked(self, problems: &Vec<String>) -> (r: Checked)
        ensures
            r.scene() == self.scene(),
            r.timings() == self.timings(),
            r.log() == noted_if_any(
                self.log(),
                timing_findings(
                    crate::engine::is_stale(
                        self.scene().script,
                        crate::scene::text_view(self.timings().script_hash),
                    ),
                    crate::text::text_views(problems@),
                ),
            ),
    {
        let mut log = self.log;
        let mut diags: Vec<Diagnostic> = Vec::new();
        assert(crate::diagnostic::views(diags@) =~= Seq::<DiagnosticView>::empty());
        match stale_timing_warning(&self.scene, &self.timings) {
            Some(d) => {
                diags.push(d);
                assert(crate::diagnostic::views(diags@) =~= seq![d@]);
            },
            None => {},
        }
        push_warnings(&mut diags, problems);
        if diags.len() > 0 {
            log.note(diags);
        }
        Checked { log, scene: self.scene, timings: self.timings }
    }
}

// Resolution.

/// A scene whose timings were checked. It is to be resolved to frames.
#[derive(Debug)]
pub struct Checked {
    log: Log,
    scene: Scene,
    timings: TimingMap,
}

/// The frames to render: those asked for, or the whole program.
pub open spec fn wanted_frames(frames: Option<Seq<char>>, program: FrameRange) -> Option<
    (nat, nat),
> {
    match frames {
        Some(spec) => crate::engine::frame_range(spec),
        None => Some((program.start as nat, program.end as nat)),
    }
}

impl Checked {
    pub closed spec fn log(self) -> LogView {
        self.log@
    }

    pub closed spec fn scene(self) -> SceneView {
        self.scene@
    }

    pub closed spec fn timings(self) -> TimingMap {
        self.timings
    }

    /// The scene to resolve.
    pub fn get_scene(&self) -> (r: &Scene)
        ensures
            r@ == self.scene(),
    {
        &self.scene
    }

    /// The timings to resolve it with.
    pub fn get_timings(&self) -> (r: &TimingMap)
        ensures
            *r == self.timings(),
    {
        &self.timings
    }

    /// Goes on with the resolved scene and the frames asked for. A resolution
    /// with errors, or without a result, stops the render, and so does a
    /// frame range that is none.
    pub fn realized(
        self,
        resolved: Option<ResolvedScene>,
        diags: Vec<Diagnostic>,
        frames: Option<&str>,
    ) -> (r: Result<Realized, RenderError>)
        ensures
            ({
                let log = noted(self.log(), crate::diagnostic::views(diags@));
                match (resolved, r) {
                    (Some(s), Ok(t)) => {
                        &&& !crate::diagnostic::any_error(crate::diagnostic::views(diags@))
                        &&& t.log() == log
                        &&& t.scene() == self.scene()
                        &&& t.resolved() == s
                        &&& wanted_frames(crate::media::str_view(frames), s.program.frames)
                            == Some((t.range().start as nat, t.range().end as nat))
                    },
                    (None, Ok(_)) => false,
                    (_, Err(e)) => if resolved is None || crate::diagnostic::any_error(
                        crate::diagnostic::views(diags@),
                    ) {
                        e@ == failure(log, "timing resolution failed"@)
                    } else {
                        &&& frames matches Some(spec)
                        &&& crate::engine::frame_range(spec@) is None
                        &&& e@ == failure(
                            log,
                            "invalid --frames `"@ + spec@ + "` (use `start:end`, e.g. `0:90`)"@,
                        )
                    },
                }
            }),
    {
        let failed = has_errors(diags.as_slice());
        let mut log = self.log;
        log.note(diags);
        let resolved = match resolved {
            Some(s) if !failed => s,
            _ => return Err(log.fail("timing resolution failed".to_owned())),
        };
        let range = match frames {
            Some(spec) => match parse_frame_range(spec) {
                Some(f) => FrameRange { start: f.start, end: f.end },
                None => {
                    let message = cat3(
                        "invalid --frames `",
                        spec,
                        "` (use `start:end`, e.g. `0:90`)",
                    );
                    return Err(log.fail(message));
                },
            },
            None => resolved.program.frames,
        };
        Ok(Realized { log, scene: self.scene, resolved, range })
    }
}

// The target.

/// A resolved scene and the frames to render. It is to be aimed at a file.
#[derive(Debug)]
pub struct Realized {
    log: Log,
    scene: Scene,
    resolved: ResolvedScene,
    range: FrameRange,
}

impl Realized {
    pub closed spec fn log(self) -> LogView {
        self.log@
    }

    pub closed spec fn scene(self) -> SceneView {
        self.scene@
    }

    pub closed spec fn resolved(self) -> ResolvedScene {
        self.resolved
    }

    pub closed spec fn range(self) -> FrameRange {
        self.range
    }

    /// The authored target that has to be confined: none if the operator named
    /// the output, or if the scene names none.
    pub fn authored_target(&self, out: Option<&str>) -> (r: Option<&str>)
        ensures
            crate::media::str_view(r) == (if out is Some {
                None
            } else {
                crate::engine::scene_target(self.scene())
            }),
    {
        match out {
            Some(_) => None,
            None => resolved_tracks_target(&self.scene),
        }
    }

    /// Goes on with the output file. The operator's own argument is used as it
    /// stands; an authored target goes through confinement; without either
    /// there is nothing to render to.
    pub fn aimed(self, out: Option<&str>, confined: Option<Result<Vec<Part>, Escapes>>) -> (r: Result<
        Aimed,
        RenderError,
    >)
        requires
            out is None && crate::engine::scene_target(self.scene()) is Some ==> confined is Some,
        ensures
            match (out, crate::engine::scene_target(self.scene())) {
                (Some(t), _) => r matches Ok(a) && a.follows(self, TargetView::Operator(t@)),
                (None, None) => r matches Err(e) && e@ == failure(
                    self.log(),
                    "no output target — pass --out or set <render target>"@,
                ),
                (None, Some(_)) => match confined->0 {
                    Ok(p) => r matches Ok(a) && a.follows(
                        self,
                        TargetView::Confined(crate::paths::part_views(p@)),
                    ),
                    Err(x) => r matches Err(e) && e@ == failure(
                        self.log(),
                        crate::engine::target_escape(x@),
                    ),
                },
            },
    {
        let target = match out {
            Some(t) => Target::Operator(t.to_owned()),
            None => {
                let authored = resolved_tracks_target(&self.scene).is_some();
                match confined {
                    Some(c) if authored => match confine_target(c) {
                        Ok(p) => Target::Confined(p),
                        Err(message) => return Err(self.log.fail(message)),
                    },
                    _ => {
                        return Err(
                            self.log.fail(
                                "no output target — pass --out or set <render target>".to_owned(),
                            ),
                        );
                    },
                }
            },
        };
        Ok(Aimed { log: self.log, resolved: self.resolved, range: self.range, target })
    }
}

/// A render with an output file. Its directory is to be made.
#[derive(Debug)]
pub struct Aimed {
    log: Log,
    resolved: ResolvedScene,
    range: FrameRange,
    target: Target,
}

impl Aimed {
    pub closed spec fn log(self) -> LogView {
        self.log@
    }

    pub closed spec fn resolved(self) -> ResolvedScene {
        self.resolved
    }

    pub closed spec fn range(self) -> FrameRange {
        self.range
    }

    pub closed spec fn target(self) -> TargetView {
        self.target@
    }

    pub open spec fn follows(self, before: Realized, target: TargetView) -> bool {
        &&& self.log() == before.log()
        &&& self.resolved() == before.resolved()
        &&& self.range() == before.range()
        &&& self.target() == target
    }

    pub fn get_target(&self) -> (r: &Target)
        ensures
            r@ == self.target(),
    {
        &self.target
    }

    /// The frame rate has to be positive before the render goes on.
    pub fn has_rate(&self) -> (r: bool)
        ensures
            r == (self.resolved().frame_rate.numerator > 0),
    {
        self.resolved.frame_rate.numerator > 0
    }

    /// A render that ends here, with what was found so far.
    pub fn failed(self, message: String) -> (r: RenderError)
        ensures
            r@ == failure(self.log(), message@),
    {
        self.log.fail(message)
    }

    /// Goes on once the output directory exists, with the program audio of
    /// the frames asked for: the mix is rebased onto them, or a partial
    /// render would play the opening under later frames.
    pub fn prepared(self, made: Result<(), (String, String)>, root: &str) -> (r: Result<
        Prepared,
        RenderError,
    >)
        requires
            self.resolved().frame_rate.numerator > 0,
        ensures
            match (made, r) {
                (Err((dir, e)), Err(f)) => f@ == failure(
                    self.log(),
                    "cannot create "@ + dir@ + ": "@ + e@,
                ),
                (Ok(_), Ok(p)) => {
                    let (graph, diags) = crate::audio::graph_of(self.resolved(), root@);
                    let rate = self.resolved().frame_rate;
                    &&& p.log() == noted(self.log(), diags)
                    &&& p.resolved() == self.resolved()
                    &&& p.range() == self.range()
                    &&& p.target() == self.target()
                    &&& p.graph() == crate::audio::windowed(
                        graph,
                        crate::engine::sample_at(self.range().start, rate) as u64,
                        crate::engine::sample_at(self.range().end, rate) as u64,
                    )
                },
                _ => false,
            },
    {
        match made {
            Err((dir, e)) => {
                let message = cat4("cannot create ", dir.as_str(), ": ", e.as_str());
                return Err(self.log.fail(message));
            },
            Ok(_) => {},
        }
        let mut log = self.log;
        let (graph, diags) = AudioGraph::from_scene(&self.resolved, root);
        log.note(diags);
        let start = sample_of(self.range.start, &self.resolved.frame_rate);
        let end = sample_of(self.range.end, &self.resolved.frame_rate);
        let graph = graph.window(start, end);
        Ok(
            Prepared {
                log,
                resolved: self.resolved,
                range: self.range,
                target: self.target,
                graph,
            },
        )
    }
}

// Mixing and encoding.

/// A render that is ready to mix and encode.
#[derive(Debug)]
pub struct Prepared {
    log: Log,
    resolved: ResolvedScene,
    range: FrameRange,
    target: Target,
    graph: AudioGraph,
}

impl Prepared {
    pub closed spec fn log(self) -> LogView {
        self.log@
    }

    pub closed spec fn resolved(self) -> ResolvedScene {
        self.resolved
    }

    pub closed spec fn range(self) -> FrameRange {
        self.range
    }

    pub closed spec fn target(self) -> TargetView {
        self.target@
    }

    pub closed spec fn graph(self) -> GraphView {
        self.graph@
    }

    pub fn get_graph(&self) -> (r: &AudioGraph)
        ensures
            r@ == self.graph(),
    {
        &self.graph
    }

    pub fn get_resolved(&self) -> (r: &ResolvedScene)
        ensures
            *r == self.resolved(),
    {
        &self.resolved
    }

    pub fn get_range(&self) -> (r: FrameRange)
        ensures
            r == self.range(),
    {
        self.range
    }

    pub fn get_target(&self) -> (r: &Target)
        ensures
            r@ == self.target(),
    {
        &self.target
    }

    /// Whether there is audio to mix; a program without any is silent.
    pub fn needs_mix(&self) -> (r: bool)
        ensures
            r == (self.graph().clips.len() > 0),
    {
        self.graph.clips.len() > 0
    }

    /// Goes on with the mixed audio, if there is any to mix. A mix that
    /// failed stops the render.
    pub fn mixed(self, mix: Option<Result<(), String>>) -> (r: Result<Mixed, RenderError>)
        requires
            mix is Some <==> self.graph().clips.len() > 0,
        ensures
            match (mix, r) {
                (Some(Err(e)), Err(f)) => f@ == failure(self.log(), "audio mix failed: "@ + e@),
                (Some(Err(_)), Ok(_)) => false,
                (_, Ok(m)) => m.prepared() == self,
                _ => false,
            },
    {
        match mix {
            Some(Err(e)) => Err(self.log.fail(cat2("audio mix failed: ", e.as_str()))),
            _ => Ok(Mixed { prepared: self }),
        }
    }
}

/// A render whose audio is mixed. Its encoder is to be opened.
#[derive(Debug)]
pub struct Mixed {
    prepared: Prepared,
}

impl Mixed {
    pub closed spec fn prepared(self) -> Prepared {
        self.prepared
    }

    pub fn get(&self) -> (r: &Prepared)
        ensures
            *r == self.prepared(),
    {
        &self.prepared
    }

    /// An encoder that does not open stops the render.
    pub fn opened(self, open: Result<(), String>) -> (r: Result<Encoding, RenderError>)
        ensures
            match (open, r) {
                (Ok(_), Ok(e)) => e.prepared() == self.prepared(),
                (Err(m), Err(f)) => f@ == failure(self.prepared().log(), m@),
                _ => false,
            },
    {
        match open {
            Ok(_) => Ok(Encoding { prepared: self.prepared }),
            Err(m) => Err(self.prepared.log.fail(m)),
        }
    }
}

/// A render with an open encoder. Its frames are to be drawn.
#[derive(Debug)]
pub struct Encoding {
    prepared: Prepared,
}

impl Encoding {
    pub closed spec fn prepared(self) -> Prepared {
        self.prepared
    }

    pub fn get(&self) -> (r: &Prepared)
        ensures
            *r == self.prepared(),
    {
        &self.prepared
    }

    /// Goes on with the frames drawn. Assets that would not open while
    /// drawing are reported once the frames are there.
    pub fn rendered(self, frames: Result<usize, String>, trouble: &Vec<String>) -> (r: Result<
        Rendered,
        RenderError,
    >)
        ensures
            match (frames, r) {
                (Err(e), Err(f)) => f@ == failure(self.prepared().log(), e@),
                (Ok(n), Ok(d)) => d.frames() == n && d.target() == self.prepared().target()
                    && d.log() == noted_if_any(
                    self.prepared().log(),
                    warnings(crate::text::text_views(trouble@), trouble@.len() as int),
                ),
                _ => false,
            },
    {
        let mut log = self.prepared.log;
        match frames {
            Err(e) => Err(log.fail(e)),
            Ok(n) => {
                let mut diags: Vec<Diagnostic> = Vec::new();
                assert(crate::diagnostic::views(diags@) =~= Seq::<DiagnosticView>::empty());
                push_warnings(&mut diags, trouble);
                assert(crate::diagnostic::views(diags@) =~= warnings(
                    crate::text::text_views(trouble@),
                    trouble@.len() as int,
                ));
                if diags.len() > 0 {
                    log.note(diags);
                }
                Ok(Rendered { log, frames: n, target: self.prepared.target })
            },
        }
    }
}

pub open spec fn frame_failure(index: u64, e: Seq<char>) -> Seq<char> {
    "encode failed at frame "@ + crate::text::dec(index as nat) + ": "@ + e
}

/// What stops the drawing of frames when the encoder takes one no more.
pub fn encode_failed(index: u64, e: &str) -> (r: String)
    ensures
        r@ == frame_failure(index, e@),
{
    let n = dec_text(index);
    cat4("encode failed at frame ", n.as_str(), ": ", e)
}

/// A render whose frames are drawn. Its encoder is to be finished.
#[derive(Debug)]
pub struct Rendered {
    log: Log,
    frames: usize,
    target: Target,
}

impl Rendered {
    pub closed spec fn log(self) -> LogView {
        self.log@
    }

    pub closed spec fn frames(self) -> usize {
        self.frames
    }

    pub closed spec fn target(self) -> TargetView {
        self.target@
    }

    /// An encoder that does not finish fails the render.
    pub fn finished(self, done: Result<(), String>) -> (r: Result<Finished, RenderError>)
        ensures
            match (done, r) {
                (Ok(_), Ok(d)) => d.rendered() == self,
                (Err(e), Err(f)) => f@ == failure(self.log(), e@),
                _ => false,
            },
    {
        match done {
            Ok(_) => Ok(Finished { rendered: self }),
            Err(e) => Err(self.log.fail(e)),
        }
    }
}

/// A render whose file is complete. It is to be published.
#[derive(Debug)]
pub struct Finished {
    rendered: Rendered,
}

impl Finished {
    pub closed spec fn rendered(self) -> Rendered {
        self.rendered
    }

    /// The report of a render whose file was published.
    pub fn published(self, done: Result<(), String>) -> (r: Result<RenderReport, RenderError>)
        ensures
            match (done, r) {
                (Ok(_), Ok(p)) => p.frames == self.rendered().frames() && p.target@
                    == self.rendered().target() && crate::engine::bundle_views(p.bundles@)
                    == self.rendered().log().bundles,
                (Err(e), Err(f)) => f@ == failure(self.rendered().log(), e@),
                _ => false,
            },
    {
        let last = self.rendered;
        match done {
            Ok(_) => Ok(
                RenderReport {
                    frames: last.frames,
                    target: last.target,
                    bundles: last.log.bundles,
                },
            ),
            Err(e) => Err(last.log.fail(e)),
        }
    }
}

/// Whatever a stage adds, the findings before it stay, in their order.
pub proof fn findings_stay(log: LogView, diags: Seq<DiagnosticView>, message: Seq<char>)
    ensures
        noted(log, diags).bundles.take(log.bundles.len() as int) == log.bundles,
        noted_if_any(log, diags).bundles.take(log.bundles.len() as int) == log.bundles,
        failure(log, message).bundles == log.bundles,
{
    assert(noted(log, diags).bundles.take(log.bundles.len() as int) =~= log.bundles);
    assert(noted_if_any(log, diags).bundles.take(log.bundles.len() as int) =~= log.bundles);
}

} // verus!
