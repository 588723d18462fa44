//! The commands of the engine: what each decides and says, apart from the
//! files and processes that it works on.

use vstd::prelude::*;

use crate::adapt::Analysis;
use crate::align::{
    markers_to_timing, parse_markers, timing_map_for, whisperx_to_timing, WxSegment,
};
use crate::diagnostic::{has_errors, Diagnostic, DiagnosticView};
use crate::json::lossy;
use crate::markup::compile;
use crate::media::MediaError;
use crate::paths::{path_text, Escapes, EscapesView, Part};
use crate::process::ProcOutput;
use crate::scene::{script_fingerprint, Rational, Scene, SceneView, Script, ScriptView};
use crate::span::Span;
use crate::text::{
    cat2, cat3, cat4, cat5, chars_of, contains, dec_text, find_char, parse_u32, split_lines,
    string_of, text_eq, trim,
};
use crate::timing::{AlignedLineView, TimingMap};

verus! {

// Findings and the text they point into.

/// Diagnostics together with the source that they point into, one bundle for
/// each file that produced them.
#[derive(Debug)]
pub struct DiagBundle {
    pub name: String,
    pub source: String,
    pub diags: Vec<Diagnostic>,
}

pub struct BundleView {
    pub name: Seq<char>,
    pub source: Seq<char>,
    pub diags: Seq<DiagnosticView>,
}

impl View for DiagBundle {
    type V = BundleView;

    open spec fn view(&self) -> BundleView {
        BundleView {
            name: self.name@,
            source: self.source@,
            diags: crate::diagnostic::views(self.diags@),
        }
    }
}

pub open spec fn bundle_views(s: Seq<DiagBundle>) -> Seq<BundleView> {
    Seq::new(s.len(), |i: int| s[i]@)
}

pub fn bundle(name: &str, source: &str, diags: Vec<Diagnostic>) -> (r: DiagBundle)
    ensures
        r@ == (BundleView {
            name: name@,
            source: source@,
            diags: crate::diagnostic::views(diags@),
        }),
{
    DiagBundle { name: name.to_owned(), source: source.to_owned(), diags }
}

// Compiling.

/// Parse and lower one source: the scene when it is clean enough to use, and
/// every finding.
pub fn compile_and_report(name: &str, source: &str) -> (r: (Option<Scene>, DiagBundle))
    ensures
        crate::markup::scene_view(r.0) == crate::markup::compiled(source@).0,
        r.1@ == (BundleView {
            name: name@,
            source: source@,
            diags: crate::markup::compiled(source@).1,
        }),
{
    let outcome = compile(source);
    (outcome.scene, bundle(name, source, outcome.diagnostics))
}

pub fn has_error_diagnostics(source: &str) -> (r: bool)
    ensures
        r == crate::diagnostic::any_error(crate::markup::compiled(source@).1),
{
    let outcome = compile(source);
    has_errors(outcome.diagnostics.as_slice())
}

// Referenced files.

/// The references among the first `n` that are files, not URLs.
pub open spec fn file_refs(refs: Seq<(Seq<char>, Span)>, n: int) -> Seq<(Seq<char>, Span)>
    decreases n,
{
    if n <= 0 || n > refs.len() {
        Seq::empty()
    } else if crate::text::contains_text(refs[n - 1].0, "://"@) {
        file_refs(refs, n - 1)
    } else {
        file_refs(refs, n - 1).push(refs[n - 1])
    }
}

/// The files that a scene refers to.
pub open spec fn scene_files(s: SceneView) -> Seq<(Seq<char>, Span)> {
    let refs = crate::scene::track_assets(s.tracks, s.tracks.len() as int);
    file_refs(refs, refs.len() as int)
}

pub open spec fn ref_texts(refs: Seq<(Seq<char>, Span)>) -> Seq<Seq<char>> {
    Seq::new(refs.len(), |i: int| refs[i].0)
}

pub open spec fn owned_refs(s: Seq<(String, Span)>) -> Seq<(Seq<char>, Span)> {
    Seq::new(s.len(), |i: int| (s[i].0@, s[i].1))
}

fn files_of(scene: &Scene) -> (r: Vec<(String, Span)>)
    ensures
        owned_refs(r@) == scene_files(scene@),
{
    let refs = scene.asset_refs();
    let ghost all = crate::scene::ref_views(refs@);
    let mut out: Vec<(String, Span)> = Vec::new();
    let mut i: usize = 0;
    assert(owned_refs(out@) =~= file_refs(all, 0));
    while i < refs.len()
        invariant
            i <= refs@.len(),
            all == crate::scene::ref_views(refs@),
            owned_refs(out@) == file_refs(all, i as int),
        decreases refs@.len() - i,
    {
        let ghost before = owned_refs(out@);
        assert(all[i as int] == (refs@[i as int].0@, refs@[i as int].1));
        if !contains(refs[i].0, "://") {
            let src: String = refs[i].0.to_owned();
            out.push((src, refs[i].1));
            assert(owned_refs(out@) =~= before.push(all[i as int]));
        }
        i = i + 1;
    }
    out
}

/// The files that a scene refers to, to be looked for.
pub fn asset_files(scene: &Scene) -> (r: Vec<String>)
    ensures
        crate::text::text_views(r@) == ref_texts(scene_files(scene@)),
{
    let files = files_of(scene);
    let ghost all = owned_refs(files@);
    let mut out: Vec<String> = Vec::new();
    let mut i: usize = 0;
    while i < files.len()
        invariant
            i <= files@.len(),
            out@.len() == i,
            forall|k: int| 0 <= k < i ==> (#[trigger] out@[k])@ == files@[k].0@,
        decreases files@.len() - i,
    {
        out.push(files[i].0.clone());
        i = i + 1;
    }
    assert(crate::text::text_views(out@) =~= ref_texts(all));
    out
}

/// A warning for each of the first `n` files that was not found.
pub open spec fn missing(files: Seq<(Seq<char>, Span)>, found: Seq<bool>, n: int) -> Seq<
    DiagnosticView,
>
    decreases n,
{
    if n <= 0 || n > files.len() {
        Seq::empty()
    } else if found[n - 1] {
        missing(files, found, n - 1)
    } else {
        missing(files, found, n - 1).push(
            crate::diagnostic::warning_view(
                "referenced file not found: "@ + files[n - 1].0,
                Some(files[n - 1].1),
            ),
        )
    }
}

/// The warnings of a scene, given for each of its files whether it exists:
/// the same for every command that reports them.
pub fn asset_warnings(scene: &Scene, found: &Vec<bool>) -> (r: Vec<Diagnostic>)
    requires
        found@.len() == scene_files(scene@).len(),
    ensures
        crate::diagnostic::views(r@) == missing(
            scene_files(scene@),
            found@,
            found@.len() as int,
        ),
{
    let files = files_of(scene);
    let ghost all = owned_refs(files@);
    let mut out: Vec<Diagnostic> = Vec::new();
    let mut i: usize = 0;
    assert(crate::diagnostic::views(out@) =~= missing(all, found@, 0));
    while i < files.len()
        invariant
            i <= files@.len(),
            all == owned_refs(files@),
            found@.len() == files@.len(),
            crate::diagnostic::views(out@) == missing(all, found@, i as int),
        decreases files@.len() - i,
    {
        assert(all[i as int] == (files@[i as int].0@, files@[i as int].1));
        if !found[i] {
            let d = Diagnostic::warning(
                cat2("referenced file not found: ", files[i].0.as_str()),
                Some(files[i].1),
            );
            proof {
                crate::diagnostic::lemma_views_push(out@, d);
            }
            out.push(d);
        }
        i = i + 1;
    }
    out
}

/// The exit code of a check.
pub fn check_code(diags: &[Diagnostic]) -> (r: i32)
    ensures
        r == (if crate::diagnostic::any_error(crate::diagnostic::views(diags@)) {
            1i32
        } else {
            0i32
        }),
{
    if has_errors(diags) {
        1
    } else {
        0
    }
}

/// Missing files are warnings: they never fail a check.
pub proof fn missing_files_only_warn(
    diags: Seq<DiagnosticView>,
    files: Seq<(Seq<char>, Span)>,
    found: Seq<bool>,
    n: int,
)
    ensures
        crate::diagnostic::any_error(diags + missing(files, found, n)) ==> crate::diagnostic::any_error(
            diags,
        ),
    decreases n,
{
    if 0 < n <= files.len() {
        missing_files_only_warn(diags, files, found, n - 1);
        let before = diags + missing(files, found, n - 1);
        let after = diags + missing(files, found, n);
        if crate::diagnostic::any_error(after) {
            let i = choose|i: int|
                0 <= i < after.len() && (#[trigger] after[i]).severity
                    == crate::diagnostic::Severity::Error;
            assert(i < before.len());
            assert(before[i] == after[i]);
        }
    } else {
        assert(diags + missing(files, found, n) =~= diags);
    }
}

// Frames.

/// Frames `start..end`: `n:m` is the half-open range, `n` alone the single
/// frame. An empty range is none.
pub open spec fn frame_range(s: Seq<char>) -> Option<(nat, nat)> {
    let colon = crate::text::find_from(s, ':', 0);
    if colon < s.len() {
        match (
            crate::text::unsigned(crate::text::trimmed(s.take(colon)), u32::MAX as nat),
            crate::text::unsigned(crate::text::trimmed(s.skip(colon + 1)), u32::MAX as nat),
        ) {
            (Some(start), Some(end)) => if end > start {
                Some((start, end))
            } else {
                None
            },
            _ => None,
        }
    } else {
        match crate::text::unsigned(crate::text::trimmed(s), u32::MAX as nat) {
            Some(n) => if n < u32::MAX {
                Some((n, n + 1))
            } else {
                None
            },
            None => None,
        }
    }
}

/// The frames that `--frames` asks for.
pub fn parse_frame_range(spec: &str) -> (r: Option<std::ops::Range<u32>>)
    ensures
        match r {
            Some(f) => frame_range(spec@) == Some((f.start as nat, f.end as nat)),
            None => frame_range(spec@) is None,
        },
{
    let cs = chars_of(spec);
    let colon = find_char(cs.as_slice(), ':', 0);
    if colon < cs.len() {
        let head = vstd::slice::slice_subrange(cs.as_slice(), 0, colon);
        let rest = vstd::slice::slice_subrange(cs.as_slice(), colon + 1, cs.len());
        assert(head@ =~= cs@.take(colon as int));
        assert(rest@ =~= cs@.skip(colon + 1));
        match (parse_u32(trim(head)), parse_u32(trim(rest))) {
            (Some(start), Some(end)) => if end > start {
                Some(start..end)
            } else {
                None
            },
            _ => None,
        }
    } else {
        match parse_u32(trim(cs.as_slice())) {
            Some(n) => if n < u32::MAX {
                Some(n..n + 1)
            } else {
                None
            },
            None => None,
        }
    }
}

/// The program sample at which a frame starts, to a millionth of a sample.
pub open spec fn sample_at(frame: u32, rate: Rational) -> int {
    let exact = (frame as int * rate.denominator as int * 48_000_000_000 + rate.numerator) / (
    rate.numerator as int * 1_000_000);
    if exact <= u64::MAX {
        exact
    } else {
        u64::MAX as int
    }
}

pub fn sample_of(frame: u32, rate: &Rational) -> (r: u64)
    requires
        rate.numerator > 0,
    ensures
        r == sample_at(frame, *rate),
{
    let ghost f = frame as int;
    let ghost d = rate.denominator as int;
    assert(0 <= f * d <= 0xffff_ffff * 0xffff_ffff) by (nonlinear_arith)
        requires
            0 <= f <= 0xffff_ffff,
            0 <= d <= 0xffff_ffff,
    ;
    let top: u128 = frame as u128 * rate.denominator as u128 * 48_000_000_000
        + rate.numerator as u128;
    let bottom: u128 = rate.numerator as u128 * 1_000_000;
    let exact: u128 = top / bottom;
    if exact <= u64::MAX as u128 {
        exact as u64
    } else {
        u64::MAX
    }
}

// The output of a render.

pub open spec fn scene_target(s: SceneView) -> Option<Seq<char>> {
    match s.render {
        Some(t) => Some(t.target),
        None => None,
    }
}

/// The authored output path.
pub fn resolved_tracks_target(scene: &Scene) -> (r: Option<&str>)
    ensures
        crate::media::str_view(r) == scene_target(scene@),
{
    match &scene.render {
        Some(t) => Some(t.target.as_str()),
        None => None,
    }
}

pub open spec fn target_escape(e: EscapesView) -> Seq<char> {
    "render target `"@ + crate::paths::display(e.rel)
        + "` escapes the project root (must land under "@ + crate::paths::display(e.root) + ")"@
}

/// The output path of a render, refused where it leaves the project root.
pub fn confine_target(confined: Result<Vec<Part>, Escapes>) -> (r: Result<Vec<Part>, String>)
    ensures
        match confined {
            Ok(p) => r == Ok::<Vec<Part>, String>(p),
            Err(e) => r matches Err(m) && m@ == target_escape(e@),
        },
{
    match confined {
        Ok(p) => Ok(p),
        Err(e) => {
            let rel = path_text(&e.rel);
            let root = path_text(&e.root);
            let head = cat3(
                "render target `",
                rel.as_str(),
                "` escapes the project root (must land under ",
            );
            Err(cat3(head.as_str(), root.as_str(), ")"))
        },
    }
}

// Timings.

pub open spec fn stale_message() -> Seq<char> {
    "timings were aligned to a different script — re-run `engine align` or captions will render stale words"@
}

/// Timings that carry the fingerprint of another script are stale. Without a
/// fingerprint, and without a script, nothing can be compared.
pub open spec fn is_stale(script: Option<ScriptView>, hash: Option<Seq<char>>) -> bool {
    match (script, hash) {
        (Some(s), Some(h)) => h != crate::scene::fingerprint(s),
        _ => false,
    }
}

/// A warning when the timings were aligned to other words.
pub fn stale_timing_warning(scene: &Scene, timings: &TimingMap) -> (r: Option<Diagnostic>)
    ensures
        match r {
            Some(d) => is_stale(
                crate::scene::script_view(scene.script),
                crate::scene::text_view(timings.script_hash),
            ) && d@ == crate::diagnostic::warning_view(stale_message(), None),
            None => !is_stale(
                crate::scene::script_view(scene.script),
                crate::scene::text_view(timings.script_hash),
            ),
        },
{
    match (&scene.script, &timings.script_hash) {
        (Some(script), Some(hash)) => {
            let now = script_fingerprint(script);
            if text_eq(hash.as_str(), now.as_str()) {
                None
            } else {
                Some(
                    Diagnostic::warning(
                        "timings were aligned to a different script — re-run `engine align` or captions will render stale words".to_owned(),
                        None,
                    ),
                )
            }
        },
        _ => None,
    }
}

/// Timings fresh from an alignment are never stale for their script.
pub proof fn fresh_timings_are_not_stale(script: ScriptView)
    ensures
        !is_stale(Some(script), Some(crate::scene::fingerprint(script))),
{
}

// Alignment.

/// What an alignment starts from.
#[derive(Debug)]
pub enum AlignStart {
    /// The scene has errors.
    Failed,
    /// There is nothing to align.
    NoScript(String),
    Ready(Script),
}

/// Compile the scene of an alignment and take its script.
pub fn align_start(name: &str, source: &str) -> (r: (DiagBundle, AlignStart))
    ensures
        r.0@ == (BundleView {
            name: name@,
            source: source@,
            diags: crate::markup::compiled(source@).1,
        }),
        match (crate::markup::compiled(source@).0, r.1) {
            (None, AlignStart::Failed) => true,
            (Some(s), AlignStart::NoScript(m)) => s.script is None && m@ == name@
                + " has no <script> — nothing to align"@,
            (Some(s), AlignStart::Ready(script)) => s.script == Some(script@),
            _ => false,
        },
{
    let (scene, found) = compile_and_report(name, source);
    match scene {
        None => (found, AlignStart::Failed),
        Some(s) => match s.script {
            Some(script) => (found, AlignStart::Ready(script)),
            None => (
                found,
                AlignStart::NoScript(cat2(name, " has no <script> — nothing to align")),
            ),
        },
    }
}

/// Where the times of an alignment come from.
#[derive(Debug, Clone, Copy, PartialEq, Eq, Structural)]
pub enum AlignInput {
    Markers,
    Whisperx,
}

/// Exactly one input has to be given.
pub fn align_input(markers: bool, whisperx: bool) -> (r: Result<AlignInput, String>)
    ensures
        match r {
            Ok(AlignInput::Markers) => markers && !whisperx,
            Ok(AlignInput::Whisperx) => whisperx && !markers,
            Err(m) => markers == whisperx && m@
                == "pass exactly one of --markers or --whisperx"@,
        },
{
    if markers && !whisperx {
        Ok(AlignInput::Markers)
    } else if whisperx && !markers {
        Ok(AlignInput::Whisperx)
    } else {
        Err("pass exactly one of --markers or --whisperx".to_owned())
    }
}

/// The document that an alignment writes: the script's own track, its lines
/// with their times, and the script's fingerprint.
pub open spec fn is_timing_of(m: TimingMap, script: ScriptView, lines: Seq<AlignedLineView>) -> bool {
    &&& m.sources@.len() == 1
    &&& m.sources@[0].0@ == script.track
    &&& m.sources@[0].1@ == lines
    &&& crate::scene::text_view(m.script_hash) == Some(crate::scene::fingerprint(script))
}

/// Align by a markers file. Problems of the file point into it, problems of
/// the timing into the scene; a file with errors gives no timing.
pub fn align_markers(name: &str, source: &str, script: &Script, file: &str, text: &str) -> (r: (
    Vec<DiagBundle>,
    Option<TimingMap>,
))
    ensures
        ({
            let (markers, problems) = crate::align::all_markers(text@);
            let (lines, diags) = crate::align::marked(markers, script@);
            let read = BundleView { name: file@, source: text@, diags: problems };
            if crate::diagnostic::any_error(problems) {
                bundle_views(r.0@) == seq![read] && r.1 is None
            } else {
                bundle_views(r.0@) == seq![
                    read,
                    (BundleView { name: name@, source: source@, diags }),
                ] && (r.1 matches Some(m) && is_timing_of(m, script@, lines))
            }
        }),
{
    let (markers, problems) = parse_markers(text);
    let failed = has_errors(problems.as_slice());
    let mut bundles: Vec<DiagBundle> = Vec::new();
    bundles.push(bundle(file, text, problems));
    if failed {
        assert(bundle_views(bundles@) =~= seq![bundles@[0]@]);
        return (bundles, None);
    }
    let (timing, diags) = markers_to_timing(markers.as_slice(), script);
    bundles.push(bundle(name, source, diags));
    assert(bundle_views(bundles@) =~= seq![bundles@[0]@, bundles@[1]@]);
    (bundles, Some(timing_map_for(script, timing)))
}

/// Align by the output of an aligner. `parsed` is what was read of the file,
/// or why it was not.
pub fn align_whisperx(
    name: &str,
    source: &str,
    script: &Script,
    file: &str,
    parsed: Result<Vec<WxSegment>, String>,
) -> (r: Result<(DiagBundle, TimingMap), String>)
    ensures
        match (parsed, r) {
            (Err(e), Err(m)) => m@ == "bad whisperx file "@ + file@ + ": "@ + e@,
            (Ok(segments), Ok((b, map))) => {
                let (lines, diags) = crate::align::matched(
                    crate::align::segment_views(segments@),
                    script@,
                );
                &&& b@ == (BundleView { name: name@, source: source@, diags })
                &&& is_timing_of(map, script@, lines)
            },
            _ => false,
        },
{
    match parsed {
        Err(e) => Err(cat4("bad whisperx file ", file, ": ", e.as_str())),
        Ok(segments) => {
            let (timing, diags) = whisperx_to_timing(segments.as_slice(), script);
            Ok((bundle(name, source, diags), timing_map_for(script, timing)))
        },
    }
}

// External tools.

pub open spec fn version_flag(tool: Seq<char>) -> Seq<char> {
    if tool == "ffmpeg"@ || tool == "ffprobe"@ {
        "-version"@
    } else {
        "--version"@
    }
}

/// Each tool's version flag: the ffmpeg family takes its own.
pub fn version_arg(tool: &str) -> (r: &'static str)
    ensures
        r@ == version_flag(tool@),
{
    if text_eq(tool, "ffmpeg") || text_eq(tool, "ffprobe") {
        "-version"
    } else {
        "--version"
    }
}

/// The state of an external tool.
#[derive(Debug)]
pub enum ToolState {
    /// It runs, and says this.
    Present(String),
    /// It fails on its own version flag.
    Exits(String),
    Missing,
}

pub enum ToolStateView {
    Present(Seq<char>),
    Exits(Seq<char>),
    Missing,
}

impl View for ToolState {
    type V = ToolStateView;

    open spec fn view(&self) -> ToolStateView {
        match self {
            ToolState::Present(s) => ToolStateView::Present(s@),
            ToolState::Exits(s) => ToolStateView::Exits(s@),
            ToolState::Missing => ToolStateView::Missing,
        }
    }
}

/// The first line of a text, or nothing.
pub open spec fn first_line(s: Seq<char>) -> Seq<char> {
    let lines = crate::text::lines_from(s, 0);
    if lines.len() > 0 {
        s.subrange(lines[0].0, lines[0].1)
    } else {
        Seq::empty()
    }
}

pub fn first_line_of(text: &str) -> (r: String)
    ensures
        r@ == first_line(text@),
{
    let cs = chars_of(text);
    let lines = split_lines(cs.as_slice());
    let ghost bounds = crate::text::lines_from(cs@, 0);
    if lines.len() == 0 {
        assert(bounds.len() == 0);
        return String::new();
    }
    let (start, end) = lines[0];
    assert(bounds[0] == (start as int, end as int));
    string_of(vstd::slice::slice_subrange(cs.as_slice(), start, end))
}

/// What a version probe says of a tool: a tool that fails on its own version
/// flag is present but unusable.
pub fn tool_state(run: Result<ProcOutput, MediaError>) -> (r: ToolState)
    ensures
        r@ == (match run {
            Ok(o) => if o.status.success {
                ToolStateView::Present(first_line(crate::json::utf8_lossy(o.stdout@)))
            } else {
                ToolStateView::Exits(o.status.text@)
            },
            Err(_) => ToolStateView::Missing,
        }),
{
    match run {
        Ok(o) => if o.status.success {
            let text = lossy(o.stdout.as_slice());
            ToolState::Present(first_line_of(text.as_str()))
        } else {
            ToolState::Exits(o.status.text)
        },
        Err(_) => ToolState::Missing,
    }
}

pub open spec fn spaces(n: int) -> Seq<char> {
    Seq::new(
        (if n > 0 {
            n
        } else {
            0
        }) as nat,
        |i: int| ' ',
    )
}

/// A word with spaces after it up to eight characters.
pub open spec fn padded_word(s: Seq<char>) -> Seq<char> {
    s + spaces(8 - s.len())
}

fn pad_word(s: &str) -> (r: String)
    ensures
        r@ == padded_word(s@),
{
    let cs = chars_of(s);
    let mut out: String = s.to_owned();
    let mut n: usize = cs.len();
    assert(out@ =~= s@ + spaces(0));
    while n < 8
        invariant
            n >= cs@.len(),
            cs@ == s@,
            n <= 8 || n == cs@.len(),
            out@ == s@ + spaces(n - cs@.len()),
        decreases 8 - n,
    {
        out.push(' ');
        assert(spaces(n + 1 - cs@.len()) =~= spaces(n - cs@.len()).push(' '));
        n = n + 1;
    }
    assert(spaces(n - cs@.len()) =~= spaces(8 - s@.len()));
    out
}

pub open spec fn tool_line(tool: Seq<char>, role: Seq<char>, state: ToolStateView) -> Seq<char> {
    match state {
        ToolStateView::Present(first) => "  ok      "@ + padded_word(tool) + " "@ + first,
        ToolStateView::Exits(status) => "  MISSING "@ + padded_word(tool) + " ("@ + role
            + ") — exits "@ + status,
        ToolStateView::Missing => "  MISSING "@ + padded_word(tool) + " ("@ + role + ")"@,
    }
}

/// One line of the tool report.
pub fn doctor_line(tool: &str, role: &str, state: &ToolState) -> (r: String)
    ensures
        r@ == tool_line(tool@, role@, state@),
{
    let word = pad_word(tool);
    match state {
        ToolState::Present(first) => cat4("  ok      ", word.as_str(), " ", first.as_str()),
        ToolState::Exits(status) => {
            let head = cat4("  MISSING ", word.as_str(), " (", role);
            cat3(head.as_str(), ") — exits ", status.as_str())
        },
        ToolState::Missing => cat5("  MISSING ", word.as_str(), " (", role, ")"),
    }
}

/// How many of the first `n` tools cannot be used.
pub open spec fn unusable(states: Seq<ToolState>, n: int) -> nat
    decreases n,
{
    if n <= 0 || n > states.len() {
        0
    } else if states[n - 1] is Present {
        unusable(states, n - 1)
    } else {
        unusable(states, n - 1) + 1
    }
}

/// The last line of the tool report and the exit code.
pub fn doctor(states: &Vec<ToolState>) -> (r: (String, i32))
    ensures
        ({
            let n = unusable(states@, states@.len() as int);
            if n > 0 {
                r.0@ == crate::text::dec(n)
                    + " tool(s) missing — parsing still works; rendering needs them"@ && r.1 == 1
            } else {
                r.0@ == "all tools present"@ && r.1 == 0
            }
        }),
{
    let mut missing: usize = 0;
    let mut i: usize = 0;
    while i < states.len()
        invariant
            i <= states@.len(),
            missing <= i,
            missing == unusable(states@, i as int),
        decreases states@.len() - i,
    {
        match &states[i] {
            ToolState::Present(_) => {},
            _ => {
                missing = missing + 1;
            },
        }
        i = i + 1;
    }
    if missing > 0 {
        let n = dec_text(missing as u64);
        (
            cat2(
                n.as_str(),
                " tool(s) missing — parsing still works; rendering needs them",
            ),
            1,
        )
    } else {
        ("all tools present".to_owned(), 0)
    }
}

// Adaptation.

pub open spec fn adapt_line(path: Seq<char>, seconds: Seq<char>, a: Analysis) -> Seq<char> {
    "adapt: "@ + path + " — "@ + seconds + "s "@ + crate::text::dec(a.width as nat) + "x"@
        + crate::text::dec(a.height as nat) + ", "@ + crate::text::dec(a.cuts_us@.len())
        + " cut(s)"@ + (if a.has_audio {
        ", has audio"@
    } else {
        Seq::empty()
    })
}

/// What an adaptation says of its source. `seconds` is the duration as text.
pub fn adapt_summary(path: &str, seconds: &str, a: &Analysis) -> (r: String)
    ensures
        r@ == adapt_line(path@, seconds@, *a),
{
    let w = dec_text(a.width as u64);
    let h = dec_text(a.height as u64);
    let n = dec_text(a.cuts_us.len() as u64);
    let mut out = cat5("adapt: ", path, " — ", seconds, "s ");
    out.append(w.as_str());
    out.append("x");
    out.append(h.as_str());
    out.append(", ");
    out.append(n.as_str());
    out.append(" cut(s)");
    if a.has_audio {
        out.append(", has audio");
    }
    assert(out@ =~= adapt_line(path@, seconds@, *a));
    out
}

} // verus!
