//! Alignment connectors: measured speech to a [`TimingSource`].
//!
//! Every connector answers the same question, when each word of each script
//! cue was spoken, and produces the same output shape:
//!
//! - [`parse_markers`] and [`markers_to_timing`]: the markers file, a
//!   human-authorable `cue start_s end_s` format
//! - [`whisperx_to_timing`]: measured segments with word times
//! - [`timing_map_for`]: a source keyed on the script's track
//!
//! A markers file holds one `cue start_s end_s` per line; comments (`#`) and
//! blank lines are ignored. The cue names a script line; the span says when it
//! was spoken. Words are the script line's own text, distributed evenly across
//! the span.

use vstd::prelude::*;
use vstd::slice::slice_subrange;

use crate::diagnostic::{Diagnostic, DiagnosticView};
use crate::number::{Number, NumberView};
use crate::scene::{script_fingerprint, Script, ScriptLineView, ScriptView};
use crate::span::Span;
use crate::text::{
    byte_offsets, cat3, cat5, chars_of, dec_text, split_lines, split_words, string_of, text_eq,
    trim,
};
use crate::timing::{
    AlignedLine, AlignedLineView, Moment, MomentView, TimingMap, TimingSource, Word, WordView,
};

verus! {

/// One parsed marker line: `cue [t0, t1)` in seconds.
#[derive(Debug, PartialEq)]
pub struct Marker {
    pub cue: String,
    pub start_s: Number,
    pub end_s: Number,
    /// Byte span of the source line: findings render against the markers file
    /// itself.
    pub span: Span,
    /// 1-based source line, carried into warning text.
    pub line: usize,
}

pub struct MarkerView {
    pub cue: Seq<char>,
    pub start_s: NumberView,
    pub end_s: NumberView,
    pub span: Span,
    pub line: nat,
}

impl View for Marker {
    type V = MarkerView;

    open spec fn view(&self) -> MarkerView {
        MarkerView {
            cue: self.cue@,
            start_s: self.start_s@,
            end_s: self.end_s@,
            span: self.span,
            line: self.line as nat,
        }
    }
}

pub open spec fn marker_views(s: Seq<Marker>) -> Seq<MarkerView> {
    Seq::new(s.len(), |i: int| s[i]@)
}

/// What one line of a markers file amounts to.
pub enum LineReading {
    Nothing,
    Marker(MarkerView),
    Finding(DiagnosticView),
}

/// A line of text `raw`, at a span and a line number.
pub open spec fn read_line(raw: Seq<char>, span: Span, number: nat) -> LineReading {
    let line = crate::text::trimmed(raw);
    let parts = crate::text::words(line);
    if line.len() == 0 || line[0] == '#' {
        LineReading::Nothing
    } else if parts.len() < 3 {
        LineReading::Finding(
            crate::diagnostic::error_view(
                "expected `cue start_s end_s`, found `"@ + line + "`"@,
                Some(span),
            ),
        )
    } else if parts.len() > 3 {
        LineReading::Finding(
            crate::diagnostic::error_view(
                "trailing content after `cue start_s end_s`: `"@ + line + "`"@,
                Some(span),
            ),
        )
    } else {
        match (crate::number::number(parts[1]), crate::number::number(parts[2])) {
            (Some(start_s), Some(end_s)) => if !start_s.is_finite() || !end_s.is_finite() {
                LineReading::Finding(
                    crate::diagnostic::error_view(
                        "times must be finite: `"@ + line + "`"@,
                        Some(span),
                    ),
                )
            } else if !start_s.less(end_s) {
                LineReading::Finding(
                    crate::diagnostic::error_view(
                        "end must be after start: `"@ + line + "`"@,
                        Some(span),
                    ),
                )
            } else {
                LineReading::Marker(
                    MarkerView { cue: parts[0], start_s, end_s, span, line: number },
                )
            },
            _ => LineReading::Finding(
                crate::diagnostic::error_view(
                    "times must be numbers: `"@ + line + "`"@,
                    Some(span),
                ),
            ),
        }
    }
}

/// The reading of the `k`-th line of a markers file.
pub open spec fn reading(text: Seq<char>, k: int) -> LineReading {
    let (a, b) = crate::text::lines_from(text, 0)[k];
    read_line(text.subrange(a, b), crate::parser::span_of(text, a, b), (k + 1) as nat)
}

/// The markers and the findings of the first `n` lines.
pub open spec fn markers(text: Seq<char>, n: int) -> (Seq<MarkerView>, Seq<DiagnosticView>)
    decreases n,
{
    if n <= 0 {
        (Seq::empty(), Seq::empty())
    } else {
        let (m, d) = markers(text, n - 1);
        match reading(text, n - 1) {
            LineReading::Nothing => (m, d),
            LineReading::Marker(v) => (m.push(v), d),
            LineReading::Finding(v) => (m, d.push(v)),
        }
    }
}

pub open spec fn all_markers(text: Seq<char>) -> (Seq<MarkerView>, Seq<DiagnosticView>) {
    markers(text, crate::text::lines_from(text, 0).len() as int)
}

fn read(raw: &[char], span: Span, number: usize) -> (r: Result<Option<Marker>, Diagnostic>)
    ensures
        match r {
            Ok(None) => read_line(raw@, span, number as nat) is Nothing,
            Ok(Some(m)) => read_line(raw@, span, number as nat) == LineReading::Marker(m@),
            Err(d) => read_line(raw@, span, number as nat) == LineReading::Finding(d@),
        },
{
    let t = trim(raw);
    if t.len() == 0 || t[0] == '#' {
        return Ok(None);
    }
    let line = string_of(t);
    let parts = split_words(t);
    let ghost views = crate::text::words(t@);
    if parts.len() < 3 {
        return Err(
            Diagnostic::error(
                cat3("expected `cue start_s end_s`, found `", line.as_str(), "`"),
                Some(span),
            ),
        );
    }
    if parts.len() > 3 {
        return Err(
            Diagnostic::error(
                cat3("trailing content after `cue start_s end_s`: `", line.as_str(), "`"),
                Some(span),
            ),
        );
    }
    assert(views[0] == parts@[0]@ && views[1] == parts@[1]@ && views[2] == parts@[2]@);
    match (Number::parse(parts[1].as_str()), Number::parse(parts[2].as_str())) {
        (Some(start_s), Some(end_s)) => {
            if !start_s.is_finite() || !end_s.is_finite() {
                return Err(
                    Diagnostic::error(
                        cat3("times must be finite: `", line.as_str(), "`"),
                        Some(span),
                    ),
                );
            }
            if !start_s.less(&end_s) {
                return Err(
                    Diagnostic::error(
                        cat3("end must be after start: `", line.as_str(), "`"),
                        Some(span),
                    ),
                );
            }
            Ok(Some(Marker { cue: parts[0].clone(), start_s, end_s, span, line: number }))
        },
        _ => Err(
            Diagnostic::error(
                cat3("times must be numbers: `", line.as_str(), "`"),
                Some(span),
            ),
        ),
    }
}

/// Parse marker text. Malformed lines collect as diagnostics rather than
/// failing the whole file: a typo in one line doesn't lose the others.
pub fn parse_markers(text: &str) -> (r: (Vec<Marker>, Vec<Diagnostic>))
    ensures
        (marker_views(r.0@), crate::diagnostic::views(r.1@)) == all_markers(text@),
{
    let cs = chars_of(text);
    let offs = byte_offsets(text);
    let lines = split_lines(cs.as_slice());
    let ghost bounds = crate::text::lines_from(text@, 0);
    let mut found: Vec<Marker> = Vec::new();
    let mut diags: Vec<Diagnostic> = Vec::new();
    let mut i: usize = 0;
    assert(marker_views(found@) =~= Seq::<MarkerView>::empty());
    assert(crate::diagnostic::views(diags@) =~= Seq::<DiagnosticView>::empty());
    while i < lines.len()
        invariant
            i <= lines@.len(),
            cs@ == text@,
            bounds == crate::text::lines_from(text@, 0),
            bounds == crate::text::bound_views(lines@),
            forall|k: int| 0 <= k < lines@.len() ==> (#[trigger] lines@[k]).0 <= lines@[k].1
                <= cs@.len(),
            offs@.len() == text@.len() + 1,
            forall|k: int|
                0 <= k <= text@.len() ==> #[trigger] offs@[k] == crate::text::offset(text@, k),
            (marker_views(found@), crate::diagnostic::views(diags@)) == markers(text@, i as int),
        decreases lines@.len() - i,
    {
        let (a, b) = lines[i];
        assert(bounds[i as int] == (a as int, b as int));
        let span = Span::new(offs[a], offs[b]);
        let ghost m = marker_views(found@);
        let ghost d = crate::diagnostic::views(diags@);
        match read(slice_subrange(cs.as_slice(), a, b), span, i + 1) {
            Ok(None) => {},
            Ok(Some(v)) => {
                found.push(v);
                assert(marker_views(found@) =~= m.push(v@));
            },
            Err(e) => {
                diags.push(e);
                assert(crate::diagnostic::views(diags@) =~= d.push(e@));
            },
        }
        i = i + 1;
    }
    (found, diags)
}

// Markers to timing.

pub open spec fn find_marker(m: Seq<MarkerView>, cue: Seq<char>, i: int) -> Option<MarkerView>
    decreases m.len() - i,
{
    if i < 0 || i >= m.len() {
        None
    } else if m[i].cue == cue {
        Some(m[i])
    } else {
        find_marker(m, cue, i + 1)
    }
}

/// The words of a text laid evenly across a span.
pub open spec fn spread_words(text: Seq<char>, start: NumberView, end: NumberView) -> Seq<
    WordView,
> {
    let w = crate::text::words(text);
    Seq::new(
        w.len(),
        |i: int|
            WordView {
                text: w[i],
                start_s: MomentView { from: start, to: end, step: i as nat, steps: w.len() },
                end_s: MomentView { from: start, to: end, step: (i + 1) as nat, steps: w.len() },
            },
    )
}

/// The timed lines and the warnings for the first `n` lines of a script.
pub open spec fn marked_lines(m: Seq<MarkerView>, lines: Seq<ScriptLineView>, n: int) -> (
    Seq<AlignedLineView>,
    Seq<DiagnosticView>,
)
    decreases n,
{
    if n <= 0 || n > lines.len() {
        (Seq::empty(), Seq::empty())
    } else {
        let (out, d) = marked_lines(m, lines, n - 1);
        let line = lines[n - 1];
        match find_marker(m, line.id, 0) {
            Some(v) => (
                out.push(
                    AlignedLineView {
                        cue: line.id,
                        words: spread_words(line.text, v.start_s, v.end_s),
                    },
                ),
                d,
            ),
            None => (
                out,
                d.push(
                    crate::diagnostic::warning_view(
                        "cue `"@ + line.id + "` has no marker — anchors on it won't resolve"@,
                        Some(line.span),
                    ),
                ),
            ),
        }
    }
}

pub open spec fn is_line(lines: Seq<ScriptLineView>, cue: Seq<char>) -> bool {
    exists|i: int| 0 <= i < lines.len() && (#[trigger] lines[i]).id == cue
}

/// A warning for each of the first `n` markers that names no line.
pub open spec fn stray_markers(m: Seq<MarkerView>, lines: Seq<ScriptLineView>, n: int) -> Seq<
    DiagnosticView,
>
    decreases n,
{
    if n <= 0 || n > m.len() {
        Seq::empty()
    } else {
        let d = stray_markers(m, lines, n - 1);
        let v = m[n - 1];
        if is_line(lines, v.cue) {
            d
        } else {
            d.push(
                crate::diagnostic::warning_view(
                    "marker for unknown cue `"@ + v.cue + "` (markers:"@ + crate::text::dec(
                        v.line,
                    ) + ")"@,
                    None,
                ),
            )
        }
    }
}

/// The timing of a script by its markers. Unmarked lines and markers for
/// unknown cues are warnings.
pub open spec fn marked(m: Seq<MarkerView>, script: ScriptView) -> (
    Seq<AlignedLineView>,
    Seq<DiagnosticView>,
) {
    let (out, d) = marked_lines(m, script.lines, script.lines.len() as int);
    (out, d + stray_markers(m, script.lines, m.len() as int))
}

/// Split `text` into words laid evenly across a span.
fn spread(text: &str, start: &Number, end: &Number) -> (r: Vec<Word>)
    ensures
        crate::timing::word_views(r@) == spread_words(text@, start@, end@),
{
    let cs = chars_of(text);
    let parts = split_words(cs.as_slice());
    let ghost w = crate::text::words(text@);
    let n = parts.len();
    let mut out: Vec<Word> = Vec::new();
    let mut i: usize = 0;
    while i < n
        invariant
            i <= n == parts@.len(),
            w == crate::text::text_views(parts@),
            w == crate::text::words(text@),
            out@.len() == i,
            forall|k: int|
                0 <= k < i ==> (#[trigger] out@[k])@ == spread_words(text@, start@, end@)[k],
        decreases n - i,
    {
        assert(w[i as int] == parts@[i as int]@);
        out.push(
            Word {
                text: parts[i].clone(),
                start_s: Moment { from: start.clone(), to: end.clone(), step: i, steps: n },
                end_s: Moment { from: start.clone(), to: end.clone(), step: i + 1, steps: n },
            },
        );
        assert(out@[i as int]@ == spread_words(text@, start@, end@)[i as int]);
        i = i + 1;
    }
    assert(crate::timing::word_views(out@) =~= spread_words(text@, start@, end@));
    out
}

/// Markers and the script they describe: a timing source for `script.track`.
/// Unknown cues and unmarked script lines are warnings.
pub fn markers_to_timing(markers: &[Marker], script: &Script) -> (r: (
    TimingSource,
    Vec<Diagnostic>,
))
    ensures
        (r.0@, crate::diagnostic::views(r.1@)) == marked(marker_views(markers@), script@),
{
    let ghost m = marker_views(markers@);
    let ghost sl = script@.lines;
    let mut diags: Vec<Diagnostic> = Vec::new();
    let mut lines: Vec<AlignedLine> = Vec::new();
    let mut i: usize = 0;
    assert(crate::timing::aligned_views(lines@) =~= Seq::<AlignedLineView>::empty());
    assert(crate::diagnostic::views(diags@) =~= Seq::<DiagnosticView>::empty());
    while i < script.lines.len()
        invariant
            i <= script.lines@.len(),
            m == marker_views(markers@),
            sl == crate::scene::line_views(script.lines@),
            (crate::timing::aligned_views(lines@), crate::diagnostic::views(diags@))
                == marked_lines(m, sl, i as int),
        decreases script.lines@.len() - i,
    {
        let line = &script.lines[i];
        assert(sl[i as int] == line@);
        let ghost l0 = crate::timing::aligned_views(lines@);
        let ghost d0 = crate::diagnostic::views(diags@);
        match marker_for(markers, line.id.as_str()) {
            Some(v) => {
                let aligned = AlignedLine {
                    cue: line.id.clone(),
                    words: spread(line.text.as_str(), &v.start_s, &v.end_s),
                };
                lines.push(aligned);
                assert(crate::timing::aligned_views(lines@) =~= l0.push(aligned@));
            },
            None => {
                let d = Diagnostic::warning(
                    cat3(
                        "cue `",
                        line.id.as_str(),
                        "` has no marker — anchors on it won't resolve",
                    ),
                    Some(line.span),
                );
                diags.push(d);
                assert(crate::diagnostic::views(diags@) =~= d0.push(d@));
            },
        }
        i = i + 1;
    }
    let ghost d1 = crate::diagnostic::views(diags@);
    let mut k: usize = 0;
    assert(d1 + stray_markers(m, sl, 0) =~= d1);
    while k < markers.len()
        invariant
            k <= markers@.len(),
            m == marker_views(markers@),
            sl == crate::scene::line_views(script.lines@),
            crate::diagnostic::views(diags@) == d1 + stray_markers(m, sl, k as int),
        decreases markers@.len() - k,
    {
        let v = &markers[k];
        assert(m[k as int] == v@);
        let ghost d0 = crate::diagnostic::views(diags@);
        if !has_line(script, v.cue.as_str()) {
            let number = dec_text(v.line as u64);
            let d = Diagnostic::warning(
                cat5(
                    "marker for unknown cue `",
                    v.cue.as_str(),
                    "` (markers:",
                    number.as_str(),
                    ")",
                ),
                None,
            );
            diags.push(d);
            assert(crate::diagnostic::views(diags@) =~= d0.push(d@));
            assert(d0.push(d@) =~= d1 + stray_markers(m, sl, k as int).push(d@));
        }
        k = k + 1;
    }
    (TimingSource { lines }, diags)
}

fn marker_for<'a>(markers: &'a [Marker], cue: &str) -> (r: Option<&'a Marker>)
    ensures
        match r {
            Some(m) => find_marker(marker_views(markers@), cue@, 0) == Some(m@),
            None => find_marker(marker_views(markers@), cue@, 0) is None,
        },
{
    let ghost m = marker_views(markers@);
    let mut i: usize = 0;
    while i < markers.len()
        invariant
            i <= markers@.len(),
            m == marker_views(markers@),
            find_marker(m, cue@, 0) == find_marker(m, cue@, i as int),
        decreases markers@.len() - i,
    {
        assert(m[i as int] == markers@[i as int]@);
        if text_eq(markers[i].cue.as_str(), cue) {
            return Some(&markers[i]);
        }
        i = i + 1;
    }
    None
}

fn has_line(script: &Script, cue: &str) -> (r: bool)
    ensures
        r == is_line(script@.lines, cue@),
{
    let mut i: usize = 0;
    while i < script.lines.len()
        invariant
            i <= script.lines@.len(),
            forall|k: int| 0 <= k < i ==> (#[trigger] script@.lines[k]).id != cue@,
        decreases script.lines@.len() - i,
    {
        assert(script@.lines[i as int] == script.lines@[i as int]@);
        if text_eq(script.lines[i].id.as_str(), cue) {
            return true;
        }
        i = i + 1;
    }
    false
}

// Measured segments.

/// One word as an aligner reports it; an unaligned word has no times.
#[derive(Debug, PartialEq)]
pub struct WxWord {
    pub word: Option<String>,
    pub start: Option<Number>,
    pub end: Option<Number>,
}

/// One spoken segment.
#[derive(Debug, PartialEq)]
pub struct WxSegment {
    pub words: Vec<WxWord>,
}

pub struct WxWordView {
    pub word: Option<Seq<char>>,
    pub start: Option<NumberView>,
    pub end: Option<NumberView>,
}

pub open spec fn number_view(n: Option<Number>) -> Option<NumberView> {
    match n {
        Some(v) => Some(v@),
        None => None,
    }
}

impl View for WxWord {
    type V = WxWordView;

    open spec fn view(&self) -> WxWordView {
        WxWordView {
            word: crate::scene::text_view(self.word),
            start: number_view(self.start),
            end: number_view(self.end),
        }
    }
}

pub open spec fn wx_views(s: Seq<WxWord>) -> Seq<WxWordView> {
    Seq::new(s.len(), |i: int| s[i]@)
}

pub open spec fn segment_views(s: Seq<WxSegment>) -> Seq<Seq<WxWordView>> {
    Seq::new(s.len(), |i: int| wx_views(s[i].words@))
}

/// A word that has a text and both times.
pub open spec fn timed(w: WxWordView) -> Option<WordView> {
    match (w.word, w.start, w.end) {
        (Some(text), Some(start), Some(end)) => Some(
            WordView {
                text,
                start_s: crate::timing::instant(start),
                end_s: crate::timing::instant(end),
            },
        ),
        _ => None,
    }
}

/// The timed words among the first `n`.
pub open spec fn timed_words(words: Seq<WxWordView>, n: int) -> Seq<WordView>
    decreases n,
{
    if n <= 0 || n > words.len() {
        Seq::empty()
    } else {
        match timed(words[n - 1]) {
            Some(w) => timed_words(words, n - 1).push(w),
            None => timed_words(words, n - 1),
        }
    }
}

/// A word whose times are negative, reversed or not finite.
pub open spec fn misplaced(w: WxWordView) -> bool {
    match (w.start, w.end) {
        (Some(start), Some(end)) => timed(w) is Some && (!start.is_finite() || !end.is_finite()
            || start.is_negative() || end.less(start)),
        _ => false,
    }
}

pub open spec fn any_misplaced(words: Seq<WxWordView>) -> bool {
    exists|i: int| 0 <= i < words.len() && misplaced(#[trigger] words[i])
}

/// The finding for a segment matched to a line, if there is one.
pub open spec fn segment_findings(line: ScriptLineView, words: Seq<WxWordView>) -> Seq<
    DiagnosticView,
> {
    if timed_words(words, words.len() as int).len() == 0 {
        seq![
            crate::diagnostic::warning_view(
                "cue `"@ + line.id + "` aligned to zero timed words"@,
                Some(line.span),
            ),
        ]
    } else if any_misplaced(words) {
        seq![
            crate::diagnostic::warning_view(
                "cue `"@ + line.id + "` has words with invalid times"@,
                Some(line.span),
            ),
        ]
    } else {
        Seq::empty()
    }
}

/// The first `n` lines of a script matched to segments by order.
pub open spec fn matched_lines(
    segments: Seq<Seq<WxWordView>>,
    lines: Seq<ScriptLineView>,
    n: int,
) -> (Seq<AlignedLineView>, Seq<DiagnosticView>)
    decreases n,
{
    if n <= 0 || n > lines.len() {
        (Seq::empty(), Seq::empty())
    } else {
        let (out, d) = matched_lines(segments, lines, n - 1);
        let line = lines[n - 1];
        if n - 1 < segments.len() {
            let words = segments[n - 1];
            (
                out.push(
                    AlignedLineView {
                        cue: line.id,
                        words: timed_words(words, words.len() as int),
                    },
                ),
                d + segment_findings(line, words),
            )
        } else {
            (
                out,
                d.push(
                    crate::diagnostic::warning_view(
                        "cue `"@ + line.id + "` has no segment "@ + crate::text::dec(n as nat)
                            + " in alignment output"@,
                        Some(line.span),
                    ),
                ),
            )
        }
    }
}

/// Segments matched to a script. Word times are real measurements; extra and
/// missing segments are warnings.
pub open spec fn matched(segments: Seq<Seq<WxWordView>>, script: ScriptView) -> (
    Seq<AlignedLineView>,
    Seq<DiagnosticView>,
) {
    let (out, d) = matched_lines(segments, script.lines, script.lines.len() as int);
    if segments.len() > script.lines.len() {
        (
            out,
            d.push(
                crate::diagnostic::warning_view(
                    "alignment returned "@ + crate::text::dec(
                        (segments.len() - script.lines.len()) as nat,
                    ) + " extra segment(s), ignored"@,
                    None,
                ),
            ),
        )
    } else {
        (out, d)
    }
}

fn timed_word(w: &WxWord) -> (r: Option<Word>)
    ensures
        match r {
            Some(v) => timed(w@) == Some(v@),
            None => timed(w@) is None,
        },
{
    match (&w.word, &w.start, &w.end) {
        (Some(text), Some(start), Some(end)) => Some(
            Word {
                text: text.clone(),
                start_s: Moment { from: start.clone(), to: start.clone(), step: 0, steps: 1 },
                end_s: Moment { from: end.clone(), to: end.clone(), step: 0, steps: 1 },
            },
        ),
        _ => None,
    }
}

fn is_misplaced(w: &WxWord) -> (r: bool)
    ensures
        r == misplaced(w@),
{
    match (&w.word, &w.start, &w.end) {
        (Some(_), Some(start), Some(end)) => !start.is_finite() || !end.is_finite()
            || start.is_negative() || end.less(start),
        _ => false,
    }
}

/// The timed words of a segment, and whether one of them is misplaced.
fn segment_words(seg: &WxSegment) -> (r: (Vec<Word>, bool))
    ensures
        crate::timing::word_views(r.0@) == timed_words(
            wx_views(seg.words@),
            seg.words@.len() as int,
        ),
        r.1 == any_misplaced(wx_views(seg.words@)),
{
    let ghost w = wx_views(seg.words@);
    let mut out: Vec<Word> = Vec::new();
    let mut bad: bool = false;
    let mut i: usize = 0;
    assert(crate::timing::word_views(out@) =~= Seq::<WordView>::empty());
    while i < seg.words.len()
        invariant
            i <= seg.words@.len(),
            w == wx_views(seg.words@),
            crate::timing::word_views(out@) == timed_words(w, i as int),
            bad == exists|k: int| 0 <= k < i && misplaced(#[trigger] w[k]),
        decreases seg.words@.len() - i,
    {
        assert(w[i as int] == seg.words@[i as int]@);
        let ghost before = crate::timing::word_views(out@);
        match timed_word(&seg.words[i]) {
            Some(v) => {
                out.push(v);
                assert(crate::timing::word_views(out@) =~= before.push(v@));
            },
            None => {},
        }
        if is_misplaced(&seg.words[i]) {
            assert(misplaced(w[i as int]));
            bad = true;
        }
        i = i + 1;
    }
    (out, bad)
}

/// Match measured segments to `script` by order: a timing source for
/// `script.track`. Mismatches are warnings: unaligned words drop out, extra
/// and missing segments warn, and so does a line left with no words or with
/// words at impossible times.
pub fn whisperx_to_timing(segments: &[WxSegment], script: &Script) -> (r: (
    TimingSource,
    Vec<Diagnostic>,
))
    ensures
        (r.0@, crate::diagnostic::views(r.1@)) == matched(segment_views(segments@), script@),
{
    let ghost segs = segment_views(segments@);
    let ghost sl = script@.lines;
    let mut diags: Vec<Diagnostic> = Vec::new();
    let mut lines: Vec<AlignedLine> = Vec::new();
    let mut i: usize = 0;
    assert(crate::timing::aligned_views(lines@) =~= Seq::<AlignedLineView>::empty());
    assert(crate::diagnostic::views(diags@) =~= Seq::<DiagnosticView>::empty());
    while i < script.lines.len()
        invariant
            i <= script.lines@.len(),
            segs == segment_views(segments@),
            sl == crate::scene::line_views(script.lines@),
            (crate::timing::aligned_views(lines@), crate::diagnostic::views(diags@))
                == matched_lines(segs, sl, i as int),
        decreases script.lines@.len() - i,
    {
        let line = &script.lines[i];
        assert(sl[i as int] == line@);
        let ghost l0 = crate::timing::aligned_views(lines@);
        let ghost d0 = crate::diagnostic::views(diags@);
        if i < segments.len() {
            let (words, bad) = segment_words(&segments[i]);
            assert(segs[i as int] == wx_views(segments@[i as int].words@));
            if words.len() == 0 {
                let d = Diagnostic::warning(
                    cat3("cue `", line.id.as_str(), "` aligned to zero timed words"),
                    Some(line.span),
                );
                diags.push(d);
                assert(crate::diagnostic::views(diags@) =~= d0 + seq![d@]);
            } else if bad {
                let d = Diagnostic::warning(
                    cat3("cue `", line.id.as_str(), "` has words with invalid times"),
                    Some(line.span),
                );
                diags.push(d);
                assert(crate::diagnostic::views(diags@) =~= d0 + seq![d@]);
            } else {
                assert(crate::diagnostic::views(diags@) =~= d0 + Seq::<DiagnosticView>::empty());
            }
            let aligned = AlignedLine { cue: line.id.clone(), words };
            lines.push(aligned);
            assert(crate::timing::aligned_views(lines@) =~= l0.push(aligned@));
        } else {
            let number = dec_text((i + 1) as u64);
            let d = Diagnostic::warning(
                cat5(
                    "cue `",
                    line.id.as_str(),
                    "` has no segment ",
                    number.as_str(),
                    " in alignment output",
                ),
                Some(line.span),
            );
            diags.push(d);
            assert(crate::diagnostic::views(diags@) =~= d0.push(d@));
        }
        i = i + 1;
    }
    if segments.len() > script.lines.len() {
        let ghost d0 = crate::diagnostic::views(diags@);
        let extra = dec_text((segments.len() - script.lines.len()) as u64);
        let d = Diagnostic::warning(
            cat3("alignment returned ", extra.as_str(), " extra segment(s), ignored"),
            None,
        );
        diags.push(d);
        assert(crate::diagnostic::views(diags@) =~= d0.push(d@));
    }
    (TimingSource { lines }, diags)
}

/// A timing source keyed on the script's own track name, with the script's
/// fingerprint.
pub fn timing_map_for(script: &Script, source: TimingSource) -> (r: TimingMap)
    ensures
        r.sources@.len() == 1,
        r.sources@[0].0@ == script@.track,
        r.sources@[0].1 == source,
        crate::scene::text_view(r.script_hash) == Some(crate::scene::fingerprint(script@)),
{
    let mut sources: Vec<(String, TimingSource)> = Vec::new();
    sources.push((script.track.clone(), source));
    TimingMap { sources, script_hash: Some(script_fingerprint(script)) }
}

// Laws.

/// A marker read off the `k`-th line: finite times in order, the line's own
/// span and number.
pub open spec fn marker_of_line(text: Seq<char>, m: MarkerView, k: int) -> bool {
    let lines = crate::text::lines_from(text, 0);
    &&& 0 <= k < lines.len()
    &&& m.line == k + 1
    &&& m.span == crate::parser::span_of(text, lines[k].0, lines[k].1)
    &&& m.start_s.is_finite() && m.end_s.is_finite()
    &&& m.start_s.less(m.end_s)
    &&& crate::text::words(
        crate::text::trimmed(text.subrange(lines[k].0, lines[k].1)),
    ).first() == m.cue
}

/// The number of the first `n` lines that hold more than a comment.
pub open spec fn content_lines(text: Seq<char>, n: int) -> nat
    decreases n,
{
    if n <= 0 {
        0
    } else if reading(text, n - 1) is Nothing {
        content_lines(text, n - 1)
    } else {
        content_lines(text, n - 1) + 1
    }
}

proof fn lemma_markers(text: Seq<char>, n: int)
    requires
        n <= crate::text::lines_from(text, 0).len(),
    ensures
        forall|i: int|
            0 <= i < markers(text, n).0.len() ==> marker_of_line(
                text,
                #[trigger] markers(text, n).0[i],
                markers(text, n).0[i].line - 1,
            ),
        forall|i: int|
            0 <= i < markers(text, n).1.len() ==> (#[trigger] markers(text, n).1[i]).severity
                == crate::diagnostic::Severity::Error,
        markers(text, n).0.len() + markers(text, n).1.len() == content_lines(text, n),
    decreases n,
{
    if n > 0 {
        lemma_markers(text, n - 1);
        let (m, d) = markers(text, n - 1);
        match reading(text, n - 1) {
            LineReading::Marker(v) => {
                let all = m.push(v);
                assert(marker_of_line(text, v, n - 1));
                assert forall|i: int| 0 <= i < all.len() implies marker_of_line(
                    text,
                    #[trigger] all[i],
                    all[i].line - 1,
                ) by {
                    if i < m.len() {
                        assert(all[i] == m[i]);
                    }
                }
            },
            LineReading::Finding(v) => {
                let all = d.push(v);
                assert forall|i: int| 0 <= i < all.len() implies (#[trigger] all[i]).severity
                    == crate::diagnostic::Severity::Error by {
                    if i < d.len() {
                        assert(all[i] == d[i]);
                    }
                }
            },
            LineReading::Nothing => {},
        }
    }
}

/// Every line of a markers file that is neither blank nor a comment yields
/// either one marker or one error, so that a malformed line costs no other;
/// every marker has finite times in order and the span of its own line.
pub proof fn markers_are_sound(text: Seq<char>)
    ensures
        forall|i: int|
            0 <= i < all_markers(text).0.len() ==> marker_of_line(
                text,
                #[trigger] all_markers(text).0[i],
                all_markers(text).0[i].line - 1,
            ),
        forall|i: int|
            0 <= i < all_markers(text).1.len() ==> (#[trigger] all_markers(text).1[i]).severity
                == crate::diagnostic::Severity::Error,
        all_markers(text).0.len() + all_markers(text).1.len() == content_lines(
            text,
            crate::text::lines_from(text, 0).len() as int,
        ),
{
    lemma_markers(text, crate::text::lines_from(text, 0).len() as int);
}

/// Spread words tile their span: the first starts where the span does, each
/// next one starts where the one before it ends, and the last ends with the
/// span; together they are the words of the text.
pub proof fn spread_tiles_the_span(text: Seq<char>, start: NumberView, end: NumberView)
    ensures
        ({
            let w = spread_words(text, start, end);
            let n = w.len();
            &&& n == crate::text::words(text).len()
            &&& n > 0 ==> w[0].start_s == (MomentView { from: start, to: end, step: 0, steps: n })
            &&& n > 0 ==> w[n - 1].end_s == (MomentView { from: start, to: end, step: n, steps: n })
            &&& forall|i: int| 0 <= i < n - 1 ==> (#[trigger] w[i]).end_s == w[i + 1].start_s
            &&& forall|i: int|
                0 <= i < n ==> (#[trigger] w[i]).text == crate::text::words(text)[i]
        }),
{
}

/// No alignment finding stops the pipeline: markers and segments that do not
/// fit the script only warn.
pub proof fn alignment_only_warns(
    m: Seq<MarkerView>,
    segments: Seq<Seq<WxWordView>>,
    script: ScriptView,
)
    ensures
        !crate::diagnostic::any_error(marked(m, script).1),
        !crate::diagnostic::any_error(matched(segments, script).1),
{
    lemma_marked_warns(m, script.lines, script.lines.len() as int);
    lemma_stray_warns(m, script.lines, m.len() as int);
    lemma_matched_warns(segments, script.lines, script.lines.len() as int);
}

spec fn only_warnings(d: Seq<DiagnosticView>) -> bool {
    forall|i: int|
        0 <= i < d.len() ==> (#[trigger] d[i]).severity == crate::diagnostic::Severity::Warning
}

proof fn lemma_marked_warns(m: Seq<MarkerView>, lines: Seq<ScriptLineView>, n: int)
    ensures
        only_warnings(marked_lines(m, lines, n).1),
    decreases n,
{
    if 0 < n <= lines.len() {
        lemma_marked_warns(m, lines, n - 1);
    }
}

proof fn lemma_stray_warns(m: Seq<MarkerView>, lines: Seq<ScriptLineView>, n: int)
    ensures
        only_warnings(stray_markers(m, lines, n)),
    decreases n,
{
    if 0 < n <= m.len() {
        lemma_stray_warns(m, lines, n - 1);
    }
}

proof fn lemma_matched_warns(segments: Seq<Seq<WxWordView>>, lines: Seq<ScriptLineView>, n: int)
    ensures
        only_warnings(matched_lines(segments, lines, n).1),
    decreases n,
{
    if 0 < n <= lines.len() {
        lemma_matched_warns(segments, lines, n - 1);
    }
}

} // verus!
