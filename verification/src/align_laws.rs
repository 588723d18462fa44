//! What alignment gives: the words that were measured, each at its own time.

use vstd::prelude::*;

use crate::align::{MarkerView, WxWordView};
use crate::diagnostic::{DiagnosticView, Severity};
use crate::number::NumberView;
use crate::scene::{ScriptLineView, ScriptView};
use crate::timing::{AlignedLineView, MomentView, WordView};

verus! {

// Measured segments.

/// A word that an aligner placed: it has a text and both times.
pub open spec fn is_timed(w: WxWordView) -> bool {
    w.word is Some && w.start is Some && w.end is Some
}

/// The positions of timed words.
pub open spec fn timed_at(words: Seq<WxWordView>) -> spec_fn(int) -> bool {
    |i: int| is_timed(words[i])
}

/// A moment that is one measured time.
pub open spec fn is_time(m: MomentView, t: NumberView) -> bool {
    m.from == t && m.to == t && m.step == 0 && m.steps == 1
}

/// `out` is the word `w`, at its own times.
pub open spec fn is_word(out: WordView, w: WxWordView) -> bool {
    &&& w.word == Some(out.text)
    &&& w.start matches Some(t) && is_time(out.start_s, t)
    &&& w.end matches Some(t) && is_time(out.end_s, t)
}

/// `out` holds exactly the timed words, in their order.
pub open spec fn holds_timed(out: Seq<WordView>, words: Seq<WxWordView>) -> bool {
    exists|at: Seq<int>|
        {
            &&& #[trigger] crate::select::selects(
                at,
                words.len() as int,
                timed_at(words),
            )
            &&& out.len() == at.len()
            &&& forall|k: int| 0 <= k < at.len() ==> is_word(#[trigger] out[k], words[at[k]])
        }
}

proof fn lemma_timed(words: Seq<WxWordView>, n: int) -> (at: Seq<int>)
    requires
        0 <= n <= words.len(),
    ensures
        crate::select::selects(at, n, timed_at(words)),
        crate::align::timed_words(words, n).len() == at.len(),
        forall|k: int|
            0 <= k < at.len() ==> is_word(
                #[trigger] crate::align::timed_words(words, n)[k],
                words[at[k]],
            ),
    decreases n,
{
    let keep = timed_at(words);
    if n == 0 {
        crate::select::lemma_select_none(keep);
        Seq::empty()
    } else {
        let before = lemma_timed(words, n - 1);
        if is_timed(words[n - 1]) {
            crate::select::lemma_select_take(before, n, keep);
            before.push(n - 1)
        } else {
            crate::select::lemma_select_skip(before, n, keep);
            before
        }
    }
}

proof fn lemma_matched(segments: Seq<Seq<WxWordView>>, lines: Seq<ScriptLineView>, n: int)
    requires
        0 <= n <= lines.len(),
    ensures
        ({
            let out = crate::align::matched_lines(segments, lines, n).0;
            &&& out.len() == if n <= segments.len() {
                n
            } else {
                segments.len() as int
            }
            &&& forall|i: int|
                0 <= i < out.len() ==> (#[trigger] out[i]).cue == lines[i].id && holds_timed(
                    out[i].words,
                    segments[i],
                )
        }),
    decreases n,
{
    if n > 0 {
        lemma_matched(segments, lines, n - 1);
        if n - 1 < segments.len() {
            let words = segments[n - 1];
            let at = lemma_timed(words, words.len() as int);
            assert(holds_timed(crate::align::timed_words(words, words.len() as int), words));
        }
    }
}

/// Segments are matched to the lines of a script by order, as far as there are
/// both. The words of a line are exactly those of its segment that have a text
/// and both times, in their order, each with its own text and times: a word
/// without times removes none but itself.
pub proof fn lines_hold_the_timed_words(segments: Seq<Seq<WxWordView>>, script: ScriptView)
    ensures
        ({
            let out = crate::align::matched(segments, script).0;
            &&& out.len() == if script.lines.len() <= segments.len() {
                script.lines.len()
            } else {
                segments.len()
            }
            &&& forall|i: int|
                0 <= i < out.len() ==> (#[trigger] out[i]).cue == script.lines[i].id
                    && holds_timed(out[i].words, segments[i])
        }),
{
    lemma_matched(segments, script.lines, script.lines.len() as int);
}

/// A measured word at a time that cannot be: before zero, backwards, or no
/// number.
pub open spec fn is_impossible(w: WxWordView) -> bool {
    w.word is Some && (w.start matches Some(a) && w.end matches Some(b) && (!a.is_finite()
        || !b.is_finite() || a.is_negative() || b.less(a)))
}

/// Line `i` is wanting: no segment, no timed word, or an impossible one.
pub open spec fn is_wanting(
    segments: Seq<Seq<WxWordView>>,
    lines: Seq<ScriptLineView>,
    i: int,
) -> bool {
    ||| i >= segments.len()
    ||| forall|k: int| 0 <= k < segments[i].len() ==> !is_timed(#[trigger] segments[i][k])
    ||| exists|k: int| 0 <= k < segments[i].len() && is_impossible(#[trigger] segments[i][k])
}

/// The positions of wanting lines.
pub open spec fn wanting_at(
    segments: Seq<Seq<WxWordView>>,
    lines: Seq<ScriptLineView>,
) -> spec_fn(int) -> bool {
    |i: int| is_wanting(segments, lines, i)
}

/// A warning that speaks of a line.
pub open spec fn warns_of(d: DiagnosticView, line: ScriptLineView) -> bool {
    d.severity == Severity::Warning && d.span == Some(line.span) && crate::text_laws::mentions(
        d.message,
        "`"@ + line.id + "`"@,
    )
}

proof fn lemma_names(id: Seq<char>, before: Seq<char>, after: Seq<char>, message: Seq<char>)
    requires
        message == before + ("`"@ + id + "`"@) + after,
    ensures
        crate::text_laws::mentions(message, "`"@ + id + "`"@),
{
    crate::text_laws::lemma_mentions(before, "`"@ + id + "`"@, after);
}

proof fn lemma_findings(line: ScriptLineView, words: Seq<WxWordView>)
    ensures
        ({
            let d = crate::align::segment_findings(line, words);
            let wanting = (forall|k: int| 0 <= k < words.len() ==> !is_timed(#[trigger] words[k]))
                || (exists|k: int| 0 <= k < words.len() && is_impossible(#[trigger] words[k]));
            if wanting {
                d.len() == 1 && warns_of(d[0], line)
            } else {
                d.len() == 0
            }
        }),
{
    reveal_strlit("cue `");
    reveal_strlit("` aligned to zero timed words");
    reveal_strlit("` has words with invalid times");
    reveal_strlit("`");
    reveal_strlit("cue ");
    reveal_strlit(" aligned to zero timed words");
    reveal_strlit(" has words with invalid times");
    let at = lemma_timed(words, words.len() as int);
    let t = crate::align::timed_words(words, words.len() as int);
    let q = "`"@ + line.id + "`"@;
    let zero = "cue `"@ + line.id + "` aligned to zero timed words"@;
    let bad = "cue `"@ + line.id + "` has words with invalid times"@;
    assert(zero =~= "cue "@ + q + " aligned to zero timed words"@);
    assert(bad =~= "cue "@ + q + " has words with invalid times"@);
    lemma_names(line.id, "cue "@, " aligned to zero timed words"@, zero);
    lemma_names(line.id, "cue "@, " has words with invalid times"@, bad);
    let keep = timed_at(words);
    if t.len() == 0 {
        assert forall|k: int| 0 <= k < words.len() implies !is_timed(#[trigger] words[k]) by {
            if is_timed(words[k]) {
                assert(keep(k));
                assert(at.contains(k));
            }
        }
    } else {
        assert(is_timed(words[at[0]])) by {
            assert(keep(at[0]));
        }
        if crate::align::any_misplaced(words) {
            let k = choose|k: int|
                0 <= k < words.len() && crate::align::misplaced(#[trigger] words[k]);
            assert(is_impossible(words[k]));
        }
        assert forall|k: int|
            0 <= k < words.len() && is_impossible(
                #[trigger] words[k],
            ) implies crate::align::any_misplaced(words) by {
            assert(crate::align::misplaced(words[k]));
        }
    }
}

proof fn lemma_matched_findings(
    segments: Seq<Seq<WxWordView>>,
    lines: Seq<ScriptLineView>,
    n: int,
) -> (at: Seq<int>)
    requires
        0 <= n <= lines.len(),
    ensures
        crate::select::selects(at, n, wanting_at(segments, lines)),
        crate::align::matched_lines(segments, lines, n).1.len() == at.len(),
        forall|k: int|
            0 <= k < at.len() ==> warns_of(
                #[trigger] crate::align::matched_lines(segments, lines, n).1[k],
                lines[at[k]],
            ),
    decreases n,
{
    let keep = wanting_at(segments, lines);
    if n == 0 {
        crate::select::lemma_select_none(keep);
        Seq::empty()
    } else {
        let before = lemma_matched_findings(segments, lines, n - 1);
        let line = lines[n - 1];
        if n - 1 < segments.len() {
            lemma_findings(line, segments[n - 1]);
        } else {
            reveal_strlit("cue `");
            reveal_strlit("` has no segment ");
            reveal_strlit(" in alignment output");
            reveal_strlit("`");
            reveal_strlit("cue ");
            reveal_strlit(" has no segment ");
            let number = crate::text::dec(n as nat);
            let m = "cue `"@ + line.id + "` has no segment "@ + number + " in alignment output"@;
            let after = " has no segment "@ + number + " in alignment output"@;
            assert(m =~= "cue "@ + ("`"@ + line.id + "`"@) + after);
            lemma_names(line.id, "cue "@, after, m);
        }
        if is_wanting(segments, lines, n - 1) {
            crate::select::lemma_select_take(before, n, keep);
            before.push(n - 1)
        } else {
            crate::select::lemma_select_skip(before, n, keep);
            before
        }
    }
}

/// Each line that has no segment, no timed word or an impossible one is warned
/// of, in order and once, and no other; segments left over make one more
/// warning.
pub proof fn wanting_lines_are_warned_of(segments: Seq<Seq<WxWordView>>, script: ScriptView)
    ensures
        exists|at: Seq<int>|
            {
                let d = crate::align::matched(segments, script).1;
                &&& #[trigger] crate::select::selects(
                    at,
                    script.lines.len() as int,
                    wanting_at(segments, script.lines),
                )
                &&& d.len() == at.len() + if segments.len() > script.lines.len() {
                    1int
                } else {
                    0int
                }
                &&& forall|k: int|
                    0 <= k < at.len() ==> warns_of(#[trigger] d[k], script.lines[at[k]])
                &&& segments.len() > script.lines.len() ==> d.last().severity == Severity::Warning
            },
{
    let at = lemma_matched_findings(segments, script.lines, script.lines.len() as int);
    assert(crate::select::selects(
        at,
        script.lines.len() as int,
        wanting_at(segments, script.lines),
    ));
}

// Markers.

/// Marker `j` is the first one of a cue.
pub open spec fn is_first_of(m: Seq<MarkerView>, cue: Seq<char>, j: int) -> bool {
    &&& 0 <= j < m.len()
    &&& m[j].cue == cue
    &&& forall|i: int| 0 <= i < j ==> (#[trigger] m[i]).cue != cue
}

pub open spec fn is_marked(m: Seq<MarkerView>, cue: Seq<char>) -> bool {
    exists|j: int| 0 <= j < m.len() && (#[trigger] m[j]).cue == cue
}

/// The positions of lines that have a marker.
pub open spec fn marked_at(m: Seq<MarkerView>, lines: Seq<ScriptLineView>) -> spec_fn(
    int,
) -> bool {
    |i: int| is_marked(m, lines[i].id)
}

/// The positions of lines that have none.
pub open spec fn unmarked_at(m: Seq<MarkerView>, lines: Seq<ScriptLineView>) -> spec_fn(
    int,
) -> bool {
    |i: int| !is_marked(m, lines[i].id)
}

proof fn lemma_find_marker(m: Seq<MarkerView>, cue: Seq<char>, i: int)
    requires
        0 <= i <= m.len(),
        forall|k: int| 0 <= k < i ==> (#[trigger] m[k]).cue != cue,
    ensures
        match crate::align::find_marker(m, cue, i) {
            Some(v) => exists|j: int| #[trigger] is_first_of(m, cue, j) && v == m[j],
            None => !is_marked(m, cue),
        },
    decreases m.len() - i,
{
    if i < m.len() {
        if m[i].cue == cue {
            assert(is_first_of(m, cue, i));
        } else {
            lemma_find_marker(m, cue, i + 1);
        }
    }
}

/// The point `step / steps` of the way through a span.
pub open spec fn is_part(p: MomentView, a: NumberView, b: NumberView, step: int, steps: int) -> bool {
    p.from == a && p.to == b && p.step == step && p.steps == steps
}

/// The words of a line's text, laid evenly across the span of the first
/// marker of its cue.
pub open spec fn is_spread(out: AlignedLineView, line: ScriptLineView, m: Seq<MarkerView>) -> bool {
    let w = crate::text::words(line.text);
    &&& out.cue == line.id
    &&& out.words.len() == w.len()
    &&& exists|j: int|
        #[trigger] is_first_of(m, line.id, j) && forall|k: int|
            0 <= k < w.len() ==> {
                &&& (#[trigger] out.words[k]).text == w[k]
                &&& is_part(out.words[k].start_s, m[j].start_s, m[j].end_s, k, w.len() as int)
                &&& is_part(out.words[k].end_s, m[j].start_s, m[j].end_s, k + 1, w.len() as int)
            }
}

proof fn lemma_marked(m: Seq<MarkerView>, lines: Seq<ScriptLineView>, n: int) -> (at: (
    Seq<int>,
    Seq<int>,
))
    requires
        0 <= n <= lines.len(),
    ensures
        crate::select::selects(at.0, n, marked_at(m, lines)),
        crate::align::marked_lines(m, lines, n).0.len() == at.0.len(),
        forall|k: int|
            0 <= k < at.0.len() ==> is_spread(
                #[trigger] crate::align::marked_lines(m, lines, n).0[k],
                lines[at.0[k]],
                m,
            ),
        crate::select::selects(at.1, n, unmarked_at(m, lines)),
        crate::align::marked_lines(m, lines, n).1.len() == at.1.len(),
        forall|k: int|
            0 <= k < at.1.len() ==> warns_of(
                #[trigger] crate::align::marked_lines(m, lines, n).1[k],
                lines[at.1[k]],
            ),
    decreases n,
{
    let keep = marked_at(m, lines);
    let drop = unmarked_at(m, lines);
    if n == 0 {
        crate::select::lemma_select_none(keep);
        crate::select::lemma_select_none(drop);
        (Seq::empty(), Seq::empty())
    } else {
        let (a, b) = lemma_marked(m, lines, n - 1);
        let line = lines[n - 1];
        lemma_find_marker(m, line.id, 0);
        match crate::align::find_marker(m, line.id, 0) {
            Some(v) => {
                let j = choose|j: int| #[trigger] is_first_of(m, line.id, j) && v == m[j];
                assert(m[j].cue == line.id);
                assert(is_marked(m, line.id));
                let out = AlignedLineView {
                    cue: line.id,
                    words: crate::align::spread_words(line.text, v.start_s, v.end_s),
                };
                assert(is_first_of(m, line.id, j));
                assert(is_spread(out, line, m));
                crate::select::lemma_select_take(a, n, keep);
                crate::select::lemma_select_skip(b, n, drop);
                (a.push(n - 1), b)
            },
            None => {
                reveal_strlit("cue `");
                reveal_strlit("` has no marker — anchors on it won't resolve");
                reveal_strlit("`");
                reveal_strlit("cue ");
                reveal_strlit(" has no marker — anchors on it won't resolve");
                let text = "cue `"@ + line.id + "` has no marker — anchors on it won't resolve"@;
                let after = " has no marker — anchors on it won't resolve"@;
                assert(text =~= "cue "@ + ("`"@ + line.id + "`"@) + after);
                lemma_names(line.id, "cue "@, after, text);
                crate::select::lemma_select_skip(a, n, keep);
                crate::select::lemma_select_take(b, n, drop);
                (a, b.push(n - 1))
            },
        }
    }
}

/// A marker that names no line of the script.
pub open spec fn is_stray(m: MarkerView, lines: Seq<ScriptLineView>) -> bool {
    forall|i: int| 0 <= i < lines.len() ==> (#[trigger] lines[i]).id != m.cue
}

/// The positions of stray markers.
pub open spec fn stray_at(m: Seq<MarkerView>, lines: Seq<ScriptLineView>) -> spec_fn(int) -> bool {
    |i: int| is_stray(m[i], lines)
}

proof fn lemma_stray(m: Seq<MarkerView>, lines: Seq<ScriptLineView>, n: int) -> (at: Seq<int>)
    requires
        0 <= n <= m.len(),
    ensures
        crate::select::selects(at, n, stray_at(m, lines)),
        crate::align::stray_markers(m, lines, n).len() == at.len(),
        forall|k: int|
            0 <= k < at.len() ==> crate::text_laws::mentions(
                (#[trigger] crate::align::stray_markers(m, lines, n)[k]).message,
                "`"@ + m[at[k]].cue + "`"@,
            ),
    decreases n,
{
    let keep = stray_at(m, lines);
    if n == 0 {
        crate::select::lemma_select_none(keep);
        Seq::empty()
    } else {
        let before = lemma_stray(m, lines, n - 1);
        let v = m[n - 1];
        if is_stray(v, lines) {
            assert(!crate::align::is_line(lines, v.cue));
            reveal_strlit("marker for unknown cue `");
            reveal_strlit("` (markers:");
            reveal_strlit(")");
            reveal_strlit("`");
            reveal_strlit("marker for unknown cue ");
            reveal_strlit(" (markers:");
            let number = crate::text::dec(v.line);
            let text = "marker for unknown cue `"@ + v.cue + "` (markers:"@ + number + ")"@;
            let after = " (markers:"@ + number + ")"@;
            assert(text =~= "marker for unknown cue "@ + ("`"@ + v.cue + "`"@) + after);
            lemma_names(v.cue, "marker for unknown cue "@, after, text);
            crate::select::lemma_select_take(before, n, keep);
            before.push(n - 1)
        } else {
            assert(crate::align::is_line(lines, v.cue));
            crate::select::lemma_select_skip(before, n, keep);
            before
        }
    }
}

/// The lines that have a marker are timed, in the order of the script: the
/// words of each are those of its text, laid evenly across the span of its
/// first marker. The others are warned of, and then the markers that name no
/// line.
pub proof fn marked_lines_are_spread(m: Seq<MarkerView>, script: ScriptView)
    ensures
        exists|timed: Seq<int>, untimed: Seq<int>, stray: Seq<int>|
            {
                let (out, d) = crate::align::marked(m, script);
                &&& #[trigger] crate::select::selects(
                    timed,
                    script.lines.len() as int,
                    marked_at(m, script.lines),
                )
                &&& #[trigger] crate::select::selects(
                    untimed,
                    script.lines.len() as int,
                    unmarked_at(m, script.lines),
                )
                &&& #[trigger] crate::select::selects(
                    stray,
                    m.len() as int,
                    stray_at(m, script.lines),
                )
                &&& out.len() == timed.len()
                &&& d.len() == untimed.len() + stray.len()
                &&& forall|k: int|
                    0 <= k < timed.len() ==> is_spread(#[trigger] out[k], script.lines[timed[k]], m)
                &&& forall|k: int|
                    0 <= k < untimed.len() ==> warns_of(#[trigger] d[k], script.lines[untimed[k]])
                &&& forall|k: int|
                    0 <= k < stray.len() ==> crate::text_laws::mentions(
                        (#[trigger] d[untimed.len() + k]).message,
                        "`"@ + m[stray[k]].cue + "`"@,
                    )
            },
{
    let lines = script.lines;
    let (out, d) = crate::align::marked(m, script);
    let (timed, untimed) = lemma_marked(m, lines, lines.len() as int);
    let stray = lemma_stray(m, lines, m.len() as int);
    let first = crate::align::marked_lines(m, lines, lines.len() as int).1;
    let rest = crate::align::stray_markers(m, lines, m.len() as int);
    assert forall|k: int| 0 <= k < untimed.len() implies warns_of(
        #[trigger] d[k],
        lines[untimed[k]],
    ) by {
        assert(d[k] == first[k]);
    }
    assert forall|k: int| 0 <= k < stray.len() implies crate::text_laws::mentions(
        (#[trigger] d[untimed.len() + k]).message,
        "`"@ + m[stray[k]].cue + "`"@,
    ) by {
        assert(d[untimed.len() + k] == rest[k]);
    }
    assert(crate::select::selects(timed, lines.len() as int, marked_at(m, lines)));
    assert(crate::select::selects(
        untimed,
        lines.len() as int,
        unmarked_at(m, lines),
    ));
    assert(crate::select::selects(stray, m.len() as int, stray_at(m, lines)));
}

// Marker files.

/// The text of the `k`-th line of a file, without the whitespace around it.
pub open spec fn line_text(text: Seq<char>, k: int) -> Seq<char> {
    let (a, b) = crate::text::lines_from(text, 0)[k];
    crate::text::trimmed(text.subrange(a, b))
}

/// A line that is empty or a comment.
pub open spec fn says_nothing(line: Seq<char>) -> bool {
    line.len() == 0 || line[0] == '#'
}

/// A line that is a marker: a cue and two times, finite and in order.
pub open spec fn says_marker(line: Seq<char>) -> bool {
    let w = crate::text::words(line);
    &&& !says_nothing(line)
    &&& w.len() == 3
    &&& crate::number::number(w[1]) matches Some(a)
    &&& crate::number::number(w[2]) matches Some(b)
    &&& a.is_finite() && b.is_finite() && a.less(b)
}

/// The lines that are markers.
pub open spec fn marker_at(text: Seq<char>) -> spec_fn(int) -> bool {
    |k: int| says_marker(line_text(text, k))
}

/// The lines that say something else.
pub open spec fn fault_at(text: Seq<char>) -> spec_fn(int) -> bool {
    |k: int| !says_nothing(line_text(text, k)) && !says_marker(line_text(text, k))
}

/// `m` is what line `k` says.
pub open spec fn is_said(text: Seq<char>, m: MarkerView, k: int) -> bool {
    let w = crate::text::words(line_text(text, k));
    let (a, b) = crate::text::lines_from(text, 0)[k];
    &&& m.cue == w[0]
    &&& crate::number::number(w[1]) == Some(m.start_s)
    &&& crate::number::number(w[2]) == Some(m.end_s)
    &&& m.line == k + 1
    &&& m.span == crate::parser::span_of(text, a, b)
}

/// An error at line `k`.
pub open spec fn blames(text: Seq<char>, d: DiagnosticView, k: int) -> bool {
    let (a, b) = crate::text::lines_from(text, 0)[k];
    d.severity == Severity::Error && d.span == Some(crate::parser::span_of(text, a, b))
}

proof fn lemma_file(text: Seq<char>, n: int) -> (at: (Seq<int>, Seq<int>))
    requires
        0 <= n,
    ensures
        crate::select::selects(at.0, n, marker_at(text)),
        crate::align::markers(text, n).0.len() == at.0.len(),
        forall|k: int|
            0 <= k < at.0.len() ==> is_said(
                text,
                #[trigger] crate::align::markers(text, n).0[k],
                at.0[k],
            ),
        crate::select::selects(
            at.1,
            n,
            fault_at(text),
        ),
        crate::align::markers(text, n).1.len() == at.1.len(),
        forall|k: int|
            0 <= k < at.1.len() ==> blames(
                text,
                #[trigger] crate::align::markers(text, n).1[k],
                at.1[k],
            ),
    decreases n,
{
    let good = marker_at(text);
    let bad = fault_at(text);
    if n == 0 {
        crate::select::lemma_select_none(good);
        crate::select::lemma_select_none(bad);
        (Seq::empty(), Seq::empty())
    } else {
        let (a, b) = lemma_file(text, n - 1);
        match crate::align::reading(text, n - 1) {
            crate::align::LineReading::Marker(v) => {
                crate::select::lemma_select_take(a, n, good);
                crate::select::lemma_select_skip(b, n, bad);
                (a.push(n - 1), b)
            },
            crate::align::LineReading::Finding(v) => {
                crate::select::lemma_select_skip(a, n, good);
                crate::select::lemma_select_take(b, n, bad);
                (a, b.push(n - 1))
            },
            crate::align::LineReading::Nothing => {
                crate::select::lemma_select_skip(a, n, good);
                crate::select::lemma_select_skip(b, n, bad);
                (a, b)
            },
        }
    }
}

/// A markers file gives one marker for each line that says one, with its own
/// cue, times, number and span, in order; one error for each other line that
/// says anything; and nothing for blank lines and comments.
pub proof fn marker_files_are_read_by_line(text: Seq<char>)
    ensures
        exists|good: Seq<int>, bad: Seq<int>|
            {
                let (m, d) = crate::align::all_markers(text);
                &&& #[trigger] crate::select::selects(
                    good,
                    crate::text::lines_from(text, 0).len() as int,
                    marker_at(text),
                )
                &&& #[trigger] crate::select::selects(
                    bad,
                    crate::text::lines_from(text, 0).len() as int,
                    fault_at(text),
                )
                &&& m.len() == good.len()
                &&& d.len() == bad.len()
                &&& forall|k: int|
                    0 <= k < good.len() ==> is_said(text, #[trigger] m[k], good[k])
                &&& forall|k: int| 0 <= k < bad.len() ==> blames(text, #[trigger] d[k], bad[k])
            },
{
    let n = crate::text::lines_from(text, 0).len() as int;
    let (good, bad) = lemma_file(text, n);
    assert(crate::select::selects(good, n, marker_at(text)));
    assert(crate::select::selects(
        bad,
        n,
        fault_at(text),
    ));
}

} // verus!
