//! Turn an external media file into a draft `.scene`.
//!
//! A source is resolved to a local file, probed and shot-detected; what was
//! learned becomes markup that the rest of the engine accepts. The draft is a
//! starting point for an author: the clip covers the whole program and each
//! detected shot gets a labeled board to fill in.

use vstd::prelude::*;

use crate::json::lossy;
use crate::media::{MediaError, MediaErrorView, MediaInfo, MediaInfoView};
use crate::process::{tail_text, ProcOutput};
use crate::scene::Rational;
use crate::shots::{detect_cuts, sort};
use crate::text::{
    at, cat2, cat3, cat4, chars_of, dec_text, digit_of, push_words, split_lines, string_of, trim,
};
use crate::writer::{write_markup, Markup, MarkupChild, MarkupChildView, MarkupView};

verus! {

/// Frame rate of the analysis: small enough that a long clip decodes in
/// seconds.
pub const SAMPLE_FPS: u32 = 4;

/// Shots shorter than this are likely transition noise.
pub const MIN_SHOT_MS: u32 = 500;

/// What was learned about a media file. Times count in microseconds.
#[derive(Debug, PartialEq)]
pub struct Analysis {
    pub path: String,
    pub duration_us: u64,
    pub width: u32,
    pub height: u32,
    /// Source average frame rate, as a `num/den` pair.
    pub fps: Option<(u32, u32)>,
    pub has_audio: bool,
    /// Cut times, ascending, strictly inside the duration.
    pub cuts_us: Vec<i64>,
}

// Analysis.

/// The time of a frame at the analysis rate.
pub open spec fn frame_time(frame: u64) -> int {
    frame as int * 1_000_000 / SAMPLE_FPS as int
}

/// A cut strictly inside the program, not within the last 50 ms.
pub open spec fn inside(frame: u64, duration_us: u64) -> bool {
    0 < frame_time(frame) < duration_us - 50_000
}

/// The times of the first `n` cut frames that lie inside the program.
pub open spec fn cut_times(frames: Seq<u64>, duration_us: u64, n: int) -> Seq<i64>
    decreases n,
{
    if n <= 0 || n > frames.len() {
        Seq::empty()
    } else if inside(frames[n - 1], duration_us) {
        cut_times(frames, duration_us, n - 1).push(frame_time(frames[n - 1]) as i64)
    } else {
        cut_times(frames, duration_us, n - 1)
    }
}

/// The cut times of a file whose consecutive sampled frames scored `scores`
/// over `scale`: shot boundaries, never at or past the end.
pub fn find_cuts(scores: &Vec<u64>, scale: u64, duration_us: u64) -> (r: Vec<i64>)
    requires
        duration_us <= i64::MAX,
    ensures
        ({
            let frames = crate::shots::cut_frames(
                scores@,
                scale,
                Rational { numerator: SAMPLE_FPS, denominator: 1 },
                MIN_SHOT_MS,
            );
            r@ == cut_times(frames, duration_us, frames.len() as int)
        }),
{
    let frames = detect_cuts(
        scores,
        scale,
        Rational { numerator: SAMPLE_FPS, denominator: 1 },
        MIN_SHOT_MS,
    );
    let mut out: Vec<i64> = Vec::new();
    let mut i: usize = 0;
    while i < frames.len()
        invariant
            i <= frames@.len(),
            duration_us <= i64::MAX,
            out@ == cut_times(frames@, duration_us, i as int),
        decreases frames@.len() - i,
    {
        let t: u128 = (frames[i] as u128) * 1_000_000 / (SAMPLE_FPS as u128);
        if 0 < t && t + 50_000 < duration_us as u128 {
            out.push(t as i64);
        }
        i = i + 1;
    }
    out
}

// The draft.

/// The program length of a draft: at least a tenth of a second.
pub open spec fn draft_length(duration_us: u64) -> u64 {
    if duration_us >= 100_000 {
        duration_us
    } else {
        100_000
    }
}

/// The nearest millisecond.
pub open spec fn millis(us: u64) -> nat {
    ((us + 500) / 1000) as nat
}

pub open spec fn three_digits(n: nat) -> Seq<char> {
    seq![
        crate::text::digit_char(n / 100 % 10),
        crate::text::digit_char(n / 10 % 10),
        crate::text::digit_char(n % 10),
    ]
}

/// A seconds literal to the millisecond, as anchors are written.
pub open spec fn seconds(us: u64) -> Seq<char> {
    crate::text::dec(millis(us) / 1000) + "."@ + three_digits(millis(us) % 1000) + "s"@
}

/// The cuts strictly inside a program, among the first `n`.
pub open spec fn inner_cuts(cuts: Seq<i64>, length: u64, n: int) -> Seq<u64>
    decreases n,
{
    if n <= 0 || n > cuts.len() {
        Seq::empty()
    } else if 0 < cuts[n - 1] < length {
        inner_cuts(cuts, length, n - 1).push(cuts[n - 1] as u64)
    } else {
        inner_cuts(cuts, length, n - 1)
    }
}

/// A sorted list with each value once.
pub open spec fn distinct(s: Seq<u64>) -> Seq<u64>
    decreases s.len(),
{
    if s.len() < 2 {
        s
    } else if s[s.len() - 2] == s.last() {
        distinct(s.drop_last())
    } else {
        distinct(s.drop_last()).push(s.last())
    }
}

/// The shot boundaries: the cuts in order, then the end.
pub open spec fn boundaries(cuts: Seq<i64>, length: u64) -> Seq<u64> {
    distinct(crate::shots::ascending(inner_cuts(cuts, length, cuts.len() as int))).push(length)
}

pub open spec fn text_child(t: Seq<char>) -> MarkupChildView {
    MarkupChildView::Text(t)
}

pub open spec fn leaf_view(name: Seq<char>, attrs: Seq<(Seq<char>, Seq<char>)>) -> MarkupView {
    MarkupView { name, attrs, children: Seq::empty() }
}

/// The label of a shot.
pub open spec fn caption_view(number: nat) -> MarkupView {
    MarkupView {
        name: "text"@,
        attrs: Seq::empty(),
        children: seq![text_child("Shot "@ + crate::text::dec(number))],
    }
}

/// The board of a shot.
pub open spec fn board_view(from: u64, to: u64, number: nat) -> MarkupView {
    MarkupView {
        name: "board"@,
        attrs: seq![
            ("during"@, seconds(from) + ".."@ + seconds(to)),
            ("at"@, "bottom"@),
            ("anim"@, "rise"@),
        ],
        children: seq![
            text_child("\n      "@),
            MarkupChildView::Node(caption_view(number)),
            text_child("\n    "@),
        ],
    }
}

/// Where the shot that ends with boundary `k` starts.
pub open spec fn shot_start(bounds: Seq<u64>, k: int) -> u64 {
    if k <= 0 {
        0
    } else {
        bounds[k - 1]
    }
}

/// A shot of at least 50 ms.
pub open spec fn is_shot(bounds: Seq<u64>, k: int) -> bool {
    bounds[k] - shot_start(bounds, k) >= 50_000
}

/// One board for each of the first `n` shots that is long enough.
pub open spec fn boards(bounds: Seq<u64>, n: int) -> Seq<MarkupChildView>
    decreases n,
{
    if n <= 0 || n > bounds.len() {
        Seq::empty()
    } else if is_shot(bounds, n - 1) {
        boards(bounds, n - 1).push(text_child("\n    "@)).push(
            MarkupChildView::Node(
                board_view(shot_start(bounds, n - 1), bounds[n - 1], n as nat),
            ),
        )
    } else {
        boards(bounds, n - 1)
    }
}

/// An element that plays the whole source.
pub open spec fn whole_source(name: Seq<char>, src: Seq<char>, length: u64) -> MarkupView {
    leaf_view(name, seq![("src"@, src), ("during"@, "0s.."@ + seconds(length))])
}

pub open spec fn visual_track(src: Seq<char>, length: u64, bounds: Seq<u64>) -> MarkupView {
    MarkupView {
        name: "track"@,
        attrs: seq![("kind"@, "visual"@)],
        children: seq![
            text_child("\n    "@),
            MarkupChildView::Node(whole_source("clip"@, src, length)),
        ] + boards(bounds, bounds.len() as int) + seq![text_child("\n  "@)],
    }
}

pub open spec fn audio_track(src: Seq<char>, length: u64) -> MarkupView {
    MarkupView {
        name: "track"@,
        attrs: seq![("kind"@, "audio"@)],
        children: seq![
            text_child("\n    "@),
            MarkupChildView::Node(whole_source("music"@, src, length)),
            text_child("\n  "@),
        ],
    }
}

pub open spec fn at_least_two(n: u32) -> nat {
    if n >= 2 {
        n as nat
    } else {
        2
    }
}

pub open spec fn rate_text(fps: Option<(u32, u32)>) -> Seq<char> {
    match fps {
        Some((n, d)) => if n > 0 && d > 0 {
            crate::text::dec(n as nat) + "/"@ + crate::text::dec(d as nat)
        } else {
            "30"@
        },
        None => "30"@,
    }
}

/// The children of the draft's root: the visual track, the audio track if the
/// source has sound, and the render target.
pub open spec fn draft_children(src: Seq<char>, a: Analysis) -> Seq<MarkupChildView> {
    let length = draft_length(a.duration_us);
    let bounds = boundaries(a.cuts_us@, length);
    seq![
        text_child("\n  "@),
        MarkupChildView::Node(visual_track(src, length, bounds)),
        text_child("\n  "@),
    ] + (if a.has_audio {
        seq![MarkupChildView::Node(audio_track(src, length)), text_child("\n  "@)]
    } else {
        Seq::empty()
    }) + seq![
        MarkupChildView::Node(leaf_view("render"@, seq![("target"@, "out/adapted.mp4"@)])),
        text_child("\n"@),
    ]
}

/// The draft of a source.
pub open spec fn draft(src: Seq<char>, a: Analysis) -> MarkupView {
    MarkupView {
        name: "scene"@,
        attrs: seq![
            (
                "canvas"@,
                crate::text::dec(at_least_two(a.width)) + "x"@ + crate::text::dec(
                    at_least_two(a.height),
                ),
            ),
            ("fps"@, rate_text(a.fps)),
            ("clear"@, "#000"@),
        ],
        children: draft_children(src, a),
    }
}

/// The draft as text.
pub open spec fn draft_text(src: Seq<char>, a: Analysis) -> Seq<char> {
    crate::writer::printed(draft(src, a)) + "\n"@
}

// Code.

fn seconds_text(us: u64) -> (r: String)
    ensures
        r@ == seconds(us),
{
    let ms: u64 = us / 1000 + (if us % 1000 >= 500 {
        1
    } else {
        0
    });
    assert(ms == millis(us));
    let whole = dec_text(ms / 1000);
    let part: u64 = ms % 1000;
    let mut digits: Vec<char> = Vec::new();
    digits.push(digit_of((part / 100 % 10) as u8));
    digits.push(digit_of((part / 10 % 10) as u8));
    digits.push(digit_of((part % 10) as u8));
    assert(digits@ =~= three_digits(part as nat));
    let fraction = crate::text::string_of(digits.as_slice());
    cat4(whole.as_str(), ".", fraction.as_str(), "s")
}

fn pair(name: &str, value: String) -> (r: (String, String))
    ensures
        r.0@ == name@,
        r.1@ == value@,
{
    (name.to_owned(), value)
}

fn text(t: &str) -> (r: MarkupChild)
    ensures
        r.view() == text_child(t@),
{
    MarkupChild::Text(t.to_owned())
}

fn element(name: &str, attrs: Vec<(String, String)>, children: Vec<MarkupChild>) -> (r: Markup)
    ensures
        r.view() == (MarkupView {
            name: name@,
            attrs: crate::writer::pair_views(attrs@),
            children: crate::writer::markup_views(children@),
        }),
{
    let r = Markup { name: name.to_owned(), attrs, children };
    proof {
        crate::writer::lemma_markup_view(r);
    }
    r
}

fn board(from: u64, to: u64, number: u64) -> (r: Markup)
    ensures
        r.view() == board_view(from, to, number as nat),
{
    let n = dec_text(number);
    let label = cat2("Shot ", n.as_str());
    let mut inner: Vec<MarkupChild> = Vec::new();
    inner.push(text(label.as_str()));
    assert(crate::writer::markup_views(inner@) =~= seq![text_child(label@)]);
    let none: Vec<(String, String)> = Vec::new();
    assert(crate::writer::pair_views(none@) =~= Seq::<(Seq<char>, Seq<char>)>::empty());
    let caption = element("text", none, inner);
    let a = seconds_text(from);
    let b = seconds_text(to);
    let mut attrs: Vec<(String, String)> = Vec::new();
    attrs.push(pair("during", cat3(a.as_str(), "..", b.as_str())));
    attrs.push(pair("at", "bottom".to_owned()));
    attrs.push(pair("anim", "rise".to_owned()));
    assert(crate::writer::pair_views(attrs@) =~= board_view(from, to, number as nat).attrs);
    let mut children: Vec<MarkupChild> = Vec::new();
    children.push(text("\n      "));
    children.push(MarkupChild::Node(caption));
    children.push(text("\n    "));
    assert(crate::writer::markup_views(children@) =~= board_view(
        from,
        to,
        number as nat,
    ).children);
    element("board", attrs, children)
}

fn source_element(name: &str, src: &str, length: u64) -> (r: Markup)
    ensures
        r.view() == whole_source(name@, src@, length),
{
    let end = seconds_text(length);
    let mut attrs: Vec<(String, String)> = Vec::new();
    attrs.push(pair("src", src.to_owned()));
    attrs.push(pair("during", cat2("0s..", end.as_str())));
    assert(crate::writer::pair_views(attrs@) =~= whole_source(name@, src@, length).attrs);
    let none: Vec<MarkupChild> = Vec::new();
    assert(crate::writer::markup_views(none@) =~= Seq::<MarkupChildView>::empty());
    element(name, attrs, none)
}

fn keep_inner(cuts: &Vec<i64>, length: u64) -> (r: Vec<u64>)
    ensures
        r@ == inner_cuts(cuts@, length, cuts@.len() as int),
{
    let mut out: Vec<u64> = Vec::new();
    let mut i: usize = 0;
    while i < cuts.len()
        invariant
            i <= cuts@.len(),
            out@ == inner_cuts(cuts@, length, i as int),
        decreases cuts@.len() - i,
    {
        if 0 < cuts[i] && (cuts[i] as u64) < length {
            out.push(cuts[i] as u64);
        }
        i = i + 1;
    }
    out
}

fn keep_distinct(s: &Vec<u64>) -> (r: Vec<u64>)
    ensures
        r@ == distinct(s@),
{
    let mut out: Vec<u64> = Vec::new();
    let mut i: usize = 0;
    while i < s.len()
        invariant
            i <= s@.len(),
            out@ == distinct(s@.take(i as int)),
        decreases s@.len() - i,
    {
        assert(s@.take(i + 1).drop_last() =~= s@.take(i as int));
        let ghost before = s@.take(i as int);
        if i == 0 || s[i - 1] != s[i] {
            out.push(s[i]);
            assert(s@.take(i + 1) =~= before.push(s@[i as int]));
            if i == 0 {
                assert(out@ =~= distinct(s@.take(1)));
            }
        }
        i = i + 1;
    }
    assert(s@.take(s@.len() as int) =~= s@);
    out
}

fn shot_boundaries(cuts: &Vec<i64>, length: u64) -> (r: Vec<u64>)
    ensures
        r@ == boundaries(cuts@, length),
{
    let inner = keep_inner(cuts, length);
    let ordered = sort(&inner);
    let mut bounds = keep_distinct(&ordered);
    bounds.push(length);
    bounds
}

fn visual(src: &str, length: u64, bounds: &Vec<u64>) -> (r: Markup)
    ensures
        r.view() == visual_track(src@, length, bounds@),
{
    let ghost head = seq![
        text_child("\n    "@),
        MarkupChildView::Node(whole_source("clip"@, src@, length)),
    ];
    let mut children: Vec<MarkupChild> = Vec::new();
    children.push(text("\n    "));
    children.push(MarkupChild::Node(source_element("clip", src, length)));
    let mut i: usize = 0;
    assert(crate::writer::markup_views(children@) =~= head + boards(bounds@, 0));
    while i < bounds.len()
        invariant
            i <= bounds@.len(),
            crate::writer::markup_views(children@) == head + boards(bounds@, i as int),
        decreases bounds@.len() - i,
    {
        let start: u64 = if i == 0 {
            0
        } else {
            bounds[i - 1]
        };
        let end: u64 = bounds[i];
        let ghost before = crate::writer::markup_views(children@);
        if end >= start && end - start >= 50_000 {
            let b = board(start, end, (i + 1) as u64);
            children.push(text("\n    "));
            children.push(MarkupChild::Node(b));
            assert(crate::writer::markup_views(children@) =~= before.push(
                text_child("\n    "@),
            ).push(MarkupChildView::Node(b.view())));
            assert(crate::writer::markup_views(children@) =~= head + boards(bounds@, i + 1));
        }
        i = i + 1;
    }
    let ghost before = crate::writer::markup_views(children@);
    children.push(text("\n  "));
    assert(crate::writer::markup_views(children@) =~= before + seq![text_child("\n  "@)]);
    let mut attrs: Vec<(String, String)> = Vec::new();
    attrs.push(pair("kind", "visual".to_owned()));
    assert(crate::writer::pair_views(attrs@) =~= seq![("kind"@, "visual"@)]);
    element("track", attrs, children)
}

fn audio(src: &str, length: u64) -> (r: Markup)
    ensures
        r.view() == audio_track(src@, length),
{
    let mut children: Vec<MarkupChild> = Vec::new();
    children.push(text("\n    "));
    children.push(MarkupChild::Node(source_element("music", src, length)));
    children.push(text("\n  "));
    assert(crate::writer::markup_views(children@) =~= audio_track(src@, length).children);
    let mut attrs: Vec<(String, String)> = Vec::new();
    attrs.push(pair("kind", "audio".to_owned()));
    assert(crate::writer::pair_views(attrs@) =~= seq![("kind"@, "audio"@)]);
    element("track", attrs, children)
}

/// Build the draft markup. `src` is the path as it should appear in the scene
/// (typically relative to the project root). Cuts that are out of order,
/// repeated or outside the program do no harm.
pub fn emit_scene(src: &str, a: &Analysis) -> (r: String)
    ensures
        r@ == draft_text(src@, *a),
{
    let length: u64 = if a.duration_us >= 100_000 {
        a.duration_us
    } else {
        100_000
    };
    let bounds = shot_boundaries(&a.cuts_us, length);
    let mut children: Vec<MarkupChild> = Vec::new();
    children.push(text("\n  "));
    children.push(MarkupChild::Node(visual(src, length, &bounds)));
    children.push(text("\n  "));
    if a.has_audio {
        children.push(MarkupChild::Node(audio(src, length)));
        children.push(text("\n  "));
    }
    let mut target: Vec<(String, String)> = Vec::new();
    target.push(pair("target", "out/adapted.mp4".to_owned()));
    assert(crate::writer::pair_views(target@) =~= seq![("target"@, "out/adapted.mp4"@)]);
    let none: Vec<MarkupChild> = Vec::new();
    assert(crate::writer::markup_views(none@) =~= Seq::<MarkupChildView>::empty());
    children.push(MarkupChild::Node(element("render", target, none)));
    children.push(text("\n"));
    assert(crate::writer::markup_views(children@) =~= draft_children(src@, *a));
    let w = dec_text(
        if a.width >= 2 {
            a.width as u64
        } else {
            2
        },
    );
    let h = dec_text(
        if a.height >= 2 {
            a.height as u64
        } else {
            2
        },
    );
    let rate: String = match a.fps {
        Some(f) => if f.0 > 0 && f.1 > 0 {
            let n = dec_text(f.0 as u64);
            let d = dec_text(f.1 as u64);
            cat3(n.as_str(), "/", d.as_str())
        } else {
            "30".to_owned()
        },
        None => "30".to_owned(),
    };
    let mut attrs: Vec<(String, String)> = Vec::new();
    attrs.push(pair("canvas", cat3(w.as_str(), "x", h.as_str())));
    attrs.push(pair("fps", rate));
    attrs.push(pair("clear", "#000".to_owned()));
    assert(crate::writer::pair_views(attrs@) =~= draft(src@, *a).attrs);
    let root = element("scene", attrs, children);
    let mut out = write_markup(&root);
    out.append("\n");
    out
}

// Ingestion.

pub open spec fn is_url(s: Seq<char>) -> bool {
    crate::text::stands_at(s, "http://"@, 0) || crate::text::stands_at(s, "https://"@, 0)
}

/// Whether a source is fetched rather than opened.
pub fn looks_like_url(s: &str) -> (r: bool)
    ensures
        r == is_url(s@),
{
    let cs = chars_of(s);
    let plain = chars_of("http://");
    let tls = chars_of("https://");
    at(cs.as_slice(), plain.as_slice(), 0) || at(cs.as_slice(), tls.as_slice(), 0)
}

/// A local media file, ready to be analyzed.
#[derive(Debug)]
pub struct Ingested {
    pub path: String,
    /// Whether it was fetched: a project may claim it outright.
    pub fetched: bool,
}

/// What an adaptation fails with.
#[derive(Debug)]
pub enum AdaptError {
    Media(MediaError),
    Ingest(String),
    Io(String),
}

pub enum AdaptErrorView {
    Media(MediaErrorView),
    Ingest(Seq<char>),
    Io(Seq<char>),
}

impl View for AdaptError {
    type V = AdaptErrorView;

    open spec fn view(&self) -> AdaptErrorView {
        match self {
            AdaptError::Media(e) => AdaptErrorView::Media(e@),
            AdaptError::Ingest(m) => AdaptErrorView::Ingest(m@),
            AdaptError::Io(m) => AdaptErrorView::Io(m@),
        }
    }
}

pub open spec fn adapt_message(e: AdaptErrorView) -> Seq<char> {
    match e {
        AdaptErrorView::Media(m) => crate::media::media_message(m),
        AdaptErrorView::Ingest(m) => "ingest failed: "@ + m,
        AdaptErrorView::Io(m) => m,
    }
}

impl AdaptError {
    /// The error in words.
    pub fn message(&self) -> (r: String)
        ensures
            r@ == adapt_message(self@),
    {
        match self {
            AdaptError::Media(e) => e.message(),
            AdaptError::Ingest(m) => cat2("ingest failed: ", m.as_str()),
            AdaptError::Io(m) => m.clone(),
        }
    }
}

/// A source that is no URL passes through, if it is a file.
pub fn ingest_local(source: &str, is_file: bool) -> (r: Result<Ingested, AdaptError>)
    ensures
        match r {
            Ok(i) => is_file && i.path@ == source@ && !i.fetched,
            Err(e) => !is_file && e@ == AdaptErrorView::Ingest(
                "no such file (and not a URL): "@ + source@,
            ),
        },
{
    if is_file {
        Ok(Ingested { path: source.to_owned(), fetched: false })
    } else {
        Err(AdaptError::Ingest(cat2("no such file (and not a URL): ", source)))
    }
}

/// The yt-dlp arguments of a fetch. `template` says where the file goes; the
/// tool prints the name that it wrote.
pub open spec fn fetch_argv(template: Seq<char>, source: Seq<char>) -> Seq<Seq<char>> {
    seq![
        "-f"@,
        "best[ext=mp4]/best"@,
        "--no-playlist"@,
        "-o"@,
        template,
        "--print"@,
        "after_move:filepath"@,
        source,
    ]
}

pub fn fetch_args(template: &str, source: &str) -> (r: Vec<String>)
    ensures
        crate::text::text_views(r@) == fetch_argv(template@, source@),
{
    let mut args: Vec<String> = Vec::new();
    assert(crate::text::text_views(args@) =~= Seq::<Seq<char>>::empty());
    let words = [
        "-f",
        "best[ext=mp4]/best",
        "--no-playlist",
        "-o",
        template,
        "--print",
        "after_move:filepath",
        source,
    ];
    push_words(&mut args, words.as_slice());
    assert(crate::text::text_views(args@) =~= fetch_argv(template@, source@));
    args
}

/// The last line of a text, trimmed, unless it is blank.
pub open spec fn last_line(s: Seq<char>) -> Option<Seq<char>> {
    let lines = crate::text::lines_from(s, 0);
    if lines.len() == 0 {
        None
    } else {
        let line = crate::text::trimmed(s.subrange(lines.last().0, lines.last().1));
        if line.len() == 0 {
            None
        } else {
            Some(line)
        }
    }
}

/// The name that a fetch printed.
pub fn printed_name(text: &str) -> (r: Option<String>)
    ensures
        crate::scene::text_view(r) == last_line(text@),
{
    let cs = chars_of(text);
    let lines = split_lines(cs.as_slice());
    let ghost bounds = crate::text::lines_from(cs@, 0);
    let n: usize = lines.len();
    if n == 0 {
        assert(bounds.len() == 0);
        return None;
    }
    let (start, end) = lines[n - 1];
    assert(bounds[n - 1] == (start as int, end as int));
    let line = trim(vstd::slice::slice_subrange(cs.as_slice(), start, end));
    if line.len() == 0 {
        None
    } else {
        Some(string_of(line))
    }
}

/// What a run of yt-dlp says: the name it printed, if any, or why it failed.
/// `run` is its output, or why it could not be run.
pub fn fetched_name(run: Result<ProcOutput, String>) -> (r: Result<Option<String>, AdaptError>)
    ensures
        match run {
            Err(m) => r matches Err(e) && e@ == AdaptErrorView::Ingest(
                "could not run yt-dlp: "@ + m@,
            ),
            Ok(o) => if o.status.success {
                r matches Ok(name) && crate::scene::text_view(name) == last_line(
                    crate::json::utf8_lossy(o.stdout@),
                )
            } else {
                r matches Err(e) && e@ == AdaptErrorView::Ingest(
                    "yt-dlp exited with "@ + o.status.text@ + ": "@ + crate::text::trimmed(
                        crate::json::utf8_lossy(o.stderr@),
                    ),
                )
            },
        },
{
    match run {
        Err(m) => Err(AdaptError::Ingest(cat2("could not run yt-dlp: ", m.as_str()))),
        Ok(o) => if o.status.success {
            let text = lossy(o.stdout.as_slice());
            Ok(printed_name(text.as_str()))
        } else {
            let stderr = tail_text(&o.stderr);
            Err(
                AdaptError::Ingest(
                    cat4(
                        "yt-dlp exited with ",
                        o.status.text.as_str(),
                        ": ",
                        stderr.as_str(),
                    ),
                ),
            )
        },
    }
}

/// The file of a fetch: it has to be there.
pub fn fetched_file(name: Option<String>, is_file: bool) -> (r: Result<Ingested, AdaptError>)
    ensures
        match r {
            Ok(i) => is_file && i.fetched && crate::scene::text_view(name) == Some(i.path@),
            Err(e) => (name is None || !is_file) && e@ == AdaptErrorView::Ingest(
                "yt-dlp succeeded but reported no output file"@,
            ),
        },
{
    match name {
        Some(path) if is_file => Ok(Ingested { path, fetched: true }),
        _ => Err(
            AdaptError::Ingest("yt-dlp succeeded but reported no output file".to_owned()),
        ),
    }
}

// The whole analysis.

/// What is learned of a file from its probe and from the scores of its
/// sampled frames.
pub open spec fn is_analysis(
    a: Analysis,
    path: Seq<char>,
    info: MediaInfoView,
    duration_us: u64,
    frames: Seq<u64>,
) -> bool {
    &&& a.path@ == path
    &&& a.duration_us == duration_us
    &&& info.video matches Some(v) && a.width == v.width && a.height == v.height && a.fps == (
    match v.frame_rate {
        Some(r) => Some((r.numerator, r.denominator)),
        None => None,
    })
    &&& a.has_audio == info.audio is Some
    &&& a.cuts_us@ == cut_times(frames, duration_us, frames.len() as int)
}

/// Puts an analysis together. A file without a video stream has none.
pub fn analyze(path: &str, info: &MediaInfo, duration_us: u64, scores: &Vec<u64>, scale: u64) -> (r:
    Result<Analysis, AdaptError>)
    requires
        duration_us <= i64::MAX,
    ensures
        match r {
            Ok(a) => is_analysis(
                a,
                path@,
                info@,
                duration_us,
                crate::shots::cut_frames(
                    scores@,
                    scale,
                    Rational { numerator: SAMPLE_FPS, denominator: 1 },
                    MIN_SHOT_MS,
                ),
            ),
            Err(e) => info@.video is None && e@ == AdaptErrorView::Media(
                MediaErrorView::NoVideoStream,
            ),
        },
{
    match &info.video {
        None => Err(AdaptError::Media(MediaError::NoVideoStream)),
        Some(v) => Ok(
            Analysis {
                path: path.to_owned(),
                duration_us,
                width: v.width,
                height: v.height,
                fps: match v.frame_rate {
                    Some(f) => Some((f.numerator, f.denominator)),
                    None => None,
                },
                has_audio: info.audio.is_some(),
                cuts_us: find_cuts(scores, scale, duration_us),
            },
        ),
    }
}

/// The cuts of an analysis lie strictly inside the program.
pub proof fn cuts_are_inside(frames: Seq<u64>, duration_us: u64, n: int)
    requires
        duration_us <= i64::MAX,
    ensures
        forall|i: int|
            0 <= i < cut_times(frames, duration_us, n).len() ==> 0 < #[trigger] cut_times(
                frames,
                duration_us,
                n,
            )[i] < duration_us,
    decreases n,
{
    if 0 < n <= frames.len() {
        cuts_are_inside(frames, duration_us, n - 1);
        let before = cut_times(frames, duration_us, n - 1);
        let after = cut_times(frames, duration_us, n);
        assert forall|i: int| 0 <= i < after.len() implies 0 < #[trigger] after[i] < duration_us by {
            if i < before.len() {
                assert(after[i] == before[i]);
            } else {
                assert(after[i] == frame_time(frames[n - 1]));
            }
        }
    }
}

} // verus!
