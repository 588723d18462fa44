//! External media, all of it through ffmpeg and ffprobe subprocesses: what
//! the tools are asked for, and what is made of their answers.

use vstd::prelude::*;

use crate::number::{Number, NumberView};
use crate::scene::Rational;
use crate::text::{
    cat2, cat3, cat4, chars_of, dec_text, find_char, parse_u32, push_word, push_words, text_eq,
    trim,
};

verus! {

// Errors.

/// Which external binary an operation needs.
#[derive(Debug, Clone, Copy, PartialEq, Eq, Structural)]
pub enum Tool {
    Ffmpeg,
    Ffprobe,
}

pub open spec fn tool_name(t: Tool) -> Seq<char> {
    match t {
        Tool::Ffmpeg => "ffmpeg"@,
        Tool::Ffprobe => "ffprobe"@,
    }
}

impl Tool {
    pub fn name(self) -> (r: &'static str)
        ensures
            r@ == tool_name(self),
    {
        match self {
            Tool::Ffmpeg => "ffmpeg",
            Tool::Ffprobe => "ffprobe",
        }
    }
}

/// What a media operation fails with. Tools are external processes: every
/// failure names the tool and carries its stderr where there is one.
#[derive(Debug)]
pub enum MediaError {
    Spawn { tool: String, source: String },
    Failed { tool: String, status: String, stderr: String },
    ProbeParse(String),
    NoVideoStream,
    ShortFrame { expected: usize, got: usize },
    TimedOut { tool: String, limit_ms: u64 },
    Io(String),
}

pub enum MediaErrorView {
    Spawn { tool: Seq<char>, source: Seq<char> },
    Failed { tool: Seq<char>, status: Seq<char>, stderr: Seq<char> },
    ProbeParse(Seq<char>),
    NoVideoStream,
    ShortFrame { expected: usize, got: usize },
    TimedOut { tool: Seq<char>, limit_ms: u64 },
    Io(Seq<char>),
}

impl View for MediaError {
    type V = MediaErrorView;

    open spec fn view(&self) -> MediaErrorView {
        match self {
            MediaError::Spawn { tool, source } => MediaErrorView::Spawn {
                tool: tool@,
                source: source@,
            },
            MediaError::Failed { tool, status, stderr } => MediaErrorView::Failed {
                tool: tool@,
                status: status@,
                stderr: stderr@,
            },
            MediaError::ProbeParse(m) => MediaErrorView::ProbeParse(m@),
            MediaError::NoVideoStream => MediaErrorView::NoVideoStream,
            MediaError::ShortFrame { expected, got } => MediaErrorView::ShortFrame {
                expected: *expected,
                got: *got,
            },
            MediaError::TimedOut { tool, limit_ms } => MediaErrorView::TimedOut {
                tool: tool@,
                limit_ms: *limit_ms,
            },
            MediaError::Io(m) => MediaErrorView::Io(m@),
        }
    }
}

pub open spec fn media_message(e: MediaErrorView) -> Seq<char> {
    match e {
        MediaErrorView::Spawn { tool, source } => "could not run "@ + tool + ": "@ + source,
        MediaErrorView::Failed { tool, status, stderr } => tool + " exited with "@ + status + ": "@
            + stderr,
        MediaErrorView::ProbeParse(m) => "could not parse ffprobe output: "@ + m,
        MediaErrorView::NoVideoStream => "media has no video stream"@,
        MediaErrorView::ShortFrame { expected, got } => "unexpected end of stream: expected "@
            + crate::text::dec(expected as nat) + " bytes, got "@ + crate::text::dec(got as nat),
        MediaErrorView::TimedOut { tool, limit_ms } => tool + " timed out after "@
            + crate::text::dec(limit_ms as nat) + "ms"@,
        MediaErrorView::Io(m) => m,
    }
}

impl MediaError {
    /// The error in words.
    pub fn message(&self) -> (r: String)
        ensures
            r@ == media_message(self@),
    {
        match self {
            MediaError::Spawn { tool, source } => cat4(
                "could not run ",
                tool.as_str(),
                ": ",
                source.as_str(),
            ),
            MediaError::Failed { tool, status, stderr } => {
                let head = cat3(tool.as_str(), " exited with ", status.as_str());
                cat3(head.as_str(), ": ", stderr.as_str())
            },
            MediaError::ProbeParse(m) => cat2("could not parse ffprobe output: ", m.as_str()),
            MediaError::NoVideoStream => "media has no video stream".to_owned(),
            MediaError::ShortFrame { expected, got } => {
                let e = dec_text(*expected as u64);
                let g = dec_text(*got as u64);
                cat4(
                    "unexpected end of stream: expected ",
                    e.as_str(),
                    " bytes, got ",
                    g.as_str(),
                )
            },
            MediaError::TimedOut { tool, limit_ms } => {
                let ms = dec_text(*limit_ms);
                cat4(tool.as_str(), " timed out after ", ms.as_str(), "ms")
            },
            MediaError::Io(m) => m.clone(),
        }
    }
}

// Probing.

/// What a media file contains, reduced to what the engine needs.
#[derive(Debug)]
pub struct MediaInfo {
    /// Container duration in seconds (best available).
    pub duration_s: Number,
    pub format_name: String,
    pub video: Option<VideoInfo>,
    pub audio: Option<AudioInfo>,
}

#[derive(Debug)]
pub struct VideoInfo {
    pub width: u32,
    pub height: u32,
    pub codec: String,
    /// Average frame rate; `None` for still images and where it is unknown.
    pub frame_rate: Option<Rational>,
    pub pixel_format: Option<String>,
}

#[derive(Debug)]
pub struct AudioInfo {
    pub codec: String,
    pub sample_rate: Option<u32>,
    pub channels: Option<u32>,
}

pub struct VideoInfoView {
    pub width: u32,
    pub height: u32,
    pub codec: Seq<char>,
    pub frame_rate: Option<Rational>,
    pub pixel_format: Option<Seq<char>>,
}

pub struct AudioInfoView {
    pub codec: Seq<char>,
    pub sample_rate: Option<u32>,
    pub channels: Option<u32>,
}

pub struct MediaInfoView {
    pub duration_s: NumberView,
    pub format_name: Seq<char>,
    pub video: Option<VideoInfoView>,
    pub audio: Option<AudioInfoView>,
}

impl View for VideoInfo {
    type V = VideoInfoView;

    open spec fn view(&self) -> VideoInfoView {
        VideoInfoView {
            width: self.width,
            height: self.height,
            codec: self.codec@,
            frame_rate: self.frame_rate,
            pixel_format: crate::scene::text_view(self.pixel_format),
        }
    }
}

impl View for AudioInfo {
    type V = AudioInfoView;

    open spec fn view(&self) -> AudioInfoView {
        AudioInfoView {
            codec: self.codec@,
            sample_rate: self.sample_rate,
            channels: self.channels,
        }
    }
}

impl View for MediaInfo {
    type V = MediaInfoView;

    open spec fn view(&self) -> MediaInfoView {
        MediaInfoView {
            duration_s: self.duration_s@,
            format_name: self.format_name@,
            video: match self.video {
                Some(v) => Some(v@),
                None => None,
            },
            audio: match self.audio {
                Some(a) => Some(a@),
                None => None,
            },
        }
    }
}

/// A stream as ffprobe reports it.
#[derive(Debug)]
pub struct ProbeStream {
    pub codec_type: Option<String>,
    pub codec_name: Option<String>,
    pub width: Option<u32>,
    pub height: Option<u32>,
    /// Such as `30/1` or `30000/1001`; `0/0` for stills.
    pub avg_frame_rate: Option<String>,
    pub r_frame_rate: Option<String>,
    pub pix_fmt: Option<String>,
    pub sample_rate: Option<String>,
    pub channels: Option<u32>,
    pub duration: Option<String>,
}

#[derive(Debug)]
pub struct ProbeFormat {
    pub format_name: Option<String>,
    pub duration: Option<String>,
}

/// An ffprobe report.
#[derive(Debug)]
pub struct ProbeOutput {
    pub streams: Vec<ProbeStream>,
    pub format: Option<ProbeFormat>,
}

/// An ffprobe rate; `0/0` and anything that is no rate give `None`.
pub open spec fn rate(s: Seq<char>) -> Option<Rational> {
    let slash = crate::text::find_from(s, '/', 0);
    if slash == s.len() {
        None
    } else {
        match (
            crate::text::unsigned(crate::text::trimmed(s.take(slash)), u32::MAX as nat),
            crate::text::unsigned(crate::text::trimmed(s.skip(slash + 1)), u32::MAX as nat),
        ) {
            (Some(n), Some(d)) => if n == 0 || d == 0 {
                None
            } else {
                Some(Rational { numerator: n as u32, denominator: d as u32 })
            },
            _ => None,
        }
    }
}

/// Parse an ffprobe rate.
pub fn parse_rate(s: &str) -> (r: Option<Rational>)
    ensures
        r == rate(s@),
{
    let cs = chars_of(s);
    let slash = find_char(cs.as_slice(), '/', 0);
    if slash == cs.len() {
        return None;
    }
    let head = vstd::slice::slice_subrange(cs.as_slice(), 0, slash);
    let rest = vstd::slice::slice_subrange(cs.as_slice(), slash + 1, cs.len());
    assert(head@ =~= cs@.take(slash as int));
    assert(rest@ =~= cs@.skip(slash + 1));
    match (parse_u32(trim(head)), parse_u32(trim(rest))) {
        (Some(n), Some(d)) => if n == 0 || d == 0 {
            None
        } else {
            Some(Rational { numerator: n, denominator: d })
        },
        _ => None,
    }
}

/// A finite number of seconds.
pub open spec fn finite_number(s: Seq<char>) -> Option<NumberView> {
    match crate::number::number(crate::text::trimmed(s)) {
        Some(v) => if v.is_finite() {
            Some(v)
        } else {
            None
        },
        None => None,
    }
}

fn parse_finite(s: &str) -> (r: Option<Number>)
    ensures
        match r {
            Some(v) => finite_number(s@) == Some(v@),
            None => finite_number(s@) is None,
        },
{
    let cs = chars_of(s);
    match Number::from_chars(trim(cs.as_slice())) {
        Some(v) => if v.is_finite() {
            Some(v)
        } else {
            None
        },
        None => None,
    }
}

pub open spec fn is_kind(s: ProbeStream, kind: Seq<char>) -> bool {
    match s.codec_type {
        Some(t) => t@ == kind,
        None => false,
    }
}

/// The first stream of a kind, from `i` on; the number of streams if there
/// is none.
pub open spec fn first_of(streams: Seq<ProbeStream>, kind: Seq<char>, i: int) -> int
    decreases streams.len() - i,
{
    if i < 0 || i >= streams.len() {
        streams.len() as int
    } else if is_kind(streams[i], kind) {
        i
    } else {
        first_of(streams, kind, i + 1)
    }
}

fn find_stream(streams: &Vec<ProbeStream>, kind: &str) -> (r: usize)
    ensures
        r == first_of(streams@, kind@, 0),
        r <= streams@.len(),
{
    let mut i: usize = 0;
    while i < streams.len()
        invariant
            i <= streams@.len(),
            first_of(streams@, kind@, 0) == first_of(streams@, kind@, i as int),
        decreases streams@.len() - i,
    {
        let found = match &streams[i].codec_type {
            Some(t) => text_eq(t.as_str(), kind),
            None => false,
        };
        if found {
            return i;
        }
        i = i + 1;
    }
    i
}

pub open spec fn or_empty(s: Option<String>) -> Seq<char> {
    match s {
        Some(t) => t@,
        None => Seq::empty(),
    }
}

fn text_or_empty(s: &Option<String>) -> (r: String)
    ensures
        r@ == or_empty(*s),
{
    match s {
        Some(t) => t.clone(),
        None => String::new(),
    }
}

pub open spec fn or_zero(n: Option<u32>) -> u32 {
    match n {
        Some(v) => v,
        None => 0,
    }
}

pub open spec fn given_rate(s: Option<String>) -> Option<Rational> {
    match s {
        Some(t) => rate(t@),
        None => None,
    }
}

fn read_rate(s: &Option<String>) -> (r: Option<Rational>)
    ensures
        r == given_rate(*s),
{
    match s {
        Some(t) => parse_rate(t.as_str()),
        None => None,
    }
}

/// The average rate, or else the real base rate.
pub open spec fn stream_rate(s: ProbeStream) -> Option<Rational> {
    match given_rate(s.avg_frame_rate) {
        Some(r) => Some(r),
        None => given_rate(s.r_frame_rate),
    }
}

pub open spec fn video_of(s: ProbeStream) -> VideoInfoView {
    VideoInfoView {
        width: or_zero(s.width),
        height: or_zero(s.height),
        codec: or_empty(s.codec_name),
        frame_rate: stream_rate(s),
        pixel_format: crate::scene::text_view(s.pix_fmt),
    }
}

pub open spec fn stream_sample_rate(s: ProbeStream) -> Option<u32> {
    match s.sample_rate {
        Some(t) => match crate::text::unsigned(crate::text::trimmed(t@), u32::MAX as nat) {
            Some(n) => Some(n as u32),
            None => None,
        },
        None => None,
    }
}

pub open spec fn audio_of(s: ProbeStream) -> AudioInfoView {
    AudioInfoView {
        codec: or_empty(s.codec_name),
        sample_rate: stream_sample_rate(s),
        channels: s.channels,
    }
}

pub open spec fn given_number(s: Option<String>) -> Option<NumberView> {
    match s {
        Some(t) => finite_number(t@),
        None => None,
    }
}

fn read_number(s: &Option<String>) -> (r: Option<Number>)
    ensures
        match r {
            Some(v) => given_number(*s) == Some(v@),
            None => given_number(*s) is None,
        },
{
    match s {
        Some(t) => parse_finite(t.as_str()),
        None => None,
    }
}

/// The longest of the durations that the first `n` streams report.
pub open spec fn longest(streams: Seq<ProbeStream>, n: int) -> Option<NumberView>
    decreases n,
{
    if n <= 0 || n > streams.len() {
        None
    } else {
        match (longest(streams, n - 1), given_number(streams[n - 1].duration)) {
            (None, v) => v,
            (Some(a), None) => Some(a),
            (Some(a), Some(v)) => if a.less(v) {
                Some(v)
            } else {
                Some(a)
            },
        }
    }
}

fn longest_duration(streams: &Vec<ProbeStream>) -> (r: Option<Number>)
    ensures
        match r {
            Some(v) => longest(streams@, streams@.len() as int) == Some(v@),
            None => longest(streams@, streams@.len() as int) is None,
        },
{
    let mut best: Option<Number> = None;
    let mut i: usize = 0;
    while i < streams.len()
        invariant
            i <= streams@.len(),
            match best {
                Some(v) => longest(streams@, i as int) == Some(v@),
                None => longest(streams@, i as int) is None,
            },
        decreases streams@.len() - i,
    {
        match read_number(&streams[i].duration) {
            Some(v) => {
                let better = match &best {
                    Some(a) => a.less(&v),
                    None => true,
                };
                if better {
                    best = Some(v);
                }
            },
            None => {},
        }
        i = i + 1;
    }
    best
}

/// The container's duration, or else the longest stream's, or else none.
pub open spec fn report_duration(p: ProbeOutput) -> NumberView {
    let stated = match p.format {
        Some(f) => given_number(f.duration),
        None => None,
    };
    match stated {
        Some(v) => v,
        None => match longest(p.streams@, p.streams@.len() as int) {
            Some(v) => v,
            None => crate::lower::zero(),
        },
    }
}

/// What a report says, reduced to what the engine needs.
pub open spec fn report_info(p: ProbeOutput) -> MediaInfoView {
    let v = first_of(p.streams@, "video"@, 0);
    let a = first_of(p.streams@, "audio"@, 0);
    MediaInfoView {
        duration_s: report_duration(p),
        format_name: match p.format {
            Some(f) => or_empty(f.format_name),
            None => Seq::empty(),
        },
        video: if v < p.streams@.len() {
            Some(video_of(p.streams@[v]))
        } else {
            None
        },
        audio: if a < p.streams@.len() {
            Some(audio_of(p.streams@[a]))
        } else {
            None
        },
    }
}

fn copy_text(s: &Option<String>) -> (r: Option<String>)
    ensures
        crate::scene::text_view(r) == crate::scene::text_view(*s),
{
    match s {
        Some(t) => Some(t.clone()),
        None => None,
    }
}

/// The media information of an ffprobe report. `parsed` is the report as
/// read from JSON, or the parser's message.
pub fn parse_probe_json(parsed: Result<ProbeOutput, String>) -> (r: Result<MediaInfo, MediaError>)
    ensures
        match (parsed, r) {
            (Ok(p), Ok(info)) => info@ == report_info(p),
            (Err(m), Err(e)) => e@ == MediaErrorView::ProbeParse(m@),
            _ => false,
        },
{
    let p = match parsed {
        Ok(p) => p,
        Err(m) => return Err(MediaError::ProbeParse(m)),
    };
    let v = find_stream(&p.streams, "video");
    let a = find_stream(&p.streams, "audio");
    let video: Option<VideoInfo> = if v < p.streams.len() {
        let s = &p.streams[v];
        let frame_rate = match read_rate(&s.avg_frame_rate) {
            Some(f) => Some(f),
            None => read_rate(&s.r_frame_rate),
        };
        Some(
            VideoInfo {
                width: match s.width {
                    Some(w) => w,
                    None => 0,
                },
                height: match s.height {
                    Some(h) => h,
                    None => 0,
                },
                codec: text_or_empty(&s.codec_name),
                frame_rate,
                pixel_format: copy_text(&s.pix_fmt),
            },
        )
    } else {
        None
    };
    let audio: Option<AudioInfo> = if a < p.streams.len() {
        let s = &p.streams[a];
        let sample_rate: Option<u32> = match &s.sample_rate {
            Some(t) => {
                let cs = chars_of(t.as_str());
                parse_u32(trim(cs.as_slice()))
            },
            None => None,
        };
        Some(
            AudioInfo {
                codec: text_or_empty(&s.codec_name),
                sample_rate,
                channels: s.channels,
            },
        )
    } else {
        None
    };
    let stated = match &p.format {
        Some(f) => read_number(&f.duration),
        None => None,
    };
    let duration_s = match stated {
        Some(d) => d,
        None => match longest_duration(&p.streams) {
            Some(d) => d,
            None => Number::zero(),
        },
    };
    let format_name = match &p.format {
        Some(f) => text_or_empty(&f.format_name),
        None => String::new(),
    };
    Ok(MediaInfo { duration_s, format_name, video, audio })
}

// Encoding.

/// The ffmpeg arguments of an encode: raw NV12 on stdin, H.264 out, tagged
/// BT.709 end to end. With `audio`, input 1 is the program wav, mapped and
/// encoded to AAC; without, `-an` makes the silence explicit.
pub open spec fn encode_argv(
    out: Seq<char>,
    w: u32,
    h: u32,
    fps: Rational,
    audio: Option<Seq<char>>,
) -> Seq<Seq<char>> {
    seq![
        "-y"@,
        "-v"@,
        "error"@,
        "-f"@,
        "rawvideo"@,
        "-pix_fmt"@,
        "nv12"@,
        "-s"@,
        crate::text::dec(w as nat) + "x"@ + crate::text::dec(h as nat),
        "-r"@,
        crate::text::dec(fps.numerator as nat) + "/"@ + crate::text::dec(fps.denominator as nat),
        "-i"@,
        "-"@,
    ] + (match audio {
        Some(a) => seq!["-i"@, a, "-map"@, "0:v:0"@, "-map"@, "1:a:0"@],
        None => seq!["-an"@],
    }) + seq![
        "-c:v"@,
        "libx264"@,
        "-preset"@,
        "veryfast"@,
        "-crf"@,
        "20"@,
        "-pix_fmt"@,
        "yuv420p"@,
        "-colorspace"@,
        "bt709"@,
        "-color_primaries"@,
        "bt709"@,
        "-color_trc"@,
        "bt709"@,
        "-movflags"@,
        "+faststart"@,
    ] + (match audio {
        Some(_) => seq!["-c:a"@, "aac"@, "-b:a"@, "192k"@, "-shortest"@],
        None => Seq::empty(),
    }) + seq![out]
}

pub open spec fn str_view(s: Option<&str>) -> Option<Seq<char>> {
    match s {
        Some(t) => Some(t@),
        None => None,
    }
}

/// The ffmpeg arguments of an encode, without the binary's name.
pub fn encode_args(out: &str, w: u32, h: u32, fps: &Rational, audio: Option<&str>) -> (r: Vec<
    String,
>)
    ensures
        crate::text::text_views(r@) == encode_argv(out@, w, h, *fps, str_view(audio)),
{
    let (tw, th) = (dec_text(w as u64), dec_text(h as u64));
    let size = cat3(tw.as_str(), "x", th.as_str());
    let (tn, td) = (dec_text(fps.numerator as u64), dec_text(fps.denominator as u64));
    let rate = cat3(tn.as_str(), "/", td.as_str());
    let mut args: Vec<String> = Vec::new();
    assert(crate::text::text_views(args@) =~= Seq::<Seq<char>>::empty());
    let input = [
        "-y",
        "-v",
        "error",
        "-f",
        "rawvideo",
        "-pix_fmt",
        "nv12",
        "-s",
        size.as_str(),
        "-r",
        rate.as_str(),
        "-i",
        "-",
    ];
    push_words(&mut args, input.as_slice());
    let ghost first = crate::text::text_views(args@);
    match audio {
        Some(a) => {
            let maps = ["-i", a, "-map", "0:v:0", "-map", "1:a:0"];
            push_words(&mut args, maps.as_slice());
        },
        None => {
            push_word(&mut args, "-an");
        },
    }
    let codec = [
        "-c:v",
        "libx264",
        "-preset",
        "veryfast",
        "-crf",
        "20",
        "-pix_fmt",
        "yuv420p",
        "-colorspace",
        "bt709",
        "-color_primaries",
        "bt709",
        "-color_trc",
        "bt709",
        "-movflags",
        "+faststart",
    ];
    push_words(&mut args, codec.as_slice());
    if audio.is_some() {
        let sound = ["-c:a", "aac", "-b:a", "192k", "-shortest"];
        push_words(&mut args, sound.as_slice());
    }
    push_word(&mut args, out);
    assert(crate::text::text_views(args@) =~= encode_argv(out@, w, h, *fps, str_view(audio)));
    args
}

/// The arguments of an encode, refused for dimensions that NV12 cannot hold.
pub fn open_encoder(out: &str, w: u32, h: u32, fps: &Rational, audio: Option<&str>) -> (r: Result<
    Vec<String>,
    MediaError,
>)
    ensures
        match r {
            Ok(args) => w % 2 == 0 && h % 2 == 0 && crate::text::text_views(args@) == encode_argv(
                out@,
                w,
                h,
                *fps,
                str_view(audio),
            ),
            Err(e) => (w % 2 != 0 || h % 2 != 0) && e@ == MediaErrorView::ProbeParse(
                "NV12 needs even dimensions, got "@ + crate::text::dec(w as nat) + "x"@
                    + crate::text::dec(h as nat),
            ),
        },
{
    if w % 2 != 0 || h % 2 != 0 {
        let (tw, th) = (dec_text(w as u64), dec_text(h as u64));
        return Err(
            MediaError::ProbeParse(
                cat4("NV12 needs even dimensions, got ", tw.as_str(), "x", th.as_str()),
            ),
        );
    }
    Ok(encode_args(out, w, h, fps, audio))
}

// Decoding.

/// One decoded frame, RGBA8, row-major, tightly packed.
#[derive(Debug, PartialEq, Eq)]
pub struct Frame {
    /// Zero-based decode order.
    pub index: u64,
    pub width: u32,
    pub height: u32,
    /// `width * height * 4` bytes.
    pub pixels: Vec<u8>,
}

impl Frame {
    pub fn byte_len(width: u32, height: u32) -> (r: usize)
        requires
            width * height * 4 <= usize::MAX,
        ensures
            r == width * height * 4,
    {
        assert(width as int * height as int <= width as int * height as int * 4)
            by (nonlinear_arith)
            requires
                width >= 0,
                height >= 0,
        ;
        width as usize * height as usize * 4
    }
}

/// A decoded frame is at most a gibibyte.
pub const MAX_FRAME: u64 = 1_073_741_824;

/// The size of the frames of a decode, or why it is not started.
pub open spec fn decode_size(width: u32, height: u32, has_video: bool) -> Result<
    int,
    MediaErrorView,
> {
    if width == 0 || height == 0 || width * height * 4 > MAX_FRAME {
        Err(MediaErrorView::Io("decoded dimensions must fit within a 1 GiB frame"@))
    } else if !has_video {
        Err(MediaErrorView::NoVideoStream)
    } else {
        Ok(width * height * 4)
    }
}

/// The size in bytes of the frames that a decode to `width`×`height` gives.
pub fn frame_len(width: u32, height: u32, has_video: bool) -> (r: Result<usize, MediaError>)
    ensures
        match r {
            Ok(n) => decode_size(width, height, has_video) == Ok::<int, MediaErrorView>(n as int),
            Err(e) => decode_size(width, height, has_video) == Err::<int, MediaErrorView>(e@),
        },
{
    proof {
        assert(0 <= width as int * height as int <= 0xffff_ffff * 0xffff_ffff) by (nonlinear_arith)
            requires
                0 <= width <= 0xffff_ffff,
                0 <= height <= 0xffff_ffff,
        ;
    }
    let bytes: u128 = width as u128 * height as u128 * 4;
    if width == 0 || height == 0 || bytes > MAX_FRAME as u128 {
        return Err(
            MediaError::Io("decoded dimensions must fit within a 1 GiB frame".to_owned()),
        );
    }
    if !has_video {
        return Err(MediaError::NoVideoStream);
    }
    Ok(Frame::byte_len(width, height))
}

/// The ffmpeg arguments of a decode: `-v error [pre] -i path [-vf f]
/// -f rawvideo -pix_fmt rgba -`.
pub open spec fn decode_argv(
    path: Seq<char>,
    pre: Seq<Seq<char>>,
    vf: Option<Seq<char>>,
) -> Seq<Seq<char>> {
    seq!["-v"@, "error"@] + pre + seq!["-i"@, path] + (match vf {
        Some(f) => seq!["-vf"@, f],
        None => Seq::empty(),
    }) + seq!["-f"@, "rawvideo"@, "-pix_fmt"@, "rgba"@, "-"@]
}

pub fn decode_args(path: &str, pre: &Vec<String>, vf: Option<&str>) -> (r: Vec<String>)
    ensures
        crate::text::text_views(r@) == decode_argv(
            path@,
            crate::text::text_views(pre@),
            str_view(vf),
        ),
{
    let mut args: Vec<String> = Vec::new();
    assert(crate::text::text_views(args@) =~= Seq::<Seq<char>>::empty());
    let quiet = ["-v", "error"];
    push_words(&mut args, quiet.as_slice());
    let ghost head = crate::text::text_views(args@);
    let ghost given = crate::text::text_views(pre@);
    let mut i: usize = 0;
    assert(head + given.take(0) =~= head);
    while i < pre.len()
        invariant
            i <= pre@.len(),
            given == crate::text::text_views(pre@),
            crate::text::text_views(args@) == head + given.take(i as int),
        decreases pre@.len() - i,
    {
        push_word(&mut args, pre[i].as_str());
        assert(given.take(i + 1) =~= given.take(i as int).push(given[i as int]));
        assert(crate::text::text_views(args@) =~= head + given.take(i + 1));
        i = i + 1;
    }
    assert(given.take(given.len() as int) =~= given);
    let input = ["-i", path];
    push_words(&mut args, input.as_slice());
    match vf {
        Some(f) => {
            let filter = ["-vf", f];
            push_words(&mut args, filter.as_slice());
        },
        None => {},
    }
    let raw = ["-f", "rawvideo", "-pix_fmt", "rgba", "-"];
    push_words(&mut args, raw.as_slice());
    assert(crate::text::text_views(args@) =~= decode_argv(path@, given, str_view(vf)));
    args
}

/// The texts of a decode window: where reading starts and stops, and the
/// frame indices between which frames are kept.
#[derive(Debug)]
pub struct WindowText {
    pub seek: String,
    pub stop: String,
    pub start_pts: String,
    pub end_pts: String,
}

pub open spec fn scale_filter(
    width: u32,
    height: u32,
    fps: Seq<char>,
    window: Option<WindowText>,
) -> Seq<char> {
    let scale = "scale="@ + crate::text::dec(width as nat) + ":"@ + crate::text::dec(
        height as nat,
    ) + ",fps="@ + fps;
    match window {
        Some(w) => scale + ",trim=start_pts="@ + w.start_pts@ + ":end_pts="@ + w.end_pts@
            + ",setpts=PTS-STARTPTS"@,
        None => scale,
    }
}

/// The filter of a scaled decode; a window is cut on the frame grid.
pub fn scaled_filter(width: u32, height: u32, fps: &str, window: &Option<WindowText>) -> (r: String)
    ensures
        r@ == scale_filter(width, height, fps@, *window),
{
    let (w, h) = (dec_text(width as u64), dec_text(height as u64));
    let size = cat4("scale=", w.as_str(), ":", h.as_str());
    let mut out = cat3(size.as_str(), ",fps=", fps);
    match window {
        Some(t) => {
            out.append(",trim=start_pts=");
            out.append(t.start_pts.as_str());
            out.append(":end_pts=");
            out.append(t.end_pts.as_str());
            out.append(",setpts=PTS-STARTPTS");
        },
        None => {},
    }
    out
}

pub open spec fn window_argv(window: Option<WindowText>) -> Seq<Seq<char>> {
    match window {
        Some(w) => seq![
            "-copyts"@,
            "-start_at_zero"@,
            "-ss"@,
            w.seek@,
            "-to"@,
            w.stop@,
        ],
        None => Seq::empty(),
    }
}

/// The arguments before the input of a scaled decode.
pub fn window_args(window: &Option<WindowText>) -> (r: Vec<String>)
    ensures
        crate::text::text_views(r@) == window_argv(*window),
{
    let mut args: Vec<String> = Vec::new();
    assert(crate::text::text_views(args@) =~= Seq::<Seq<char>>::empty());
    match window {
        Some(w) => {
            let seek = ["-copyts", "-start_at_zero", "-ss", w.seek.as_str(), "-to", w.stop.as_str()];
            push_words(&mut args, seek.as_slice());
            assert(crate::text::text_views(args@) =~= window_argv(*window));
        },
        None => {},
    }
    args
}

/// What a read that went on until the buffer was full or the stream ended
/// has given.
#[derive(Debug, Clone, Copy, PartialEq, Eq, Structural)]
pub enum FrameRead {
    Whole,
    /// A clean end at a frame boundary.
    End,
    /// A truncated frame.
    Short,
}

pub open spec fn frame_read_of(expected: usize, got: usize) -> FrameRead {
    if got == expected {
        FrameRead::Whole
    } else if got == 0 {
        FrameRead::End
    } else {
        FrameRead::Short
    }
}

pub fn frame_read(expected: usize, got: usize) -> (r: FrameRead)
    ensures
        r == frame_read_of(expected, got),
{
    if got == expected {
        FrameRead::Whole
    } else if got == 0 {
        FrameRead::End
    } else {
        FrameRead::Short
    }
}

// Audio decode.

/// The ffmpeg arguments of a PCM decode: mono `f32le` at `rate`.
pub open spec fn pcm_argv(path: Seq<char>, rate: u32) -> Seq<Seq<char>> {
    seq![
        "-v"@,
        "error"@,
        "-i"@,
        path,
        "-vn"@,
        "-ac"@,
        "1"@,
        "-ar"@,
        crate::text::dec(rate as nat),
        "-f"@,
        "f32le"@,
        "-"@,
    ]
}

/// The arguments of a PCM decode. A source without audio is no failure: there
/// is nothing to decode.
pub fn open_pcm(path: &str, has_audio: bool, rate: u32, hop_samples: usize) -> (r: Result<
    Option<Vec<String>>,
    MediaError,
>)
    ensures
        match r {
            Ok(None) => !has_audio,
            Ok(Some(args)) => has_audio && rate > 0 && hop_samples > 0 && crate::text::text_views(
                args@,
            ) == pcm_argv(path@, rate),
            Err(e) => has_audio && (rate == 0 || hop_samples == 0) && e@
                == MediaErrorView::ProbeParse("pcm: rate and hop_samples must be positive"@),
        },
{
    if !has_audio {
        return Ok(None);
    }
    if rate == 0 || hop_samples == 0 {
        return Err(
            MediaError::ProbeParse("pcm: rate and hop_samples must be positive".to_owned()),
        );
    }
    let hz = dec_text(rate as u64);
    let mut args: Vec<String> = Vec::new();
    assert(crate::text::text_views(args@) =~= Seq::<Seq<char>>::empty());
    let all = [
        "-v",
        "error",
        "-i",
        path,
        "-vn",
        "-ac",
        "1",
        "-ar",
        hz.as_str(),
        "-f",
        "f32le",
        "-",
    ];
    push_words(&mut args, all.as_slice());
    assert(crate::text::text_views(args@) =~= pcm_argv(path@, rate));
    Ok(Some(args))
}

/// Byte `i` of a chunk of which the first `got` bytes were read; the rest is
/// silence.
pub open spec fn padded(bytes: Seq<u8>, got: int, i: int) -> u8 {
    if 0 <= i < got && i < bytes.len() {
        bytes[i]
    } else {
        0
    }
}

/// The little-endian word at sample `k`.
pub open spec fn sample_bits(bytes: Seq<u8>, got: int, k: int) -> int {
    padded(bytes, got, 4 * k) + 0x100 * padded(bytes, got, 4 * k + 1) + 0x1_0000 * padded(
        bytes,
        got,
        4 * k + 2,
    ) + 0x100_0000 * padded(bytes, got, 4 * k + 3)
}

fn byte_at(bytes: &Vec<u8>, got: usize, i: usize) -> (r: u8)
    ensures
        r == padded(bytes@, got as int, i as int),
{
    if i < got && i < bytes.len() {
        bytes[i]
    } else {
        0
    }
}

/// The bit patterns of the samples of a chunk of `hop` samples. A chunk that
/// ends early is padded with zeros: the hop grid stays aligned.
pub fn pcm_samples(bytes: &Vec<u8>, got: usize, hop: usize) -> (r: Vec<u32>)
    requires
        hop * 4 <= usize::MAX,
    ensures
        r@.len() == hop,
        forall|k: int| 0 <= k < hop ==> #[trigger] r@[k] == sample_bits(bytes@, got as int, k),
{
    let mut out: Vec<u32> = Vec::new();
    let mut k: usize = 0;
    while k < hop
        invariant
            k <= hop,
            hop * 4 <= usize::MAX,
            out@.len() == k,
            forall|j: int| 0 <= j < k ==> #[trigger] out@[j] == sample_bits(bytes@, got as int, j),
        decreases hop - k,
    {
        let b0: u32 = byte_at(bytes, got, 4 * k) as u32;
        let b1: u32 = byte_at(bytes, got, 4 * k + 1) as u32;
        let b2: u32 = byte_at(bytes, got, 4 * k + 2) as u32;
        let b3: u32 = byte_at(bytes, got, 4 * k + 3) as u32;
        out.push(b0 + 0x100 * b1 + 0x1_0000 * b2 + 0x100_0000 * b3);
        k = k + 1;
    }
    out
}

} // verus!
