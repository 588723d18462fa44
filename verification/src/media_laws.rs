//! What the media tools are asked for, and what is taken from their answers.

use vstd::prelude::*;

use crate::media::{ProbeOutput, ProbeStream, WindowText};
use crate::number::NumberView;
use crate::scene::Rational;

verus! {

/// Between `lo` and `hi` the option `key` is given with `value`.
pub open spec fn gives(
    args: Seq<Seq<char>>,
    lo: int,
    hi: int,
    key: Seq<char>,
    value: Seq<char>,
) -> bool {
    exists|i: int|
        lo <= i && i + 1 < hi && #[trigger] args[i] == key && args[i + 1] == value
}

pub proof fn lemma_gives(args: Seq<Seq<char>>, lo: int, hi: int, i: int)
    requires
        lo <= i,
        i + 1 < hi,
    ensures
        gives(args, lo, hi, args[i], args[i + 1]),
{
}

/// An encoder reads raw NV12 frames of the canvas and rate it is given, and
/// the sound of the file it is given, if any; it writes H.264 in BT.709 to the
/// file it is given.
pub proof fn encoders_are_asked_for_the_video(
    out: Seq<char>,
    w: u32,
    h: u32,
    fps: Rational,
    audio: Option<Seq<char>>,
)
    ensures
        ({
            let args = crate::media::encode_argv(out, w, h, fps, audio);
            let n = args.len() as int;
            let size = crate::text::dec(w as nat) + "x"@ + crate::text::dec(h as nat);
            let rate = crate::text::dec(fps.numerator as nat) + "/"@ + crate::text::dec(
                fps.denominator as nat,
            );
            &&& n > 13 && args[11] == "-i"@ && args[12] == "-"@
            &&& gives(args, 0, 12, "-f"@, "rawvideo"@)
            &&& gives(args, 0, 12, "-pix_fmt"@, "nv12"@)
            &&& gives(args, 0, 12, "-s"@, size)
            &&& gives(args, 0, 12, "-r"@, rate)
            &&& args.contains("-y"@)
            &&& audio matches Some(a) ==> {
                &&& args[13] == "-i"@ && args[14] == a
                &&& gives(args, 15, n, "-map"@, "0:v:0"@)
                &&& gives(args, 15, n, "-map"@, "1:a:0"@)
                &&& gives(args, 15, n, "-c:a"@, "aac"@)
                &&& gives(args, 15, n, "-b:a"@, "192k"@)
                &&& args.contains("-shortest"@)
            }
            &&& audio is None ==> args[13] == "-an"@
            &&& gives(args, 14, n, "-c:v"@, "libx264"@)
            &&& gives(args, 14, n, "-preset"@, "veryfast"@)
            &&& gives(args, 14, n, "-crf"@, "20"@)
            &&& gives(args, 14, n, "-pix_fmt"@, "yuv420p"@)
            &&& gives(args, 14, n, "-colorspace"@, "bt709"@)
            &&& gives(args, 14, n, "-color_primaries"@, "bt709"@)
            &&& gives(args, 14, n, "-color_trc"@, "bt709"@)
            &&& gives(args, 14, n, "-movflags"@, "+faststart"@)
            &&& args.last() == out
        }),
{
    let args = crate::media::encode_argv(out, w, h, fps, audio);
    let n = args.len() as int;
    assert(args[0] == "-y"@);
    lemma_gives(args, 0, 12, 3);
    lemma_gives(args, 0, 12, 5);
    lemma_gives(args, 0, 12, 7);
    lemma_gives(args, 0, 12, 9);
    let c = if audio is Some {
        19int
    } else {
        14int
    };
    if audio is Some {
        lemma_gives(args, 15, n, 15);
        lemma_gives(args, 15, n, 17);
        assert(args[35] == "-c:a"@ && args[36] == "aac"@);
        lemma_gives(args, 15, n, 35);
        assert(args[37] == "-b:a"@ && args[38] == "192k"@);
        lemma_gives(args, 15, n, 37);
        assert(args[39] == "-shortest"@);
    }
    lemma_gives(args, 14, n, c);
    lemma_gives(args, 14, n, c + 2);
    lemma_gives(args, 14, n, c + 4);
    lemma_gives(args, 14, n, c + 6);
    lemma_gives(args, 14, n, c + 8);
    lemma_gives(args, 14, n, c + 10);
    lemma_gives(args, 14, n, c + 12);
    lemma_gives(args, 14, n, c + 14);
}

/// A decoder reads the file it is given, with the seeks before it and the
/// filter after it, and writes RGBA frames.
pub proof fn decoders_are_asked_for_frames(
    path: Seq<char>,
    pre: Seq<Seq<char>>,
    vf: Option<Seq<char>>,
)
    ensures
        ({
            let args = crate::media::decode_argv(path, pre, vf);
            let n = args.len() as int;
            let i = 2 + pre.len() as int;
            &&& args.subrange(2, i) == pre
            &&& args[i] == "-i"@ && args[i + 1] == path
            &&& vf matches Some(f) ==> gives(args, i + 2, n, "-vf"@, f)
            &&& gives(args, i + 2, n, "-f"@, "rawvideo"@)
            &&& gives(args, i + 2, n, "-pix_fmt"@, "rgba"@)
            &&& args.last() == "-"@
            &&& n == i + 7 + (if vf is Some {
                2int
            } else {
                0int
            })
        }),
{
    let args = crate::media::decode_argv(path, pre, vf);
    let n = args.len() as int;
    let i = 2 + pre.len() as int;
    assert(args.subrange(2, i) =~= pre);
    let c = if vf is Some {
        lemma_gives(args, i + 2, n, i + 2);
        i + 4
    } else {
        i + 2
    };
    assert(args[c] == "-f"@ && args[c + 1] == "rawvideo"@);
    assert(args[c + 2] == "-pix_fmt"@ && args[c + 3] == "rgba"@);
    lemma_gives(args, i + 2, n, c);
    lemma_gives(args, i + 2, n, c + 2);
}

/// A window is sought by its own times, and its frames are cut by their own
/// indices; the frames are of the size and rate asked for.
pub proof fn windows_are_cut(width: u32, height: u32, fps: Seq<char>, w: WindowText)
    ensures
        gives(crate::media::window_argv(Some(w)), 0, 6, "-ss"@, w.seek@),
        gives(crate::media::window_argv(Some(w)), 0, 6, "-to"@, w.stop@),
        crate::media::window_argv(None).len() == 0,
        crate::text_laws::mentions(
            crate::media::scale_filter(width, height, fps, Some(w)),
            "trim=start_pts="@ + w.start_pts@ + ":end_pts="@ + w.end_pts@,
        ),
        crate::text_laws::mentions(
            crate::media::scale_filter(width, height, fps, Some(w)),
            crate::media::scale_filter(width, height, fps, None),
        ),
        crate::text_laws::mentions(
            crate::media::scale_filter(width, height, fps, None),
            "scale="@ + crate::text::dec(width as nat) + ":"@ + crate::text::dec(height as nat),
        ),
        crate::text_laws::mentions(
            crate::media::scale_filter(width, height, fps, None),
            ",fps="@ + fps,
        ),
{
    let args = crate::media::window_argv(Some(w));
    lemma_gives(args, 0, 6, 2);
    lemma_gives(args, 0, 6, 4);
    reveal_strlit(",trim=start_pts=");
    reveal_strlit("trim=start_pts=");
    reveal_strlit(",");
    let size = "scale="@ + crate::text::dec(width as nat) + ":"@ + crate::text::dec(
        height as nat,
    );
    let scale = size + ",fps="@ + fps;
    let cut = "trim=start_pts="@ + w.start_pts@ + ":end_pts="@ + w.end_pts@;
    assert(",trim=start_pts="@ =~= ","@ + "trim=start_pts="@);
    let all = crate::media::scale_filter(width, height, fps, Some(w));
    let end = ",setpts=PTS-STARTPTS"@;
    crate::text_laws::lemma_mentions(scale + ","@, cut, end);
    assert(scale + ","@ + cut + end =~= all);
    crate::text_laws::lemma_mentions(Seq::empty(), scale, ","@ + cut + end);
    assert(Seq::empty() + scale + (","@ + cut + end) =~= all);
    crate::text_laws::lemma_mentions(Seq::empty(), size, ",fps="@ + fps);
    assert(Seq::empty() + size + (",fps="@ + fps) =~= scale);
    crate::text_laws::lemma_mentions(size, ",fps="@ + fps, Seq::empty());
    assert(size + (",fps="@ + fps) + Seq::empty() =~= scale);
}

/// Sound is decoded from the file it is given, to one channel at the rate
/// asked for.
pub proof fn sound_is_decoded_at_its_rate(path: Seq<char>, rate: u32)
    ensures
        ({
            let args = crate::media::pcm_argv(path, rate);
            &&& gives(args, 0, 12, "-i"@, path)
            &&& gives(args, 0, 12, "-ac"@, "1"@)
            &&& gives(args, 0, 12, "-ar"@, crate::text::dec(rate as nat))
            &&& gives(args, 0, 12, "-f"@, "f32le"@)
            &&& args.contains("-vn"@)
            &&& args.last() == "-"@
        }),
{
    let args = crate::media::pcm_argv(path, rate);
    lemma_gives(args, 0, 12, 2);
    lemma_gives(args, 0, 12, 5);
    lemma_gives(args, 0, 12, 7);
    lemma_gives(args, 0, 12, 9);
    assert(args[4] == "-vn"@);
}

/// The four bytes of a sample are its word from the lowest byte up; what was
/// not read is silence.
pub proof fn samples_are_their_bytes(bytes: Seq<u8>, got: int, k: int)
    requires
        0 <= k,
        0 <= got <= bytes.len(),
    ensures
        ({
            let s = crate::media::sample_bits(bytes, got, k);
            &&& 4 * k + 4 <= got ==> {
                &&& s % 256 == bytes[4 * k]
                &&& s / 256 % 256 == bytes[4 * k + 1]
                &&& s / 65536 % 256 == bytes[4 * k + 2]
                &&& s / 16777216 == bytes[4 * k + 3]
            }
            &&& got <= 4 * k ==> s == 0
        }),
{
}

/// A rate is read as the fraction it was written as; one of nothing is none.
pub proof fn probed_rates_read_back(numerator: u32, denominator: u32)
    ensures
        crate::media::rate(
            crate::text::dec(numerator as nat) + "/"@ + crate::text::dec(denominator as nat),
        ) == (if numerator > 0 && denominator > 0 {
            Some(Rational { numerator, denominator })
        } else {
            None
        }),
{
    reveal_strlit("/");
    assert("/"@ =~= seq!['/']);
    crate::value_laws::lemma_numeral(numerator as nat, u32::MAX as nat);
    crate::value_laws::lemma_numeral(denominator as nat, u32::MAX as nat);
    let a = crate::text::dec(numerator as nat);
    let b = crate::text::dec(denominator as nat);
    assert forall|k: int| 0 <= k < a.len() implies #[trigger] a[k] != '/' by {
        assert(crate::text::is_digit(a[k]));
    }
    assert(crate::text::is_digit(a[0]) && crate::text::is_digit(a[a.len() - 1]));
    assert(crate::text::is_digit(b[0]) && crate::text::is_digit(b[b.len() - 1]));
    crate::value_laws::lemma_apart(a, '/', b);
}

/// Stream `i` is the first of its type.
pub open spec fn is_first(streams: Seq<ProbeStream>, i: int, what: Seq<char>) -> bool {
    &&& 0 <= i < streams.len()
    &&& is_of(streams[i], what)
    &&& forall|k: int| 0 <= k < i ==> !is_of(#[trigger] streams[k], what)
}

pub open spec fn is_of(s: ProbeStream, what: Seq<char>) -> bool {
    s.codec_type matches Some(t) && t@ == what
}

/// The text that was reported, or nothing.
pub open spec fn or_nothing(s: Option<String>, t: Seq<char>) -> bool {
    match s {
        Some(x) => x@ == t,
        None => t.len() == 0,
    }
}

proof fn lemma_first_of(streams: Seq<ProbeStream>, what: Seq<char>, from: int)
    requires
        0 <= from <= streams.len(),
    ensures
        ({
            let i = crate::media::first_of(streams, what, from);
            &&& from <= i <= streams.len()
            &&& i < streams.len() ==> is_of(streams[i], what)
            &&& forall|k: int| from <= k < i ==> !is_of(#[trigger] streams[k], what)
        }),
    decreases streams.len() - from,
{
    if from < streams.len() && !is_of(streams[from], what) {
        lemma_first_of(streams, what, from + 1);
    }
}

/// A report gives the size, codec, rate and pixel format of the first video
/// stream, and the codec, sample rate and channels of the first audio stream;
/// a file without such a stream has none. The duration is the container's
/// where it states one.
pub proof fn reports_are_of_the_first_streams(p: ProbeOutput)
    ensures
        ({
            let info = crate::media::report_info(p);
            let s = p.streams@;
            &&& match info.video {
                Some(v) => exists|i: int|
                    {
                        &&& #[trigger] is_first(s, i, "video"@)
                        &&& s[i].width is Some ==> Some(v.width) == s[i].width
                        &&& s[i].width is None ==> v.width == 0
                        &&& s[i].height is Some ==> Some(v.height) == s[i].height
                        &&& s[i].height is None ==> v.height == 0
                        &&& or_nothing(s[i].codec_name, v.codec)
                        &&& s[i].pix_fmt is Some ==> v.pixel_format == Some(s[i].pix_fmt->0@)
                        &&& s[i].pix_fmt is None ==> v.pixel_format is None
                        &&& v.frame_rate == match s[i].avg_frame_rate {
                            Some(t) if crate::media::rate(t@) is Some => crate::media::rate(t@),
                            _ => match s[i].r_frame_rate {
                                Some(t) => crate::media::rate(t@),
                                None => None,
                            },
                        }
                    },
                None => forall|i: int| 0 <= i < s.len() ==> !is_of(#[trigger] s[i], "video"@),
            }
            &&& match info.audio {
                Some(a) => exists|i: int|
                    {
                        &&& #[trigger] is_first(s, i, "audio"@)
                        &&& or_nothing(s[i].codec_name, a.codec)
                        &&& a.channels == s[i].channels
                        &&& s[i].sample_rate is None ==> a.sample_rate is None
                        &&& s[i].sample_rate matches Some(t) ==> forall|n: u32|
                            t@ == #[trigger] crate::text::dec(n as nat) ==> a.sample_rate == Some(
                                n,
                            )
                    },
                None => forall|i: int| 0 <= i < s.len() ==> !is_of(#[trigger] s[i], "audio"@),
            }
            &&& p.format is Some ==> or_nothing(p.format->0.format_name, info.format_name)
            &&& p.format matches Some(f) ==> (f.duration matches Some(t) ==> (
            crate::media::finite_number(t@) matches Some(v) ==> info.duration_s == v))
        }),
{
    let s = p.streams@;
    lemma_first_of(s, "video"@, 0);
    lemma_first_of(s, "audio"@, 0);
    let v = crate::media::first_of(s, "video"@, 0);
    let a = crate::media::first_of(s, "audio"@, 0);
    if v < s.len() {
        assert(is_first(s, v, "video"@));
    }
    if a < s.len() {
        assert(is_first(s, a, "audio"@));
        match s[a].sample_rate {
            Some(t) => {
                assert forall|n: u32| t@ == #[trigger] crate::text::dec(n as nat) implies
                    crate::media::stream_sample_rate(s[a]) == Some(n) by {
                    crate::value_laws::lemma_numeral(n as nat, u32::MAX as nat);
                    let d = crate::text::dec(n as nat);
                    assert(crate::text::is_digit(d[0]) && crate::text::is_digit(d[d.len() - 1]));
                }
            },
            None => {},
        }
    }
}

/// A stream states a finite duration.
pub open spec fn lasts(s: ProbeStream, v: NumberView) -> bool {
    s.duration matches Some(t) && crate::media::finite_number(t@) == Some(v)
}

/// Where the container states no duration, it is that of the longest stream:
/// one that a stream states, and none states more.
pub proof fn durations_are_the_longest(streams: Seq<ProbeStream>, n: int)
    requires
        0 <= n <= streams.len(),
    ensures
        match crate::media::longest(streams, n) {
            Some(v) => {
                &&& v is Finite
                &&& exists|i: int| 0 <= i < n && lasts(#[trigger] streams[i], v)
                &&& forall|i: int, d: NumberView|
                    0 <= i < n && #[trigger] lasts(streams[i], d) ==> !v.less(d)
            },
            None => forall|i: int, d: NumberView|
                0 <= i < n ==> !#[trigger] lasts(streams[i], d),
        },
    decreases n,
{
    if n > 0 {
        durations_are_the_longest(streams, n - 1);
        let s = streams[n - 1];
        match (crate::media::longest(streams, n - 1), crate::media::given_number(s.duration)) {
            (None, Some(v)) => {
                assert(lasts(streams[n - 1], v));
                crate::value_laws::order_is_total(v, v, v);
            },
            (Some(a), Some(v)) => {
                assert(lasts(streams[n - 1], v));
                crate::value_laws::order_is_total(a, v, v);
                crate::value_laws::order_is_total(v, a, a);
                let i = choose|i: int| 0 <= i < n - 1 && lasts(#[trigger] streams[i], a);
                assert(lasts(streams[i], a));
                if a.less(v) {
                    assert forall|i: int, d: NumberView|
                        0 <= i < n && #[trigger] lasts(streams[i], d) implies !v.less(d) by {
                        if i < n - 1 {
                            assert(!a.less(d));
                            crate::value_laws::order_is_total(a, v, d);
                            crate::value_laws::order_is_total(d, v, v);
                        }
                    }
                }
            },
            (Some(a), None) => {
                let i = choose|i: int| 0 <= i < n - 1 && lasts(#[trigger] streams[i], a);
                assert(lasts(streams[i], a));
            },
            (None, None) => {},
        }
    }
}

} // verus!
