use scene_engine::media::{
    decode_args, encode_args, frame_len, frame_read, open_encoder, open_pcm, parse_probe_json,
    parse_rate, pcm_samples, scaled_filter, window_args, Frame, FrameRead, MediaError, MediaInfo,
    ProbeFormat, ProbeOutput, ProbeStream, Tool, WindowText, MAX_FRAME,
};
use scene_engine::number::Number;
use scene_engine::scene::Rational;

fn num(text: &str) -> Number {
    Number::parse(text).unwrap()
}

fn text(v: &serde_json::Value) -> Option<String> {
    v.as_str().map(|t| t.to_string())
}

fn small(v: &serde_json::Value) -> Option<u32> {
    v.as_u64().map(|n| n as u32)
}

fn report(json: &str) -> Result<ProbeOutput, String> {
    let v: serde_json::Value = serde_json::from_str(json).map_err(|e| e.to_string())?;
    let streams = v["streams"].as_array().map(|list| list.as_slice()).unwrap_or(&[]);
    Ok(ProbeOutput {
        streams: streams
            .iter()
            .map(|s| ProbeStream {
                codec_type: text(&s["codec_type"]),
                codec_name: text(&s["codec_name"]),
                width: small(&s["width"]),
                height: small(&s["height"]),
                avg_frame_rate: text(&s["avg_frame_rate"]),
                r_frame_rate: text(&s["r_frame_rate"]),
                pix_fmt: text(&s["pix_fmt"]),
                sample_rate: text(&s["sample_rate"]),
                channels: small(&s["channels"]),
                duration: text(&s["duration"]),
            })
            .collect(),
        format: v["format"].as_object().map(|f| ProbeFormat {
            format_name: f.get("format_name").and_then(text),
            duration: f.get("duration").and_then(text),
        }),
    })
}

fn probe(json: &str) -> Result<MediaInfo, MediaError> {
    parse_probe_json(report(json))
}

const MP4_H264_AAC: &str = r#"{
        "streams": [
            {
                "codec_name": "h264", "codec_type": "video",
                "width": 1920, "height": 1080, "pix_fmt": "yuv420p",
                "r_frame_rate": "30/1", "avg_frame_rate": "30/1",
                "duration": "3.033333"
            },
            {
                "codec_name": "aac", "codec_type": "audio",
                "sample_rate": "48000", "channels": 2,
                "duration": "3.04"
            }
        ],
        "format": { "format_name": "mov,mp4,m4a,3gp,3g2,mj2", "duration": "3.045" }
    }"#;

#[test]
fn mp4_with_audio() {
    let info = probe(MP4_H264_AAC).unwrap();
    assert_eq!(info.duration_s, num("3.045"));
    assert_eq!(info.format_name, "mov,mp4,m4a,3gp,3g2,mj2");
    let v = info.video.unwrap();
    assert_eq!((v.width, v.height), (1920, 1080));
    assert_eq!(v.codec, "h264");
    assert_eq!(
        v.frame_rate,
        Some(Rational {
            numerator: 30,
            denominator: 1
        })
    );
    let a = info.audio.unwrap();
    assert_eq!(a.codec, "aac");
    assert_eq!(a.sample_rate, Some(48000));
    assert_eq!(a.channels, Some(2));
}

#[test]
fn still_image_zero_rate() {
    // PNGs report "0/0": no rate
    let json = r#"{
            "streams": [{
                "codec_name": "png", "codec_type": "video",
                "width": 640, "height": 480,
                "avg_frame_rate": "0/0", "r_frame_rate": "25/1"
            }],
            "format": {"format_name": "image2", "duration": "0.04"}
        }"#;
    let info = probe(json).unwrap();
    // avg is 0/0 → falls back to r_frame_rate 25/1
    assert_eq!(
        info.video.unwrap().frame_rate,
        Some(Rational {
            numerator: 25,
            denominator: 1
        })
    );
}

#[test]
fn ntsc_rate_preserved() {
    let json = r#"{
            "streams": [{
                "codec_name": "h264", "codec_type": "video",
                "width": 1280, "height": 720,
                "avg_frame_rate": "30000/1001", "r_frame_rate": "30000/1001"
            }],
            "format": {"format_name": "mov", "duration": "10.01"}
        }"#;
    let info = probe(json).unwrap();
    assert_eq!(
        info.video.unwrap().frame_rate,
        Some(Rational {
            numerator: 30000,
            denominator: 1001
        })
    );
}

#[test]
fn audio_only() {
    let json = r#"{
            "streams": [{
                "codec_name": "mp3", "codec_type": "audio",
                "sample_rate": "44100", "channels": 2, "duration": "61.2"
            }],
            "format": {"format_name": "mp3", "duration": "61.2"}
        }"#;
    let info = probe(json).unwrap();
    assert!(info.video.is_none());
    assert_eq!(info.audio.unwrap().sample_rate, Some(44100));
    assert_eq!(info.duration_s, num("61.2"));
}

#[test]
fn missing_format_duration_falls_back_to_stream() {
    let json = r#"{
            "streams": [{
                "codec_name": "vp9", "codec_type": "video",
                "width": 320, "height": 240,
                "avg_frame_rate": "30/1", "duration": "7.5"
            }],
            "format": {"format_name": "matroska,webm"}
        }"#;
    let info = probe(json).unwrap();
    assert_eq!(info.duration_s, num("7.5"));
}

#[test]
fn empty_streams_is_not_an_error() {
    let info = probe(r#"{"streams": [], "format": {"format_name": "x"}}"#).unwrap();
    assert!(info.video.is_none());
    assert!(info.audio.is_none());
    assert_eq!(info.duration_s, num("0.0"));
}

#[test]
fn garbage_is_a_parse_error() {
    assert!(matches!(
        probe("not json"),
        Err(MediaError::ProbeParse(_))
    ));
}

fn fps(n: u32, d: u32) -> Rational {
    Rational {
        numerator: n,
        denominator: d,
    }
}

#[test]
fn odd_dimensions_rejected_before_spawn() {
    for (w, h) in [(63, 36), (64, 35), (1, 1)] {
        match open_encoder("x.mp4", w, h, &fps(30, 1), None) {
            Err(e) => assert!(e.message().contains("even"), "{w}x{h}: {e:?}"),
            Ok(_) => panic!("{w}x{h} should be rejected"),
        }
    }
}

#[test]
fn args_carry_stream_shape_and_color() {
    let args = encode_args("o.mp4", 64, 36, &fps(30000, 1001), None);
    let pairs: Vec<(&str, &str)> = args
        .windows(2)
        .filter_map(|w| (w[0].starts_with('-')).then_some((w[0].as_str(), w[1].as_str())))
        .collect();
    let get = |flag: &str| pairs.iter().find(|(f, _)| *f == flag).map(|(_, v)| *v);
    assert_eq!(get("-f"), Some("rawvideo"));
    assert_eq!(get("-s"), Some("64x36"));
    // Rational fps reaches ffmpeg unquantized; NTSC stays exact.
    assert_eq!(get("-r"), Some("30000/1001"));
    assert_eq!(get("-c:v"), Some("libx264"));
    assert_eq!(args.last().map(String::as_str), Some("o.mp4"));
    assert!(args.iter().any(|a| a == "-an"), "silent program, no audio");
    for flag in ["-colorspace", "-color_primaries", "-color_trc"] {
        assert_eq!(get(flag), Some("bt709"), "{flag}");
    }
}

#[test]
fn muxed_args_map_both_inputs() {
    let args = encode_args(
        "o.mp4",
        64,
        36,
        &fps(30, 1),
        Some("mix.wav"),
    );
    let pos = |flag: &str| args.iter().position(|a| a == flag).unwrap();
    // two inputs: stdin rawvideo first, wav second
    assert_eq!(args.iter().filter(|a| *a == "-i").count(), 2);
    assert_eq!(args[pos("-i") + 1], "-");
    assert!(args.iter().any(|a| a == "mix.wav"));
    assert!(!args.iter().any(|a| a == "-an"), "muxed keeps audio");
    assert!(args.windows(2).any(|w| w == ["-map", "0:v:0"]));
    assert!(args.windows(2).any(|w| w == ["-map", "1:a:0"]));
    assert!(args.windows(2).any(|w| w == ["-c:a", "aac"]));
    assert!(args.iter().any(|a| a == "-shortest"));
    assert_eq!(args.last().map(String::as_str), Some("o.mp4"));
}

#[test]
fn rates_are_positive_fractions() {
    assert_eq!(parse_rate("30000/1001"), Some(fps(30000, 1001)));
    assert_eq!(parse_rate(" 25 / 1 "), Some(fps(25, 1)));
    assert_eq!(parse_rate("0/0"), None);
    assert_eq!(parse_rate("30"), None);
    assert_eq!(parse_rate("30/x"), None);
}

#[test]
fn media_errors_in_words() {
    let failed = MediaError::Failed {
        tool: Tool::Ffmpeg.name().into(),
        status: "exit status: 1".into(),
        stderr: "bad".into(),
    };
    assert_eq!(failed.message(), "ffmpeg exited with exit status: 1: bad");
    let spawn = MediaError::Spawn { tool: Tool::Ffprobe.name().into(), source: "gone".into() };
    assert_eq!(spawn.message(), "could not run ffprobe: gone");
    assert_eq!(MediaError::NoVideoStream.message(), "media has no video stream");
    assert_eq!(
        MediaError::ProbeParse("eof".into()).message(),
        "could not parse ffprobe output: eof"
    );
    let short = MediaError::ShortFrame { expected: 16, got: 3 }.message();
    assert!(short.contains("16") && short.contains("3"), "{short}");
    let late = MediaError::TimedOut { tool: "curl".into(), limit_ms: 1_500 }.message();
    assert!(late.contains("curl"), "{late}");
    assert_eq!(MediaError::Io("disk".into()).message(), "disk");
}

#[test]
fn frames_have_four_bytes_a_pixel() {
    assert_eq!(Frame::byte_len(64, 36), 9216);
    assert_eq!(frame_len(64, 36, true).unwrap(), 9216);
    assert!(frame_len(0, 36, true).is_err());
    assert!(frame_len(65_536, 65_536, true).is_err());
    assert!(matches!(frame_len(64, 36, false), Err(MediaError::NoVideoStream)));
    // Exactly a gibibyte is still allowed.
    assert_eq!(frame_len(16_384, 16_384, true).unwrap() as u64, MAX_FRAME);
    assert_eq!(frame_read(16, 16), FrameRead::Whole);
    assert_eq!(frame_read(16, 0), FrameRead::End);
    assert_eq!(frame_read(16, 3), FrameRead::Short);
}

#[test]
fn a_decode_window_is_cut_on_the_frame_grid() {
    let window = Some(WindowText {
        seek: "1.000000".into(),
        stop: "2.500000".into(),
        start_pts: "30".into(),
        end_pts: "60".into(),
    });
    let filter = scaled_filter(64, 36, "30/1", &window);
    assert_eq!(
        filter,
        "scale=64:36,fps=30/1,trim=start_pts=30:end_pts=60,setpts=PTS-STARTPTS"
    );
    assert_eq!(scaled_filter(64, 36, "30/1", &None), "scale=64:36,fps=30/1");
    let pre = window_args(&window);
    assert_eq!(pre, ["-copyts", "-start_at_zero", "-ss", "1.000000", "-to", "2.500000"]);
    let args = decode_args("v.mp4", &pre, Some(&filter));
    assert_eq!(&args[..2], ["-v", "error"]);
    assert_eq!(&args[2..8], pre.as_slice());
    assert!(args.windows(2).any(|w| w == ["-i", "v.mp4"]));
    assert!(args.windows(2).any(|w| w[0] == "-vf" && w[1] == filter));
    assert_eq!(&args[args.len() - 5..], ["-f", "rawvideo", "-pix_fmt", "rgba", "-"]);
}

#[test]
fn pcm_is_padded_to_the_hop() {
    let bytes = vec![1, 2, 3, 4, 5, 6, 0, 0];
    assert_eq!(pcm_samples(&bytes, 8, 2), vec![0x04030201, 0x00000605]);
    assert_eq!(pcm_samples(&bytes, 4, 3), vec![0x04030201, 0, 0]);
    let args = open_pcm("v.mp4", true, 48_000, 1024).unwrap().unwrap();
    assert!(args.windows(2).any(|w| w == ["-i", "v.mp4"]));
    assert!(args.iter().any(|a| a == "f32le"));
    assert!(open_pcm("v.mp4", false, 0, 0).unwrap().is_none());
    assert!(open_pcm("v.mp4", true, 0, 1024).is_err());
    assert!(open_pcm("v.mp4", true, 48_000, 0).is_err());
}
