use scene_engine::adapt::{
    analyze, emit_scene, fetch_args, fetched_file, fetched_name, find_cuts, ingest_local,
    looks_like_url, printed_name, AdaptError, Analysis,
};
use scene_engine::diagnostic::Severity;
use scene_engine::lower::lower;
use scene_engine::media::{AudioInfo, MediaError, MediaInfo, VideoInfo};
use scene_engine::number::Number;
use scene_engine::parser::parse_document;
use scene_engine::process::{Exit, ProcOutput};
use scene_engine::scene::{ElementKind, Rational, Scene};
use scene_engine::shots::{detect_cuts, frame_diff, sort, Mean};

fn micros(seconds: f64) -> i64 {
    (seconds * 1e6) as i64
}

fn mean(m: Mean) -> f64 {
    m.sum as f64 / m.count as f64
}

/// Cut times in seconds of scores sampled at 4 frames per second, with shots
/// of at least half a second.
fn detect(scores: &[f64]) -> Vec<f64> {
    let fixed: Vec<u64> = scores.iter().map(|s| (s * 1000.0) as u64).collect();
    let frames = detect_cuts(&fixed, 1000, Rational { numerator: 4, denominator: 1 }, 500);
    frames.iter().map(|f| *f as f64 / 4.0).collect()
}

fn analysis(cuts: &[f64], has_audio: bool) -> Analysis {
    Analysis {
        path: "clip.mp4".into(),
        duration_us: micros(9.0) as u64,
        width: 1920,
        height: 1080,
        fps: Some((30, 1)),
        has_audio,
        cuts_us: cuts.iter().map(|c| micros(*c)).collect(),
    }
}

#[test]
fn diff_identical_is_zero_opposite_is_max() {
    let a = vec![0u8; 64];
    assert_eq!(frame_diff(&a, &a).map(mean), Some(0.0));
    let b = vec![255u8; 64];
    assert_eq!(frame_diff(&a, &b).map(mean), Some(255.0));
    // Half the bytes differ by 2 → mean 1.0.
    let mut c = a.clone();
    for x in &mut c[..32] {
        *x = 2;
    }
    assert_eq!(frame_diff(&a, &c).map(mean), Some(1.0));
    assert_eq!(frame_diff(&a, &[]).map(mean), None);
    assert_eq!(frame_diff(&a, &a[..32]).map(mean), None);
}

#[test]
fn flat_scores_never_cut() {
    let scores = vec![1.0; 40];
    assert!(detect(&scores).is_empty());
}

#[test]
fn a_spike_is_a_cut_at_its_frame_time() {
    let mut scores = vec![1.0; 40];
    scores[7] = 60.0; // compares frame 7 → 8
    scores[23] = 55.0; // frame 24
    let cuts = detect(&scores);
    assert_eq!(cuts, vec![2.0, 6.0]);
}

#[test]
fn cuts_respect_min_shot_spacing() {
    let mut scores = vec![1.0; 40];
    scores[7] = 60.0; // t=2.0
    scores[8] = 50.0; // t=2.25; 1 frame later, inside 0.5s gap
    scores[20] = 55.0; // t=5.25, well past
    let cuts = detect(&scores);
    // Second spike merges into the first; stronger one wins (60 > 50
    // keeps t=2.0), then 5.25 stands alone.
    assert_eq!(cuts, vec![2.0, 5.25]);
}

#[test]
fn weaker_first_spike_yields_to_stronger_neighbor() {
    let mut scores = vec![1.0; 40];
    scores[7] = 50.0; // t=2.0
    scores[8] = 70.0; // t=2.25, stronger; should replace
    let cuts = detect(&scores);
    assert_eq!(cuts, vec![2.25]);
}

#[test]
fn adaptive_threshold_tolerates_bumpy_footage() {
    // Noisy baseline (mean ~5, some variance) but no real spike.
    let scores: Vec<f64> = (0..40).map(|i| 4.0 + (i % 5) as f64).collect();
    assert!(detect(&scores).is_empty());
}

/// Whatever emit produces must survive our own parser and lowerer with zero
/// errors.
fn lower_emitted(markup: &str) -> (Option<Scene>, Vec<String>) {
    let doc = match parse_document(markup) {
        Ok(doc) => doc,
        Err(d) => return (None, vec![d.message]),
    };
    let (scene, lower_diags) = lower(&doc);
    let msgs = lower_diags
        .iter()
        .filter(|d| d.severity == Severity::Error)
        .map(|d| d.message.clone())
        .collect();
    (scene, msgs)
}

#[test]
fn emitted_scene_lowers_clean() {
    let a = analysis(&[2.0, 5.25], true);
    let (scene, errors) = lower_emitted(&emit_scene("assets/clip.mp4", &a));
    assert!(errors.is_empty(), "errors: {errors:?}");
    let scene = scene.expect("lowered");
    // clip + 3 shot boards on the visual track; music on audio track.
    let visual = &scene.tracks[0].elements;
    assert_eq!(visual.len(), 4);
    assert!(
        matches!(visual[0].kind, ElementKind::Clip { .. }),
        "first element is the clip"
    );
    assert!(
        scene.tracks[1]
            .elements
            .iter()
            .any(|e| matches!(e.kind, ElementKind::Music { .. }))
    );
}

#[test]
fn emitted_no_audio_no_cuts_still_lowers() {
    let a = analysis(&[], false);
    let (scene, errors) = lower_emitted(&emit_scene("v.mp4", &a));
    assert!(errors.is_empty(), "errors: {errors:?}");
    let scene = scene.unwrap();
    assert_eq!(scene.tracks.len(), 1); // visual only
}

#[test]
fn src_path_is_escaped() {
    let a = analysis(&[], false);
    let markup = emit_scene("a&b\"c.mp4", &a);
    assert!(markup.contains("a&amp;b&quot;c.mp4"));
    let (_, errors) = lower_emitted(&markup);
    assert!(errors.is_empty());
}

#[test]
fn source_fps_carries_through_to_the_draft() {
    // NTSC 29.97 stays an exact rational.
    let mut a = analysis(&[], false);
    a.fps = Some((30000, 1001));
    let markup = emit_scene("v.mp4", &a);
    assert!(markup.contains("fps=\"30000/1001\""), "{markup}");
    let (scene, errors) = lower_emitted(&markup);
    assert!(errors.is_empty(), "{errors:?}");
    let rate = scene.unwrap().frame_rate;
    assert_eq!((rate.numerator, rate.denominator), (30000, 1001));

    // 24fps source → 24fps scene.
    a.fps = Some((24, 1));
    assert!(emit_scene("v.mp4", &a).contains("fps=\"24/1\""));

    // Unknown rate falls back to 30.
    a.fps = None;
    assert!(emit_scene("v.mp4", &a).contains("fps=\"30\""));
}

#[test]
fn unsorted_and_out_of_range_cuts_are_normalized() {
    // Analysis contract violations must not silently drop boards.
    let a = analysis(&[7.0, 2.0, 2.0, -1.0, 9.0, 12.0, f64::NAN], true);
    let (scene, errors) = lower_emitted(&emit_scene("v.mp4", &a));
    assert!(errors.is_empty(), "errors: {errors:?}");
    let scene = scene.unwrap();
    // clip + boards for shots [0..2], [2..7], [7..9]; the -1/9/12/NaN
    // cuts normalize away (9 == dur duplicates the pushed boundary).
    let boards = scene.tracks[0]
        .elements
        .iter()
        .filter(|e| matches!(e.kind, ElementKind::Board))
        .count();
    assert_eq!(boards, 3);
}

#[test]
fn a_draft_is_this_text() {
    let a = analysis(&[2.0], true);
    let wanted = "<scene canvas=\"1920x1080\" fps=\"30/1\" clear=\"#000\">\n  \
<track kind=\"visual\">\n    \
<clip src=\"v.mp4\" during=\"0s..9.000s\"/>\n    \
<board during=\"0.000s..2.000s\" at=\"bottom\" anim=\"rise\">\n      <text>Shot 1</text>\n    </board>\n    \
<board during=\"2.000s..9.000s\" at=\"bottom\" anim=\"rise\">\n      <text>Shot 2</text>\n    </board>\n  \
</track>\n  \
<track kind=\"audio\">\n    \
<music src=\"v.mp4\" during=\"0s..9.000s\"/>\n  \
</track>\n  \
<render target=\"out/adapted.mp4\"/>\n</scene>\n";
    assert_eq!(emit_scene("v.mp4", &a), wanted);
}

#[test]
fn cuts_stay_inside_the_program() {
    let mut scores = vec![1_000u64; 40];
    scores[7] = 60_000;
    scores[23] = 55_000;
    assert_eq!(find_cuts(&scores, 1000, 10_000_000), vec![2_000_000, 6_000_000]);
    // A cut at or past the end is none.
    assert_eq!(find_cuts(&scores, 1000, 6_000_000), vec![2_000_000]);
    assert_eq!(sort(&vec![3, 1, 2, 1]), vec![1, 1, 2, 3]);
}

fn info(video: bool, audio: bool) -> MediaInfo {
    MediaInfo {
        duration_s: Number::parse("10").unwrap(),
        format_name: "mov".into(),
        video: if video {
            Some(VideoInfo {
                width: 64,
                height: 36,
                codec: "h264".into(),
                frame_rate: Some(Rational { numerator: 25, denominator: 1 }),
                pixel_format: None,
            })
        } else {
            None
        },
        audio: if audio {
            Some(AudioInfo { codec: "aac".into(), sample_rate: Some(48_000), channels: Some(2) })
        } else {
            None
        },
    }
}

#[test]
fn an_analysis_needs_a_video_stream() {
    let mut scores = vec![1_000u64; 40];
    scores[7] = 60_000;
    let a = analyze("c.mp4", &info(true, true), 10_000_000, &scores, 1000).unwrap();
    assert_eq!((a.path.as_str(), a.width, a.height), ("c.mp4", 64, 36));
    assert_eq!((a.fps, a.has_audio, a.duration_us), (Some((25, 1)), true, 10_000_000));
    assert_eq!(a.cuts_us, vec![2_000_000]);
    let e = analyze("c.mp4", &info(false, true), 10_000_000, &scores, 1000).unwrap_err();
    assert!(matches!(e, AdaptError::Media(MediaError::NoVideoStream)));
}

fn run(success: bool, stdout: &[u8], stderr: &[u8]) -> Result<ProcOutput, String> {
    Ok(ProcOutput {
        status: Exit { success, text: "exit status: 1".into() },
        stdout: stdout.to_vec(),
        stderr: stderr.to_vec(),
    })
}

#[test]
fn sources_are_files_or_urls() {
    assert!(looks_like_url("https://x.org/v"));
    assert!(looks_like_url("http://x.org/v"));
    assert!(!looks_like_url("ftp://x.org/v"));
    assert!(!looks_like_url("clip.mp4"));
    assert_eq!(ingest_local("clip.mp4", true).unwrap().path, "clip.mp4");
    assert_eq!(
        ingest_local("clip.mp4", false).unwrap_err().message(),
        "ingest failed: no such file (and not a URL): clip.mp4"
    );
    assert_eq!(
        fetch_args("/d/%(id)s.%(ext)s", "https://x.org/v"),
        [
            "-f",
            "best[ext=mp4]/best",
            "--no-playlist",
            "-o",
            "/d/%(id)s.%(ext)s",
            "--print",
            "after_move:filepath",
            "https://x.org/v",
        ]
    );
}

#[test]
fn a_fetch_prints_its_file_last() {
    let name = fetched_name(run(true, b"note\n/d/a.mp4\n", b"")).unwrap();
    assert_eq!(name.as_deref(), Some("/d/a.mp4"));
    assert_eq!(printed_name("a\n  \n"), None);
    assert_eq!(printed_name(""), None);
    let file = fetched_file(name, true).unwrap();
    assert!(file.fetched);
    assert_eq!(file.path, "/d/a.mp4");
    for (name, there) in [(None, true), (Some("x".to_string()), false)] {
        assert_eq!(
            fetched_file(name, there).unwrap_err().message(),
            "ingest failed: yt-dlp succeeded but reported no output file"
        );
    }
    // Bytes that are no UTF-8 become replacement characters.
    let name = fetched_name(run(true, b"a\xffb.mp4\n", b"")).unwrap();
    assert_eq!(name.as_deref(), Some("a\u{fffd}b.mp4"));
}

#[test]
fn a_failed_fetch_says_why() {
    assert_eq!(
        fetched_name(run(false, b"", b" no video \n")).unwrap_err().message(),
        "ingest failed: yt-dlp exited with exit status: 1: no video"
    );
    assert_eq!(
        fetched_name(Err("not found".into())).unwrap_err().message(),
        "ingest failed: could not run yt-dlp: not found"
    );
    assert_eq!(AdaptError::Io("disk full".into()).message(), "disk full");
}
