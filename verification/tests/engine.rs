use scene_engine::adapt::Analysis;
use scene_engine::diagnostic::{has_errors, Diagnostic};
use scene_engine::engine::{
    adapt_summary, align_input, align_markers, align_start, align_whisperx, asset_files,
    asset_warnings, check_code, compile_and_report, confine_target, doctor, doctor_line,
    first_line_of, has_error_diagnostics, parse_frame_range, resolved_tracks_target, sample_of,
    stale_timing_warning, tool_state, version_arg, AlignInput, AlignStart, ToolState,
};
use scene_engine::align::{WxSegment, WxWord};
use scene_engine::lower::lower;
use scene_engine::media::MediaError;
use scene_engine::number::Number;
use scene_engine::parser::parse_document;
use scene_engine::paths::{Escapes, Part};
use scene_engine::process::{Exit, ProcOutput};
use scene_engine::project::{PROJECT_GITIGNORE, PROJECT_TOML, SCENE_TEMPLATE};
use scene_engine::scene::{script_fingerprint, Rational, Scene};
use scene_engine::timing::TimingMap;

#[test]
fn frames_accepts_range_and_single() {
    assert_eq!(parse_frame_range("0:60"), Some(0..60));
    assert_eq!(parse_frame_range("5"), Some(5..6));
    assert_eq!(parse_frame_range(" 10 "), Some(10..11));
    assert_eq!(parse_frame_range("5:5"), None); // empty range still rejected
    assert_eq!(parse_frame_range("9:5"), None);
    assert_eq!(parse_frame_range("x"), None);
    assert_eq!(parse_frame_range("1:x"), None);
    // u32::MAX must not wrap the implicit `n..n+1`.
    assert_eq!(parse_frame_range("4294967295"), None);
}

#[test]
fn doctor_uses_each_tools_own_version_flag() {
    assert_eq!(version_arg("ffmpeg"), "-version");
    assert_eq!(version_arg("ffprobe"), "-version");
    assert_eq!(version_arg("yt-dlp"), "--version");
    assert_eq!(version_arg("uv"), "--version");
}

fn run(success: bool, stdout: &str) -> Result<ProcOutput, MediaError> {
    Ok(ProcOutput {
        status: Exit { success, text: "exit status: 2".into() },
        stdout: stdout.as_bytes().to_vec(),
        stderr: Vec::new(),
    })
}

#[test]
fn the_tool_report_counts_what_is_missing() {
    let present = tool_state(run(true, "tool 1.2\nmore\n"));
    let broken = tool_state(run(false, "tool 1.2\n"));
    let absent = tool_state(Err(MediaError::NoVideoStream));
    assert!(matches!(&present, ToolState::Present(t) if t == "tool 1.2"));
    assert!(matches!(&broken, ToolState::Exits(s) if s == "exit status: 2"));
    assert!(matches!(absent, ToolState::Missing));
    let line = doctor_line("uv", "python", &present);
    assert!(line.starts_with("  ok      uv") && line.ends_with(" tool 1.2"), "{line}");
    assert!(doctor_line("uv", "python", &broken).ends_with("(python) — exits exit status: 2"));
    assert!(doctor_line("uv", "python", &absent).ends_with("(python)"));
    assert_eq!(doctor(&vec![tool_state(run(true, ""))]), ("all tools present".to_string(), 0));
    assert_eq!(
        doctor(&vec![present, broken, absent]),
        ("2 tool(s) missing — parsing still works; rendering needs them".to_string(), 1)
    );
    assert_eq!(first_line_of("a\r\nb"), "a");
    assert_eq!(first_line_of(""), "");
}

fn scene_with_script(text: &str) -> Scene {
    let src = format!(
        r##"<scene canvas="1x1" fps="30">
  <track id="voice" kind="audio"><sound src="n.wav" during="hook"/></track>
  <script track="voice"><line id="hook">{text}</line></script>
</scene>"##
    );
    let doc = parse_document(&src).unwrap();
    let (scene, diags) = lower(&doc);
    assert!(!has_errors(&diags), "{diags:?}");
    scene.unwrap()
}

#[test]
fn stale_timing_fingerprint_warns() {
    // Timings aligned to "Hello." must not silently serve a scene whose hook
    // now says different words.
    let scene = scene_with_script("Hello.");
    let mut timings = TimingMap {
        script_hash: Some(script_fingerprint(scene.script.as_ref().unwrap())),
        sources: Vec::new(),
    };
    assert!(stale_timing_warning(&scene, &timings).is_none());

    let edited = scene_with_script("Totally different words.");
    let warning = stale_timing_warning(&edited, &timings);
    assert!(warning.is_some(), "edited script must trip the fingerprint check");
    assert!(!warning.unwrap().is_error());
    // No fingerprint at all: nothing to compare, no warning.
    timings.script_hash = None;
    assert!(stale_timing_warning(&edited, &timings).is_none());
    // No script: nothing stale can exist.
    let mut bare = scene_with_script("x");
    bare.script = None;
    assert!(stale_timing_warning(&bare, &timings).is_none());
}

#[test]
fn check_reads_stdin() {
    let (scene, bundle) = compile_and_report("<stdin>", "<scene canvas=\"1x1\" fps=\"30\"/>");
    assert!(scene.is_some());
    assert_eq!(bundle.name, "<stdin>");
    assert_eq!(check_code(&bundle.diags), 0);
    assert!(has_error_diagnostics("<scene/>"));
    assert!(!has_error_diagnostics("<scene canvas=\"1x1\" fps=\"30\"/>"));
    assert_eq!(check_code(&[Diagnostic::error("e".to_string(), None)]), 1);
}

#[test]
fn init_scaffolds_a_project() {
    let (scene, bundle) = compile_and_report("main.scene", SCENE_TEMPLATE);
    assert!(scene.is_some(), "{:?}", bundle.diags);
    assert_eq!(check_code(&bundle.diags), 0);
    assert!(PROJECT_TOML.parse::<toml::Table>().is_ok());
    assert!(PROJECT_GITIGNORE.lines().any(|l| l.contains("out")));
}

#[test]
fn missing_files_warn_and_urls_do_not() {
    let source = r#"<scene canvas="1x1" fps="30">
  <track kind="visual">
    <clip src="a.mp4" during="0s..1s"/>
    <image src="https://x.org/b.png" during="0s..1s"/>
  </track>
  <render target="out/final.mp4"/>
</scene>"#;
    let (scene, _) = compile_and_report("m", source);
    let scene = scene.unwrap();
    assert_eq!(asset_files(&scene), ["a.mp4"]);
    assert!(asset_warnings(&scene, &vec![true]).is_empty());
    let warnings = asset_warnings(&scene, &vec![false]);
    assert_eq!(warnings.len(), 1);
    assert!(!warnings[0].is_error());
    assert!(warnings[0].message.contains("a.mp4"));
    assert_eq!(resolved_tracks_target(&scene), Some("out/final.mp4"));
}

#[test]
fn samples_follow_the_frame_rate() {
    assert_eq!(sample_of(30, &Rational { numerator: 30, denominator: 1 }), 48_000);
    assert_eq!(sample_of(1, &Rational { numerator: 24, denominator: 1 }), 2_000);
    assert_eq!(sample_of(30_000, &Rational { numerator: 30_000, denominator: 1001 }), 48_048_000);
    assert_eq!(sample_of(0, &Rational { numerator: 30, denominator: 1 }), 0);
}

#[test]
fn escaping_targets_are_refused() {
    let ok = vec![Part::Anchor("/".into()), Part::Name("p".into())];
    assert_eq!(confine_target(Ok(ok)).unwrap().len(), 2);
    let refused = confine_target(Err(Escapes {
        rel: vec![Part::Up, Part::Name("x.mp4".into())],
        resolved: vec![Part::Anchor("/".into()), Part::Name("x.mp4".into())],
        root: vec![Part::Anchor("/".into()), Part::Name("p".into())],
    }));
    assert_eq!(
        refused.unwrap_err(),
        "render target `../x.mp4` escapes the project root (must land under /p)"
    );
}

const SCRIPTED: &str = r#"<scene canvas="1x1" fps="30">
  <track id="voice" kind="audio"><sound src="n.wav" during="hook"/></track>
  <script track="voice"><line id="hook">one two</line></script>
</scene>"#;

#[test]
fn alignment_needs_a_script() {
    let (bundle, start) = align_start("m.scene", "<scene canvas=\"1x1\" fps=\"30\"/>");
    assert_eq!(bundle.name, "m.scene");
    assert!(
        matches!(start, AlignStart::NoScript(m) if m == "m.scene has no <script> — nothing to align")
    );
    assert!(matches!(align_start("m.scene", "<scene/>").1, AlignStart::Failed));
    assert!(matches!(align_start("m.scene", SCRIPTED).1, AlignStart::Ready(s) if s.track == "voice"));
    assert_eq!(align_input(true, false).unwrap(), AlignInput::Markers);
    assert_eq!(align_input(false, true).unwrap(), AlignInput::Whisperx);
    assert!(align_input(true, true).is_err());
    assert!(align_input(false, false).is_err());
}

#[test]
fn alignment_reports_into_the_file_at_fault() {
    let script = match align_start("m.scene", SCRIPTED).1 {
        AlignStart::Ready(script) => script,
        other => panic!("{other:?}"),
    };
    let (bundles, map) = align_markers("m.scene", SCRIPTED, &script, "cues.txt", "hook 0 1\n");
    assert!(bundles.iter().all(|b| b.diags.is_empty()));
    assert_eq!(bundles[0].name, "cues.txt");
    let map = map.unwrap();
    assert_eq!(map.sources[0].1.lines[0].words.len(), 2);
    let (bundles, map) = align_markers("m.scene", SCRIPTED, &script, "cues.txt", "hook 0\n");
    assert!(map.is_none());
    assert_eq!(bundles.len(), 1);
    assert!(has_errors(&bundles[0].diags));
    let word = WxWord {
        word: Some("one".into()),
        start: Number::parse("0.5"),
        end: Number::parse("0.75"),
    };
    let segments = vec![WxSegment { words: vec![word] }];
    let (bundle, map) =
        align_whisperx("m.scene", SCRIPTED, &script, "w.json", Ok(segments)).unwrap();
    assert!(bundle.diags.is_empty(), "{:?}", bundle.diags);
    assert_eq!(map.sources[0].1.lines[0].words[0].text, "one");
    let failed = align_whisperx("m.scene", SCRIPTED, &script, "w.json", Err("eof".into()));
    assert_eq!(failed.unwrap_err(), "bad whisperx file w.json: eof");
}

#[test]
fn an_adaptation_is_summed_up() {
    let a = Analysis {
        path: "c.mp4".into(),
        duration_us: 9_000_000,
        width: 64,
        height: 36,
        fps: None,
        has_audio: false,
        cuts_us: vec![2_000_000],
    };
    let line = adapt_summary("c.mp4", "9.00", &a);
    assert!(line.starts_with("adapt: c.mp4 — 9.00s 64x36, 1 cut(s)"), "{line}");
}

#[test]
fn check_fails_with_span_diagnostics() {
    let source = r#"<scene canvas="64x64" fps="30">
  <track id="voice" kind="audio"><sound src="n.wav" during="hook..missing"/></track>
  <script track="voice"><line id="hook">one two</line></script>
  <track kind="visual"><florp during="hook"/></track>
</scene>"#;
    let (scene, bundle) = compile_and_report("bad.scene", source);
    assert!(scene.is_none());
    assert_eq!(check_code(&bundle.diags), 1);
    for part in ["unknown cue `missing`", "unknown element <florp>"] {
        let found = bundle.diags.iter().find(|d| d.message.contains(part)).expect(part);
        assert!(found.is_error());
        assert!(found.span.is_some());
    }
}

#[test]
fn check_passes_on_the_minimal_example() {
    let source = r##"<scene canvas="1080x1920" fps="30" clear="#0e0e12">
  <script track="voice">
    <line id="hook">Nobody talks about the third rule.</line>
    <line id="payoff">Compound interest is a treadmill.</line>
  </script>
  <track id="voice" kind="audio">
    <sound src="assets/voice.wav" during="hook..payoff"/>
  </track>
  <track kind="visual" anchor="voice">
    <captions anchor="voice.words"/>
    <board during="payoff" at="center" anim="rise">
      <text bind="payoff.text"/>
    </board>
    <program src="assets/progress.js" with='{"seconds": 6}'/>
  </track>
  <track kind="audio">
    <music src="assets/bed.mp3" gain="-14dB" duck="voice" during="hook..payoff"/>
  </track>
  <render target="out/final.mp4"/>
</scene>"##;
    let (scene, bundle) = compile_and_report("minimal.scene", source);
    let scene = scene.unwrap();
    // Missing referenced assets are warnings, not errors.
    let mut diags = bundle.diags;
    let files = asset_files(&scene);
    assert_eq!(files, ["assets/voice.wav", "assets/progress.js", "assets/bed.mp3"]);
    diags.extend(asset_warnings(&scene, &vec![false; files.len()]));
    assert_eq!(diags.len(), 3, "{diags:?}");
    assert_eq!(check_code(&diags), 0);
}
