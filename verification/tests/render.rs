use scene_engine::diagnostic::Diagnostic;
use scene_engine::number::Number;
use scene_engine::paths::{Escapes, Part};
use scene_engine::render::{encode_failed, render_source, Aimed, Checked, RenderError, Target};
use scene_engine::resolved::{
    FrameRange, ResolvedElement, ResolvedScene, ResolvedTiming, ResolvedTrack, SampleRange,
};
use scene_engine::scene::{Canvas, Color, ElementKind, Rational, TrackKind};
use scene_engine::span::Span;
use scene_engine::timing::TimingMap;

const SOURCE: &str = r#"<scene canvas="2x2" fps="30">
  <track id="voice" kind="audio"><sound src="n.wav" during="0s..2s"/></track>
  <track kind="visual"><image src="i.png" during="0s..2s"/></track>
  <render target="out/final.mp4"/>
</scene>"#;

fn timing(start: u32, end: u32) -> ResolvedTiming {
    ResolvedTiming {
        frames: FrameRange { start, end },
        samples: SampleRange { start: u64::from(start) * 1600, end: u64::from(end) * 1600 },
    }
}

fn resolved() -> ResolvedScene {
    ResolvedScene {
        canvas: Canvas { width: 2, height: 2 },
        frame_rate: Rational { numerator: 30, denominator: 1 },
        clear: Color::black(),
        script: None,
        program: timing(0, 60),
        tracks: vec![ResolvedTrack {
            id: "voice".into(),
            kind: TrackKind::Audio,
            anchor: None,
            elements: vec![ResolvedElement {
                id: None,
                kind: ElementKind::Sound {
                    src: "n.wav".into(),
                    gain_db: Number::parse("0").unwrap(),
                    from_s: Number::parse("0").unwrap(),
                },
                timing: timing(0, 60),
                placement: None,
                anim: None,
                children: Vec::new(),
                span: Span::new(0, 0),
            }],
        }],
    }
}

fn checked(source: &str) -> Checked {
    let read = Ok(("main.scene".to_string(), source.to_string()));
    let compiled = render_source(read).unwrap();
    let found: Vec<bool> = compiled.files().iter().map(|f| f == "n.wav").collect();
    compiled.looked(&found).timings(None).unwrap().checked(&Vec::new())
}

fn aimed(source: &str, out: Option<&str>, confined: Option<Result<Vec<Part>, Escapes>>) -> Result<Aimed, RenderError> {
    checked(source).realized(Some(resolved()), Vec::new(), Some("30:45"))?.aimed(out, confined)
}

#[test]
fn a_render_runs_through_its_stages() {
    let stage = checked(SOURCE);
    assert_eq!(stage.get_scene().tracks.len(), 2);
    assert!(stage.get_timings().sources.is_empty());
    let stage = stage.realized(Some(resolved()), Vec::new(), Some("30:45")).unwrap();
    assert_eq!(stage.authored_target(None), Some("out/final.mp4"));
    assert_eq!(stage.authored_target(Some("x.mp4")), None);
    let stage = stage.aimed(Some("x.mp4"), None).unwrap();
    assert!(matches!(stage.get_target(), Target::Operator(t) if t == "x.mp4"));
    assert!(stage.has_rate());
    let stage = stage.prepared(Ok(()), "/proj").unwrap();
    assert_eq!(stage.get_range(), FrameRange { start: 30, end: 45 });
    assert_eq!(stage.get_resolved().canvas.width, 2);
    // The mix starts with the first frame asked for.
    let graph = stage.get_graph();
    assert_eq!(graph.program_samples, 24_000);
    assert_eq!(graph.clips[0].src, "/proj/n.wav");
    assert_eq!(graph.clips[0].skipped, 48_000);
    assert_eq!(graph.clips[0].target, SampleRange { start: 0, end: 24_000 });
    assert!(stage.needs_mix());
    let stage = stage.mixed(Some(Ok(()))).unwrap();
    assert_eq!(stage.get().get_range().start, 30);
    let stage = stage.opened(Ok(())).unwrap();
    assert_eq!(stage.get().get_range().end, 45);
    let stage = stage.rendered(Ok(15), &vec!["font missing".to_string()]).unwrap();
    let report = stage.finished(Ok(())).unwrap().published(Ok(())).unwrap();
    assert_eq!(report.frames, 15);
    assert!(matches!(report.target, Target::Operator(t) if t == "x.mp4"));
    // Everything that was found on the way is in the report.
    let messages: Vec<&str> = report
        .bundles
        .iter()
        .flat_map(|b| b.diags.iter())
        .map(|d| d.message.as_str())
        .collect();
    assert!(messages.iter().any(|m| m.contains("i.png")), "{messages:?}");
    assert!(!messages.iter().any(|m| m.contains("n.wav")), "{messages:?}");
    assert_eq!(messages.last(), Some(&"font missing"));
    assert!(report.bundles.iter().all(|b| b.name == "main.scene" && b.source == SOURCE));
}

#[test]
fn sources_that_do_not_compile_are_not_rendered() {
    let failed = render_source(Err("no such file".into())).unwrap_err();
    assert_eq!(failed.message, "no such file");
    assert!(failed.bundles.is_empty());
    let failed = render_source(Ok(("m".into(), "<scene/>".into()))).unwrap_err();
    assert!(failed.bundles[0].diags.iter().any(|d| d.is_error()));
}

#[test]
fn timings_have_to_load() {
    let load = |loaded: Result<TimingMap, String>| {
        let compiled = render_source(Ok(("m".into(), SOURCE.into()))).unwrap();
        let found: Vec<bool> = compiled.files().iter().map(|_| true).collect();
        compiled.looked(&found).timings(Some(("t.json", loaded)))
    };
    let failed = load(Err("eof".into())).unwrap_err();
    assert!(failed.message.contains("eof"), "{}", failed.message);
    let map = TimingMap { sources: Vec::new(), script_hash: Some("x".into()) };
    let timed = load(Ok(map)).unwrap();
    assert_eq!(timed.get_timings().script_hash.as_deref(), Some("x"));
    let stage = timed.checked(&vec!["words out of order".to_string()]);
    let failed = stage.realized(None, Vec::new(), None).unwrap_err();
    assert_eq!(failed.message, "timing resolution failed");
    assert!(failed.bundles.iter().any(|b| b.diags.iter().any(|d| d.message == "words out of order")));
}

#[test]
fn resolution_and_frames_have_to_be_sound() {
    let error = vec![Diagnostic::error("unplaced".to_string(), None)];
    let failed = checked(SOURCE).realized(Some(resolved()), error, None).unwrap_err();
    assert_eq!(failed.message, "timing resolution failed");
    let failed = checked(SOURCE).realized(Some(resolved()), Vec::new(), Some("x")).unwrap_err();
    assert_eq!(failed.message, "invalid --frames `x` (use `start:end`, e.g. `0:90`)");
}

#[test]
fn outputs_have_to_be_aimed() {
    let confined = vec![Part::Anchor("/".into()), Part::Name("p".into())];
    let stage = aimed(SOURCE, None, Some(Ok(confined))).unwrap();
    assert!(matches!(stage.get_target(), Target::Confined(p) if p.len() == 2));
    let outside = Escapes {
        rel: vec![Part::Up],
        resolved: vec![Part::Anchor("/".into())],
        root: vec![Part::Anchor("/".into()), Part::Name("p".into())],
    };
    let failed = aimed(SOURCE, None, Some(Err(outside))).unwrap_err();
    assert!(failed.message.contains("escapes the project root"), "{}", failed.message);
    let targetless = SOURCE.replace("<render target=\"out/final.mp4\"/>", "");
    let failed = aimed(&targetless, None, None).unwrap_err();
    assert_eq!(failed.message, "no output target — pass --out or set <render target>");
    let failed = stage.prepared(Err(("out".into(), "denied".into())), "/p").unwrap_err();
    assert_eq!(failed.message, "cannot create out: denied");
}

#[test]
fn late_failures_are_named() {
    let prepared = || aimed(SOURCE, Some("x.mp4"), None).unwrap().prepared(Ok(()), "/p").unwrap();
    let failed = prepared().mixed(Some(Err("boom".into()))).unwrap_err();
    assert_eq!(failed.message, "audio mix failed: boom");
    let mixed = || prepared().mixed(Some(Ok(()))).unwrap();
    assert_eq!(mixed().opened(Err("no encoder".into())).unwrap_err().message, "no encoder");
    let encoding = || mixed().opened(Ok(())).unwrap();
    let lost = encoding().rendered(Err(encode_failed(7, "closed")), &Vec::new()).unwrap_err();
    assert_eq!(lost.message, "encode failed at frame 7: closed");
    let rendered = || encoding().rendered(Ok(1), &Vec::new()).unwrap();
    assert_eq!(rendered().finished(Err("bad".into())).unwrap_err().message, "bad");
    let published = rendered().finished(Ok(())).unwrap().published(Err("full".into()));
    assert_eq!(published.unwrap_err().message, "full");
}
