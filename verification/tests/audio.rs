use scene_engine::audio::{
    filter_complex, join_root, mix_args, samples_to_ms, AudioClip, AudioGraph, ClipText, DuckLink,
    Fade, DUCK_SETTINGS, PROGRAM_RATE,
};
use scene_engine::number::Number;
use scene_engine::resolved::{
    FrameRange, ResolvedElement, ResolvedScene, ResolvedTiming, ResolvedTrack, SampleRange,
};
use scene_engine::scene::{Canvas, Color, ElementKind, Rational, TrackKind};
use scene_engine::span::Span;

fn num(text: &str) -> Number {
    Number::parse(text).unwrap()
}

fn float(n: &Number) -> f64 {
    let (negative, digits, exponent) = n.parts().unwrap();
    let size: f64 = format!("0{}e{}", digits, exponent).parse().unwrap();
    if negative {
        -size
    } else {
        size
    }
}

fn seconds(samples: u64) -> f64 {
    samples as f64 / PROGRAM_RATE as f64
}

fn source_start(clip: &AudioClip) -> f64 {
    float(&clip.from_s) + seconds(clip.skipped)
}

fn gain_linear(db: f64) -> f64 {
    10f64.powf(db / 20.0)
}

fn six(value: f64) -> String {
    format!("{:.6}", value)
}

fn texts(graph: &AudioGraph) -> Vec<ClipText> {
    graph
        .clips
        .iter()
        .map(|c| {
            let start = source_start(c);
            let len = seconds(c.target.end - c.target.start);
            let out = float(&c.fade.out_s);
            ClipText {
                start: six(start),
                end: six(start + len),
                volume: six(gain_linear(float(&c.gain_db))),
                fade_in: six(float(&c.fade.in_s)),
                fade_out_start: six((len - out).max(0.0)),
                fade_out: six(out),
            }
        })
        .collect()
}

fn timing(start: u32, end: u32) -> ResolvedTiming {
    // `start`/`end` are program seconds.
    ResolvedTiming {
        frames: FrameRange {
            start: start * 30,
            end: end * 30,
        },
        samples: SampleRange {
            start: u64::from(start) * PROGRAM_RATE,
            end: u64::from(end) * PROGRAM_RATE,
        },
    }
}

fn audio_el(kind: ElementKind, timing: ResolvedTiming) -> ResolvedElement {
    ResolvedElement {
        id: None,
        kind,
        timing,
        placement: None,
        anim: None,
        children: Vec::new(),
        span: Span::new(0, 0),
    }
}

fn scene(tracks: Vec<ResolvedTrack>, program_secs: u32) -> ResolvedScene {
    ResolvedScene {
        canvas: Canvas {
            width: 320,
            height: 180,
        },
        frame_rate: Rational {
            numerator: 30,
            denominator: 1,
        },
        clear: Color::black(),
        script: None,
        program: timing(0, program_secs),
        tracks,
    }
}

fn track(id: &str, elements: Vec<ResolvedElement>) -> ResolvedTrack {
    ResolvedTrack {
        id: id.into(),
        kind: TrackKind::Audio,
        anchor: None,
        elements,
    }
}

#[test]
fn from_scene_collects_audio_and_resolves_duck() {
    let scene = scene(
        vec![
            track(
                "music",
                vec![audio_el(
                    ElementKind::Music {
                        src: "bed.mp3".into(),
                        gain_db: num("-14.0"),
                        duck: Some("voice".into()),
                        from_s: num("0"),
                    },
                    timing(0, 10),
                )],
            ),
            track(
                "voice",
                vec![audio_el(
                    ElementKind::Sound {
                        src: "vo.wav".into(),
                        gain_db: num("0.0"),
                        from_s: num("0"),
                    },
                    timing(2, 8),
                )],
            ),
        ],
        10,
    );
    let (graph, diags) = AudioGraph::from_scene(&scene, "/proj");
    assert!(diags.is_empty());
    assert_eq!(graph.clips.len(), 2);
    assert_eq!(graph.program_samples, 10 * PROGRAM_RATE);
    let music = &graph.clips[0];
    assert_eq!(music.src, "/proj/bed.mp3");
    assert_eq!(music.gain_db, num("-14.0"));
    assert_eq!(music.target.start, 0);
    // duck="voice" → keyed by the clip living on the voice track
    assert_eq!(
        graph.duck,
        vec![DuckLink {
            clip: 0,
            key: vec![1]
        }]
    );
}

#[test]
fn duck_without_key_warns_and_degrades() {
    let scene = scene(
        vec![track(
            "music",
            vec![audio_el(
                ElementKind::Music {
                    src: "bed.mp3".into(),
                    gain_db: num("0.0"),
                    duck: Some("narration".into()),
                    from_s: num("0"),
                },
                timing(0, 5),
            )],
        )],
        5,
    );
    let (graph, diags) = AudioGraph::from_scene(&scene, "/p");
    assert!(graph.duck.is_empty());
    assert_eq!(diags.len(), 1);
    assert!(diags[0].message.contains("narration"));
}

#[test]
fn visual_elements_are_skipped_but_children_walked() {
    let mut board = audio_el(ElementKind::Board, timing(0, 4));
    board.children = vec![audio_el(
        ElementKind::Sound {
            src: "hit.wav".into(),
            gain_db: num("-3.0"),
            from_s: num("0"),
        },
        timing(1, 2),
    )];
    let scene = scene(vec![track("v", vec![board])], 4);
    let (graph, _) = AudioGraph::from_scene(&scene, "/p");
    assert_eq!(graph.clips.len(), 1);
    assert_eq!(graph.clips[0].target.start, PROGRAM_RATE);
}

#[test]
fn gain_and_delay_math() {
    assert!((gain_linear(0.0) - 1.0).abs() < 1e-9);
    assert!((gain_linear(-6.0) - 0.501187).abs() < 1e-5);
    assert!((gain_linear(-14.0) - 0.199526).abs() < 1e-5);
    assert_eq!(samples_to_ms(PROGRAM_RATE), 1000);
    assert_eq!(samples_to_ms(PROGRAM_RATE / 2), 500);
    assert_eq!(samples_to_ms(1), 0, "sub-ms lands at 0, never late");
}

#[test]
fn emitted_chain_orders_ops_correctly() {
    let graph = AudioGraph {
        clips: vec![AudioClip {
            src: "/p/bed.mp3".into(),
            target: SampleRange {
                start: PROGRAM_RATE,
                end: 4 * PROGRAM_RATE,
            },
            from_s: num("0"),
            skipped: 0,
            gain_db: num("-6.0"),
            fade: Fade {
                in_s: num("0.25"),
                out_s: num("0.5"),
            },
            track_id: "music".into(),
            span: Span::new(0, 0),
        }],
        duck: Vec::new(),
        program_samples: 10 * PROGRAM_RATE,
    };
    let fc = filter_complex(&graph, &texts(&graph));
    // trim window covers exactly the 3s target; delay = 1000ms|1000ms
    assert!(fc.contains("atrim=start=0.000000:end=3.000000"), "{fc}");
    assert!(fc.contains("adelay=1000|1000"), "{fc}");
    assert!(fc.contains("aresample=48000"), "{fc}");
    assert!(fc.contains("afade=t=in:st=0:d=0.250000"), "{fc}");
    assert!(fc.contains("afade=t=out:st=2.500000:d=0.500000"), "{fc}");
    assert!(fc.contains("amix=inputs=1:normalize=0[aout]"), "{fc}");
    assert!(!fc.contains("sidechaincompress"));
}

#[test]
fn window_rebases_a_partial_mix() {
    // Program 0..6s; a tone plays 1s..4s. A `--frames` window of
    // 2s..3s must hear the *middle* of that tone; the source read
    // shifts by the cut front, the delay rebases to the window.
    let graph = AudioGraph {
        clips: vec![
            AudioClip {
                src: "/p/early.wav".into(),
                target: SampleRange {
                    start: 0,
                    end: PROGRAM_RATE / 2,
                },
                from_s: num("0"),
                skipped: 0,
                gain_db: num("0.0"),
                fade: Fade::default(),
                track_id: "t".into(),
                span: Span::new(0, 0),
            },
            AudioClip {
                src: "/p/tone.wav".into(),
                target: SampleRange {
                    start: PROGRAM_RATE,
                    end: 4 * PROGRAM_RATE,
                },
                from_s: num("0"),
                skipped: 0,
                gain_db: num("0.0"),
                fade: Fade::default(),
                track_id: "t".into(),
                span: Span::new(0, 0),
            },
        ],
        duck: Vec::new(),
        program_samples: 6 * PROGRAM_RATE,
    };
    let w = graph.window(2 * PROGRAM_RATE, 3 * PROGRAM_RATE);
    // The fully-before clip drops; the tone survives rebased.
    assert_eq!(w.clips.len(), 1);
    let tone = &w.clips[0];
    assert_eq!(tone.target.start, 0);
    assert_eq!(tone.target.end, PROGRAM_RATE);
    assert!(
        (source_start(tone) - 1.0).abs() < 1e-9,
        "front cut → +1s source read"
    );
    assert_eq!(w.program_samples, PROGRAM_RATE);
    let fc = filter_complex(&w, &texts(&w));
    assert!(fc.contains("atrim=start=1.000000:end=2.000000"), "{fc}");
    assert!(fc.contains("adelay=0|0"), "{fc}");
    // Identity window keeps everything; empty window yields silence.
    let full = graph.window(0, 6 * PROGRAM_RATE);
    assert_eq!(full.clips.len(), 2);
    assert!(
        graph
            .window(4 * PROGRAM_RATE, 2 * PROGRAM_RATE)
            .clips
            .is_empty()
    );
}

#[test]
fn window_remaps_duck_links() {
    let graph = AudioGraph {
        clips: vec![
            AudioClip {
                src: "/p/bed.mp3".into(),
                target: SampleRange {
                    start: 0,
                    end: 6 * PROGRAM_RATE,
                },
                from_s: num("0"),
                skipped: 0,
                gain_db: num("0.0"),
                fade: Fade::default(),
                track_id: "music".into(),
                span: Span::new(0, 0),
            },
            AudioClip {
                src: "/p/drop.wav".into(),
                target: SampleRange {
                    start: 0,
                    end: PROGRAM_RATE / 2,
                },
                from_s: num("0"),
                skipped: 0,
                gain_db: num("0.0"),
                fade: Fade::default(),
                track_id: "voice".into(),
                span: Span::new(0, 0),
            },
            AudioClip {
                src: "/p/vo.wav".into(),
                target: SampleRange {
                    start: PROGRAM_RATE,
                    end: 3 * PROGRAM_RATE,
                },
                from_s: num("0"),
                skipped: 0,
                gain_db: num("0.0"),
                fade: Fade::default(),
                track_id: "voice".into(),
                span: Span::new(0, 0),
            },
        ],
        duck: vec![DuckLink {
            clip: 0,
            key: vec![1, 2],
        }],
        program_samples: 6 * PROGRAM_RATE,
    };
    // Window 2s..4s: clip 1 drops out, key remaps to the survivor.
    let w = graph.window(2 * PROGRAM_RATE, 4 * PROGRAM_RATE);
    assert_eq!(w.duck.len(), 1);
    assert_eq!(w.duck[0].clip, 0);
    assert_eq!(
        w.duck[0].key,
        vec![1],
        "dropped key is removed, kept key remapped"
    );
}

#[test]
fn duck_emits_sidechain_with_split_key() {
    let graph = AudioGraph {
        clips: vec![
            AudioClip {
                src: "/p/bed.mp3".into(),
                target: SampleRange {
                    start: 0,
                    end: 6 * PROGRAM_RATE,
                },
                from_s: num("0"),
                skipped: 0,
                gain_db: num("0.0"),
                fade: Fade::default(),
                track_id: "music".into(),
                span: Span::new(0, 0),
            },
            AudioClip {
                src: "/p/vo.wav".into(),
                target: SampleRange {
                    start: PROGRAM_RATE,
                    end: 3 * PROGRAM_RATE,
                },
                from_s: num("0"),
                skipped: 0,
                gain_db: num("0.0"),
                fade: Fade::default(),
                track_id: "voice".into(),
                span: Span::new(0, 0),
            },
        ],
        duck: vec![DuckLink {
            clip: 0,
            key: vec![1],
        }],
        program_samples: 6 * PROGRAM_RATE,
    };
    let fc = filter_complex(&graph, &texts(&graph));
    // Key clip splits: one branch to mix, one to the key submix.
    assert!(fc.contains("asplit=2[a1m][a1k]"), "{fc}");
    assert!(fc.contains("[a1k]amix=inputs=1:normalize=0[key0]"), "{fc}");
    assert!(
        fc.contains("[a0][key0]sidechaincompress=threshold=0.020000:ratio=8.000000"),
        "{fc}"
    );
    // Final mix takes the ducked music + the key's mix branch.
    assert!(
        fc.contains("[duck0][a1m]amix=inputs=2:normalize=0[aout]"),
        "{fc}"
    );
}

#[test]
fn args_feed_every_clip_and_cut_to_program() {
    let graph = AudioGraph {
        clips: vec![
            AudioClip {
                src: "/p/a.wav".into(),
                target: SampleRange {
                    start: 0,
                    end: PROGRAM_RATE,
                },
                from_s: num("0"),
                skipped: 0,
                gain_db: num("0.0"),
                fade: Fade::default(),
                track_id: "t".into(),
                span: Span::new(0, 0),
            },
            AudioClip {
                src: "/p/b.wav".into(),
                target: SampleRange {
                    start: 0,
                    end: PROGRAM_RATE,
                },
                from_s: num("0"),
                skipped: 0,
                gain_db: num("0.0"),
                fade: Fade::default(),
                track_id: "t".into(),
                span: Span::new(0, 0),
            },
        ],
        duck: Vec::new(),
        program_samples: 2 * PROGRAM_RATE,
    };
    let args = mix_args(&graph, &texts(&graph), &six(seconds(graph.program_samples)), "/out.wav");
    let inputs = args.iter().filter(|a| *a == "-i").count();
    assert_eq!(inputs, 2);
    assert!(args.iter().any(|a| a == "-filter_complex"));
    assert!(args.windows(2).any(|w| w == ["-t", "2.000000"]));
    assert!(args.windows(2).any(|w| w == ["-ar", "48000"]));
    assert!(args.windows(2).any(|w| w == ["-map", "[aout]"]));
}

#[test]
fn whole_filter_text() {
    let graph = AudioGraph {
        clips: vec![clip("/p/bed.mp3", 0, 48_000, "music"), clip("/p/vo.wav", 24_000, 36_000, "voice")],
        duck: vec![DuckLink { clip: 0, key: vec![1] }],
        program_samples: 48_000,
    };
    let fc = filter_complex(&graph, &texts(&graph));
    let head = ",asetpts=PTS-STARTPTS,aresample=48000,aformat=channel_layouts=stereo,volume=1.000000";
    let wanted = format!(
        "[a1k]amix=inputs=1:normalize=0[key0];\
         [a0][key0]sidechaincompress={DUCK_SETTINGS}[duck0];\
         [0:a]atrim=start=0.000000:end=1.000000{head},adelay=0|0[a0];\
         [1:a]atrim=start=0.000000:end=0.250000{head},adelay=500|500,asplit=2[a1m][a1k];\
         [duck0][a1m]amix=inputs=2:normalize=0[aout]"
    );
    assert_eq!(fc, wanted);
}

#[test]
fn whole_mix_arguments() {
    let graph = AudioGraph {
        clips: vec![clip("/p/a.wav", 0, 48_000, "a")],
        duck: vec![],
        program_samples: 96_000,
    };
    let args = mix_args(&graph, &texts(&graph), "2.000000", "/out.wav");
    let filter = filter_complex(&graph, &texts(&graph));
    let wanted = [
        "-y", "-v", "error", "-i", "/p/a.wav", "-filter_complex", filter.as_str(), "-map", "[aout]",
        "-t", "2.000000", "-ar", "48000", "-ac", "2", "-c:a", "pcm_s16le", "/out.wav",
    ];
    assert_eq!(args, wanted);
}

#[test]
fn the_whole_window_changes_nothing() {
    let graph = AudioGraph {
        clips: vec![clip("/p/a.wav", 100, 48_000, "a"), clip("/p/b.wav", 0, 200, "b")],
        duck: vec![DuckLink { clip: 0, key: vec![1] }],
        program_samples: 48_000,
    };
    assert_eq!(graph.window(0, 48_000), graph);
}

#[test]
fn a_window_cuts_both_ends() {
    let graph = AudioGraph {
        clips: vec![clip("/p/a.wav", 1_000, 9_000, "a")],
        duck: vec![],
        program_samples: 10_000,
    };
    let w = graph.window(3_000, 5_000);
    assert_eq!(w.clips[0].target, SampleRange { start: 0, end: 2_000 });
    assert_eq!(w.clips[0].skipped, 2_000);
    assert_eq!(w.program_samples, 2_000);
    // Cutting the rest once more reads on from the same place.
    let again = w.window(500, 1_500);
    assert_eq!(again.clips[0].skipped, 2_500);
    assert_eq!(again.clips[0].target, SampleRange { start: 0, end: 1_000 });
}

#[test]
fn a_window_of_a_window_is_a_window() {
    let graph = AudioGraph {
        clips: vec![
            clip("/p/a.wav", 1_000, 9_000, "a"),
            clip("/p/b.wav", 0, 3_500, "b"),
            clip("/p/c.wav", 4_200, 4_300, "b"),
        ],
        duck: vec![DuckLink { clip: 0, key: vec![1, 2] }],
        program_samples: 10_000,
    };
    let once = graph.window(4_000, 4_500);
    assert_eq!(once.duck, vec![DuckLink { clip: 0, key: vec![1] }]);
    assert_eq!(graph.window(3_000, 8_000).window(1_000, 1_500), once);
    assert!(graph.window(3_000, 3_100).window(50, 50).clips.is_empty());
}

#[test]
fn sources_live_under_the_root() {
    assert_eq!(join_root("/proj", "a/b.wav"), "/proj/a/b.wav");
    assert_eq!(join_root("/proj/", "b.wav"), "/proj/b.wav");
    assert_eq!(join_root("", "b.wav"), "b.wav");
    assert_eq!(join_root("/proj", "/abs.wav"), "/abs.wav");
}

fn clip(src: &str, start: u64, end: u64, track: &str) -> AudioClip {
    AudioClip {
        src: src.into(),
        target: SampleRange { start, end },
        from_s: num("0"),
        skipped: 0,
        gain_db: num("0"),
        fade: Fade::default(),
        track_id: track.into(),
        span: Span::new(0, 0),
    }
}
