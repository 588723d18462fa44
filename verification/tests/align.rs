use scene_engine::align::{
    markers_to_timing, parse_markers, timing_map_for, whisperx_to_timing, WxSegment, WxWord,
};
use scene_engine::number::Number;
use scene_engine::scene::{script_fingerprint, Script, ScriptLine};
use scene_engine::span::Span;
use scene_engine::timing::Moment;

fn float(n: &Number) -> f64 {
    let (negative, digits, exponent) = n.parts().unwrap();
    let size: f64 = format!("0{}e{}", digits, exponent).parse().unwrap();
    if negative {
        -size
    } else {
        size
    }
}

fn seconds(m: &Moment) -> f64 {
    let (from, to) = (float(&m.from), float(&m.to));
    from + (to - from) * m.step as f64 / m.steps as f64
}

fn segments(json: &str) -> Vec<WxSegment> {
    let document: serde_json::Value = serde_json::from_str(json).unwrap();
    let number = |v: &serde_json::Value| Number::parse(&v.to_string());
    let word = |v: &serde_json::Value| WxWord {
        word: v["word"].as_str().map(|s| s.to_string()),
        start: number(&v["start"]),
        end: number(&v["end"]),
    };
    let list = document["segments"].as_array().unwrap();
    list.iter()
        .map(|s| WxSegment { words: s["words"].as_array().unwrap().iter().map(word).collect() })
        .collect()
}

fn script() -> Script {
    Script {
        track: "voice".into(),
        voice: None,
        lines: vec![
            ScriptLine {
                id: "hook".into(),
                text: "Nobody talks about the third rule.".into(),
                span: Span::new(0, 0),
            },
            ScriptLine {
                id: "payoff".into(),
                text: "Compound interest is a treadmill.".into(),
                span: Span::new(0, 0),
            },
        ],
        span: Span::new(0, 0),
    }
}

#[test]
fn markers_parse_clean_file() {
    let (markers, diags) = parse_markers("# a comment\n\nhook 0.0 1.5\n  payoff   1.6\t3.0 \n");
    assert!(diags.is_empty());
    assert_eq!(markers.len(), 2);
    assert_eq!(markers[0].cue, "hook");
    assert_eq!((float(&markers[0].start_s), float(&markers[0].end_s)), (0.0, 1.5));
    assert_eq!((float(&markers[1].start_s), float(&markers[1].end_s)), (1.6, 3.0));
}

#[test]
fn markers_report_bad_lines_without_dying() {
    let (markers, diags) =
        parse_markers("hook 0.0 1.5\nbad line\nhook2 abc def\nneg 2.0 1.0\nextra 0 1 z\n");
    assert_eq!(markers.len(), 1, "only the good line survives");
    assert_eq!(diags.len(), 4);
    assert!(diags.iter().all(|d| d.is_error()));
}

#[test]
fn markers_reject_nonfinite_times() {
    // `NaN`/`inf` parse as numbers but serialize to `null`: a timings file
    // that the render side cannot read back. Reject at parse time.
    let (markers, diags) = parse_markers("hook 0 NaN\npayoff 0 inf\nok 0.0 1.0\n");
    assert_eq!(markers.len(), 1);
    assert_eq!(markers[0].cue, "ok");
    assert_eq!(diags.len(), 2);
    assert!(diags.iter().all(|d| d.is_error()));
}

#[test]
fn markers_spread_words_evenly() {
    let (markers, _) = parse_markers("hook 0.0 1.2\npayoff 1.2 2.4\n");
    let (source, diags) = markers_to_timing(&markers, &script());
    assert!(diags.is_empty());
    let hook = source.line("hook").unwrap();
    assert_eq!(hook.words.len(), 6);
    // 1.2s / 6 words = 0.2s each
    assert!((seconds(&hook.words[0].start_s) - 0.0).abs() < 1e-9);
    assert!((seconds(&hook.words[1].start_s) - 0.2).abs() < 1e-9);
    assert!((seconds(&hook.words[5].end_s) - 1.2).abs() < 1e-9);
}

#[test]
fn markers_unknown_and_missing_cues_warn() {
    let (markers, _) = parse_markers("hook 0.0 1.0\nghost 2.0 3.0\n");
    let (source, diags) = markers_to_timing(&markers, &script());
    assert_eq!(diags.len(), 2); // ghost unknown + payoff unmarked
    assert!(diags.iter().all(|d| !d.is_error()));
    assert_eq!(source.lines.len(), 1);
}

#[test]
fn whisperx_uses_real_word_times() {
    let json = r#"{"segments":[
            {"words":[
                {"word":"Nobody","start":0.01,"end":0.31},
                {"word":"talks","start":0.32,"end":0.55},
                {"word":"about","start":0.56,"end":0.80},
                {"word":"the","start":0.81,"end":0.90},
                {"word":"third","start":0.91,"end":1.10},
                {"word":"rule.","start":1.11,"end":1.45}
            ]},
            {"words":[
                {"word":"Compound","start":1.60,"end":1.90},
                {"word":"interest","start":1.91,"end":2.30},
                {"word":"is","start":2.31,"end":2.40},
                {"word":"a","start":2.41,"end":2.45},
                {"word":"treadmill.","start":2.46,"end":2.95}
            ]}
        ]}"#;
    let (source, diags) = whisperx_to_timing(&segments(json), &script());
    assert!(diags.is_empty());
    let payoff = source.line("payoff").unwrap();
    assert_eq!(payoff.words.len(), 5);
    assert!((seconds(&payoff.words[0].start_s) - 1.60).abs() < 1e-9);
    assert!((seconds(&payoff.words[4].end_s) - 2.95).abs() < 1e-9);
}

#[test]
fn whisperx_segment_mismatch_and_untimed_words_warn() {
    let json = r#"{"segments":[
            {"words":[{"word":"hi","start":0.0,"end":0.2}]},
            {"words":[{"word":"dangling"}]}
        ]}"#;
    let (source, diags) = whisperx_to_timing(&segments(json), &script());
    // payoff got a segment but zero timed words → warning
    assert_eq!(diags.len(), 1);
    assert!(diags[0].message.contains("payoff"));
    assert_eq!(source.line("hook").unwrap().words.len(), 1);
    assert!(source.line("payoff").unwrap().words.is_empty());
}

#[test]
fn whisperx_invalid_word_times_warn_but_keep_the_words() {
    // Negative and reversed spans parse fine from JSON; they must
    // surface as warnings, not ride silently into the lattice.
    let json = r#"{"segments":[
            {"words":[
                {"word":"ok","start":0.0,"end":0.2},
                {"word":"neg","start":-0.5,"end":0.1},
                {"word":"rev","start":0.9,"end":0.4}
            ]},
            {"words":[{"word":"clean","start":1.0,"end":1.5}]}
        ]}"#;
    let (source, diags) = whisperx_to_timing(&segments(json), &script());
    assert_eq!(source.line("hook").unwrap().words.len(), 3);
    assert!(
        diags.iter().any(|d| !d.is_error()
            && d.message.contains("hook")
            && d.message.contains("invalid times")),
        "{diags:?}"
    );
}

#[test]
fn timing_map_stamps_the_script_fingerprint() {
    let s = script();
    let (markers, _) = parse_markers("hook 0.0 1.5\npayoff 1.6 3.0\n");
    let (source, _) = markers_to_timing(&markers, &s);
    let map = timing_map_for(&s, source);
    assert_eq!(
        map.script_hash.as_deref(),
        Some(script_fingerprint(&s).as_str())
    );
}

#[test]
fn marker_faults_carry_their_line_and_span() {
    let text = "hook 0.0 1.5\r\nbad line\n";
    let (markers, diags) = parse_markers(text);
    assert_eq!(markers.len(), 1);
    assert_eq!(markers[0].line, 1);
    assert_eq!(diags.len(), 1);
    let span = diags[0].span.unwrap();
    assert!(text[span.start..].starts_with("bad line"), "{diags:?}");
}

#[test]
fn spread_words_tile_the_span() {
    let (markers, _) = parse_markers("hook 1.0 2.5\n");
    let (source, _) = markers_to_timing(&markers, &script());
    let words = &source.line("hook").unwrap().words;
    assert_eq!(words.len(), 6);
    assert_eq!(seconds(&words[0].start_s), 1.0);
    assert_eq!(seconds(&words[5].end_s), 2.5);
    for pair in words.windows(2) {
        assert_eq!(pair[0].end_s, pair[1].start_s);
    }
    assert_eq!(words[3].text, "the");
    assert_eq!(seconds(&words[3].start_s), 1.75);
}

#[test]
fn extra_and_missing_segments_warn() {
    let one = r#"{"segments":[{"words":[{"word":"hi","start":0.0,"end":0.2}]}]}"#;
    let (source, diags) = whisperx_to_timing(&segments(one), &script());
    assert!(!diags.is_empty() && diags.iter().all(|d| !d.is_error()), "{diags:?}");
    assert!(source.line("payoff").is_none());
    let three = r#"{"segments":[
        {"words":[{"word":"a","start":0.0,"end":0.2}]},
        {"words":[{"word":"b","start":0.2,"end":0.4}]},
        {"words":[{"word":"c","start":0.4,"end":0.6}]}
    ]}"#;
    let (source, diags) = whisperx_to_timing(&segments(three), &script());
    assert_eq!(source.lines.len(), 2);
    assert_eq!(diags.len(), 1, "{diags:?}");
    assert!(!diags[0].is_error());
}

#[test]
fn a_timing_map_is_keyed_by_the_track() {
    let s = script();
    let (markers, _) = parse_markers("hook 0.0 1.5\n");
    let (source, _) = markers_to_timing(&markers, &s);
    let map = timing_map_for(&s, source);
    assert_eq!(map.sources.len(), 1);
    assert_eq!(map.sources[0].0, "voice");
    assert_eq!(map.sources[0].1.lines[0].cue, "hook");
}
