use scene_engine::anchor::Granularity;
use scene_engine::diagnostic::{Diagnostic, Severity};
use scene_engine::lower::lower;
use scene_engine::markup::compile;
use scene_engine::number::Number;
use scene_engine::parser::{parse_document, MAX_DEPTH};
use scene_engine::raw::RawNode;
use scene_engine::scene::{ElementKind, Scene};
use scene_engine::span::Span;
use scene_engine::writer::{esc_attr, write_markup, Markup, MarkupChild};

fn parse(src: &str) -> Result<RawNode, Diagnostic> {
    parse_document(src)
}

#[test]
fn simple_element() {
    let node = parse("<scene></scene>").unwrap();
    assert_eq!(node.name, "scene");
    assert_eq!(node.span, Span::new(0, 15));
}

#[test]
fn self_closing_and_attrs() {
    let node = parse(r#"<scene canvas="1080x1920" fps="30"/>"#).unwrap();
    assert_eq!(node.attr("canvas").unwrap().value, "1080x1920");
    assert_eq!(node.attr("fps").unwrap().value, "30");
}

#[test]
fn nested_and_text() {
    let node = parse("<a><b>hi</b> tail <c/></a>").unwrap();
    let kids = node.element_children();
    assert_eq!(kids.len(), 2);
    assert_eq!(node.text_content().unwrap().0, "tail");
}

#[test]
fn multibyte_whitespace_does_not_corrupt_the_cursor() {
    // U+00A0 is whitespace but two bytes; bumping one byte leaves
    // the cursor mid-char and the next slice panics.
    let node = parse("<a\u{00A0}x=\"1\"\u{00A0}\u{2003}/>").unwrap();
    assert_eq!(node.attr("x").unwrap().value, "1");
    // Same between elements.
    let node = parse("<a>\u{00A0}<b/></a>").unwrap();
    assert_eq!(node.element_children().len(), 1);
}

#[test]
fn comments_and_pis_are_skipped() {
    let node =
        parse("<?xml version=\"1.0\"?><!-- hi --><a><!-- in --></a><!-- tail -->").unwrap();
    assert_eq!(node.name, "a");
}

#[test]
fn entities() {
    let node = parse("<a x=\"a &amp; b\">x &lt; y</a>").unwrap();
    assert_eq!(node.attr("x").unwrap().value, "a & b");
    assert_eq!(node.text_content().unwrap().0, "x < y");
}

#[test]
fn errors() {
    assert!(parse("<a></b>").is_err());
    assert!(parse("<a>").is_err());
    assert!(parse("<a x=1/>").is_err());
    assert!(parse("<a x=\"1\" x=\"2\"/>").is_err());
    assert!(parse("<a>&foo;</a>").is_err());
    assert!(parse("<a/><b/>").is_err());
    assert!(parse("text <a/>").is_err());
}

#[test]
fn error_spans_point_at_the_fault() {
    let err = parse("<a></b>").unwrap_err();
    let span = err.span.unwrap();
    // The span covers the mismatched `</b` close tag.
    assert_eq!(span.start, 3);
}

#[test]
fn nesting_beyond_the_cap_is_a_diagnostic_not_a_crash() {
    let deep = format!(
        "{}{}",
        "<a>".repeat(MAX_DEPTH + 10),
        "</a>".repeat(MAX_DEPTH + 10)
    );
    let err = parse(&deep).unwrap_err();
    assert!(err.message.contains("nested too deeply"), "{err:?}");
    // At the cap the document is still legal.
    let ok = format!("{}{}", "<a>".repeat(MAX_DEPTH), "</a>".repeat(MAX_DEPTH));
    assert!(parse(&ok).is_ok());
}

fn lower_str(src: &str) -> (Option<Scene>, Vec<Diagnostic>) {
    let raw = parse_document(src).unwrap();
    lower(&raw)
}

fn faults(diags: &[Diagnostic]) -> Vec<&str> {
    diags
        .iter()
        .filter(|d| d.is_error())
        .map(|d| d.message.as_str())
        .collect()
}

const SCENE: &str = r##"<scene canvas="1080x1920" fps="30" clear="#000">
  <script track="voice">
    <line id="hook">Hello.</line>
    <line id="payoff">Goodbye.</line>
  </script>
  <track id="voice" kind="audio">
    <sound src="n.wav" during="hook..payoff"/>
  </track>
  <track kind="visual" anchor="voice">
    <clip src="a.mp4" during="hook..payoff"/>
    <board during="payoff" at="center" anim="rise">
      <text bind="payoff.text"/>
    </board>
    <captions anchor="voice.words"/>
  </track>
  <track kind="audio">
    <music src="bed.mp3" gain="-14dB" duck="voice" during="hook..payoff"/>
  </track>
  <render target="out/final.mp4"/>
</scene>"##;

#[test]
fn full_scene_lowers() {
    let (scene, diags) = lower_str(SCENE);
    assert!(faults(&diags).is_empty(), "errors: {:?}", faults(&diags));
    let scene = scene.unwrap();
    assert_eq!(scene.canvas.width, 1080);
    assert_eq!(scene.script.as_ref().unwrap().lines.len(), 2);
    assert_eq!(scene.tracks.len(), 3);
    let (srcs, _): (Vec<&str>, Vec<Span>) = scene.asset_refs().into_iter().unzip();
    assert!(srcs.contains(&"a.mp4"));
    // Inputs only; the render target is an output.
    assert!(!srcs.contains(&"out/final.mp4"));
}

#[test]
fn missing_required_attrs() {
    let (_, diags) = lower_str("<scene></scene>");
    let errs = faults(&diags);
    assert!(errs.iter().any(|m| m.contains("`canvas`")), "{errs:?}");
    assert!(errs.iter().any(|m| m.contains("`fps`")), "{errs:?}");
}

#[test]
fn unknown_cue_is_an_error() {
    let src = SCENE.replace("hook..payoff", "hook..missing");
    let (_, diags) = lower_str(&src);
    assert!(
        faults(&diags)
            .iter()
            .any(|m| m.contains("unknown cue `missing`")),
        "{:?}",
        faults(&diags)
    );
}

#[test]
fn duplicate_line_ids() {
    let src = SCENE.replace("payoff", "hook");
    let (_, diags) = lower_str(&src);
    assert!(
        faults(&diags)
            .iter()
            .any(|m| m.contains("duplicate line id")),
        "{:?}",
        faults(&diags)
    );
}

#[test]
fn script_track_must_be_an_audio_track() {
    let src = SCENE.replace(
        r#"<track id="voice" kind="audio">"#,
        r#"<track id="voice" kind="visual">"#,
    );
    let (_, diags) = lower_str(&src);
    assert!(
        faults(&diags)
            .iter()
            .any(|m| m.contains("names a visual track")),
        "{:?}",
        faults(&diags)
    );
}

#[test]
fn unknown_element_is_an_error() {
    let src = SCENE.replace("<clip", "<florp");
    let (_, diags) = lower_str(&src);
    assert!(
        faults(&diags)
            .iter()
            .any(|m| m.contains("unknown element <florp>")),
        "{:?}",
        faults(&diags)
    );
}

#[test]
fn unknown_attr_is_a_warning() {
    let src = SCENE.replace("<clip src", "<clip bogus=\"1\" src");
    let (_, diags) = lower_str(&src);
    assert!(
        diags
            .iter()
            .any(|d| d.severity == Severity::Warning && d.message.contains("`bogus`")),
        "{diags:?}"
    );
}

#[test]
fn program_requires_src() {
    let src = SCENE.replace(
        "<clip src=\"a.mp4\" during=\"hook..payoff\"/>",
        "<program/>",
    );
    let (_, diags) = lower_str(&src);
    assert!(faults(&diags).iter().any(|m| m.contains("src")));
}

#[test]
fn captions_default_to_script_words() {
    let src = SCENE.replace(r#" anchor="voice.words""#, "");
    let (scene, diags) = lower_str(&src);
    assert!(faults(&diags).is_empty());
    let scene = scene.unwrap();
    let captions = scene.tracks[1]
        .elements
        .iter()
        .find_map(|e| match &e.kind {
            ElementKind::Captions { source, .. } => Some(source),
            _ => None,
        })
        .unwrap();
    assert_eq!(captions.source, "voice");
    assert_eq!(captions.granularity, Granularity::Word);
}

#[test]
fn captions_default_works_when_script_comes_later() {
    // Declaration order must not matter: <captions> with no `anchor`
    // defaults to the script's track even when <script> sits *below*
    // the track in the document.
    let src = r##"<scene canvas="1080x1920" fps="30">
  <track kind="visual">
    <captions/>
  </track>
  <track id="voice" kind="audio">
    <sound src="n.wav" during="hook"/>
  </track>
  <script track="voice">
    <line id="hook">Hello.</line>
  </script>
</scene>"##;
    let (scene, diags) = lower_str(src);
    assert!(faults(&diags).is_empty(), "errors: {:?}", faults(&diags));
    let scene = scene.unwrap();
    let captions = scene.tracks[0]
        .elements
        .iter()
        .find_map(|e| match &e.kind {
            ElementKind::Captions { source, .. } => Some(source),
            _ => None,
        })
        .expect("captions element survived lowering");
    assert_eq!(captions.source, "voice");
    assert_eq!(captions.granularity, Granularity::Word);
}

#[test]
fn text_requires_content_or_bind() {
    let src = SCENE.replace("<text bind=\"payoff.text\"/>", "<text/>");
    let (_, diags) = lower_str(&src);
    assert!(faults(&diags).iter().any(|m| m.contains("needs content")));
}

#[test]
fn bind_must_hit_a_line() {
    let src = SCENE.replace("payoff.text", "missing.text");
    let (_, diags) = lower_str(&src);
    assert!(
        faults(&diags)
            .iter()
            .any(|m| m.contains("not a script line"))
    );
}

#[test]
fn program_lowers_with_src_and_with() {
    let src = SCENE.replace(
        "<clip src=\"a.mp4\" during=\"hook..payoff\"/>",
        r#"<program src="fx.js" with='{"hue": 2}'/>"#,
    );
    let (scene, diags) = lower_str(&src);
    assert!(faults(&diags).is_empty());
    let scene = scene.unwrap();
    let (src, with) = scene.tracks[1]
        .elements
        .iter()
        .find_map(|e| match &e.kind {
            ElementKind::Program { src, with } => Some((src, with)),
            _ => None,
        })
        .unwrap();
    assert_eq!(src, "fx.js");
    assert_eq!(with.as_deref(), Some("{\"hue\": 2}"));
}

#[test]
fn program_rejects_bad_with_json() {
    let src = SCENE.replace(
        "<clip src=\"a.mp4\" during=\"hook..payoff\"/>",
        r#"<program src="fx.js" with="nope"/>"#,
    );
    let (_, diags) = lower_str(&src);
    assert!(
        faults(&diags)
            .iter()
            .any(|m| m.contains("JSON object literal"))
    );
}

#[test]
fn program_rejects_non_object_with() {
    for bad in ["5", "\"x\"", "[1,2]", "null"] {
        let src = SCENE.replace(
            "<clip src=\"a.mp4\" during=\"hook..payoff\"/>",
            &format!(r#"<program src="fx.js" with='{bad}'/>"#),
        );
        let (_, diags) = lower_str(&src);
        assert!(
            faults(&diags)
                .iter()
                .any(|m| m.contains("JSON object literal")),
            "with={bad} should error: {diags:?}"
        );
    }
    // An empty object is still an object.
    let ok = SCENE.replace(
        "<clip src=\"a.mp4\" during=\"hook..payoff\"/>",
        r#"<program src="fx.js" with='{}'/>"#,
    );
    let (_, diags) = lower_str(&ok);
    assert!(faults(&diags).is_empty());
}

#[test]
fn the_smallest_scene_compiles() {
    let outcome = compile("<scene canvas=\"1x1\" fps=\"30\"/>");
    assert_eq!(outcome.diagnostics.len(), 1);
    assert_eq!(outcome.diagnostics[0].severity, Severity::Warning);
    assert_eq!(
        outcome.diagnostics[0].message,
        "scene declares no tracks; it will render nothing"
    );
    let scene = outcome.scene.unwrap();
    assert_eq!((scene.canvas.width, scene.canvas.height), (1, 1));
    assert!(scene.tracks.is_empty());
    assert!(scene.script.is_none());
    assert!(scene.render.is_none());
}

#[test]
fn a_scene_comes_only_without_errors() {
    let sources = [
        SCENE.to_string(),
        "<scene>".to_string(),
        "<scene/>".to_string(),
        SCENE.replace("hook..payoff", "hook..missing"),
        SCENE.replace("<clip src", "<clip bogus=\"1\" src"),
    ];
    for source in &sources {
        let outcome = compile(source);
        let failed = outcome.diagnostics.iter().any(|d| d.is_error());
        assert_eq!(outcome.scene.is_none(), failed, "{source}");
        for d in &outcome.diagnostics {
            let span = d.span.unwrap();
            assert!(span.start <= span.end && span.end <= source.len(), "{d:?}");
        }
    }
}

#[test]
fn syntax_faults_name_themselves() {
    let fault = |source: &str| parse_document(source).unwrap_err().message;
    for (source, part) in [
        ("<a></b>", "b"),
        ("<a x=\"1\" x=\"2\"/>", "x"),
        ("<a>&foo;</a>", "unknown entity"),
        ("<a/><b/>", "root"),
    ] {
        assert!(fault(source).contains(part), "{}", fault(source));
    }
}

#[test]
fn document_spans_are_byte_offsets() {
    let node = parse_document("<a>é<b/></a>").unwrap();
    assert_eq!(node.span, Span::new(0, 13));
    let kids = node.element_children();
    assert_eq!(kids[0].span, Span::new(5, 9));
    assert_eq!(kids[0].name_span, Span::new(6, 7));
}

#[test]
fn boards_nest_and_clips_do_not() {
    let nested = r#"<scene canvas="1x1" fps="30">
  <track kind="visual">
    <board during="0s..1s"><board><text>a</text></board></board>
  </track>
</scene>"#;
    let outcome = compile(nested);
    let scene = outcome.scene.unwrap();
    let board = &scene.tracks[0].elements[0];
    assert!(matches!(board.kind, ElementKind::Board));
    assert_eq!(board.children[0].children.len(), 1);
    let (scene, diags) = lower_str(
        r#"<scene canvas="1x1" fps="30">
  <track kind="visual">
    <clip src="a.mp4" during="0s..1s"><text>a</text></clip>
  </track>
</scene>"#,
    );
    assert_eq!(scene.is_none(), !faults(&diags).is_empty());
    if let Some(scene) = scene {
        assert!(scene.tracks[0].elements[0].children.is_empty());
    }
}

#[test]
fn clips_and_sounds_start_where_they_are_told() {
    let src = SCENE
        .replace("<clip src=\"a.mp4\"", "<clip src=\"a.mp4\" from=\"2.5s\"")
        .replace("<sound src=\"n.wav\"", "<sound src=\"n.wav\" from=\"250ms\"")
        .replace("<music src=\"bed.mp3\"", "<music src=\"bed.mp3\" from=\"1s\"");
    let (scene, diags) = lower_str(&src);
    assert!(faults(&diags).is_empty(), "{:?}", faults(&diags));
    let scene = scene.unwrap();
    let mut starts = Vec::new();
    for track in &scene.tracks {
        for element in &track.elements {
            match &element.kind {
                ElementKind::Clip { from_s, .. } => starts.push(from_s.clone()),
                ElementKind::Sound { from_s, .. } => starts.push(from_s.clone()),
                ElementKind::Music { from_s, .. } => starts.push(from_s.clone()),
                _ => {}
            }
        }
    }
    let wanted: Vec<Number> =
        ["0.25", "2.5", "1"].iter().map(|t| Number::parse(t).unwrap()).collect();
    assert_eq!(starts, wanted);
}

#[test]
fn written_markup_reads_back() {
    let tree = Markup {
        name: "scene".to_string(),
        attrs: vec![("canvas".to_string(), "a & \"b\" <c>".to_string())],
        children: vec![
            MarkupChild::Node(Markup {
                name: "track".to_string(),
                attrs: vec![],
                children: vec![MarkupChild::Node(Markup {
                    name: "clip".to_string(),
                    attrs: vec![("src".to_string(), "x.mp4".to_string())],
                    children: vec![],
                })],
            }),
        ],
    };
    let text = write_markup(&tree);
    let node = parse_document(&text).unwrap();
    assert_eq!(node.name, "scene");
    assert_eq!(node.attr("canvas").unwrap().value, "a & \"b\" <c>");
    let tracks = node.element_children();
    assert_eq!(tracks.len(), 1);
    assert_eq!(tracks[0].element_children()[0].attr("src").unwrap().value, "x.mp4");
}

#[test]
fn decoding_undoes_escaping() {
    for value in ["a & b", "&amp;", "\"q\" 'a'", "<x>&lt;</x>", "&&\"\"", ""] {
        let node = parse(&format!("<a x=\"{}\"/>", esc_attr(value))).unwrap();
        assert_eq!(node.attr("x").unwrap().value, value);
    }
    assert_eq!(esc_attr("&amp;"), "&amp;amp;");
}
