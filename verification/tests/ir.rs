use scene_engine::anchor::{
    Anchor, AnchorRange, AnchorRef, BindPath, BindProp, Edge, Granularity, Offset, OffsetUnit,
};
use scene_engine::diagnostic::{has_errors, Diagnostic};
use scene_engine::number::Number;
use scene_engine::scene::{
    hex_text, parse_gain_db, parse_secs, script_fingerprint, AnimKind, Canvas, Color,
    NamedPlacement, Placement, Rational, Script, ScriptLine,
};
use scene_engine::span::Span;

fn num(text: &str) -> Number {
    Number::parse(text).unwrap()
}

#[test]
fn plain_cue() {
    let a = Anchor::parse("hook").unwrap();
    assert_eq!(a, Anchor::Cue { cue: "hook".into(), edge: Edge::Start, offset: None });
}

#[test]
fn cue_with_edge_and_offset() {
    assert_eq!(
        Anchor::parse("payoff.end-6f").unwrap(),
        Anchor::Cue {
            cue: "payoff".into(),
            edge: Edge::End,
            offset: Some(Offset { value: num("-6"), unit: OffsetUnit::Frames }),
        }
    );
}

#[test]
fn word_offset() {
    assert_eq!(
        Anchor::parse("hook+2w").unwrap(),
        Anchor::Cue {
            cue: "hook".into(),
            edge: Edge::Start,
            offset: Some(Offset { value: num("2"), unit: OffsetUnit::Words }),
        }
    );
}

#[test]
fn hyphenated_cue_vs_negative_offset() {
    // `my-cue` is one identifier; `hook-6f` is cue + offset.
    assert_eq!(
        Anchor::parse("my-cue").unwrap(),
        Anchor::Cue { cue: "my-cue".into(), edge: Edge::Start, offset: None }
    );
    assert_eq!(
        Anchor::parse("hook-6f").unwrap(),
        Anchor::Cue {
            cue: "hook".into(),
            edge: Edge::Start,
            offset: Some(Offset { value: num("-6"), unit: OffsetUnit::Frames }),
        }
    );
}

#[test]
fn literals() {
    assert_eq!(
        Anchor::parse("1.5s").unwrap(),
        Anchor::Literal { value: num("1.5"), unit: OffsetUnit::Seconds }
    );
    assert_eq!(
        Anchor::parse("90f").unwrap(),
        Anchor::Literal { value: num("90"), unit: OffsetUnit::Frames }
    );
    assert!(Anchor::parse("3w").is_err());
}

#[test]
fn ranges() {
    let r = AnchorRange::parse("hook..payoff").unwrap();
    assert_eq!(r.start, Anchor::Cue { cue: "hook".into(), edge: Edge::Start, offset: None });
    assert_eq!(r.end, Anchor::Cue { cue: "payoff".into(), edge: Edge::End, offset: None });
}

#[test]
fn single_cue_expands_to_span() {
    let r = AnchorRange::parse("beat").unwrap();
    assert_eq!(r.end, Anchor::Cue { cue: "beat".into(), edge: Edge::End, offset: None });
}

#[test]
fn anchor_refs() {
    assert_eq!(
        AnchorRef::parse("voice").unwrap(),
        AnchorRef { source: "voice".into(), granularity: Granularity::Line }
    );
    assert_eq!(
        AnchorRef::parse("voice.words").unwrap(),
        AnchorRef { source: "voice".into(), granularity: Granularity::Word }
    );
    assert!(AnchorRef::parse("voice.foo").is_err());
}

#[test]
fn bind_paths() {
    assert_eq!(
        BindPath::parse("payoff.text").unwrap(),
        BindPath { line: "payoff".into(), property: BindProp::Text }
    );
    assert!(BindPath::parse("payoff").is_err());
    assert!(BindPath::parse("payoff.words").is_err());
}

#[test]
fn a_cue_range_keeps_its_edges() {
    // The edges of a two-cue range are the cue's start and the other's end,
    // and a lone cue with an explicit edge is still the whole cue's span.
    let r = AnchorRange::parse("a.start+1s..b-2f").unwrap();
    assert_eq!(
        r.start,
        Anchor::Cue {
            cue: "a".into(),
            edge: Edge::Start,
            offset: Some(Offset { value: num("1"), unit: OffsetUnit::Seconds }),
        }
    );
    assert!(matches!(r.end, Anchor::Cue { .. }));
    assert!(AnchorRange::parse("").is_err());
    assert!(AnchorRange::parse("hook..").is_err());
}

#[test]
fn canvas_parse() {
    assert_eq!(Canvas::parse("1080x1920").unwrap(), Canvas { width: 1080, height: 1920 });
    assert!(Canvas::parse("1080").is_err());
    assert!(Canvas::parse("0x1920").is_err());
}

#[test]
fn rational_parse() {
    assert_eq!(Rational::parse("30").unwrap(), Rational { numerator: 30, denominator: 1 });
    assert_eq!(
        Rational::parse("30000/1001").unwrap(),
        Rational { numerator: 30000, denominator: 1001 }
    );
    assert!(Rational::parse("29.97").is_err());
    assert!(Rational::parse("0").is_err());
}

#[test]
fn color_parse() {
    assert_eq!(
        Color::parse("#0e0e12").unwrap(),
        Color { r: 0x0e, g: 0x0e, b: 0x12, a: 255 }
    );
    assert_eq!(Color::parse("#abc").unwrap().a, 255);
    assert_eq!(Color::parse("#11223344").unwrap().a, 0x44);
    assert!(Color::parse("red").is_err());
    // Non-ASCII hex is an error: `#中` is 3 bytes and would land in the #rgb
    // arm mid-char.
    assert!(Color::parse("#中").is_err());
    assert!(Color::parse("#ab中").is_err());
}

#[test]
fn colors_are_hex_digits_only() {
    for text in ["#+1+2+3", "#+a+b+c+d", "#12345g", "#-12", "# 12", "#+12"] {
        assert_eq!(Color::parse(text), Err(format!("invalid color `{text}`")));
    }
}

#[test]
fn short_colors_double_each_digit() {
    assert_eq!(Color::parse("#abc").unwrap(), Color { r: 0xaa, g: 0xbb, b: 0xcc, a: 255 });
    assert_eq!(Color::transparent(), Color { r: 0, g: 0, b: 0, a: 0 });
    assert_eq!(Color::white(), Color { r: 255, g: 255, b: 255, a: 255 });
    assert_eq!(Color::black(), Color { r: 0, g: 0, b: 0, a: 255 });
}

#[test]
fn placement_parse() {
    assert_eq!(Placement::parse("center").unwrap(), Placement::Named(NamedPlacement::Center));
    assert_eq!(
        Placement::parse("540,960").unwrap(),
        Placement::Point { x: num("540.0"), y: num("960.0") }
    );
    assert!(Placement::parse("middle").is_err());
}

#[test]
fn animations_have_names() {
    assert_eq!(AnimKind::parse("rise").unwrap(), AnimKind::Rise);
    assert_eq!(AnimKind::parse("fade").unwrap(), AnimKind::Fade);
    assert_eq!(AnimKind::parse("pop").unwrap(), AnimKind::Pop);
    assert!(AnimKind::parse("spin").is_err());
}

#[test]
fn secs_parse() {
    assert_eq!(parse_secs("12.37s").unwrap(), num("12.37"));
    assert_eq!(parse_secs("250ms").unwrap(), num("0.25"));
    assert_eq!(parse_secs("0s").unwrap(), num("0.0"));
    // Frame counts are refused: the source's fps is not known here.
    assert!(parse_secs("12f").is_err());
    assert!(parse_secs("abc").is_err());
    assert!(parse_secs("soon").is_err());
    // Bare numbers are ambiguous (seconds? frames?); require a unit.
    assert!(parse_secs("1.5").is_err());
    assert!(parse_secs("-1s").is_err());
    // Same trap as gains: nan/inf must not reach a seek.
    assert!(parse_secs("nans").is_err());
    assert!(parse_secs("1e999s").is_err());
}

#[test]
fn gain_parse() {
    assert_eq!(parse_gain_db("-14dB").unwrap(), num("-14.0"));
    assert_eq!(parse_gain_db("0").unwrap(), num("0.0"));
    assert!(parse_gain_db("loud").is_err());
    // A float parser accepts these; they must never reach a filtergraph.
    assert!(parse_gain_db("nan").is_err());
    assert!(parse_gain_db("inf").is_err());
    assert!(parse_gain_db("1e999").is_err());
}

#[test]
fn numbers_are_compared_by_value() {
    assert_eq!(num("1.50"), num("15e-1"));
    assert_ne!(num("1.5"), num("-1.5"));
    assert!(num("0.1").less(&num("0.2")));
    assert!(!num("2e1").less(&num("20")));
    assert!(num("-3").less(&num("-2.999")));
    assert!(num("-inf").less(&num("-1e300")));
    assert!(!num("nan").less(&num("1")));
    assert!(num("1e308").is_finite());
    assert!(!num("1e999").is_finite());
    assert!(!num("nan").is_finite());
    assert!(num("-0.5").is_negative());
    assert!(Number::parse("").is_none());
    assert!(Number::parse("1.2.3").is_none());
    assert!(Number::parse(" 1").is_none());
    let (negative, digits, exponent) = num("-12.37").parts().unwrap();
    assert!(negative);
    assert_eq!(format!("{}e{}", digits, exponent), "1237e-2");
}

#[test]
fn spans_join_to_their_hull() {
    assert_eq!(Span::new(3, 7).join(Span::new(5, 12)), Span::new(3, 12));
    assert_eq!(Span::new(5, 12).join(Span::new(3, 7)), Span::new(3, 12));
    assert_eq!(Span::point(4), Span::new(4, 4));
}

#[test]
fn one_error_is_enough() {
    let warning = Diagnostic::warning("w".to_string(), Some(Span::point(0)));
    let error = Diagnostic::error("e".to_string(), Some(Span::point(0)));
    assert!(!warning.is_error());
    assert!(error.is_error());
    assert!(!has_errors(&[]));
    let both = vec![warning, error];
    assert!(has_errors(&both));
    assert!(!has_errors(&both[..1]));
}

fn script(lines: &[(&str, &str)]) -> Script {
    Script {
        track: "voice".into(),
        voice: None,
        lines: lines
            .iter()
            .map(|(id, text)| ScriptLine {
                id: id.to_string(),
                text: text.to_string(),
                span: Span::point(0),
            })
            .collect(),
        span: Span::point(0),
    }
}

#[test]
fn fingerprints_follow_the_script() {
    assert_eq!(script_fingerprint(&script(&[])), "8296168289c4e8f9");
    assert_eq!(script_fingerprint(&script(&[("hook", "one two")])), "1f5b69fbaaa451df");
    // Moving a character over the delimiter changes the hash.
    assert_eq!(script_fingerprint(&script(&[("ab", "c")])), "c69272fda0986dd4");
    assert_eq!(script_fingerprint(&script(&[("a", "bc")])), "f62dedfe4caeb4ca");
    assert_eq!(hex_text(0xbeef, 6), "00beef");
    // So does moving one from a text to the next.
    let a = script_fingerprint(&script(&[("x", "ab"), ("y", "c")]));
    let b = script_fingerprint(&script(&[("x", "a"), ("y", "bc")]));
    assert_ne!(a, b);
    // The voice and the spans do not count.
    let mut spoken = script(&[("x", "ab"), ("y", "c")]);
    spoken.voice = Some("ada".into());
    spoken.span = Span::new(3, 90);
    spoken.lines[0].span = Span::new(5, 9);
    assert_eq!(script_fingerprint(&spoken), a);
    assert_eq!(a.len(), 16);
    assert!(a.chars().all(|c| c.is_ascii_digit() || ('a'..='f').contains(&c)));
}
