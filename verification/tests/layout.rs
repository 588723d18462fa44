use scene_engine::anchor::{AnchorRef, Granularity};
use scene_engine::anim::{
    ease_in_out, ease_out_back, ease_out_cubic, entrance_frames, evaluate, Ratio, RISE_TRAVEL_PX,
};
use scene_engine::layout::{layout_frame, Fit, Measure, Rect, Size, EDGE_MARGIN};
use scene_engine::number::Number;
use scene_engine::resolved::{
    FrameRange, ResolvedElement, ResolvedScene, ResolvedTiming, ResolvedTrack, SampleRange, Spot,
};
use scene_engine::scene::{
    AnimKind, Canvas, CaptionStyle, Color, ElementKind, NamedPlacement, Rational, TextContent,
    TrackKind,
};
use scene_engine::span::Span;

fn num(text: &str) -> Number {
    Number::parse(text).unwrap()
}

fn value(r: Ratio) -> f64 {
    r.num as f64 / r.den as f64
}

fn tenths(num: i128) -> Ratio {
    Ratio { num, den: 10 }
}

/// Pixels in rect units.
fn px(pixels: f64) -> i128 {
    (pixels * 65536.0) as i128
}

fn point(x: f64, y: f64) -> Spot {
    Spot::Point { x: px(x) as i64, y: px(y) as i64 }
}

fn rect(x: f64, y: f64, w: f64, h: f64) -> Rect {
    Rect { x: px(x), y: px(y), w: px(w), h: px(h) }
}

fn size(w: f64, h: f64) -> Size {
    Size { w: (w * 32768.0) as i64, h: (h * 32768.0) as i64 }
}

#[test]
fn entrance_is_capped() {
    assert_eq!(entrance_frames(90), 15);
    assert_eq!(entrance_frames(3), 3);
    assert_eq!(entrance_frames(0), 1); // degenerate span still safe
}

#[test]
fn ends_at_identity() {
    for kind in [AnimKind::Rise, AnimKind::Fade, AnimKind::Pop] {
        let (opacity, transform) = evaluate(kind, 15, 90);
        assert_eq!(value(opacity), 1.0);
        assert!(transform.is_identity(), "{kind:?} not settled");
    }
    // and stays there for the rest of the span
    let (_, transform) = evaluate(AnimKind::Rise, 89, 90);
    assert!(transform.is_identity());
}

#[test]
fn rise_comes_from_below() {
    let (opacity, transform) = evaluate(AnimKind::Rise, 0, 90);
    assert_eq!(value(opacity), 0.0);
    assert_eq!(value(transform.dy), RISE_TRAVEL_PX as f64);
    let (_, mid) = evaluate(AnimKind::Rise, 7, 90);
    assert!(value(mid.dy) > 0.0 && value(mid.dy) < RISE_TRAVEL_PX as f64);
}

#[test]
fn fade_only_fades() {
    let (opacity, transform) = evaluate(AnimKind::Fade, 0, 90);
    assert_eq!(value(opacity), 0.0);
    assert!(transform.is_identity());
    let (mid, _) = evaluate(AnimKind::Fade, 7, 90);
    assert!(value(mid) > 0.0 && value(mid) < 1.0);
}

#[test]
fn pop_scales_up() {
    let (opacity, transform) = evaluate(AnimKind::Pop, 0, 90);
    assert_eq!(value(opacity), 0.0);
    assert_eq!(value(transform.scale), 0.7);
}

#[test]
fn endpoints() {
    for f in [ease_out_cubic, ease_in_out] {
        assert_eq!(value(f(tenths(0))), 0.0);
        assert_eq!(value(f(tenths(10))), 1.0);
    }
    assert_eq!(value(ease_out_back(tenths(0))), 0.0);
    assert!((value(ease_out_back(tenths(10))) - 1.0).abs() < 1e-9);
}

#[test]
fn back_overshoots() {
    // The signature of an ease-out-back: somewhere mid-curve it
    // passes 1.0 before settling back.
    assert!((6..9).any(|i| value(ease_out_back(tenths(i))) > 1.0));
}

#[test]
fn clamps_out_of_range() {
    assert_eq!(value(ease_out_cubic(tenths(-10))), 0.0);
    assert_eq!(value(ease_out_cubic(tenths(20))), 1.0);
}

/// Stub measurer: text/captions → 200×50, boards → 100×100, rest → None.
struct StubMeasure;
impl Measure for StubMeasure {
    fn measure(&mut self, element: &ResolvedElement, _: u32, _: Rational) -> Option<Size> {
        match &element.kind {
            ElementKind::Text { .. } | ElementKind::Captions { .. } => {
                Some(size(200.0, 50.0))
            }
            ElementKind::Board => Some(size(100.0, 100.0)),
            _ => None,
        }
    }
}

struct NoMeasure;
impl Measure for NoMeasure {
    fn measure(&mut self, _: &ResolvedElement, _: u32, _: Rational) -> Option<Size> {
        None
    }
}

fn timing(start: u32, end: u32) -> ResolvedTiming {
    ResolvedTiming {
        frames: FrameRange { start, end },
        samples: SampleRange {
            start: u64::from(start) * 1600,
            end: u64::from(end) * 1600,
        },
    }
}

fn element(
    kind: ElementKind,
    at: Option<Spot>,
    anim: Option<AnimKind>,
) -> ResolvedElement {
    ResolvedElement {
        id: None,
        kind,
        timing: timing(0, 90),
        placement: at,
        anim,
        children: Vec::new(),
        span: Span::new(0, 0),
    }
}

fn scene(elements: Vec<ResolvedElement>) -> ResolvedScene {
    ResolvedScene {
        canvas: Canvas {
            width: 1920,
            height: 1080,
        },
        frame_rate: Rational {
            numerator: 30,
            denominator: 1,
        },
        clear: Color::transparent(),
        script: None,
        program: timing(0, 90),
        tracks: vec![ResolvedTrack {
            id: "v".to_string(),
            kind: TrackKind::Visual,
            anchor: None,
            elements,
        }],
    }
}

#[test]
fn clip_covers_canvas() {
    let s = scene(vec![element(
        ElementKind::Clip {
            src: "a.mp4".into(),
            from_s: num("0.0"),
        },
        Some(Spot::Named(NamedPlacement::Top)),
        None,
    )]);
    let list = layout_frame(&s, 10, &mut StubMeasure).unwrap();
    assert_eq!(list.len(), 1);
    let placed = &list[0];
    assert_eq!(
        placed.rect,
        rect(0.0, 0.0, 1920.0, 1080.0)
    );
    assert_eq!(placed.fit, Fit::Cover);
    assert_eq!(placed.focal, Spot::Named(NamedPlacement::Top));
}

#[test]
fn named_placements() {
    let cases = [
        (
            NamedPlacement::Center,
            rect(860.0, 515.0, 200.0, 50.0),
        ),
        (
            NamedPlacement::Top,
            rect(860.0, 48.0, 200.0, 50.0),
        ),
        (
            NamedPlacement::Bottom,
            rect(860.0, 982.0, 200.0, 50.0),
        ),
        (
            NamedPlacement::Left,
            rect(48.0, 515.0, 200.0, 50.0),
        ),
        (
            NamedPlacement::Right,
            rect(1672.0, 515.0, 200.0, 50.0),
        ),
    ];
    for (named, want) in cases {
        let s = scene(vec![element(
            ElementKind::Text {
                content: TextContent::Literal("x".into()),
            },
            Some(Spot::Named(named)),
            None,
        )]);
        let list = layout_frame(&s, 0, &mut StubMeasure).unwrap();
        assert_eq!(list[0].rect, want, "{named:?}");
    }
}

#[test]
fn point_placement_centres_the_box() {
    let s = scene(vec![element(
        ElementKind::Text {
            content: TextContent::Literal("x".into()),
        },
        Some(point(400.0, 300.0)),
        None,
    )]);
    let list = layout_frame(&s, 0, &mut StubMeasure).unwrap();
    assert_eq!(
        list[0].rect,
        rect(300.0, 275.0, 200.0, 50.0)
    );
}

#[test]
fn captions_default_to_bottom() {
    let s = scene(vec![element(
        ElementKind::Captions {
            style: CaptionStyle::Karaoke,
            source: AnchorRef {
                source: "voice".into(),
                granularity: Granularity::Word,
            },
        },
        None,
        None,
    )]);
    let list = layout_frame(&s, 0, &mut StubMeasure).unwrap();
    assert_eq!(list[0].rect.y, px(1080.0) - EDGE_MARGIN - px(50.0));
}

#[test]
fn element_outside_its_frames_is_absent() {
    let mut el = element(
        ElementKind::Text {
            content: TextContent::Literal("x".into()),
        },
        None,
        None,
    );
    el.timing = timing(30, 60);
    let s = scene(vec![el]);
    assert!(layout_frame(&s, 10, &mut StubMeasure).unwrap().is_empty());
    assert_eq!(layout_frame(&s, 30, &mut StubMeasure).unwrap().len(), 1);
    // end is exclusive
    assert!(layout_frame(&s, 60, &mut StubMeasure).unwrap().is_empty());
}

#[test]
fn audio_elements_are_never_placed() {
    let s = scene(vec![
        element(
            ElementKind::Music {
                src: "bed.mp3".into(),
                gain_db: num("-14.0"),
                duck: None,
                from_s: num("0.0"),
            },
            None,
            None,
        ),
        element(
            ElementKind::Text {
                content: TextContent::Literal("x".into()),
            },
            None,
            None,
        ),
    ]);
    let list = layout_frame(&s, 0, &mut StubMeasure).unwrap();
    assert_eq!(list.len(), 1);
    assert!(matches!(list[0].element.kind, ElementKind::Text { .. }));
}

#[test]
fn z_follows_document_order() {
    let s = scene(vec![
        element(
            ElementKind::Clip {
                src: "a.mp4".into(),
                from_s: num("0.0"),
            },
            None,
            None,
        ),
        element(
            ElementKind::Text {
                content: TextContent::Literal("x".into()),
            },
            None,
            None,
        ),
    ]);
    let list = layout_frame(&s, 0, &mut StubMeasure).unwrap();
    assert!(list[0].z < list[1].z);
}

#[test]
fn board_stacks_children() {
    let mut board = element(ElementKind::Board, None, None);
    for _ in 0..2 {
        board.children.push(element(
            ElementKind::Text {
                content: TextContent::Literal("x".into()),
            },
            None,
            None,
        ));
    }
    let s = scene(vec![board]);
    let list = layout_frame(&s, 0, &mut StubMeasure).unwrap();
    let board = &list[0];
    // size = 2*pad + widest child; h = 2*pad + 2*50 + gap
    assert_eq!(board.rect.w, px(24.0 * 2.0 + 200.0));
    assert_eq!(board.rect.h, px(24.0 * 2.0 + 100.0 + 16.0));
    assert_eq!(board.children.len(), 2);
    // children relative to board origin, centred horizontally
    assert_eq!(board.children[0].rect.y, px(24.0));
    assert_eq!(board.children[1].rect.y, px(24.0 + 50.0 + 16.0));
    assert_eq!(board.children[0].rect.x, (board.rect.w - px(200.0)) / 2);
}

#[test]
fn nested_boards_recurse() {
    // board > board > text; the inner board sizes from its own
    // stack (not Measure), and grandchildren are placed, not dropped.
    let mut inner = element(ElementKind::Board, None, None);
    inner.children.push(element(
        ElementKind::Text {
            content: TextContent::Literal("deep".into()),
        },
        None,
        None,
    ));
    let mut outer = element(ElementKind::Board, None, None);
    outer.children.push(inner);
    let s = scene(vec![outer]);

    let list = layout_frame(&s, 0, &mut StubMeasure).unwrap();
    let outer = &list[0];
    // inner = 200+2*pad × 50+2*pad; outer = inner + 2*pad.
    let inner_w = 200.0 + 24.0 * 2.0;
    let inner_h = 50.0 + 24.0 * 2.0;
    assert_eq!(outer.rect.w, px(inner_w + 24.0 * 2.0));
    assert_eq!(outer.rect.h, px(inner_h + 24.0 * 2.0));
    assert_eq!(outer.children.len(), 1);
    let inner = &outer.children[0];
    assert!(matches!(inner.element.kind, ElementKind::Board));
    assert_eq!(inner.rect.w, px(inner_w));
    assert_eq!(inner.children.len(), 1, "grandchildren are placed");
    let text = &inner.children[0];
    assert!(matches!(text.element.kind, ElementKind::Text { .. }));
    // Grandchild sits at the inner board's pad offset, centred.
    assert_eq!(text.rect.y, px(24.0));
    assert_eq!(text.rect.x, px((inner_w - 200.0) / 2.0));
}

#[test]
fn anim_entrance_then_identity() {
    let s = scene(vec![element(
        ElementKind::Text {
            content: TextContent::Literal("x".into()),
        },
        None,
        Some(AnimKind::Rise),
    )]);
    let early = layout_frame(&s, 0, &mut StubMeasure).unwrap();
    assert_eq!(value(early[0].opacity), 0.0);
    assert!(value(early[0].transform.dy) > 0.0);
    let settled = layout_frame(&s, 60, &mut StubMeasure).unwrap();
    assert_eq!(value(settled[0].opacity), 1.0);
    assert!(settled[0].transform.is_identity());
}

#[test]
fn unmeasurable_content_is_dropped() {
    let s = scene(vec![element(
        ElementKind::Text {
            content: TextContent::Literal("x".into()),
        },
        None,
        None,
    )]);
    assert!(layout_frame(&s, 0, &mut NoMeasure).unwrap().is_empty());
    // ...but a clip still covers; it needs no measurement
    let s = scene(vec![element(
        ElementKind::Clip {
            src: "a.mp4".into(),
            from_s: num("0.0"),
        },
        None,
        None,
    )]);
    assert_eq!(layout_frame(&s, 0, &mut NoMeasure).unwrap().len(), 1);
}

#[test]
fn deterministic() {
    let mut board = element(
        ElementKind::Board,
        Some(point(300.0, 300.0)),
        Some(AnimKind::Pop),
    );
    board.children.push(element(
        ElementKind::Text {
            content: TextContent::Literal("x".into()),
        },
        None,
        Some(AnimKind::Fade),
    ));
    let s = scene(vec![
        element(
            ElementKind::Clip {
                src: "a.mp4".into(),
                from_s: num("0.0"),
            },
            None,
            None,
        ),
        board,
    ]);
    for frame in [0, 7, 45, 89] {
        let a = layout_frame(&s, frame, &mut StubMeasure).unwrap();
        let b = layout_frame(&s, frame, &mut StubMeasure).unwrap();
        assert_eq!(a.len(), b.len());
        for (x, y) in a.iter().zip(&b) {
            assert_eq!(x.rect, y.rect);
            assert_eq!(x.opacity, y.opacity);
            assert_eq!(x.transform, y.transform);
        }
    }
}

#[test]
fn curves_have_their_formulas() {
    // 1 - 0.5^3, 0.25 * (3 - 1), 1 - 2.70158 / 8 + 1.70158 / 4.
    assert_eq!(value(ease_out_cubic(tenths(5))), 0.875);
    assert_eq!(value(ease_in_out(tenths(5))), 0.5);
    assert_eq!(value(ease_in_out(tenths(2))), 0.104);
    assert!((value(ease_out_back(tenths(5))) - 1.0876975).abs() < 1e-12);
}

#[test]
fn entrances_follow_their_formulas() {
    let (opacity, transform) = evaluate(AnimKind::Rise, 3, 90);
    assert!((value(opacity) - 0.32).abs() < 1e-12);
    assert!((value(transform.dy) - 64.0 * 0.512).abs() < 1e-9);
    let (opacity, transform) = evaluate(AnimKind::Pop, 5, 10);
    assert_eq!(value(opacity), 1.0);
    assert!((value(transform.scale) - (0.7 + 0.3 * 1.0876975)).abs() < 1e-9);
}

struct Huge;
impl Measure for Huge {
    fn measure(&mut self, _: &ResolvedElement, _: u32, _: Rational) -> Option<Size> {
        Some(Size { w: i64::MAX, h: 1 })
    }
}

#[test]
fn far_and_large_elements_are_drawn() {
    let far = || Some(Spot::Point { x: i64::MAX, y: i64::MIN });
    let s = scene(vec![
        element(ElementKind::Image { src: "a.png".into() }, far(), None),
        element(ElementKind::Text { content: TextContent::Literal("x".into()) }, far(), None),
    ]);
    let list = layout_frame(&s, 0, &mut Huge).unwrap();
    assert_eq!(list.len(), 2);
    assert_eq!(list[0].rect, rect(0.0, 0.0, 1920.0, 1080.0));
    assert_eq!(list[1].rect, Rect { x: 0, y: i64::MIN as i128 - 1, w: 2 * i64::MAX as i128, h: 2 });
    // Members of a stack add up past one size.
    let mut board = element(ElementKind::Board, None, None);
    for _ in 0..3 {
        let text = ElementKind::Text { content: TextContent::Literal("x".into()) };
        board.children.push(element(text, None, None));
    }
    let s = scene(vec![board]);
    let list = layout_frame(&s, 0, &mut Tall).unwrap();
    assert_eq!(list[0].rect.h, 6 * i64::MAX as i128 + px(24.0 * 2.0 + 16.0 * 2.0));
    assert_eq!(list[0].children[2].rect.y, 4 * i64::MAX as i128 + px(24.0 + 16.0 * 2.0));
}

#[test]
fn centres_are_halfway() {
    assert_eq!(rect(10.0, 20.0, 30.0, 40.0).center(), (2 * px(25.0), 2 * px(40.0)));
    assert!(size(0.0, 5.0).is_empty());
    assert!(!size(1.0, 5.0).is_empty());
}

struct Tall;
impl Measure for Tall {
    fn measure(&mut self, _: &ResolvedElement, _: u32, _: Rational) -> Option<Size> {
        Some(Size { w: 1, h: i64::MAX })
    }
}

struct Asked(Vec<(bool, u32)>);
impl Measure for Asked {
    fn measure(&mut self, e: &ResolvedElement, local_frame: u32, rate: Rational) -> Option<Size> {
        assert_eq!(rate.numerator, 30);
        self.0.push((matches!(e.kind, ElementKind::Board), local_frame));
        Some(size(10.0, 10.0))
    }
}

#[test]
fn only_what_shows_is_measured() {
    let text = || {
        element(ElementKind::Text { content: TextContent::Literal("x".into()) }, None, None)
    };
    let mut late = text();
    late.timing = timing(8, 60);
    let mut board = element(ElementKind::Board, None, None);
    board.children.push(late);
    // A board that is over takes its children along.
    let mut over = element(ElementKind::Board, None, None);
    over.timing = timing(0, 5);
    over.children.push(text());
    let clip = element(ElementKind::Clip { src: "a.mp4".into(), from_s: Number::zero() }, None, None);
    let mut s = scene(vec![board, over, clip]);
    let mut asked = Asked(Vec::new());
    assert_eq!(layout_frame(&s, 10, &mut asked).unwrap().len(), 2);
    // The board is sized by its stack: it is not asked for.
    assert_eq!(asked.0, [(false, 2)]);
    // Nothing on an audio track shows.
    s.tracks[0].kind = TrackKind::Audio;
    let mut asked = Asked(Vec::new());
    assert!(layout_frame(&s, 10, &mut asked).unwrap().is_empty());
    assert!(asked.0.is_empty());
}

/// Answers for boards alone.
struct Panels(u32);
impl Measure for Panels {
    fn measure(&mut self, e: &ResolvedElement, _: u32, _: Rational) -> Option<Size> {
        match e.kind {
            ElementKind::Board => {
                self.0 += 1;
                Some(size(30.0, 20.0))
            }
            _ => None,
        }
    }
}

#[test]
fn boards_are_measured_as_a_fallback() {
    let text = || {
        element(ElementKind::Text { content: TextContent::Literal("x".into()) }, None, None)
    };
    let mut inner = element(ElementKind::Board, None, None);
    inner.children.push(text());
    let mut outer = element(ElementKind::Board, None, None);
    outer.children.push(inner);
    // Nested, a board whose children cannot be measured is a panel.
    let s = scene(vec![outer]);
    let mut panels = Panels(0);
    let list = layout_frame(&s, 0, &mut panels).unwrap();
    assert_eq!(panels.0, 1);
    assert_eq!(list[0].rect.w, px(30.0 + 24.0 * 2.0));
    assert_eq!(list[0].children[0].rect.h, px(20.0));
    // On the canvas, one with children is not, and one without is.
    let mut full = element(ElementKind::Board, None, None);
    full.children.push(text());
    let s = scene(vec![full, element(ElementKind::Board, None, None)]);
    let mut panels = Panels(0);
    let list = layout_frame(&s, 0, &mut panels).unwrap();
    assert_eq!(panels.0, 1);
    assert_eq!(list.len(), 1);
    assert_eq!(list[0].rect.w, px(30.0));
}

#[test]
fn order_values_count_up() {
    let text = || {
        element(ElementKind::Text { content: TextContent::Literal("x".into()) }, None, None)
    };
    let mut inner = element(ElementKind::Board, None, None);
    inner.children.push(text());
    let mut board = element(ElementKind::Board, None, None);
    board.children.push(text());
    board.children.push(inner);
    let s = scene(vec![text(), board, text()]);
    let list = layout_frame(&s, 0, &mut StubMeasure).unwrap();
    let board = &list[1];
    let inner = &board.children[1];
    let all = [
        list[0].z,
        board.children[0].z,
        inner.children[0].z,
        inner.z,
        board.z,
        list[2].z,
    ];
    assert_eq!(all, [0, 1, 2, 3, 4, 5]);
}
