//! The canonical scene model. One `Scene` is the complete, validated content
//! of a `.scene` document after lowering.

use vstd::prelude::*;
use vstd::slice::slice_subrange;

use crate::anchor::{
    AnchorRange, AnchorRangeView, AnchorRef, AnchorRefView, BindPath, BindPathView,
};
use crate::number::{Number, NumberView};
use crate::span::Span;
use crate::text::{
    cat3, chars_of, ends_with, find_char, parse_u32, string_of, text_eq, trim,
};

verus! {

/// Wire format identifier emitted alongside serialized scenes.
pub const IR_FORMAT: &'static str = "scene.ir@1";

#[derive(Debug, PartialEq)]
pub struct Scene {
    pub canvas: Canvas,
    pub frame_rate: Rational,
    pub clear: Color,
    pub script: Option<Script>,
    pub tracks: Vec<Track>,
    pub render: Option<RenderTarget>,
}

#[derive(Debug, Clone, Copy, PartialEq, Eq, Structural)]
pub struct Canvas {
    pub width: u32,
    pub height: u32,
}

/// Frame rate as a rational so that NTSC rates stay exact (`30000/1001`).
#[derive(Debug, Clone, Copy, PartialEq, Eq, Structural)]
pub struct Rational {
    pub numerator: u32,
    pub denominator: u32,
}

#[derive(Debug, Clone, Copy, PartialEq, Eq, Structural)]
pub struct Color {
    pub r: u8,
    pub g: u8,
    pub b: u8,
    pub a: u8,
}

/// The spoken content that every anchor can resolve against. `track` names
/// the timing source (an audio track id) that this script's voice lives on.
#[derive(Debug, PartialEq)]
pub struct Script {
    pub track: String,
    pub voice: Option<String>,
    pub lines: Vec<ScriptLine>,
    pub span: Span,
}

#[derive(Debug, PartialEq)]
pub struct ScriptLine {
    pub id: String,
    pub text: String,
    pub span: Span,
}

#[derive(Debug, Clone, Copy, PartialEq, Eq, Structural)]
pub enum TrackKind {
    Visual,
    Audio,
}

#[derive(Debug, PartialEq)]
pub struct Track {
    pub id: String,
    pub kind: TrackKind,
    pub anchor: Option<AnchorRef>,
    pub elements: Vec<Element>,
    pub span: Span,
}

#[derive(Debug, PartialEq)]
pub struct Element {
    pub id: Option<String>,
    pub kind: ElementKind,
    pub timing: Option<AnchorRange>,
    pub placement: Option<Placement>,
    pub anim: Option<AnimKind>,
    pub children: Vec<Element>,
    pub span: Span,
}

#[derive(Debug, PartialEq)]
pub enum ElementKind {
    /// Frame-sampled video footage. `from_s` is a source-time offset: the
    /// clip plays `src[from .. from + during]` rather than starting at the
    /// source's first frame.
    Clip { src: String, from_s: Number },
    Image { src: String },
    Text { content: TextContent },
    /// A positioned group with its own children.
    Board,
    Captions { style: CaptionStyle, source: AnchorRef },
    Music { src: String, gain_db: Number, duck: Option<String>, from_s: Number },
    Sound { src: String, gain_db: Number, from_s: Number },
    /// A sandboxed authored program that emits a draw list per frame. `with`
    /// is an optional JSON payload passed to it.
    Program { src: String, with: Option<String> },
}

#[derive(Debug, PartialEq)]
pub enum TextContent {
    Literal(String),
    Bind(BindPath),
}

#[derive(Debug, Clone, Copy, PartialEq, Eq, Structural)]
pub enum CaptionStyle {
    Karaoke,
    Block,
}

/// `at="center"` or `at="540,960"` in canvas pixels.
#[derive(Debug, PartialEq)]
pub enum Placement {
    Named(NamedPlacement),
    Point { x: Number, y: Number },
}

#[derive(Debug, Clone, Copy, PartialEq, Eq, Structural)]
pub enum NamedPlacement {
    Center,
    Top,
    Bottom,
    Left,
    Right,
}

/// Named entrance animations; timings derive from the element's resolved
/// span.
#[derive(Debug, Clone, Copy, PartialEq, Eq, Structural)]
pub enum AnimKind {
    Rise,
    Fade,
    Pop,
}

#[derive(Debug, PartialEq)]
pub struct RenderTarget {
    pub target: String,
    pub span: Span,
}

// Views.

pub open spec fn text_view(s: Option<String>) -> Option<Seq<char>> {
    match s {
        Some(t) => Some(t@),
        None => None,
    }
}

pub struct ScriptLineView {
    pub id: Seq<char>,
    pub text: Seq<char>,
    pub span: Span,
}

pub struct ScriptView {
    pub track: Seq<char>,
    pub voice: Option<Seq<char>>,
    pub lines: Seq<ScriptLineView>,
    pub span: Span,
}

impl View for ScriptLine {
    type V = ScriptLineView;

    open spec fn view(&self) -> ScriptLineView {
        ScriptLineView { id: self.id@, text: self.text@, span: self.span }
    }
}

pub open spec fn line_views(lines: Seq<ScriptLine>) -> Seq<ScriptLineView> {
    Seq::new(lines.len(), |i: int| lines[i]@)
}

impl View for Script {
    type V = ScriptView;

    open spec fn view(&self) -> ScriptView {
        ScriptView {
            track: self.track@,
            voice: text_view(self.voice),
            lines: line_views(self.lines@),
            span: self.span,
        }
    }
}

pub enum TextContentView {
    Literal(Seq<char>),
    Bind(BindPathView),
}

impl View for TextContent {
    type V = TextContentView;

    open spec fn view(&self) -> TextContentView {
        match self {
            TextContent::Literal(t) => TextContentView::Literal(t@),
            TextContent::Bind(b) => TextContentView::Bind(b@),
        }
    }
}

pub enum ElementKindView {
    Clip { src: Seq<char>, from_s: NumberView },
    Image { src: Seq<char> },
    Text { content: TextContentView },
    Board,
    Captions { style: CaptionStyle, source: AnchorRefView },
    Music { src: Seq<char>, gain_db: NumberView, duck: Option<Seq<char>>, from_s: NumberView },
    Sound { src: Seq<char>, gain_db: NumberView, from_s: NumberView },
    Program { src: Seq<char>, with: Option<Seq<char>> },
}

impl View for ElementKind {
    type V = ElementKindView;

    open spec fn view(&self) -> ElementKindView {
        match self {
            ElementKind::Clip { src, from_s } => ElementKindView::Clip {
                src: src@,
                from_s: from_s@,
            },
            ElementKind::Image { src } => ElementKindView::Image { src: src@ },
            ElementKind::Text { content } => ElementKindView::Text { content: content@ },
            ElementKind::Board => ElementKindView::Board,
            ElementKind::Captions { style, source } => ElementKindView::Captions {
                style: *style,
                source: source@,
            },
            ElementKind::Music { src, gain_db, duck, from_s } => ElementKindView::Music {
                src: src@,
                gain_db: gain_db@,
                duck: text_view(*duck),
                from_s: from_s@,
            },
            ElementKind::Sound { src, gain_db, from_s } => ElementKindView::Sound {
                src: src@,
                gain_db: gain_db@,
                from_s: from_s@,
            },
            ElementKind::Program { src, with } => ElementKindView::Program {
                src: src@,
                with: text_view(*with),
            },
        }
    }
}

pub enum PlacementView {
    Named(NamedPlacement),
    Point { x: NumberView, y: NumberView },
}

impl View for Placement {
    type V = PlacementView;

    open spec fn view(&self) -> PlacementView {
        match self {
            Placement::Named(n) => PlacementView::Named(*n),
            Placement::Point { x, y } => PlacementView::Point { x: x@, y: y@ },
        }
    }
}

pub struct ElementView {
    pub id: Option<Seq<char>>,
    pub kind: ElementKindView,
    pub timing: Option<AnchorRangeView>,
    pub placement: Option<PlacementView>,
    pub anim: Option<AnimKind>,
    pub children: Seq<ElementView>,
    pub span: Span,
}

pub open spec fn timing_view(t: Option<AnchorRange>) -> Option<AnchorRangeView> {
    match t {
        Some(v) => Some(v@),
        None => None,
    }
}

pub open spec fn placement_view(p: Option<Placement>) -> Option<PlacementView> {
    match p {
        Some(v) => Some(v@),
        None => None,
    }
}

pub open spec fn anchor_ref_view(a: Option<AnchorRef>) -> Option<AnchorRefView> {
    match a {
        Some(v) => Some(v@),
        None => None,
    }
}

impl Element {
    pub open spec fn view(&self) -> ElementView
        decreases self,
    {
        ElementView {
            id: text_view(self.id),
            kind: self.kind@,
            timing: timing_view(self.timing),
            placement: placement_view(self.placement),
            anim: self.anim,
            children: Seq::new(
                self.children@.len(),
                |i: int|
                    if 0 <= i < self.children@.len() {
                        self.children@[i].view()
                    } else {
                        arbitrary()
                    },
            ),
            span: self.span,
        }
    }
}

pub open spec fn element_views(s: Seq<Element>) -> Seq<ElementView> {
    Seq::new(s.len(), |i: int| s[i].view())
}

pub proof fn lemma_children_view(e: Element)
    ensures
        e.view().children == element_views(e.children@),
{
    assert(e.view().children =~= element_views(e.children@));
}

pub struct TrackView {
    pub id: Seq<char>,
    pub kind: TrackKind,
    pub anchor: Option<AnchorRefView>,
    pub elements: Seq<ElementView>,
    pub span: Span,
}

impl View for Track {
    type V = TrackView;

    open spec fn view(&self) -> TrackView {
        TrackView {
            id: self.id@,
            kind: self.kind,
            anchor: anchor_ref_view(self.anchor),
            elements: element_views(self.elements@),
            span: self.span,
        }
    }
}

pub open spec fn track_views(s: Seq<Track>) -> Seq<TrackView> {
    Seq::new(s.len(), |i: int| s[i]@)
}

pub struct RenderTargetView {
    pub target: Seq<char>,
    pub span: Span,
}

impl View for RenderTarget {
    type V = RenderTargetView;

    open spec fn view(&self) -> RenderTargetView {
        RenderTargetView { target: self.target@, span: self.span }
    }
}

pub struct SceneView {
    pub canvas: Canvas,
    pub frame_rate: Rational,
    pub clear: Color,
    pub script: Option<ScriptView>,
    pub tracks: Seq<TrackView>,
    pub render: Option<RenderTargetView>,
}

pub open spec fn script_view(s: Option<Script>) -> Option<ScriptView> {
    match s {
        Some(v) => Some(v@),
        None => None,
    }
}

pub open spec fn render_view(s: Option<RenderTarget>) -> Option<RenderTargetView> {
    match s {
        Some(v) => Some(v@),
        None => None,
    }
}

impl View for Scene {
    type V = SceneView;

    open spec fn view(&self) -> SceneView {
        SceneView {
            canvas: self.canvas,
            frame_rate: self.frame_rate,
            clear: self.clear,
            script: script_view(self.script),
            tracks: track_views(self.tracks@),
            render: render_view(self.render),
        }
    }
}

// Attribute values.

/// `WIDTHxHEIGHT`, both positive.
pub open spec fn canvas(s: Seq<char>) -> Result<Canvas, Seq<char>> {
    let x = crate::text::find_from(s, 'x', 0);
    let w = s.take(x);
    let h = s.skip(x + 1);
    if x == s.len() {
        Err("expected `WIDTHxHEIGHT`, found `"@ + s + "`"@)
    } else {
        match crate::text::unsigned(w, u32::MAX as nat) {
            None => Err("invalid canvas width `"@ + w + "`"@),
            Some(width) => match crate::text::unsigned(h, u32::MAX as nat) {
                None => Err("invalid canvas height `"@ + h + "`"@),
                Some(height) => if width == 0 || height == 0 {
                    Err("canvas dimensions must be positive"@)
                } else {
                    Ok(Canvas { width: width as u32, height: height as u32 })
                },
            },
        }
    }
}

/// `N` or `N/D`, both positive. Decimal rates are rejected in favour of the
/// exact rational.
pub open spec fn rational(s: Seq<char>) -> Result<Rational, Seq<char>> {
    let slash = crate::text::find_from(s, '/', 0);
    let n = s.take(slash);
    let d = s.skip(slash + 1);
    if slash < s.len() {
        match crate::text::unsigned(n, u32::MAX as nat) {
            None => Err("invalid rate numerator `"@ + n + "`"@),
            Some(numerator) => match crate::text::unsigned(d, u32::MAX as nat) {
                None => Err("invalid rate denominator `"@ + d + "`"@),
                Some(denominator) => if numerator == 0 || denominator == 0 {
                    Err("frame rate must be positive"@)
                } else {
                    Ok(
                        Rational {
                            numerator: numerator as u32,
                            denominator: denominator as u32,
                        },
                    )
                },
            },
        }
    } else if crate::text::has_char(s, '.') {
        Err("write `"@ + s + "` as a rational (e.g. `30000/1001` for 29.97)"@)
    } else {
        match crate::text::unsigned(s, u32::MAX as nat) {
            None => Err("invalid frame rate `"@ + s + "` (try `30` or `30000/1001`)"@),
            Some(numerator) => if numerator == 0 {
                Err("frame rate must be positive"@)
            } else {
                Ok(Rational { numerator: numerator as u32, denominator: 1 })
            },
        }
    }
}

/// The value of one hexadecimal digit of either case.
pub open spec fn hex_value(c: char) -> Option<nat> {
    if '0' <= c <= '9' {
        Some((c as u32 - '0' as u32) as nat)
    } else if 'a' <= c <= 'f' {
        Some((c as u32 - 'a' as u32 + 10) as nat)
    } else if 'A' <= c <= 'F' {
        Some((c as u32 - 'A' as u32 + 10) as nat)
    } else {
        None
    }
}

/// The byte that two hexadecimal digits spell.
pub open spec fn hex_byte(hi: char, lo: char) -> Option<u8> {
    match (hex_value(hi), hex_value(lo)) {
        (Some(h), Some(l)) => Some((h * 16 + l) as u8),
        _ => None,
    }
}

pub open spec fn all_ascii(s: Seq<char>) -> bool {
    forall|i: int| 0 <= i < s.len() ==> #[trigger] s[i] as u32 <= 0x7f
}

pub open spec fn color_of(
    r: Option<u8>,
    g: Option<u8>,
    b: Option<u8>,
    a: Option<u8>,
) -> Option<Color> {
    match (r, g, b, a) {
        (Some(r), Some(g), Some(b), Some(a)) => Some(Color { r, g, b, a }),
        _ => None,
    }
}

/// The color that the characters after `#` spell; `None` when one of them is
/// out of place. Only lengths 3, 6 and 8 name a color.
pub open spec fn hex_color(h: Seq<char>) -> Option<Color> {
    if h.len() == 3 {
        color_of(hex_byte(h[0], h[0]), hex_byte(h[1], h[1]), hex_byte(h[2], h[2]), Some(255u8))
    } else if h.len() == 6 {
        color_of(hex_byte(h[0], h[1]), hex_byte(h[2], h[3]), hex_byte(h[4], h[5]), Some(255u8))
    } else if h.len() == 8 {
        color_of(
            hex_byte(h[0], h[1]),
            hex_byte(h[2], h[3]),
            hex_byte(h[4], h[5]),
            hex_byte(h[6], h[7]),
        )
    } else {
        None
    }
}

/// `#rgb`, `#rrggbb` or `#rrggbbaa`.
pub open spec fn color(s: Seq<char>) -> Result<Color, Seq<char>> {
    if s.len() == 0 || s[0] != '#' {
        Err("expected `#rrggbb`, found `"@ + s + "`"@)
    } else {
        let h = s.drop_first();
        if !all_ascii(h) {
            Err("invalid color `"@ + s + "` (hex digits only)"@)
        } else if h.len() != 3 && h.len() != 6 && h.len() != 8 {
            Err("invalid color `"@ + s + "` (use #rgb, #rrggbb or #rrggbbaa)"@)
        } else {
            match hex_color(h) {
                Some(c) => Ok(c),
                None => Err("invalid color `"@ + s + "`"@),
            }
        }
    }
}

pub open spec fn named_placement(s: Seq<char>) -> Option<NamedPlacement> {
    if s == "center"@ {
        Some(NamedPlacement::Center)
    } else if s == "top"@ {
        Some(NamedPlacement::Top)
    } else if s == "bottom"@ {
        Some(NamedPlacement::Bottom)
    } else if s == "left"@ {
        Some(NamedPlacement::Left)
    } else if s == "right"@ {
        Some(NamedPlacement::Right)
    } else {
        None
    }
}

/// A name, or `x,y` in canvas pixels.
pub open spec fn placement(s: Seq<char>) -> Result<PlacementView, Seq<char>> {
    let comma = crate::text::find_from(s, ',', 0);
    let x = s.take(comma);
    let y = s.skip(comma + 1);
    match named_placement(s) {
        Some(n) => Ok(PlacementView::Named(n)),
        None => if comma == s.len() {
            Err(
                "invalid placement `"@ + s
                    + "` (use center, top, bottom, left, right or `x,y`)"@,
            )
        } else {
            match crate::number::number(crate::text::trimmed(x)) {
                None => Err("invalid x `"@ + x + "`"@),
                Some(px) => match crate::number::number(crate::text::trimmed(y)) {
                    None => Err("invalid y `"@ + y + "`"@),
                    Some(py) => Ok(PlacementView::Point { x: px, y: py }),
                },
            }
        },
    }
}

pub open spec fn anim_kind(s: Seq<char>) -> Result<AnimKind, Seq<char>> {
    if s == "rise"@ {
        Ok(AnimKind::Rise)
    } else if s == "fade"@ {
        Ok(AnimKind::Fade)
    } else if s == "pop"@ {
        Ok(AnimKind::Pop)
    } else {
        Err("unknown animation `"@ + s + "` (known: rise, fade, pop)"@)
    }
}

/// The digits of a time and whether they count milliseconds.
pub open spec fn time_digits(s: Seq<char>) -> Option<(Seq<char>, bool)> {
    if crate::text::ends_in(s, "ms"@) {
        Some((s.take(s.len() - "ms"@.len()), true))
    } else if crate::text::ends_in(s, "s"@) {
        Some((s.take(s.len() - "s"@.len()), false))
    } else {
        None
    }
}

/// A source-time offset in seconds: `12.37s` or `250ms`, finite and not
/// negative.
pub open spec fn secs(s: Seq<char>) -> Result<NumberView, Seq<char>> {
    match time_digits(s) {
        None => Err("invalid time `"@ + s + "` (use `12.37s` or `250ms`)"@),
        Some((digits, milli)) => match crate::number::number(crate::text::trimmed(digits)) {
            None => Err("invalid time `"@ + s + "`"@),
            Some(v) => if !v.is_finite() || v.is_negative() {
                Err("invalid time `"@ + s + "` (need a finite value >= 0)"@)
            } else if milli {
                Ok(v.per_mille())
            } else {
                Ok(v)
            },
        },
    }
}

pub open spec fn gain_digits(s: Seq<char>) -> Seq<char> {
    if crate::text::ends_in(s, "dB"@) {
        s.take(s.len() - "dB"@.len())
    } else {
        s
    }
}

/// A finite gain in decibels: `-14dB` or `-14`.
pub open spec fn gain_db(s: Seq<char>) -> Result<NumberView, Seq<char>> {
    match crate::number::number(crate::text::trimmed(gain_digits(s))) {
        None => Err("invalid gain `"@ + s + "` (try `-14dB`)"@),
        Some(v) => if v.is_finite() {
            Ok(v)
        } else {
            Err("invalid gain `"@ + s + "` (must be a finite number)"@)
        },
    }
}

impl Canvas {
    /// `"1080x1920"`.
    pub fn parse(s: &str) -> (r: Result<Canvas, String>)
        ensures
            match r {
                Ok(c) => canvas(s@) == Ok::<Canvas, Seq<char>>(c),
                Err(e) => canvas(s@) == Err::<Canvas, Seq<char>>(e@),
            },
    {
        let cs = chars_of(s);
        let x = find_char(cs.as_slice(), 'x', 0);
        if x == cs.len() {
            return Err(cat3("expected `WIDTHxHEIGHT`, found `", s, "`"));
        }
        let w = slice_subrange(cs.as_slice(), 0, x);
        let h = slice_subrange(cs.as_slice(), x + 1, cs.len());
        assert(w@ =~= s@.take(x as int));
        assert(h@ =~= s@.skip(x + 1));
        let width = match parse_u32(w) {
            Some(v) => v,
            None => {
                let t = string_of(w);
                return Err(cat3("invalid canvas width `", t.as_str(), "`"));
            },
        };
        let height = match parse_u32(h) {
            Some(v) => v,
            None => {
                let t = string_of(h);
                return Err(cat3("invalid canvas height `", t.as_str(), "`"));
            },
        };
        if width == 0 || height == 0 {
            return Err("canvas dimensions must be positive".to_owned());
        }
        Ok(Canvas { width, height })
    }
}

impl Rational {
    /// `"30"` or `"30000/1001"`. Decimal rates are rejected in favour of the
    /// exact rational.
    pub fn parse(s: &str) -> (r: Result<Rational, String>)
        ensures
            match r {
                Ok(c) => rational(s@) == Ok::<Rational, Seq<char>>(c),
                Err(e) => rational(s@) == Err::<Rational, Seq<char>>(e@),
            },
    {
        let cs = chars_of(s);
        let slash = find_char(cs.as_slice(), '/', 0);
        if slash < cs.len() {
            let n = slice_subrange(cs.as_slice(), 0, slash);
            let d = slice_subrange(cs.as_slice(), slash + 1, cs.len());
            assert(n@ =~= s@.take(slash as int));
            assert(d@ =~= s@.skip(slash + 1));
            let numerator = match parse_u32(n) {
                Some(v) => v,
                None => {
                    let t = string_of(n);
                    return Err(cat3("invalid rate numerator `", t.as_str(), "`"));
                },
            };
            let denominator = match parse_u32(d) {
                Some(v) => v,
                None => {
                    let t = string_of(d);
                    return Err(cat3("invalid rate denominator `", t.as_str(), "`"));
                },
            };
            if numerator == 0 || denominator == 0 {
                return Err("frame rate must be positive".to_owned());
            }
            return Ok(Rational { numerator, denominator });
        }
        if find_char(cs.as_slice(), '.', 0) < cs.len() {
            return Err(cat3("write `", s, "` as a rational (e.g. `30000/1001` for 29.97)"));
        }
        let numerator = match parse_u32(cs.as_slice()) {
            Some(v) => v,
            None => {
                return Err(cat3("invalid frame rate `", s, "` (try `30` or `30000/1001`)"));
            },
        };
        if numerator == 0 {
            return Err("frame rate must be positive".to_owned());
        }
        Ok(Rational { numerator, denominator: 1 })
    }
}

fn hex_digit(c: char) -> (r: Option<u8>)
    ensures
        match r {
            Some(v) => hex_value(c) == Some(v as nat) && v < 16,
            None => hex_value(c) is None,
        },
{
    if '0' <= c && c <= '9' {
        Some((c as u8 - 48) as u8)
    } else if 'a' <= c && c <= 'f' {
        Some((c as u8 - 97 + 10) as u8)
    } else if 'A' <= c && c <= 'F' {
        Some((c as u8 - 65 + 10) as u8)
    } else {
        None
    }
}

fn hex_pair(hi: char, lo: char) -> (r: Option<u8>)
    ensures
        r == hex_byte(hi, lo),
{
    match (hex_digit(hi), hex_digit(lo)) {
        (Some(h), Some(l)) => Some((h * 16 + l) as u8),
        _ => None,
    }
}

fn is_ascii(cs: &[char]) -> (r: bool)
    ensures
        r == all_ascii(cs@),
{
    let mut i: usize = 0;
    while i < cs.len()
        invariant
            i <= cs@.len(),
            forall|k: int| 0 <= k < i ==> #[trigger] cs@[k] as u32 <= 0x7f,
        decreases cs@.len() - i,
    {
        if cs[i] as u32 > 0x7f {
            return false;
        }
        i = i + 1;
    }
    true
}

fn build_color(r: Option<u8>, g: Option<u8>, b: Option<u8>, a: Option<u8>) -> (c: Option<Color>)
    ensures
        c == color_of(r, g, b, a),
{
    match (r, g, b, a) {
        (Some(r), Some(g), Some(b), Some(a)) => Some(Color { r, g, b, a }),
        _ => None,
    }
}

impl Color {
    pub fn transparent() -> (c: Color)
        ensures
            c == (Color { r: 0, g: 0, b: 0, a: 0 }),
    {
        Color { r: 0, g: 0, b: 0, a: 0 }
    }

    pub fn white() -> (c: Color)
        ensures
            c == (Color { r: 255, g: 255, b: 255, a: 255 }),
    {
        Color { r: 255, g: 255, b: 255, a: 255 }
    }

    pub fn black() -> (c: Color)
        ensures
            c == (Color { r: 0, g: 0, b: 0, a: 255 }),
    {
        Color { r: 0, g: 0, b: 0, a: 255 }
    }

    /// `#rgb`, `#rrggbb` or `#rrggbbaa`.
    pub fn parse(s: &str) -> (r: Result<Color, String>)
        ensures
            match r {
                Ok(c) => color(s@) == Ok::<Color, Seq<char>>(c),
                Err(e) => color(s@) == Err::<Color, Seq<char>>(e@),
            },
            r is Ok <==> {
                &&& s@.len() == 4 || s@.len() == 7 || s@.len() == 9
                &&& s@[0] == '#'
                &&& forall|i: int| 1 <= i < s@.len() ==> hex_value(#[trigger] s@[i]) is Some
            },
    {
        let cs = chars_of(s);
        if cs.len() == 0 || cs[0] != '#' {
            return Err(cat3("expected `#rrggbb`, found `", s, "`"));
        }
        let h = slice_subrange(cs.as_slice(), 1, cs.len());
        assert(h@ =~= s@.drop_first());
        if !is_ascii(h) {
            return Err(cat3("invalid color `", s, "` (hex digits only)"));
        }
        let c = if h.len() == 3 {
            build_color(
                hex_pair(h[0], h[0]),
                hex_pair(h[1], h[1]),
                hex_pair(h[2], h[2]),
                Some(255u8),
            )
        } else if h.len() == 6 {
            build_color(
                hex_pair(h[0], h[1]),
                hex_pair(h[2], h[3]),
                hex_pair(h[4], h[5]),
                Some(255u8),
            )
        } else if h.len() == 8 {
            build_color(
                hex_pair(h[0], h[1]),
                hex_pair(h[2], h[3]),
                hex_pair(h[4], h[5]),
                hex_pair(h[6], h[7]),
            )
        } else {
            return Err(cat3("invalid color `", s, "` (use #rgb, #rrggbb or #rrggbbaa)"));
        };
        match c {
            Some(c) => Ok(c),
            None => Err(cat3("invalid color `", s, "`")),
        }
    }
}

impl Placement {
    pub fn parse(s: &str) -> (r: Result<Placement, String>)
        ensures
            match r {
                Ok(p) => placement(s@) == Ok::<PlacementView, Seq<char>>(p@),
                Err(e) => placement(s@) == Err::<PlacementView, Seq<char>>(e@),
            },
    {
        if text_eq(s, "center") {
            return Ok(Placement::Named(NamedPlacement::Center));
        }
        if text_eq(s, "top") {
            return Ok(Placement::Named(NamedPlacement::Top));
        }
        if text_eq(s, "bottom") {
            return Ok(Placement::Named(NamedPlacement::Bottom));
        }
        if text_eq(s, "left") {
            return Ok(Placement::Named(NamedPlacement::Left));
        }
        if text_eq(s, "right") {
            return Ok(Placement::Named(NamedPlacement::Right));
        }
        let cs = chars_of(s);
        let comma = find_char(cs.as_slice(), ',', 0);
        if comma == cs.len() {
            return Err(
                cat3(
                    "invalid placement `",
                    s,
                    "` (use center, top, bottom, left, right or `x,y`)",
                ),
            );
        }
        let xs = slice_subrange(cs.as_slice(), 0, comma);
        let ys = slice_subrange(cs.as_slice(), comma + 1, cs.len());
        assert(xs@ =~= s@.take(comma as int));
        assert(ys@ =~= s@.skip(comma + 1));
        let x = match Number::from_chars(trim(xs)) {
            Some(v) => v,
            None => {
                let t = string_of(xs);
                return Err(cat3("invalid x `", t.as_str(), "`"));
            },
        };
        let y = match Number::from_chars(trim(ys)) {
            Some(v) => v,
            None => {
                let t = string_of(ys);
                return Err(cat3("invalid y `", t.as_str(), "`"));
            },
        };
        Ok(Placement::Point { x, y })
    }
}

impl AnimKind {
    pub fn parse(s: &str) -> (r: Result<AnimKind, String>)
        ensures
            match r {
                Ok(a) => anim_kind(s@) == Ok::<AnimKind, Seq<char>>(a),
                Err(e) => anim_kind(s@) == Err::<AnimKind, Seq<char>>(e@),
            },
    {
        if text_eq(s, "rise") {
            Ok(AnimKind::Rise)
        } else if text_eq(s, "fade") {
            Ok(AnimKind::Fade)
        } else if text_eq(s, "pop") {
            Ok(AnimKind::Pop)
        } else {
            Err(cat3("unknown animation `", s, "` (known: rise, fade, pop)"))
        }
    }
}

/// `from="12.37s"` or `from="250ms"`: a source-time offset. Seconds and
/// milliseconds only: frame counts are rejected because the source's own
/// frame rate isn't known at parse time.
pub fn parse_secs(s: &str) -> (r: Result<Number, String>)
    ensures
        match r {
            Ok(v) => secs(s@) == Ok::<NumberView, Seq<char>>(v@),
            Err(e) => secs(s@) == Err::<NumberView, Seq<char>>(e@),
        },
{
    let cs = chars_of(s);
    let ms = chars_of("ms");
    let sec = chars_of("s");
    let (digits, milli): (&[char], bool) = if ends_with(cs.as_slice(), ms.as_slice()) {
        (slice_subrange(cs.as_slice(), 0, cs.len() - ms.len()), true)
    } else if ends_with(cs.as_slice(), sec.as_slice()) {
        (slice_subrange(cs.as_slice(), 0, cs.len() - sec.len()), false)
    } else {
        return Err(cat3("invalid time `", s, "` (use `12.37s` or `250ms`)"));
    };
    assert(time_digits(s@) == Some((digits@, milli))) by {
        if milli {
            assert(digits@ =~= s@.take(s@.len() - "ms"@.len()));
        } else {
            assert(digits@ =~= s@.take(s@.len() - "s"@.len()));
        }
    }
    match Number::from_chars(trim(digits)) {
        None => Err(cat3("invalid time `", s, "`")),
        Some(v) => {
            if !v.is_finite() || v.is_negative() {
                Err(cat3("invalid time `", s, "` (need a finite value >= 0)"))
            } else if milli {
                Ok(v.per_mille())
            } else {
                Ok(v)
            }
        },
    }
}

/// `gain="-14dB"` or `gain="-14"`.
pub fn parse_gain_db(s: &str) -> (r: Result<Number, String>)
    ensures
        match r {
            Ok(v) => gain_db(s@) == Ok::<NumberView, Seq<char>>(v@),
            Err(e) => gain_db(s@) == Err::<NumberView, Seq<char>>(e@),
        },
{
    let cs = chars_of(s);
    let db = chars_of("dB");
    let digits = if ends_with(cs.as_slice(), db.as_slice()) {
        slice_subrange(cs.as_slice(), 0, cs.len() - db.len())
    } else {
        cs.as_slice()
    };
    assert(digits@ =~= gain_digits(s@));
    match Number::from_chars(trim(digits)) {
        None => Err(cat3("invalid gain `", s, "` (try `-14dB`)")),
        Some(v) => {
            if v.is_finite() {
                Ok(v)
            } else {
                Err(cat3("invalid gain `", s, "` (must be a finite number)"))
            }
        },
    }
}

// Asset references.

/// The file that an element pulls in itself.
pub open spec fn own_src(kind: ElementKindView) -> Option<Seq<char>> {
    match kind {
        ElementKindView::Clip { src, .. } => Some(src),
        ElementKindView::Image { src } => Some(src),
        ElementKindView::Music { src, .. } => Some(src),
        ElementKindView::Sound { src, .. } => Some(src),
        ElementKindView::Program { src, .. } => Some(src),
        _ => None,
    }
}

pub open spec fn own_ref(e: ElementView) -> Seq<(Seq<char>, Span)> {
    match own_src(e.kind) {
        Some(src) => seq![(src, e.span)],
        None => Seq::empty(),
    }
}

/// The files of an element and of everything below it, in document order.
pub open spec fn element_assets(e: ElementView) -> Seq<(Seq<char>, Span)>
    decreases e, 0int,
{
    own_ref(e) + first_assets(e.children, e.children.len() as int)
}

/// The files of the first `n` elements of a list.
pub open spec fn first_assets(s: Seq<ElementView>, n: int) -> Seq<(Seq<char>, Span)>
    decreases s, n,
{
    if n <= 0 || n > s.len() {
        Seq::empty()
    } else {
        first_assets(s, n - 1) + element_assets(s[n - 1])
    }
}

/// The files of the first `n` tracks.
pub open spec fn track_assets(tracks: Seq<TrackView>, n: int) -> Seq<(Seq<char>, Span)>
    decreases n,
{
    if n <= 0 || n > tracks.len() {
        Seq::empty()
    } else {
        track_assets(tracks, n - 1) + first_assets(
            tracks[n - 1].elements,
            tracks[n - 1].elements.len() as int,
        )
    }
}

pub open spec fn ref_views(refs: Seq<(&str, Span)>) -> Seq<(Seq<char>, Span)> {
    Seq::new(refs.len(), |i: int| (refs[i].0@, refs[i].1))
}

fn walk<'a>(elements: &'a Vec<Element>, refs: &mut Vec<(&'a str, Span)>)
    ensures
        ref_views(final(refs)@) == ref_views(old(refs)@) + first_assets(
            element_views(elements@),
            elements@.len() as int,
        ),
    decreases elements,
{
    let mut i: usize = 0;
    let ghost all = element_views(elements@);
    assert(ref_views(refs@) =~= ref_views(old(refs)@) + first_assets(all, 0));
    while i < elements.len()
        invariant
            i <= elements@.len(),
            all == element_views(elements@),
            ref_views(refs@) == ref_views(old(refs)@) + first_assets(all, i as int),
        decreases elements@.len() - i,
    {
        let element = &elements[i];
        let ghost before = refs@;
        match &element.kind {
            ElementKind::Clip { src, .. } => refs.push((src.as_str(), element.span)),
            ElementKind::Image { src } => refs.push((src.as_str(), element.span)),
            ElementKind::Music { src, .. } => refs.push((src.as_str(), element.span)),
            ElementKind::Sound { src, .. } => refs.push((src.as_str(), element.span)),
            ElementKind::Program { src, .. } => refs.push((src.as_str(), element.span)),
            _ => {},
        }
        assert(ref_views(refs@) =~= ref_views(before) + own_ref(element.view()));
        proof {
            lemma_children_view(*element);
            assert(decreases_to!(elements => elements@[i as int].children));
        }
        walk(&element.children, refs);
        proof {
            let e = element.view();
            assert(all[i as int] == e);
            assert(element_assets(e) == own_ref(e) + first_assets(
                e.children,
                e.children.len() as int,
            ));
            assert(first_assets(all, i + 1) == first_assets(all, i as int) + element_assets(e));
            assert(ref_views(refs@) =~= ref_views(old(refs)@) + first_assets(all, i + 1));
        }
        i = i + 1;
    }
}

impl Scene {
    /// All input files the scene pulls in (`src` attributes), paired with the
    /// element span for diagnostics. The render target is an output and is
    /// left out.
    pub fn asset_refs(&self) -> (r: Vec<(&str, Span)>)
        ensures
            ref_views(r@) == track_assets(self@.tracks, self@.tracks.len() as int),
    {
        let mut refs: Vec<(&str, Span)> = Vec::new();
        let mut i: usize = 0;
        assert(ref_views(refs@) =~= track_assets(self@.tracks, 0));
        while i < self.tracks.len()
            invariant
                i <= self.tracks@.len(),
                ref_views(refs@) == track_assets(self@.tracks, i as int),
            decreases self.tracks@.len() - i,
        {
            walk(&self.tracks[i].elements, &mut refs);
            i = i + 1;
        }
        refs
    }
}

// Script fingerprint.

pub const FNV_OFFSET: u64 = 0xcbf29ce484222325;

pub const FNV_PRIME: u64 = 0x100000001b3;

/// The hash `h` after the bytes of `s`, FNV-1a.
pub open spec fn fnv(h: u64, s: Seq<u8>) -> u64
    decreases s.len(),
{
    if s.len() == 0 {
        h
    } else {
        ((fnv(h, s.drop_last()) ^ (s.last() as u64)) as nat * FNV_PRIME as nat % 0x1_0000_0000_0000_0000) as u64
    }
}

/// The bytes that a script's first `n` lines feed to the hash: the track
/// name, then for each line a zero byte, its id, a one byte and its text.
pub open spec fn script_bytes(s: ScriptView, n: int) -> Seq<u8>
    decreases n,
{
    if n <= 0 || n > s.lines.len() {
        vstd::utf8::encode_utf8(s.track)
    } else {
        script_bytes(s, n - 1) + seq![0u8] + vstd::utf8::encode_utf8(s.lines[n - 1].id) + seq![1u8]
            + vstd::utf8::encode_utf8(s.lines[n - 1].text)
    }
}

pub open spec fn hex_char(d: nat) -> char {
    if d < 10 {
        ('0' as u32 + d) as char
    } else {
        ('a' as u32 + (d - 10)) as char
    }
}

/// The last `width` hexadecimal digits of `n`, zeros in front.
pub open spec fn hex(n: nat, width: nat) -> Seq<char>
    decreases width,
{
    if width == 0 {
        Seq::empty()
    } else {
        hex(n / 16, (width - 1) as nat).push(hex_char(n % 16))
    }
}

/// The sixteen hexadecimal digits of a script's hash.
pub open spec fn fingerprint(s: ScriptView) -> Seq<char> {
    hex(fnv(FNV_OFFSET, script_bytes(s, s.lines.len() as int)) as nat, 16)
}

fn hex_char_of(d: u8) -> (r: char)
    requires
        d < 16,
    ensures
        r == hex_char(d as nat),
{
    if d < 10 {
        (48 + d) as char
    } else {
        (97 + (d - 10)) as char
    }
}

pub fn hex_text(n: u64, width: u8) -> (r: String)
    ensures
        r@ == hex(n as nat, width as nat),
    decreases width,
{
    if width == 0 {
        let s = String::new();
        assert(s@ =~= hex(n as nat, 0));
        s
    } else {
        let mut s = hex_text(n / 16, width - 1);
        s.push(hex_char_of((n % 16) as u8));
        s
    }
}

proof fn lemma_fnv_add(h: u64, a: Seq<u8>, b: Seq<u8>)
    ensures
        fnv(h, a + b) == fnv(fnv(h, a), b),
    decreases b.len(),
{
    if b.len() == 0 {
        assert(a + b =~= a);
    } else {
        lemma_fnv_add(h, a, b.drop_last());
        assert((a + b).drop_last() =~= a + b.drop_last());
    }
}

fn feed(h: u64, bytes: &[u8]) -> (r: u64)
    ensures
        r == fnv(h, bytes@),
{
    let mut out: u64 = h;
    let mut i: usize = 0;
    while i < bytes.len()
        invariant
            i <= bytes@.len(),
            out == fnv(h, bytes@.take(i as int)),
        decreases bytes@.len() - i,
    {
        assert(bytes@.take(i + 1).drop_last() =~= bytes@.take(i as int));
        let mixed: u64 = out ^ (bytes[i] as u64);
        out = mixed.wrapping_mul(FNV_PRIME);
        assert(out == (mixed as nat * FNV_PRIME as nat) % 0x1_0000_0000_0000_0000);
        i = i + 1;
    }
    assert(bytes@.take(bytes@.len() as int) =~= bytes@);
    out
}

/// Stable content hash for staleness checks: FNV-1a over the track name plus
/// every line's cue id and text. Timing documents carry it; a render compares
/// it against the current script, so that editing words without re-aligning
/// is a diagnostic. Delimiters inside the hash keep `["ab","c"]` and
/// `["a","bc"]` distinct.
pub fn script_fingerprint(script: &Script) -> (r: String)
    ensures
        r@ == fingerprint(script@),
{
    let mut h: u64 = feed(FNV_OFFSET, script.track.as_str().as_bytes());
    let mut i: usize = 0;
    while i < script.lines.len()
        invariant
            i <= script.lines@.len(),
            h == fnv(FNV_OFFSET, script_bytes(script@, i as int)),
        decreases script.lines@.len() - i,
    {
        let line = &script.lines[i];
        let ghost s0 = script_bytes(script@, i as int);
        let ghost s1 = s0 + seq![0u8];
        let ghost s2 = s1 + vstd::utf8::encode_utf8(line.id@);
        let ghost s3 = s2 + seq![1u8];
        proof {
            lemma_fnv_add(FNV_OFFSET, s0, seq![0u8]);
            lemma_fnv_add(FNV_OFFSET, s1, vstd::utf8::encode_utf8(line.id@));
            lemma_fnv_add(FNV_OFFSET, s2, seq![1u8]);
            lemma_fnv_add(FNV_OFFSET, s3, vstd::utf8::encode_utf8(line.text@));
            assert(script@.lines[i as int] == line@);
        }
        h = feed_byte(h, 0);
        h = feed(h, line.id.as_str().as_bytes());
        h = feed_byte(h, 1);
        h = feed(h, line.text.as_str().as_bytes());
        i = i + 1;
    }
    hex_text(h, 16)
}

fn feed_byte(h: u64, b: u8) -> (r: u64)
    ensures
        r == fnv(h, seq![b]),
{
    let one: [u8; 1] = [b];
    assert(one@ =~= seq![b]);
    feed(h, one.as_slice())
}

} // verus!
