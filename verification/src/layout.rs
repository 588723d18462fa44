//! Resolved elements to positioned boxes for one frame.
//!
//! Pure geometry, no graphics. What comes out is the draw list: every element
//! live at that frame, in document order, with its canvas-space rect, entrance
//! transform and opacity.
//!
//! Sizing rules:
//! - `clip` and `image` cover the whole canvas; `at` is the crop focal.
//! - `text`, `captions` and `board` are content-sized, placed at `at`
//!   (default: captions bottom, others centre).
//! - `music` and `sound` have no visual and are never placed.
//! - board children form a vertical stack inside the board rect, centred
//!   horizontally; their `at` does not apply inside a stack.
//!
//! Content sizes count in units of 1/32768 pixel and positions in units of
//! 1/65536 pixel, so that centring is exact.

use vstd::prelude::*;

use crate::anim::{evaluate, Ratio, Transform};
use crate::resolved::{ResolvedElement, ResolvedScene, ResolvedTrack, Spot};
use crate::scene::{ElementKind, NamedPlacement, Rational, TrackKind};

verus! {

/// Content size, in units of 1/32768 pixel.
#[derive(Debug, Clone, Copy, PartialEq, Eq, Structural)]
pub struct Size {
    pub w: i64,
    pub h: i64,
}

/// A placed box in units of 1/65536 pixel; `x, y` is the top-left corner.
#[derive(Debug, Clone, Copy, PartialEq, Eq, Structural)]
pub struct Rect {
    pub x: i128,
    pub y: i128,
    pub w: i128,
    pub h: i128,
}

/// How an element's pixels fill its rect.
#[derive(Debug, Clone, Copy, PartialEq, Eq, Structural)]
pub enum Fit {
    /// Scale to fill the rect, cropping overflow.
    Cover,
    /// The rect is the content.
    Content,
}

pub struct Extent {
    pub w: int,
    pub h: int,
}

impl Extent {
    pub open spec fn vacant(self) -> bool {
        self.w <= 0 || self.h <= 0
    }
}

pub struct RectView {
    pub x: int,
    pub y: int,
    pub w: int,
    pub h: int,
}

impl View for Size {
    type V = Extent;

    open spec fn view(&self) -> Extent {
        Extent { w: self.w as int, h: self.h as int }
    }
}

impl View for Rect {
    type V = RectView;

    open spec fn view(&self) -> RectView {
        RectView { x: self.x as int, y: self.y as int, w: self.w as int, h: self.h as int }
    }
}

impl Size {
    pub fn is_empty(self) -> (r: bool)
        ensures
            r == self@.vacant(),
    {
        self.w <= 0 || self.h <= 0
    }
}

impl Rect {
    /// The centre, in units of 1/131072 pixel.
    pub fn center(self) -> (r: (i128, i128))
        requires
            i128::MIN <= 2 * self.x + self.w <= i128::MAX,
            i128::MIN <= 2 * self.y + self.h <= i128::MAX,
        ensures
            r.0 == 2 * self.x + self.w,
            r.1 == 2 * self.y + self.h,
    {
        (self.x + (self.x + self.w), self.y + (self.y + self.h))
    }
}

/// The measured sizes of an element and of its children; `None` means that
/// the element cannot be placed by its content.
#[derive(Debug, PartialEq)]
pub struct Measured {
    pub size: Option<Size>,
    pub children: Vec<Measured>,
}

/// One drawable element for one frame.
#[derive(Debug)]
pub struct PlacedElement<'a> {
    pub element: &'a ResolvedElement,
    /// Canvas-space box before `transform`.
    pub rect: Rect,
    pub fit: Fit,
    /// Crop focal for [`Fit::Cover`]; the authored `at` otherwise applied.
    pub focal: Spot,
    pub transform: Transform,
    /// Multiplies the element's own opacity.
    pub opacity: Ratio,
    /// Frames into the element's own span.
    pub local_frame: u32,
    /// Emission order across the whole draw list.
    pub z: u64,
    /// Board children; rects relative to this element's rect origin.
    pub children: Vec<PlacedElement<'a>>,
}

pub struct PlacedView {
    pub element: ResolvedElement,
    pub rect: RectView,
    pub fit: Fit,
    pub focal: Spot,
    pub transform: Transform,
    pub opacity: Ratio,
    pub local_frame: u32,
    pub z: int,
    pub children: Seq<PlacedView>,
}

impl<'a> PlacedElement<'a> {
    pub open spec fn view(&self) -> PlacedView
        decreases self,
    {
        PlacedView {
            element: *self.element,
            rect: self.rect@,
            fit: self.fit,
            focal: self.focal,
            transform: self.transform,
            opacity: self.opacity,
            local_frame: self.local_frame,
            z: self.z as int,
            children: Seq::new(
                self.children@.len(),
                |i: int|
                    if 0 <= i < self.children@.len() {
                        self.children@[i].view()
                    } else {
                        arbitrary()
                    },
            ),
        }
    }
}

pub open spec fn placed_views(s: Seq<PlacedElement>) -> Seq<PlacedView> {
    Seq::new(s.len(), |i: int| s[i].view())
}

// Placement on the canvas.

/// Margin between a named-edge placement and the canvas edge: 48 pixels.
pub const EDGE_MARGIN: i128 = 3_145_728;

/// Board inner padding in content units: 24 pixels.
pub const BOARD_PAD: i128 = 786_432;

/// Gap between stacked children in content units: 16 pixels.
pub const BOARD_GAP: i128 = 524_288;

/// The canvas in content units.
pub open spec fn canvas_extent(width: u32, height: u32) -> Extent {
    Extent { w: width * 32768, h: height * 32768 }
}

/// The box that a size occupies at a spot of a canvas.
pub open spec fn place(size: Extent, spot: Spot, canvas: Extent) -> RectView {
    let middle_x = canvas.w - size.w;
    let middle_y = canvas.h - size.h;
    let (x, y) = match spot {
        Spot::Point { x, y } => (x - size.w, y - size.h),
        Spot::Named(NamedPlacement::Center) => (middle_x, middle_y),
        Spot::Named(NamedPlacement::Top) => (middle_x, EDGE_MARGIN as int),
        Spot::Named(NamedPlacement::Bottom) => (
            middle_x,
            2 * canvas.h - EDGE_MARGIN - 2 * size.h,
        ),
        Spot::Named(NamedPlacement::Left) => (EDGE_MARGIN as int, middle_y),
        Spot::Named(NamedPlacement::Right) => (
            2 * canvas.w - EDGE_MARGIN - 2 * size.w,
            middle_y,
        ),
    };
    RectView { x, y, w: 2 * size.w, h: 2 * size.h }
}

/// Placement of an element without `at`.
pub open spec fn default_spot(kind: ElementKind) -> Spot {
    if kind is Captions {
        Spot::Named(NamedPlacement::Bottom)
    } else {
        Spot::Named(NamedPlacement::Center)
    }
}

pub open spec fn spot_of(e: ResolvedElement) -> Spot {
    match e.placement {
        Some(s) => s,
        None => default_spot(e.kind),
    }
}

// Stacks.

pub open spec fn content_size(m: Measured) -> Option<Extent> {
    match m.size {
        Some(s) => Some(s@),
        None => None,
    }
}

/// The widest member, the summed heights and the number of members.
pub struct Stack {
    pub w: int,
    pub h: int,
    pub count: nat,
}

/// The size of a board with that stack; none without members.
pub open spec fn board_extent(s: Stack) -> Option<Extent> {
    if s.count == 0 {
        None
    } else {
        Some(
            Extent {
                w: s.w + 2 * BOARD_PAD,
                h: s.h + 2 * BOARD_PAD + BOARD_GAP * (s.count - 1),
            },
        )
    }
}

pub open spec fn stacked(s: Stack, size: Extent) -> Stack {
    Stack {
        w: if s.w >= size.w {
            s.w
        } else {
            size.w
        },
        h: s.h + size.h,
        count: s.count + 1,
    }
}

/// Content size of a stack member. A board is as large as its own stack;
/// measurement only knows leaf content and empty panels.
pub open spec fn stack_size(e: ResolvedElement, m: Measured, frame: u32) -> Option<Extent>
    decreases e, 0int,
{
    if e.kind is Board {
        match board_extent(
            stack_of(e.children@, m.children@, frame, e.children@.len() as int, true),
        ) {
            Some(s) => Some(s),
            None => content_size(m),
        }
    } else {
        content_size(m)
    }
}

/// The stack of the first `n` children that are live and have a size;
/// `solid` leaves out those of no extent.
pub open spec fn stack_of(
    es: Seq<ResolvedElement>,
    ms: Seq<Measured>,
    frame: u32,
    n: int,
    solid: bool,
) -> Stack
    decreases es, n,
{
    if n <= 0 || n > es.len() {
        Stack { w: 0, h: 0, count: 0 }
    } else {
        let before = stack_of(es, ms, frame, n - 1, solid);
        let e = es[n - 1];
        if e.timing.frames.holds(frame) {
            match stack_size(e, ms[n - 1], frame) {
                Some(s) => if solid && s.vacant() {
                    before
                } else {
                    stacked(before, s)
                },
                None => before,
            }
        } else {
            before
        }
    }
}

pub open spec fn still() -> (Ratio, Transform) {
    (crate::anim::whole(1), crate::anim::identity())
}

/// Opacity and transform of an element at a frame of its span.
pub open spec fn presentation(e: ResolvedElement, local_frame: u32) -> (Ratio, Transform) {
    match e.anim {
        Some(kind) => crate::anim::animated(kind, local_frame, e.timing.frames.length()),
        None => still(),
    }
}

pub open spec fn local(e: ResolvedElement, frame: u32) -> u32 {
    (frame - e.timing.frames.start) as u32
}

/// The children placed so far, where the next one goes, and the next place in
/// the emission order.
pub struct Column {
    pub placed: Seq<PlacedView>,
    pub cursor: int,
    pub z: int,
}

/// A stack member: centred horizontally at `cursor`, relative to the board
/// origin, its own stack inside it.
pub open spec fn stack_child(
    e: ResolvedElement,
    m: Measured,
    frame: u32,
    board_w: int,
    cursor: int,
    size: Extent,
    z: int,
) -> (PlacedView, int)
    decreases e, 0int,
{
    let kids = if e.kind is Board {
        column(e.children@, m.children@, frame, 2 * size.w, e.children@.len() as int, z)
    } else {
        Column { placed: Seq::empty(), cursor: 0, z }
    };
    let (opacity, transform) = presentation(e, local(e, frame));
    (
        PlacedView {
            element: e,
            rect: RectView { x: (board_w - 2 * size.w) / 2, y: cursor, w: 2 * size.w, h: 2
                * size.h },
            fit: Fit::Content,
            focal: match e.placement {
                Some(s) => s,
                None => Spot::Named(NamedPlacement::Center),
            },
            transform,
            opacity,
            local_frame: local(e, frame),
            z: kids.z,
            children: kids.placed,
        },
        kids.z + 1,
    )
}

/// The column of the first `n` children that are live and have an extent.
pub open spec fn column(
    es: Seq<ResolvedElement>,
    ms: Seq<Measured>,
    frame: u32,
    board_w: int,
    n: int,
    z: int,
) -> Column
    decreases es, n,
{
    if n <= 0 || n > es.len() {
        Column { placed: Seq::empty(), cursor: 2 * BOARD_PAD as int, z }
    } else {
        let before = column(es, ms, frame, board_w, n - 1, z);
        let e = es[n - 1];
        if !e.timing.frames.holds(frame) {
            before
        } else {
            match stack_size(e, ms[n - 1], frame) {
                Some(s) => if s.vacant() {
                    before
                } else {
                    let (p, next) = stack_child(
                        e,
                        ms[n - 1],
                        frame,
                        board_w,
                        before.cursor,
                        s,
                        before.z,
                    );
                    Column {
                        placed: before.placed.push(p),
                        cursor: before.cursor + 2 * s.h + 2 * BOARD_GAP,
                        z: next,
                    }
                },
                None => before,
            }
        }
    }
}

// Elements on the canvas.

/// The rect and the fit of an element that draws something.
pub open spec fn canvas_box(e: ResolvedElement, m: Measured, frame: u32, canvas: Extent) -> Option<
    (RectView, Fit),
> {
    match e.kind {
        ElementKind::Clip { .. } => Some(
            (RectView { x: 0, y: 0, w: 2 * canvas.w, h: 2 * canvas.h }, Fit::Cover),
        ),
        ElementKind::Image { .. } => Some(
            (RectView { x: 0, y: 0, w: 2 * canvas.w, h: 2 * canvas.h }, Fit::Cover),
        ),
        ElementKind::Music { .. } => None,
        ElementKind::Sound { .. } => None,
        ElementKind::Program { .. } => Some((place(canvas, spot_of(e), canvas), Fit::Content)),
        ElementKind::Board => {
            let size = if e.children@.len() == 0 {
                match content_size(m) {
                    Some(s) => if s.vacant() {
                        None
                    } else {
                        Some(s)
                    },
                    None => None,
                }
            } else {
                board_extent(
                    stack_of(e.children@, m.children@, frame, e.children@.len() as int, false),
                )
            };
            match size {
                Some(s) => Some((place(s, spot_of(e), canvas), Fit::Content)),
                None => None,
            }
        },
        _ => match content_size(m) {
            Some(s) => if s.vacant() {
                None
            } else {
                Some((place(s, spot_of(e), canvas), Fit::Content))
            },
            None => None,
        },
    }
}

/// An element live at `frame`, if it draws anything, and the next place in
/// the emission order.
pub open spec fn placed_one(
    e: ResolvedElement,
    m: Measured,
    frame: u32,
    canvas: Extent,
    z: int,
) -> (Option<PlacedView>, int) {
    match canvas_box(e, m, frame, canvas) {
        None => (None, z),
        Some((rect, fit)) => {
            let kids = if e.kind is Board {
                column(e.children@, m.children@, frame, rect.w, e.children@.len() as int, z)
            } else {
                Column { placed: Seq::empty(), cursor: 0, z }
            };
            let (opacity, transform) = presentation(e, local(e, frame));
            (
                Some(
                    PlacedView {
                        element: e,
                        rect,
                        fit,
                        focal: spot_of(e),
                        transform,
                        opacity,
                        local_frame: local(e, frame),
                        z: kids.z,
                        children: kids.placed,
                    },
                ),
                kids.z + 1,
            )
        },
    }
}

/// The first `n` elements of a track, those live at `frame` that draw.
pub open spec fn placed_list(
    es: Seq<ResolvedElement>,
    ms: Seq<Measured>,
    frame: u32,
    canvas: Extent,
    n: int,
    start: (Seq<PlacedView>, int),
) -> (Seq<PlacedView>, int)
    decreases n,
{
    if n <= 0 || n > es.len() {
        start
    } else {
        let (list, z) = placed_list(es, ms, frame, canvas, n - 1, start);
        if es[n - 1].timing.frames.holds(frame) {
            let (p, next) = placed_one(es[n - 1], ms[n - 1], frame, canvas, z);
            match p {
                Some(v) => (list.push(v), next),
                None => (list, next),
            }
        } else {
            (list, z)
        }
    }
}

/// The draw list of the first `n` tracks: track order, then element order;
/// audio tracks draw nothing.
pub open spec fn placed_tracks(
    tracks: Seq<ResolvedTrack>,
    sizes: Seq<Vec<Measured>>,
    frame: u32,
    canvas: Extent,
    n: int,
) -> (Seq<PlacedView>, int)
    decreases n,
{
    if n <= 0 || n > tracks.len() {
        (Seq::empty(), 0)
    } else {
        let before = placed_tracks(tracks, sizes, frame, canvas, n - 1);
        let t = tracks[n - 1];
        if t.kind == TrackKind::Audio {
            before
        } else {
            placed_list(
                t.elements@,
                sizes[n - 1]@,
                frame,
                canvas,
                t.elements@.len() as int,
                before,
            )
        }
    }
}

/// The draw list of a frame.
pub open spec fn draw_list(scene: ResolvedScene, sizes: Seq<Vec<Measured>>, frame: u32) -> Seq<
    PlacedView,
> {
    placed_tracks(
        scene.tracks@,
        sizes,
        frame,
        canvas_extent(scene.canvas.width, scene.canvas.height),
        scene.tracks@.len() as int,
    ).0
}

// Coordinates that can be held.

/// The measurements follow the tree of elements.
pub open spec fn same_shape(e: ResolvedElement, m: Measured) -> bool
    decreases e,
{
    &&& m.children@.len() == e.children@.len()
    &&& forall|i: int|
        0 <= i < e.children@.len() ==> same_shape(#[trigger] e.children@[i], m.children@[i])
}

/// The measurements of a list follow its elements.
pub open spec fn list_shape(es: Seq<ResolvedElement>, ms: Seq<Measured>) -> bool {
    &&& ms.len() == es.len()
    &&& forall|i: int| 0 <= i < es.len() ==> same_shape(#[trigger] es[i], ms[i])
}

pub open spec fn sizes_shape(tracks: Seq<ResolvedTrack>, sizes: Seq<Vec<Measured>>) -> bool {
    &&& sizes.len() == tracks.len()
    &&& forall|i: int|
        0 <= i < tracks.len() ==> list_shape(#[trigger] tracks[i].elements@, sizes[i]@)
}

/// A coordinate of a [`Rect`] can hold the number.
pub open spec fn coordinate(v: int) -> bool {
    i128::MIN <= v <= i128::MAX
}

pub open spec fn rect_held(r: RectView) -> bool {
    coordinate(r.x) && coordinate(r.y) && coordinate(r.w) && coordinate(r.h)
}

/// A placed element and everything below it can be held: every coordinate,
/// and every place in the emission order.
pub open spec fn held(p: PlacedView) -> bool
    decreases p,
{
    &&& rect_held(p.rect)
    &&& 0 <= p.z <= u64::MAX
    &&& forall|i: int| 0 <= i < p.children.len() ==> held(#[trigger] p.children[i])
}

pub open spec fn all_held(list: Seq<PlacedView>) -> bool {
    forall|i: int| 0 <= i < list.len() ==> held(#[trigger] list[i])
}

/// What code has placed is held.
proof fn lemma_held(p: PlacedElement)
    ensures
        held(p.view()),
    decreases p,
{
    assert forall|i: int| 0 <= i < p.view().children.len() implies held(
        #[trigger] p.view().children[i],
    ) by {
        lemma_held(p.children@[i]);
    }
}

proof fn lemma_same_shape(e: ResolvedElement, m: Measured)
    ensures
        same_shape(e, m) == list_shape(e.children@, m.children@),
{
}

/// The members of a stack that have an extent make it larger.
proof fn lemma_solid_stack(es: Seq<ResolvedElement>, ms: Seq<Measured>, frame: u32, n: int)
    ensures
        ({
            let s = stack_of(es, ms, frame, n, true);
            0 <= s.w && 0 <= s.h
        }),
    decreases n,
{
    if 0 < n <= es.len() {
        lemma_solid_stack(es, ms, frame, n - 1);
    }
}

/// A later prefix of a stack is no smaller.
proof fn lemma_stack_grows(
    es: Seq<ResolvedElement>,
    ms: Seq<Measured>,
    frame: u32,
    k: int,
    n: int,
    solid: bool,
)
    requires
        0 <= k <= n <= es.len(),
    ensures
        stack_of(es, ms, frame, k, solid).count <= stack_of(es, ms, frame, n, solid).count,
        0 <= stack_of(es, ms, frame, k, solid).w <= stack_of(es, ms, frame, n, solid).w,
    decreases n,
{
    if k < n {
        lemma_stack_grows(es, ms, frame, k, n - 1, solid);
    } else if n > 0 {
        lemma_stack_grows(es, ms, frame, n - 1, n - 1, solid);
    }
}

/// A board that is sized by its stack has an extent; what has none was
/// measured.
proof fn lemma_member(e: ResolvedElement, m: Measured, frame: u32)
    ensures
        stack_size(e, m, frame) matches Some(s) ==> s.vacant() ==> content_size(m) == Some(s),
        e.kind is Board ==> (board_extent(
            stack_of(e.children@, m.children@, frame, e.children@.len() as int, true),
        ) matches Some(s) ==> !s.vacant()),
{
    lemma_solid_stack(e.children@, m.children@, frame, e.children@.len() as int);
    let c = stack_of(e.children@, m.children@, frame, e.children@.len() as int, true).count;
    assert(c > 0 ==> BOARD_GAP * (c - 1) >= 0) by (nonlinear_arith)
        requires
            BOARD_GAP > 0,
    ;
}

/// The column of more children holds that of fewer.
proof fn lemma_column_grows(
    es: Seq<ResolvedElement>,
    ms: Seq<Measured>,
    frame: u32,
    board_w: int,
    k: int,
    n: int,
    z: int,
)
    requires
        0 <= k <= n <= es.len(),
        all_held(column(es, ms, frame, board_w, n, z).placed),
    ensures
        all_held(column(es, ms, frame, board_w, k, z).placed),
    decreases n,
{
    if k < n {
        let before = column(es, ms, frame, board_w, n - 1, z).placed;
        let after = column(es, ms, frame, board_w, n, z).placed;
        assert forall|i: int| 0 <= i < before.len() implies held(#[trigger] before[i]) by {
            assert(before[i] == after[i]);
        }
        lemma_column_grows(es, ms, frame, board_w, k, n - 1, z);
    }
}

/// A column whose members are held is itself no taller than a coordinate.
proof fn lemma_column_tall(
    es: Seq<ResolvedElement>,
    ms: Seq<Measured>,
    frame: u32,
    board_w: int,
    n: int,
    z: int,
)
    requires
        0 <= n <= es.len(),
    ensures
        column(es, ms, frame, board_w, n, z).cursor >= 2 * BOARD_PAD + 2 * stack_of(
            es,
            ms,
            frame,
            n,
            true,
        ).h,
        all_held(column(es, ms, frame, board_w, n, z).placed) ==> stack_of(
            es,
            ms,
            frame,
            n,
            true,
        ).h <= i128::MAX,
    decreases n,
{
    if 0 < n {
        lemma_column_tall(es, ms, frame, board_w, n - 1, z);
        lemma_solid_stack(es, ms, frame, n - 1);
        let after = column(es, ms, frame, board_w, n, z).placed;
        let before = column(es, ms, frame, board_w, n - 1, z);
        if all_held(after) {
            lemma_column_grows(es, ms, frame, board_w, n - 1, n, z);
            if after.len() > before.placed.len() {
                let s = stack_size(es[n - 1], ms[n - 1], frame)->0;
                let p = stack_child(
                    es[n - 1],
                    ms[n - 1],
                    frame,
                    board_w,
                    before.cursor,
                    s,
                    before.z,
                ).0;
                assert(after[after.len() - 1] == p);
                assert(held(p));
                assert(p.rect.y == before.cursor && p.rect.h == 2 * s.h);
            }
        }
    }
}

/// A stack member that is placed and that nothing can hold, wherever it is
/// placed.
spec fn unfit(e: ResolvedElement, m: Measured, frame: u32) -> bool {
    &&& stack_size(e, m, frame) matches Some(s)
    &&& !s.vacant()
    &&& forall|board_w: int, cursor: int, z: int|
        !held(#[trigger] stack_child(e, m, frame, board_w, cursor, s, z).0)
}

/// A column that nothing can hold, wherever it starts.
spec fn column_broken(es: Seq<ResolvedElement>, ms: Seq<Measured>, frame: u32) -> bool {
    forall|board_w: int, z: int|
        !all_held(#[trigger] column(es, ms, frame, board_w, es.len() as int, z).placed)
}

/// A board with these children that nothing can hold.
spec fn stack_broken(
    es: Seq<ResolvedElement>,
    ms: Seq<Measured>,
    frame: u32,
    solid: bool,
) -> bool {
    &&& board_extent(stack_of(es, ms, frame, es.len() as int, solid)) matches Some(s)
    &&& s.w > i128::MAX || s.h > i128::MAX || column_broken(es, ms, frame)
}

/// A member of a column that is placed and not held.
proof fn lemma_column_member(
    es: Seq<ResolvedElement>,
    ms: Seq<Measured>,
    frame: u32,
    board_w: int,
    i: int,
    z: int,
    s: Extent,
)
    requires
        0 <= i < es.len(),
        es[i].timing.frames.holds(frame),
        stack_size(es[i], ms[i], frame) == Some(s),
        !s.vacant(),
        ({
            let before = column(es, ms, frame, board_w, i, z);
            !held(stack_child(es[i], ms[i], frame, board_w, before.cursor, s, before.z).0)
        }),
    ensures
        !all_held(column(es, ms, frame, board_w, es.len() as int, z).placed),
{
    if all_held(column(es, ms, frame, board_w, es.len() as int, z).placed) {
        lemma_column_grows(es, ms, frame, board_w, i + 1, es.len() as int, z);
        let after = column(es, ms, frame, board_w, i + 1, z).placed;
        assert(held(after[after.len() - 1]));
    }
}

proof fn lemma_unfit_member(
    es: Seq<ResolvedElement>,
    ms: Seq<Measured>,
    frame: u32,
    i: int,
    solid: bool,
)
    requires
        0 <= i < es.len(),
        es[i].timing.frames.holds(frame),
        unfit(es[i], ms[i], frame),
    ensures
        column_broken(es, ms, frame),
        stack_broken(es, ms, frame, solid),
{
    let s = stack_size(es[i], ms[i], frame)->0;
    assert forall|board_w: int, z: int|
        !all_held(#[trigger] column(es, ms, frame, board_w, es.len() as int, z).placed) by {
        lemma_column_member(es, ms, frame, board_w, i, z, s);
    }
    lemma_stack_grows(es, ms, frame, i + 1, es.len() as int, solid);
}

proof fn lemma_unfit_board(e: ResolvedElement, m: Measured, frame: u32)
    requires
        e.kind is Board,
        stack_broken(e.children@, m.children@, frame, true),
    ensures
        unfit(e, m, frame),
{
    lemma_member(e, m, frame);
    let s = stack_size(e, m, frame)->0;
    assert forall|board_w: int, cursor: int, z: int|
        !held(#[trigger] stack_child(e, m, frame, board_w, cursor, s, z).0) by {
        let p = stack_child(e, m, frame, board_w, cursor, s, z).0;
        if s.w <= i128::MAX && s.h <= i128::MAX {
            assert(p.children == column(
                e.children@,
                m.children@,
                frame,
                2 * s.w,
                e.children@.len() as int,
                z,
            ).placed);
        }
    }
}

// Code.

/// A coordinate that cannot be held.
struct TooFar;

/// A size that is added up, in units of 1/32768 pixel.
#[derive(Clone, Copy)]
struct Bulk {
    w: i128,
    h: i128,
}

impl View for Bulk {
    type V = Extent;

    closed spec fn view(&self) -> Extent {
        Extent { w: self.w as int, h: self.h as int }
    }
}

impl Bulk {
    fn is_empty(self) -> (r: bool)
        ensures
            r == self@.vacant(),
    {
        self.w <= 0 || self.h <= 0
    }
}

spec fn bulk_view(s: Option<Bulk>) -> Option<Extent> {
    match s {
        Some(v) => Some(v@),
        None => None,
    }
}

fn widen(m: &Measured) -> (r: Option<Bulk>)
    ensures
        bulk_view(r) == content_size(*m),
{
    match m.size {
        Some(s) => Some(Bulk { w: s.w as i128, h: s.h as i128 }),
        None => None,
    }
}

fn is_board(kind: &ElementKind) -> (r: bool)
    ensures
        r == (kind is Board),
{
    match kind {
        ElementKind::Board => true,
        _ => false,
    }
}

/// The longest side of a canvas, in content units.
const CANVAS_LIMIT: i128 = 0x8000_0000_0000;

/// The box that a size occupies at a spot of a canvas.
fn place_at(size: Bulk, spot: Spot, canvas: Bulk) -> (r: Result<Rect, TooFar>)
    requires
        0 <= canvas.w <= CANVAS_LIMIT,
        0 <= canvas.h <= CANVAS_LIMIT,
    ensures
        match r {
            Ok(v) => v@ == place(size@, spot, canvas@),
            Err(_) => !rect_held(place(size@, spot, canvas@)),
        },
{
    let (w, h) = match (size.w.checked_add(size.w), size.h.checked_add(size.h)) {
        (Some(w), Some(h)) => (w, h),
        _ => {
            return Err(TooFar);
        },
    };
    let (x, y): (Option<i128>, Option<i128>) = match spot {
        Spot::Point { x, y } => (
            (x as i128).checked_sub(size.w),
            (y as i128).checked_sub(size.h),
        ),
        Spot::Named(NamedPlacement::Center) => (
            canvas.w.checked_sub(size.w),
            canvas.h.checked_sub(size.h),
        ),
        Spot::Named(NamedPlacement::Top) => (canvas.w.checked_sub(size.w), Some(EDGE_MARGIN)),
        Spot::Named(NamedPlacement::Bottom) => (
            canvas.w.checked_sub(size.w),
            (2 * canvas.h - EDGE_MARGIN).checked_sub(h),
        ),
        Spot::Named(NamedPlacement::Left) => (Some(EDGE_MARGIN), canvas.h.checked_sub(size.h)),
        Spot::Named(NamedPlacement::Right) => (
            (2 * canvas.w - EDGE_MARGIN).checked_sub(w),
            canvas.h.checked_sub(size.h),
        ),
    };
    match (x, y) {
        (Some(x), Some(y)) => Ok(Rect { x, y, w, h }),
        _ => Err(TooFar),
    }
}

fn element_spot(e: &ResolvedElement) -> (r: Spot)
    ensures
        r == spot_of(*e),
{
    match e.placement {
        Some(s) => s,
        None => match &e.kind {
            ElementKind::Captions { .. } => Spot::Named(NamedPlacement::Bottom),
            _ => Spot::Named(NamedPlacement::Center),
        },
    }
}

fn present(e: &ResolvedElement, local_frame: u32) -> (r: (Ratio, Transform))
    ensures
        r == presentation(*e, local_frame),
{
    match e.anim {
        Some(kind) => evaluate(kind, local_frame, e.timing.frames.len()),
        None => {
            let zero = Ratio { num: 0, den: 1 };
            let one = Ratio { num: 1, den: 1 };
            (one, Transform { dx: zero, dy: zero, scale: one })
        },
    }
}

fn member_size(e: &ResolvedElement, m: &Measured, frame: u32) -> (r: Result<Option<Bulk>, TooFar>)
    requires
        same_shape(*e, *m),
    ensures
        match r {
            Ok(v) => bulk_view(v) == stack_size(*e, *m, frame),
            Err(_) => unfit(*e, *m, frame),
        },
    decreases e, 1int,
{
    if is_board(&e.kind) {
        proof {
            lemma_same_shape(*e, *m);
        }
        match stack_extent(&e.children, &m.children, frame, true) {
            Ok(Some(s)) => Ok(Some(s)),
            Ok(None) => Ok(widen(m)),
            Err(t) => {
                proof {
                    lemma_unfit_board(*e, *m, frame);
                }
                Err(t)
            },
        }
    } else {
        Ok(widen(m))
    }
}

/// The size of a board with these children.
fn stack_extent(
    es: &Vec<ResolvedElement>,
    ms: &Vec<Measured>,
    frame: u32,
    solid: bool,
) -> (r: Result<Option<Bulk>, TooFar>)
    requires
        list_shape(es@, ms@),
    ensures
        match r {
            Ok(v) => bulk_view(v) == board_extent(
                stack_of(es@, ms@, frame, es@.len() as int, solid),
            ),
            Err(_) => stack_broken(es@, ms@, frame, solid),
        },
    decreases es, 0int,
{
    let mut w: i128 = 0;
    // The heights of the members that have an extent, and of the others.
    let mut tall: i128 = 0;
    let mut rest: i128 = 0;
    let mut gaps: i128 = 0;
    let mut any: bool = false;
    let mut i: usize = 0;
    while i < es.len()
        invariant
            i <= es@.len(),
            list_shape(es@, ms@),
            ({
                let s = stack_of(es@, ms@, frame, i as int, solid);
                &&& 0 <= w == s.w
                &&& 0 <= tall == stack_of(es@, ms@, frame, i as int, true).h
                &&& tall + rest == s.h
                &&& -0x8000_0000_0000_0000 * i <= rest <= 0x8000_0000_0000_0000 * i
                &&& any == (s.count > 0)
                &&& 0 <= gaps <= BOARD_GAP * i
                &&& gaps == (if s.count > 0 {
                    BOARD_GAP * (s.count - 1)
                } else {
                    0
                })
            }),
        decreases es@.len() - i,
    {
        let e = &es[i];
        let m = &ms[i];
        let ghost before = stack_of(es@, ms@, frame, i as int, solid);
        proof {
            assert(same_shape(es@[i as int], ms@[i as int]));
            lemma_member(*e, *m, frame);
            let c = before.count as int;
            let g = BOARD_GAP as int;
            assert(g * c == g * (c - 1) + g) by (nonlinear_arith);
            assert(g * (i + 1) == g * i + g) by (nonlinear_arith);
            assert(g * i <= 0x1_0000_0000_0000_0000 * g) by (nonlinear_arith)
                requires
                    0 <= i <= 0x1_0000_0000_0000_0000,
                    0 <= g,
            ;
            assert(decreases_to!(es => es@[i as int]));
        }
        if e.timing.frames.contains(frame) {
            match member_size(e, m, frame) {
                Err(t) => {
                    proof {
                        lemma_unfit_member(es@, ms@, frame, i as int, solid);
                    }
                    return Err(t);
                },
                Ok(Some(s)) => {
                    let empty = s.is_empty();
                    if !(solid && empty) {
                        if empty {
                            rest = rest + s.h;
                        } else {
                            match tall.checked_add(s.h) {
                                Some(t) => {
                                    tall = t;
                                },
                                None => {
                                    proof {
                                        lemma_too_tall(es@, ms@, frame, i + 1, solid);
                                    }
                                    return Err(TooFar);
                                },
                            }
                        }
                        if s.w > w {
                            w = s.w;
                        }
                        if any {
                            gaps = gaps + BOARD_GAP;
                        }
                        any = true;
                    }
                },
                Ok(None) => {},
            }
        }
        i = i + 1;
    }
    if !any {
        return Ok(None);
    }
    let h: Option<i128> = match tall.checked_add(rest) {
        Some(t) => t.checked_add(2 * BOARD_PAD + gaps),
        None => None,
    };
    match (w.checked_add(2 * BOARD_PAD), h) {
        (Some(w), Some(h)) => Ok(Some(Bulk { w, h })),
        _ => Err(TooFar),
    }
}

/// Members that are together taller than a coordinate.
proof fn lemma_too_tall(
    es: Seq<ResolvedElement>,
    ms: Seq<Measured>,
    frame: u32,
    n: int,
    solid: bool,
)
    requires
        0 <= n <= es.len(),
        stack_of(es, ms, frame, n, true).h > i128::MAX,
        stack_of(es, ms, frame, n, solid).count > 0,
    ensures
        stack_broken(es, ms, frame, solid),
{
    assert forall|board_w: int, z: int|
        !all_held(#[trigger] column(es, ms, frame, board_w, es.len() as int, z).placed) by {
        if all_held(column(es, ms, frame, board_w, es.len() as int, z).placed) {
            lemma_column_grows(es, ms, frame, board_w, n, es.len() as int, z);
            lemma_column_tall(es, ms, frame, board_w, n, z);
        }
    }
    lemma_stack_grows(es, ms, frame, n, es.len() as int, solid);
}

/// The places in the emission order, and the one after the last.
const ORDER_END: u128 = 0x1_0000_0000_0000_0000;

/// Place one board child inside the stack: centred horizontally at `cursor`,
/// rect relative to the board origin. Nested boards recurse.
fn place_stack_child<'a>(
    e: &'a ResolvedElement,
    m: &Measured,
    frame: u32,
    board_w: i128,
    cursor: i128,
    size: Bulk,
    z: u128,
) -> (r: Result<(PlacedElement<'a>, u128), TooFar>)
    requires
        same_shape(*e, *m),
        e.timing.frames.holds(frame),
        0 <= board_w,
        board_w % 2 == 0,
        0 <= size.w,
        0 <= size.h,
        z <= ORDER_END,
    ensures
        ({
            let (p, next) = stack_child(
                *e,
                *m,
                frame,
                board_w as int,
                cursor as int,
                size@,
                z as int,
            );
            match r {
                Ok(v) => v.0.view() == p && v.1 == next && v.1 <= ORDER_END,
                Err(_) => !held(p),
            }
        }),
    decreases e, 1int,
{
    let (w, h) = match (size.w.checked_add(size.w), size.h.checked_add(size.h)) {
        (Some(w), Some(h)) => (w, h),
        _ => {
            return Err(TooFar);
        },
    };
    let local_frame: u32 = frame - e.timing.frames.start;
    let (opacity, transform) = present(e, local_frame);
    let rect = Rect { x: (board_w - w) / 2, y: cursor, w, h };
    proof {
        lemma_same_shape(*e, *m);
    }
    let (children, next): (Vec<PlacedElement<'a>>, u128) = if is_board(&e.kind) {
        match place_column(&e.children, &m.children, frame, rect.w, z) {
            Ok(c) => c,
            Err(t) => {
                assert(stack_child(
                    *e,
                    *m,
                    frame,
                    board_w as int,
                    cursor as int,
                    size@,
                    z as int,
                ).0.children == column(
                    e.children@,
                    m.children@,
                    frame,
                    rect.w as int,
                    e.children@.len() as int,
                    z as int,
                ).placed);
                return Err(t);
            },
        }
    } else {
        let none: Vec<PlacedElement<'a>> = Vec::new();
        assert(placed_views(none@) =~= Seq::<PlacedView>::empty());
        (none, z)
    };
    if next >= ORDER_END {
        return Err(TooFar);
    }
    let focal = match e.placement {
        Some(s) => s,
        None => Spot::Named(NamedPlacement::Center),
    };
    let p = PlacedElement {
        element: e,
        rect,
        fit: Fit::Content,
        focal,
        transform,
        opacity,
        local_frame,
        z: next as u64,
        children,
    };
    proof {
        assert(p.view().children =~= placed_views(children@));
    }
    Ok((p, next + 1))
}

fn place_column<'a>(
    es: &'a Vec<ResolvedElement>,
    ms: &Vec<Measured>,
    frame: u32,
    board_w: i128,
    z: u128,
) -> (r: Result<(Vec<PlacedElement<'a>>, u128), TooFar>)
    requires
        list_shape(es@, ms@),
        0 <= board_w,
        board_w % 2 == 0,
        z <= ORDER_END,
    ensures
        ({
            let c = column(es@, ms@, frame, board_w as int, es@.len() as int, z as int);
            match r {
                Ok(v) => placed_views(v.0@) == c.placed && v.1 == c.z && v.1 <= ORDER_END,
                Err(_) => !all_held(c.placed),
            }
        }),
    decreases es, 0int,
{
    let mut out: Vec<PlacedElement<'a>> = Vec::new();
    // Where the next member goes, as far as that can be held.
    let mut cursor: Option<i128> = Some(2 * BOARD_PAD);
    let mut next: u128 = z;
    let mut i: usize = 0;
    assert(placed_views(out@) =~= Seq::<PlacedView>::empty());
    while i < es.len()
        invariant
            i <= es@.len(),
            list_shape(es@, ms@),
            0 <= board_w,
            board_w % 2 == 0,
            next <= ORDER_END,
            ({
                let c = column(es@, ms@, frame, board_w as int, i as int, z as int);
                &&& c.placed == placed_views(out@)
                &&& c.z == next
                &&& match cursor {
                    Some(v) => c.cursor == v,
                    None => c.cursor > i128::MAX,
                }
            }),
        decreases es@.len() - i,
    {
        let e = &es[i];
        let m = &ms[i];
        let ghost before = placed_views(out@);
        proof {
            assert(same_shape(es@[i as int], ms@[i as int]));
            assert(decreases_to!(es => es@[i as int]));
        }
        if e.timing.frames.contains(frame) {
            match member_size(e, m, frame) {
                Err(t) => {
                    proof {
                        lemma_unfit_member(es@, ms@, frame, i as int, true);
                        assert(!all_held(
                            column(
                                es@,
                                ms@,
                                frame,
                                board_w as int,
                                es@.len() as int,
                                z as int,
                            ).placed,
                        ));
                    }
                    return Err(t);
                },
                Ok(Some(s)) => {
                    if !s.is_empty() {
                        let at: i128 = match cursor {
                            Some(v) => v,
                            None => {
                                proof {
                                    lemma_column_member(
                                        es@,
                                        ms@,
                                        frame,
                                        board_w as int,
                                        i as int,
                                        z as int,
                                        s@,
                                    );
                                }
                                return Err(TooFar);
                            },
                        };
                        match place_stack_child(e, m, frame, board_w, at, s, next) {
                            Ok((p, n)) => {
                                out.push(p);
                                assert(placed_views(out@) =~= before.push(p.view()));
                                next = n;
                                cursor = match s.h.checked_add(s.h) {
                                    Some(h) => match h.checked_add(2 * BOARD_GAP) {
                                        Some(step) => at.checked_add(step),
                                        None => None,
                                    },
                                    None => None,
                                };
                                proof {
                                    lemma_column_tall(
                                        es@,
                                        ms@,
                                        frame,
                                        board_w as int,
                                        i as int,
                                        z as int,
                                    );
                                    lemma_solid_stack(es@, ms@, frame, i as int);
                                }
                            },
                            Err(t) => {
                                proof {
                                    lemma_column_member(
                                        es@,
                                        ms@,
                                        frame,
                                        board_w as int,
                                        i as int,
                                        z as int,
                                        s@,
                                    );
                                }
                                return Err(t);
                            },
                        }
                    }
                },
                Ok(None) => {},
            }
        }
        i = i + 1;
    }
    Ok((out, next))
}

pub open spec fn box_view(b: Option<(Rect, Fit)>) -> Option<(RectView, Fit)> {
    match b {
        Some(v) => Some((v.0@, v.1)),
        None => None,
    }
}

fn element_box(e: &ResolvedElement, m: &Measured, frame: u32, canvas: Bulk) -> (r: Result<
    Option<(Rect, Fit)>,
    TooFar,
>)
    requires
        same_shape(*e, *m),
        0 <= canvas.w <= CANVAS_LIMIT,
        0 <= canvas.h <= CANVAS_LIMIT,
    ensures
        match r {
            Ok(v) => {
                &&& box_view(v) == canvas_box(*e, *m, frame, canvas@)
                &&& v matches Some(b) ==> e.kind is Board ==> 0 <= b.0.w && b.0.w % 2 == 0
            },
            Err(_) => canvas_box(*e, *m, frame, canvas@) matches Some(b) && (!rect_held(b.0)
                || e.kind is Board && column_broken(e.children@, m.children@, frame)),
        },
{
    proof {
        lemma_same_shape(*e, *m);
        lemma_stack_grows(
            e.children@,
            m.children@,
            frame,
            0,
            e.children@.len() as int,
            false,
        );
    }
    let spot = element_spot(e);
    let size: Bulk = match &e.kind {
        ElementKind::Clip { .. } => {
            let rect = Rect { x: 0, y: 0, w: 2 * canvas.w, h: 2 * canvas.h };
            return Ok(Some((rect, Fit::Cover)));
        },
        ElementKind::Image { .. } => {
            let rect = Rect { x: 0, y: 0, w: 2 * canvas.w, h: 2 * canvas.h };
            return Ok(Some((rect, Fit::Cover)));
        },
        ElementKind::Music { .. } => {
            return Ok(None);
        },
        ElementKind::Sound { .. } => {
            return Ok(None);
        },
        ElementKind::Program { .. } => canvas,
        ElementKind::Board if e.children.len() > 0 => match stack_extent(
            &e.children,
            &m.children,
            frame,
            false,
        ) {
            Ok(Some(s)) => s,
            Ok(None) => {
                return Ok(None);
            },
            Err(t) => {
                return Err(t);
            },
        },
        _ => match widen(m) {
            Some(s) => {
                if s.is_empty() {
                    return Ok(None);
                }
                s
            },
            None => {
                return Ok(None);
            },
        },
    };
    match place_at(size, spot, canvas) {
        Ok(rect) => Ok(Some((rect, Fit::Content))),
        Err(t) => Err(t),
    }
}

fn place_one<'a>(
    e: &'a ResolvedElement,
    m: &Measured,
    frame: u32,
    canvas: Bulk,
    z: u128,
) -> (r: Result<(Option<PlacedElement<'a>>, u128), TooFar>)
    requires
        same_shape(*e, *m),
        e.timing.frames.holds(frame),
        0 <= canvas.w <= CANVAS_LIMIT,
        0 <= canvas.h <= CANVAS_LIMIT,
        z <= ORDER_END,
    ensures
        ({
            let out = placed_one(*e, *m, frame, canvas@, z as int);
            match r {
                Ok((Some(p), next)) => out == (Some(p.view()), next as int) && next <= ORDER_END,
                Ok((None, next)) => out == (None::<PlacedView>, next as int) && next <= ORDER_END,
                Err(_) => out.0 matches Some(p) && !held(p),
            }
        }),
{
    proof {
        lemma_same_shape(*e, *m);
    }
    let ghost out = placed_one(*e, *m, frame, canvas@, z as int);
    let (rect, fit) = match element_box(e, m, frame, canvas) {
        Ok(Some(b)) => b,
        Ok(None) => {
            return Ok((None, z));
        },
        Err(t) => {
            proof {
                let b = canvas_box(*e, *m, frame, canvas@)->0;
                if rect_held(b.0) {
                    assert(out.0->0.children == column(
                        e.children@,
                        m.children@,
                        frame,
                        b.0.w,
                        e.children@.len() as int,
                        z as int,
                    ).placed);
                }
            }
            return Err(t);
        },
    };
    let local_frame: u32 = frame - e.timing.frames.start;
    let (opacity, transform) = present(e, local_frame);
    let (children, next): (Vec<PlacedElement<'a>>, u128) = if is_board(&e.kind) {
        match place_column(&e.children, &m.children, frame, rect.w, z) {
            Ok(c) => c,
            Err(t) => {
                assert(out.0->0.children == column(
                    e.children@,
                    m.children@,
                    frame,
                    rect.w as int,
                    e.children@.len() as int,
                    z as int,
                ).placed);
                return Err(t);
            },
        }
    } else {
        let none: Vec<PlacedElement<'a>> = Vec::new();
        assert(placed_views(none@) =~= Seq::<PlacedView>::empty());
        (none, z)
    };
    if next >= ORDER_END {
        return Err(TooFar);
    }
    let p = PlacedElement {
        element: e,
        rect,
        fit,
        focal: element_spot(e),
        transform,
        opacity,
        local_frame,
        z: next as u64,
        children,
    };
    proof {
        assert(p.view().children =~= placed_views(children@));
    }
    Ok((Some(p), next + 1))
}

/// What is placed stays in the list.
proof fn lemma_list_grows(
    es: Seq<ResolvedElement>,
    ms: Seq<Measured>,
    frame: u32,
    canvas: Extent,
    k: int,
    n: int,
    start: (Seq<PlacedView>, int),
)
    requires
        0 <= k <= n <= es.len(),
        all_held(placed_list(es, ms, frame, canvas, n, start).0),
    ensures
        all_held(placed_list(es, ms, frame, canvas, k, start).0),
    decreases n,
{
    if k < n {
        let before = placed_list(es, ms, frame, canvas, n - 1, start).0;
        let after = placed_list(es, ms, frame, canvas, n, start).0;
        assert forall|i: int| 0 <= i < before.len() implies held(#[trigger] before[i]) by {
            assert(before[i] == after[i]);
        }
        lemma_list_grows(es, ms, frame, canvas, k, n - 1, start);
    }
}

/// Place every element of a track live at `frame`, appending to `out`.
fn place_all<'a>(
    es: &'a Vec<ResolvedElement>,
    ms: &Vec<Measured>,
    frame: u32,
    canvas: Bulk,
    out: &mut Vec<PlacedElement<'a>>,
    z: u128,
) -> (r: Result<u128, TooFar>)
    requires
        list_shape(es@, ms@),
        0 <= canvas.w <= CANVAS_LIMIT,
        0 <= canvas.h <= CANVAS_LIMIT,
        z <= ORDER_END,
    ensures
        ({
            let all = placed_list(
                es@,
                ms@,
                frame,
                canvas@,
                es@.len() as int,
                (placed_views(old(out)@), z as int),
            );
            match r {
                Ok(next) => (placed_views(final(out)@), next as int) == all && next <= ORDER_END,
                Err(_) => !all_held(all.0),
            }
        }),
{
    let ghost start = (placed_views(out@), z as int);
    let mut next: u128 = z;
    let mut i: usize = 0;
    while i < es.len()
        invariant
            i <= es@.len(),
            list_shape(es@, ms@),
            0 <= canvas.w <= CANVAS_LIMIT,
            0 <= canvas.h <= CANVAS_LIMIT,
            next <= ORDER_END,
            start == (placed_views(old(out)@), z as int),
            (placed_views(out@), next as int) == placed_list(
                es@,
                ms@,
                frame,
                canvas@,
                i as int,
                start,
            ),
        decreases es@.len() - i,
    {
        let e = &es[i];
        let ghost before = placed_views(out@);
        proof {
            assert(same_shape(es@[i as int], ms@[i as int]));
        }
        if e.timing.frames.contains(frame) {
            match place_one(e, &ms[i], frame, canvas, next) {
                Ok((p, n)) => {
                    match p {
                        Some(v) => {
                            out.push(v);
                            assert(placed_views(out@) =~= before.push(v.view()));
                        },
                        None => {},
                    }
                    next = n;
                },
                Err(t) => {
                    proof {
                        let all = placed_list(
                            es@,
                            ms@,
                            frame,
                            canvas@,
                            es@.len() as int,
                            start,
                        ).0;
                        if all_held(all) {
                            lemma_list_grows(
                                es@,
                                ms@,
                                frame,
                                canvas@,
                                i + 1,
                                es@.len() as int,
                                start,
                            );
                            let after = placed_list(es@, ms@, frame, canvas@, i + 1, start).0;
                            assert(held(after[after.len() - 1]));
                        }
                    }
                    return Err(t);
                },
            }
        }
        i = i + 1;
    }
    Ok(next)
}

proof fn lemma_tracks_grow(
    tracks: Seq<ResolvedTrack>,
    sizes: Seq<Vec<Measured>>,
    frame: u32,
    canvas: Extent,
    k: int,
    n: int,
)
    requires
        0 <= k <= n <= tracks.len(),
        all_held(placed_tracks(tracks, sizes, frame, canvas, n).0),
    ensures
        all_held(placed_tracks(tracks, sizes, frame, canvas, k).0),
    decreases n,
{
    if k < n {
        let t = tracks[n - 1];
        if t.kind != TrackKind::Audio {
            lemma_list_grows(
                t.elements@,
                sizes[n - 1]@,
                frame,
                canvas,
                0,
                t.elements@.len() as int,
                placed_tracks(tracks, sizes, frame, canvas, n - 1),
            );
        }
        lemma_tracks_grow(tracks, sizes, frame, canvas, k, n - 1);
    }
}

/// The draw list for one frame, given the measured sizes of its elements: in
/// document order (track order, then element order), children nested under
/// their board. `None` when it has a coordinate that cannot be held.
pub fn place_frame<'a>(
    scene: &'a ResolvedScene,
    frame: u32,
    sizes: &Vec<Vec<Measured>>,
) -> (r: Option<Vec<PlacedElement<'a>>>)
    requires
        sizes_shape(scene.tracks@, sizes@),
    ensures
        r matches Some(list) ==> placed_views(list@) == draw_list(*scene, sizes@, frame),
        r is Some <==> all_held(draw_list(*scene, sizes@, frame)),
{
    let canvas = Bulk {
        w: scene.canvas.width as i128 * 32768,
        h: scene.canvas.height as i128 * 32768,
    };
    let ghost total = scene.tracks@.len() as int;
    let mut out: Vec<PlacedElement<'a>> = Vec::new();
    let mut z: u128 = 0;
    let mut i: usize = 0;
    assert(placed_views(out@) =~= Seq::<PlacedView>::empty());
    while i < scene.tracks.len()
        invariant
            i <= scene.tracks@.len() == total,
            sizes_shape(scene.tracks@, sizes@),
            canvas@ == canvas_extent(scene.canvas.width, scene.canvas.height),
            0 <= canvas.w <= CANVAS_LIMIT,
            0 <= canvas.h <= CANVAS_LIMIT,
            z <= ORDER_END,
            (placed_views(out@), z as int) == placed_tracks(
                scene.tracks@,
                sizes@,
                frame,
                canvas@,
                i as int,
            ),
        decreases scene.tracks@.len() - i,
    {
        let t = &scene.tracks[i];
        proof {
            assert(list_shape(scene.tracks@[i as int].elements@, sizes@[i as int]@));
        }
        match t.kind {
            TrackKind::Audio => {},
            TrackKind::Visual => {
                match place_all(&t.elements, &sizes[i], frame, canvas, &mut out, z) {
                    Ok(next) => {
                        z = next;
                    },
                    Err(_) => {
                        proof {
                            if all_held(draw_list(*scene, sizes@, frame)) {
                                lemma_tracks_grow(
                                    scene.tracks@,
                                    sizes@,
                                    frame,
                                    canvas@,
                                    i + 1,
                                    total,
                                );
                            }
                        }
                        return None;
                    },
                }
            },
        }
        i = i + 1;
    }
    proof {
        assert forall|k: int| 0 <= k < out@.len() implies held(
            #[trigger] placed_views(out@)[k],
        ) by {
            lemma_held(out@[k]);
        }
    }
    Some(out)
}

// Measurement.

/// The seam for content metrics. The renderer supplies real measurement;
/// returning `None` means that the element cannot be placed: it is dropped
/// from the draw list rather than guessed at. `local_frame` is the element's
/// position inside its own span: content that changes over time measures what
/// is live there.
pub trait Measure {
    fn measure(
        &mut self,
        element: &ResolvedElement,
        local_frame: u32,
        frame_rate: Rational,
    ) -> Option<Size>;
}

/// An element whose size a frame asks for, its children measured: it is live,
/// and it stands in a stack or is one that its content sizes. A board sizes
/// itself by its stack: it is asked for only where the stack has no member
/// or, outside a stack, where the board has no children. Nothing is asked
/// below an element that does not show.
pub open spec fn due(
    e: ResolvedElement,
    children: Seq<Measured>,
    frame: u32,
    shows: bool,
    in_stack: bool,
) -> bool {
    &&& shows
    &&& e.timing.frames.holds(frame)
    &&& if e.kind is Board {
        if in_stack {
            stack_of(e.children@, children, frame, e.children@.len() as int, true).count == 0
        } else {
            e.children@.len() == 0
        }
    } else {
        in_stack || e.kind is Text || e.kind is Captions
    }
}

/// The children of an element show in it: it is a live board that shows.
pub open spec fn shows_children(e: ResolvedElement, frame: u32, shows: bool) -> bool {
    shows && e.timing.frames.holds(frame) && e.kind is Board
}

/// `size` is what a call of `measure` answered for the element at a frame.
pub open spec fn answered<M: Measure>(
    e: ResolvedElement,
    size: Option<Size>,
    frame: u32,
    rate: Rational,
) -> bool {
    exists|m: &mut M| #[trigger]
        call_ensures(M::measure, (m, &e, local(e, frame), rate), size)
}

/// The sizes of an element and of everything below it are the answers of
/// `measure`, asked for each element that is due and for no other.
pub open spec fn measured_by<M: Measure>(
    e: ResolvedElement,
    m: Measured,
    frame: u32,
    rate: Rational,
    shows: bool,
    in_stack: bool,
) -> bool
    decreases e,
{
    &&& if due(e, m.children@, frame, shows, in_stack) {
        answered::<M>(e, m.size, frame, rate)
    } else {
        m.size is None
    }
    &&& m.children@.len() == e.children@.len()
    &&& forall|i: int|
        0 <= i < e.children@.len() ==> measured_by::<M>(
            #[trigger] e.children@[i],
            m.children@[i],
            frame,
            rate,
            shows_children(e, frame, shows),
            true,
        )
}

/// [`measured_by`] for every element of a list.
pub open spec fn list_measured_by<M: Measure>(
    es: Seq<ResolvedElement>,
    ms: Seq<Measured>,
    frame: u32,
    rate: Rational,
    shows: bool,
    in_stack: bool,
) -> bool {
    &&& ms.len() == es.len()
    &&& forall|i: int|
        0 <= i < es.len() ==> measured_by::<M>(
            #[trigger] es[i],
            ms[i],
            frame,
            rate,
            shows,
            in_stack,
        )
}

/// The sizes of a scene are the answers of `measure` for a frame; the elements
/// of audio tracks do not show.
pub open spec fn scene_measured_by<M: Measure>(
    scene: ResolvedScene,
    sizes: Seq<Vec<Measured>>,
    frame: u32,
) -> bool {
    &&& sizes.len() == scene.tracks@.len()
    &&& forall|i: int|
        0 <= i < scene.tracks@.len() ==> list_measured_by::<M>(
            #[trigger] scene.tracks@[i].elements@,
            sizes[i]@,
            frame,
            scene.frame_rate,
            scene.tracks@[i].kind == TrackKind::Visual,
            false,
        )
}

/// Whether a stack member has an extent.
fn has_extent(e: &ResolvedElement, m: &Measured, frame: u32) -> (r: bool)
    requires
        same_shape(*e, *m),
    ensures
        r == (stack_size(*e, *m, frame) matches Some(s) && !s.vacant()),
    decreases e, 1int,
{
    proof {
        lemma_same_shape(*e, *m);
        lemma_member(*e, *m, frame);
    }
    if is_board(&e.kind) && has_members(&e.children, &m.children, frame) {
        return true;
    }
    match m.size {
        Some(s) => !s.is_empty(),
        None => false,
    }
}

/// Whether a stack of these children has a member.
fn has_members(es: &Vec<ResolvedElement>, ms: &Vec<Measured>, frame: u32) -> (r: bool)
    requires
        list_shape(es@, ms@),
    ensures
        r == (stack_of(es@, ms@, frame, es@.len() as int, true).count > 0),
    decreases es, 0int,
{
    let mut i: usize = 0;
    while i < es.len()
        invariant
            i <= es@.len(),
            list_shape(es@, ms@),
            stack_of(es@, ms@, frame, i as int, true).count == 0,
        decreases es@.len() - i,
    {
        proof {
            assert(same_shape(es@[i as int], ms@[i as int]));
            assert(decreases_to!(es => es@[i as int]));
        }
        if es[i].timing.frames.contains(frame) && has_extent(&es[i], &ms[i], frame) {
            proof {
                lemma_stack_grows(es@, ms@, frame, i + 1, es@.len() as int, true);
            }
            return true;
        }
        i = i + 1;
    }
    false
}

/// Footage, programs and audio on the canvas need no measurement; everything
/// in a stack does, but for a board that its stack sizes.
fn needs_measure(e: &ResolvedElement, children: &Vec<Measured>, frame: u32, in_stack: bool) -> (r:
    bool)
    requires
        list_shape(e.children@, children@),
        e.timing.frames.holds(frame),
    ensures
        r == due(*e, children@, frame, true, in_stack),
{
    match &e.kind {
        ElementKind::Text { .. } => true,
        ElementKind::Captions { .. } => true,
        ElementKind::Board => if in_stack {
            !has_members(&e.children, children, frame)
        } else {
            e.children.len() == 0
        },
        _ => in_stack,
    }
}

/// The sizes of an element and of everything below it at a frame.
fn measure_element<M: Measure>(
    e: &ResolvedElement,
    frame: u32,
    rate: Rational,
    measure: &mut M,
    shows: bool,
    in_stack: bool,
) -> (r: Measured)
    ensures
        same_shape(*e, r),
        measured_by::<M>(*e, r, frame, rate, shows, in_stack),
    decreases e, 1int,
{
    let live = shows && e.timing.frames.contains(frame);
    let children = measure_list(
        &e.children,
        frame,
        rate,
        measure,
        live && is_board(&e.kind),
        true,
    );
    let size = if live && needs_measure(e, &children, frame, in_stack) {
        measure.measure(e, frame - e.timing.frames.start, rate)
    } else {
        None
    };
    let r = Measured { size, children };
    proof {
        lemma_same_shape(*e, r);
    }
    r
}

fn measure_list<M: Measure>(
    es: &Vec<ResolvedElement>,
    frame: u32,
    rate: Rational,
    measure: &mut M,
    shows: bool,
    in_stack: bool,
) -> (r: Vec<Measured>)
    ensures
        list_shape(es@, r@),
        list_measured_by::<M>(es@, r@, frame, rate, shows, in_stack),
    decreases es, 0int,
{
    let mut out: Vec<Measured> = Vec::new();
    let mut i: usize = 0;
    while i < es.len()
        invariant
            i <= es@.len(),
            out@.len() == i,
            forall|k: int| 0 <= k < i ==> same_shape(#[trigger] es@[k], out@[k]),
            forall|k: int|
                0 <= k < i ==> measured_by::<M>(
                    #[trigger] es@[k],
                    out@[k],
                    frame,
                    rate,
                    shows,
                    in_stack,
                ),
        decreases es@.len() - i,
    {
        assert(decreases_to!(es => es@[i as int]));
        let m = measure_element(&es[i], frame, rate, measure, shows, in_stack);
        out.push(m);
        i = i + 1;
    }
    out
}

/// Measure the elements live at a frame and place them: the draw list of the
/// sizes that `measure` answered. `None` when that list has a coordinate that
/// cannot be held, which takes more than 2^56 elements.
pub fn layout_frame<'a, M: Measure>(scene: &'a ResolvedScene, frame: u32, measure: &mut M) -> (r:
    Option<Vec<PlacedElement<'a>>>)
    ensures
        exists|sizes: Seq<Vec<Measured>>|
            {
                &&& #[trigger] sizes_shape(scene.tracks@, sizes)
                &&& scene_measured_by::<M>(*scene, sizes, frame)
                &&& match r {
                    Some(list) => placed_views(list@) == draw_list(*scene, sizes, frame),
                    None => !all_held(draw_list(*scene, sizes, frame)),
                }
            },
        crate::layout_laws::tracks_tally(scene.tracks@, scene.tracks@.len() as int)
            <= 0x100_0000_0000_0000 ==> r is Some,
{
    let mut sizes: Vec<Vec<Measured>> = Vec::new();
    let mut i: usize = 0;
    while i < scene.tracks.len()
        invariant
            i <= scene.tracks@.len(),
            sizes@.len() == i,
            forall|k: int|
                0 <= k < i ==> list_shape(#[trigger] scene.tracks@[k].elements@, sizes@[k]@),
            forall|k: int|
                0 <= k < i ==> list_measured_by::<M>(
                    #[trigger] scene.tracks@[k].elements@,
                    sizes@[k]@,
                    frame,
                    scene.frame_rate,
                    scene.tracks@[k].kind == TrackKind::Visual,
                    false,
                ),
        decreases scene.tracks@.len() - i,
    {
        let shows = match scene.tracks[i].kind {
            TrackKind::Audio => false,
            TrackKind::Visual => true,
        };
        let m = measure_list(
            &scene.tracks[i].elements,
            frame,
            scene.frame_rate,
            measure,
            shows,
            false,
        );
        sizes.push(m);
        i = i + 1;
    }
    assert(sizes_shape(scene.tracks@, sizes@));
    proof {
        if crate::layout_laws::tracks_tally(scene.tracks@, scene.tracks@.len() as int)
            <= 0x100_0000_0000_0000 {
            crate::layout_laws::draw_lists_are_held(*scene, sizes@, frame);
        }
    }
    place_frame(scene, frame, &sizes)
}

} // verus!
