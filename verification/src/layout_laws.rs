//! What holds of every draw list: it is in document order, shows only what is
//! live and all footage that is, numbers what it holds from zero on, and can be
//! held; and stacks fill their boards.

use vstd::prelude::*;

use crate::anim::{Ratio, Transform};
use crate::layout::{Extent, Fit, Measured, PlacedView, RectView, Size, BOARD_GAP, BOARD_PAD};
use crate::resolved::{ResolvedElement, ResolvedScene, ResolvedTrack, Spot};
use crate::scene::{NamedPlacement, TrackKind};

verus! {

/// The order values of a list lie in `lo..hi` and rise.
pub open spec fn rising(list: Seq<PlacedView>, lo: int, hi: int) -> bool {
    &&& forall|i: int| 0 <= i < list.len() ==> lo <= (#[trigger] list[i]).z < hi
    &&& forall|i: int, j: int|
        0 <= i < j < list.len() ==> (#[trigger] list[i]).z < (#[trigger] list[j]).z
}

/// The children of a placed element, at every depth, come before it and rise.
pub open spec fn ordered(p: PlacedView, lo: int) -> bool
    decreases p,
{
    &&& rising(p.children, lo, p.z)
    &&& forall|i: int| 0 <= i < p.children.len() ==> ordered(#[trigger] p.children[i], lo)
}

/// An element that shows at a frame.
pub open spec fn shows(p: PlacedView, frame: u32) -> bool
    decreases p,
{
    &&& p.element.timing.frames.holds(frame)
    &&& p.local_frame == frame - p.element.timing.frames.start
    &&& forall|i: int| 0 <= i < p.children.len() ==> shows(#[trigger] p.children[i], frame)
}

pub open spec fn all_ordered(list: Seq<PlacedView>, lo: int) -> bool {
    forall|i: int| 0 <= i < list.len() ==> ordered(#[trigger] list[i], lo)
}

pub open spec fn all_show(list: Seq<PlacedView>, frame: u32) -> bool {
    forall|i: int| 0 <= i < list.len() ==> shows(#[trigger] list[i], frame)
}

proof fn lemma_push(
    list: Seq<PlacedView>,
    p: PlacedView,
    lo: int,
    mid: int,
    hi: int,
    frame: u32,
)
    requires
        lo <= mid,
        rising(list, lo, mid),
        all_ordered(list, lo),
        all_show(list, frame),
        mid <= p.z < hi,
        ordered(p, lo),
        shows(p, frame),
    ensures
        rising(list.push(p), lo, hi),
        all_ordered(list.push(p), lo),
        all_show(list.push(p), frame),
{
    let all = list.push(p);
    assert forall|i: int| 0 <= i < all.len() implies ordered(#[trigger] all[i], lo) && shows(
        all[i],
        frame,
    ) && lo <= all[i].z < hi by {
        if i < list.len() {
            assert(all[i] == list[i]);
        }
    }
    assert forall|i: int, j: int| 0 <= i < j < all.len() implies (#[trigger] all[i]).z < (
    #[trigger] all[j]).z by {
        assert(all[i] == list[i]);
        if j < list.len() {
            assert(all[j] == list[j]);
        }
    }
}

proof fn lemma_ordered_lower(p: PlacedView, lo: int, lower: int)
    requires
        ordered(p, lo),
        lower <= lo,
    ensures
        ordered(p, lower),
    decreases p,
{
    assert forall|i: int| 0 <= i < p.children.len() implies ordered(
        #[trigger] p.children[i],
        lower,
    ) by {
        lemma_ordered_lower(p.children[i], lo, lower);
    }
}

proof fn lemma_stack_child_order(
    e: ResolvedElement,
    m: Measured,
    frame: u32,
    board_w: int,
    cursor: int,
    size: Extent,
    z: int,
)
    requires
        e.timing.frames.holds(frame),
    ensures
        ({
            let (p, next) = crate::layout::stack_child(e, m, frame, board_w, cursor, size, z);
            &&& z <= p.z < next
            &&& ordered(p, z)
            &&& shows(p, frame)
        }),
    decreases e, 0int,
{
    if e.kind is Board {
        lemma_column_order(
            e.children@,
            m.children@,
            frame,
            2 * size.w,
            e.children@.len() as int,
            z,
        );
    }
}

proof fn lemma_column_order(
    es: Seq<ResolvedElement>,
    ms: Seq<Measured>,
    frame: u32,
    board_w: int,
    n: int,
    z: int,
)
    ensures
        ({
            let c = crate::layout::column(es, ms, frame, board_w, n, z);
            &&& z <= c.z
            &&& rising(c.placed, z, c.z)
            &&& all_ordered(c.placed, z)
            &&& all_show(c.placed, frame)
        }),
    decreases es, n,
{
    if 0 < n <= es.len() {
        lemma_column_order(es, ms, frame, board_w, n - 1, z);
        let before = crate::layout::column(es, ms, frame, board_w, n - 1, z);
        let e = es[n - 1];
        if e.timing.frames.holds(frame) {
            match crate::layout::stack_size(e, ms[n - 1], frame) {
                Some(s) => {
                    if !s.vacant() {
                        lemma_stack_child_order(
                            e,
                            ms[n - 1],
                            frame,
                            board_w,
                            before.cursor,
                            s,
                            before.z,
                        );
                        let (p, next) = crate::layout::stack_child(
                            e,
                            ms[n - 1],
                            frame,
                            board_w,
                            before.cursor,
                            s,
                            before.z,
                        );
                        lemma_ordered_lower(p, before.z, z);
                        lemma_push(before.placed, p, z, before.z, next, frame);
                    }
                },
                None => {},
            }
        }
    }
}

proof fn lemma_list_order(
    es: Seq<ResolvedElement>,
    ms: Seq<Measured>,
    frame: u32,
    canvas: Extent,
    n: int,
    start: (Seq<PlacedView>, int),
)
    requires
        0 <= start.1,
        rising(start.0, 0, start.1),
        all_ordered(start.0, 0),
        all_show(start.0, frame),
    ensures
        ({
            let (list, z) = crate::layout::placed_list(es, ms, frame, canvas, n, start);
            &&& 0 <= z
            &&& rising(list, 0, z)
            &&& all_ordered(list, 0)
            &&& all_show(list, frame)
        }),
    decreases n,
{
    if 0 < n <= es.len() {
        lemma_list_order(es, ms, frame, canvas, n - 1, start);
        let (list, z) = crate::layout::placed_list(es, ms, frame, canvas, n - 1, start);
        let e = es[n - 1];
        let m = ms[n - 1];
        if e.timing.frames.holds(frame) {
            match crate::layout::canvas_box(e, m, frame, canvas) {
                Some((rect, fit)) => {
                    if e.kind is Board {
                        lemma_column_order(
                            e.children@,
                            m.children@,
                            frame,
                            rect.w,
                            e.children@.len() as int,
                            z,
                        );
                    }
                    let (p, next) = crate::layout::placed_one(e, m, frame, canvas, z);
                    assert(ordered(p->0, z));
                    lemma_ordered_lower(p->0, z, 0);
                    lemma_push(list, p->0, 0, z, next, frame);
                },
                None => {},
            }
        }
    }
}

proof fn lemma_tracks_order(
    tracks: Seq<ResolvedTrack>,
    sizes: Seq<Vec<Measured>>,
    frame: u32,
    canvas: Extent,
    n: int,
)
    ensures
        ({
            let (list, z) = crate::layout::placed_tracks(tracks, sizes, frame, canvas, n);
            &&& 0 <= z
            &&& rising(list, 0, z)
            &&& all_ordered(list, 0)
            &&& all_show(list, frame)
        }),
    decreases n,
{
    if 0 < n <= tracks.len() {
        lemma_tracks_order(tracks, sizes, frame, canvas, n - 1);
        let before = crate::layout::placed_tracks(tracks, sizes, frame, canvas, n - 1);
        let t = tracks[n - 1];
        if t.kind != TrackKind::Audio {
            lemma_list_order(
                t.elements@,
                sizes[n - 1]@,
                frame,
                canvas,
                t.elements@.len() as int,
                before,
            );
        }
    }
}

/// A draw list is in document order with rising order values, children come
/// before their board, and everything in it is live at the frame.
pub proof fn draw_list_is_ordered(scene: ResolvedScene, sizes: Seq<Vec<Measured>>, frame: u32)
    ensures
        ({
            let list = crate::layout::draw_list(scene, sizes, frame);
            &&& forall|i: int, j: int|
                0 <= i < j < list.len() ==> (#[trigger] list[i]).z < (#[trigger] list[j]).z
            &&& all_ordered(list, 0)
            &&& all_show(list, frame)
        }),
{
    lemma_tracks_order(
        scene.tracks@,
        sizes,
        frame,
        crate::layout::canvas_extent(scene.canvas.width, scene.canvas.height),
        scene.tracks@.len() as int,
    );
}

// Emission order.

/// The order values of a placed element and of everything below it, in the
/// order of emission: children first.
pub open spec fn orders(p: PlacedView) -> Seq<int>
    decreases p, 0int,
{
    list_orders(p.children, p.children.len() as int).push(p.z)
}

/// The order values of the first `n` placed elements of a list.
pub open spec fn list_orders(list: Seq<PlacedView>, n: int) -> Seq<int>
    decreases list, n,
{
    if n <= 0 || n > list.len() {
        Seq::empty()
    } else {
        list_orders(list, n - 1) + orders(list[n - 1])
    }
}

/// The numbers from `lo` up to `hi`.
pub open spec fn count_up(lo: int, hi: int) -> Seq<int> {
    Seq::new((hi - lo) as nat, |i: int| lo + i)
}

proof fn lemma_orders_prefix(list: Seq<PlacedView>, p: PlacedView, n: int)
    requires
        n <= list.len(),
    ensures
        list_orders(list.push(p), n) == list_orders(list, n),
    decreases n,
{
    if 0 < n {
        lemma_orders_prefix(list, p, n - 1);
        assert(list.push(p)[n - 1] == list[n - 1]);
    }
}

proof fn lemma_orders_push(list: Seq<PlacedView>, p: PlacedView, lo: int, mid: int, hi: int)
    requires
        lo <= mid <= hi,
        list_orders(list, list.len() as int) == count_up(lo, mid),
        orders(p) == count_up(mid, hi),
    ensures
        list_orders(list.push(p), list.push(p).len() as int) == count_up(lo, hi),
{
    lemma_orders_prefix(list, p, list.len() as int);
    assert(list.push(p)[list.len() as int] == p);
    assert(count_up(lo, mid) + count_up(mid, hi) =~= count_up(lo, hi));
}

proof fn lemma_stack_child_orders(
    e: ResolvedElement,
    m: Measured,
    frame: u32,
    board_w: int,
    cursor: int,
    size: Extent,
    z: int,
)
    ensures
        ({
            let (p, next) = crate::layout::stack_child(e, m, frame, board_w, cursor, size, z);
            z < next && orders(p) == count_up(z, next)
        }),
    decreases e, 0int,
{
    let (p, next) = crate::layout::stack_child(e, m, frame, board_w, cursor, size, z);
    if e.kind is Board {
        lemma_column_orders(
            e.children@,
            m.children@,
            frame,
            2 * size.w,
            e.children@.len() as int,
            z,
        );
    }
    assert(list_orders(p.children, p.children.len() as int) =~= count_up(z, p.z));
    assert(count_up(z, p.z).push(p.z) =~= count_up(z, next));
}

proof fn lemma_column_orders(
    es: Seq<ResolvedElement>,
    ms: Seq<Measured>,
    frame: u32,
    board_w: int,
    n: int,
    z: int,
)
    ensures
        ({
            let c = crate::layout::column(es, ms, frame, board_w, n, z);
            z <= c.z && list_orders(c.placed, c.placed.len() as int) == count_up(z, c.z)
        }),
    decreases es, n,
{
    if 0 < n <= es.len() {
        lemma_column_orders(es, ms, frame, board_w, n - 1, z);
        let before = crate::layout::column(es, ms, frame, board_w, n - 1, z);
        let e = es[n - 1];
        match crate::layout::stack_size(e, ms[n - 1], frame) {
            Some(s) => {
                if e.timing.frames.holds(frame) && !s.vacant() {
                    let (p, next) = crate::layout::stack_child(
                        e,
                        ms[n - 1],
                        frame,
                        board_w,
                        before.cursor,
                        s,
                        before.z,
                    );
                    lemma_stack_child_orders(
                        e,
                        ms[n - 1],
                        frame,
                        board_w,
                        before.cursor,
                        s,
                        before.z,
                    );
                    lemma_orders_push(before.placed, p, z, before.z, next);
                }
            },
            None => {},
        }
    } else {
        assert(count_up(z, z) =~= Seq::empty());
    }
}

proof fn lemma_one_orders(e: ResolvedElement, m: Measured, frame: u32, canvas: Extent, z: int)
    ensures
        ({
            let (p, next) = crate::layout::placed_one(e, m, frame, canvas, z);
            match p {
                Some(v) => z < next && orders(v) == count_up(z, next),
                None => next == z,
            }
        }),
{
    let (p, next) = crate::layout::placed_one(e, m, frame, canvas, z);
    match crate::layout::canvas_box(e, m, frame, canvas) {
        Some((rect, fit)) => {
            if e.kind is Board {
                lemma_column_orders(
                    e.children@,
                    m.children@,
                    frame,
                    rect.w,
                    e.children@.len() as int,
                    z,
                );
            }
            let v = p->0;
            assert(list_orders(v.children, v.children.len() as int) =~= count_up(z, v.z));
            assert(count_up(z, v.z).push(v.z) =~= count_up(z, next));
        },
        None => {},
    }
}

proof fn lemma_list_orders(
    es: Seq<ResolvedElement>,
    ms: Seq<Measured>,
    frame: u32,
    canvas: Extent,
    n: int,
    start: (Seq<PlacedView>, int),
)
    requires
        0 <= start.1,
        list_orders(start.0, start.0.len() as int) == count_up(0, start.1),
    ensures
        ({
            let (list, z) = crate::layout::placed_list(es, ms, frame, canvas, n, start);
            0 <= z && list_orders(list, list.len() as int) == count_up(0, z)
        }),
    decreases n,
{
    if 0 < n <= es.len() {
        lemma_list_orders(es, ms, frame, canvas, n - 1, start);
        let (list, z) = crate::layout::placed_list(es, ms, frame, canvas, n - 1, start);
        if es[n - 1].timing.frames.holds(frame) {
            lemma_one_orders(es[n - 1], ms[n - 1], frame, canvas, z);
            let (p, next) = crate::layout::placed_one(es[n - 1], ms[n - 1], frame, canvas, z);
            match p {
                Some(v) => lemma_orders_push(list, v, 0, z, next),
                None => {},
            }
        }
    }
}

proof fn lemma_tracks_orders(
    tracks: Seq<ResolvedTrack>,
    sizes: Seq<Vec<Measured>>,
    frame: u32,
    canvas: Extent,
    n: int,
)
    ensures
        ({
            let (list, z) = crate::layout::placed_tracks(tracks, sizes, frame, canvas, n);
            0 <= z && list_orders(list, list.len() as int) == count_up(0, z)
        }),
    decreases n,
{
    if 0 < n <= tracks.len() {
        lemma_tracks_orders(tracks, sizes, frame, canvas, n - 1);
        let t = tracks[n - 1];
        if t.kind != TrackKind::Audio {
            lemma_list_orders(
                t.elements@,
                sizes[n - 1]@,
                frame,
                canvas,
                t.elements@.len() as int,
                crate::layout::placed_tracks(tracks, sizes, frame, canvas, n - 1),
            );
        }
    } else {
        assert(count_up(0, 0) =~= Seq::empty());
    }
}

/// The order values of a draw list, children included, are the numbers from
/// zero on, each once, in the order of emission.
pub proof fn draw_list_counts_up(scene: ResolvedScene, sizes: Seq<Vec<Measured>>, frame: u32)
    ensures
        ({
            let list = crate::layout::draw_list(scene, sizes, frame);
            let all = list_orders(list, list.len() as int);
            all == count_up(0, all.len() as int)
        }),
{
    let canvas = crate::layout::canvas_extent(scene.canvas.width, scene.canvas.height);
    let n = scene.tracks@.len() as int;
    lemma_tracks_orders(scene.tracks@, sizes, frame, canvas, n);
    let (list, z) = crate::layout::placed_tracks(scene.tracks@, sizes, frame, canvas, n);
    assert(count_up(0, z).len() == z);
}

// What is in a draw list.

/// An element draws whatever is measured: footage and programs.
pub open spec fn always_draws(e: ResolvedElement) -> bool {
    e.kind is Clip || e.kind is Image || e.kind is Program
}

proof fn lemma_list_keeps(
    es: Seq<ResolvedElement>,
    ms: Seq<Measured>,
    frame: u32,
    canvas: Extent,
    k: int,
    n: int,
    start: (Seq<PlacedView>, int),
)
    requires
        0 <= k <= n <= es.len(),
    ensures
        crate::layout::placed_list(es, ms, frame, canvas, k, start).0.is_prefix_of(
            crate::layout::placed_list(es, ms, frame, canvas, n, start).0,
        ),
    decreases n,
{
    if k < n {
        lemma_list_keeps(es, ms, frame, canvas, k, n - 1, start);
    }
}

proof fn lemma_tracks_keep(
    tracks: Seq<ResolvedTrack>,
    sizes: Seq<Vec<Measured>>,
    frame: u32,
    canvas: Extent,
    k: int,
    n: int,
)
    requires
        0 <= k <= n <= tracks.len(),
    ensures
        crate::layout::placed_tracks(tracks, sizes, frame, canvas, k).0.is_prefix_of(
            crate::layout::placed_tracks(tracks, sizes, frame, canvas, n).0,
        ),
    decreases n,
{
    if k < n {
        lemma_tracks_keep(tracks, sizes, frame, canvas, k, n - 1);
        let t = tracks[n - 1];
        if t.kind != TrackKind::Audio {
            lemma_list_keeps(
                t.elements@,
                sizes[n - 1]@,
                frame,
                canvas,
                0,
                t.elements@.len() as int,
                crate::layout::placed_tracks(tracks, sizes, frame, canvas, n - 1),
            );
        }
    }
}

/// Every clip, image and program of a visual track that is live is in the draw
/// list of its frame, whatever is measured.
pub proof fn live_footage_is_drawn(
    scene: ResolvedScene,
    sizes: Seq<Vec<Measured>>,
    frame: u32,
    track: int,
    index: int,
)
    requires
        0 <= track < scene.tracks@.len(),
        scene.tracks@[track].kind == TrackKind::Visual,
        0 <= index < scene.tracks@[track].elements@.len(),
        always_draws(scene.tracks@[track].elements@[index]),
        scene.tracks@[track].elements@[index].timing.frames.holds(frame),
    ensures
        exists|i: int|
            0 <= i < crate::layout::draw_list(scene, sizes, frame).len() && (
            #[trigger] crate::layout::draw_list(scene, sizes, frame)[i]).element
                == scene.tracks@[track].elements@[index],
{
    let canvas = crate::layout::canvas_extent(scene.canvas.width, scene.canvas.height);
    let total = scene.tracks@.len() as int;
    let t = scene.tracks@[track];
    let es = t.elements@;
    let ms = sizes[track]@;
    let start = crate::layout::placed_tracks(scene.tracks@, sizes, frame, canvas, track);
    let before = crate::layout::placed_list(es, ms, frame, canvas, index, start).0;
    let after = crate::layout::placed_list(es, ms, frame, canvas, index + 1, start).0;
    let i = before.len() as int;
    assert(after.len() == i + 1 && after[i].element == es[index]);
    lemma_list_keeps(es, ms, frame, canvas, index + 1, es.len() as int, start);
    lemma_tracks_keep(scene.tracks@, sizes, frame, canvas, track + 1, total);
    assert(crate::layout::draw_list(scene, sizes, frame)[i] == after[i]);
}

/// A placed element stands for an element of a visual track that is live and
/// no audio.
pub open spec fn comes_from(p: PlacedView, scene: ResolvedScene, frame: u32) -> bool {
    exists|t: int, k: int|
        {
            &&& 0 <= t < scene.tracks@.len()
            &&& scene.tracks@[t].kind == TrackKind::Visual
            &&& 0 <= k < scene.tracks@[t].elements@.len()
            &&& p.element == #[trigger] scene.tracks@[t].elements@[k]
            &&& p.element.timing.frames.holds(frame)
            &&& !(p.element.kind is Music || p.element.kind is Sound)
        }
}

proof fn lemma_list_comes(
    scene: ResolvedScene,
    ms: Seq<Measured>,
    frame: u32,
    canvas: Extent,
    t: int,
    n: int,
    start: (Seq<PlacedView>, int),
)
    requires
        0 <= t < scene.tracks@.len(),
        scene.tracks@[t].kind == TrackKind::Visual,
        forall|i: int| 0 <= i < start.0.len() ==> comes_from(#[trigger] start.0[i], scene, frame),
    ensures
        ({
            let list = crate::layout::placed_list(
                scene.tracks@[t].elements@,
                ms,
                frame,
                canvas,
                n,
                start,
            ).0;
            forall|i: int| 0 <= i < list.len() ==> comes_from(#[trigger] list[i], scene, frame)
        }),
    decreases n,
{
    let es = scene.tracks@[t].elements@;
    if 0 < n <= es.len() {
        lemma_list_comes(scene, ms, frame, canvas, t, n - 1, start);
        let before = crate::layout::placed_list(es, ms, frame, canvas, n - 1, start).0;
        let list = crate::layout::placed_list(es, ms, frame, canvas, n, start).0;
        assert forall|i: int| 0 <= i < list.len() implies comes_from(
            #[trigger] list[i],
            scene,
            frame,
        ) by {
            if i < before.len() {
                assert(list[i] == before[i]);
            } else {
                assert(list[i].element == scene.tracks@[t].elements@[n - 1]);
            }
        }
    }
}

proof fn lemma_tracks_come(
    scene: ResolvedScene,
    sizes: Seq<Vec<Measured>>,
    frame: u32,
    canvas: Extent,
    n: int,
)
    ensures
        ({
            let list = crate::layout::placed_tracks(scene.tracks@, sizes, frame, canvas, n).0;
            forall|i: int| 0 <= i < list.len() ==> comes_from(#[trigger] list[i], scene, frame)
        }),
    decreases n,
{
    if 0 < n <= scene.tracks@.len() {
        lemma_tracks_come(scene, sizes, frame, canvas, n - 1);
        let t = scene.tracks@[n - 1];
        if t.kind != TrackKind::Audio {
            lemma_list_comes(
                scene,
                sizes[n - 1]@,
                frame,
                canvas,
                n - 1,
                t.elements@.len() as int,
                crate::layout::placed_tracks(scene.tracks@, sizes, frame, canvas, n - 1),
            );
        }
    }
}

/// A draw list holds only live elements of visual tracks, and no audio.
pub proof fn draw_list_is_of_the_scene(scene: ResolvedScene, sizes: Seq<Vec<Measured>>, frame: u32)
    ensures
        forall|i: int|
            0 <= i < crate::layout::draw_list(scene, sizes, frame).len() ==> comes_from(
                #[trigger] crate::layout::draw_list(scene, sizes, frame)[i],
                scene,
                frame,
            ),
{
    lemma_tracks_come(
        scene,
        sizes,
        frame,
        crate::layout::canvas_extent(scene.canvas.width, scene.canvas.height),
        scene.tracks@.len() as int,
    );
}

// Coordinates.

/// The number of elements in a tree.
pub open spec fn tally(e: ResolvedElement) -> nat
    decreases e, 0int,
{
    1 + list_tally(e.children@, e.children@.len() as int)
}

/// The number of elements in the first `n` trees of a list.
pub open spec fn list_tally(es: Seq<ResolvedElement>, n: int) -> nat
    decreases es, n,
{
    if n <= 0 || n > es.len() {
        0
    } else {
        list_tally(es, n - 1) + tally(es[n - 1])
    }
}

/// The number of elements in the first `n` tracks.
pub open spec fn tracks_tally(tracks: Seq<ResolvedTrack>, n: int) -> nat
    decreases n,
{
    if n <= 0 || n > tracks.len() {
        0
    } else {
        tracks_tally(tracks, n - 1) + list_tally(
            tracks[n - 1].elements@,
            tracks[n - 1].elements@.len() as int,
        )
    }
}

proof fn lemma_size_bound(e: ResolvedElement, m: Measured, frame: u32)
    ensures
        crate::layout::stack_size(e, m, frame) matches Some(s) ==> {
            &&& -0x2_0000_0000_0000_0000 * tally(e) <= s.w <= 0x2_0000_0000_0000_0000 * tally(e)
            &&& -0x2_0000_0000_0000_0000 * tally(e) <= s.h
            &&& s.h + BOARD_GAP <= 0x2_0000_0000_0000_0000 * tally(e)
        },
    decreases e, 0int,
{
    if e.kind is Board {
        lemma_stack_bound(e.children@, m.children@, frame, e.children@.len() as int, true);
        let k = crate::layout::stack_of(
            e.children@,
            m.children@,
            frame,
            e.children@.len() as int,
            true,
        ).count as int;
        assert(BOARD_GAP * k == BOARD_GAP * (k - 1) + BOARD_GAP) by (nonlinear_arith);
        assert(k > 0 ==> BOARD_GAP * (k - 1) >= 0) by (nonlinear_arith)
            requires
                BOARD_GAP > 0,
        ;
    }
}

proof fn lemma_stack_bound(
    es: Seq<ResolvedElement>,
    ms: Seq<Measured>,
    frame: u32,
    n: int,
    solid: bool,
)
    ensures
        ({
            let s = crate::layout::stack_of(es, ms, frame, n, solid);
            &&& 0 <= s.w <= 0x2_0000_0000_0000_0000 * list_tally(es, n)
            &&& -0x2_0000_0000_0000_0000 * list_tally(es, n) <= s.h
            &&& s.h + BOARD_GAP * s.count <= 0x2_0000_0000_0000_0000 * list_tally(es, n)
        }),
    decreases es, n,
{
    if 0 < n <= es.len() {
        lemma_stack_bound(es, ms, frame, n - 1, solid);
        lemma_size_bound(es[n - 1], ms[n - 1], frame);
        let k = crate::layout::stack_of(es, ms, frame, n - 1, solid).count as int;
        assert(BOARD_GAP * (k + 1) == BOARD_GAP * k + BOARD_GAP) by (nonlinear_arith);
    } else {
        assert(BOARD_GAP * 0 == 0);
    }
}

proof fn lemma_stack_child_held(
    e: ResolvedElement,
    m: Measured,
    frame: u32,
    board_w: int,
    cursor: int,
    size: Extent,
    z: int,
)
    requires
        crate::layout::stack_size(e, m, frame) == Some(size),
        !size.vacant(),
        tally(e) <= 0x100_0000_0000_0000,
        0 <= board_w <= 0x4000_0000_0000_0000_0000_0000_0000_0000,
        0 <= cursor <= 0x4000_0000_0000_0000_0000_0000_0000_0000,
        0 <= z,
        z + tally(e) <= 0x100_0000_0000_0000,
    ensures
        ({
            let (p, next) = crate::layout::stack_child(e, m, frame, board_w, cursor, size, z);
            crate::layout::held(p) && z <= next <= z + tally(e)
        }),
    decreases e, 0int,
{
    lemma_size_bound(e, m, frame);
    if e.kind is Board {
        lemma_column_held(
            e.children@,
            m.children@,
            frame,
            2 * size.w,
            e.children@.len() as int,
            z,
        );
    }
}

proof fn lemma_column_held(
    es: Seq<ResolvedElement>,
    ms: Seq<Measured>,
    frame: u32,
    board_w: int,
    n: int,
    z: int,
)
    requires
        list_tally(es, n) <= 0x100_0000_0000_0000,
        0 <= board_w <= 0x4000_0000_0000_0000_0000_0000_0000_0000,
        0 <= z,
        z + list_tally(es, n) <= 0x100_0000_0000_0000,
    ensures
        ({
            let c = crate::layout::column(es, ms, frame, board_w, n, z);
            &&& crate::layout::all_held(c.placed)
            &&& 0 <= c.cursor <= 2 * BOARD_PAD + 0x4_0000_0000_0000_0000 * list_tally(es, n)
            &&& z <= c.z <= z + list_tally(es, n)
        }),
    decreases es, n,
{
    if 0 < n <= es.len() {
        lemma_column_held(es, ms, frame, board_w, n - 1, z);
        let before = crate::layout::column(es, ms, frame, board_w, n - 1, z);
        let e = es[n - 1];
        lemma_size_bound(e, ms[n - 1], frame);
        match crate::layout::stack_size(e, ms[n - 1], frame) {
            Some(s) => {
                if !s.vacant() {
                    lemma_stack_child_held(
                        e,
                        ms[n - 1],
                        frame,
                        board_w,
                        before.cursor,
                        s,
                        before.z,
                    );
                }
            },
            None => {},
        }
    }
}

proof fn lemma_one_held(e: ResolvedElement, m: Measured, frame: u32, canvas: Extent, z: int)
    requires
        0 <= canvas.w <= 0x8000_0000_0000,
        0 <= canvas.h <= 0x8000_0000_0000,
        0 <= z,
        z + tally(e) <= 0x100_0000_0000_0000,
    ensures
        ({
            let (p, next) = crate::layout::placed_one(e, m, frame, canvas, z);
            &&& p matches Some(v) ==> crate::layout::held(v)
            &&& z <= next <= z + tally(e)
        }),
{
    let n = e.children@.len() as int;
    lemma_stack_bound(e.children@, m.children@, frame, n, false);
    let k = crate::layout::stack_of(e.children@, m.children@, frame, n, false).count as int;
    assert(BOARD_GAP * k == BOARD_GAP * (k - 1) + BOARD_GAP) by (nonlinear_arith);
    assert(k > 0 ==> BOARD_GAP * (k - 1) >= 0) by (nonlinear_arith)
        requires
            BOARD_GAP > 0,
    ;
    match crate::layout::canvas_box(e, m, frame, canvas) {
        Some((rect, fit)) => {
            assert(crate::layout::rect_held(rect));
            if e.kind is Board {
                lemma_column_held(e.children@, m.children@, frame, rect.w, n, z);
            }
        },
        None => {},
    }
}

proof fn lemma_list_held(
    es: Seq<ResolvedElement>,
    ms: Seq<Measured>,
    frame: u32,
    canvas: Extent,
    n: int,
    start: (Seq<PlacedView>, int),
)
    requires
        0 <= canvas.w <= 0x8000_0000_0000,
        0 <= canvas.h <= 0x8000_0000_0000,
        0 <= start.1,
        crate::layout::all_held(start.0),
        start.1 + list_tally(es, n) <= 0x100_0000_0000_0000,
    ensures
        ({
            let (list, z) = crate::layout::placed_list(es, ms, frame, canvas, n, start);
            crate::layout::all_held(list) && 0 <= z <= start.1 + list_tally(es, n)
        }),
    decreases n,
{
    if 0 < n <= es.len() {
        lemma_list_held(es, ms, frame, canvas, n - 1, start);
        let z = crate::layout::placed_list(es, ms, frame, canvas, n - 1, start).1;
        lemma_one_held(es[n - 1], ms[n - 1], frame, canvas, z);
    }
}

proof fn lemma_tracks_held(
    tracks: Seq<ResolvedTrack>,
    sizes: Seq<Vec<Measured>>,
    frame: u32,
    canvas: Extent,
    n: int,
)
    requires
        0 <= canvas.w <= 0x8000_0000_0000,
        0 <= canvas.h <= 0x8000_0000_0000,
        tracks_tally(tracks, n) <= 0x100_0000_0000_0000,
    ensures
        ({
            let (list, z) = crate::layout::placed_tracks(tracks, sizes, frame, canvas, n);
            crate::layout::all_held(list) && 0 <= z <= tracks_tally(tracks, n)
        }),
    decreases n,
{
    if 0 < n <= tracks.len() {
        lemma_tracks_held(tracks, sizes, frame, canvas, n - 1);
        let t = tracks[n - 1];
        if t.kind != TrackKind::Audio {
            lemma_list_held(
                t.elements@,
                sizes[n - 1]@,
                frame,
                canvas,
                t.elements@.len() as int,
                crate::layout::placed_tracks(tracks, sizes, frame, canvas, n - 1),
            );
        }
    }
}

/// A draw list can be held, whatever its elements measure and wherever they
/// are authored, up to 2^56 elements: more than an address space has room
/// for.
pub proof fn draw_lists_are_held(scene: ResolvedScene, sizes: Seq<Vec<Measured>>, frame: u32)
    requires
        tracks_tally(scene.tracks@, scene.tracks@.len() as int) <= 0x100_0000_0000_0000,
    ensures
        crate::layout::all_held(crate::layout::draw_list(scene, sizes, frame)),
{
    lemma_tracks_held(
        scene.tracks@,
        sizes,
        frame,
        crate::layout::canvas_extent(scene.canvas.width, scene.canvas.height),
        scene.tracks@.len() as int,
    );
}

/// Audio elements draw nothing, whatever is measured.
pub proof fn audio_is_never_placed(
    e: ResolvedElement,
    m: Measured,
    frame: u32,
    canvas: Extent,
    z: int,
)
    requires
        e.kind is Music || e.kind is Sound,
    ensures
        crate::layout::placed_one(e, m, frame, canvas, z).0 is None,
{
}

/// Members of a column of a given width and height: centred inside the
/// padding, one below the other with a gap between them, the last one ending
/// at the lower padding.
pub open spec fn fills(placed: Seq<PlacedView>, size: Extent) -> bool {
    &&& forall|i: int|
        0 <= i < placed.len() ==> {
            let r = (#[trigger] placed[i]).rect;
            &&& 2 * BOARD_PAD <= r.x
            &&& r.x + r.w <= 2 * size.w - 2 * BOARD_PAD
            &&& 2 * r.x + r.w == 2 * size.w
            &&& 2 * BOARD_PAD <= r.y
            &&& r.y + r.h <= 2 * size.h - 2 * BOARD_PAD
        }
    &&& forall|i: int, j: int|
        0 <= i < j < placed.len() ==> (#[trigger] placed[i]).rect.y + placed[i].rect.h + 2
            * BOARD_GAP <= (#[trigger] placed[j]).rect.y
}

/// The column of the first `n` children follows their stack.
proof fn lemma_column_fills(
    es: Seq<ResolvedElement>,
    ms: Seq<Measured>,
    frame: u32,
    board_w: int,
    n: int,
    z: int,
)
    requires
        board_w % 2 == 0,
        n <= es.len(),
        board_w >= 2 * crate::layout::stack_of(es, ms, frame, n, true).w + 4 * BOARD_PAD,
    ensures
        ({
            let c = crate::layout::column(es, ms, frame, board_w, n, z);
            let s = crate::layout::stack_of(es, ms, frame, n, true);
            &&& c.placed.len() == s.count
            &&& c.cursor == 2 * BOARD_PAD + 2 * s.h + 2 * (BOARD_GAP * s.count)
            &&& forall|i: int|
                0 <= i < c.placed.len() ==> {
                    let r = (#[trigger] c.placed[i]).rect;
                    &&& 2 * BOARD_PAD <= r.x
                    &&& 2 * r.x + r.w == board_w
                    &&& 2 * BOARD_PAD <= r.y
                    &&& r.y + r.h + 2 * BOARD_GAP <= c.cursor
                }
            &&& forall|i: int, j: int|
                0 <= i < j < c.placed.len() ==> (#[trigger] c.placed[i]).rect.y
                    + c.placed[i].rect.h + 2 * BOARD_GAP <= (#[trigger] c.placed[j]).rect.y
            &&& 2 * BOARD_PAD <= c.cursor
        }),
    decreases n,
{
    if 0 < n {
        let e = es[n - 1];
        let before_stack = crate::layout::stack_of(es, ms, frame, n - 1, true);
        lemma_column_fills(es, ms, frame, board_w, n - 1, z);
        let before = crate::layout::column(es, ms, frame, board_w, n - 1, z);
        if e.timing.frames.holds(frame) {
            match crate::layout::stack_size(e, ms[n - 1], frame) {
                Some(s) => {
                    if !s.vacant() {
                        let after = crate::layout::column(es, ms, frame, board_w, n, z);
                        let (p, next) = crate::layout::stack_child(
                            e,
                            ms[n - 1],
                            frame,
                            board_w,
                            before.cursor,
                            s,
                            before.z,
                        );
                        let k = before_stack.count as int;
                        assert(BOARD_GAP * (k + 1) == BOARD_GAP * k + BOARD_GAP)
                            by (nonlinear_arith);
                        assert(after.placed == before.placed.push(p));
                        assert forall|i: int| 0 <= i < after.placed.len() implies {
                            let r = (#[trigger] after.placed[i]).rect;
                            &&& 2 * BOARD_PAD <= r.x
                            &&& 2 * r.x + r.w == board_w
                            &&& 2 * BOARD_PAD <= r.y
                            &&& r.y + r.h + 2 * BOARD_GAP <= after.cursor
                        } by {
                            if i < before.placed.len() {
                                assert(after.placed[i] == before.placed[i]);
                            }
                        }
                        assert forall|i: int, j: int|
                            0 <= i < j < after.placed.len() implies (
                        #[trigger] after.placed[i]).rect.y + after.placed[i].rect.h + 2 * BOARD_GAP
                            <= (#[trigger] after.placed[j]).rect.y by {
                            assert(after.placed[i] == before.placed[i]);
                            if j < before.placed.len() {
                                assert(after.placed[j] == before.placed[j]);
                            }
                        }
                    }
                },
                None => {},
            }
        }
    } else {
        assert(BOARD_GAP * 0 == 0);
    }
}

/// A board that is sized by its stack holds the stack: every member lies
/// inside the padding, centred, and members are a gap apart.
pub proof fn stack_fills_its_board(
    es: Seq<ResolvedElement>,
    ms: Seq<Measured>,
    frame: u32,
    z: int,
)
    ensures
        match crate::layout::board_extent(
            crate::layout::stack_of(es, ms, frame, es.len() as int, true),
        ) {
            Some(size) => fills(
                crate::layout::column(es, ms, frame, 2 * size.w, es.len() as int, z).placed,
                size,
            ),
            None => crate::layout::column(es, ms, frame, 0, es.len() as int, z).placed.len() == 0,
        },
{
    let n = es.len() as int;
    let s = crate::layout::stack_of(es, ms, frame, n, true);
    match crate::layout::board_extent(s) {
        Some(size) => {
            lemma_column_fills(es, ms, frame, 2 * size.w, n, z);
            let k = s.count as int;
            assert(BOARD_GAP * k == BOARD_GAP * (k - 1) + BOARD_GAP) by (nonlinear_arith);
        },
        None => {
            lemma_empty_column(es, ms, frame, 0, n, z);
        },
    }
}

proof fn lemma_empty_column(
    es: Seq<ResolvedElement>,
    ms: Seq<Measured>,
    frame: u32,
    board_w: int,
    n: int,
    z: int,
)
    requires
        n <= es.len(),
        crate::layout::stack_of(es, ms, frame, n, true).count == 0,
    ensures
        crate::layout::column(es, ms, frame, board_w, n, z).placed.len() == 0,
    decreases n,
{
    if 0 < n {
        lemma_empty_column(es, ms, frame, board_w, n - 1, z);
    }
}

// Where elements stand.

/// Pixels in units of a rect.
pub open spec fn px(n: int) -> int {
    n * 65536
}

/// A box of a canvas stands at one of the named places: in the middle of the
/// axis that is not named, and 48 pixels off the edge that is.
pub open spec fn stands_at(r: RectView, place: NamedPlacement, width: int, height: int) -> bool {
    let in_row = 2 * r.x + r.w == width;
    let in_column = 2 * r.y + r.h == height;
    match place {
        NamedPlacement::Center => in_row && in_column,
        NamedPlacement::Top => in_row && r.y == px(48),
        NamedPlacement::Bottom => in_row && r.y + r.h + px(48) == height,
        NamedPlacement::Left => in_column && r.x == px(48),
        NamedPlacement::Right => in_column && r.x + r.w + px(48) == width,
    }
}

/// A box stands where `at` says: around a point, at a named place, or without
/// `at` at the bottom for captions and in the middle for all else.
pub open spec fn stands_as_asked(r: RectView, e: ResolvedElement, width: int, height: int) -> bool {
    match e.placement {
        Some(Spot::Point { x, y }) => 2 * r.x + r.w == 2 * x && 2 * r.y + r.h == 2 * y,
        Some(Spot::Named(place)) => stands_at(r, place, width, height),
        None => if e.kind is Captions {
            stands_at(r, NamedPlacement::Bottom, width, height)
        } else {
            stands_at(r, NamedPlacement::Center, width, height)
        },
    }
}

/// The place that an element names, or the one it has by default.
pub open spec fn asks_for(e: ResolvedElement, spot: Spot) -> bool {
    match e.placement {
        Some(s) => spot == s,
        None => spot == Spot::Named(
            if e.kind is Captions {
                NamedPlacement::Bottom
            } else {
                NamedPlacement::Center
            },
        ),
    }
}

/// A measured size that shows.
pub open spec fn is_solid(size: Option<Size>) -> bool {
    size matches Some(s) && s.w > 0 && s.h > 0
}

/// A box has the measured size.
pub open spec fn has_size(r: RectView, size: Option<Size>) -> bool {
    size matches Some(s) && r.w == 2 * s.w && r.h == 2 * s.h
}

/// An element shows as it is at rest where it has no entrance.
pub open spec fn appears(p: PlacedView, e: ResolvedElement, frame: u32) -> bool {
    &&& p.element == e
    &&& p.local_frame == frame - e.timing.frames.start
    &&& match e.anim {
        Some(kind) => (p.opacity, p.transform) == crate::anim::animated(
            kind,
            p.local_frame,
            e.timing.frames.length(),
        ),
        None => {
            let zero = Ratio { num: 0, den: 1 };
            let one = Ratio { num: 1, den: 1 };
            p.opacity == one && p.transform == (Transform { dx: zero, dy: zero, scale: one })
        },
    }
}

// Stacks.

/// An element takes part in a stack: it is live, and measured with an extent
/// or a board with such a part.
pub open spec fn takes_part(e: ResolvedElement, m: Measured, frame: u32) -> bool
    decreases e,
{
    &&& e.timing.frames.holds(frame)
    &&& is_solid(m.size) || e.kind is Board && exists|i: int|
        0 <= i < e.children@.len() && takes_part(#[trigger] e.children@[i], m.children@[i], frame)
}

/// The children that take part.
pub open spec fn parts_at(es: Seq<ResolvedElement>, ms: Seq<Measured>, frame: u32) -> spec_fn(
    int,
) -> bool {
    |i: int| takes_part(es[i], ms[i], frame)
}

/// A board that its stack sizes.
pub open spec fn is_stack(e: ResolvedElement, m: Measured, frame: u32) -> bool {
    e.kind is Board && exists|i: int|
        0 <= i < e.children@.len() && takes_part(#[trigger] e.children@[i], m.children@[i], frame)
}

/// Boxes in a column: centred in `width`, the first 24 pixels below the top,
/// each next one 16 pixels below the one before it.
pub open spec fn in_column(list: Seq<PlacedView>, width: int) -> bool {
    &&& forall|i: int|
        0 <= i < list.len() ==> 2 * (#[trigger] list[i]).rect.x + list[i].rect.w == width
    &&& list.len() > 0 ==> list[0].rect.y == px(24)
    &&& forall|i: int, j: int|
        0 <= i && j == i + 1 && j < list.len() ==> (#[trigger] list[j]).rect.y == (
        #[trigger] list[i]).rect.y + list[i].rect.h + px(16)
}

/// A board as wide as the widest of its column and 24 pixels on either side,
/// and as high as the column and 24 pixels below it.
pub open spec fn wraps(r: RectView, list: Seq<PlacedView>) -> bool {
    &&& list.len() > 0
    &&& forall|i: int| 0 <= i < list.len() ==> (#[trigger] list[i]).rect.w + px(48) <= r.w
    &&& exists|i: int| 0 <= i < list.len() && (#[trigger] list[i]).rect.w + px(48) == r.w
    &&& r.h == list.last().rect.y + list.last().rect.h + px(24)
}

/// `list` shows the children that take part, in order, each as it should be.
pub open spec fn shows_parts(
    list: Seq<PlacedView>,
    es: Seq<ResolvedElement>,
    ms: Seq<Measured>,
    frame: u32,
) -> bool
    decreases es, 0int,
{
    exists|at: Seq<int>|
        {
            &&& #[trigger] crate::select::selects(at, es.len() as int, parts_at(es, ms, frame))
            &&& list.len() == at.len()
            &&& forall|k: int|
                0 <= k < at.len() ==> 0 <= at[k] < es.len() && shows_part(
                    #[trigger] list[k],
                    es[at[k]],
                    ms[at[k]],
                    frame,
                )
        }
}

/// A part of a stack: of its measured size, or a board around its own stack.
pub open spec fn shows_part(p: PlacedView, e: ResolvedElement, m: Measured, frame: u32) -> bool
    decreases e, 1int,
{
    &&& appears(p, e, frame)
    &&& p.fit == Fit::Content
    &&& match e.placement {
        Some(s) => p.focal == s,
        None => p.focal == Spot::Named(NamedPlacement::Center),
    }
    &&& if e.kind is Board {
        &&& shows_parts(p.children, e.children@, m.children@, frame)
        &&& in_column(p.children, p.rect.w)
        &&& if is_stack(e, m, frame) {
            wraps(p.rect, p.children)
        } else {
            has_size(p.rect, m.size)
        }
    } else {
        has_size(p.rect, m.size) && p.children.len() == 0
    }
}

/// A stack has a member exactly where a child takes part.
proof fn lemma_takes_part(e: ResolvedElement, m: Measured, frame: u32)
    ensures
        takes_part(e, m, frame) == (e.timing.frames.holds(frame) && (crate::layout::stack_size(
            e,
            m,
            frame,
        ) matches Some(s) && !s.vacant())),
        is_stack(e, m, frame) ==> crate::layout::stack_size(e, m, frame)
            == crate::layout::board_extent(
            crate::layout::stack_of(
                e.children@,
                m.children@,
                frame,
                e.children@.len() as int,
                true,
            ),
        ),
        !is_stack(e, m, frame) ==> crate::layout::stack_size(e, m, frame)
            == crate::layout::content_size(m),
    decreases e, 0int,
{
    if e.kind is Board {
        let n = e.children@.len() as int;
        lemma_has_part(e.children@, m.children@, frame, n);
        let s = crate::layout::stack_of(e.children@, m.children@, frame, n, true);
        let k = s.count as int;
        assert(k > 0 ==> BOARD_GAP * (k - 1) >= 0) by (nonlinear_arith)
            requires
                BOARD_GAP > 0,
        ;
    }
}

proof fn lemma_has_part(es: Seq<ResolvedElement>, ms: Seq<Measured>, frame: u32, n: int)
    requires
        0 <= n <= es.len(),
    ensures
        crate::layout::stack_of(es, ms, frame, n, true).count > 0 <==> exists|i: int|
            0 <= i < n && takes_part(#[trigger] es[i], ms[i], frame),
        crate::layout::stack_of(es, ms, frame, n, true).w >= 0,
        crate::layout::stack_of(es, ms, frame, n, true).h >= 0,
    decreases es, n,
{
    if n > 0 {
        lemma_has_part(es, ms, frame, n - 1);
        lemma_takes_part(es[n - 1], ms[n - 1], frame);
        if takes_part(es[n - 1], ms[n - 1], frame) {
            assert(takes_part(es[n - 1], ms[n - 1], frame));
        }
        if exists|i: int| 0 <= i < n - 1 && takes_part(#[trigger] es[i], ms[i], frame) {
            let i = choose|i: int| 0 <= i < n - 1 && takes_part(#[trigger] es[i], ms[i], frame);
            assert(takes_part(es[i], ms[i], frame));
        }
    }
}

proof fn lemma_shows_part(
    e: ResolvedElement,
    m: Measured,
    frame: u32,
    board_w: int,
    cursor: int,
    size: Extent,
    z: int,
)
    requires
        takes_part(e, m, frame),
        crate::layout::stack_size(e, m, frame) == Some(size),
    ensures
        shows_part(
            crate::layout::stack_child(e, m, frame, board_w, cursor, size, z).0,
            e,
            m,
            frame,
        ),
    decreases e, 0int, 0int,
{
    let p = crate::layout::stack_child(e, m, frame, board_w, cursor, size, z).0;
    lemma_takes_part(e, m, frame);
    if e.kind is Board {
        let n = e.children@.len() as int;
        lemma_shows_parts(e.children@, m.children@, frame, 2 * size.w, z);
        let s = crate::layout::stack_of(e.children@, m.children@, frame, n, true);
        lemma_column_shape(e.children@, m.children@, frame, 2 * size.w, n, z);
        if is_stack(e, m, frame) {
            lemma_has_part(e.children@, m.children@, frame, n);
            lemma_wraps(e.children@, m.children@, frame, 2 * size.w, z, p.rect);
        }
    }
}

proof fn lemma_shows_parts(
    es: Seq<ResolvedElement>,
    ms: Seq<Measured>,
    frame: u32,
    board_w: int,
    z: int,
)
    ensures
        shows_parts(
            crate::layout::column(es, ms, frame, board_w, es.len() as int, z).placed,
            es,
            ms,
            frame,
        ),
    decreases es, 1int, 0int,
{
    let at = lemma_parts(es, ms, frame, board_w, es.len() as int, z);
    assert(crate::select::selects(at, es.len() as int, parts_at(es, ms, frame)));
}

proof fn lemma_parts(
    es: Seq<ResolvedElement>,
    ms: Seq<Measured>,
    frame: u32,
    board_w: int,
    n: int,
    z: int,
) -> (at: Seq<int>)
    requires
        0 <= n <= es.len(),
    ensures
        crate::select::selects(at, n, parts_at(es, ms, frame)),
        ({
            let list = crate::layout::column(es, ms, frame, board_w, n, z).placed;
            &&& list.len() == at.len()
            &&& forall|k: int|
                0 <= k < at.len() ==> 0 <= at[k] < es.len() && shows_part(
                    #[trigger] list[k],
                    es[at[k]],
                    ms[at[k]],
                    frame,
                )
        }),
    decreases es, 0int, n,
{
    let keep = parts_at(es, ms, frame);
    if n == 0 {
        crate::select::lemma_select_none(keep);
        Seq::empty()
    } else {
        let at = lemma_parts(es, ms, frame, board_w, n - 1, z);
        let before = crate::layout::column(es, ms, frame, board_w, n - 1, z);
        let e = es[n - 1];
        let m = ms[n - 1];
        lemma_takes_part(e, m, frame);
        if takes_part(e, m, frame) {
            let s = crate::layout::stack_size(e, m, frame)->0;
            lemma_shows_part(e, m, frame, board_w, before.cursor, s, before.z);
            crate::select::lemma_select_take(at, n, keep);
            let list = crate::layout::column(es, ms, frame, board_w, n, z).placed;
            let all = at.push(n - 1);
            assert forall|k: int| 0 <= k < all.len() implies 0 <= all[k] < es.len() && shows_part(
                #[trigger] list[k],
                es[all[k]],
                ms[all[k]],
                frame,
            ) by {
                if k < at.len() {
                    assert(list[k] == before.placed[k]);
                }
            }
            all
        } else {
            crate::select::lemma_select_skip(at, n, keep);
            at
        }
    }
}

/// A column is in order, and ends where its stack does.
proof fn lemma_column_shape(
    es: Seq<ResolvedElement>,
    ms: Seq<Measured>,
    frame: u32,
    board_w: int,
    n: int,
    z: int,
)
    requires
        board_w % 2 == 0,
        0 <= n <= es.len(),
    ensures
        ({
            let c = crate::layout::column(es, ms, frame, board_w, n, z);
            let s = crate::layout::stack_of(es, ms, frame, n, true);
            &&& in_column(c.placed, board_w)
            &&& c.placed.len() == s.count
            &&& s.count == 0 ==> s.w == 0 && s.h == 0
            &&& c.cursor == px(24) + 2 * s.h + px(16) * s.count
            &&& c.placed.len() > 0 ==> c.cursor == c.placed.last().rect.y + c.placed.last().rect.h
                + px(16)
            &&& forall|i: int|
                0 <= i < c.placed.len() ==> (#[trigger] c.placed[i]).rect.w <= 2 * s.w
            &&& c.placed.len() > 0 ==> exists|i: int|
                0 <= i < c.placed.len() && (#[trigger] c.placed[i]).rect.w == 2 * s.w
        }),
    decreases n,
{
    if n > 0 {
        lemma_column_shape(es, ms, frame, board_w, n - 1, z);
        lemma_has_part(es, ms, frame, n - 1);
        let e = es[n - 1];
        let before = crate::layout::column(es, ms, frame, board_w, n - 1, z);
        let after = crate::layout::column(es, ms, frame, board_w, n, z);
        let s0 = crate::layout::stack_of(es, ms, frame, n - 1, true);
        let k = s0.count as int;
        assert(px(16) * (k + 1) == px(16) * k + px(16)) by (nonlinear_arith);
        match crate::layout::stack_size(e, ms[n - 1], frame) {
            Some(s) => {
                if e.timing.frames.holds(frame) && !s.vacant() {
                    let (p, next) = crate::layout::stack_child(
                        e,
                        ms[n - 1],
                        frame,
                        board_w,
                        before.cursor,
                        s,
                        before.z,
                    );
                    assert(after.placed == before.placed.push(p));
                    assert forall|i: int| 0 <= i < after.placed.len() implies 2 * (
                    #[trigger] after.placed[i]).rect.x + after.placed[i].rect.w == board_w by {
                        if i < before.placed.len() {
                            assert(after.placed[i] == before.placed[i]);
                        }
                    }
                    assert forall|i: int, j: int|
                        0 <= i && j == i + 1 && j < after.placed.len() implies (
                    #[trigger] after.placed[j]).rect.y == (#[trigger] after.placed[i]).rect.y
                        + after.placed[i].rect.h + px(16) by {
                        assert(after.placed[i] == before.placed[i]);
                        if j < before.placed.len() {
                            assert(after.placed[j] == before.placed[j]);
                        } else {
                            assert(before.placed.last() == before.placed[i]);
                        }
                    }
                    let wide = crate::layout::stack_of(es, ms, frame, n, true).w;
                    if s.w >= s0.w {
                        assert(after.placed[before.placed.len() as int].rect.w == 2 * wide);
                    } else {
                        let i = choose|i: int|
                            0 <= i < before.placed.len() && (#[trigger] before.placed[i]).rect.w
                                == 2 * s0.w;
                        assert(after.placed[i].rect.w == 2 * wide);
                    }
                    assert forall|i: int| 0 <= i < after.placed.len() implies (
                    #[trigger] after.placed[i]).rect.w <= 2 * wide by {
                        if i < before.placed.len() {
                            assert(after.placed[i] == before.placed[i]);
                        }
                    }
                    if before.placed.len() > 0 {
                        assert(after.placed[0] == before.placed[0]);
                    }
                    assert(px(16) * 0 == 0);
                }
            },
            None => {},
        }
    } else {
        assert(px(16) * 0 == 0);
    }
}

proof fn lemma_wraps(
    es: Seq<ResolvedElement>,
    ms: Seq<Measured>,
    frame: u32,
    board_w: int,
    z: int,
    r: RectView,
)
    requires
        crate::layout::stack_of(es, ms, frame, es.len() as int, true).count > 0,
        ({
            let s = crate::layout::board_extent(
                crate::layout::stack_of(es, ms, frame, es.len() as int, true),
            )->0;
            r.w == 2 * s.w && r.h == 2 * s.h && board_w == r.w
        }),
    ensures
        wraps(r, crate::layout::column(es, ms, frame, board_w, es.len() as int, z).placed),
{
    let n = es.len() as int;
    lemma_column_shape(es, ms, frame, board_w, n, z);
    let c = crate::layout::column(es, ms, frame, board_w, n, z);
    let s = crate::layout::stack_of(es, ms, frame, n, true);
    let k = s.count as int;
    assert(BOARD_GAP * k == BOARD_GAP * (k - 1) + BOARD_GAP) by (nonlinear_arith);
    assert(px(16) * k == 2 * (BOARD_GAP * k)) by (nonlinear_arith)
        requires
            px(16) == 2 * BOARD_GAP,
    ;
    let i = choose|i: int| 0 <= i < c.placed.len() && (#[trigger] c.placed[i]).rect.w == 2 * s.w;
    assert(c.placed[i].rect.w + px(48) == r.w);
}

// Elements on the canvas.

/// Nothing that is live and measured in a list is without an extent.
pub open spec fn all_solid(es: Seq<ResolvedElement>, ms: Seq<Measured>, frame: u32) -> bool {
    forall|i: int|
        0 <= i < es.len() && (#[trigger] es[i]).timing.frames.holds(frame) && ms[i].size is Some
            ==> is_solid(ms[i].size)
}

/// An element of a track that shows: footage fills the canvas, programs have
/// its size, texts and captions have their measured size, and boards wrap
/// their stack or, without children, have their measured size. All but footage
/// stand where `at` says.
pub open spec fn shows_well(
    p: PlacedView,
    e: ResolvedElement,
    m: Measured,
    frame: u32,
    width: int,
    height: int,
) -> bool {
    &&& appears(p, e, frame)
    &&& asks_for(e, p.focal)
    &&& if e.kind is Clip || e.kind is Image {
        p.fit == Fit::Cover && p.rect == (RectView { x: 0, y: 0, w: width, h: height })
            && p.children.len() == 0
    } else {
        &&& p.fit == Fit::Content
        &&& stands_as_asked(p.rect, e, width, height)
        &&& if e.kind is Program {
            p.rect.w == width && p.rect.h == height && p.children.len() == 0
        } else if e.kind is Board {
            &&& shows_parts(p.children, e.children@, m.children@, frame)
            &&& in_column(p.children, p.rect.w)
            &&& if e.children@.len() == 0 {
                has_size(p.rect, m.size)
            } else {
                is_stack(e, m, frame) && all_solid(e.children@, m.children@, frame) ==> wraps(
                    p.rect,
                    p.children,
                )
            }
        } else {
            (e.kind is Text || e.kind is Captions) && has_size(p.rect, m.size)
                && p.children.len() == 0
        }
    }
}

/// An element of a track is there to be seen: it is footage or a program, its
/// content has an extent, or it is a board with a part to show.
pub open spec fn is_seen(e: ResolvedElement, m: Measured, frame: u32) -> bool {
    ||| always_draws(e)
    ||| (e.kind is Text || e.kind is Captions) && is_solid(m.size)
    ||| e.kind is Board && e.children@.len() == 0 && is_solid(m.size)
    ||| is_stack(e, m, frame)
}

proof fn lemma_solid_stack(es: Seq<ResolvedElement>, ms: Seq<Measured>, frame: u32, n: int)
    requires
        0 <= n <= es.len(),
        all_solid(es, ms, frame),
    ensures
        crate::layout::stack_of(es, ms, frame, n, false) == crate::layout::stack_of(
            es,
            ms,
            frame,
            n,
            true,
        ),
    decreases n,
{
    if n > 0 {
        lemma_solid_stack(es, ms, frame, n - 1);
        let e = es[n - 1];
        let m = ms[n - 1];
        lemma_takes_part(e, m, frame);
        if e.timing.frames.holds(frame) && crate::layout::stack_size(e, m, frame) is Some
            && !takes_part(e, m, frame) {
            assert(!is_stack(e, m, frame));
            assert(is_solid(m.size));
        }
    }
}

proof fn lemma_count_grows(es: Seq<ResolvedElement>, ms: Seq<Measured>, frame: u32, n: int)
    requires
        0 <= n <= es.len(),
    ensures
        crate::layout::stack_of(es, ms, frame, n, true).count <= crate::layout::stack_of(
            es,
            ms,
            frame,
            n,
            false,
        ).count,
    decreases n,
{
    if n > 0 {
        lemma_count_grows(es, ms, frame, n - 1);
    }
}

proof fn lemma_shows_well(
    e: ResolvedElement,
    m: Measured,
    frame: u32,
    canvas: Extent,
    z: int,
)
    requires
        e.timing.frames.holds(frame),
    ensures
        match crate::layout::placed_one(e, m, frame, canvas, z).0 {
            Some(p) => shows_well(p, e, m, frame, 2 * canvas.w, 2 * canvas.h),
            None => !is_seen(e, m, frame),
        },
{
    let n = e.children@.len() as int;
    match crate::layout::placed_one(e, m, frame, canvas, z).0 {
        Some(p) => {
            if e.kind is Board {
                lemma_shows_parts(e.children@, m.children@, frame, p.rect.w, z);
                lemma_column_shape(e.children@, m.children@, frame, p.rect.w, n, z);
                if n > 0 && is_stack(e, m, frame) && all_solid(e.children@, m.children@, frame) {
                    lemma_has_part(e.children@, m.children@, frame, n);
                    lemma_solid_stack(e.children@, m.children@, frame, n);
                    lemma_wraps(e.children@, m.children@, frame, p.rect.w, z, p.rect);
                }
            }
        },
        None => {
            if is_stack(e, m, frame) {
                lemma_has_part(e.children@, m.children@, frame, n);
                lemma_count_grows(e.children@, m.children@, frame, n);
            }
        },
    }
}

/// An entry of a draw list that comes from element `index` of track `track`.
pub open spec fn shows_element(
    p: PlacedView,
    scene: ResolvedScene,
    sizes: Seq<Vec<Measured>>,
    frame: u32,
    track: int,
    index: int,
) -> bool {
    &&& 0 <= track < scene.tracks@.len()
    &&& scene.tracks@[track].kind == TrackKind::Visual
    &&& 0 <= index < scene.tracks@[track].elements@.len()
    &&& scene.tracks@[track].elements@[index].timing.frames.holds(frame)
    &&& shows_well(
        p,
        scene.tracks@[track].elements@[index],
        sizes[track]@[index],
        frame,
        px(scene.canvas.width as int),
        px(scene.canvas.height as int),
    )
}

/// Document order: track order, then element order.
pub open spec fn comes_before(t: int, k: int, u: int, l: int) -> bool {
    t < u || t == u && k < l
}

/// `from` names the track and element of every entry of a list, in document
/// order.
pub open spec fn follows_document(
    list: Seq<PlacedView>,
    from: Seq<(int, int)>,
    scene: ResolvedScene,
    sizes: Seq<Vec<Measured>>,
    frame: u32,
) -> bool {
    &&& from.len() == list.len()
    &&& forall|i: int|
        0 <= i < list.len() ==> shows_element(
            #[trigger] list[i],
            scene,
            sizes,
            frame,
            from[i].0,
            from[i].1,
        )
    &&& forall|i: int, j: int|
        0 <= i < j < from.len() ==> comes_before(
            (#[trigger] from[i]).0,
            from[i].1,
            (#[trigger] from[j]).0,
            from[j].1,
        )
}

/// All of the first `n` elements of track `t` that are to be seen are named.
pub open spec fn names_seen(
    from: Seq<(int, int)>,
    scene: ResolvedScene,
    sizes: Seq<Vec<Measured>>,
    frame: u32,
    t: int,
    n: int,
) -> bool {
    forall|k: int|
        0 <= k < n && (#[trigger] scene.tracks@[t].elements@[k]).timing.frames.holds(frame)
            && is_seen(scene.tracks@[t].elements@[k], sizes[t]@[k], frame) ==> from.contains((t, k))
}

proof fn lemma_list_follows(
    scene: ResolvedScene,
    sizes: Seq<Vec<Measured>>,
    frame: u32,
    t: int,
    n: int,
    start: (Seq<PlacedView>, int),
    from: Seq<(int, int)>,
) -> (out: Seq<(int, int)>)
    requires
        0 <= t < scene.tracks@.len(),
        scene.tracks@[t].kind == TrackKind::Visual,
        0 <= n <= scene.tracks@[t].elements@.len(),
        follows_document(start.0, from, scene, sizes, frame),
        forall|i: int| 0 <= i < from.len() ==> (#[trigger] from[i]).0 < t,
    ensures
        ({
            let canvas = crate::layout::canvas_extent(scene.canvas.width, scene.canvas.height);
            let list = crate::layout::placed_list(
                scene.tracks@[t].elements@,
                sizes[t]@,
                frame,
                canvas,
                n,
                start,
            ).0;
            &&& follows_document(list, out, scene, sizes, frame)
            &&& names_seen(out, scene, sizes, frame, t, n)
            &&& forall|i: int|
                0 <= i < out.len() ==> (#[trigger] out[i]).0 < t || out[i].0 == t && out[i].1 < n
            &&& from.is_prefix_of(out)
        }),
    decreases n,
{
    if n == 0 {
        from
    } else {
        let es = scene.tracks@[t].elements@;
        let ms = sizes[t]@;
        let canvas = crate::layout::canvas_extent(scene.canvas.width, scene.canvas.height);
        let before = lemma_list_follows(scene, sizes, frame, t, n - 1, start, from);
        let (list, z) = crate::layout::placed_list(es, ms, frame, canvas, n - 1, start);
        let e = es[n - 1];
        if e.timing.frames.holds(frame) {
            lemma_shows_well(e, ms[n - 1], frame, canvas, z);
            match crate::layout::placed_one(e, ms[n - 1], frame, canvas, z).0 {
                Some(p) => {
                    let out = before.push((t, n - 1));
                    let all = list.push(p);
                    assert(shows_element(p, scene, sizes, frame, t, n - 1));
                    assert forall|i: int| 0 <= i < all.len() implies shows_element(
                        #[trigger] all[i],
                        scene,
                        sizes,
                        frame,
                        out[i].0,
                        out[i].1,
                    ) by {
                        if i < list.len() {
                            assert(all[i] == list[i]);
                            assert(out[i] == before[i]);
                        }
                    }
                    assert forall|i: int, j: int| 0 <= i < j < out.len() implies comes_before(
                        (#[trigger] out[i]).0,
                        out[i].1,
                        (#[trigger] out[j]).0,
                        out[j].1,
                    ) by {
                        assert(out[i] == before[i]);
                        if j < before.len() {
                            assert(out[j] == before[j]);
                        }
                    }
                    assert forall|i: int| 0 <= i < out.len() implies (#[trigger] out[i]).0 < t
                        || out[i].0 == t && out[i].1 < n by {
                        if i < before.len() {
                            assert(out[i] == before[i]);
                        }
                    }
                    assert forall|k: int|
                        0 <= k < n && (
                        #[trigger] scene.tracks@[t].elements@[k]).timing.frames.holds(frame)
                            && is_seen(scene.tracks@[t].elements@[k], sizes[t]@[k], frame) implies
                        out.contains((t, k)) by {
                        if k == n - 1 {
                            assert(out[before.len() as int] == (t, k));
                        } else {
                            let i = choose|i: int| 0 <= i < before.len() && before[i] == (t, k);
                            assert(out[i] == (t, k));
                        }
                    }
                    out
                },
                None => before,
            }
        } else {
            before
        }
    }
}

proof fn lemma_tracks_follow(
    scene: ResolvedScene,
    sizes: Seq<Vec<Measured>>,
    frame: u32,
    n: int,
) -> (out: Seq<(int, int)>)
    requires
        0 <= n <= scene.tracks@.len(),
    ensures
        ({
            let canvas = crate::layout::canvas_extent(scene.canvas.width, scene.canvas.height);
            let list = crate::layout::placed_tracks(scene.tracks@, sizes, frame, canvas, n).0;
            &&& follows_document(list, out, scene, sizes, frame)
            &&& forall|t: int|
                0 <= t < n && (#[trigger] scene.tracks@[t]).kind == TrackKind::Visual
                    ==> names_seen(
                    out,
                    scene,
                    sizes,
                    frame,
                    t,
                    scene.tracks@[t].elements@.len() as int,
                )
            &&& forall|i: int| 0 <= i < out.len() ==> (#[trigger] out[i]).0 < n
        }),
    decreases n,
{
    if n == 0 {
        Seq::empty()
    } else {
        let before = lemma_tracks_follow(scene, sizes, frame, n - 1);
        let canvas = crate::layout::canvas_extent(scene.canvas.width, scene.canvas.height);
        let start = crate::layout::placed_tracks(scene.tracks@, sizes, frame, canvas, n - 1);
        let t = scene.tracks@[n - 1];
        if t.kind == TrackKind::Visual {
            let out = lemma_list_follows(
                scene,
                sizes,
                frame,
                n - 1,
                t.elements@.len() as int,
                start,
                before,
            );
            assert forall|u: int|
                0 <= u < n && (#[trigger] scene.tracks@[u]).kind == TrackKind::Visual implies
                names_seen(
                out,
                scene,
                sizes,
                frame,
                u,
                scene.tracks@[u].elements@.len() as int,
            ) by {
                if u < n - 1 {
                    assert forall|k: int|
                        0 <= k < scene.tracks@[u].elements@.len() && (
                        #[trigger] scene.tracks@[u].elements@[k]).timing.frames.holds(frame)
                            && is_seen(scene.tracks@[u].elements@[k], sizes[u]@[k], frame) implies
                        out.contains((u, k)) by {
                        let i = choose|i: int| 0 <= i < before.len() && before[i] == (u, k);
                        assert(out[i] == (u, k));
                    }
                }
            }
            out
        } else {
            before
        }
    }
}

/// A draw list shows the live elements of the visual tracks in document order:
/// every one that is to be seen, each where its `at` says, of its own size,
/// boards around the column of what takes part in them.
pub proof fn elements_show_where_they_are_asked(
    scene: ResolvedScene,
    sizes: Seq<Vec<Measured>>,
    frame: u32,
)
    ensures
        exists|from: Seq<(int, int)>|
            {
                &&& #[trigger] follows_document(
                    crate::layout::draw_list(scene, sizes, frame),
                    from,
                    scene,
                    sizes,
                    frame,
                )
                &&& forall|t: int|
                    0 <= t < scene.tracks@.len() && (#[trigger] scene.tracks@[t]).kind
                        == TrackKind::Visual ==> names_seen(
                        from,
                        scene,
                        sizes,
                        frame,
                        t,
                        scene.tracks@[t].elements@.len() as int,
                    )
            },
{
    let from = lemma_tracks_follow(scene, sizes, frame, scene.tracks@.len() as int);
    assert(follows_document(
        crate::layout::draw_list(scene, sizes, frame),
        from,
        scene,
        sizes,
        frame,
    ));
}

} // verus!
