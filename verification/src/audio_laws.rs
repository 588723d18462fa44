//! What a mix is made of: every sound of a scene, where and as loud as it was
//! authored.

use vstd::prelude::*;

use crate::audio::{ClipText, ClipView, Collected, GraphView, LinkView};
use crate::diagnostic::{DiagnosticView, Severity};
use crate::number::NumberView;
use crate::resolved::{ResolvedElement, ResolvedScene, ResolvedTrack};
use crate::scene::ElementKindView;

verus! {

// Clips.

/// An element that sounds, and the track it is on.
pub struct Voice {
    pub element: ResolvedElement,
    pub track: Seq<char>,
}

pub open spec fn is_sound(e: ResolvedElement) -> bool {
    e.kind@ is Music || e.kind@ is Sound
}

/// The sounding elements of a tree, in document order.
pub open spec fn voices(e: ResolvedElement, track: Seq<char>) -> Seq<Voice>
    decreases e, 0int,
{
    if is_sound(e) {
        seq![Voice { element: e, track }]
    } else {
        list_voices(e.children@, e.children@.len() as int, track)
    }
}

/// The sounding elements of the first `n` trees of a list.
pub open spec fn list_voices(es: Seq<ResolvedElement>, n: int, track: Seq<char>) -> Seq<Voice>
    decreases es, n,
{
    if n <= 0 || n > es.len() {
        Seq::empty()
    } else {
        list_voices(es, n - 1, track) + voices(es[n - 1], track)
    }
}

/// The sounding elements of the first `n` tracks.
pub open spec fn track_voices(tracks: Seq<ResolvedTrack>, n: int) -> Seq<Voice>
    decreases n,
{
    if n <= 0 || n > tracks.len() {
        Seq::empty()
    } else {
        track_voices(tracks, n - 1) + list_voices(
            tracks[n - 1].elements@,
            tracks[n - 1].elements@.len() as int,
            tracks[n - 1].id@,
        )
    }
}

/// All sounding elements of a scene, in document order.
pub open spec fn scene_voices(scene: ResolvedScene) -> Seq<Voice> {
    track_voices(scene.tracks@, scene.tracks@.len() as int)
}

/// `path` is `src` below `root`; an absolute `src` is itself.
pub open spec fn is_below(path: Seq<char>, root: Seq<char>, src: Seq<char>) -> bool {
    if src.len() > 0 && src[0] == '/' || root.len() == 0 {
        path == src
    } else if root.last() == '/' {
        path == root + src
    } else {
        path == root + seq!['/'] + src
    }
}

pub open spec fn is_zero(n: NumberView) -> bool {
    n == (NumberView::Finite { negative: false, mantissa: 0, exponent: 0 })
}

/// The clip of a sounding element: its source, gain and offset, at its own
/// samples, whole and without fades.
pub open spec fn is_clip(c: ClipView, v: Voice, root: Seq<char>) -> bool {
    &&& match v.element.kind@ {
        ElementKindView::Music { src, gain_db, from_s, .. } => is_below(c.src, root, src)
            && c.gain_db == gain_db && c.from_s == from_s,
        ElementKindView::Sound { src, gain_db, from_s } => is_below(c.src, root, src) && c.gain_db
            == gain_db && c.from_s == from_s,
        _ => false,
    }
    &&& c.target == v.element.timing.samples
    &&& c.skipped == 0
    &&& is_zero(c.fade.in_s) && is_zero(c.fade.out_s)
    &&& c.track_id == v.track
    &&& c.span == v.element.span
}

/// The track that a voice asks to be ducked under.
pub open spec fn ducks_under(v: Voice) -> Option<Seq<char>> {
    match v.element.kind@ {
        ElementKindView::Music { duck, .. } => duck,
        _ => None,
    }
}

pub open spec fn asking_at(vs: Seq<Voice>) -> spec_fn(int) -> bool {
    |i: int| ducks_under(vs[i]) is Some
}

/// The clips and duck requests of a list of voices.
spec fn collects(c: Collected, vs: Seq<Voice>, root: Seq<char>, at: Seq<int>) -> bool {
    &&& c.clips.len() == vs.len()
    &&& forall|i: int| 0 <= i < vs.len() ==> is_clip(#[trigger] c.clips[i], vs[i], root)
    &&& crate::select::selects(at, vs.len() as int, asking_at(vs))
    &&& c.ducks.len() == at.len()
    &&& forall|k: int|
        0 <= k < at.len() ==> (#[trigger] c.ducks[k]).clip == at[k] && ducks_under(vs[at[k]])
            == Some(c.ducks[k].target) && c.ducks[k].span == vs[at[k]].element.span
}

proof fn lemma_below(root: Seq<char>, src: Seq<char>)
    ensures
        is_below(crate::audio::under_root(root, src), root, src),
{
    reveal_strlit("/");
    assert("/"@ =~= seq!['/']);
}

proof fn lemma_add_voice(
    c: Collected,
    vs: Seq<Voice>,
    root: Seq<char>,
    at: Seq<int>,
    e: ResolvedElement,
    track: Seq<char>,
) -> (out: Seq<int>)
    requires
        collects(c, vs, root, at),
        is_sound(e),
    ensures
        collects(
            crate::audio::collect_one(c, e, track, root),
            vs.push(Voice { element: e, track }),
            root,
            out,
        ),
{
    let v = Voice { element: e, track };
    let all = vs.push(v);
    let s = crate::audio::sounding(e.kind@)->0;
    let d = crate::audio::collect_one(c, e, track, root);
    lemma_below(root, s.src);
    assert forall|i: int| 0 <= i < all.len() implies is_clip(#[trigger] d.clips[i], all[i], root) by {
        if i < vs.len() {
            assert(d.clips[i] == c.clips[i]);
        }
    }
    let n = vs.len() as int;
    assert forall|i: int| 0 <= i < n implies #[trigger] asking_at(vs)(i) == asking_at(all)(i) by {
        assert(all[i] == vs[i]);
    }
    crate::select::lemma_select_same(at, n, asking_at(vs), asking_at(all));
    if ducks_under(v) is Some {
        crate::select::lemma_select_take(at, n + 1, asking_at(all));
        let out = at.push(n);
        assert forall|k: int| 0 <= k < out.len() implies (#[trigger] d.ducks[k]).clip == out[k]
            && ducks_under(all[out[k]]) == Some(d.ducks[k].target) && d.ducks[k].span
            == all[out[k]].element.span by {
            if k < at.len() {
                assert(d.ducks[k] == c.ducks[k]);
                assert(all[at[k]] == vs[at[k]]);
            }
        }
        out
    } else {
        crate::select::lemma_select_skip(at, n + 1, asking_at(all));
        assert forall|k: int| 0 <= k < at.len() implies (#[trigger] d.ducks[k]).clip == at[k]
            && ducks_under(all[at[k]]) == Some(d.ducks[k].target) && d.ducks[k].span
            == all[at[k]].element.span by {
            assert(all[at[k]] == vs[at[k]]);
        }
        at
    }
}

proof fn lemma_collect_tree(
    c: Collected,
    vs: Seq<Voice>,
    root: Seq<char>,
    at: Seq<int>,
    e: ResolvedElement,
    track: Seq<char>,
) -> (out: Seq<int>)
    requires
        collects(c, vs, root, at),
    ensures
        collects(
            crate::audio::collect_one(c, e, track, root),
            vs + voices(e, track),
            root,
            out,
        ),
    decreases e, 0int,
{
    if is_sound(e) {
        let v = Voice { element: e, track };
        assert(vs + seq![v] =~= vs.push(v));
        lemma_add_voice(c, vs, root, at, e, track)
    } else {
        lemma_collect_trees(c, vs, root, at, e.children@, e.children@.len() as int, track)
    }
}

proof fn lemma_collect_trees(
    c: Collected,
    vs: Seq<Voice>,
    root: Seq<char>,
    at: Seq<int>,
    es: Seq<ResolvedElement>,
    n: int,
    track: Seq<char>,
) -> (out: Seq<int>)
    requires
        collects(c, vs, root, at),
    ensures
        collects(
            crate::audio::collect_list(c, es, n, track, root),
            vs + list_voices(es, n, track),
            root,
            out,
        ),
    decreases es, n,
{
    if n <= 0 || n > es.len() {
        assert(vs + Seq::<Voice>::empty() =~= vs);
        at
    } else {
        let mid = lemma_collect_trees(c, vs, root, at, es, n - 1, track);
        let before = crate::audio::collect_list(c, es, n - 1, track, root);
        let sofar = vs + list_voices(es, n - 1, track);
        assert(sofar + voices(es[n - 1], track) =~= vs + list_voices(es, n, track));
        lemma_collect_tree(before, sofar, root, mid, es[n - 1], track)
    }
}

proof fn lemma_collect_all(tracks: Seq<ResolvedTrack>, n: int, root: Seq<char>) -> (out: Seq<int>)
    ensures
        collects(
            crate::audio::collect_tracks(tracks, n, root),
            track_voices(tracks, n),
            root,
            out,
        ),
    decreases n,
{
    if n <= 0 || n > tracks.len() {
        crate::select::lemma_select_none(asking_at(Seq::<Voice>::empty()));
        Seq::empty()
    } else {
        let mid = lemma_collect_all(tracks, n - 1, root);
        let t = tracks[n - 1];
        lemma_collect_trees(
            crate::audio::collect_tracks(tracks, n - 1, root),
            track_voices(tracks, n - 1),
            root,
            mid,
            t.elements@,
            t.elements@.len() as int,
            t.id@,
        )
    }
}

/// Every music and sound element of a scene, and nothing else, has one clip in
/// its mix, in document order: its own source below the root, its own gain,
/// offset and samples. The mix is as long as the program.
pub proof fn every_sound_is_a_clip(scene: ResolvedScene, root: Seq<char>)
    ensures
        ({
            let g = crate::audio::graph_of(scene, root).0;
            let vs = scene_voices(scene);
            &&& g.clips.len() == vs.len()
            &&& forall|i: int| 0 <= i < vs.len() ==> is_clip(#[trigger] g.clips[i], vs[i], root)
            &&& g.program_samples == scene.program.samples.end
        }),
{
    let at = lemma_collect_all(scene.tracks@, scene.tracks@.len() as int, root);
}

// Ducking.

/// Clip `j` is one that voice `i` is ducked under.
pub open spec fn is_key_of(vs: Seq<Voice>, i: int, j: int) -> bool {
    0 <= j < vs.len() && j != i && ducks_under(vs[i]) == Some(vs[j].track)
}

pub open spec fn has_key(vs: Seq<Voice>, i: int) -> bool {
    exists|j: int| #[trigger] is_key_of(vs, i, j)
}

/// The voices that are ducked.
pub open spec fn ducked_at(vs: Seq<Voice>) -> spec_fn(int) -> bool {
    |i: int| ducks_under(vs[i]) is Some && has_key(vs, i)
}

/// The voices that ask to be ducked under nothing.
pub open spec fn undone_at(vs: Seq<Voice>) -> spec_fn(int) -> bool {
    |i: int| ducks_under(vs[i]) is Some && !has_key(vs, i)
}

/// A link for voice `i`: keyed by all clips of the track that it names but
/// itself, in order.
pub open spec fn is_link(l: LinkView, vs: Seq<Voice>, i: int) -> bool {
    &&& l.clip == i
    &&& l.key.len() > 0
    &&& forall|k: int| 0 <= k < l.key.len() ==> is_key_of(vs, i, #[trigger] l.key[k] as int)
    &&& forall|j: int, k: int|
        0 <= j < k < l.key.len() ==> #[trigger] l.key[j] < #[trigger] l.key[k]
    &&& forall|j: int| #[trigger] is_key_of(vs, i, j) ==> l.key.contains(j as usize)
}

proof fn lemma_keys(
    c: Collected,
    vs: Seq<Voice>,
    root: Seq<char>,
    at: Seq<int>,
    target: Seq<char>,
    i: int,
    n: int,
)
    requires
        collects(c, vs, root, at),
        vs.len() <= usize::MAX,
        0 <= i < vs.len(),
        ducks_under(vs[i]) == Some(target),
        0 <= n <= vs.len(),
    ensures
        ({
            let key = crate::audio::keys_on(c.clips, target, i, n);
            &&& forall|k: int|
                0 <= k < key.len() ==> is_key_of(vs, i, #[trigger] key[k] as int) && key[k] < n
            &&& forall|j: int, k: int|
                0 <= j < k < key.len() ==> #[trigger] key[j] < #[trigger] key[k]
            &&& forall|j: int| j < n && #[trigger] is_key_of(vs, i, j) ==> key.contains(j as usize)
        }),
    decreases n,
{
    if n > 0 {
        lemma_keys(c, vs, root, at, target, i, n - 1);
        let before = crate::audio::keys_on(c.clips, target, i, n - 1);
        let key = crate::audio::keys_on(c.clips, target, i, n);
        assert(is_clip(c.clips[n - 1], vs[n - 1], root));
        assert forall|j: int| j < n && #[trigger] is_key_of(vs, i, j) implies key.contains(
            j as usize,
        ) by {
            if j == n - 1 {
                assert(key[before.len() as int] == j as usize);
            } else {
                assert(before.contains(j as usize));
                let k = choose|k: int| 0 <= k < before.len() && before[k] == j as usize;
                assert(key[k] == j as usize);
            }
        }
    }
}

/// A warning at the element of a voice that names the track it asked for.
pub open spec fn is_duck_warning(d: DiagnosticView, v: Voice) -> bool {
    &&& d.severity == Severity::Warning
    &&& d.span == Some(v.element.span)
    &&& ducks_under(v) matches Some(t) && crate::text_laws::mentions(d.message, "`"@ + t + "`"@)
}

proof fn lemma_links(
    c: Collected,
    vs: Seq<Voice>,
    root: Seq<char>,
    at: Seq<int>,
    n: int,
) -> (out: (Seq<int>, Seq<int>))
    requires
        collects(c, vs, root, at),
        vs.len() <= usize::MAX,
        0 <= n <= at.len(),
    ensures
        ({
            let (l, d) = crate::audio::links(c, n);
            &&& l.len() == out.0.len()
            &&& d.len() == out.1.len()
            &&& forall|k: int|
                0 <= k < out.0.len() ==> ducked_at(vs)(#[trigger] out.0[k]) && at.take(n).contains(
                    out.0[k],
                ) && is_link(l[k], vs, out.0[k])
            &&& forall|k: int|
                0 <= k < out.1.len() ==> undone_at(vs)(#[trigger] out.1[k]) && at.take(n).contains(
                    out.1[k],
                ) && is_duck_warning(d[k], vs[out.1[k]])
            &&& forall|j: int, k: int|
                0 <= j < k < out.0.len() ==> #[trigger] out.0[j] < #[trigger] out.0[k]
            &&& forall|j: int, k: int|
                0 <= j < k < out.1.len() ==> #[trigger] out.1[j] < #[trigger] out.1[k]
            &&& forall|k: int|
                0 <= k < n ==> out.0.contains(#[trigger] at[k]) || out.1.contains(at[k])
        }),
    decreases n,
{
    if n == 0 {
        (Seq::empty(), Seq::empty())
    } else {
        let (a, b) = lemma_links(c, vs, root, at, n - 1);
        let (l0, d0) = crate::audio::links(c, n - 1);
        let (l, d) = crate::audio::links(c, n);
        let r = c.ducks[n - 1];
        let i = at[n - 1];
        let total = vs.len() as int;
        assert(asking_at(vs)(i));
        lemma_keys(c, vs, root, at, r.target, i, total);
        let key = crate::audio::keys_on(c.clips, r.target, i, total);
        assert forall|x: int| #[trigger] at.take(n - 1).contains(x) implies at.take(n).contains(x)
            && x < i by {
            let short = at.take(n - 1);
            let k = choose|k: int| 0 <= k < short.len() && short[k] == x;
            assert(at.take(n)[k] == x);
            assert(at[k] < at[n - 1]);
        }
        assert(at.take(n)[n - 1] == i);
        if key.len() == 0 {
            assert(!has_key(vs, i)) by {
                if has_key(vs, i) {
                    let j = choose|j: int| #[trigger] is_key_of(vs, i, j);
                    assert(key.contains(j as usize));
                }
            }
            reveal_strlit("duck target `");
            reveal_strlit("` has no audio to key on");
            reveal_strlit("`");
            reveal_strlit("duck target ");
            reveal_strlit(" has no audio to key on");
            let m = "duck target `"@ + r.target + "` has no audio to key on"@;
            let q = "`"@ + r.target + "`"@;
            assert(m =~= "duck target "@ + q + " has no audio to key on"@);
            crate::text_laws::lemma_mentions("duck target "@, q, " has no audio to key on"@);
            let out = b.push(i);
            assert forall|k: int| 0 <= k < out.len() implies undone_at(vs)(#[trigger] out[k])
                && at.take(n).contains(out[k]) && is_duck_warning(d[k], vs[out[k]]) by {
                if k < b.len() {
                    assert(out[k] == b[k]);
                }
            }
            assert forall|k: int| 0 <= k < n implies a.contains(#[trigger] at[k]) || out.contains(
                at[k],
            ) by {
                if k == n - 1 {
                    assert(out[b.len() as int] == i);
                } else if b.contains(at[k]) {
                    let x = choose|x: int| 0 <= x < b.len() && b[x] == at[k];
                    assert(out[x] == at[k]);
                }
            }
            (a, out)
        } else {
            assert(is_key_of(vs, i, key[0] as int));
            assert(has_key(vs, i));
            let link = LinkView { clip: r.clip as usize, key };
            assert(is_link(link, vs, i));
            let out = a.push(i);
            assert forall|k: int| 0 <= k < out.len() implies ducked_at(vs)(#[trigger] out[k])
                && at.take(n).contains(out[k]) && is_link(l[k], vs, out[k]) by {
                if k < a.len() {
                    assert(out[k] == a[k]);
                }
            }
            assert forall|k: int| 0 <= k < n implies out.contains(#[trigger] at[k]) || b.contains(
                at[k],
            ) by {
                if k == n - 1 {
                    assert(out[a.len() as int] == i);
                } else if a.contains(at[k]) {
                    let x = choose|x: int| 0 <= x < a.len() && a[x] == at[k];
                    assert(out[x] == at[k]);
                }
            }
            (out, b)
        }
    }
}

/// Music that names a track to duck under is linked to all other clips of that
/// track, in document order; where there are none, it is warned of.
pub proof fn ducking_follows_the_tracks(scene: ResolvedScene, root: Seq<char>)
    requires
        scene_voices(scene).len() <= usize::MAX,
    ensures
        exists|ducked: Seq<int>, undone: Seq<int>|
            {
                let (g, d) = crate::audio::graph_of(scene, root);
                &&& #[trigger] crate::select::selects(
                    ducked,
                    scene_voices(scene).len() as int,
                    ducked_at(scene_voices(scene)),
                )
                &&& #[trigger] crate::select::selects(
                    undone,
                    scene_voices(scene).len() as int,
                    undone_at(scene_voices(scene)),
                )
                &&& g.duck.len() == ducked.len()
                &&& d.len() == undone.len()
                &&& forall|k: int|
                    0 <= k < ducked.len() ==> is_link(
                        #[trigger] g.duck[k],
                        scene_voices(scene),
                        ducked[k],
                    )
                &&& forall|k: int|
                    0 <= k < undone.len() ==> is_duck_warning(
                        #[trigger] d[k],
                        scene_voices(scene)[undone[k]],
                    )
            },
{
    let vs = scene_voices(scene);
    let n = vs.len() as int;
    let c = crate::audio::collect_tracks(scene.tracks@, scene.tracks@.len() as int, root);
    let at = lemma_collect_all(scene.tracks@, scene.tracks@.len() as int, root);
    let (ducked, undone) = lemma_links(c, vs, root, at, at.len() as int);
    assert(at.take(at.len() as int) =~= at);
    assert forall|i: int| at.contains(i) implies 0 <= i < n by {
        let k = choose|k: int| 0 <= k < at.len() && at[k] == i;
        assert(asking_at(vs)(at[k]));
    }
    assert forall|i: int| 0 <= i < n && #[trigger] ducked_at(vs)(i) implies ducked.contains(i) by {
        assert(asking_at(vs)(i));
        let k = choose|k: int| 0 <= k < at.len() && at[k] == i;
        if undone.contains(at[k]) {
            let x = choose|x: int| 0 <= x < undone.len() && undone[x] == i;
            assert(undone_at(vs)(undone[x]));
        }
    }
    assert forall|i: int| 0 <= i < n && #[trigger] undone_at(vs)(i) implies undone.contains(i) by {
        assert(asking_at(vs)(i));
        let k = choose|k: int| 0 <= k < at.len() && at[k] == i;
        if ducked.contains(at[k]) {
            let x = choose|x: int| 0 <= x < ducked.len() && ducked[x] == i;
            assert(ducked_at(vs)(ducked[x]));
        }
    }
    assert(crate::select::selects(ducked, n, ducked_at(vs)));
    assert(crate::select::selects(undone, n, undone_at(vs)));
}

// Windows.

/// A clip sounds between two program positions.
pub open spec fn overlaps(c: ClipView, start: u64, end: u64) -> bool {
    c.target.start < end && start < c.target.end && c.target.start < c.target.end && start < end
}

pub open spec fn overlap_at(clips: Seq<ClipView>, start: u64, end: u64) -> spec_fn(int) -> bool {
    |i: int| overlaps(clips[i], start, end)
}

/// What a window leaves of a clip: the same sound, counted from the start of
/// the window, what lies outside cut off.
pub open spec fn is_rest(k: ClipView, c: ClipView, start: u64, end: u64) -> bool {
    &&& k.src == c.src && k.from_s == c.from_s && k.gain_db == c.gain_db && k.fade == c.fade
    &&& k.track_id == c.track_id && k.span == c.span
    &&& if c.target.start < start {
        k.target.start == 0 && k.skipped == c.skipped + start - c.target.start
    } else {
        k.target.start == c.target.start - start && k.skipped == c.skipped
    }
    &&& k.target.end == (if c.target.end < end {
        c.target.end
    } else {
        end
    }) - start
}

proof fn lemma_rest(clips: Seq<ClipView>, start: u64, end: u64, n: int) -> (at: Seq<int>)
    requires
        0 <= n <= clips.len(),
        forall|i: int|
            0 <= i < clips.len() ==> (#[trigger] clips[i]).skipped + clips[i].target.end
                <= u64::MAX,
    ensures
        crate::select::selects(at, n, overlap_at(clips, start, end)),
        ({
            let rest = crate::audio::cut_all(clips, start, end, n);
            &&& rest.len() == at.len()
            &&& forall|k: int|
                0 <= k < at.len() ==> is_rest(#[trigger] rest[k], clips[at[k]], start, end)
            &&& forall|i: int|
                0 <= i < n && overlaps(#[trigger] clips[i], start, end) ==> {
                    let k = crate::audio::cut_all(clips, start, end, i).len() as int;
                    k < at.len() && at[k] == i
                }
        }),
    decreases n,
{
    let keep = overlap_at(clips, start, end);
    if n == 0 {
        crate::select::lemma_select_none(keep);
        Seq::empty()
    } else {
        let at = lemma_rest(clips, start, end, n - 1);
        if overlaps(clips[n - 1], start, end) {
            crate::select::lemma_select_take(at, n, keep);
            at.push(n - 1)
        } else {
            crate::select::lemma_select_skip(at, n, keep);
            at
        }
    }
}

/// The keys of a link that still sound.
pub open spec fn key_at(g: GraphView, l: int, start: u64, end: u64) -> spec_fn(int) -> bool {
    |k: int| overlaps(g.clips[g.duck[l].key[k] as int], start, end)
}

/// The links whose clip and one of whose keys still sound.
pub open spec fn link_at(g: GraphView, start: u64, end: u64) -> spec_fn(int) -> bool {
    |l: int|
        overlaps(g.clips[g.duck[l].clip as int], start, end) && exists|k: int|
            0 <= k < g.duck[l].key.len() && overlaps(
                g.clips[#[trigger] g.duck[l].key[k] as int],
                start,
                end,
            )
}

/// Link `new` of a window is link `l` of the program, by the positions `at`
/// that its clips had.
pub open spec fn is_same_link(
    new: LinkView,
    g: GraphView,
    l: int,
    start: u64,
    end: u64,
    at: Seq<int>,
) -> bool {
    &&& new.clip < at.len() && at[new.clip as int] == g.duck[l].clip
    &&& exists|keys: Seq<int>|
        {
            &&& #[trigger] crate::select::selects(
                keys,
                g.duck[l].key.len() as int,
                key_at(g, l, start, end),
            )
            &&& new.key.len() == keys.len()
            &&& forall|k: int|
                0 <= k < keys.len() ==> #[trigger] new.key[k] < at.len() && at[new.key[k] as int]
                    == g.duck[l].key[keys[k]]
        }
}

proof fn lemma_new_keys(
    g: GraphView,
    l: int,
    start: u64,
    end: u64,
    at: Seq<int>,
    n: int,
) -> (keys: Seq<int>)
    requires
        crate::audio::links_ok(g),
        g.clips.len() <= usize::MAX,
        0 <= l < g.duck.len(),
        0 <= n <= g.duck[l].key.len(),
        at.len() <= g.clips.len(),
        forall|i: int|
            0 <= i < g.clips.len() && overlaps(#[trigger] g.clips[i], start, end) ==> {
                let k = crate::audio::cut_all(g.clips, start, end, i).len() as int;
                k < at.len() && at[k] == i
            },
    ensures
        crate::select::selects(keys, n, key_at(g, l, start, end)),
        ({
            let new = crate::audio::new_keys(g.clips, g.duck[l].key, start, end, n);
            &&& new.len() == keys.len()
            &&& forall|k: int|
                0 <= k < keys.len() ==> #[trigger] new[k] < at.len() && at[new[k] as int]
                    == g.duck[l].key[keys[k]]
        }),
    decreases n,
{
    let keep = key_at(g, l, start, end);
    if n == 0 {
        crate::select::lemma_select_none(keep);
        Seq::empty()
    } else {
        let keys = lemma_new_keys(g, l, start, end, at, n - 1);
        let i = g.duck[l].key[n - 1] as int;
        assert(crate::audio::link_ok(g.duck[l], g.clips.len()));
        assert(0 <= i < g.clips.len());
        if overlaps(g.clips[i], start, end) {
            crate::select::lemma_select_take(keys, n, keep);
            keys.push(n - 1)
        } else {
            crate::select::lemma_select_skip(keys, n, keep);
            keys
        }
    }
}

proof fn lemma_new_links(
    g: GraphView,
    start: u64,
    end: u64,
    at: Seq<int>,
    n: int,
) -> (kept: Seq<int>)
    requires
        crate::audio::links_ok(g),
        g.clips.len() <= usize::MAX,
        0 <= n <= g.duck.len(),
        at.len() <= g.clips.len(),
        forall|i: int|
            0 <= i < g.clips.len() && overlaps(#[trigger] g.clips[i], start, end) ==> {
                let k = crate::audio::cut_all(g.clips, start, end, i).len() as int;
                k < at.len() && at[k] == i
            },
    ensures
        crate::select::selects(kept, n, link_at(g, start, end)),
        ({
            let new = crate::audio::new_links(g, start, end, n);
            &&& new.len() == kept.len()
            &&& forall|k: int|
                0 <= k < kept.len() ==> is_same_link(
                    #[trigger] new[k],
                    g,
                    kept[k],
                    start,
                    end,
                    at,
                )
        }),
    decreases n,
{
    let keep = link_at(g, start, end);
    if n == 0 {
        crate::select::lemma_select_none(keep);
        Seq::empty()
    } else {
        let kept = lemma_new_links(g, start, end, at, n - 1);
        let l = n - 1;
        let link = g.duck[l];
        assert(crate::audio::link_ok(link, g.clips.len()));
        assert(0 <= link.clip < g.clips.len());
        let keys = lemma_new_keys(g, l, start, end, at, link.key.len() as int);
        assert(crate::select::selects(keys, link.key.len() as int, key_at(g, l, start, end)));
        let new = crate::audio::new_keys(g.clips, link.key, start, end, link.key.len() as int);
        if new.len() > 0 {
            assert(key_at(g, l, start, end)(keys[0]));
            assert(overlaps(g.clips[link.key[keys[0]] as int], start, end));
        } else {
            assert forall|k: int| 0 <= k < link.key.len() implies !overlaps(
                g.clips[#[trigger] link.key[k] as int],
                start,
                end,
            ) by {
                if overlaps(g.clips[link.key[k] as int], start, end) {
                    assert(key_at(g, l, start, end)(k));
                    assert(keys.contains(k));
                }
            }
        }
        if keep(l) {
            crate::select::lemma_select_take(kept, n, keep);
            kept.push(l)
        } else {
            crate::select::lemma_select_skip(kept, n, keep);
            kept
        }
    }
}

/// A window of a mix holds what sounds in it: the rest of each clip that
/// overlaps it, in order, and each link whose clip and one of whose keys do,
/// between the same clips as before.
pub proof fn windows_hold_what_sounds(g: GraphView, start: u64, end: u64)
    requires
        g.clips.len() <= usize::MAX,
        crate::audio::links_ok(g),
        forall|i: int|
            0 <= i < g.clips.len() ==> (#[trigger] g.clips[i]).skipped + g.clips[i].target.end
                <= u64::MAX,
    ensures
        exists|at: Seq<int>, kept: Seq<int>|
            {
                let w = crate::audio::windowed(g, start, end);
                &&& #[trigger] crate::select::selects(
                    at,
                    g.clips.len() as int,
                    overlap_at(g.clips, start, end),
                )
                &&& #[trigger] crate::select::selects(
                    kept,
                    g.duck.len() as int,
                    link_at(g, start, end),
                )
                &&& w.clips.len() == at.len()
                &&& w.duck.len() == kept.len()
                &&& forall|k: int|
                    0 <= k < at.len() ==> is_rest(#[trigger] w.clips[k], g.clips[at[k]], start, end)
                &&& forall|k: int|
                    0 <= k < kept.len() ==> is_same_link(
                        #[trigger] w.duck[k],
                        g,
                        kept[k],
                        start,
                        end,
                        at,
                    )
                &&& start <= end ==> w.program_samples == end - start
            },
{
    let n = g.clips.len() as int;
    let at = lemma_rest(g.clips, start, end, n);
    lemma_at_most(at, n, overlap_at(g.clips, start, end));
    let kept = lemma_new_links(g, start, end, at, g.duck.len() as int);
    assert(crate::select::selects(at, n, overlap_at(g.clips, start, end)));
    assert(crate::select::selects(kept, g.duck.len() as int, link_at(g, start, end)));
}

proof fn lemma_at_most(at: Seq<int>, n: int, keep: spec_fn(int) -> bool)
    requires
        0 <= n,
        crate::select::selects(at, n, keep),
    ensures
        at.len() <= n,
{
    if at.len() > 0 {
        lemma_spread(at, at.len() - 1);
    }
}

proof fn lemma_spread(at: Seq<int>, k: int)
    requires
        0 <= k < at.len(),
        at[0] >= 0,
        forall|j: int, k: int| 0 <= j < k < at.len() ==> #[trigger] at[j] < #[trigger] at[k],
    ensures
        at[k] >= k,
    decreases k,
{
    if k > 0 {
        lemma_spread(at, k - 1);
    }
}

// Emission.

/// What a clip goes through: its window of the source, the program's rate and
/// layout, its volume, its fades, and the delay to its place in milliseconds.
pub open spec fn clip_chain(i: nat, c: ClipView, t: ClipText) -> Seq<char> {
    let ms = crate::text::dec((c.target.start * 1000 / 48000) as nat);
    "["@ + crate::text::dec(i) + ":a]atrim=start="@ + t.start@ + ":end="@ + t.end@
        + ",asetpts=PTS-STARTPTS,aresample=48000,aformat=channel_layouts=stereo,volume="@
        + t.volume@ + (if crate::audio::positive(c.fade.in_s) {
        ",afade=t=in:st=0:d="@ + t.fade_in@
    } else {
        Seq::empty()
    }) + (if crate::audio::positive(c.fade.out_s) {
        ",afade=t=out:st="@ + t.fade_out_start@ + ":d="@ + t.fade_out@
    } else {
        Seq::empty()
    }) + (",adelay="@ + ms + "|"@ + ms)
}

proof fn lemma_chain(g: GraphView, texts: Seq<ClipText>, n: int, i: int)
    requires
        0 <= i < n <= g.clips.len(),
    ensures
        crate::text_laws::mentions(
            crate::audio::chains_text(g, texts, n),
            clip_chain(i as nat, g.clips[i], texts[i]) + crate::audio::tail_text(
                i,
                crate::audio::is_key(g.duck, i),
            ) + ";"@,
        ),
    decreases n,
{
    let part = clip_chain(i as nat, g.clips[i], texts[i]) + crate::audio::tail_text(
        i,
        crate::audio::is_key(g.duck, i),
    ) + ";"@;
    let before = crate::audio::chains_text(g, texts, n - 1);
    let last = crate::audio::chain_text(
        n - 1,
        g.clips[n - 1],
        texts[n - 1],
        crate::audio::is_key(g.duck, n - 1),
    );
    let all = crate::audio::chains_text(g, texts, n);
    if i == n - 1 {
        assert(part =~= last + ";"@);
        assert(all =~= before + part + Seq::<char>::empty());
        crate::text_laws::lemma_mentions(before, part, Seq::empty());
    } else {
        lemma_chain(g, texts, n - 1, i);
        assert(all =~= Seq::<char>::empty() + before + (last + ";"@));
        crate::text_laws::lemma_mentions_more(Seq::empty(), before, last + ";"@, part);
    }
}

proof fn lemma_link_text(duck: Seq<LinkView>, n: int, l: int)
    requires
        0 <= l < n <= duck.len(),
    ensures
        crate::text_laws::mentions(
            crate::audio::links_text(duck, n),
            crate::audio::link_text(duck, l),
        ),
    decreases n,
{
    let before = crate::audio::links_text(duck, n - 1);
    let last = crate::audio::link_text(duck, n - 1);
    let all = crate::audio::links_text(duck, n);
    if l == n - 1 {
        assert(all =~= before + last + Seq::<char>::empty());
        crate::text_laws::lemma_mentions(before, last, Seq::empty());
    } else {
        lemma_link_text(duck, n - 1, l);
        assert(all =~= Seq::<char>::empty() + before + last);
        crate::text_laws::lemma_mentions_more(
            Seq::empty(),
            before,
            last,
            crate::audio::link_text(duck, l),
        );
    }
}

/// The compressor of a link: keyed by the mix of its keys' branches.
pub open spec fn link_tail(duck: Seq<LinkView>, l: int) -> Seq<char> {
    let n = crate::text::dec(l as nat);
    "amix=inputs="@ + crate::text::dec(duck[l].key.len()) + ":normalize=0[key"@ + n + "];["@
        + crate::audio::label(duck, duck[l].clip as int, l) + "][key"@ + n
        + "]sidechaincompress=threshold=0.020000:ratio=8.000000:attack=20.000000:release=300.000000[duck"@
        + n + "];"@
}

/// A filter graph takes every clip through its own chain and every link
/// through its own compressor, and ends in one mix of as many inputs as there
/// are clips.
pub proof fn filters_take_every_clip(g: GraphView, texts: Seq<ClipText>, i: int)
    requires
        0 <= i < g.clips.len(),
    ensures
        crate::text_laws::mentions(
            crate::audio::filter_text(g, texts),
            clip_chain(i as nat, g.clips[i], texts[i]) + crate::audio::tail_text(
                i,
                crate::audio::is_key(g.duck, i),
            ) + ";"@,
        ),
        exists|head: Seq<char>|
            crate::audio::filter_text(g, texts) == #[trigger] (head + ("amix=inputs="@
                + crate::text::dec(g.clips.len()) + ":normalize=0[aout]"@)),
{
    let n = g.clips.len() as int;
    lemma_chain(g, texts, n, i);
    let part = clip_chain(i as nat, g.clips[i], texts[i]) + crate::audio::tail_text(
        i,
        crate::audio::is_key(g.duck, i),
    ) + ";"@;
    let links = crate::audio::links_text(g.duck, g.duck.len() as int);
    let chains = crate::audio::chains_text(g, texts, n);
    let inputs = crate::audio::inputs_text(g, n);
    let mix = "amix=inputs="@ + crate::text::dec(g.clips.len()) + ":normalize=0[aout]"@;
    let all = crate::audio::filter_text(g, texts);
    assert(all =~= links + chains + (inputs + mix));
    crate::text_laws::lemma_mentions_more(links, chains, inputs + mix, part);
    assert(all =~= (links + chains + inputs) + mix);
}

/// Every link is in the filter graph, and ends in its compressor.
pub proof fn filters_take_every_link(g: GraphView, texts: Seq<ClipText>, l: int)
    requires
        0 <= l < g.duck.len(),
    ensures
        crate::text_laws::mentions(
            crate::audio::filter_text(g, texts),
            crate::audio::keys_text(g.duck[l].key, g.duck[l].key.len() as int) + link_tail(
                g.duck,
                l,
            ),
        ),
{
    reveal_strlit(
        "]sidechaincompress=threshold=0.020000:ratio=8.000000:attack=20.000000:release=300.000000[duck",
    );
    reveal_strlit("]sidechaincompress=");
    reveal_strlit("threshold=0.020000:ratio=8.000000:attack=20.000000:release=300.000000");
    reveal_strlit("[duck");
    assert("]sidechaincompress="@ + crate::audio::DUCK_SETTINGS@ + "[duck"@
        =~= "]sidechaincompress=threshold=0.020000:ratio=8.000000:attack=20.000000:release=300.000000[duck"@);
    let n = g.clips.len() as int;
    let part = crate::audio::link_text(g.duck, l);
    assert(part =~= crate::audio::keys_text(g.duck[l].key, g.duck[l].key.len() as int) + link_tail(
        g.duck,
        l,
    ));
    lemma_link_text(g.duck, g.duck.len() as int, l);
    let links = crate::audio::links_text(g.duck, g.duck.len() as int);
    let rest = crate::audio::chains_text(g, texts, n) + crate::audio::inputs_text(g, n)
        + "amix=inputs="@ + crate::text::dec(g.clips.len()) + ":normalize=0[aout]"@;
    assert(crate::audio::filter_text(g, texts) =~= Seq::<char>::empty() + links + rest);
    crate::text_laws::lemma_mentions_more(Seq::empty(), links, rest, part);
}

proof fn lemma_inputs(clips: Seq<ClipView>, n: int)
    requires
        0 <= n <= clips.len(),
    ensures
        crate::audio::input_args(clips, n).len() == 2 * n,
        forall|i: int|
            0 <= i < n ==> #[trigger] crate::audio::input_args(clips, n)[2 * i] == "-i"@
                && crate::audio::input_args(clips, n)[2 * i + 1] == clips[i].src,
    decreases n,
{
    if n > 0 {
        lemma_inputs(clips, n - 1);
    }
}

/// The mixer reads the source of every clip in order, maps the mix alone, cuts
/// it to the length of the program, and writes 48 kHz stereo to the file that
/// it was given.
pub proof fn mixes_read_every_clip(
    g: GraphView,
    texts: Seq<ClipText>,
    program_s: Seq<char>,
    out_wav: Seq<char>,
)
    ensures
        ({
            let a = crate::audio::mix_argv(g, texts, program_s, out_wav);
            let n = g.clips.len() as int;
            let k = 3 + 2 * n;
            &&& a.len() == k + 13
            &&& forall|i: int|
                0 <= i < n ==> #[trigger] a[3 + 2 * i] == "-i"@ && a[4 + 2 * i] == g.clips[i].src
            &&& a[k] == "-filter_complex"@ && a[k + 1] == crate::audio::filter_text(g, texts)
            &&& a[k + 2] == "-map"@ && a[k + 3] == "[aout]"@
            &&& a[k + 4] == "-t"@ && a[k + 5] == program_s
            &&& a[k + 6] == "-ar"@ && a[k + 7] == "48000"@
            &&& a[k + 8] == "-ac"@ && a[k + 9] == "2"@
            &&& a[k + 12] == out_wav
        }),
{
    let n = g.clips.len() as int;
    lemma_inputs(g.clips, n);
    let head = seq!["-y"@, "-v"@, "error"@];
    let inputs = crate::audio::input_args(g.clips, n);
    let a = crate::audio::mix_argv(g, texts, program_s, out_wav);
    assert forall|i: int| 0 <= i < n implies #[trigger] a[3 + 2 * i] == "-i"@ && a[4 + 2 * i]
        == g.clips[i].src by {
        assert(inputs[2 * i] == "-i"@);
        assert(a[3 + 2 * i] == inputs[2 * i]);
        assert(a[4 + 2 * i] == inputs[2 * i + 1]);
    }
}

} // verus!
