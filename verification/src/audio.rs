//! The 48 kHz program mix: which clips play, where in the program, at what
//! level, who ducks whom, and the ffmpeg filter graph that says so.
//!
//! Sample math lives on one clock, [`PROGRAM_RATE`]. Graph shape per clip `i`:
//! `[i:a]atrim`, `asetpts`, `aresample`, `aformat`, `volume`, `afade`s,
//! `adelay`, then `[a{i}]`, or an `asplit` if it keys someone's duck. Ducking
//! is real sidechain compression: the duck target's clips are submixed into a
//! key signal that drives `sidechaincompress` on the ducked clip. All chains
//! merge in `amix=normalize=0` into `[aout]`.

use vstd::prelude::*;

use crate::diagnostic::{Diagnostic, DiagnosticView};
use crate::number::{Number, NumberView};
use crate::resolved::{ResolvedElement, ResolvedScene, ResolvedTrack, SampleRange};
use crate::scene::{ElementKind, ElementKindView};
use crate::span::Span;
use crate::text::{cat2, cat3, cat5, chars_of, dec_text, text_eq};

verus! {

/// 48 kHz program rate, the one clock the whole engine agrees on.
pub const PROGRAM_RATE: u64 = 48_000;

/// Linear fade edges in seconds. Zero means no fade.
#[derive(Debug, PartialEq)]
pub struct Fade {
    pub in_s: Number,
    pub out_s: Number,
}

pub struct FadeView {
    pub in_s: NumberView,
    pub out_s: NumberView,
}

impl View for Fade {
    type V = FadeView;

    open spec fn view(&self) -> FadeView {
        FadeView { in_s: self.in_s@, out_s: self.out_s@ }
    }
}

/// No fade at either edge.
pub open spec fn no_fade() -> FadeView {
    FadeView { in_s: crate::lower::zero(), out_s: crate::lower::zero() }
}

impl Default for Fade {
    fn default() -> (r: Self)
        ensures
            r@ == no_fade(),
    {
        Fade { in_s: Number::zero(), out_s: Number::zero() }
    }
}

impl Clone for Fade {
    fn clone(&self) -> (r: Self)
        ensures
            r@ == self@,
    {
        Fade { in_s: self.in_s.clone(), out_s: self.out_s.clone() }
    }
}

/// One audio source placed on the program timeline.
#[derive(Debug, PartialEq)]
pub struct AudioClip {
    /// The path of the file, under the project root.
    pub src: String,
    /// Where the clip lands in 48 kHz program samples.
    pub target: SampleRange,
    /// How far into the source playback starts: the authored offset in
    /// seconds.
    pub from_s: Number,
    /// Program samples cut off the front by windowing; playback starts that
    /// much later in the source.
    pub skipped: u64,
    pub gain_db: Number,
    pub fade: Fade,
    /// Track the element sat on; duck keys resolve through this.
    pub track_id: String,
    pub span: Span,
}

pub struct ClipView {
    pub src: Seq<char>,
    pub target: SampleRange,
    pub from_s: NumberView,
    pub skipped: u64,
    pub gain_db: NumberView,
    pub fade: FadeView,
    pub track_id: Seq<char>,
    pub span: Span,
}

impl View for AudioClip {
    type V = ClipView;

    open spec fn view(&self) -> ClipView {
        ClipView {
            src: self.src@,
            target: self.target,
            from_s: self.from_s@,
            skipped: self.skipped,
            gain_db: self.gain_db@,
            fade: self.fade@,
            track_id: self.track_id@,
            span: self.span,
        }
    }
}

pub open spec fn clip_views(s: Seq<AudioClip>) -> Seq<ClipView> {
    Seq::new(s.len(), |i: int| s[i]@)
}

/// `clip`'s level is compressed by the mix of `key` clips.
#[derive(Debug, PartialEq)]
pub struct DuckLink {
    pub clip: usize,
    pub key: Vec<usize>,
}

pub struct LinkView {
    pub clip: usize,
    pub key: Seq<usize>,
}

impl View for DuckLink {
    type V = LinkView;

    open spec fn view(&self) -> LinkView {
        LinkView { clip: self.clip, key: self.key@ }
    }
}

pub open spec fn link_views(s: Seq<DuckLink>) -> Seq<LinkView> {
    Seq::new(s.len(), |i: int| s[i]@)
}

/// The whole program mix.
#[derive(Debug, PartialEq)]
pub struct AudioGraph {
    pub clips: Vec<AudioClip>,
    pub duck: Vec<DuckLink>,
    /// Program length in 48 kHz samples; the mix is cut to exactly this.
    pub program_samples: u64,
}

pub struct GraphView {
    pub clips: Seq<ClipView>,
    pub duck: Seq<LinkView>,
    pub program_samples: u64,
}

impl View for AudioGraph {
    type V = GraphView;

    open spec fn view(&self) -> GraphView {
        GraphView {
            clips: clip_views(self.clips@),
            duck: link_views(self.duck@),
            program_samples: self.program_samples,
        }
    }
}

// Collecting clips.

/// `src` under `root`; an absolute `src` stands for itself.
pub open spec fn under_root(root: Seq<char>, src: Seq<char>) -> Seq<char> {
    if root.len() == 0 || (src.len() > 0 && src[0] == '/') {
        src
    } else if root.last() == '/' {
        root + src
    } else {
        root + "/"@ + src
    }
}

pub fn join_root(root: &str, src: &str) -> (r: String)
    ensures
        r@ == under_root(root@, src@),
{
    let rs = chars_of(root);
    let ss = chars_of(src);
    if rs.len() == 0 || (ss.len() > 0 && ss[0] == '/') {
        src.to_owned()
    } else if rs[rs.len() - 1] == '/' {
        cat2(root, src)
    } else {
        cat3(root, "/", src)
    }
}

/// A clip that asks to be ducked: its index, the track to duck under, and the
/// element's span.
pub struct DuckRequest {
    pub clip: int,
    pub target: Seq<char>,
    pub span: Span,
}

pub struct Collected {
    pub clips: Seq<ClipView>,
    pub ducks: Seq<DuckRequest>,
}

/// The sound that an element makes itself: source, gain, duck target and
/// source offset.
pub struct Sounding {
    pub src: Seq<char>,
    pub gain_db: NumberView,
    pub duck: Option<Seq<char>>,
    pub from_s: NumberView,
}

pub open spec fn sounding(kind: ElementKindView) -> Option<Sounding> {
    match kind {
        ElementKindView::Music { src, gain_db, duck, from_s } => Some(
            Sounding { src, gain_db, duck, from_s },
        ),
        ElementKindView::Sound { src, gain_db, from_s } => Some(
            Sounding { src, gain_db, duck: None, from_s },
        ),
        _ => None,
    }
}

pub open spec fn with_clip(
    c: Collected,
    e: ResolvedElement,
    s: Sounding,
    track: Seq<char>,
    root: Seq<char>,
) -> Collected {
    Collected {
        clips: c.clips.push(
            ClipView {
                src: under_root(root, s.src),
                target: e.timing.samples,
                from_s: s.from_s,
                skipped: 0,
                gain_db: s.gain_db,
                fade: no_fade(),
                track_id: track,
                span: e.span,
            },
        ),
        ducks: match s.duck {
            Some(target) => c.ducks.push(
                DuckRequest { clip: c.clips.len() as int, target, span: e.span },
            ),
            None => c.ducks,
        },
    }
}

/// `c` with the clips of an element: its own, or those of its children.
pub open spec fn collect_one(
    c: Collected,
    e: ResolvedElement,
    track: Seq<char>,
    root: Seq<char>,
) -> Collected
    decreases e, 0int,
{
    match sounding(e.kind@) {
        Some(s) => with_clip(c, e, s, track, root),
        None => collect_list(c, e.children@, e.children@.len() as int, track, root),
    }
}

/// `c` with the clips of the first `n` elements.
pub open spec fn collect_list(
    c: Collected,
    s: Seq<ResolvedElement>,
    n: int,
    track: Seq<char>,
    root: Seq<char>,
) -> Collected
    decreases s, n,
{
    if n <= 0 || n > s.len() {
        c
    } else {
        collect_one(collect_list(c, s, n - 1, track, root), s[n - 1], track, root)
    }
}

pub open spec fn collect_tracks(tracks: Seq<ResolvedTrack>, n: int, root: Seq<char>) -> Collected
    decreases n,
{
    if n <= 0 || n > tracks.len() {
        Collected { clips: Seq::empty(), ducks: Seq::empty() }
    } else {
        let t = tracks[n - 1];
        collect_list(
            collect_tracks(tracks, n - 1, root),
            t.elements@,
            t.elements@.len() as int,
            t.id@,
            root,
        )
    }
}

/// The clips on a track among the first `n`, but for `except`.
pub open spec fn keys_on(clips: Seq<ClipView>, track: Seq<char>, except: int, n: int) -> Seq<usize>
    decreases n,
{
    if n <= 0 || n > clips.len() {
        Seq::empty()
    } else if n - 1 != except && clips[n - 1].track_id == track {
        keys_on(clips, track, except, n - 1).push((n - 1) as usize)
    } else {
        keys_on(clips, track, except, n - 1)
    }
}

/// The links and warnings for the first `n` duck requests.
pub open spec fn links(c: Collected, n: int) -> (Seq<LinkView>, Seq<DiagnosticView>)
    decreases n,
{
    if n <= 0 || n > c.ducks.len() {
        (Seq::empty(), Seq::empty())
    } else {
        let (l, d) = links(c, n - 1);
        let r = c.ducks[n - 1];
        let key = keys_on(c.clips, r.target, r.clip, c.clips.len() as int);
        if key.len() == 0 {
            (
                l,
                d.push(
                    crate::diagnostic::warning_view(
                        "duck target `"@ + r.target + "` has no audio to key on"@,
                        Some(r.span),
                    ),
                ),
            )
        } else {
            (l.push(LinkView { clip: r.clip as usize, key }), d)
        }
    }
}

/// The graph of a scene and its warnings.
pub open spec fn graph_of(scene: ResolvedScene, root: Seq<char>) -> (
    GraphView,
    Seq<DiagnosticView>,
) {
    let c = collect_tracks(scene.tracks@, scene.tracks@.len() as int, root);
    let (duck, d) = links(c, c.ducks.len() as int);
    (
        GraphView { clips: c.clips, duck, program_samples: scene.program.samples.end },
        d,
    )
}

/// A link among `n` clips: every index names a clip, and there is a key.
pub open spec fn link_ok(l: LinkView, n: nat) -> bool {
    &&& l.clip < n
    &&& l.key.len() > 0
    &&& forall|k: int| 0 <= k < l.key.len() ==> #[trigger] l.key[k] < n
}

pub open spec fn all_links_ok(duck: Seq<LinkView>, n: nat) -> bool {
    forall|i: int| 0 <= i < duck.len() ==> link_ok(#[trigger] duck[i], n)
}

/// Every link of a graph is one among its clips.
pub open spec fn links_ok(g: GraphView) -> bool {
    all_links_ok(g.duck, g.clips.len())
}

proof fn lemma_push_link(duck: Seq<LinkView>, l: LinkView, n: nat)
    requires
        all_links_ok(duck, n),
        link_ok(l, n),
    ensures
        all_links_ok(duck.push(l), n),
{
    let all = duck.push(l);
    assert forall|i: int| 0 <= i < all.len() implies link_ok(#[trigger] all[i], n) by {
        if i < duck.len() {
            assert(all[i] == duck[i]);
        }
    }
}

struct Collector {
    clips: Vec<AudioClip>,
    ducks: Vec<(usize, String, Span)>,
}

spec fn duck_views(s: Seq<(usize, String, Span)>) -> Seq<DuckRequest> {
    Seq::new(
        s.len(),
        |i: int| DuckRequest { clip: s[i].0 as int, target: s[i].1@, span: s[i].2 },
    )
}

impl Collector {
    spec fn view(&self) -> Collected {
        Collected { clips: clip_views(self.clips@), ducks: duck_views(self.ducks@) }
    }

    fn add(
        &mut self,
        e: &ResolvedElement,
        src: &str,
        gain_db: &Number,
        duck: Option<&str>,
        from_s: &Number,
        track: &str,
        root: &str,
    )
        ensures
            final(self)@ == with_clip(
                old(self)@,
                *e,
                Sounding {
                    src: src@,
                    gain_db: gain_db@,
                    duck: match duck {
                        Some(d) => Some(d@),
                        None => None,
                    },
                    from_s: from_s@,
                },
                track@,
                root@,
            ),
    {
        let index = self.clips.len();
        let ghost c0 = clip_views(self.clips@);
        let ghost d0 = duck_views(self.ducks@);
        let clip = AudioClip {
            src: join_root(root, src),
            target: e.timing.samples,
            from_s: from_s.clone(),
            skipped: 0,
            gain_db: gain_db.clone(),
            fade: Fade::default(),
            track_id: track.to_owned(),
            span: e.span,
        };
        self.clips.push(clip);
        assert(clip_views(self.clips@) =~= c0.push(clip@));
        match duck {
            Some(d) => {
                self.ducks.push((index, d.to_owned(), e.span));
                assert(duck_views(self.ducks@) =~= d0.push(
                    DuckRequest { clip: index as int, target: d@, span: e.span },
                ));
            },
            None => {},
        }
    }

    fn collect(&mut self, elements: &Vec<ResolvedElement>, track: &str, root: &str)
        ensures
            final(self)@ == collect_list(
                old(self)@,
                elements@,
                elements@.len() as int,
                track@,
                root@,
            ),
        decreases elements,
    {
        let mut i: usize = 0;
        while i < elements.len()
            invariant
                i <= elements@.len(),
                self@ == collect_list(old(self)@, elements@, i as int, track@, root@),
            decreases elements@.len() - i,
        {
            let e = &elements[i];
            let ghost before = self@;
            match &e.kind {
                ElementKind::Music { src, gain_db, duck, from_s } => {
                    let target: Option<&str> = match duck {
                        Some(d) => Some(d.as_str()),
                        None => None,
                    };
                    self.add(e, src.as_str(), gain_db, target, from_s, track, root);
                },
                ElementKind::Sound { src, gain_db, from_s } => {
                    self.add(e, src.as_str(), gain_db, None, from_s, track, root);
                },
                _ => {
                    proof {
                        assert(decreases_to!(elements => elements@[i as int].children));
                    }
                    self.collect(&e.children, track, root);
                },
            }
            assert(self@ == collect_one(before, *e, track@, root@));
            i = i + 1;
        }
    }
}

fn key_indices(clips: &Vec<AudioClip>, track: &str, except: usize) -> (r: Vec<usize>)
    ensures
        r@ == keys_on(clip_views(clips@), track@, except as int, clips@.len() as int),
{
    let ghost all = clip_views(clips@);
    let mut out: Vec<usize> = Vec::new();
    let mut i: usize = 0;
    while i < clips.len()
        invariant
            i <= clips@.len(),
            all == clip_views(clips@),
            out@ == keys_on(all, track@, except as int, i as int),
        decreases clips@.len() - i,
    {
        assert(all[i as int] == clips@[i as int]@);
        if i != except && text_eq(clips[i].track_id.as_str(), track) {
            out.push(i);
        }
        i = i + 1;
    }
    out
}

impl AudioGraph {
    /// Collect `music` and `sound` elements (at any depth) into a graph.
    /// `duck="T"` resolves to the indices of clips on track `T`; a duck target
    /// with no audio produces one warning per element.
    pub fn from_scene(scene: &ResolvedScene, root: &str) -> (r: (AudioGraph, Vec<Diagnostic>))
        ensures
            (r.0@, crate::diagnostic::views(r.1@)) == graph_of(*scene, root@),
            links_ok(r.0@),
            skips_fit(r.0@),
    {
        let mut c = Collector { clips: Vec::new(), ducks: Vec::new() };
        assert(c@.clips =~= Seq::<ClipView>::empty());
        assert(c@.ducks =~= Seq::<DuckRequest>::empty());
        let mut i: usize = 0;
        while i < scene.tracks.len()
            invariant
                i <= scene.tracks@.len(),
                c@ == collect_tracks(scene.tracks@, i as int, root@),
            decreases scene.tracks@.len() - i,
        {
            c.collect(&scene.tracks[i].elements, scene.tracks[i].id.as_str(), root);
            i = i + 1;
        }
        let ghost all = c@;
        let mut diags: Vec<Diagnostic> = Vec::new();
        let mut duck: Vec<DuckLink> = Vec::new();
        let mut k: usize = 0;
        assert(link_views(duck@) =~= Seq::<LinkView>::empty());
        assert(crate::diagnostic::views(diags@) =~= Seq::<DiagnosticView>::empty());
        while k < c.ducks.len()
            invariant
                k <= c.ducks@.len(),
                all == c@,
                (link_views(duck@), crate::diagnostic::views(diags@)) == links(all, k as int),
            decreases c.ducks@.len() - k,
        {
            let request = &c.ducks[k];
            assert(all.ducks[k as int].target == request.1@);
            let ghost l0 = link_views(duck@);
            let ghost d0 = crate::diagnostic::views(diags@);
            let key = key_indices(&c.clips, request.1.as_str(), request.0);
            if key.len() == 0 {
                let d = Diagnostic::warning(
                    cat3("duck target `", request.1.as_str(), "` has no audio to key on"),
                    Some(request.2),
                );
                diags.push(d);
                assert(crate::diagnostic::views(diags@) =~= d0.push(d@));
            } else {
                let link = DuckLink { clip: request.0, key };
                duck.push(link);
                assert(link_views(duck@) =~= l0.push(link@));
            }
            k = k + 1;
        }
        let count: usize = c.clips.len();
        proof {
            lemma_collect_tracks(scene.tracks@, scene.tracks@.len() as int, root@);
            lemma_links(all, all.ducks.len() as int);
        }
        (
            AudioGraph { clips: c.clips, duck, program_samples: scene.program.samples.end },
            diags,
        )
    }
}

/// Duck requests name clips that are there, and nothing is skipped yet.
spec fn collected_ok(c: Collected) -> bool {
    &&& forall|i: int| 0 <= i < c.ducks.len() ==> 0 <= (#[trigger] c.ducks[i]).clip < c.clips.len()
    &&& forall|i: int| 0 <= i < c.clips.len() ==> (#[trigger] c.clips[i]).skipped == 0
}

proof fn lemma_collect_one(c: Collected, e: ResolvedElement, track: Seq<char>, root: Seq<char>)
    requires
        collected_ok(c),
    ensures
        collected_ok(collect_one(c, e, track, root)),
    decreases e, 0int,
{
    match sounding(e.kind@) {
        Some(s) => {},
        None => lemma_collect_list(c, e.children@, e.children@.len() as int, track, root),
    }
}

proof fn lemma_collect_list(
    c: Collected,
    s: Seq<ResolvedElement>,
    n: int,
    track: Seq<char>,
    root: Seq<char>,
)
    requires
        collected_ok(c),
    ensures
        collected_ok(collect_list(c, s, n, track, root)),
    decreases s, n,
{
    if 0 < n <= s.len() {
        lemma_collect_list(c, s, n - 1, track, root);
        lemma_collect_one(collect_list(c, s, n - 1, track, root), s[n - 1], track, root);
    }
}

proof fn lemma_collect_tracks(tracks: Seq<ResolvedTrack>, n: int, root: Seq<char>)
    ensures
        collected_ok(collect_tracks(tracks, n, root)),
    decreases n,
{
    if 0 < n <= tracks.len() {
        lemma_collect_tracks(tracks, n - 1, root);
        let t = tracks[n - 1];
        lemma_collect_list(
            collect_tracks(tracks, n - 1, root),
            t.elements@,
            t.elements@.len() as int,
            t.id@,
            root,
        );
    }
}

proof fn lemma_keys_on(clips: Seq<ClipView>, track: Seq<char>, except: int, n: int)
    requires
        clips.len() <= usize::MAX,
    ensures
        forall|k: int|
            0 <= k < keys_on(clips, track, except, n).len() ==> {
                let i = #[trigger] keys_on(clips, track, except, n)[k];
                i < clips.len() && i != except && clips[i as int].track_id == track
            },
    decreases n,
{
    if 0 < n <= clips.len() {
        lemma_keys_on(clips, track, except, n - 1);
    }
}

proof fn lemma_links(c: Collected, n: int)
    requires
        collected_ok(c),
        c.clips.len() <= usize::MAX,
    ensures
        all_links_ok(links(c, n).0, c.clips.len()),
    decreases n,
{
    if 0 < n <= c.ducks.len() {
        lemma_links(c, n - 1);
        let r = c.ducks[n - 1];
        lemma_keys_on(c.clips, r.target, r.clip, c.clips.len() as int);
        let key = keys_on(c.clips, r.target, r.clip, c.clips.len() as int);
        if key.len() > 0 {
            lemma_push_link(
                links(c, n - 1).0,
                LinkView { clip: r.clip as usize, key },
                c.clips.len(),
            );
        }
    }
}

// Windows.

/// What is left of a clip between two program positions, counted from the
/// first; what is cut off its front is skipped in the source.
pub open spec fn cut(c: ClipView, start: u64, end: u64) -> Option<ClipView> {
    let lo = if c.target.start >= start {
        c.target.start
    } else {
        start
    };
    let hi = if c.target.end <= end {
        c.target.end
    } else {
        end
    };
    if lo < hi {
        Some(
            ClipView {
                target: SampleRange { start: (lo - start) as u64, end: (hi - start) as u64 },
                skipped: (c.skipped + (lo - c.target.start)) as u64,
                ..c
            },
        )
    } else {
        None
    }
}

/// What is left of the first `n` clips.
pub open spec fn cut_all(clips: Seq<ClipView>, start: u64, end: u64, n: int) -> Seq<ClipView>
    decreases n,
{
    if n <= 0 || n > clips.len() {
        Seq::empty()
    } else {
        match cut(clips[n - 1], start, end) {
            Some(c) => cut_all(clips, start, end, n - 1).push(c),
            None => cut_all(clips, start, end, n - 1),
        }
    }
}

/// The index that clip `i` has among what is left.
pub open spec fn new_index(clips: Seq<ClipView>, start: u64, end: u64, i: int) -> Option<usize> {
    if 0 <= i < clips.len() && cut(clips[i], start, end) is Some {
        Some(cut_all(clips, start, end, i).len() as usize)
    } else {
        None
    }
}

/// The first `n` keys by their new indices, those that dropped out removed.
pub open spec fn new_keys(
    clips: Seq<ClipView>,
    key: Seq<usize>,
    start: u64,
    end: u64,
    n: int,
) -> Seq<usize>
    decreases n,
{
    if n <= 0 || n > key.len() {
        Seq::empty()
    } else {
        match new_index(clips, start, end, key[n - 1] as int) {
            Some(k) => new_keys(clips, key, start, end, n - 1).push(k),
            None => new_keys(clips, key, start, end, n - 1),
        }
    }
}

/// A link stays where its clip and one of its keys do.
pub open spec fn new_link(clips: Seq<ClipView>, l: LinkView, start: u64, end: u64) -> Option<
    LinkView,
> {
    let key = new_keys(clips, l.key, start, end, l.key.len() as int);
    match new_index(clips, start, end, l.clip as int) {
        Some(clip) => if key.len() > 0 {
            Some(LinkView { clip, key })
        } else {
            None
        },
        None => None,
    }
}

pub open spec fn new_links(g: GraphView, start: u64, end: u64, n: int) -> Seq<LinkView>
    decreases n,
{
    if n <= 0 || n > g.duck.len() {
        Seq::empty()
    } else {
        match new_link(g.clips, g.duck[n - 1], start, end) {
            Some(l) => new_links(g, start, end, n - 1).push(l),
            None => new_links(g, start, end, n - 1),
        }
    }
}

/// The part of the mix between two program positions.
pub open spec fn windowed(g: GraphView, start: u64, end: u64) -> GraphView {
    GraphView {
        clips: cut_all(g.clips, start, end, g.clips.len() as int),
        duck: new_links(g, start, end, g.duck.len() as int),
        program_samples: if start <= end {
            (end - start) as u64
        } else {
            0
        },
    }
}

/// No clip skips so far into its source that a window could not count it.
pub open spec fn skips_fit(g: GraphView) -> bool {
    forall|i: int|
        0 <= i < g.clips.len() ==> (#[trigger] g.clips[i]).skipped + g.clips[i].target.end
            <= u64::MAX
}

fn cut_clip(c: &AudioClip, start: u64, end: u64) -> (r: Option<AudioClip>)
    requires
        c.skipped + c.target.end <= u64::MAX,
    ensures
        match r {
            Some(v) => cut(c@, start, end) == Some(v@),
            None => cut(c@, start, end) is None,
        },
{
    let lo: u64 = if c.target.start >= start {
        c.target.start
    } else {
        start
    };
    let hi: u64 = if c.target.end <= end {
        c.target.end
    } else {
        end
    };
    if lo < hi {
        Some(
            AudioClip {
                src: c.src.clone(),
                target: SampleRange { start: lo - start, end: hi - start },
                from_s: c.from_s.clone(),
                skipped: c.skipped + (lo - c.target.start),
                gain_db: c.gain_db.clone(),
                fade: c.fade.clone(),
                track_id: c.track_id.clone(),
                span: c.span,
            },
        )
    } else {
        None
    }
}

proof fn lemma_cut_all_len(clips: Seq<ClipView>, start: u64, end: u64, n: int)
    requires
        0 <= n <= clips.len(),
    ensures
        cut_all(clips, start, end, n).len() <= n,
    decreases n,
{
    if n > 0 {
        lemma_cut_all_len(clips, start, end, n - 1);
    }
}

impl AudioGraph {
    /// The part of the mix between two program positions: clips outside it
    /// drop out, the others are clipped and counted from its start, reading
    /// their source that much later, and duck links follow. An empty or
    /// inverted window is silence.
    pub fn window(&self, start: u64, end: u64) -> (r: AudioGraph)
        requires
            links_ok(self@),
            skips_fit(self@),
        ensures
            r@ == windowed(self@, start, end),
    {
        let ghost g = self@;
        let mut clips: Vec<AudioClip> = Vec::new();
        let mut map: Vec<Option<usize>> = Vec::new();
        let mut i: usize = 0;
        assert(clip_views(clips@) =~= Seq::<ClipView>::empty());
        while i < self.clips.len()
            invariant
                i <= self.clips@.len(),
                g == self@,
                skips_fit(g),
                clip_views(clips@) == cut_all(g.clips, start, end, i as int),
                map@.len() == i,
                forall|k: int|
                    0 <= k < i ==> #[trigger] map@[k] == new_index(g.clips, start, end, k),
            decreases self.clips@.len() - i,
        {
            let ghost before = clip_views(clips@);
            assert(g.clips[i as int] == self.clips@[i as int]@);
            let index: usize = clips.len();
            match cut_clip(&self.clips[i], start, end) {
                Some(c) => {
                    map.push(Some(index));
                    clips.push(c);
                    assert(clip_views(clips@) =~= before.push(c@));
                },
                None => {
                    map.push(None);
                },
            }
            i = i + 1;
        }
        let mut duck: Vec<DuckLink> = Vec::new();
        let mut l: usize = 0;
        assert(link_views(duck@) =~= Seq::<LinkView>::empty());
        while l < self.duck.len()
            invariant
                l <= self.duck@.len(),
                g == self@,
                links_ok(g),
                map@.len() == g.clips.len(),
                forall|k: int|
                    0 <= k < g.clips.len() ==> #[trigger] map@[k] == new_index(
                        g.clips,
                        start,
                        end,
                        k,
                    ),
                link_views(duck@) == new_links(g, start, end, l as int),
            decreases self.duck@.len() - l,
        {
            let link = &self.duck[l];
            assert(g.duck[l as int] == link@);
            assert(link_ok(g.duck[l as int], g.clips.len()));
            let ghost before = link_views(duck@);
            let mut key: Vec<usize> = Vec::new();
            let mut k: usize = 0;
            while k < link.key.len()
                invariant
                    k <= link.key@.len(),
                    g == self@,
                    map@.len() == g.clips.len(),
                    forall|j: int|
                        0 <= j < g.clips.len() ==> #[trigger] map@[j] == new_index(
                            g.clips,
                            start,
                            end,
                            j,
                        ),
                    forall|j: int|
                        0 <= j < link.key@.len() ==> #[trigger] link.key@[j] < g.clips.len(),
                    key@ == new_keys(g.clips, link.key@, start, end, k as int),
                decreases link.key@.len() - k,
            {
                match map[link.key[k]] {
                    Some(n) => key.push(n),
                    None => {},
                }
                k = k + 1;
            }
            match map[link.clip] {
                Some(clip) => {
                    if key.len() > 0 {
                        let kept = DuckLink { clip, key };
                        duck.push(kept);
                        assert(link_views(duck@) =~= before.push(kept@));
                    }
                },
                None => {},
            }
            l = l + 1;
        }
        AudioGraph {
            clips,
            duck,
            program_samples: if start <= end {
                end - start
            } else {
                0
            },
        }
    }
}

// Emission.

/// Program samples to milliseconds, rounded down: a clip lands at or before
/// its authored sample, never after.
pub fn samples_to_ms(samples: u64) -> (r: u64)
    requires
        samples * 1000 <= u64::MAX,
    ensures
        r == samples * 1000 / PROGRAM_RATE as int,
        r * PROGRAM_RATE <= samples * 1000 < (r + 1) * PROGRAM_RATE,
{
    samples * 1000 / PROGRAM_RATE
}

/// Compressor settings for ducking, fixed so that the audible behaviour is a
/// property of the engine, not of a scene.
pub const DUCK_SETTINGS: &'static str = "threshold=0.020000:ratio=8.000000:attack=20.000000:release=300.000000";

/// The decimal texts of a clip's times and level, to six places: where the
/// source window starts and ends, the linear volume, and the fade edges.
#[derive(Debug, PartialEq)]
pub struct ClipText {
    pub start: String,
    pub end: String,
    pub volume: String,
    pub fade_in: String,
    pub fade_out_start: String,
    pub fade_out: String,
}

/// Whether some link keys on clip `i`.
pub open spec fn is_key(duck: Seq<LinkView>, i: int) -> bool {
    exists|l: int, k: int|
        0 <= l < duck.len() && 0 <= k < duck[l].key.len() && #[trigger] duck[l].key[k] == i
}

pub open spec fn positive(n: NumberView) -> bool {
    crate::lower::zero().less(n)
}

pub open spec fn fade_in_text(c: ClipView, t: ClipText) -> Seq<char> {
    if positive(c.fade.in_s) {
        ",afade=t=in:st=0:d="@ + t.fade_in@
    } else {
        Seq::empty()
    }
}

pub open spec fn fade_out_text(c: ClipView, t: ClipText) -> Seq<char> {
    if positive(c.fade.out_s) {
        ",afade=t=out:st="@ + t.fade_out_start@ + ":d="@ + t.fade_out@
    } else {
        Seq::empty()
    }
}

pub open spec fn delay_text(c: ClipView) -> Seq<char> {
    let ms = crate::text::dec((c.target.start * 1000 / PROGRAM_RATE as int) as nat);
    ",adelay="@ + ms + "|"@ + ms
}

pub open spec fn tail_text(i: int, key: bool) -> Seq<char> {
    let n = crate::text::dec(i as nat);
    if key {
        ",asplit=2[a"@ + n + "m][a"@ + n + "k]"@
    } else {
        "[a"@ + n + "]"@
    }
}

/// The filter chain of clip `i`.
pub open spec fn chain_text(i: int, c: ClipView, t: ClipText, key: bool) -> Seq<char> {
    "["@ + crate::text::dec(i as nat) + ":a]atrim=start="@ + t.start@ + ":end="@ + t.end@
        + ",asetpts=PTS-STARTPTS,aresample=48000,aformat=channel_layouts=stereo,volume="@
        + t.volume@ + fade_in_text(c, t) + fade_out_text(c, t) + delay_text(c) + tail_text(i, key)
}

/// The chains of the first `n` clips, each closed by a semicolon.
pub open spec fn chains_text(g: GraphView, texts: Seq<ClipText>, n: int) -> Seq<char>
    decreases n,
{
    if n <= 0 {
        Seq::empty()
    } else {
        chains_text(g, texts, n - 1) + chain_text(
            n - 1,
            g.clips[n - 1],
            texts[n - 1],
            is_key(g.duck, n - 1),
        ) + ";"@
    }
}

/// The label under which clip `i` enters the mix after the first `l` links.
pub open spec fn label(duck: Seq<LinkView>, i: int, l: int) -> Seq<char>
    decreases l,
{
    if l <= 0 {
        if is_key(duck, i) {
            "a"@ + crate::text::dec(i as nat) + "m"@
        } else {
            "a"@ + crate::text::dec(i as nat)
        }
    } else if duck[l - 1].clip == i {
        "duck"@ + crate::text::dec((l - 1) as nat)
    } else {
        label(duck, i, l - 1)
    }
}

/// The branches of the first `n` keys.
pub open spec fn keys_text(key: Seq<usize>, n: int) -> Seq<char>
    decreases n,
{
    if n <= 0 {
        Seq::empty()
    } else {
        keys_text(key, n - 1) + "[a"@ + crate::text::dec(key[n - 1] as nat) + "k]"@
    }
}

/// Link `l`: its keys mixed into one signal, which compresses its clip.
pub open spec fn link_text(duck: Seq<LinkView>, l: int) -> Seq<char> {
    let n = crate::text::dec(l as nat);
    keys_text(duck[l].key, duck[l].key.len() as int) + "amix=inputs="@ + crate::text::dec(
        duck[l].key.len(),
    ) + ":normalize=0[key"@ + n + "];["@ + label(duck, duck[l].clip as int, l) + "][key"@ + n
        + "]sidechaincompress="@ + DUCK_SETTINGS@ + "[duck"@ + n + "];"@
}

pub open spec fn links_text(duck: Seq<LinkView>, n: int) -> Seq<char>
    decreases n,
{
    if n <= 0 {
        Seq::empty()
    } else {
        links_text(duck, n - 1) + link_text(duck, n - 1)
    }
}

/// The mix inputs of the first `n` clips.
pub open spec fn inputs_text(g: GraphView, n: int) -> Seq<char>
    decreases n,
{
    if n <= 0 {
        Seq::empty()
    } else {
        inputs_text(g, n - 1) + "["@ + label(g.duck, n - 1, g.duck.len() as int) + "]"@
    }
}

/// The `-filter_complex` value of a graph: duck links, clip chains, final mix.
pub open spec fn filter_text(g: GraphView, texts: Seq<ClipText>) -> Seq<char> {
    let n = g.clips.len() as int;
    links_text(g.duck, g.duck.len() as int) + chains_text(g, texts, n) + inputs_text(g, n)
        + "amix=inputs="@ + crate::text::dec(g.clips.len()) + ":normalize=0[aout]"@
}

/// Positions whose milliseconds can be counted.
pub open spec fn starts_fit(g: GraphView) -> bool {
    forall|i: int|
        0 <= i < g.clips.len() ==> (#[trigger] g.clips[i]).target.start * 1000 <= u64::MAX
}

fn key_flags(graph: &AudioGraph) -> (r: Vec<bool>)
    ensures
        r@.len() == graph.clips@.len(),
        forall|i: int| 0 <= i < r@.len() ==> #[trigger] r@[i] == is_key(graph@.duck, i),
{
    let mut out: Vec<bool> = Vec::new();
    let mut i: usize = 0;
    while i < graph.clips.len()
        invariant
            i <= graph.clips@.len(),
            out@.len() == i,
            forall|k: int| 0 <= k < i ==> #[trigger] out@[k] == is_key(graph@.duck, k),
        decreases graph.clips@.len() - i,
    {
        out.push(keyed(graph, i));
        i = i + 1;
    }
    out
}

fn keyed(graph: &AudioGraph, i: usize) -> (r: bool)
    ensures
        r == is_key(graph@.duck, i as int),
{
    let ghost duck = graph@.duck;
    let mut l: usize = 0;
    while l < graph.duck.len()
        invariant
            l <= graph.duck@.len(),
            duck == graph@.duck,
            forall|a: int, b: int|
                0 <= a < l && 0 <= b < duck[a].key.len() ==> #[trigger] duck[a].key[b] != i,
        decreases graph.duck@.len() - l,
    {
        let key = &graph.duck[l].key;
        assert(duck[l as int].key == key@);
        let mut k: usize = 0;
        while k < key.len()
            invariant
                k <= key@.len(),
                l < duck.len(),
                duck[l as int].key == key@,
                forall|b: int| 0 <= b < k ==> #[trigger] duck[l as int].key[b] != i,
                duck == graph@.duck,
            decreases key@.len() - k,
        {
            if key[k] == i {
                assert(duck[l as int].key[k as int] == i);
                return true;
            }
            k = k + 1;
        }
        l = l + 1;
    }
    false
}

fn chain(i: usize, c: &AudioClip, t: &ClipText, key: bool) -> (r: String)
    requires
        c.target.start * 1000 <= u64::MAX,
    ensures
        r@ == chain_text(i as int, c@, *t, key),
{
    let n = dec_text(i as u64);
    let mut out = cat3("[", n.as_str(), ":a]atrim=start=");
    out.append(t.start.as_str());
    out.append(":end=");
    out.append(t.end.as_str());
    out.append(
        ",asetpts=PTS-STARTPTS,aresample=48000,aformat=channel_layouts=stereo,volume=",
    );
    out.append(t.volume.as_str());
    let zero = Number::zero();
    let ghost s0 = out@;
    if zero.less(&c.fade.in_s) {
        let f = cat2(",afade=t=in:st=0:d=", t.fade_in.as_str());
        out.append(f.as_str());
    }
    assert(out@ =~= s0 + fade_in_text(c@, *t));
    let ghost s1 = out@;
    if zero.less(&c.fade.out_s) {
        let mut f = cat3(",afade=t=out:st=", t.fade_out_start.as_str(), ":d=");
        f.append(t.fade_out.as_str());
        out.append(f.as_str());
    }
    assert(out@ =~= s1 + fade_out_text(c@, *t));
    let ms = dec_text(samples_to_ms(c.target.start));
    let mut delay = cat3(",adelay=", ms.as_str(), "|");
    delay.append(ms.as_str());
    out.append(delay.as_str());
    let tail = if key {
        cat5(",asplit=2[a", n.as_str(), "m][a", n.as_str(), "k]")
    } else {
        cat3("[a", n.as_str(), "]")
    };
    out.append(tail.as_str());
    out
}

fn base_label(i: usize, key: bool) -> (r: String)
    ensures
        forall|duck: Seq<LinkView>|
            is_key(duck, i as int) == key ==> r@ == #[trigger] label(duck, i as int, 0),
{
    let n = dec_text(i as u64);
    if key {
        cat3("a", n.as_str(), "m")
    } else {
        cat2("a", n.as_str())
    }
}

fn link(graph: &AudioGraph, l: usize, current: &str) -> (r: String)
    requires
        l < graph.duck@.len(),
        current@ == label(graph@.duck, graph@.duck[l as int].clip as int, l as int),
    ensures
        r@ == link_text(graph@.duck, l as int),
{
    let link = &graph.duck[l];
    assert(graph@.duck[l as int] == link@);
    let mut out = String::new();
    let mut k: usize = 0;
    assert(out@ =~= keys_text(link.key@, 0));
    while k < link.key.len()
        invariant
            k <= link.key@.len(),
            out@ == keys_text(link.key@, k as int),
        decreases link.key@.len() - k,
    {
        let n = dec_text(link.key[k] as u64);
        out.append("[a");
        out.append(n.as_str());
        out.append("k]");
        k = k + 1;
    }
    let count = dec_text(link.key.len() as u64);
    let n = dec_text(l as u64);
    out.append("amix=inputs=");
    out.append(count.as_str());
    out.append(":normalize=0[key");
    out.append(n.as_str());
    out.append("];[");
    out.append(current);
    out.append("][key");
    out.append(n.as_str());
    out.append("]sidechaincompress=");
    out.append(DUCK_SETTINGS);
    out.append("[duck");
    out.append(n.as_str());
    out.append("];");
    out
}

/// The `-filter_complex` value for the whole graph.
pub fn filter_complex(graph: &AudioGraph, texts: &[ClipText]) -> (r: String)
    requires
        texts@.len() == graph.clips@.len(),
        links_ok(graph@),
        starts_fit(graph@),
    ensures
        r@ == filter_text(graph@, texts@),
{
    let ghost g = graph@;
    let flags = key_flags(graph);
    let mut labels: Vec<String> = Vec::new();
    let mut i: usize = 0;
    while i < graph.clips.len()
        invariant
            i <= graph.clips@.len(),
            g == graph@,
            flags@.len() == graph.clips@.len(),
            forall|k: int| 0 <= k < flags@.len() ==> #[trigger] flags@[k] == is_key(g.duck, k),
            labels@.len() == i,
            forall|k: int| 0 <= k < i ==> (#[trigger] labels@[k])@ == label(g.duck, k, 0),
        decreases graph.clips@.len() - i,
    {
        labels.push(base_label(i, flags[i]));
        i = i + 1;
    }
    let mut out = String::new();
    let mut l: usize = 0;
    assert(out@ =~= links_text(g.duck, 0));
    while l < graph.duck.len()
        invariant
            l <= graph.duck@.len(),
            g == graph@,
            links_ok(g),
            labels@.len() == graph.clips@.len(),
            forall|k: int|
                0 <= k < labels@.len() ==> (#[trigger] labels@[k])@ == label(g.duck, k, l as int),
            out@ == links_text(g.duck, l as int),
        decreases graph.duck@.len() - l,
    {
        assert(g.duck[l as int] == graph.duck@[l as int]@);
        assert(link_ok(g.duck[l as int], g.clips.len()));
        let clip = graph.duck[l].clip;
        let text = link(graph, l, labels[clip].as_str());
        out.append(text.as_str());
        let n = dec_text(l as u64);
        labels.set(clip, cat2("duck", n.as_str()));
        l = l + 1;
    }
    let mut j: usize = 0;
    let ghost s0 = out@;
    assert(s0 + chains_text(g, texts@, 0) =~= s0);
    while j < graph.clips.len()
        invariant
            j <= graph.clips@.len(),
            g == graph@,
            starts_fit(g),
            texts@.len() == graph.clips@.len(),
            flags@.len() == graph.clips@.len(),
            forall|k: int| 0 <= k < flags@.len() ==> #[trigger] flags@[k] == is_key(g.duck, k),
            out@ == s0 + chains_text(g, texts@, j as int),
        decreases graph.clips@.len() - j,
    {
        assert(g.clips[j as int] == graph.clips@[j as int]@);
        let text = chain(j, &graph.clips[j], &texts[j], flags[j]);
        out.append(text.as_str());
        out.append(";");
        assert(out@ =~= s0 + chains_text(g, texts@, j + 1));
        j = j + 1;
    }
    let mut k: usize = 0;
    let ghost s1 = out@;
    assert(s1 + inputs_text(g, 0) =~= s1);
    while k < labels.len()
        invariant
            k <= labels@.len() == graph.clips@.len(),
            g == graph@,
            forall|m: int|
                0 <= m < labels@.len() ==> (#[trigger] labels@[m])@ == label(
                    g.duck,
                    m,
                    g.duck.len() as int,
                ),
            out@ == s1 + inputs_text(g, k as int),
        decreases labels@.len() - k,
    {
        out.append("[");
        out.append(labels[k].as_str());
        out.append("]");
        assert(out@ =~= s1 + inputs_text(g, k + 1));
        k = k + 1;
    }
    let count = dec_text(labels.len() as u64);
    out.append("amix=inputs=");
    out.append(count.as_str());
    out.append(":normalize=0[aout]");
    out
}

/// `-i` and the path of each of the first `n` clips.
pub open spec fn input_args(clips: Seq<ClipView>, n: int) -> Seq<Seq<char>>
    decreases n,
{
    if n <= 0 {
        Seq::empty()
    } else {
        input_args(clips, n - 1).push("-i"@).push(clips[n - 1].src)
    }
}

/// The arguments for `ffmpeg`.
pub open spec fn mix_argv(
    g: GraphView,
    texts: Seq<ClipText>,
    program_s: Seq<char>,
    out_wav: Seq<char>,
) -> Seq<Seq<char>> {
    seq!["-y"@, "-v"@, "error"@] + input_args(g.clips, g.clips.len() as int) + seq![
        "-filter_complex"@,
        filter_text(g, texts),
        "-map"@,
        "[aout]"@,
        "-t"@,
        program_s,
        "-ar"@,
        "48000"@,
        "-ac"@,
        "2"@,
        "-c:a"@,
        "pcm_s16le"@,
        out_wav,
    ]
}

/// Full arguments for `ffmpeg` rendering the graph to a 48 kHz stereo WAV.
/// Output length is cut to the program exactly: `program_s` is its length in
/// seconds.
pub fn mix_args(graph: &AudioGraph, texts: &[ClipText], program_s: &str, out_wav: &str) -> (r: Vec<
    String,
>)
    requires
        texts@.len() == graph.clips@.len(),
        links_ok(graph@),
        starts_fit(graph@),
    ensures
        crate::text::text_views(r@) == mix_argv(graph@, texts@, program_s@, out_wav@),
{
    let ghost g = graph@;
    let mut args: Vec<String> = Vec::new();
    args.push("-y".to_owned());
    args.push("-v".to_owned());
    args.push("error".to_owned());
    let ghost head = seq!["-y"@, "-v"@, "error"@];
    assert(crate::text::text_views(args@) =~= head + input_args(g.clips, 0));
    let mut i: usize = 0;
    while i < graph.clips.len()
        invariant
            i <= graph.clips@.len(),
            g == graph@,
            crate::text::text_views(args@) == head + input_args(g.clips, i as int),
        decreases graph.clips@.len() - i,
    {
        let ghost before = crate::text::text_views(args@);
        assert(g.clips[i as int] == graph.clips@[i as int]@);
        args.push("-i".to_owned());
        args.push(graph.clips[i].src.clone());
        assert(crate::text::text_views(args@) =~= before.push("-i"@).push(
            g.clips[i as int].src,
        ));
        assert(crate::text::text_views(args@) =~= head + input_args(g.clips, i + 1));
        i = i + 1;
    }
    let ghost body = crate::text::text_views(args@);
    args.push("-filter_complex".to_owned());
    args.push(filter_complex(graph, texts));
    args.push("-map".to_owned());
    args.push("[aout]".to_owned());
    args.push("-t".to_owned());
    args.push(program_s.to_owned());
    args.push("-ar".to_owned());
    args.push("48000".to_owned());
    args.push("-ac".to_owned());
    args.push("2".to_owned());
    args.push("-c:a".to_owned());
    args.push("pcm_s16le".to_owned());
    args.push(out_wav.to_owned());
    assert(crate::text::text_views(args@) =~= mix_argv(g, texts@, program_s@, out_wav@));
    args
}

// Laws of windows.

/// Where in the source (in program samples past the authored offset) a clip
/// sounds at program position `p`.
pub open spec fn source_position(c: ClipView, p: int) -> int {
    p - c.target.start + c.skipped
}

/// Cutting a clip keeps it inside the window and changes neither when it
/// sounds nor what part of the source is heard: position `p` of the window is
/// position `start + p` of the program.
pub proof fn cut_keeps_the_sound(c: ClipView, start: u64, end: u64, p: int)
    requires
        c.skipped + c.target.end <= u64::MAX,
        0 <= p,
        start + p < end,
    ensures
        match cut(c, start, end) {
            Some(k) => {
                &&& k.target.start <= p < k.target.end <==> c.target.start <= start + p
                    < c.target.end
                &&& source_position(k, p) == source_position(c, start + p)
                &&& k.target.start < k.target.end <= end - start
                &&& k.skipped + k.target.end <= u64::MAX
                &&& k.src == c.src && k.from_s == c.from_s && k.gain_db == c.gain_db
            },
            None => !(c.target.start <= start + p < c.target.end),
        },
{
}

proof fn lemma_cut_all(clips: Seq<ClipView>, start: u64, end: u64, n: int)
    requires
        0 <= n <= clips.len(),
    ensures
        forall|i: int|
            0 <= i < cut_all(clips, start, end, n).len() ==> {
                let k = #[trigger] cut_all(clips, start, end, n)[i];
                start < end && k.target.start < k.target.end <= end - start
            },
        forall|i: int|
            0 <= i < n && cut(clips[i], start, end) is Some ==> {
                let j = (#[trigger] cut_all(clips, start, end, i)).len();
                j < cut_all(clips, start, end, n).len() && cut_all(clips, start, end, n)[j as int]
                    == cut(clips[i], start, end)->0
            },
    decreases n,
{
    if n > 0 {
        lemma_cut_all(clips, start, end, n - 1);
        let before = cut_all(clips, start, end, n - 1);
        assert forall|i: int| 0 <= i < n && cut(clips[i], start, end) is Some implies {
            let j = (#[trigger] cut_all(clips, start, end, i)).len();
            j < cut_all(clips, start, end, n).len() && cut_all(clips, start, end, n)[j as int]
                == cut(clips[i], start, end)->0
        } by {
            let j = cut_all(clips, start, end, i).len();
            if i < n - 1 {
                assert(before[j as int] == cut(clips[i], start, end)->0);
            }
        }
    }
}

proof fn lemma_new_keys(clips: Seq<ClipView>, key: Seq<usize>, start: u64, end: u64, n: int)
    requires
        clips.len() <= usize::MAX,
    ensures
        forall|k: int|
            0 <= k < new_keys(clips, key, start, end, n).len() ==> #[trigger] new_keys(
                clips,
                key,
                start,
                end,
                n,
            )[k] < cut_all(clips, start, end, clips.len() as int).len(),
    decreases n,
{
    if 0 < n <= key.len() {
        lemma_new_keys(clips, key, start, end, n - 1);
        lemma_new_index(clips, start, end, key[n - 1] as int);
        let before = new_keys(clips, key, start, end, n - 1);
        let after = new_keys(clips, key, start, end, n);
        assert forall|k: int| 0 <= k < after.len() implies #[trigger] after[k] < cut_all(
            clips,
            start,
            end,
            clips.len() as int,
        ).len() by {
            if k < before.len() {
                assert(after[k] == before[k]);
            }
        }
    }
}

proof fn lemma_new_index(clips: Seq<ClipView>, start: u64, end: u64, i: int)
    requires
        clips.len() <= usize::MAX,
    ensures
        new_index(clips, start, end, i) matches Some(j) ==> j < cut_all(
            clips,
            start,
            end,
            clips.len() as int,
        ).len() && cut(clips[i], start, end) == Some(
            cut_all(clips, start, end, clips.len() as int)[j as int],
        ),
{
    if 0 <= i < clips.len() {
        lemma_cut_all(clips, start, end, clips.len() as int);
        lemma_cut_all_len(clips, start, end, i);
        if cut(clips[i], start, end) is Some {
            let j = cut_all(clips, start, end, i).len();
            assert(cut_all(clips, start, end, clips.len() as int)[j as int] == cut(
                clips[i],
                start,
                end,
            )->0);
        }
    }
}

proof fn lemma_new_links(g: GraphView, start: u64, end: u64, n: int)
    requires
        g.clips.len() <= usize::MAX,
    ensures
        all_links_ok(new_links(g, start, end, n), windowed(g, start, end).clips.len()),
    decreases n,
{
    if 0 < n <= g.duck.len() {
        lemma_new_links(g, start, end, n - 1);
        let l = g.duck[n - 1];
        lemma_new_keys(g.clips, l.key, start, end, l.key.len() as int);
        lemma_new_index(g.clips, start, end, l.clip as int);
        match new_link(g.clips, l, start, end) {
            Some(k) => lemma_push_link(
                new_links(g, start, end, n - 1),
                k,
                windowed(g, start, end).clips.len(),
            ),
            None => {},
        }
    }
}

/// A window of a mix is a mix: its clips lie inside it, its links name clips
/// of it, and a link's clip and keys are what is left of the clips that they
/// named before.
pub proof fn window_is_well_formed(g: GraphView, start: u64, end: u64)
    requires
        g.clips.len() <= usize::MAX,
    ensures
        links_ok(windowed(g, start, end)),
        forall|i: int|
            0 <= i < windowed(g, start, end).clips.len() ==> (#[trigger] windowed(
                g,
                start,
                end,
            ).clips[i]).target.end <= windowed(g, start, end).program_samples,
        forall|i: int|
            0 <= i < g.clips.len() ==> match #[trigger] new_index(g.clips, start, end, i) {
                Some(j) => cut(g.clips[i], start, end) == Some(
                    windowed(g, start, end).clips[j as int],
                ),
                None => cut(g.clips[i], start, end) is None,
            },
{
    lemma_new_links(g, start, end, g.duck.len() as int);
    lemma_cut_all(g.clips, start, end, g.clips.len() as int);
    assert forall|i: int| 0 <= i < g.clips.len() implies match #[trigger] new_index(
        g.clips,
        start,
        end,
        i,
    ) {
        Some(j) => cut(g.clips[i], start, end) == Some(windowed(g, start, end).clips[j as int]),
        None => cut(g.clips[i], start, end) is None,
    } by {
        lemma_new_index(g.clips, start, end, i);
    }
}

/// The window over a whole program is the program.
pub proof fn whole_window_keeps_everything(g: GraphView)
    requires
        g.clips.len() <= usize::MAX,
        links_ok(g),
        forall|i: int|
            0 <= i < g.clips.len() ==> (#[trigger] g.clips[i]).target.start
                < g.clips[i].target.end <= g.program_samples,
    ensures
        windowed(g, 0, g.program_samples) == g,
{
    lemma_whole_window(g, g.clips.len() as int);
    lemma_whole_links(g, g.duck.len() as int);
    assert(g.clips.take(g.clips.len() as int) =~= g.clips);
    assert(g.duck.take(g.duck.len() as int) =~= g.duck);
}

proof fn lemma_whole_window(g: GraphView, n: int)
    requires
        0 <= n <= g.clips.len(),
        forall|i: int|
            0 <= i < g.clips.len() ==> (#[trigger] g.clips[i]).target.start
                < g.clips[i].target.end <= g.program_samples,
    ensures
        cut_all(g.clips, 0, g.program_samples, n) == g.clips.take(n),
    decreases n,
{
    if n > 0 {
        lemma_whole_window(g, n - 1);
        assert(cut(g.clips[n - 1], 0, g.program_samples) == Some(g.clips[n - 1]));
        assert(g.clips.take(n) =~= g.clips.take(n - 1).push(g.clips[n - 1]));
    } else {
        assert(g.clips.take(0) =~= Seq::<ClipView>::empty());
    }
}

proof fn lemma_whole_index(g: GraphView, i: int)
    requires
        g.clips.len() <= usize::MAX,
        0 <= i < g.clips.len(),
        forall|k: int|
            0 <= k < g.clips.len() ==> (#[trigger] g.clips[k]).target.start
                < g.clips[k].target.end <= g.program_samples,
    ensures
        new_index(g.clips, 0, g.program_samples, i) == Some(i as usize),
{
    lemma_whole_window(g, i);
    assert(cut(g.clips[i], 0, g.program_samples) == Some(g.clips[i]));
}

proof fn lemma_whole_keys(g: GraphView, key: Seq<usize>, n: int)
    requires
        g.clips.len() <= usize::MAX,
        0 <= n <= key.len(),
        forall|k: int| 0 <= k < key.len() ==> #[trigger] key[k] < g.clips.len(),
        forall|k: int|
            0 <= k < g.clips.len() ==> (#[trigger] g.clips[k]).target.start
                < g.clips[k].target.end <= g.program_samples,
    ensures
        new_keys(g.clips, key, 0, g.program_samples, n) == key.take(n),
    decreases n,
{
    if n > 0 {
        lemma_whole_keys(g, key, n - 1);
        lemma_whole_index(g, key[n - 1] as int);
        assert(key.take(n) =~= key.take(n - 1).push(key[n - 1]));
    } else {
        assert(key.take(0) =~= Seq::<usize>::empty());
    }
}

proof fn lemma_whole_links(g: GraphView, n: int)
    requires
        g.clips.len() <= usize::MAX,
        links_ok(g),
        0 <= n <= g.duck.len(),
        forall|k: int|
            0 <= k < g.clips.len() ==> (#[trigger] g.clips[k]).target.start
                < g.clips[k].target.end <= g.program_samples,
    ensures
        new_links(g, 0, g.program_samples, n) == g.duck.take(n),
    decreases n,
{
    if n > 0 {
        lemma_whole_links(g, n - 1);
        let l = g.duck[n - 1];
        assert(link_ok(l, g.clips.len()));
        lemma_whole_keys(g, l.key, l.key.len() as int);
        lemma_whole_index(g, l.clip as int);
        assert(l.key.take(l.key.len() as int) =~= l.key);
        assert(new_link(g.clips, l, 0, g.program_samples) == Some(l));
        assert(g.duck.take(n) =~= g.duck.take(n - 1).push(l));
    } else {
        assert(g.duck.take(0) =~= Seq::<LinkView>::empty());
    }
}

/// A window of a window is the window over the same part of the program.
pub proof fn windows_compose(g: GraphView, start: u64, end: u64, from: u64, to: u64)
    requires
        g.clips.len() <= usize::MAX,
        skips_fit(g),
        from <= to,
        start + to <= end,
    ensures
        windowed(windowed(g, start, end), from, to) == windowed(
            g,
            (start + from) as u64,
            (start + to) as u64,
        ),
{
    lemma_cuts_compose(g, start, end, from, to, g.clips.len() as int);
    lemma_links_compose(g, start, end, from, to, g.duck.len() as int);
}

proof fn lemma_cuts_compose(g: GraphView, start: u64, end: u64, from: u64, to: u64, n: int)
    requires
        skips_fit(g),
        from <= to,
        start + to <= end,
        0 <= n <= g.clips.len(),
    ensures
        ({
            let left = cut_all(g.clips, start, end, n);
            cut_all(left, from, to, left.len() as int) == cut_all(
                g.clips,
                (start + from) as u64,
                (start + to) as u64,
                n,
            )
        }),
    decreases n,
{
    if n > 0 {
        lemma_cuts_compose(g, start, end, from, to, n - 1);
        let before = cut_all(g.clips, start, end, n - 1);
        let left = cut_all(g.clips, start, end, n);
        let c = g.clips[n - 1];
        assert(c.skipped + c.target.end <= u64::MAX);
        match cut(c, start, end) {
            Some(k) => {
                assert(left == before.push(k));
                lemma_cut_prefix(before, left, from, to, before.len() as int);
                assert(cut(k, from, to) == cut(c, (start + from) as u64, (start + to) as u64));
            },
            None => {
                assert(cut(c, (start + from) as u64, (start + to) as u64) is None);
            },
        }
    }
}

/// What is left of the first clips depends on them alone.
proof fn lemma_cut_prefix(a: Seq<ClipView>, b: Seq<ClipView>, start: u64, end: u64, n: int)
    requires
        0 <= n <= a.len() <= b.len(),
        forall|k: int| 0 <= k < n ==> a[k] == b[k],
    ensures
        cut_all(a, start, end, n) == cut_all(b, start, end, n),
    decreases n,
{
    if n > 0 {
        lemma_cut_prefix(a, b, start, end, n - 1);
    }
}

proof fn lemma_index_compose(g: GraphView, start: u64, end: u64, from: u64, to: u64, i: int)
    requires
        g.clips.len() <= usize::MAX,
        skips_fit(g),
        from <= to,
        start + to <= end,
    ensures
        new_index(g.clips, (start + from) as u64, (start + to) as u64, i) == (match new_index(
            g.clips,
            start,
            end,
            i,
        ) {
            Some(j) => new_index(windowed(g, start, end).clips, from, to, j as int),
            None => None::<usize>,
        }),
{
    if 0 <= i < g.clips.len() {
        let c = g.clips[i];
        assert(c.skipped + c.target.end <= u64::MAX);
        lemma_new_index(g.clips, start, end, i);
        match cut(c, start, end) {
            Some(k) => {
                let all = windowed(g, start, end).clips;
                let before = cut_all(g.clips, start, end, i);
                lemma_cut_all_len(g.clips, start, end, i);
                lemma_cut_all_prefix(g.clips, start, end, i, g.clips.len() as int);
                assert(all[before.len() as int] == k);
                assert(cut(k, from, to) == cut(c, (start + from) as u64, (start + to) as u64));
                lemma_cuts_compose(g, start, end, from, to, i);
                lemma_cut_prefix(before, all, from, to, before.len() as int);
            },
            None => {
                assert(cut(c, (start + from) as u64, (start + to) as u64) is None);
            },
        }
    }
}

/// What is left of more clips starts with what is left of fewer.
proof fn lemma_cut_all_prefix(clips: Seq<ClipView>, start: u64, end: u64, m: int, n: int)
    requires
        0 <= m <= n <= clips.len(),
    ensures
        cut_all(clips, start, end, m).len() <= cut_all(clips, start, end, n).len(),
        forall|k: int|
            0 <= k < cut_all(clips, start, end, m).len() ==> #[trigger] cut_all(
                clips,
                start,
                end,
                m,
            )[k] == cut_all(clips, start, end, n)[k],
    decreases n,
{
    if m < n {
        lemma_cut_all_prefix(clips, start, end, m, n - 1);
    }
}

proof fn lemma_keys_compose(
    g: GraphView,
    key: Seq<usize>,
    start: u64,
    end: u64,
    from: u64,
    to: u64,
    n: int,
)
    requires
        g.clips.len() <= usize::MAX,
        skips_fit(g),
        from <= to,
        start + to <= end,
        0 <= n <= key.len(),
    ensures
        ({
            let left = new_keys(g.clips, key, start, end, n);
            new_keys(windowed(g, start, end).clips, left, from, to, left.len() as int) == new_keys(
                g.clips,
                key,
                (start + from) as u64,
                (start + to) as u64,
                n,
            )
        }),
    decreases n,
{
    if n > 0 {
        lemma_keys_compose(g, key, start, end, from, to, n - 1);
        lemma_index_compose(g, start, end, from, to, key[n - 1] as int);
        let clips = windowed(g, start, end).clips;
        let before = new_keys(g.clips, key, start, end, n - 1);
        let left = new_keys(g.clips, key, start, end, n);
        match new_index(g.clips, start, end, key[n - 1] as int) {
            Some(j) => {
                assert(left == before.push(j));
                lemma_key_prefix(clips, before, left, from, to, before.len() as int);
            },
            None => {},
        }
    }
}

proof fn lemma_key_prefix(
    clips: Seq<ClipView>,
    a: Seq<usize>,
    b: Seq<usize>,
    start: u64,
    end: u64,
    n: int,
)
    requires
        0 <= n <= a.len() <= b.len(),
        forall|k: int| 0 <= k < n ==> a[k] == b[k],
    ensures
        new_keys(clips, a, start, end, n) == new_keys(clips, b, start, end, n),
    decreases n,
{
    if n > 0 {
        lemma_key_prefix(clips, a, b, start, end, n - 1);
    }
}

/// The links of the first `n` of a graph's links in a window: those that are
/// left there, cut again.
proof fn lemma_links_compose(g: GraphView, start: u64, end: u64, from: u64, to: u64, n: int)
    requires
        g.clips.len() <= usize::MAX,
        skips_fit(g),
        from <= to,
        start + to <= end,
        0 <= n <= g.duck.len(),
    ensures
        ({
            let inner = GraphView {
                duck: new_links(g, start, end, n),
                ..windowed(g, start, end)
            };
            new_links(inner, from, to, inner.duck.len() as int) == new_links(
                g,
                (start + from) as u64,
                (start + to) as u64,
                n,
            )
        }),
    decreases n,
{
    if n > 0 {
        lemma_links_compose(g, start, end, from, to, n - 1);
        let l = g.duck[n - 1];
        let clips = windowed(g, start, end).clips;
        let before = GraphView {
            duck: new_links(g, start, end, n - 1),
            ..windowed(g, start, end)
        };
        let inner = GraphView { duck: new_links(g, start, end, n), ..windowed(g, start, end) };
        lemma_keys_compose(g, l.key, start, end, from, to, l.key.len() as int);
        lemma_index_compose(g, start, end, from, to, l.clip as int);
        match new_link(g.clips, l, start, end) {
            Some(k) => {
                assert(inner.duck == before.duck.push(k));
                lemma_link_prefix(before, inner, from, to, before.duck.len() as int);
                assert(new_link(clips, k, from, to) == new_link(
                    g.clips,
                    l,
                    (start + from) as u64,
                    (start + to) as u64,
                ));
            },
            None => {
                assert(new_link(g.clips, l, (start + from) as u64, (start + to) as u64) is None);
            },
        }
    }
}

proof fn lemma_link_prefix(a: GraphView, b: GraphView, start: u64, end: u64, n: int)
    requires
        a.clips == b.clips,
        0 <= n <= a.duck.len() <= b.duck.len(),
        forall|k: int| 0 <= k < n ==> a.duck[k] == b.duck[k],
    ensures
        new_links(a, start, end, n) == new_links(b, start, end, n),
    decreases n,
{
    if n > 0 {
        lemma_link_prefix(a, b, start, end, n - 1);
    }
}

} // verus!
