//! What the commands of the engine say of frames, files and tools.

use vstd::prelude::*;

use crate::diagnostic::{DiagnosticView, Severity};
use crate::engine::ToolState;
use crate::scene::{ElementKindView, ElementView, Rational, TrackView};
use crate::span::Span;

verus! {

proof fn lemma_digits_trim(n: nat)
    ensures
        crate::text::trimmed(crate::text::dec(n)) == crate::text::dec(n),
{
    crate::text::lemma_dec(n);
    let s = crate::text::dec(n);
    assert(crate::text::is_digit(s[0]));
    assert(crate::text::is_digit(s[s.len() - 1]));
}

/// `N:M` asks for the frames from `N` up to `M`, and for none where there are
/// none; `N` asks for that one frame.
pub proof fn frame_ranges_read_back(start: u32, end: u32)
    ensures
        crate::engine::frame_range(
            crate::text::dec(start as nat) + ":"@ + crate::text::dec(end as nat),
        ) == (if start < end {
            Some((start as nat, end as nat))
        } else {
            None
        }),
        start < u32::MAX ==> crate::engine::frame_range(crate::text::dec(start as nat)) == Some(
            (start as nat, start as nat + 1),
        ),
{
    reveal_strlit(":");
    assert(":"@ =~= seq![':']);
    crate::value_laws::lemma_numeral(start as nat, u32::MAX as nat);
    crate::value_laws::lemma_numeral(end as nat, u32::MAX as nat);
    lemma_digits_trim(start as nat);
    lemma_digits_trim(end as nat);
    let a = crate::text::dec(start as nat);
    assert forall|k: int| 0 <= k < a.len() implies #[trigger] a[k] != ':' by {
        assert(crate::text::is_digit(a[k]));
    }
    crate::value_laws::lemma_apart(a, ':', crate::text::dec(end as nat));
    crate::value_laws::lemma_first(a, ':', 0, a.len() as int);
}

/// A frame starts in the sample that its time falls into, 48000 samples to the
/// second, where a time a millionth of a sample short of one counts as in it.
/// Later frames never start earlier.
pub proof fn frames_start_at_their_samples(frame: u32, later: u32, rate: Rational)
    requires
        rate.numerator > 0,
        frame <= later,
    ensures
        ({
            let s = crate::engine::sample_at(frame, rate);
            let time = frame * rate.denominator * 48_000;
            &&& 0 <= s <= u64::MAX
            &&& s * rate.numerator * 1_000_000 <= time * 1_000_000 + rate.numerator
            &&& s < u64::MAX ==> time * 1_000_000 + rate.numerator < (s + 1) * rate.numerator
                * 1_000_000
            &&& s <= crate::engine::sample_at(later, rate)
        }),
        crate::engine::sample_at(0, rate) == 0,
{
    let n = rate.numerator as int;
    let d = rate.denominator as int;
    let f = frame as int;
    let g = later as int;
    let top = f * d * 48_000_000_000 + n;
    let next = g * d * 48_000_000_000 + n;
    let bottom = n * 1_000_000;
    assert(0 <= f * d <= g * d) by (nonlinear_arith)
        requires
            0 <= f <= g,
            0 <= d,
    ;
    vstd::arithmetic::div_mod::lemma_fundamental_div_mod(top, bottom);
    vstd::arithmetic::div_mod::lemma_mod_bound(top, bottom);
    vstd::arithmetic::div_mod::lemma_div_is_ordered(top, next, bottom);
    vstd::arithmetic::div_mod::lemma_div_pos_is_pos(top, bottom);
    let exact = top / bottom;
    let s = crate::engine::sample_at(frame, rate);
    assert(exact * n * 1_000_000 == bottom * exact) by (nonlinear_arith)
        requires
            bottom == n * 1_000_000,
    ;
    assert((exact + 1) * n * 1_000_000 == bottom * exact + bottom) by (nonlinear_arith)
        requires
            bottom == n * 1_000_000,
    ;
    assert(f * d * 48_000 * 1_000_000 == f * d * 48_000_000_000);
    if s < exact {
        assert(s * n * 1_000_000 <= exact * n * 1_000_000) by (nonlinear_arith)
            requires
                s <= exact,
                n > 0,
        ;
    }
    assert(0int * d * 48_000_000_000 + n == n) by (nonlinear_arith);
    vstd::arithmetic::div_mod::lemma_basic_div(n, bottom);
}

// Files.

/// The file that an element plays, shows or runs.
pub open spec fn file_of(e: ElementView) -> Option<Seq<char>> {
    match e.kind {
        ElementKindView::Clip { src, .. } => Some(src),
        ElementKindView::Image { src } => Some(src),
        ElementKindView::Music { src, .. } => Some(src),
        ElementKindView::Sound { src, .. } => Some(src),
        ElementKindView::Program { src, .. } => Some(src),
        ElementKindView::Text { .. } => None,
        ElementKindView::Captions { .. } => None,
        ElementKindView::Board => None,
    }
}

/// An element and all below it, in document order.
pub open spec fn family(e: ElementView) -> Seq<ElementView>
    decreases e, 0int,
{
    seq![e] + families(e.children, e.children.len() as int)
}

pub open spec fn families(es: Seq<ElementView>, n: int) -> Seq<ElementView>
    decreases es, n,
{
    if n <= 0 || n > es.len() {
        Seq::empty()
    } else {
        families(es, n - 1) + family(es[n - 1])
    }
}

/// All elements of some tracks, in document order.
pub open spec fn members(tracks: Seq<TrackView>, n: int) -> Seq<ElementView>
    decreases n,
{
    if n <= 0 || n > tracks.len() {
        Seq::empty()
    } else {
        members(tracks, n - 1) + families(
            tracks[n - 1].elements,
            tracks[n - 1].elements.len() as int,
        )
    }
}

pub open spec fn filed_at(es: Seq<ElementView>) -> spec_fn(int) -> bool {
    |i: int| file_of(es[i]) is Some
}

/// A reference for each element that uses a file, in order, and no other.
pub open spec fn lists_files(refs: Seq<(Seq<char>, Span)>, es: Seq<ElementView>) -> bool {
    exists|at: Seq<int>|
        {
            &&& #[trigger] crate::select::selects(at, es.len() as int, filed_at(es))
            &&& refs.len() == at.len()
            &&& forall|k: int|
                0 <= k < at.len() ==> file_of(es[at[k]]) == Some((#[trigger] refs[k]).0)
                    && refs[k].1 == es[at[k]].span
        }
}

proof fn lemma_lists_none()
    ensures
        lists_files(Seq::empty(), Seq::empty()),
{
    let es = Seq::<ElementView>::empty();
    crate::select::lemma_select_none(filed_at(es));
    let at = Seq::<int>::empty();
    assert(crate::select::selects(at, es.len() as int, filed_at(es)));
    assert(at.len() == 0);
}

proof fn lemma_lists_more(
    a: Seq<(Seq<char>, Span)>,
    b: Seq<(Seq<char>, Span)>,
    es: Seq<ElementView>,
    fs: Seq<ElementView>,
)
    requires
        lists_files(a, es),
        lists_files(b, fs),
    ensures
        lists_files(a + b, es + fs),
{
    let i = choose|at: Seq<int>|
        {
            &&& #[trigger] crate::select::selects(at, es.len() as int, filed_at(es))
            &&& a.len() == at.len()
            &&& forall|k: int|
                0 <= k < at.len() ==> file_of(es[at[k]]) == Some((#[trigger] a[k]).0) && a[k].1
                    == es[at[k]].span
        };
    let j = choose|at: Seq<int>|
        {
            &&& #[trigger] crate::select::selects(at, fs.len() as int, filed_at(fs))
            &&& b.len() == at.len()
            &&& forall|k: int|
                0 <= k < at.len() ==> file_of(fs[at[k]]) == Some((#[trigger] b[k]).0) && b[k].1
                    == fs[at[k]].span
        };
    let all = es + fs;
    let n = es.len() as int;
    let at = i + Seq::new(j.len(), |k: int| j[k] + n);
    let refs = a + b;
    assert forall|p: int| 0 <= p < all.len() && #[trigger] filed_at(all)(p) implies at.contains(
        p,
    ) by {
        if p < n {
            assert(filed_at(es)(p));
            let k = choose|k: int| 0 <= k < i.len() && i[k] == p;
            assert(at[k] == p);
        } else {
            assert(filed_at(fs)(p - n));
            let k = choose|k: int| 0 <= k < j.len() && j[k] == p - n;
            assert(at[i.len() + k] == p);
        }
    }
    assert forall|k: int| 0 <= k < at.len() implies 0 <= #[trigger] at[k] < all.len() && filed_at(
        all,
    )(at[k]) by {
        if k < i.len() {
            assert(filed_at(es)(i[k]));
        } else {
            assert(filed_at(fs)(j[k - i.len()]));
        }
    }
    assert(crate::select::selects(at, all.len() as int, filed_at(all)));
    assert forall|k: int| 0 <= k < at.len() implies file_of(all[at[k]]) == Some(
        (#[trigger] refs[k]).0,
    ) && refs[k].1 == all[at[k]].span by {
        if k < i.len() {
            assert(refs[k] == a[k]);
        } else {
            assert(refs[k] == b[k - i.len()]);
        }
    }
}

proof fn lemma_lists_one(e: ElementView)
    ensures
        lists_files(crate::scene::own_ref(e), seq![e]),
{
    let es = seq![e];
    let keep = filed_at(es);
    crate::select::lemma_select_none(keep);
    if file_of(e) is Some {
        crate::select::lemma_select_take(Seq::empty(), 1, keep);
        let at = Seq::<int>::empty().push(0);
        assert(crate::select::selects(at, es.len() as int, filed_at(es)));
        assert(at.len() == 1 && at[0] == 0);
    } else {
        crate::select::lemma_select_skip(Seq::empty(), 1, keep);
        let at = Seq::<int>::empty();
        assert(crate::select::selects(at, es.len() as int, filed_at(es)));
        assert(at.len() == 0);
    }
}

proof fn lemma_family_files(e: ElementView)
    ensures
        lists_files(crate::scene::element_assets(e), family(e)),
    decreases e, 0int,
{
    lemma_lists_one(e);
    lemma_families_files(e.children, e.children.len() as int);
    lemma_lists_more(
        crate::scene::own_ref(e),
        crate::scene::first_assets(e.children, e.children.len() as int),
        seq![e],
        families(e.children, e.children.len() as int),
    );
}

proof fn lemma_families_files(es: Seq<ElementView>, n: int)
    ensures
        lists_files(crate::scene::first_assets(es, n), families(es, n)),
    decreases es, n,
{
    if n <= 0 || n > es.len() {
        lemma_lists_none();
    } else {
        lemma_families_files(es, n - 1);
        lemma_family_files(es[n - 1]);
        lemma_lists_more(
            crate::scene::first_assets(es, n - 1),
            crate::scene::element_assets(es[n - 1]),
            families(es, n - 1),
            family(es[n - 1]),
        );
    }
}

/// The files of a scene are those of its clips, images, music, sounds and
/// programs, at every depth and in document order, each with its element's
/// span.
pub proof fn every_file_is_listed(tracks: Seq<TrackView>, n: int)
    ensures
        lists_files(crate::scene::track_assets(tracks, n), members(tracks, n)),
    decreases n,
{
    if n <= 0 || n > tracks.len() {
        lemma_lists_none();
    } else {
        every_file_is_listed(tracks, n - 1);
        let es = tracks[n - 1].elements;
        lemma_families_files(es, es.len() as int);
        lemma_lists_more(
            crate::scene::track_assets(tracks, n - 1),
            crate::scene::first_assets(es, es.len() as int),
            members(tracks, n - 1),
            families(es, es.len() as int),
        );
    }
}

pub open spec fn local_at(refs: Seq<(Seq<char>, Span)>) -> spec_fn(int) -> bool {
    |i: int| !crate::text_laws::mentions(refs[i].0, "://"@)
}

pub open spec fn absent_at(found: Seq<bool>) -> spec_fn(int) -> bool {
    |i: int| !found[i]
}

/// A warning at the place of a reference that names it.
pub open spec fn warns_of(d: DiagnosticView, file: (Seq<char>, Span)) -> bool {
    &&& d.severity == Severity::Warning
    &&& d.span == Some(file.1)
    &&& crate::text_laws::mentions(d.message, file.0)
}

/// Each file that was looked for and not found is warned of once, in order,
/// and nothing else is.
pub proof fn absent_files_are_warned_of(files: Seq<(Seq<char>, Span)>, found: Seq<bool>)
    requires
        found.len() == files.len(),
    ensures
        exists|at: Seq<int>|
            {
                let ds = crate::engine::missing(files, found, files.len() as int);
                &&& #[trigger] crate::select::selects(at, files.len() as int, absent_at(found))
                &&& ds.len() == at.len()
                &&& forall|k: int|
                    0 <= k < at.len() ==> warns_of(#[trigger] ds[k], files[at[k]])
            },
{
    let at = lemma_absent(files, found, files.len() as int);
    assert(crate::select::selects(at, files.len() as int, absent_at(found)));
}

proof fn lemma_absent(files: Seq<(Seq<char>, Span)>, found: Seq<bool>, n: int) -> (at: Seq<int>)
    requires
        found.len() == files.len(),
        0 <= n <= files.len(),
    ensures
        crate::select::selects(at, n, absent_at(found)),
        crate::engine::missing(files, found, n).len() == at.len(),
        forall|k: int|
            0 <= k < at.len() ==> warns_of(
                #[trigger] crate::engine::missing(files, found, n)[k],
                files[at[k]],
            ),
    decreases n,
{
    let keep = absent_at(found);
    if n == 0 {
        crate::select::lemma_select_none(keep);
        Seq::empty()
    } else {
        let at = lemma_absent(files, found, n - 1);
        if keep(n - 1) {
            let file = files[n - 1];
            crate::select::lemma_select_take(at, n, keep);
            let m = "referenced file not found: "@ + file.0;
            crate::text_laws::lemma_mentions("referenced file not found: "@, file.0, Seq::empty());
            assert("referenced file not found: "@ + file.0 + Seq::empty() =~= m);
            at.push(n - 1)
        } else {
            crate::select::lemma_select_skip(at, n, keep);
            at
        }
    }
}

/// References to the network are not looked for among files; all others are,
/// in order.
pub proof fn links_are_not_files(refs: Seq<(Seq<char>, Span)>)
    ensures
        exists|at: Seq<int>|
            {
                let fs = crate::engine::file_refs(refs, refs.len() as int);
                &&& #[trigger] crate::select::selects(at, refs.len() as int, local_at(refs))
                &&& fs.len() == at.len()
                &&& forall|k: int| 0 <= k < at.len() ==> #[trigger] fs[k] == refs[at[k]]
            },
{
    let at = lemma_local(refs, refs.len() as int);
    assert(crate::select::selects(at, refs.len() as int, local_at(refs)));
}

proof fn lemma_local(refs: Seq<(Seq<char>, Span)>, n: int) -> (at: Seq<int>)
    requires
        0 <= n <= refs.len(),
    ensures
        crate::select::selects(at, n, local_at(refs)),
        crate::engine::file_refs(refs, n).len() == at.len(),
        forall|k: int|
            0 <= k < at.len() ==> #[trigger] crate::engine::file_refs(refs, n)[k] == refs[at[k]],
    decreases n,
{
    let keep = local_at(refs);
    if n == 0 {
        crate::select::lemma_select_none(keep);
        Seq::empty()
    } else {
        let at = lemma_local(refs, n - 1);
        lemma_contains(refs[n - 1].0, "://"@);
        if keep(n - 1) {
            crate::select::lemma_select_take(at, n, keep);
            at.push(n - 1)
        } else {
            crate::select::lemma_select_skip(at, n, keep);
            at
        }
    }
}

proof fn lemma_contains(s: Seq<char>, part: Seq<char>)
    ensures
        crate::text::contains_text(s, part) == crate::text_laws::mentions(s, part),
{
    crate::text::lemma_find_text(s, part, 0);
    if crate::text_laws::mentions(s, part) {
        let i = choose|i: int|
            0 <= i && i + part.len() <= s.len() && #[trigger] s.subrange(i, i + part.len()) == part;
        assert(crate::text::stands_at(s, part, i));
    }
}

// Tools.

/// The tool report fails where some tool cannot be used, and only there.
pub proof fn doctor_counts_the_unusable(states: Seq<ToolState>, n: int)
    requires
        0 <= n <= states.len(),
    ensures
        crate::engine::unusable(states, n) <= n,
        crate::engine::unusable(states, n) == 0 <==> forall|i: int|
            0 <= i < n ==> #[trigger] states[i] is Present,
        crate::engine::unusable(states, n) == n <==> forall|i: int|
            0 <= i < n ==> !(#[trigger] states[i] is Present),
    decreases n,
{
    if n > 0 {
        doctor_counts_the_unusable(states, n - 1);
    }
}

} // verus!
