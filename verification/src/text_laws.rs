//! What the text functions cut out of a text.

use vstd::prelude::*;

verus! {

/// `part` stands somewhere in `s`.
pub open spec fn mentions(s: Seq<char>, part: Seq<char>) -> bool {
    exists|i: int|
        0 <= i && i + part.len() <= s.len() && #[trigger] s.subrange(i, i + part.len()) == part
}

/// A text mentions each of its parts.
pub proof fn lemma_mentions(before: Seq<char>, part: Seq<char>, after: Seq<char>)
    ensures
        mentions(before + part + after, part),
{
    let s = before + part + after;
    let i = before.len() as int;
    assert(s.subrange(i, i + part.len()) =~= part);
}

/// What a part mentions, the whole does.
pub proof fn lemma_mentions_more(
    before: Seq<char>,
    s: Seq<char>,
    after: Seq<char>,
    part: Seq<char>,
)
    requires
        mentions(s, part),
    ensures
        mentions(before + s + after, part),
{
    let i = choose|i: int|
        0 <= i && i + part.len() <= s.len() && #[trigger] s.subrange(i, i + part.len()) == part;
    let all = before + s + after;
    let j = before.len() + i;
    assert(all.subrange(j, j + part.len()) =~= part) by {
        assert forall|k: int| 0 <= k < part.len() implies all[j + k] == part[k] by {
            assert(s.subrange(i, i + part.len())[k] == s[i + k]);
        }
    }
}

/// Nothing but whitespace.
pub open spec fn is_blank(s: Seq<char>) -> bool {
    forall|i: int| 0 <= i < s.len() ==> crate::text::is_space(#[trigger] s[i])
}

proof fn lemma_trim_start(s: Seq<char>) -> (k: int)
    ensures
        0 <= k <= s.len(),
        crate::text::trim_start(s) == s.skip(k),
        is_blank(s.take(k)),
        k < s.len() ==> !crate::text::is_space(s[k]),
    decreases s.len(),
{
    if s.len() > 0 && crate::text::is_space(s[0]) {
        let k = lemma_trim_start(s.drop_first());
        assert(s.drop_first().skip(k) =~= s.skip(k + 1));
        assert forall|i: int| 0 <= i < k + 1 implies crate::text::is_space(
            #[trigger] s.take(k + 1)[i],
        ) by {
            if i > 0 {
                assert(s.drop_first().take(k)[i - 1] == s[i]);
            }
        }
        k + 1
    } else {
        assert(s.skip(0) =~= s);
        0
    }
}

proof fn lemma_trim_end(s: Seq<char>) -> (k: int)
    ensures
        0 <= k <= s.len(),
        crate::text::trim_end(s) == s.take(k),
        is_blank(s.skip(k)),
        k > 0 ==> !crate::text::is_space(s[k - 1]),
    decreases s.len(),
{
    if s.len() > 0 && crate::text::is_space(s.last()) {
        let k = lemma_trim_end(s.drop_last());
        assert(s.drop_last().take(k) =~= s.take(k));
        assert forall|i: int| 0 <= i < s.len() - k implies crate::text::is_space(
            #[trigger] s.skip(k)[i],
        ) by {
            if i < s.len() - 1 - k {
                assert(s.drop_last().skip(k)[i] == s[k + i]);
            }
        }
        k
    } else {
        assert(s.take(s.len() as int) =~= s);
        s.len() as int
    }
}

/// Trimming takes whitespace off both ends, all of it and nothing else.
pub proof fn trimming_takes_the_blank_ends(s: Seq<char>)
    ensures
        exists|a: Seq<char>, b: Seq<char>|
            is_blank(a) && is_blank(b) && #[trigger] (a + crate::text::trimmed(s) + b) == s,
        crate::text::trimmed(s).len() > 0 ==> !crate::text::is_space(crate::text::trimmed(s)[0])
            && !crate::text::is_space(crate::text::trimmed(s).last()),
{
    let k = lemma_trim_start(s);
    let rest = s.skip(k);
    let e = lemma_trim_end(rest);
    let a = s.take(k);
    let b = rest.skip(e);
    assert(a + crate::text::trimmed(s) + b =~= s);
    if e > 0 {
        assert(rest[0] == s[k]);
    }
}

/// The characters between `a` and `b` are a whole word: no whitespace in it,
/// and nothing else next to it.
pub open spec fn is_run(s: Seq<char>, a: int, b: int) -> bool {
    &&& 0 <= a < b <= s.len()
    &&& forall|i: int| a <= i < b ==> !crate::text::is_space(#[trigger] s[i])
    &&& a > 0 ==> crate::text::is_space(s[a - 1])
    &&& b < s.len() ==> crate::text::is_space(s[b])
}

/// `bounds` are all words of a text from position `from` on, in order.
pub open spec fn are_runs(s: Seq<char>, bounds: Seq<(int, int)>, from: int) -> bool {
    &&& forall|k: int|
        0 <= k < bounds.len() ==> from <= (#[trigger] bounds[k]).0 && is_run(
            s,
            bounds[k].0,
            bounds[k].1,
        )
    &&& forall|j: int, k: int|
        0 <= j < k < bounds.len() ==> (#[trigger] bounds[j]).1 < (#[trigger] bounds[k]).0
    &&& forall|i: int|
        from <= i < s.len() && !crate::text::is_space(#[trigger] s[i]) ==> in_some_run(bounds, i)
}

pub open spec fn in_some_run(bounds: Seq<(int, int)>, i: int) -> bool {
    exists|k: int| 0 <= k < bounds.len() && (#[trigger] bounds[k]).0 <= i < bounds[k].1
}

proof fn lemma_word_run(s: Seq<char>, i: int)
    requires
        0 <= i <= s.len(),
    ensures
        ({
            let e = crate::text::word_end(s, i);
            &&& i <= e <= s.len()
            &&& forall|k: int| i <= k < e ==> !crate::text::is_space(#[trigger] s[k])
            &&& e < s.len() ==> crate::text::is_space(s[e])
        }),
    decreases s.len() - i,
{
    if i < s.len() && !crate::text::is_space(s[i]) {
        lemma_word_run(s, i + 1);
    }
}

proof fn lemma_words(s: Seq<char>, i: int) -> (bounds: Seq<(int, int)>)
    requires
        0 <= i <= s.len(),
        i > 0 ==> crate::text::is_space(s[i - 1]) || i == s.len() || crate::text::is_space(s[i]),
    ensures
        are_runs(s, bounds, i),
        crate::text::words_from(s, i).len() == bounds.len(),
        forall|k: int|
            0 <= k < bounds.len() ==> #[trigger] crate::text::words_from(s, i)[k] == s.subrange(
                bounds[k].0,
                bounds[k].1,
            ),
    decreases s.len() - i,
{
    if i >= s.len() {
        Seq::empty()
    } else if crate::text::is_space(s[i]) {
        lemma_words(s, i + 1)
    } else {
        lemma_word_run(s, i);
        let e = crate::text::word_end(s, i);
        crate::text::lemma_word_end(s, i);
        let rest = lemma_words(s, e);
        let all = seq![(i, e)] + rest;
        assert(is_run(s, i, e));
        let w = crate::text::words_from(s, i);
        let tail = crate::text::words_from(s, e);
        assert forall|k: int| 0 <= k < all.len() implies #[trigger] w[k] == s.subrange(
            all[k].0,
            all[k].1,
        ) && i <= all[k].0 && is_run(s, all[k].0, all[k].1) by {
            if k > 0 {
                assert(all[k] == rest[k - 1]);
                assert(w[k] == tail[k - 1]);
            }
        }
        assert forall|k: int| 0 <= k < all.len() implies i <= (#[trigger] all[k]).0 && is_run(
            s,
            all[k].0,
            all[k].1,
        ) by {
            assert(w[k] == s.subrange(all[k].0, all[k].1));
        }
        assert forall|j: int, k: int| 0 <= j < k < all.len() implies (#[trigger] all[j]).1 < (
        #[trigger] all[k]).0 by {
            assert(all[k] == rest[k - 1]);
            if j > 0 {
                assert(all[j] == rest[j - 1]);
            } else {
                assert(is_run(s, rest[k - 1].0, rest[k - 1].1));
                assert(!crate::text::is_space(s[rest[k - 1].0]));
            }
        }
        assert forall|p: int|
            i <= p < s.len() && !crate::text::is_space(#[trigger] s[p]) implies in_some_run(
            all,
            p,
        ) by {
            if p < e {
                assert(all[0].0 <= p < all[0].1);
            } else {
                let k = choose|k: int|
                    0 <= k < rest.len() && (#[trigger] rest[k]).0 <= p < rest[k].1;
                assert(all[k + 1] == rest[k]);
            }
        }
        all
    }
}

/// The words of a text are its maximal runs without whitespace, all of them,
/// in order.
pub proof fn words_are_the_runs(s: Seq<char>)
    ensures
        exists|bounds: Seq<(int, int)>|
            {
                &&& #[trigger] are_runs(s, bounds, 0)
                &&& crate::text::words(s).len() == bounds.len()
                &&& forall|k: int|
                    0 <= k < bounds.len() ==> #[trigger] crate::text::words(s)[k] == s.subrange(
                        bounds[k].0,
                        bounds[k].1,
                    )
            },
{
    let bounds = lemma_words(s, 0);
    assert(are_runs(s, bounds, 0));
}

/// A line between `a` and `b`, without its terminator: it holds no line feed,
/// it starts the text or follows a line feed, and it ends with the text or
/// before a line feed, a carriage return in front of that left out.
pub open spec fn is_line(s: Seq<char>, a: int, b: int) -> bool {
    &&& 0 <= a <= b <= s.len()
    &&& forall|i: int| a <= i < b ==> #[trigger] s[i] != '\n'
    &&& a > 0 ==> s[a - 1] == '\n'
    &&& {
        ||| b == s.len()
        ||| s[b] == '\n' && (b > a ==> s[b - 1] != '\r')
        ||| b + 1 < s.len() && s[b] == '\r' && s[b + 1] == '\n'
    }
}

proof fn lemma_lines(s: Seq<char>, i: int)
    requires
        0 <= i <= s.len(),
        i > 0 ==> i == s.len() || s[i - 1] == '\n',
    ensures
        ({
            let l = crate::text::lines_from(s, i);
            &&& forall|k: int|
                0 <= k < l.len() ==> is_line(s, (#[trigger] l[k]).0, l[k].1) && i <= l[k].0
            &&& forall|j: int, k: int|
                0 <= j < k < l.len() ==> (#[trigger] l[j]).1 < (#[trigger] l[k]).0
            &&& forall|p: int|
                i <= p < s.len() && #[trigger] s[p] != '\n' && s[p] != '\r' ==> in_some_run(l, p)
        }),
    decreases s.len() - i,
{
    if i < s.len() {
        crate::text::lemma_find_from(s, '\n', i);
        let (e, next) = crate::text::line_bounds(s, i);
        lemma_lines(s, next);
        let rest = crate::text::lines_from(s, next);
        let all = crate::text::lines_from(s, i);
        assert(all == seq![(i, e)] + rest);
        assert forall|k: int| 0 <= k < all.len() implies is_line(s, (#[trigger] all[k]).0, all[k].1)
            && i <= all[k].0 by {
            if k > 0 {
                assert(all[k] == rest[k - 1]);
            }
        }
        assert forall|j: int, k: int| 0 <= j < k < all.len() implies (#[trigger] all[j]).1 < (
        #[trigger] all[k]).0 by {
            assert(all[k] == rest[k - 1]);
            if j > 0 {
                assert(all[j] == rest[j - 1]);
            } else if next >= s.len() {
                assert(rest.len() == 0);
            }
        }
        assert forall|p: int|
            i <= p < s.len() && #[trigger] s[p] != '\n' && s[p] != '\r' implies in_some_run(
            all,
            p,
        ) by {
            if p < e {
                assert(all[0].0 <= p < all[0].1);
            } else {
                let k = choose|k: int|
                    0 <= k < rest.len() && (#[trigger] rest[k]).0 <= p < rest[k].1;
                assert(all[k + 1] == rest[k]);
            }
        }
    }
}

/// The lines of a text stand in order, and all that is no line end stands in
/// one of them.
pub proof fn lines_are_the_lines(s: Seq<char>)
    ensures
        ({
            let l = crate::text::lines_from(s, 0);
            &&& forall|k: int| 0 <= k < l.len() ==> is_line(s, (#[trigger] l[k]).0, l[k].1)
            &&& forall|j: int, k: int|
                0 <= j < k < l.len() ==> (#[trigger] l[j]).1 < (#[trigger] l[k]).0
            &&& forall|p: int|
                0 <= p < s.len() && #[trigger] s[p] != '\n' && s[p] != '\r' ==> in_some_run(l, p)
        }),
{
    lemma_lines(s, 0);
}

/// A number reads back from its numeral, and no other numeral starts with the
/// same digits and a zero.
pub proof fn numerals_read_back(n: nat, max: nat)
    requires
        n <= max,
    ensures
        crate::text::unsigned(crate::text::dec(n), max) == Some(n),
        n > 0 ==> crate::text::dec(n)[0] != '0',
{
    crate::text::lemma_dec(n);
    lemma_leading(n);
    assert(crate::text::is_digit(crate::text::dec(n)[0]));
    assert(crate::text::unsigned_digits(crate::text::dec(n)) == crate::text::dec(n));
}

proof fn lemma_leading(n: nat)
    ensures
        crate::text::dec(n).len() > 0,
        n > 0 ==> crate::text::dec(n)[0] != '0',
    decreases n,
{
    crate::text::lemma_digit(n % 10);
    if n >= 10 {
        lemma_leading(n / 10);
    }
}

} // verus!
