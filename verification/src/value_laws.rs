//! Values of attributes are read as they are written: sizes, rates, colors,
//! numbers, times, gains, places and animations.

use vstd::prelude::*;

use crate::number::NumberView;
use crate::scene::{AnimKind, Canvas, Color, NamedPlacement, PlacementView, Rational};

verus! {

pub proof fn lemma_first(s: Seq<char>, c: char, from: int, i: int)
    requires
        0 <= from <= i <= s.len(),
        i < s.len() ==> s[i] == c,
        forall|k: int| from <= k < i ==> #[trigger] s[k] != c,
    ensures
        crate::text::find_from(s, c, from) == i,
    decreases i - from,
{
    if from < i {
        assert(s[from] != c);
        lemma_first(s, c, from + 1, i);
    }
}

pub proof fn lemma_numeral(n: nat, max: nat)
    ensures
        crate::text::unsigned(crate::text::dec(n), max) == (if n <= max {
            Some(n)
        } else {
            None
        }),
        crate::text::dec(n).len() > 0,
        crate::text::all_digits(crate::text::dec(n)),
{
    crate::text::lemma_dec(n);
    assert(crate::text::is_digit(crate::text::dec(n)[0]));
}

/// Two texts with a mark between them come apart at the mark.
pub proof fn lemma_apart(a: Seq<char>, mark: char, b: Seq<char>)
    requires
        forall|k: int| 0 <= k < a.len() ==> #[trigger] a[k] != mark,
    ensures
        ({
            let s = a + seq![mark] + b;
            &&& crate::text::find_from(s, mark, 0) == a.len()
            &&& s.take(a.len() as int) == a
            &&& s.skip(a.len() as int + 1) == b
            &&& s.len() == a.len() + 1 + b.len()
        }),
{
    let s = a + seq![mark] + b;
    assert forall|k: int| 0 <= k < a.len() implies #[trigger] s[k] != mark by {
        assert(s[k] == a[k]);
    }
    lemma_first(s, mark, 0, a.len() as int);
    assert(s.take(a.len() as int) =~= a);
    assert(s.skip(a.len() as int + 1) =~= b);
}

/// A canvas written as `WIDTHxHEIGHT` is read as that width and that height;
/// one without an extent is refused.
pub proof fn canvases_read_back(width: u32, height: u32)
    ensures
        ({
            let read = crate::scene::canvas(
                crate::text::dec(width as nat) + "x"@ + crate::text::dec(height as nat),
            );
            &&& width > 0 && height > 0 ==> read == Ok::<Canvas, Seq<char>>(
                Canvas { width, height },
            )
            &&& width == 0 || height == 0 ==> read is Err
        }),
{
    reveal_strlit("x");
    assert("x"@ =~= seq!['x']);
    lemma_numeral(width as nat, u32::MAX as nat);
    lemma_numeral(height as nat, u32::MAX as nat);
    let a = crate::text::dec(width as nat);
    assert forall|k: int| 0 <= k < a.len() implies #[trigger] a[k] != 'x' by {
        assert(crate::text::is_digit(a[k]));
    }
    lemma_apart(a, 'x', crate::text::dec(height as nat));
}

/// A rate written as `N/D` is read as that fraction, and one written as `N` as
/// that many frames a second; a rate of nothing is refused.
pub proof fn rates_read_back(numerator: u32, denominator: u32)
    ensures
        ({
            let n = crate::text::dec(numerator as nat);
            let read = crate::scene::rational(n + "/"@ + crate::text::dec(denominator as nat));
            let alone = crate::scene::rational(n);
            &&& numerator > 0 && denominator > 0 ==> read == Ok::<Rational, Seq<char>>(
                Rational { numerator, denominator },
            )
            &&& numerator == 0 || denominator == 0 ==> read is Err
            &&& numerator > 0 ==> alone == Ok::<Rational, Seq<char>>(
                Rational { numerator, denominator: 1 },
            )
            &&& numerator == 0 ==> alone is Err
        }),
{
    reveal_strlit("/");
    assert("/"@ =~= seq!['/']);
    lemma_numeral(numerator as nat, u32::MAX as nat);
    lemma_numeral(denominator as nat, u32::MAX as nat);
    let a = crate::text::dec(numerator as nat);
    assert forall|k: int| 0 <= k < a.len() implies #[trigger] a[k] != '/' by {
        assert(crate::text::is_digit(a[k]));
    }
    lemma_apart(a, '/', crate::text::dec(denominator as nat));
    lemma_first(a, '/', 0, a.len() as int);
    assert forall|k: int| 0 <= k < a.len() implies #[trigger] a[k] != '.' by {
        assert(crate::text::is_digit(a[k]));
    }
    lemma_first(a, '.', 0, a.len() as int);
}

/// The hexadecimal digit of a number below sixteen.
#[verifier::opaque]
pub open spec fn nibble(n: u8) -> char {
    if n < 10 {
        (48 + n) as char
    } else {
        (87 + n) as char
    }
}

/// The same with capital letters.
#[verifier::opaque]
pub open spec fn capital_nibble(n: u8) -> char {
    if n < 10 {
        (48 + n) as char
    } else {
        (55 + n) as char
    }
}

proof fn lemma_nibble(n: u8)
    requires
        0 <= n < 16,
    ensures
        crate::scene::hex_value(nibble(n)) == Some(n as nat),
        crate::scene::hex_value(capital_nibble(n)) == Some(n as nat),
        nibble(n) as u32 <= 0x7f,
        capital_nibble(n) as u32 <= 0x7f,
{
    reveal(nibble);
    reveal(capital_nibble);
}

/// Two digits that are read as a byte.
#[verifier::opaque]
spec fn spells(hi: char, lo: char, b: u8) -> bool {
    crate::scene::hex_byte(hi, lo) == Some(b) && hi as u32 <= 0x7f && lo as u32 <= 0x7f
}

#[verifier::opaque]
spec fn reads_color(s: Seq<char>, c: Color) -> bool {
    crate::scene::color(s) == Ok::<Color, Seq<char>>(c)
}

proof fn lemma_byte(b: u8)
    ensures
        spells(nibble(b / 16), nibble(b % 16), b),
        spells(capital_nibble(b / 16), capital_nibble(b % 16), b),
{
    reveal(spells);
    lemma_nibble(b / 16);
    lemma_nibble(b % 16);
}

/// The characters of a color after its mark.
pub open spec fn pairs(c: Color, opaque: bool) -> Seq<char> {
    seq![
        nibble(c.r / 16),
        nibble(c.r % 16),
        nibble(c.g / 16),
        nibble(c.g % 16),
        nibble(c.b / 16),
        nibble(c.b % 16),
    ] + if opaque {
        Seq::empty()
    } else {
        seq![nibble(c.a / 16), nibble(c.a % 16)]
    }
}

pub open spec fn capital_pairs(c: Color) -> Seq<char> {
    seq![
        capital_nibble(c.r / 16),
        capital_nibble(c.r % 16),
        capital_nibble(c.g / 16),
        capital_nibble(c.g % 16),
        capital_nibble(c.b / 16),
        capital_nibble(c.b % 16),
        capital_nibble(c.a / 16),
        capital_nibble(c.a % 16),
    ]
}

proof fn lemma_color(h: Seq<char>, c: Color)
    requires
        h.len() == 8 || h.len() == 6 && c.a == 255,
        spells(h[0], h[1], c.r),
        spells(h[2], h[3], c.g),
        spells(h[4], h[5], c.b),
        h.len() == 8 ==> spells(h[6], h[7], c.a),
    ensures
        reads_color(seq!['#'] + h, c),
{
    reveal(spells);
    reveal(reads_color);
    let s = seq!['#'] + h;
    assert(s.drop_first() =~= h);
    assert(s[0] == '#');
    assert forall|i: int| 0 <= i < h.len() implies #[trigger] h[i] as u32 <= 0x7f by {
        assert(i == 0 || i == 1 || i == 2 || i == 3 || i == 4 || i == 5 || i == 6 || i == 7);
    }
    assert(crate::scene::all_ascii(h));
    assert(crate::scene::hex_color(h) == Some(c));
}

proof fn lemma_pairs(c: Color)
    ensures
        reads_color(seq!['#'] + pairs(c, false), c),
{
    let h = pairs(c, false);
    lemma_byte(c.r);
    lemma_byte(c.g);
    lemma_byte(c.b);
    lemma_byte(c.a);
    assert(h.len() == 8);
    assert(h[0] == nibble(c.r / 16));
    assert(h[1] == nibble(c.r % 16));
    assert(h[2] == nibble(c.g / 16));
    assert(h[3] == nibble(c.g % 16));
    assert(h[4] == nibble(c.b / 16));
    assert(h[5] == nibble(c.b % 16));
    assert(h[6] == nibble(c.a / 16));
    assert(h[7] == nibble(c.a % 16));
    lemma_color(h, c);
}

proof fn lemma_capital_pairs(c: Color)
    ensures
        reads_color(seq!['#'] + capital_pairs(c), c),
{
    let h = capital_pairs(c);
    lemma_byte(c.r);
    lemma_byte(c.g);
    lemma_byte(c.b);
    lemma_byte(c.a);
    assert(h.len() == 8);
    assert(h[0] == capital_nibble(c.r / 16));
    assert(h[1] == capital_nibble(c.r % 16));
    assert(h[2] == capital_nibble(c.g / 16));
    assert(h[3] == capital_nibble(c.g % 16));
    assert(h[4] == capital_nibble(c.b / 16));
    assert(h[5] == capital_nibble(c.b % 16));
    assert(h[6] == capital_nibble(c.a / 16));
    assert(h[7] == capital_nibble(c.a % 16));
    lemma_color(h, c);
}

proof fn lemma_opaque_pairs(c: Color)
    ensures
        reads_color(seq!['#'] + pairs(c, true), Color { r: c.r, g: c.g, b: c.b, a: 255 }),
{
    let h = pairs(c, true);
    lemma_byte(c.r);
    lemma_byte(c.g);
    lemma_byte(c.b);
    lemma_byte(c.a);
    assert(h.len() == 6);
    assert(h[0] == nibble(c.r / 16));
    assert(h[1] == nibble(c.r % 16));
    assert(h[2] == nibble(c.g / 16));
    assert(h[3] == nibble(c.g % 16));
    assert(h[4] == nibble(c.b / 16));
    assert(h[5] == nibble(c.b % 16));
    lemma_color(h, Color { r: c.r, g: c.g, b: c.b, a: 255 });
}

/// A color written as `#rrggbbaa` is read as those bytes, in capitals as well;
/// as `#rrggbb` it is opaque.
pub proof fn colors_read_back(c: Color)
    ensures
        crate::scene::color(seq!['#'] + pairs(c, false)) == Ok::<Color, Seq<char>>(c),
        crate::scene::color(seq!['#'] + capital_pairs(c)) == Ok::<Color, Seq<char>>(c),
        crate::scene::color(seq!['#'] + pairs(c, true)) == Ok::<Color, Seq<char>>(
            Color { r: c.r, g: c.g, b: c.b, a: 255 },
        ),
{
    reveal(reads_color);
    lemma_pairs(c);
    lemma_capital_pairs(c);
    lemma_opaque_pairs(c);
}

/// A color written as `#rgb` is the one with each digit written twice.
pub proof fn short_colors_are_doubled(r: char, g: char, b: char)
    ensures
        ({
            let short = crate::scene::color(seq!['#', r, g, b]);
            let long = crate::scene::color(seq!['#', r, r, g, g, b, b]);
            &&& short is Ok <==> long is Ok
            &&& short is Ok ==> short == long
        }),
{
    let s = seq!['#', r, g, b];
    let l = seq!['#', r, r, g, g, b, b];
    let hs = s.drop_first();
    let hl = l.drop_first();
    assert(hs.len() == 3 && hl.len() == 6);
    assert(hs[0] == r && hs[1] == g && hs[2] == b);
    assert(hl[0] == r && hl[1] == r && hl[2] == g && hl[3] == g && hl[4] == b && hl[5] == b);
    assert(crate::scene::hex_color(hs) == crate::scene::hex_color(hl));
    if crate::scene::all_ascii(hs) {
        assert(crate::scene::all_ascii(hl));
    } else {
        assert(!crate::scene::all_ascii(hl)) by {
            if crate::scene::all_ascii(hl) {
                assert(hl[0] as u32 <= 0x7f && hl[2] as u32 <= 0x7f && hl[4] as u32 <= 0x7f);
            }
        }
    }
}

/// The value is `units` of the last of `places` decimal places.
pub open spec fn is_worth(v: NumberView, minus: bool, units: nat, places: int) -> bool {
    v matches NumberView::Finite { negative, mantissa, exponent } && {
        &&& negative == (minus && units > 0)
        &&& mantissa == 0 <==> units == 0
        &&& units > 0 ==> exponent + places >= 0 && mantissa * crate::number::pow10(
            (exponent + places) as nat,
        ) == units
    }
}

proof fn lemma_canonical(negative: bool, units: nat, exponent: int, places: int)
    requires
        exponent + places >= 0,
    ensures
        is_worth(
            crate::number::canonical(negative, units, exponent),
            negative,
            units * crate::number::pow10((exponent + places) as nat),
            places,
        ),
    decreases units,
{
    let k = (exponent + places) as nat;
    let p = crate::number::pow10(k);
    lemma_pow10_positive(k);
    if units == 0 {
        assert(units * p == 0) by (nonlinear_arith)
            requires
                units == 0,
        ;
    } else {
        assert(units * p > 0) by (nonlinear_arith)
            requires
                units > 0,
                p > 0,
        ;
        if units % 10 == 0 {
            lemma_canonical(negative, units / 10, exponent + 1, places);
            assert(crate::number::pow10((k + 1) as nat) == 10 * p);
            assert((units / 10) * (10 * p) == units * p) by (nonlinear_arith)
                requires
                    units % 10 == 0,
            ;
        }
    }
}

proof fn lemma_pow10_positive(n: nat)
    ensures
        crate::number::pow10(n) > 0,
    decreases n,
{
    if n > 0 {
        lemma_pow10_positive((n - 1) as nat);
    }
}

proof fn lemma_digits_run(s: Seq<char>, from: int, end: int)
    requires
        0 <= from <= end <= s.len(),
        forall|k: int| from <= k < end ==> crate::text::is_digit(#[trigger] s[k]),
        end < s.len() ==> !crate::text::is_digit(s[end]),
    ensures
        crate::number::digits_end(s, from) == end,
    decreases end - from,
{
    if from < end {
        assert(crate::text::is_digit(s[from]));
        lemma_digits_run(s, from + 1, end);
    }
}

pub open spec fn sign(minus: bool) -> Seq<char> {
    if minus {
        "-"@
    } else {
        ""@
    }
}

/// A numeral is worth what its digits are, and one with a point that many
/// tenths, hundredths and so on, with its sign.
pub proof fn numbers_are_worth_their_digits(minus: bool, whole: Seq<char>, part: Seq<char>)
    requires
        whole.len() > 0,
        crate::text::all_digits(whole),
        crate::text::all_digits(part),
    ensures
        crate::number::number(sign(minus) + whole) matches Some(v) && is_worth(
            v,
            minus,
            crate::text::dec_value(whole),
            0,
        ),
        crate::number::number(sign(minus) + (whole + "."@ + part)) matches Some(v) && is_worth(
            v,
            minus,
            crate::text::dec_value(whole + part),
            part.len() as int,
        ),
{
    reveal_strlit("-");
    reveal_strlit("");
    reveal_strlit(".");
    let both = whole + "."@ + part;
    lemma_sign(minus, whole);
    assert(both[0] == whole[0]);
    lemma_sign(minus, both);
    assert forall|k: int| 0 <= k < whole.len() implies crate::text::is_digit(#[trigger] whole[k])
        by {}
    lemma_digits_run(whole, 0, whole.len() as int);
    assert(whole.subrange(0, whole.len() as int) + whole.subrange(
        whole.len() as int,
        whole.len() as int,
    ) =~= whole);
    lemma_canonical(minus, crate::text::dec_value(whole), 0, 0);
    let one = crate::number::pow10(0);
    assert(crate::text::dec_value(whole) * one == crate::text::dec_value(whole))
        by (nonlinear_arith)
        requires
            one == 1,
    ;
    let a = whole.len() as int;
    assert forall|k: int| 0 <= k < a implies crate::text::is_digit(#[trigger] both[k]) by {
        assert(both[k] == whole[k]);
    }
    assert(both[a] == '.');
    lemma_digits_run(both, 0, a);
    assert forall|k: int| a + 1 <= k < both.len() implies crate::text::is_digit(
        #[trigger] both[k],
    ) by {
        assert(both[k] == part[k - a - 1]);
    }
    lemma_digits_run(both, a + 1, both.len() as int);
    assert(both.subrange(0, a) + both.subrange(a + 1, both.len() as int) =~= whole + part);
    let units = crate::text::dec_value(whole + part);
    lemma_canonical(minus, units, -(part.len() as int), part.len() as int);
    assert(units * one == units) by (nonlinear_arith)
        requires
            one == 1,
    ;
}

proof fn lemma_sign(minus: bool, s: Seq<char>)
    requires
        s.len() > 0,
        crate::text::is_digit(s[0]),
    ensures
        crate::number::has_minus(sign(minus) + s) == minus,
        crate::number::unsigned_part(sign(minus) + s) == s,
{
    reveal_strlit("-");
    reveal_strlit("");
    let t = sign(minus) + s;
    if minus {
        assert(t[0] == '-');
        assert(t.drop_first() =~= s);
    } else {
        assert(t =~= s);
    }
}

/// A number without blanks around it that ends in a digit.
pub open spec fn is_figure(s: Seq<char>, v: NumberView) -> bool {
    &&& crate::number::number(s) == Some(v)
    &&& s.len() > 0
    &&& !crate::text::is_space(s[0])
    &&& crate::text::is_digit(s.last())
    &&& forall|k: int| 0 <= k < s.len() ==> #[trigger] s[k] != ','
}

proof fn lemma_figure(s: Seq<char>, v: NumberView)
    requires
        is_figure(s, v),
    ensures
        crate::text::trimmed(s) == s,
{
    assert(!crate::text::is_space(s.last()));
}

proof fn lemma_suffix(s: Seq<char>, end: Seq<char>)
    ensures
        crate::text::ends_in(s + end, end),
        (s + end).take(s.len() as int) == s,
{
    let t = s + end;
    assert(t.take(s.len() as int) =~= s);
    assert(t.subrange(s.len() as int, t.len() as int) =~= end);
}

/// `Ns` is read as that many seconds and `Nms` as a thousandth of it; a time
/// below zero, or one that is not finite, is refused.
pub proof fn times_read_back(s: Seq<char>, v: NumberView)
    requires
        is_figure(s, v),
    ensures
        ({
            let seconds = crate::scene::secs(s + "s"@);
            let millis = crate::scene::secs(s + "ms"@);
            let good = v.is_finite() && !v.is_negative();
            &&& good ==> seconds == Ok::<NumberView, Seq<char>>(v)
            &&& good ==> (millis matches Ok(m) && forall|units: nat, places: int|
                #[trigger] is_worth(v, false, units, places) ==> is_worth(
                    m,
                    false,
                    units,
                    places + 3,
                ))
            &&& !good ==> seconds is Err && millis is Err
        }),
{
    reveal_strlit("s");
    reveal_strlit("ms");
    lemma_figure(s, v);
    lemma_suffix(s, "s"@);
    lemma_suffix(s, "ms"@);
    let t = s + "s"@;
    assert(!crate::text::ends_in(t, "ms"@)) by {
        if crate::text::ends_in(t, "ms"@) {
            let tail = t.subrange(t.len() - 2, t.len() as int);
            assert(tail[0] == s.last());
            assert("ms"@[0] == 'm');
        }
    }
}

/// A gain is read the same with and without its unit; one that is not finite
/// is refused.
pub proof fn gains_read_back(s: Seq<char>, v: NumberView)
    requires
        is_figure(s, v),
    ensures
        crate::scene::gain_db(s + "dB"@) is Ok <==> v.is_finite(),
        crate::scene::gain_db(s) is Ok <==> v.is_finite(),
        v.is_finite() ==> crate::scene::gain_db(s + "dB"@) == Ok::<NumberView, Seq<char>>(v),
        v.is_finite() ==> crate::scene::gain_db(s) == Ok::<NumberView, Seq<char>>(v),
{
    reveal_strlit("dB");
    lemma_figure(s, v);
    lemma_suffix(s, "dB"@);
    assert(!crate::text::ends_in(s, "dB"@)) by {
        if crate::text::ends_in(s, "dB"@) {
            let tail = s.subrange(s.len() - 2, s.len() as int);
            assert(tail[1] == s.last());
            assert("dB"@[1] == 'B');
        }
    }
}

/// A point is read with its first number to the right and its second down.
pub proof fn points_read_back(a: Seq<char>, b: Seq<char>, x: NumberView, y: NumberView)
    requires
        is_figure(a, x),
        is_figure(b, y),
    ensures
        crate::scene::placement(a + ","@ + b) == Ok::<PlacementView, Seq<char>>(
            PlacementView::Point { x, y },
        ),
{
    reveal_strlit(",");
    reveal_strlit("center");
    reveal_strlit("top");
    reveal_strlit("bottom");
    reveal_strlit("left");
    reveal_strlit("right");
    assert(","@ =~= seq![',']);
    lemma_figure(a, x);
    lemma_figure(b, y);
    lemma_apart(a, ',', b);
    let s = a + ","@ + b;
    assert(s.last() == b.last());
    assert("center"@.last() == 'r' && "top"@.last() == 'p' && "bottom"@.last() == 'm'
        && "left"@.last() == 't' && "right"@.last() == 't');
}

/// The names of places and of animations.
pub proof fn names_read_back()
    ensures
        crate::scene::placement("center"@) == Ok::<PlacementView, Seq<char>>(
            PlacementView::Named(NamedPlacement::Center),
        ),
        crate::scene::placement("top"@) == Ok::<PlacementView, Seq<char>>(
            PlacementView::Named(NamedPlacement::Top),
        ),
        crate::scene::placement("bottom"@) == Ok::<PlacementView, Seq<char>>(
            PlacementView::Named(NamedPlacement::Bottom),
        ),
        crate::scene::placement("left"@) == Ok::<PlacementView, Seq<char>>(
            PlacementView::Named(NamedPlacement::Left),
        ),
        crate::scene::placement("right"@) == Ok::<PlacementView, Seq<char>>(
            PlacementView::Named(NamedPlacement::Right),
        ),
        crate::scene::anim_kind("rise"@) == Ok::<AnimKind, Seq<char>>(AnimKind::Rise),
        crate::scene::anim_kind("fade"@) == Ok::<AnimKind, Seq<char>>(AnimKind::Fade),
        crate::scene::anim_kind("pop"@) == Ok::<AnimKind, Seq<char>>(AnimKind::Pop),
{
    reveal_strlit("center");
    reveal_strlit("top");
    reveal_strlit("bottom");
    reveal_strlit("left");
    reveal_strlit("right");
    reveal_strlit("rise");
    reveal_strlit("fade");
    reveal_strlit("pop");
    assert("bottom"@[0] == 'b' && "top"@[0] == 't' && "left"@[0] == 'l' && "right"@[0] == 'r'
        && "center"@[0] == 'c');
    assert("rise"@[0] == 'r' && "fade"@[0] == 'f' && "pop"@[0] == 'p');
}

// Order.

proof fn lemma_pow10_sum(a: nat, b: nat)
    ensures
        crate::number::pow10(a + b) == crate::number::pow10(a) * crate::number::pow10(b),
    decreases a,
{
    let q = crate::number::pow10(b);
    if a == 0 {
        assert(1 * q == q);
    } else {
        lemma_pow10_sum((a - 1) as nat, b);
        let p = crate::number::pow10((a - 1) as nat);
        assert((10 * p) * q == 10 * (p * q)) by (nonlinear_arith);
        assert((a + b - 1) as nat == (a - 1) as nat + b);
    }
}

proof fn lemma_magnitudes(m1: nat, e1: int, m2: nat, e2: int, places: int)
    requires
        e1 + places >= 0,
        e2 + places >= 0,
    ensures
        crate::number::magnitude_less(m1, e1, m2, e2) == (m1 * crate::number::pow10(
            (e1 + places) as nat,
        ) < m2 * crate::number::pow10((e2 + places) as nat)),
{
    let base = if e1 <= e2 {
        e1
    } else {
        e2
    };
    let k = (base + places) as nat;
    let a = crate::number::pow10((e1 - base) as nat);
    let b = crate::number::pow10((e2 - base) as nat);
    let q = crate::number::pow10(k);
    lemma_pow10_sum((e1 - base) as nat, k);
    lemma_pow10_sum((e2 - base) as nat, k);
    lemma_pow10_positive(k);
    assert((e1 - base) as nat + k == (e1 + places) as nat);
    assert((e2 - base) as nat + k == (e2 + places) as nat);
    let x = m1 * a;
    let y = m2 * b;
    assert(m1 * (a * q) == x * q) by (nonlinear_arith)
        requires
            x == m1 * a,
    ;
    assert(m2 * (b * q) == y * q) by (nonlinear_arith)
        requires
            y == m2 * b,
    ;
    assert((x < y) == (x * q < y * q)) by (nonlinear_arith)
        requires
            q > 0,
    ;
}

/// The value in units of the last place.
pub open spec fn signed(minus: bool, units: nat) -> int {
    if minus {
        -(units as int)
    } else {
        units as int
    }
}

/// Numbers are compared by their values.
pub proof fn order_is_numeric(
    a: NumberView,
    b: NumberView,
    minus_a: bool,
    minus_b: bool,
    units_a: nat,
    units_b: nat,
    places: int,
)
    requires
        is_worth(a, minus_a, units_a, places),
        is_worth(b, minus_b, units_b, places),
    ensures
        a.less(b) == (signed(minus_a, units_a) < signed(minus_b, units_b)),
        a.is_negative() == (signed(minus_a, units_a) < 0),
{
    match (a, b) {
        (
            NumberView::Finite { mantissa: m1, exponent: e1, .. },
            NumberView::Finite { mantissa: m2, exponent: e2, .. },
        ) => {
            if units_a > 0 && units_b > 0 {
                lemma_magnitudes(m1, e1, m2, e2, places);
                lemma_magnitudes(m2, e2, m1, e1, places);
            } else {
                lemma_no_magnitude(m1, e1, m2, e2);
                lemma_no_magnitude(m2, e2, m1, e1);
            }
        },
        _ => {},
    }
}

proof fn lemma_no_magnitude(m1: nat, e1: int, m2: nat, e2: int)
    requires
        m1 == 0 || m2 == 0,
    ensures
        crate::number::magnitude_less(m1, e1, m2, e2) == (m1 == 0 && m2 > 0),
{
    let base = if e1 <= e2 {
        e1
    } else {
        e2
    };
    let a = crate::number::pow10((e1 - base) as nat);
    let b = crate::number::pow10((e2 - base) as nat);
    lemma_pow10_positive((e1 - base) as nat);
    lemma_pow10_positive((e2 - base) as nat);
    assert(m1 * a >= 0 && m2 * b >= 0 && (m1 == 0 ==> m1 * a == 0) && (m2 == 0 ==> m2 * b == 0)
        && (m2 > 0 ==> m2 * b > 0)) by (nonlinear_arith)
        requires
            a > 0,
            b > 0,
            m1 >= 0,
            m2 >= 0,
    ;
}

/// The value of a finite number in units of a decimal place.
spec fn amount(v: NumberView, places: int) -> int {
    match v {
        NumberView::Finite { negative, mantissa, exponent } => signed(
            negative,
            mantissa * crate::number::pow10((exponent + places) as nat),
        ),
        _ => 0,
    }
}

proof fn lemma_amounts(a: NumberView, b: NumberView, places: int)
    requires
        a matches NumberView::Finite { exponent, .. } && exponent + places >= 0,
        b matches NumberView::Finite { exponent, .. } && exponent + places >= 0,
    ensures
        a.less(b) == (amount(a, places) < amount(b, places)),
{
    match (a, b) {
        (
            NumberView::Finite { mantissa: m1, exponent: e1, .. },
            NumberView::Finite { mantissa: m2, exponent: e2, .. },
        ) => {
            lemma_magnitudes(m1, e1, m2, e2, places);
            lemma_magnitudes(m2, e2, m1, e1, places);
            let p = crate::number::pow10((e1 + places) as nat);
            let q = crate::number::pow10((e2 + places) as nat);
            lemma_pow10_positive((e1 + places) as nat);
            lemma_pow10_positive((e2 + places) as nat);
            assert(m1 * p >= 0 && (m1 > 0 <==> m1 * p > 0)) by (nonlinear_arith)
                requires
                    p > 0,
                    m1 >= 0,
            ;
            assert(m2 * q >= 0 && (m2 > 0 <==> m2 * q > 0)) by (nonlinear_arith)
                requires
                    q > 0,
                    m2 >= 0,
            ;
        },
        _ => {},
    }
}

/// Finite numbers are in order: what is not above one is below all that are
/// above it.
pub proof fn order_is_total(a: NumberView, b: NumberView, c: NumberView)
    requires
        a is Finite,
        b is Finite,
        c is Finite,
    ensures
        !a.less(a),
        a.less(b) ==> !b.less(a),
        a.less(b) && !a.less(c) ==> c.less(b),
{
    let (x, y, z) = (a->exponent, b->exponent, c->exponent);
    let low = if x <= y && x <= z {
        x
    } else if y <= z {
        y
    } else {
        z
    };
    lemma_amounts(a, a, -low);
    lemma_amounts(a, b, -low);
    lemma_amounts(b, a, -low);
    lemma_amounts(a, c, -low);
    lemma_amounts(c, b, -low);
}

} // verus!
