//! Authored numbers: exact decimals read from text.
//!
//! A number in a document keeps its exact decimal value. Two spellings of one
//! value (`2`, `2.0`, `0.2e1`) are the same number.

use vstd::prelude::*;
use vstd::slice::{slice_subrange, slice_to_vec};

use crate::text::{chars_of, digit, parse_unsigned, string_of};

verus! {

/// What a numeral denotes: not a number, an infinity, or
/// `mantissa * 10^exponent` with the sign folded in. A finite value has one
/// representation: the mantissa is a multiple of ten only when it is zero.
pub enum NumberView {
    Nan,
    Infinite { negative: bool },
    Finite { negative: bool, mantissa: nat, exponent: int },
}

pub open spec fn pow10(n: nat) -> nat
    decreases n,
{
    if n == 0 {
        1
    } else {
        10 * pow10((n - 1) as nat)
    }
}

/// The one representation of `mantissa * 10^exponent`.
pub open spec fn canonical(negative: bool, mantissa: nat, exponent: int) -> NumberView
    decreases mantissa,
{
    if mantissa == 0 {
        NumberView::Finite { negative: false, mantissa: 0, exponent: 0 }
    } else if mantissa % 10 == 0 {
        canonical(negative, mantissa / 10, exponent + 1)
    } else {
        NumberView::Finite { negative, mantissa, exponent }
    }
}

/// The first position at or after `from` that holds no digit.
pub open spec fn digits_end(s: Seq<char>, from: int) -> int
    decreases s.len() - from,
{
    if 0 <= from < s.len() && crate::text::is_digit(s[from]) {
        digits_end(s, from + 1)
    } else {
        from
    }
}

pub open spec fn lower_char(c: char) -> char {
    if 'A' <= c <= 'Z' {
        (c as u32 + 32) as char
    } else {
        c
    }
}

/// Whether `s` spells `word`, letters of either case counting as equal.
/// `word` is in lower case.
pub open spec fn spells_word(s: Seq<char>, word: Seq<char>) -> bool {
    &&& s.len() == word.len()
    &&& forall|i: int| 0 <= i < s.len() ==> lower_char(#[trigger] s[i]) == word[i]
}

/// A leading sign, taken off.
pub open spec fn unsigned_part(s: Seq<char>) -> Seq<char> {
    if s.len() > 0 && (s[0] == '+' || s[0] == '-') {
        s.drop_first()
    } else {
        s
    }
}

pub open spec fn has_minus(s: Seq<char>) -> bool {
    s.len() > 0 && s[0] == '-'
}

/// Exponents are capped here: far outside what a finite double can hold.
pub const EXPONENT_CAP: u64 = 1_000_000_000_000_000;

/// No exponent read from a text is larger than this.
pub const PARSED_EXPONENT: i128 = 0x10_0000_0000_0000_0000;

/// The exponent after an `e`: an optional sign and at least one digit.
pub open spec fn exponent_value(s: Seq<char>) -> Option<int> {
    let d = unsigned_part(s);
    if d.len() == 0 || !crate::text::all_digits(d) {
        None
    } else {
        let v = crate::text::dec_value(d);
        let capped: int = if v <= EXPONENT_CAP {
            v as int
        } else {
            EXPONENT_CAP as int
        };
        Some(
            if has_minus(s) {
                -capped
            } else {
                capped
            },
        )
    }
}

/// A decimal without its sign: digits with at most one point among or around
/// them, then an optional exponent.
pub open spec fn decimal(negative: bool, s: Seq<char>) -> Option<NumberView> {
    let a = digits_end(s, 0);
    let point = a < s.len() && s[a] == '.';
    let b = if point {
        a + 1
    } else {
        a
    };
    let c = if point {
        digits_end(s, b)
    } else {
        a
    };
    let digits = s.subrange(0, a) + s.subrange(b, c);
    let fraction = c - b;
    if digits.len() == 0 {
        None
    } else if c == s.len() {
        Some(canonical(negative, crate::text::dec_value(digits), -fraction))
    } else if s[c] == 'e' || s[c] == 'E' {
        match exponent_value(s.skip(c + 1)) {
            Some(e) => Some(canonical(negative, crate::text::dec_value(digits), e - fraction)),
            None => None,
        }
    } else {
        None
    }
}

/// The number that a whole text spells: an optional sign, then a decimal,
/// `inf`, `infinity` or `nan` in any case.
pub open spec fn number(s: Seq<char>) -> Option<NumberView> {
    let negative = has_minus(s);
    let body = unsigned_part(s);
    match decimal(negative, body) {
        Some(v) => Some(v),
        None => if spells_word(body, "nan"@) {
            Some(NumberView::Nan)
        } else if spells_word(body, "inf"@) || spells_word(body, "infinity"@) {
            Some(NumberView::Infinite { negative })
        } else {
            None
        },
    }
}

/// `m1 * 10^e1 < m2 * 10^e2`.
pub open spec fn magnitude_less(m1: nat, e1: int, m2: nat, e2: int) -> bool {
    let base = if e1 <= e2 {
        e1
    } else {
        e2
    };
    m1 * pow10((e1 - base) as nat) < m2 * pow10((e2 - base) as nat)
}

/// The magnitude from which on a decimal reads as infinite in double
/// precision: `2^1024 - 2^970`.
pub open spec fn double_limit() -> nat {
    crate::text::dec_value("179769313486231580793728971405303415079934132710037826936173778980444968292764750946649017977587207096330286416692887910946555547851940402630657488671505820681908902000708383676273854845817711531764475730270069855571366959622842914819860834936475292719074168444365510704342711559699508093042880177904174497792"@)
}

impl NumberView {
    /// A finite value that double precision does not round to an infinity.
    pub open spec fn is_finite(self) -> bool {
        match self {
            NumberView::Finite { mantissa, exponent, .. } => magnitude_less(
                mantissa,
                exponent,
                double_limit(),
                0,
            ),
            _ => false,
        }
    }

    /// Strictly below zero.
    pub open spec fn is_negative(self) -> bool {
        match self {
            NumberView::Finite { negative, mantissa, .. } => negative && mantissa > 0,
            NumberView::Infinite { negative } => negative,
            NumberView::Nan => false,
        }
    }

    /// The numeric order; false wherever a value is not a number.
    pub open spec fn less(self, other: NumberView) -> bool {
        match (self, other) {
            (NumberView::Nan, _) => false,
            (_, NumberView::Nan) => false,
            (NumberView::Infinite { negative: n1 }, NumberView::Infinite { negative: n2 }) => n1
                && !n2,
            (NumberView::Infinite { negative: n1 }, NumberView::Finite { .. }) => n1,
            (NumberView::Finite { .. }, NumberView::Infinite { negative: n2 }) => !n2,
            (
                NumberView::Finite { negative: n1, mantissa: m1, exponent: e1 },
                NumberView::Finite { negative: n2, mantissa: m2, exponent: e2 },
            ) => if n1 && m1 > 0 {
                if n2 && m2 > 0 {
                    magnitude_less(m2, e2, m1, e1)
                } else {
                    true
                }
            } else if n2 && m2 > 0 {
                false
            } else {
                magnitude_less(m1, e1, m2, e2)
            },
        }
    }

    /// Divided by one thousand.
    pub open spec fn per_mille(self) -> NumberView {
        match self {
            NumberView::Finite { negative, mantissa, exponent } => if mantissa == 0 {
                self
            } else {
                NumberView::Finite { negative, mantissa, exponent: exponent - 3 }
            },
            _ => self,
        }
    }

    /// An exponent of at most `k` either way.
    pub open spec fn within(self, k: int) -> bool {
        self matches NumberView::Finite { exponent, .. } ==> -k <= exponent <= k
    }

    /// The same magnitude with the sign given.
    pub open spec fn with_sign(self, minus: bool) -> NumberView {
        match self {
            NumberView::Finite { mantissa, exponent, .. } => NumberView::Finite {
                negative: minus && mantissa > 0,
                mantissa,
                exponent,
            },
            NumberView::Infinite { .. } => NumberView::Infinite { negative: minus },
            NumberView::Nan => NumberView::Nan,
        }
    }
}

/// A finite decimal: digits without a leading zero, read as an integer and
/// scaled by a power of ten.
#[derive(Debug, PartialEq, Eq)]
pub struct Decimal {
    negative: bool,
    digits: Vec<char>,
    exponent: i128,
}

impl Decimal {
    #[verifier::type_invariant]
    pub closed spec fn wf(self) -> bool {
        &&& crate::text::all_digits(self.digits@)
        &&& self.digits@.len() > 0 ==> self.digits@[0] != '0'
        &&& -0x4000_0000_0000_0000_0000_0000 <= self.exponent <= 0x4000_0000_0000_0000_0000_0000
    }

    pub closed spec fn view(&self) -> NumberView {
        NumberView::Finite {
            negative: self.negative,
            mantissa: crate::text::dec_value(self.digits@),
            exponent: self.exponent as int,
        }
    }
}

/// A number read from text.
#[derive(Debug, PartialEq, Eq)]
pub enum Number {
    Nan,
    Infinite { negative: bool },
    Finite(Decimal),
}

impl View for Number {
    type V = NumberView;

    open spec fn view(&self) -> NumberView {
        match self {
            Number::Nan => NumberView::Nan,
            Number::Infinite { negative } => NumberView::Infinite { negative: *negative },
            Number::Finite(d) => d.view(),
        }
    }
}

impl Clone for Decimal {
    fn clone(&self) -> (r: Self)
        ensures
            r@ == self@,
    {
        proof {
            use_type_invariant(self);
        }
        Decimal {
            negative: self.negative,
            digits: slice_to_vec(self.digits.as_slice()),
            exponent: self.exponent,
        }
    }
}

impl Clone for Number {
    fn clone(&self) -> (r: Self)
        ensures
            r@ == self@,
    {
        match self {
            Number::Nan => Number::Nan,
            Number::Infinite { negative } => Number::Infinite { negative: *negative },
            Number::Finite(d) => Number::Finite(d.clone()),
        }
    }
}

proof fn lemma_dec_value_leading_zero(s: Seq<char>)
    requires
        s.len() > 0,
        s[0] == '0',
    ensures
        crate::text::dec_value(s.drop_first()) == crate::text::dec_value(s),
    decreases s.len(),
{
    if s.len() == 1 {
        assert(s.drop_first() =~= Seq::<char>::empty());
        assert(s.drop_last() =~= Seq::<char>::empty());
        assert(crate::text::dec_value(s.drop_last()) == 0);
    } else {
        lemma_dec_value_leading_zero(s.drop_last());
        assert(s.drop_first().drop_last() =~= s.drop_last().drop_first());
    }
}

proof fn lemma_digits_end(s: Seq<char>, from: int)
    requires
        0 <= from <= s.len(),
    ensures
        from <= digits_end(s, from) <= s.len(),
        forall|i: int| from <= i < digits_end(s, from) ==> crate::text::is_digit(#[trigger] s[i]),
    decreases s.len() - from,
{
    if from < s.len() && crate::text::is_digit(s[from]) {
        lemma_digits_end(s, from + 1);
    }
}

pub fn digit_run(cs: &[char], from: usize) -> (r: usize)
    requires
        from <= cs@.len(),
    ensures
        r == digits_end(cs@, from as int),
        from <= r <= cs@.len(),
{
    let mut i: usize = from;
    while i < cs.len() && digit(cs[i])
        invariant
            from <= i <= cs@.len(),
            digits_end(cs@, from as int) == digits_end(cs@, i as int),
        decreases cs@.len() - i,
    {
        i = i + 1;
    }
    i
}

fn word(cs: &[char], w: &str) -> (r: bool)
    ensures
        r == spells_word(cs@, w@),
{
    let ws = chars_of(w);
    if cs.len() != ws.len() {
        return false;
    }
    let mut i: usize = 0;
    while i < cs.len()
        invariant
            i <= cs@.len(),
            cs@.len() == ws@.len(),
            ws@ == w@,
            forall|k: int| 0 <= k < i ==> lower_char(#[trigger] cs@[k]) == ws@[k],
        decreases cs@.len() - i,
    {
        if lower(cs[i]) != ws[i] {
            return false;
        }
        i = i + 1;
    }
    true
}

pub fn lower(c: char) -> (r: char)
    ensures
        r == lower_char(c),
{
    if 'A' <= c && c <= 'Z' {
        (c as u8 + 32) as char
    } else {
        c
    }
}

/// Trim the digits to their one representation.
fn normalize(negative: bool, digits: Vec<char>, exponent: i128) -> (r: Number)
    requires
        crate::text::all_digits(digits@),
        digits@.len() <= 0x2_0000_0000_0000_0000,
        -0x2_0000_0000_0000_0000_0000 <= exponent <= 0x2_0000_0000_0000_0000_0000,
    ensures
        r@ == canonical(negative, crate::text::dec_value(digits@), exponent as int),
        r@ matches NumberView::Finite { exponent: e, .. } && (e == 0 || exponent <= e <= exponent
            + digits@.len()),
{
    let mut e: i128 = exponent;
    let mut j: usize = digits.len();
    assert(digits@.take(j as int) =~= digits@);
    let mut i: usize = 0;
    assert(digits@.subrange(i as int, j as int) =~= digits@);
    while i < j && digits[i] == '0'
        invariant
            i <= j == digits@.len(),
            crate::text::dec_value(digits@.subrange(i as int, j as int))
                == crate::text::dec_value(digits@),
        decreases j - i,
    {
        proof {
            lemma_dec_value_leading_zero(digits@.subrange(i as int, j as int));
            assert(digits@.subrange(i as int, j as int).drop_first() =~= digits@.subrange(
                i + 1,
                j as int,
            ));
        }
        i = i + 1;
    }
    if i == j {
        assert(crate::text::dec_value(digits@.subrange(i as int, j as int)) == 0);
        return Number::Finite(Decimal { negative: false, digits: Vec::new(), exponent: 0 });
    }
    while digits[j - 1] == '0'
        invariant
            i < j <= digits@.len(),
            digits@.len() <= 0x2_0000_0000_0000_0000,
            digits@[i as int] != '0',
            crate::text::all_digits(digits@),
            exponent <= e <= exponent + (digits@.len() - j),
            -0x2_0000_0000_0000_0000_0000 <= exponent <= 0x2_0000_0000_0000_0000_0000,
            canonical(
                negative,
                crate::text::dec_value(digits@.subrange(i as int, j as int)),
                e as int,
            ) == canonical(negative, crate::text::dec_value(digits@), exponent as int),
        decreases j,
    {
        proof {
            let d = digits@.subrange(i as int, j as int);
            assert(d.drop_last() =~= digits@.subrange(i as int, j - 1));
            assert(d.last() == '0');
            let m = crate::text::dec_value(d);
            lemma_dec_value_positive(d.drop_last());
            assert(m == crate::text::dec_value(d.drop_last()) * 10);
            assert(canonical(negative, m, e as int) == canonical(negative, m / 10, e + 1));
        }
        j = j - 1;
        e = e + 1;
    }
    let kept = slice_to_vec(slice_subrange(digits.as_slice(), i, j));
    proof {
        let d = digits@.subrange(i as int, j as int);
        assert(kept@ =~= d);
        lemma_dec_value_positive(d);
        assert(d.last() == digits@[j - 1]);
        assert(crate::text::is_digit(digits@[j - 1]));
        assert(crate::text::dec_value(d) % 10 == crate::text::digit_value(d.last()));
        assert forall|k: int| 0 <= k < d.len() implies crate::text::is_digit(#[trigger] d[k]) by {
            assert(d[k] == digits@[i + k]);
        }
    }
    Number::Finite(Decimal { negative, digits: kept, exponent: e })
}

/// Digits that start with a nonzero one spell a positive number.
proof fn lemma_dec_value_positive(s: Seq<char>)
    requires
        s.len() > 0,
        crate::text::all_digits(s),
        s[0] != '0',
    ensures
        crate::text::dec_value(s) > 0,
    decreases s.len(),
{
    if s.len() > 1 {
        lemma_dec_value_positive(s.drop_last());
    } else {
        assert(crate::text::is_digit(s[0]));
    }
}

fn only_digits(cs: &[char]) -> (r: bool)
    ensures
        r == crate::text::all_digits(cs@),
{
    let mut i: usize = 0;
    while i < cs.len()
        invariant
            i <= cs@.len(),
            forall|k: int| 0 <= k < i ==> crate::text::is_digit(#[trigger] cs@[k]),
        decreases cs@.len() - i,
    {
        if !digit(cs[i]) {
            return false;
        }
        i = i + 1;
    }
    true
}

fn exponent(cs: &[char]) -> (r: Option<i128>)
    ensures
        match r {
            Some(e) => exponent_value(cs@) == Some(e as int) && -EXPONENT_CAP <= e <= EXPONENT_CAP,
            None => exponent_value(cs@) is None,
        },
{
    let minus = cs.len() > 0 && cs[0] == '-';
    let start: usize = if cs.len() > 0 && (cs[0] == '+' || cs[0] == '-') {
        1
    } else {
        0
    };
    let d = slice_subrange(cs, start, cs.len());
    assert(d@ =~= unsigned_part(cs@));
    if d.len() == 0 || !only_digits(d) {
        return None;
    }
    proof {
        assert(crate::text::is_digit(d@[0]));
        assert(crate::text::unsigned_digits(d@) == d@);
    }
    let v: i128 = match parse_unsigned(d, EXPONENT_CAP) {
        Some(v) => v as i128,
        None => EXPONENT_CAP as i128,
    };
    Some(
        if minus {
            -v
        } else {
            v
        },
    )
}

fn parse_decimal(negative: bool, cs: &[char]) -> (r: Option<Number>)
    ensures
        match r {
            Some(n) => decimal(negative, cs@) == Some(n@) && n@.within(PARSED_EXPONENT as int),
            None => decimal(negative, cs@) is None,
        },
{
    let a = digit_run(cs, 0);
    let point = a < cs.len() && cs[a] == '.';
    let b: usize = if point {
        a + 1
    } else {
        a
    };
    let c: usize = if point {
        digit_run(cs, b)
    } else {
        a
    };
    let ghost digits = cs@.subrange(0, a as int) + cs@.subrange(b as int, c as int);
    let mut d = slice_to_vec(slice_subrange(cs, 0, a));
    let mut f = slice_to_vec(slice_subrange(cs, b, c));
    d.append(&mut f);
    proof {
        assert(d@ == digits);
        lemma_digits_end(cs@, 0);
        if point {
            lemma_digits_end(cs@, b as int);
        }
        assert forall|i: int| 0 <= i < d@.len() implies crate::text::is_digit(#[trigger] d@[i]) by {
            if i < a {
                assert(d@[i] == cs@[i]);
            } else {
                assert(d@[i] == cs@[b + (i - a)]);
            }
        }
    }
    if d.len() == 0 {
        return None;
    }
    let fraction: i128 = (c - b) as i128;
    if c == cs.len() {
        return Some(normalize(negative, d, -fraction));
    }
    if cs[c] == 'e' || cs[c] == 'E' {
        let rest = slice_subrange(cs, c + 1, cs.len());
        assert(rest@ =~= cs@.skip(c + 1));
        match exponent(rest) {
            Some(e) => Some(normalize(negative, d, e - fraction)),
            None => None,
        }
    } else {
        None
    }
}

impl Number {
    pub fn zero() -> (r: Number)
        ensures
            r@ == (NumberView::Finite { negative: false, mantissa: 0, exponent: 0 }),
    {
        Number::Finite(Decimal { negative: false, digits: Vec::new(), exponent: 0 })
    }

    /// The number that the whole text spells.
    pub fn parse(s: &str) -> (r: Option<Number>)
        ensures
            match r {
                Some(n) => number(s@) == Some(n@),
                None => number(s@) is None,
            },
    {
        let cs = chars_of(s);
        Number::from_chars(cs.as_slice())
    }

    pub fn from_chars(cs: &[char]) -> (r: Option<Number>)
        ensures
            match r {
                Some(n) => number(cs@) == Some(n@) && n@.within(PARSED_EXPONENT as int),
                None => number(cs@) is None,
            },
    {
        let negative = cs.len() > 0 && cs[0] == '-';
        let start: usize = if cs.len() > 0 && (cs[0] == '+' || cs[0] == '-') {
            1
        } else {
            0
        };
        let body = slice_subrange(cs, start, cs.len());
        assert(body@ =~= unsigned_part(cs@));
        match parse_decimal(negative, body) {
            Some(n) => Some(n),
            None => if word(body, "nan") {
                Some(Number::Nan)
            } else if word(body, "inf") || word(body, "infinity") {
                Some(Number::Infinite { negative })
            } else {
                None
            },
        }
    }

    /// The sign, the digits of the mantissa and the exponent of a finite
    /// number.
    pub fn parts(&self) -> (r: Option<(bool, String, i128)>)
        ensures
            match r {
                Some(p) => self@ == (NumberView::Finite {
                    negative: p.0,
                    mantissa: crate::text::dec_value(p.1@),
                    exponent: p.2 as int,
                }),
                None => !(self@ is Finite),
            },
    {
        match self {
            Number::Finite(d) => Some((d.negative, string_of(d.digits.as_slice()), d.exponent)),
            _ => None,
        }
    }

    pub fn with_sign(&self, minus: bool) -> (r: Number)
        ensures
            r@ == self@.with_sign(minus),
    {
        match self {
            Number::Nan => Number::Nan,
            Number::Infinite { .. } => Number::Infinite { negative: minus },
            Number::Finite(d) => {
                proof {
                    use_type_invariant(d);
                    if d.digits@.len() > 0 {
                        lemma_dec_value_positive(d.digits@);
                    }
                }
                Number::Finite(
                    Decimal {
                        negative: minus && d.digits.len() > 0,
                        digits: slice_to_vec(d.digits.as_slice()),
                        exponent: d.exponent,
                    },
                )
            },
        }
    }

    pub fn is_negative(&self) -> (r: bool)
        ensures
            r == self@.is_negative(),
    {
        match self {
            Number::Nan => false,
            Number::Infinite { negative } => *negative,
            Number::Finite(d) => {
                proof {
                    use_type_invariant(d);
                    if d.digits@.len() > 0 {
                        lemma_dec_value_positive(d.digits@);
                    }
                }
                d.negative && d.digits.len() > 0
            },
        }
    }
}

proof fn lemma_pow10_add(a: nat, b: nat)
    ensures
        pow10(a + b) == pow10(a) * pow10(b),
        pow10(a) > 0,
    decreases a,
{
    if a > 0 {
        lemma_pow10_add((a - 1) as nat, b);
        let p = pow10((a - 1) as nat);
        let q = pow10(b);
        assert(10 * (p * q) == (10 * p) * q) by (nonlinear_arith);
        assert((a - 1) + b == (a + b) - 1);
    } else {
        assert(pow10(0) == 1);
        assert(1 * pow10(b) == pow10(b));
    }
}

proof fn lemma_dec_value_bounds(d: Seq<char>)
    requires
        crate::text::all_digits(d),
    ensures
        crate::text::dec_value(d) < pow10(d.len()),
        d.len() > 0 && d[0] != '0' ==> pow10((d.len() - 1) as nat) <= crate::text::dec_value(d),
    decreases d.len(),
{
    if d.len() > 0 {
        let p = d.drop_last();
        lemma_dec_value_bounds(p);
        assert(crate::text::is_digit(d.last()));
        if p.len() > 0 {
            assert(p[0] == d[0]);
        } else {
            assert(d.last() == d[0]);
            assert(pow10(0) == 1);
        }
    }
}

spec fn zeros(k: nat) -> Seq<char> {
    Seq::new(k, |i: int| '0')
}

proof fn lemma_dec_value_pad(d: Seq<char>, k: nat)
    ensures
        crate::text::dec_value(d + zeros(k)) == crate::text::dec_value(d) * pow10(k),
    decreases k,
{
    if k == 0 {
        assert(d + zeros(k) =~= d);
        assert(pow10(0) == 1);
    } else {
        lemma_dec_value_pad(d, (k - 1) as nat);
        assert((d + zeros(k)).drop_last() =~= d + zeros((k - 1) as nat));
        let v = crate::text::dec_value(d);
        let p = pow10((k - 1) as nat);
        assert((v * p) * 10 == v * (10 * p)) by (nonlinear_arith);
    }
}

proof fn lemma_dec_value_first_difference(a: Seq<char>, b: Seq<char>, i: int)
    requires
        crate::text::all_digits(a),
        crate::text::all_digits(b),
        a.len() == b.len(),
        0 <= i < a.len(),
        a.take(i) == b.take(i),
        a[i] < b[i],
    ensures
        crate::text::dec_value(a) < crate::text::dec_value(b),
    decreases a.len(),
{
    assert(crate::text::is_digit(a.last()));
    assert(crate::text::is_digit(b.last()));
    if i == a.len() - 1 {
        assert(a.drop_last() =~= a.take(i));
        assert(b.drop_last() =~= b.take(i));
    } else {
        assert(a.drop_last().take(i) =~= a.take(i));
        assert(b.drop_last().take(i) =~= b.take(i));
        lemma_dec_value_first_difference(a.drop_last(), b.drop_last(), i);
    }
}

/// Lexicographic order of digit runs of one length.
fn digits_below(a: &[char], b: &[char]) -> (r: bool)
    requires
        crate::text::all_digits(a@),
        crate::text::all_digits(b@),
        a@.len() == b@.len(),
    ensures
        r == (crate::text::dec_value(a@) < crate::text::dec_value(b@)),
{
    let mut i: usize = 0;
    while i < a.len()
        invariant
            i <= a@.len() == b@.len(),
            crate::text::all_digits(a@),
            crate::text::all_digits(b@),
            a@.take(i as int) == b@.take(i as int),
        decreases a@.len() - i,
    {
        if a[i] < b[i] {
            proof {
                lemma_dec_value_first_difference(a@, b@, i as int);
            }
            return true;
        }
        if b[i] < a[i] {
            proof {
                lemma_dec_value_first_difference(b@, a@, i as int);
            }
            return false;
        }
        assert(a@.take(i + 1) =~= a@.take(i as int).push(a@[i as int]));
        assert(b@.take(i + 1) =~= b@.take(i as int).push(b@[i as int]));
        i = i + 1;
    }
    assert(a@.take(a@.len() as int) =~= a@);
    assert(b@.take(b@.len() as int) =~= b@);
    false
}

fn padded(d: &[char], n: usize) -> (r: Vec<char>)
    requires
        d@.len() <= n,
        crate::text::all_digits(d@),
    ensures
        r@ == d@ + zeros((n - d@.len()) as nat),
        crate::text::all_digits(r@),
{
    let mut out = slice_to_vec(d);
    while out.len() < n
        invariant
            d@.len() <= out@.len() <= n,
            out@ == d@ + zeros((out@.len() - d@.len()) as nat),
            crate::text::all_digits(out@),
        decreases n - out@.len(),
    {
        let ghost before = out@;
        out.push('0');
        assert(out@ =~= d@ + zeros((out@.len() - d@.len()) as nat));
        assert forall|i: int| 0 <= i < out@.len() implies crate::text::is_digit(
            #[trigger] out@[i],
        ) by {
            if i < before.len() {
                assert(out@[i] == before[i]);
            }
        }
    }
    assert(out@ =~= d@ + zeros((n - d@.len()) as nat));
    out
}

/// Decimals of different orders of magnitude compare by their orders.
proof fn lemma_magnitude_by_order(d1: Seq<char>, e1: int, d2: Seq<char>, e2: int)
    requires
        crate::text::all_digits(d1),
        crate::text::all_digits(d2),
        d2.len() > 0,
        d2[0] != '0',
        d1.len() + e1 < d2.len() + e2,
    ensures
        magnitude_less(crate::text::dec_value(d1), e1, crate::text::dec_value(d2), e2),
{
    let m1 = crate::text::dec_value(d1);
    let m2 = crate::text::dec_value(d2);
    lemma_dec_value_bounds(d1);
    lemma_dec_value_bounds(d2);
    let base = if e1 <= e2 {
        e1
    } else {
        e2
    };
    let k1 = (e1 - base) as nat;
    let k2 = (e2 - base) as nat;
    lemma_pow10_add(d1.len(), k1);
    lemma_pow10_add((d2.len() - 1) as nat, k2);
    lemma_pow10_add(k1, 0);
    lemma_pow10_add(k2, 0);
    let gap = ((d2.len() - 1) + k2) - (d1.len() + k1);
    lemma_pow10_add((d1.len() + k1) as nat, gap as nat);
    lemma_pow10_add(gap as nat, 0);
    assert((d1.len() + k1) + gap == (d2.len() - 1) + k2);
    let p1 = pow10(k1);
    let p2 = pow10(k2);
    let t1 = pow10(d1.len());
    let t2 = pow10((d2.len() - 1) as nat);
    let g = pow10(gap as nat);
    assert(m1 * p1 < t1 * p1) by (nonlinear_arith)
        requires
            m1 < t1,
            p1 > 0,
    ;
    assert(t1 * p1 <= (t1 * p1) * g) by (nonlinear_arith)
        requires
            g >= 1,
            t1 * p1 >= 0,
    ;
    assert(t2 * p2 <= m2 * p2) by (nonlinear_arith)
        requires
            t2 <= m2,
    ;
}

/// A positive decimal of a larger order is not below one of a smaller order.
proof fn lemma_magnitude_asymmetric(m1: nat, e1: int, m2: nat, e2: int)
    requires
        magnitude_less(m1, e1, m2, e2),
    ensures
        !magnitude_less(m2, e2, m1, e1),
{
}

fn magnitude_below(d1: &[char], e1: i128, d2: &[char], e2: i128) -> (r: bool)
    requires
        crate::text::all_digits(d1@),
        crate::text::all_digits(d2@),
        d1@.len() > 0 ==> d1@[0] != '0',
        d2@.len() > 0 ==> d2@[0] != '0',
        -0x4000_0000_0000_0000_0000_0000 <= e1 <= 0x4000_0000_0000_0000_0000_0000,
        -0x4000_0000_0000_0000_0000_0000 <= e2 <= 0x4000_0000_0000_0000_0000_0000,
    ensures
        r == magnitude_less(
            crate::text::dec_value(d1@),
            e1 as int,
            crate::text::dec_value(d2@),
            e2 as int,
        ),
{
    let ghost m1 = crate::text::dec_value(d1@);
    let ghost m2 = crate::text::dec_value(d2@);
    let ghost base = if e1 <= e2 {
        e1 as int
    } else {
        e2 as int
    };
    proof {
        lemma_pow10_add((e1 - base) as nat, 0);
        lemma_pow10_add((e2 - base) as nat, 0);
        let p1 = pow10((e1 - base) as nat);
        let p2 = pow10((e2 - base) as nat);
        if d1@.len() > 0 {
            lemma_dec_value_positive(d1@);
            assert(m1 * p1 > 0) by (nonlinear_arith)
                requires
                    m1 > 0,
                    p1 > 0,
            ;
        } else {
            assert(0 * p1 == 0);
        }
        if d2@.len() > 0 {
            lemma_dec_value_positive(d2@);
            assert(m2 * p2 > 0) by (nonlinear_arith)
                requires
                    m2 > 0,
                    p2 > 0,
            ;
        } else {
            assert(0 * p2 == 0);
        }
    }
    if d2.len() == 0 {
        return false;
    }
    if d1.len() == 0 {
        return true;
    }
    let o1: i128 = d1.len() as i128 + e1;
    let o2: i128 = d2.len() as i128 + e2;
    if o1 < o2 {
        proof {
            lemma_magnitude_by_order(d1@, e1 as int, d2@, e2 as int);
        }
        return true;
    }
    if o2 < o1 {
        proof {
            lemma_magnitude_by_order(d2@, e2 as int, d1@, e1 as int);
            lemma_magnitude_asymmetric(m2, e2 as int, m1, e1 as int);
        }
        return false;
    }
    if d1.len() <= d2.len() {
        let a = padded(d1, d2.len());
        proof {
            lemma_dec_value_pad(d1@, (d2@.len() - d1@.len()) as nat);
            assert(base == e2);
            assert((e1 - base) as nat == (d2@.len() - d1@.len()) as nat);
            assert((e2 - base) as nat == 0);
            assert(m2 * pow10(0) == m2) by (nonlinear_arith)
                requires
                    pow10(0) == 1,
            ;
        }
        digits_below(a.as_slice(), d2)
    } else {
        let b = padded(d2, d1.len());
        proof {
            lemma_dec_value_pad(d2@, (d1@.len() - d2@.len()) as nat);
            assert(base == e1);
            assert((e2 - base) as nat == (d1@.len() - d2@.len()) as nat);
            assert((e1 - base) as nat == 0);
            assert(m1 * pow10(0) == m1) by (nonlinear_arith)
                requires
                    pow10(0) == 1,
            ;
        }
        digits_below(d1, b.as_slice())
    }
}

impl Decimal {
    fn magnitude_below(&self, other: &Decimal) -> (r: bool)
        ensures
            r == (match (self@, other@) {
                (
                    NumberView::Finite { mantissa: m1, exponent: e1, .. },
                    NumberView::Finite { mantissa: m2, exponent: e2, .. },
                ) => magnitude_less(m1, e1, m2, e2),
                _ => false,
            }),
    {
        proof {
            use_type_invariant(self);
            use_type_invariant(other);
        }
        magnitude_below(
            self.digits.as_slice(),
            self.exponent,
            other.digits.as_slice(),
            other.exponent,
        )
    }
}

impl Number {
    /// The numeric order.
    pub fn less(&self, other: &Number) -> (r: bool)
        ensures
            r == self@.less(other@),
    {
        match (self, other) {
            (Number::Nan, _) => false,
            (_, Number::Nan) => false,
            (Number::Infinite { negative: n1 }, Number::Infinite { negative: n2 }) => *n1 && !*n2,
            (Number::Infinite { negative: n1 }, Number::Finite(_)) => *n1,
            (Number::Finite(_), Number::Infinite { negative: n2 }) => !*n2,
            (Number::Finite(a), Number::Finite(b)) => {
                if self.is_negative() {
                    if other.is_negative() {
                        b.magnitude_below(a)
                    } else {
                        true
                    }
                } else if other.is_negative() {
                    false
                } else {
                    a.magnitude_below(b)
                }
            },
        }
    }

    /// A finite value that double precision does not round to an infinity.
    pub fn is_finite(&self) -> (r: bool)
        ensures
            r == self@.is_finite(),
    {
        match self {
            Number::Finite(d) => {
                proof {
                    use_type_invariant(d);
                }
                let limit = chars_of("179769313486231580793728971405303415079934132710037826936173778980444968292764750946649017977587207096330286416692887910946555547851940402630657488671505820681908902000708383676273854845817711531764475730270069855571366959622842914819860834936475292719074168444365510704342711559699508093042880177904174497792");
                assert(crate::text::all_digits(limit@) && limit@[0] != '0') by {
                    reveal_strlit("179769313486231580793728971405303415079934132710037826936173778980444968292764750946649017977587207096330286416692887910946555547851940402630657488671505820681908902000708383676273854845817711531764475730270069855571366959622842914819860834936475292719074168444365510704342711559699508093042880177904174497792");
                }
                magnitude_below(d.digits.as_slice(), d.exponent, limit.as_slice(), 0)
            },
            _ => false,
        }
    }

    /// Divided by one thousand.
    pub fn per_mille(&self) -> (r: Number)
        requires
            self@.within(PARSED_EXPONENT as int),
        ensures
            r@ == self@.per_mille(),
    {
        match self {
            Number::Finite(d) => {
                proof {
                    use_type_invariant(d);
                    if d.digits@.len() > 0 {
                        lemma_dec_value_positive(d.digits@);
                    }
                }
                if d.digits.len() == 0 {
                    self.clone()
                } else {
                    Number::Finite(
                        Decimal {
                            negative: d.negative,
                            digits: slice_to_vec(d.digits.as_slice()),
                            exponent: d.exponent - 3,
                        },
                    )
                }
            },
            _ => self.clone(),
        }
    }
}

} // verus!
