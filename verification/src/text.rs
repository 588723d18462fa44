//! Character-level text: whitespace, trimming, searching, decimal and
//! hexadecimal numerals, and the byte width of UTF-8 text.
//!
//! Every function here works on characters; positions in a document are
//! reported in bytes, so [`byte_len`] gives the width of a run of text.

use vstd::prelude::*;
use vstd::slice::slice_subrange;

verus! {

/// `String::push` adds one character at the end of the text.
pub assume_specification[ String::push ](s: &mut String, c: char)
    ensures
        final(s)@ == old(s)@.push(c),
;

/// A character of the Unicode `White_Space` property.
pub open spec fn is_space(c: char) -> bool {
    ||| '\u{9}' <= c <= '\u{d}'
    ||| c == ' '
    ||| c == '\u{85}'
    ||| c == '\u{a0}'
    ||| c == '\u{1680}'
    ||| '\u{2000}' <= c <= '\u{200a}'
    ||| c == '\u{2028}'
    ||| c == '\u{2029}'
    ||| c == '\u{202f}'
    ||| c == '\u{205f}'
    ||| c == '\u{3000}'
}

pub fn space(c: char) -> (r: bool)
    ensures
        r == is_space(c),
{
    ('\u{9}' <= c && c <= '\u{d}') || c == ' ' || c == '\u{85}' || c == '\u{a0}' || c == '\u{1680}'
        || ('\u{2000}' <= c && c <= '\u{200a}') || c == '\u{2028}' || c == '\u{2029}' || c
        == '\u{202f}' || c == '\u{205f}' || c == '\u{3000}'
}

pub open spec fn is_digit(c: char) -> bool {
    '0' <= c <= '9'
}

pub fn digit(c: char) -> (r: bool)
    ensures
        r == is_digit(c),
{
    '0' <= c && c <= '9'
}

pub open spec fn is_letter(c: char) -> bool {
    'a' <= c <= 'z' || 'A' <= c <= 'Z'
}

pub fn letter(c: char) -> (r: bool)
    ensures
        r == is_letter(c),
{
    ('a' <= c && c <= 'z') || ('A' <= c && c <= 'Z')
}

/// Bytes that one character takes in UTF-8.
pub open spec fn char_width(c: char) -> nat {
    if c as u32 <= 0x7f {
        1
    } else if c as u32 <= 0x7ff {
        2
    } else if c as u32 <= 0xffff {
        3
    } else {
        4
    }
}

pub fn width(c: char) -> (r: usize)
    ensures
        r == char_width(c),
        1 <= r <= 4,
{
    let v: u32 = c as u32;
    if v <= 0x7f {
        1
    } else if v <= 0x7ff {
        2
    } else if v <= 0xffff {
        3
    } else {
        4
    }
}

/// Bytes that a run of text takes in UTF-8.
pub open spec fn byte_len(s: Seq<char>) -> nat
    decreases s.len(),
{
    if s.len() == 0 {
        0
    } else {
        byte_len(s.drop_last()) + char_width(s.last())
    }
}

/// The byte offset of the character at `i`.
pub open spec fn offset(s: Seq<char>, i: int) -> nat {
    byte_len(s.take(i))
}

pub proof fn lemma_byte_len_add(a: Seq<char>, b: Seq<char>)
    ensures
        byte_len(a + b) == byte_len(a) + byte_len(b),
    decreases b.len(),
{
    if b.len() == 0 {
        assert(a + b =~= a);
    } else {
        lemma_byte_len_add(a, b.drop_last());
        assert((a + b).drop_last() =~= a + b.drop_last());
    }
}

pub proof fn lemma_offset_step(s: Seq<char>, i: int)
    requires
        0 <= i < s.len(),
    ensures
        offset(s, i + 1) == offset(s, i) + char_width(s[i]),
{
    assert(s.take(i + 1).drop_last() =~= s.take(i));
}

pub proof fn lemma_offset_mono(s: Seq<char>, i: int, j: int)
    requires
        0 <= i <= j <= s.len(),
    ensures
        offset(s, i) + (j - i) <= offset(s, j),
    decreases j - i,
{
    if i < j {
        lemma_offset_mono(s, i, j - 1);
        lemma_offset_step(s, j - 1);
    }
}

/// The UTF-8 encoding of a text is as long as [`byte_len`] says.
pub proof fn lemma_byte_len_encode(s: Seq<char>)
    ensures
        vstd::utf8::encode_utf8(s).len() == byte_len(s),
    decreases s.len(),
{
    if s.len() > 0 {
        let first = s.take(1);
        lemma_byte_len_encode(s.drop_first());
        assert(s =~= first + s.drop_first());
        lemma_byte_len_add(first, s.drop_first());
        assert(first.drop_last() =~= Seq::<char>::empty());
        assert(byte_len(first.drop_last()) == 0);
        assert(byte_len(first) == char_width(s[0]));
        vstd::utf8::char_is_scalar(s[0]);
        assert(vstd::utf8::encode_scalar(s[0] as u32).len() == char_width(s[0]));
    }
}

/// The characters of a text, in order.
pub fn chars_of(s: &str) -> (r: Vec<char>)
    ensures
        r@ == s@,
{
    let mut out: Vec<char> = Vec::new();
    for c in it: s.chars()
        invariant
            out@ == it.seq().take(it.index()),
            it.seq() == s@,
    {
        out.push(c);
    }
    assert(s@.take(s@.len() as int) =~= s@);
    out
}

/// The text made of `cs`.
pub fn string_of(cs: &[char]) -> (r: String)
    ensures
        r@ == cs@,
{
    let mut out = String::new();
    let mut i: usize = 0;
    while i < cs.len()
        invariant
            i <= cs@.len(),
            out@ == cs@.take(i as int),
        decreases cs@.len() - i,
    {
        out.push(cs[i]);
        assert(cs@.take(i + 1) =~= cs@.take(i as int).push(cs@[i as int]));
        i = i + 1;
    }
    assert(cs@.take(cs@.len() as int) =~= cs@);
    out
}

/// Equality of texts.
pub fn text_eq(a: &str, b: &str) -> (r: bool)
    ensures
        r == (a@ == b@),
{
    let x: String = a.to_owned();
    let y: String = b.to_owned();
    x == y
}

/// Whether the characters `cs` spell `s`.
pub fn spells(cs: &[char], s: &str) -> (r: bool)
    ensures
        r == (cs@ == s@),
{
    let t = string_of(cs);
    text_eq(t.as_str(), s)
}

pub fn cat2(a: &str, b: &str) -> (r: String)
    ensures
        r@ == a@ + b@,
{
    let mut m: String = a.to_owned();
    m.append(b);
    m
}

pub fn cat3(a: &str, b: &str, c: &str) -> (r: String)
    ensures
        r@ == a@ + b@ + c@,
{
    let mut m = cat2(a, b);
    m.append(c);
    m
}

pub fn cat4(a: &str, b: &str, c: &str, d: &str) -> (r: String)
    ensures
        r@ == a@ + b@ + c@ + d@,
{
    let mut m = cat3(a, b, c);
    m.append(d);
    m
}

pub fn cat5(a: &str, b: &str, c: &str, d: &str, e: &str) -> (r: String)
    ensures
        r@ == a@ + b@ + c@ + d@ + e@,
{
    let mut m = cat4(a, b, c, d);
    m.append(e);
    m
}

/// The text without the whitespace before its first other character.
pub open spec fn trim_start(s: Seq<char>) -> Seq<char>
    decreases s.len(),
{
    if s.len() > 0 && is_space(s[0]) {
        trim_start(s.drop_first())
    } else {
        s
    }
}

/// The text without the whitespace after its last other character.
pub open spec fn trim_end(s: Seq<char>) -> Seq<char>
    decreases s.len(),
{
    if s.len() > 0 && is_space(s.last()) {
        trim_end(s.drop_last())
    } else {
        s
    }
}

pub open spec fn trimmed(s: Seq<char>) -> Seq<char> {
    trim_end(trim_start(s))
}

pub fn trim(cs: &[char]) -> (r: &[char])
    ensures
        r@ == trimmed(cs@),
{
    let n = cs.len();
    let mut i: usize = 0;
    assert(cs@.subrange(0, n as int) =~= cs@);
    while i < n && space(cs[i])
        invariant
            n == cs@.len(),
            i <= n,
            trim_start(cs@) == trim_start(cs@.subrange(i as int, n as int)),
        decreases n - i,
    {
        assert(cs@.subrange(i as int, n as int).drop_first() =~= cs@.subrange(i + 1, n as int));
        i = i + 1;
    }
    assert(trim_start(cs@) == cs@.subrange(i as int, n as int));
    let mut j: usize = n;
    while j > i && space(cs[j - 1])
        invariant
            n == cs@.len(),
            i <= j <= n,
            trimmed(cs@) == trim_end(cs@.subrange(i as int, j as int)),
        decreases j - i,
    {
        assert(cs@.subrange(i as int, j as int).drop_last() =~= cs@.subrange(i as int, j - 1));
        j = j - 1;
    }
    slice_subrange(cs, i, j)
}

/// `trim` on a text.
pub fn trim_text(s: &str) -> (r: String)
    ensures
        r@ == trimmed(s@),
{
    let cs = chars_of(s);
    string_of(trim(cs.as_slice()))
}

/// The first position at or after `from` that holds `c`; the length of the
/// text when there is none.
pub open spec fn find_from(s: Seq<char>, c: char, from: int) -> int
    decreases s.len() - from,
{
    if from < 0 || from >= s.len() {
        s.len() as int
    } else if s[from] == c {
        from
    } else {
        find_from(s, c, from + 1)
    }
}

pub proof fn lemma_find_from(s: Seq<char>, c: char, from: int)
    requires
        0 <= from <= s.len(),
    ensures
        from <= find_from(s, c, from) <= s.len(),
        find_from(s, c, from) < s.len() ==> s[find_from(s, c, from)] == c,
        forall|i: int| from <= i < find_from(s, c, from) ==> s[i] != c,
    decreases s.len() - from,
{
    if from < s.len() && s[from] != c {
        lemma_find_from(s, c, from + 1);
    }
}

pub fn find_char(cs: &[char], c: char, from: usize) -> (r: usize)
    requires
        from <= cs@.len(),
    ensures
        r == find_from(cs@, c, from as int),
        from <= r <= cs@.len(),
{
    let mut i: usize = from;
    while i < cs.len() && cs[i] != c
        invariant
            from <= i <= cs@.len(),
            find_from(cs@, c, from as int) == find_from(cs@, c, i as int),
        decreases cs@.len() - i,
    {
        i = i + 1;
    }
    i
}

/// Whether `c` occurs in the text.
pub open spec fn has_char(s: Seq<char>, c: char) -> bool {
    find_from(s, c, 0) < s.len()
}

/// Whether `pat` stands in `s` at position `i`.
pub open spec fn stands_at(s: Seq<char>, pat: Seq<char>, i: int) -> bool {
    0 <= i && i + pat.len() <= s.len() && s.subrange(i, i + pat.len()) == pat
}

pub fn at(cs: &[char], pat: &[char], i: usize) -> (r: bool)
    ensures
        r == stands_at(cs@, pat@, i as int),
{
    if i > cs.len() || pat.len() > cs.len() - i {
        return false;
    }
    let mut k: usize = 0;
    while k < pat.len()
        invariant
            k <= pat@.len(),
            i + pat@.len() <= cs@.len(),
            cs@.len() <= usize::MAX,
            forall|m: int| 0 <= m < k ==> cs@[i + m] == pat@[m],
        decreases pat@.len() - k,
    {
        if cs[i + k] != pat[k] {
            assert(cs@.subrange(i as int, i + pat@.len())[k as int] != pat@[k as int]);
            return false;
        }
        k = k + 1;
    }
    assert(cs@.subrange(i as int, i + pat@.len()) =~= pat@);
    true
}

/// The first position at or after `from` where `pat` stands.
pub open spec fn find_text(s: Seq<char>, pat: Seq<char>, from: int) -> Option<int>
    decreases s.len() + 1 - from,
{
    if from < 0 || from > s.len() {
        None
    } else if stands_at(s, pat, from) {
        Some(from)
    } else {
        find_text(s, pat, from + 1)
    }
}

pub proof fn lemma_find_text(s: Seq<char>, pat: Seq<char>, from: int)
    requires
        0 <= from,
    ensures
        find_text(s, pat, from) matches Some(i) ==> {
            &&& from <= i
            &&& stands_at(s, pat, i)
            &&& forall|j: int| from <= j < i ==> !stands_at(s, pat, j)
        },
        find_text(s, pat, from) is None ==> forall|j: int| from <= j ==> !stands_at(s, pat, j),
    decreases s.len() + 1 - from,
{
    if from <= s.len() && !stands_at(s, pat, from) {
        lemma_find_text(s, pat, from + 1);
    }
}

pub fn find(cs: &[char], pat: &[char], from: usize) -> (r: Option<usize>)
    requires
        from <= cs@.len(),
    ensures
        match r {
            Some(i) => find_text(cs@, pat@, from as int) == Some(i as int) && from <= i && i
                + pat@.len() <= cs@.len(),
            None => find_text(cs@, pat@, from as int) is None,
        },
{
    let mut i: usize = from;
    loop
        invariant
            from <= i <= cs@.len(),
            find_text(cs@, pat@, from as int) == find_text(cs@, pat@, i as int),
        decreases cs@.len() - i,
    {
        if at(cs, pat, i) {
            return Some(i);
        }
        if i >= cs.len() {
            assert(find_text(cs@, pat@, i + 1) is None);
            return None;
        }
        i = i + 1;
    }
}

pub open spec fn contains_text(s: Seq<char>, pat: Seq<char>) -> bool {
    find_text(s, pat, 0) is Some
}

/// Whether `pat` occurs in `s`.
pub fn contains(s: &str, pat: &str) -> (r: bool)
    ensures
        r == contains_text(s@, pat@),
{
    let cs = chars_of(s);
    let ps = chars_of(pat);
    find(cs.as_slice(), ps.as_slice(), 0).is_some()
}

pub open spec fn ends_in(s: Seq<char>, pat: Seq<char>) -> bool {
    pat.len() <= s.len() && stands_at(s, pat, s.len() - pat.len())
}

pub fn ends_with(cs: &[char], pat: &[char]) -> (r: bool)
    ensures
        r == ends_in(cs@, pat@),
{
    pat.len() <= cs.len() && at(cs, pat, cs.len() - pat.len())
}

// Decimal numerals.

pub open spec fn digit_value(c: char) -> nat {
    (c as u32 - '0' as u32) as nat
}

pub open spec fn digit_char(d: nat) -> char {
    (('0' as u32) + d) as char
}

pub open spec fn all_digits(s: Seq<char>) -> bool {
    forall|i: int| 0 <= i < s.len() ==> is_digit(#[trigger] s[i])
}

/// The number that a run of decimal digits spells.
pub open spec fn dec_value(s: Seq<char>) -> nat
    decreases s.len(),
{
    if s.len() == 0 {
        0
    } else {
        dec_value(s.drop_last()) * 10 + digit_value(s.last())
    }
}

/// The digits of an unsigned numeral: a leading `+` is allowed.
pub open spec fn unsigned_digits(s: Seq<char>) -> Seq<char> {
    if s.len() > 0 && s[0] == '+' {
        s.drop_first()
    } else {
        s
    }
}

/// An unsigned decimal numeral no larger than `max`: an optional `+` and at
/// least one digit.
pub open spec fn unsigned(s: Seq<char>, max: nat) -> Option<nat> {
    let d = unsigned_digits(s);
    if d.len() > 0 && all_digits(d) && dec_value(d) <= max {
        Some(dec_value(d))
    } else {
        None
    }
}

proof fn lemma_dec_value_mono(s: Seq<char>, i: int)
    requires
        0 <= i <= s.len(),
    ensures
        dec_value(s.take(i)) <= dec_value(s),
    decreases s.len() - i,
{
    if i < s.len() {
        lemma_dec_value_mono(s, i + 1);
        assert(s.take(i + 1).drop_last() =~= s.take(i));
    } else {
        assert(s.take(i) =~= s);
    }
}

pub fn parse_unsigned(cs: &[char], max: u64) -> (r: Option<u64>)
    ensures
        match r {
            Some(v) => unsigned(cs@, max as nat) == Some(v as nat),
            None => unsigned(cs@, max as nat) is None,
        },
{
    let start: usize = if cs.len() > 0 && cs[0] == '+' {
        1
    } else {
        0
    };
    let ghost d = unsigned_digits(cs@);
    assert(d =~= cs@.skip(start as int));
    if start == cs.len() {
        return None;
    }
    let mut i: usize = start;
    while i < cs.len()
        invariant
            start <= i <= cs@.len(),
            d == cs@.skip(start as int),
            d == unsigned_digits(cs@),
            forall|k: int| 0 <= k < i - start ==> is_digit(#[trigger] d[k]),
        decreases cs@.len() - i,
    {
        assert(d[i - start] == cs@[i as int]);
        if !digit(cs[i]) {
            return None;
        }
        i = i + 1;
    }
    let mut v: u64 = 0;
    let mut j: usize = start;
    while j < cs.len()
        invariant
            start <= j <= cs@.len(),
            d == cs@.skip(start as int),
            d == unsigned_digits(cs@),
            all_digits(d),
            v == dec_value(d.take(j - start)),
            v <= max,
        decreases cs@.len() - j,
    {
        assert(d[j - start] == cs@[j as int]);
        let k: u64 = (cs[j] as u32 - '0' as u32) as u64;
        proof {
            assert(d.take(j + 1 - start).drop_last() =~= d.take(j - start));
            lemma_dec_value_mono(d, j + 1 - start);
        }
        if v > max / 10 || k > max - v * 10 {
            assert(dec_value(d.take(j + 1 - start)) > max);
            return None;
        }
        v = v * 10 + k;
        j = j + 1;
    }
    assert(d.take(d.len() as int) =~= d);
    Some(v)
}

pub fn parse_u32(cs: &[char]) -> (r: Option<u32>)
    ensures
        match r {
            Some(v) => unsigned(cs@, u32::MAX as nat) == Some(v as nat),
            None => unsigned(cs@, u32::MAX as nat) is None,
        },
{
    match parse_unsigned(cs, 0xffff_ffff) {
        Some(v) => Some(v as u32),
        None => None,
    }
}

/// The decimal numeral of `n`, without leading zeros.
pub open spec fn dec(n: nat) -> Seq<char>
    decreases n,
{
    if n < 10 {
        seq![digit_char(n)]
    } else {
        dec(n / 10).push(digit_char(n % 10))
    }
}

pub proof fn lemma_digit(d: nat)
    requires
        d < 10,
    ensures
        is_digit(digit_char(d)),
        digit_value(digit_char(d)) == d,
{
}

/// A numeral reads back as the number it was written from.
pub proof fn lemma_dec(n: nat)
    ensures
        dec(n).len() > 0,
        all_digits(dec(n)),
        dec_value(dec(n)) == n,
    decreases n,
{
    reveal_with_fuel(dec_value, 2);
    lemma_digit(n % 10);
    if n < 10 {
        assert(dec(n).drop_last() =~= Seq::<char>::empty());
    } else {
        lemma_dec(n / 10);
        assert(dec(n).drop_last() =~= dec(n / 10));
    }
}

pub fn digit_of(d: u8) -> (r: char)
    requires
        d < 10,
    ensures
        r == digit_char(d as nat),
{
    (48u8 + d) as char
}

pub fn dec_text(n: u64) -> (r: String)
    ensures
        r@ == dec(n as nat),
    decreases n,
{
    let last = digit_of((n % 10) as u8);
    if n < 10 {
        let mut out = String::new();
        out.push(last);
        assert(out@ =~= dec(n as nat));
        out
    } else {
        let mut out = dec_text(n / 10);
        out.push(last);
        out
    }
}

/// The byte offset of each character, and the length at the end.
pub fn byte_offsets(s: &str) -> (r: Vec<usize>)
    ensures
        r@.len() == s@.len() + 1,
        forall|i: int| 0 <= i <= s@.len() ==> #[trigger] r@[i] == offset(s@, i),
{
    let cs = chars_of(s);
    let total: usize = s.as_bytes().len();
    proof {
        lemma_byte_len_encode(s@);
        assert(cs@.take(cs@.len() as int) =~= cs@);
    }
    let mut offs: Vec<usize> = Vec::new();
    let mut sum: usize = 0;
    let mut i: usize = 0;
    offs.push(0);
    assert(cs@.take(0) =~= Seq::<char>::empty());
    while i < cs.len()
        invariant
            i <= cs@.len(),
            offs@.len() == i + 1,
            sum == offset(cs@, i as int),
            offset(cs@, cs@.len() as int) == total,
            forall|k: int| 0 <= k <= i ==> #[trigger] offs@[k] == offset(cs@, k),
        decreases cs@.len() - i,
    {
        proof {
            lemma_offset_step(cs@, i as int);
            lemma_offset_mono(cs@, i + 1, cs@.len() as int);
        }
        sum = sum + width(cs[i]);
        offs.push(sum);
        i = i + 1;
    }
    offs
}

// Words and lines.

/// The first whitespace at or after `i`, or the length.
pub open spec fn word_end(s: Seq<char>, i: int) -> int
    decreases s.len() - i,
{
    if 0 <= i < s.len() && !is_space(s[i]) {
        word_end(s, i + 1)
    } else {
        i
    }
}

pub proof fn lemma_word_end(s: Seq<char>, i: int)
    requires
        0 <= i <= s.len(),
    ensures
        i <= word_end(s, i) <= s.len(),
        i < s.len() && !is_space(s[i]) ==> i < word_end(s, i),
    decreases s.len() - i,
{
    if i < s.len() && !is_space(s[i]) {
        lemma_word_end(s, i + 1);
    }
}

/// The maximal runs of characters without whitespace, from `i` on.
pub open spec fn words_from(s: Seq<char>, i: int) -> Seq<Seq<char>>
    decreases s.len() - i,
{
    if i < 0 || i >= s.len() {
        Seq::empty()
    } else if is_space(s[i]) {
        words_from(s, i + 1)
    } else {
        let e = word_end(s, i);
        proof {
            lemma_word_end(s, i);
        }
        seq![s.subrange(i, e)] + words_from(s, e)
    }
}

pub open spec fn words(s: Seq<char>) -> Seq<Seq<char>> {
    words_from(s, 0)
}

pub open spec fn text_views(s: Seq<String>) -> Seq<Seq<char>> {
    Seq::new(s.len(), |i: int| s[i]@)
}

pub fn split_words(cs: &[char]) -> (r: Vec<String>)
    ensures
        text_views(r@) == words(cs@),
{
    let mut out: Vec<String> = Vec::new();
    let mut i: usize = 0;
    assert(text_views(out@) + words_from(cs@, 0) =~= words(cs@));
    while i < cs.len()
        invariant
            i <= cs@.len(),
            text_views(out@) + words_from(cs@, i as int) == words(cs@),
        decreases cs@.len() - i,
    {
        if space(cs[i]) {
            i = i + 1;
        } else {
            let mut e: usize = i;
            while e < cs.len() && !space(cs[e])
                invariant
                    i <= e <= cs@.len(),
                    word_end(cs@, i as int) == word_end(cs@, e as int),
                decreases cs@.len() - e,
            {
                e = e + 1;
            }
            proof {
                lemma_word_end(cs@, i as int);
            }
            let ghost before = text_views(out@);
            let w = string_of(slice_subrange(cs, i, e));
            out.push(w);
            proof {
                assert(text_views(out@) =~= before.push(w@));
                assert(before + words_from(cs@, i as int) =~= text_views(out@) + words_from(
                    cs@,
                    e as int,
                ));
            }
            i = e;
        }
    }
    assert(text_views(out@) + words_from(cs@, i as int) =~= text_views(out@));
    out
}

/// The bounds of the line that starts at `i`: its end without the line
/// terminator, and the start of the next line.
pub open spec fn line_bounds(s: Seq<char>, i: int) -> (int, int) {
    let e = find_from(s, '\n', i);
    if e < s.len() {
        (
            if i < e && s[e - 1] == '\r' {
                e - 1
            } else {
                e
            },
            e + 1,
        )
    } else {
        (e, e)
    }
}

/// The bounds of every line from `i` on. A terminator at the very end starts
/// no further line.
pub open spec fn lines_from(s: Seq<char>, i: int) -> Seq<(int, int)>
    decreases s.len() - i,
{
    if i < 0 || i >= s.len() {
        Seq::empty()
    } else {
        proof {
            lemma_find_from(s, '\n', i);
        }
        seq![(i, line_bounds(s, i).0)] + lines_from(s, line_bounds(s, i).1)
    }
}

pub open spec fn bound_views(s: Seq<(usize, usize)>) -> Seq<(int, int)> {
    Seq::new(s.len(), |i: int| (s[i].0 as int, s[i].1 as int))
}

/// Start and end of every line.
pub fn split_lines(cs: &[char]) -> (r: Vec<(usize, usize)>)
    ensures
        bound_views(r@) == lines_from(cs@, 0),
        forall|i: int| 0 <= i < r@.len() ==> (#[trigger] r@[i]).0 <= r@[i].1 <= cs@.len(),
{
    let mut out: Vec<(usize, usize)> = Vec::new();
    let mut i: usize = 0;
    assert(bound_views(out@) + lines_from(cs@, 0) =~= lines_from(cs@, 0));
    while i < cs.len()
        invariant
            i <= cs@.len(),
            bound_views(out@) + lines_from(cs@, i as int) == lines_from(cs@, 0),
            forall|k: int| 0 <= k < out@.len() ==> (#[trigger] out@[k]).0 <= out@[k].1
                <= cs@.len(),
        decreases cs@.len() - i,
    {
        let e = find_char(cs, '\n', i);
        let (end, next): (usize, usize) = if e < cs.len() {
            (
                if i < e && cs[e - 1] == '\r' {
                    e - 1
                } else {
                    e
                },
                e + 1,
            )
        } else {
            (e, e)
        };
        let ghost before = bound_views(out@);
        out.push((i, end));
        proof {
            assert(bound_views(out@) =~= before.push((i as int, end as int)));
            assert(before + lines_from(cs@, i as int) =~= bound_views(out@) + lines_from(
                cs@,
                next as int,
            ));
        }
        i = next;
    }
    assert(bound_views(out@) + lines_from(cs@, i as int) =~= bound_views(out@));
    out
}

// Lists of texts.

pub open spec fn str_views(s: Seq<&str>) -> Seq<Seq<char>> {
    Seq::new(s.len(), |i: int| s[i]@)
}

/// Adds `words` to the end of `out`.
pub fn push_words(out: &mut Vec<String>, words: &[&str])
    ensures
        text_views(final(out)@) == text_views(old(out)@) + str_views(words@),
{
    let ghost before = text_views(out@);
    let mut i: usize = 0;
    assert(before + str_views(words@).take(0) =~= before);
    while i < words.len()
        invariant
            i <= words@.len(),
            text_views(out@) == before + str_views(words@).take(i as int),
        decreases words@.len() - i,
    {
        let ghost so_far = text_views(out@);
        let w: String = words[i].to_owned();
        out.push(w);
        assert(text_views(out@) =~= so_far.push(words@[i as int]@));
        assert(str_views(words@).take(i + 1) =~= str_views(words@).take(i as int).push(
            words@[i as int]@,
        ));
        i = i + 1;
    }
    assert(str_views(words@).take(words@.len() as int) =~= str_views(words@));
}

/// Adds one text to the end of `out`.
pub fn push_word(out: &mut Vec<String>, word: &str)
    ensures
        text_views(final(out)@) == text_views(old(out)@).push(word@),
{
    let ghost before = text_views(out@);
    out.push(word.to_owned());
    assert(text_views(out@) =~= before.push(word@));
}

} // verus!
