//! What the fingerprint of a script is taken over tells scripts apart.

use vstd::prelude::*;

use crate::scene::ScriptView;

verus! {

/// Text without the two control characters that separate the parts of a
/// script.
pub open spec fn is_plain(s: Seq<char>) -> bool {
    forall|i: int| 0 <= i < s.len() ==> #[trigger] s[i] as u32 > 1
}

pub open spec fn is_plain_script(s: ScriptView) -> bool {
    &&& is_plain(s.track)
    &&& forall|i: int|
        0 <= i < s.lines.len() ==> is_plain((#[trigger] s.lines[i]).id) && is_plain(
            s.lines[i].text,
        )
}

spec fn no_separator(s: Seq<u8>) -> bool {
    forall|i: int| 0 <= i < s.len() ==> #[trigger] s[i] > 1
}

proof fn lemma_scalar_bytes(c: u32)
    requires
        vstd::utf8::is_scalar(c),
        c > 1,
    ensures
        no_separator(vstd::utf8::encode_scalar(c)),
{
    assert(1 < c <= 0x7f ==> (c & 0x7f) as u8 > 1) by (bit_vector);
    assert((0xc0u8 | ((c >> 6) & 0x1f) as u8) > 1) by (bit_vector);
    assert((0xe0u8 | ((c >> 12) & 0x0f) as u8) > 1) by (bit_vector);
    assert((0xf0u8 | ((c >> 18) & 0x07) as u8) > 1) by (bit_vector);
    assert((0x80u8 | (c & 0x3f) as u8) > 1) by (bit_vector);
    assert((0x80u8 | ((c >> 6) & 0x3f) as u8) > 1) by (bit_vector);
    assert((0x80u8 | ((c >> 12) & 0x3f) as u8) > 1) by (bit_vector);
}

proof fn lemma_plain_bytes(s: Seq<char>)
    requires
        is_plain(s),
    ensures
        no_separator(vstd::utf8::encode_utf8(s)),
    decreases s.len(),
{
    if s.len() > 0 {
        let first = vstd::utf8::encode_scalar(s[0] as u32);
        let rest = vstd::utf8::encode_utf8(s.drop_first());
        vstd::utf8::char_is_scalar(s[0]);
        assert(s[0] as u32 > 1);
        lemma_scalar_bytes(s[0] as u32);
        lemma_plain_bytes(s.drop_first());
        let all = first + rest;
        assert forall|i: int| 0 <= i < all.len() implies #[trigger] all[i] > 1 by {
            if i < first.len() {
                assert(all[i] == first[i]);
            } else {
                assert(all[i] == rest[i - first.len()]);
            }
        }
    }
}

proof fn lemma_same_text(a: Seq<char>, b: Seq<char>)
    requires
        vstd::utf8::encode_utf8(a) == vstd::utf8::encode_utf8(b),
    ensures
        a == b,
{
    vstd::utf8::encode_utf8_decode_utf8(a);
    vstd::utf8::encode_utf8_decode_utf8(b);
}

/// What follows the last separator, the separator, and what stands before it
/// can be read off.
proof fn lemma_split(x: Seq<u8>, d: u8, y: Seq<u8>, x2: Seq<u8>, d2: u8, y2: Seq<u8>)
    requires
        x + seq![d] + y == x2 + seq![d2] + y2,
        d <= 1,
        d2 <= 1,
        no_separator(y),
        no_separator(y2),
    ensures
        x == x2,
        d == d2,
        y == y2,
{
    let s = x + seq![d] + y;
    let t = x2 + seq![d2] + y2;
    assert(s.len() == t.len());
    assert(s[x.len() as int] == d);
    assert(t[x2.len() as int] == d2);
    if x.len() < x2.len() {
        assert(s[x2.len() as int] == y[x2.len() - x.len() - 1]);
    } else if x2.len() < x.len() {
        assert(t[x.len() as int] == y2[x.len() - x2.len() - 1]);
    }
    assert(x =~= s.take(x.len() as int));
    assert(x2 =~= t.take(x.len() as int));
    assert(y =~= s.skip(x.len() as int + 1));
    assert(y2 =~= t.skip(x.len() as int + 1));
}

pub open spec fn same_lines(a: ScriptView, b: ScriptView, n: int) -> bool {
    forall|i: int|
        0 <= i < n ==> (#[trigger] a.lines[i]).id == b.lines[i].id && a.lines[i].text
            == b.lines[i].text
}

proof fn lemma_same_bytes(a: ScriptView, m: int, b: ScriptView, n: int)
    requires
        is_plain_script(a),
        is_plain_script(b),
        0 <= m <= a.lines.len(),
        0 <= n <= b.lines.len(),
        crate::scene::script_bytes(a, m) == crate::scene::script_bytes(b, n),
    ensures
        a.track == b.track,
        m == n,
        same_lines(a, b, n),
    decreases m + n,
{
    lemma_plain_bytes(a.track);
    lemma_plain_bytes(b.track);
    let s = crate::scene::script_bytes(a, m);
    if m == 0 && n == 0 {
        lemma_same_text(a.track, b.track);
    } else if m == 0 {
        let before = crate::scene::script_bytes(b, n - 1) + seq![0u8] + vstd::utf8::encode_utf8(
            b.lines[n - 1].id,
        );
        assert(s[before.len() as int] == 1);
    } else if n == 0 {
        let before = crate::scene::script_bytes(a, m - 1) + seq![0u8] + vstd::utf8::encode_utf8(
            a.lines[m - 1].id,
        );
        assert(s[before.len() as int] == 1);
    } else {
        let (p, q) = (a.lines[m - 1], b.lines[n - 1]);
        lemma_plain_bytes(p.id);
        lemma_plain_bytes(p.text);
        lemma_plain_bytes(q.id);
        lemma_plain_bytes(q.text);
        let (pi, pt) = (vstd::utf8::encode_utf8(p.id), vstd::utf8::encode_utf8(p.text));
        let (qi, qt) = (vstd::utf8::encode_utf8(q.id), vstd::utf8::encode_utf8(q.text));
        let x = crate::scene::script_bytes(a, m - 1);
        let y = crate::scene::script_bytes(b, n - 1);
        lemma_split(x + seq![0u8] + pi, 1, pt, y + seq![0u8] + qi, 1, qt);
        lemma_split(x, 0, pi, y, 0, qi);
        lemma_same_text(p.id, q.id);
        lemma_same_text(p.text, q.text);
        lemma_same_bytes(a, m - 1, b, n - 1);
    }
}

/// The bytes that a fingerprint is taken over belong to one script alone: to
/// move a word from one line to the next, or into an id, changes them. Only
/// control characters that look like separators can bring two scripts
/// together.
pub proof fn fingerprint_bytes_tell_scripts_apart(a: ScriptView, b: ScriptView)
    requires
        is_plain_script(a),
        is_plain_script(b),
        crate::scene::script_bytes(a, a.lines.len() as int) == crate::scene::script_bytes(
            b,
            b.lines.len() as int,
        ),
    ensures
        a.track == b.track,
        a.lines.len() == b.lines.len(),
        same_lines(a, b, b.lines.len() as int),
{
    lemma_same_bytes(a, a.lines.len() as int, b, b.lines.len() as int);
}

proof fn lemma_bytes_of_words(a: ScriptView, b: ScriptView, n: int)
    requires
        a.track == b.track,
        a.lines.len() == b.lines.len(),
        same_lines(a, b, b.lines.len() as int),
    ensures
        crate::scene::script_bytes(a, n) == crate::scene::script_bytes(b, n),
    decreases n,
{
    if 0 < n <= a.lines.len() {
        lemma_bytes_of_words(a, b, n - 1);
        assert(a.lines[n - 1].id == b.lines[n - 1].id);
    }
}

/// The fingerprint depends on the track and on the ids and texts of the lines
/// alone: a voice, or where the script stands in its file, does not change it.
pub proof fn fingerprint_is_of_the_words(a: ScriptView, b: ScriptView)
    requires
        a.track == b.track,
        a.lines.len() == b.lines.len(),
        same_lines(a, b, b.lines.len() as int),
    ensures
        crate::scene::fingerprint(a) == crate::scene::fingerprint(b),
{
    lemma_bytes_of_words(a, b, b.lines.len() as int);
}

proof fn lemma_hex_digits(n: nat, width: nat)
    ensures
        crate::scene::hex(n, width).len() == width,
        forall|i: int|
            0 <= i < width ==> {
                let c = #[trigger] crate::scene::hex(n, width)[i];
                '0' <= c <= '9' || 'a' <= c <= 'f'
            },
    decreases width,
{
    if width > 0 {
        lemma_hex_digits(n / 16, (width - 1) as nat);
        let d = n % 16;
        let c = crate::scene::hex_char(d);
        assert(d < 10 ==> c as u32 == 48 + d);
        assert(10 <= d ==> c as u32 == 97 + (d - 10));
        let head = crate::scene::hex(n / 16, (width - 1) as nat);
        assert forall|i: int| 0 <= i < width implies {
            let c = #[trigger] crate::scene::hex(n, width)[i];
            '0' <= c <= '9' || 'a' <= c <= 'f'
        } by {
            if i < width - 1 {
                assert(crate::scene::hex(n, width)[i] == head[i]);
            }
        }
    }
}

/// A fingerprint is sixteen lower-case hexadecimal digits.
pub proof fn fingerprint_is_sixteen_digits(s: ScriptView)
    ensures
        crate::scene::fingerprint(s).len() == 16,
        forall|i: int|
            0 <= i < 16 ==> {
                let c = #[trigger] crate::scene::fingerprint(s)[i];
                '0' <= c <= '9' || 'a' <= c <= 'f'
            },
{
    lemma_hex_digits(
        crate::scene::fnv(
            crate::scene::FNV_OFFSET,
            crate::scene::script_bytes(s, s.lines.len() as int),
        ) as nat,
        16,
    );
}

} // verus!
