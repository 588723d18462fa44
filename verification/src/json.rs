//! JSON and bytes at the edges: what `serde_json` and `std` read and write,
//! as plain texts.

use vstd::prelude::*;

use crate::text::cat2;

verus! {

/// How a character stands in a JSON string literal.
pub open spec fn escaped(c: char) -> Seq<char> {
    if c == '"' {
        "\\\""@
    } else if c == '\\' {
        "\\\\"@
    } else if c == '\u{8}' {
        "\\b"@
    } else if c == '\u{9}' {
        "\\t"@
    } else if c == '\u{a}' {
        "\\n"@
    } else if c == '\u{c}' {
        "\\f"@
    } else if c == '\u{d}' {
        "\\r"@
    } else if (c as u32) < 0x20 {
        "\\u"@ + crate::scene::hex(c as nat, 4)
    } else {
        seq![c]
    }
}

pub open spec fn escaped_text(s: Seq<char>) -> Seq<char>
    decreases s.len(),
{
    if s.len() == 0 {
        Seq::empty()
    } else {
        escaped(s[0]) + escaped_text(s.drop_first())
    }
}

/// A text as a JSON string literal.
pub open spec fn json_string(s: Seq<char>) -> Seq<char> {
    "\""@ + escaped_text(s) + "\""@
}

/// `serde_json::Value::from` on a text and its `to_string`: the JSON string
/// literal of the text, in which quotes, backslashes and control characters
/// are escaped, those without a letter of their own as four hexadecimal
/// digits.
#[verifier::external_body]
pub(crate) fn quoted(s: &str) -> (r: String)
    ensures
        r@ == json_string(s@),
{
    serde_json::Value::from(s).to_string()
}

proof fn lemma_literals()
    ensures
        "\\\""@ =~= seq!['\\', '"'],
        "\\\\"@ =~= seq!['\\', '\\'],
        "\\b"@ =~= seq!['\\', 'b'],
        "\\t"@ =~= seq!['\\', 't'],
        "\\n"@ =~= seq!['\\', 'n'],
        "\\f"@ =~= seq!['\\', 'f'],
        "\\r"@ =~= seq!['\\', 'r'],
        "\\u"@ =~= seq!['\\', 'u'],
{
    reveal_strlit("\\\"");
    reveal_strlit("\\\\");
    reveal_strlit("\\b");
    reveal_strlit("\\t");
    reveal_strlit("\\n");
    reveal_strlit("\\f");
    reveal_strlit("\\r");
    reveal_strlit("\\u");
}

/// The last two of four hexadecimal digits tell small numbers apart.
proof fn lemma_hex(n: nat)
    requires
        n < 32,
    ensures
        crate::scene::hex(n, 4).len() == 4,
        crate::scene::hex(n, 4)[2] == (if n < 16 {
            '0'
        } else {
            '1'
        }),
        crate::scene::hex(n, 4)[3] == crate::scene::hex_char(n % 16),
{
    reveal_with_fuel(crate::scene::hex, 5);
}

/// An escape is known by its first characters.
proof fn lemma_escape_is_known(c: char, d: char, x: Seq<char>, y: Seq<char>)
    requires
        escaped(c) + x == escaped(d) + y,
    ensures
        c == d,
        x == y,
{
    lemma_literals();
    let all = escaped(c) + x;
    assert(all[0] == escaped(c)[0] && all[0] == escaped(d)[0]);
    if all[0] == '\\' {
        assert(escaped(c).len() >= 2 && escaped(d).len() >= 2);
        assert(all[1] == escaped(c)[1] && all[1] == escaped(d)[1]);
        if all[1] == 'u' {
            lemma_hex(c as nat);
            lemma_hex(d as nat);
            assert(all[4] == escaped(c)[4] && all[4] == escaped(d)[4]);
            assert(all[5] == escaped(c)[5] && all[5] == escaped(d)[5]);
        }
    }
    let n = escaped(c).len() as int;
    assert(x =~= all.skip(n));
    assert(y =~= (escaped(d) + y).skip(n));
}

proof fn lemma_escaped_apart(a: Seq<char>, b: Seq<char>)
    requires
        escaped_text(a) == escaped_text(b),
    ensures
        a == b,
    decreases a.len(),
{
    lemma_literals();
    if a.len() > 0 && b.len() > 0 {
        lemma_escape_is_known(
            a[0],
            b[0],
            escaped_text(a.drop_first()),
            escaped_text(b.drop_first()),
        );
        lemma_escaped_apart(a.drop_first(), b.drop_first());
        assert(a =~= seq![a[0]] + a.drop_first());
        assert(b =~= seq![b[0]] + b.drop_first());
    } else if a.len() > 0 {
        assert(escaped_text(a)[0] == escaped(a[0])[0]);
        assert(escaped_text(a).len() > 0);
    } else if b.len() > 0 {
        assert(escaped_text(b)[0] == escaped(b[0])[0]);
        assert(escaped_text(b).len() > 0);
    } else {
        assert(a =~= b);
    }
}

/// Different texts have different literals: what a reader of the JSON gets is
/// the text that was written.
pub proof fn literals_tell_texts_apart(a: Seq<char>, b: Seq<char>)
    requires
        json_string(a) == json_string(b),
    ensures
        a == b,
{
    reveal_strlit("\"");
    let (x, y) = (escaped_text(a), escaped_text(b));
    assert(x =~= json_string(a).subrange(1, json_string(a).len() - 1));
    assert(y =~= json_string(b).subrange(1, json_string(b).len() - 1));
    lemma_escaped_apart(a, b);
}

/// What `serde_json` reads from a JSON text: whether it is an object, and its
/// compact form; or what is wrong with it.
pub uninterp spec fn json_value(text: Seq<char>) -> Result<(bool, Seq<char>), Seq<char>>;

/// `serde_json::from_str` into a `serde_json::Value`: whether the value is an
/// object, and its compact text; or the parser's message. Which texts are
/// JSON is left to `serde_json`; the result depends on the text alone.
#[verifier::external_body]
pub(crate) fn parse_json(text: &str) -> (r: Result<(bool, String), String>)
    ensures
        match r {
            Ok((object, t)) => json_value(text@) == Ok::<(bool, Seq<char>), Seq<char>>(
                (object, t@),
            ),
            Err(e) => json_value(text@) == Err::<(bool, Seq<char>), Seq<char>>(e@),
        },
{
    match serde_json::from_str::<serde_json::Value>(text) {
        Ok(v) => Ok((v.is_object(), v.to_string())),
        Err(e) => Err(e.to_string()),
    }
}

/// Whether a text is a JSON object.
pub open spec fn json_is_object(text: Seq<char>) -> bool {
    json_value(text) matches Ok(v) && v.0
}

pub(crate) fn is_json_object(text: &str) -> (r: bool)
    ensures
        r == json_is_object(text@),
{
    match parse_json(text) {
        Ok((object, _)) => object,
        Err(_) => false,
    }
}

/// The text under `key` in a JSON object given as bytes, as `serde_json`
/// reads it.
pub uninterp spec fn json_field(bytes: Seq<u8>, key: Seq<char>) -> Option<Seq<char>>;

/// `serde_json::from_slice` into a `serde_json::Value`, indexed by `key`: the
/// string found there; `None` for bytes that are no JSON and where no string
/// stands under the key. The result depends on the bytes and the key alone.
#[verifier::external_body]
pub(crate) fn text_field(bytes: &[u8], key: &str) -> (r: Option<String>)
    ensures
        match r {
            Some(t) => json_field(bytes@, key@) == Some(t@),
            None => json_field(bytes@, key@) is None,
        },
{
    match serde_json::from_slice::<serde_json::Value>(bytes) {
        Ok(v) => v[key].as_str().map(String::from),
        Err(_) => None,
    }
}

/// Bytes as text, as `std` reads bytes that may not be UTF-8.
pub uninterp spec fn utf8_lossy(bytes: Seq<u8>) -> Seq<char>;

/// `String::from_utf8_lossy`: valid UTF-8 reads as the text it encodes. What
/// stands for the other bytes is left to `std`; the result depends on the
/// bytes alone.
#[verifier::external_body]
pub(crate) fn lossy(bytes: &[u8]) -> (r: String)
    ensures
        r@ == utf8_lossy(bytes@),
        vstd::utf8::valid_utf8(bytes@) ==> r@ == vstd::utf8::decode_utf8(bytes@),
{
    String::from_utf8_lossy(bytes).into_owned()
}

// Objects and arrays.

pub open spec fn bool_text(b: bool) -> Seq<char> {
    if b {
        "true"@
    } else {
        "false"@
    }
}

pub fn bool_json(b: bool) -> (r: String)
    ensures
        r@ == bool_text(b),
{
    if b {
        "true".to_owned()
    } else {
        "false".to_owned()
    }
}

/// The first `n` items of an array, with commas between them.
pub open spec fn items(s: Seq<Seq<char>>, n: int) -> Seq<char>
    decreases n,
{
    if n <= 0 || n > s.len() {
        Seq::empty()
    } else if n == 1 {
        s[0]
    } else {
        items(s, n - 1) + ","@ + s[n - 1]
    }
}

pub open spec fn array(s: Seq<Seq<char>>) -> Seq<char> {
    "["@ + items(s, s.len() as int) + "]"@
}

/// A JSON array of items that are JSON texts already.
pub fn array_json(s: &Vec<String>) -> (r: String)
    ensures
        r@ == array(crate::text::text_views(s@)),
{
    let ghost views = crate::text::text_views(s@);
    let mut out: String = "[".to_owned();
    let mut i: usize = 0;
    assert("["@ + items(views, 0) =~= "["@);
    while i < s.len()
        invariant
            i <= s@.len(),
            views == crate::text::text_views(s@),
            out@ == "["@ + items(views, i as int),
        decreases s@.len() - i,
    {
        let ghost before = out@;
        if i > 0 {
            out.append(",");
        }
        out.append(s[i].as_str());
        assert(views[i as int] == s@[i as int]@);
        if i == 0 {
            assert(out@ =~= "["@ + items(views, 1));
        } else {
            assert(out@ =~= "["@ + items(views, i + 1));
        }
        i = i + 1;
    }
    cat2(out.as_str(), "]")
}

pub open spec fn quoted_items(s: Seq<Seq<char>>) -> Seq<Seq<char>> {
    Seq::new(s.len(), |i: int| json_string(s[i]))
}

/// A JSON array of strings.
pub fn strings_json(s: &Vec<String>) -> (r: String)
    ensures
        r@ == array(quoted_items(crate::text::text_views(s@))),
{
    let mut out: Vec<String> = Vec::new();
    let mut i: usize = 0;
    while i < s.len()
        invariant
            i <= s@.len(),
            out@.len() == i,
            forall|k: int| 0 <= k < i ==> (#[trigger] out@[k])@ == json_string(s@[k]@),
        decreases s@.len() - i,
    {
        out.push(quoted(s[i].as_str()));
        i = i + 1;
    }
    assert(crate::text::text_views(out@) =~= quoted_items(crate::text::text_views(s@)));
    array_json(&out)
}

} // verus!
