//! What the preview server reads in requests and says of positions.

use vstd::prelude::*;

use crate::ui::RequestView;

verus! {

// Ranges.

proof fn lemma_bytes(spec_part: Seq<char>)
    ensures
        crate::text::stands_at("bytes="@ + spec_part, "bytes="@, 0),
        ("bytes="@ + spec_part).skip("bytes="@.len() as int) == spec_part,
{
    let v = "bytes="@ + spec_part;
    assert(v.subrange(0, "bytes="@.len() as int) =~= "bytes="@);
    assert(v.skip("bytes="@.len() as int) =~= spec_part);
}

/// `bytes=A-B` asks for the bytes from the first through the last, `bytes=A-`
/// for those from the first on, and `bytes=-N` for the last `N`; where nothing
/// of the file is asked for there is no range.
pub proof fn ranges_read_back(a: nat, b: nat, total: nat)
    requires
        a < usize::MAX,
        b < usize::MAX,
    ensures
        crate::ui::range_of(
            "bytes="@ + (crate::text::dec(a) + "-"@ + crate::text::dec(b)),
            total,
        ) == (if a < total && a <= b {
            Some((a as int, b as int + 1))
        } else {
            None
        }),
        crate::ui::range_of("bytes="@ + (crate::text::dec(a) + "-"@), total) == (if a < total {
            Some((a as int, total as int))
        } else {
            None
        }),
        crate::ui::range_of("bytes="@ + ("-"@ + crate::text::dec(b)), total) == (if b > 0 && total
            > 0 {
            Some(
                (
                    if b <= total {
                        total - b
                    } else {
                        0
                    },
                    total as int,
                ),
            )
        } else {
            None
        }),
{
    reveal_strlit("-");
    assert("-"@ =~= seq!['-']);
    let s = crate::text::dec(a);
    let t = crate::text::dec(b);
    crate::value_laws::lemma_numeral(a, usize::MAX as nat);
    crate::value_laws::lemma_numeral(b, usize::MAX as nat);
    assert forall|k: int| 0 <= k < s.len() implies #[trigger] s[k] != '-' by {
        assert(crate::text::is_digit(s[k]));
    }
    crate::value_laws::lemma_apart(s, '-', t);
    crate::value_laws::lemma_apart(s, '-', Seq::empty());
    assert(s + seq!['-'] + Seq::empty() =~= s + "-"@);
    crate::value_laws::lemma_apart(Seq::empty(), '-', t);
    assert(Seq::empty() + seq!['-'] + t =~= "-"@ + t);
    lemma_bytes(s + "-"@ + t);
    lemma_bytes(s + "-"@);
    lemma_bytes("-"@ + t);
}

// Positions.

proof fn lemma_chars_before(s: Seq<char>, i: int, from: int)
    requires
        0 <= from <= i <= s.len(),
    ensures
        crate::ui::chars_before(s, crate::text::offset(s, i) as int, from) == i,
    decreases i - from,
{
    crate::text::lemma_offset_mono(s, from, i);
    if from < i {
        lemma_chars_before(s, i, from + 1);
    }
}

proof fn lemma_column(s: Seq<char>, i: int)
    requires
        0 <= i <= s.len(),
    ensures
        ({
            let c = crate::ui::col_after(s, i);
            &&& 1 <= c <= i + 1
            &&& forall|k: int| i + 1 - c <= k < i ==> #[trigger] s[k] != '\n'
            &&& c <= i ==> s[i - c] == '\n'
        }),
    decreases i,
{
    if i > 0 && s[i - 1] != '\n' {
        lemma_column(s, i - 1);
        let c = crate::ui::col_after(s, i);
        assert forall|k: int| i + 1 - c <= k < i implies #[trigger] s[k] != '\n' by {
            if k < i - 1 {
                assert(i - 1 + 1 - (c - 1) <= k);
            }
        }
    }
}

/// A document starts at line 1, column 1. Past a line break the line counts
/// one more, past any other character it is the same; the column counts the
/// characters since the last line break.
pub proof fn positions_count_lines_and_columns(s: Seq<char>, i: int)
    requires
        0 <= i <= s.len(),
    ensures
        ({
            let (line, col) = crate::ui::position(s, crate::text::offset(s, i) as int);
            &&& i == 0 ==> line == 1
            &&& i > 0 ==> line == crate::ui::position(
                s,
                crate::text::offset(s, i - 1) as int,
            ).0 + (if s[i - 1] == '\n' {
                1int
            } else {
                0int
            })
            &&& 1 <= col <= i + 1
            &&& forall|k: int| i + 1 - col <= k < i ==> #[trigger] s[k] != '\n'
            &&& col <= i ==> s[i - col] == '\n'
        }),
{
    lemma_chars_before(s, i, 0);
    if i > 0 {
        lemma_chars_before(s, i - 1, 0);
    }
    lemma_column(s, i);
}

// Escapes.

/// Each byte as an escape.
pub open spec fn escapes(s: Seq<u8>) -> Seq<u8> {
    Seq::new(
        3 * s.len(),
        |i: int|
            if i % 3 == 0 {
                0x25u8
            } else if i % 3 == 1 {
                hex_digit(s[i / 3] / 16)
            } else {
                hex_digit(s[i / 3] % 16)
            },
    )
}

pub open spec fn hex_digit(n: u8) -> u8 {
    if n < 10 {
        (0x30 + n) as u8
    } else {
        (0x57 + n) as u8
    }
}

proof fn lemma_unescape(s: Seq<u8>, k: int)
    requires
        0 <= k <= s.len(),
    ensures
        crate::ui::unescaped(escapes(s), 3 * k) == s.skip(k),
    decreases s.len() - k,
{
    let e = escapes(s);
    if k < s.len() {
        lemma_unescape(s, k + 1);
        let b = s[k];
        assert(e[3 * k] == 0x25);
        assert((3 * k + 1) / 3 == k && (3 * k + 1) % 3 == 1);
        assert((3 * k + 2) / 3 == k && (3 * k + 2) % 3 == 2);
        assert(e[3 * k + 1] == hex_digit(b / 16));
        assert(e[3 * k + 2] == hex_digit(b % 16));
        assert(crate::ui::hex_byte_value(hex_digit(b / 16)) == Some((b / 16) as u8));
        assert(crate::ui::hex_byte_value(hex_digit(b % 16)) == Some((b % 16) as u8));
        assert(crate::ui::is_escape(e, 3 * k));
        assert((b / 16) * 16 + b % 16 == b);
        assert(seq![b] + s.skip(k + 1) =~= s.skip(k));
        assert(3 * k + 3 == 3 * (k + 1));
    } else {
        assert(s.skip(k) =~= Seq::<u8>::empty());
    }
}

/// Bytes written as escapes are read back, and bytes without a percent sign
/// stand for themselves.
pub proof fn escapes_read_back(s: Seq<u8>)
    ensures
        crate::ui::unescaped(escapes(s), 0) == s,
        (forall|k: int| 0 <= k < s.len() ==> #[trigger] s[k] != 0x25) ==> crate::ui::unescaped(s, 0)
            == s,
{
    lemma_unescape(s, 0);
    assert(s.skip(0) =~= s);
    if forall|k: int| 0 <= k < s.len() ==> #[trigger] s[k] != 0x25 {
        lemma_plain(s, 0);
    }
}

proof fn lemma_plain(s: Seq<u8>, i: int)
    requires
        0 <= i <= s.len(),
        forall|k: int| 0 <= k < s.len() ==> #[trigger] s[k] != 0x25,
    ensures
        crate::ui::unescaped(s, i) == s.skip(i),
    decreases s.len() - i,
{
    if i < s.len() {
        lemma_plain(s, i + 1);
        assert(s[i] != 0x25);
        assert(seq![s[i]] + s.skip(i + 1) =~= s.skip(i));
    } else {
        assert(s.skip(i) =~= Seq::<u8>::empty());
    }
}

// Headers.

/// The value of a header is that of the first with its name.
pub proof fn headers_are_found_by_name(
    headers: Seq<(Seq<char>, Seq<char>)>,
    name: Seq<char>,
    from: int,
)
    requires
        0 <= from <= headers.len(),
    ensures
        match crate::ui::header(headers, name, from) {
            Some(v) => exists|i: int|
                {
                    &&& from <= i < headers.len()
                    &&& #[trigger] headers[i] == (name, v)
                    &&& forall|k: int| from <= k < i ==> (#[trigger] headers[k]).0 != name
                },
            None => forall|k: int|
                from <= k < headers.len() ==> (#[trigger] headers[k]).0 != name,
        },
    decreases headers.len() - from,
{
    if from < headers.len() {
        if headers[from].0 == name {
            assert(headers[from] == (name, headers[from].1));
        } else {
            headers_are_found_by_name(headers, name, from + 1);
            if let Some(v) = crate::ui::header(headers, name, from + 1) {
                let i = choose|i: int|
                    {
                        &&& from + 1 <= i < headers.len()
                        &&& #[trigger] headers[i] == (name, v)
                        &&& forall|k: int| from + 1 <= k < i ==> (#[trigger] headers[k]).0 != name
                    };
                assert(headers[i] == (name, v));
            }
        }
    }
}

/// A header says that the content is JSON.
pub open spec fn is_json_header(h: (Seq<char>, Seq<char>)) -> bool {
    let json = "application/json"@;
    h.0 == "content-type"@ && h.1.len() >= json.len() && h.1.take(json.len() as int) == json
}

proof fn lemma_says_json(headers: Seq<(Seq<char>, Seq<char>)>, from: int)
    requires
        0 <= from <= headers.len(),
    ensures
        crate::ui::says_json(headers, from) <==> exists|i: int|
            from <= i < headers.len() && is_json_header(#[trigger] headers[i]),
    decreases headers.len() - from,
{
    if from < headers.len() {
        lemma_says_json(headers, from + 1);
        let h = headers[from];
        let json = "application/json"@;
        if h.1.len() >= json.len() {
            assert(h.1.subrange(0, json.len() as int) =~= h.1.take(json.len() as int));
        }
        assert(is_json_header(h) == (h.0 == "content-type"@ && crate::text::stands_at(
            h.1,
            json,
            0,
        )));
        if is_json_header(h) {
            assert(is_json_header(headers[from]));
        } else if crate::ui::says_json(headers, from + 1) {
            let i = choose|i: int|
                from + 1 <= i < headers.len() && is_json_header(#[trigger] headers[i]);
            assert(is_json_header(headers[i]));
        }
    }
}

/// What changes a file or renders is done for a POST with a JSON content type,
/// and refused without one.
pub proof fn posts_are_answered(req: RequestView)
    requires
        req.method == "POST"@,
    ensures
        ({
            let json = exists|i: int|
                0 <= i < req.headers.len() && is_json_header(#[trigger] req.headers[i]);
            &&& crate::ui::bare_path(req.path) == "/api/check"@ && json ==> crate::ui::route_of(req)
                is Check
            &&& crate::ui::bare_path(req.path) == "/api/render"@ && json ==> crate::ui::route_of(
                req,
            ) is Render
            &&& !json ==> crate::ui::route_of(req) is Reply
            &&& crate::ui::bare_path(req.path) != "/api/check"@ && crate::ui::bare_path(req.path)
                != "/api/render"@ ==> crate::ui::route_of(req) is Reply
        }),
{
    reveal_strlit("POST");
    reveal_strlit("GET");
    reveal_strlit("HEAD");
    reveal_strlit("/api/check");
    reveal_strlit("/api/render");
    assert("POST"@[0] == 'P' && "GET"@[0] == 'G' && "HEAD"@[0] == 'H');
    assert("/api/check"@.len() == 10 && "/api/render"@.len() == 11);
    lemma_says_json(req.headers, 0);
}

/// What is read is read by a GET: the page, the scene, its assets and its
/// timings, each under its own path.
pub proof fn gets_are_answered(req: RequestView)
    requires
        req.method == "GET"@,
    ensures
        crate::ui::bare_path(req.path) == "/"@ <==> crate::ui::route_of(req) is Page,
        crate::ui::bare_path(req.path) == "/api/scene"@ <==> crate::ui::route_of(req) is Scene,
        crate::ui::bare_path(req.path) == "/api/assets"@ <==> crate::ui::route_of(req) is Assets,
        crate::ui::bare_path(req.path) == "/api/timings"@ <==> crate::ui::route_of(req) is Timings,
{
    reveal_strlit("POST");
    reveal_strlit("GET");
    reveal_strlit("/");
    reveal_strlit("/api/scene");
    reveal_strlit("/api/assets");
    reveal_strlit("/api/timings");
    assert("POST"@[0] == 'P' && "GET"@[0] == 'G');
    assert("/"@.len() == 1 && "/api/scene"@.len() == 10 && "/api/assets"@.len() == 11
        && "/api/timings"@.len() == 12);
}

/// The query of a request does not matter to what it asks for.
pub proof fn queries_do_not_matter(req: RequestView, query: Seq<char>)
    requires
        forall|k: int| 0 <= k < req.path.len() ==> #[trigger] req.path[k] != '?',
    ensures
        crate::ui::route_of(
            RequestView { path: req.path + seq!['?'] + query, ..req },
        ) == crate::ui::route_of(req),
{
    crate::value_laws::lemma_apart(req.path, '?', query);
    crate::value_laws::lemma_first(req.path, '?', 0, req.path.len() as int);
    assert(req.path.take(req.path.len() as int) =~= req.path);
}

// Files.

proof fn lemma_last_part(s: Seq<char>, dot: int, n: int)
    requires
        0 <= dot < n <= s.len(),
        s[dot] == '.',
        forall|k: int| dot < k < n ==> #[trigger] s[k] != '.',
    ensures
        crate::ui::last_part(s, n) == dot + 1,
    decreases n,
{
    if n - 1 > dot {
        assert(s[n - 1] != '.');
        lemma_last_part(s, dot, n - 1);
    }
}

/// A file is of the type of its extension, what comes after its last point.
pub proof fn types_go_by_extension(stem: Seq<char>, e: Seq<char>)
    requires
        forall|k: int| 0 <= k < e.len() ==> #[trigger] e[k] != '.',
    ensures
        crate::ui::extension(stem + "."@ + e) == e,
        crate::ui::type_of_extension("mp4"@) == "video/mp4"@,
        crate::ui::type_of_extension("m4v"@) == "video/mp4"@,
        crate::ui::type_of_extension("mov"@) == "video/mp4"@,
        crate::ui::type_of_extension("wav"@) == "audio/wav"@,
        crate::ui::type_of_extension("mp3"@) == "audio/mpeg"@,
        crate::ui::type_of_extension("png"@) == "image/png"@,
        crate::ui::type_of_extension("jpg"@) == "image/jpeg"@,
        crate::ui::type_of_extension("jpeg"@) == "image/jpeg"@,
        crate::ui::type_of_extension("json"@) == "application/json"@,
{
    reveal_strlit(".");
    let s = stem + "."@ + e;
    let d = stem.len() as int;
    assert(s[d] == '.');
    assert forall|k: int| d < k < s.len() implies #[trigger] s[k] != '.' by {
        assert(s[k] == e[k - d - 1]);
    }
    lemma_last_part(s, d, s.len() as int);
    assert(s.skip(d + 1) =~= e);
    reveal_strlit("mp4");
    reveal_strlit("m4v");
    reveal_strlit("mov");
    reveal_strlit("wav");
    reveal_strlit("mp3");
    reveal_strlit("png");
    reveal_strlit("jpg");
    reveal_strlit("jpeg");
    reveal_strlit("json");
    assert("mp4"@[1] == 'p' && "mp4"@[2] == '4' && "m4v"@[1] == '4' && "mov"@[1] == 'o' && "mp3"@[2]
        == '3' && "mp3"@[1] == 'p');
    assert("wav"@[0] == 'w' && "png"@[0] == 'p' && "jpg"@[0] == 'j' && "mp3"@[0] == 'm'
        && "mp4"@[0] == 'm' && "m4v"@[0] == 'm' && "mov"@[0] == 'm');
    assert("jpeg"@.len() == 4 && "json"@.len() == 4 && "jpeg"@[1] == 'p' && "json"@[1] == 's');
}

} // verus!
