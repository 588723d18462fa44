//! The localhost test UI: requests read off the wire, routing, file serving
//! with byte ranges, and the JSON that the page is answered with.
//!
//! The server is serial, reads and writes sockets and files, and hands what
//! it read to the functions here.

use vstd::prelude::*;
use vstd::slice::{slice_subrange, slice_to_vec};

use crate::diagnostic::{Diagnostic, DiagnosticView, Severity};
use crate::engine::{asset_warnings, BundleView, DiagBundle};
use crate::json::{array_json, bool_json, lossy, quoted, strings_json, text_field};
use crate::lower::sorted_names;
use crate::markup::compile;
use crate::render::{RenderError, RenderReport};
use crate::scene::Scene;
use crate::text::{
    at, byte_offsets, cat2, cat3, cat4, cat5, chars_of, contains, dec_text, find_char,
    parse_unsigned, split_lines, split_words, spells, string_of, text_eq, trim,
};

verus! {

/// A request head longer than this is not read on.
pub const MAX_HEAD: usize = 16_384;

/// A request body is cut here.
pub const MAX_BODY: usize = 4_194_304;

// Bytes.

/// Whether `needle` stands in `hay` at `i`.
pub open spec fn bytes_at(hay: Seq<u8>, needle: Seq<u8>, i: int) -> bool {
    0 <= i && i + needle.len() <= hay.len() && hay.subrange(i, i + needle.len()) == needle
}

/// The first position of `needle`.
pub fn find(hay: &[u8], needle: &[u8]) -> (r: Option<usize>)
    requires
        needle@.len() > 0,
    ensures
        match r {
            Some(i) => bytes_at(hay@, needle@, i as int) && forall|j: int|
                0 <= j < i ==> !#[trigger] bytes_at(hay@, needle@, j),
            None => forall|j: int| !#[trigger] bytes_at(hay@, needle@, j),
        },
{
    let mut i: usize = 0;
    while i < hay.len() && needle.len() <= hay.len() - i
        invariant
            i <= hay@.len(),
            needle@.len() > 0,
            forall|j: int| 0 <= j < i ==> !#[trigger] bytes_at(hay@, needle@, j),
        decreases hay@.len() - i,
    {
        let mut k: usize = 0;
        let mut same = true;
        while k < needle.len() && same
            invariant
                k <= needle@.len(),
                i + needle@.len() <= hay@.len(),
                hay@.len() <= usize::MAX,
                same ==> forall|m: int| 0 <= m < k ==> hay@[i + m] == needle@[m],
                !same ==> !bytes_at(hay@, needle@, i as int),
            decreases needle@.len() - k, same as int,
        {
            if hay[i + k] != needle[k] {
                assert(hay@.subrange(i as int, i + needle@.len())[k as int] != needle@[k as int]);
                same = false;
            } else {
                k = k + 1;
            }
        }
        if same {
            assert(hay@.subrange(i as int, i + needle@.len()) =~= needle@);
            return Some(i);
        }
        i = i + 1;
    }
    None
}

pub open spec fn hex_byte_value(b: u8) -> Option<u8> {
    if 0x30 <= b <= 0x39 {
        Some((b - 0x30) as u8)
    } else if 0x61 <= b <= 0x66 {
        Some((b - 0x61 + 10) as u8)
    } else if 0x41 <= b <= 0x46 {
        Some((b - 0x41 + 10) as u8)
    } else {
        None
    }
}

fn hex_value_of(b: u8) -> (r: Option<u8>)
    ensures
        r == hex_byte_value(b),
        r matches Some(v) ==> v < 16,
{
    if 0x30 <= b && b <= 0x39 {
        Some(b - 0x30)
    } else if 0x61 <= b && b <= 0x66 {
        Some(b - 0x61 + 10)
    } else if 0x41 <= b && b <= 0x46 {
        Some(b - 0x41 + 10)
    } else {
        None
    }
}

/// Whether an escape such as `%2f` stands at `i`.
pub open spec fn is_escape(s: Seq<u8>, i: int) -> bool {
    &&& 0 <= i && i + 2 < s.len()
    &&& s[i] == 0x25
    &&& hex_byte_value(s[i + 1]) is Some
    &&& hex_byte_value(s[i + 2]) is Some
}

/// The bytes from `i` on with the escapes read; a `%` that starts no escape
/// stands for itself.
pub open spec fn unescaped(s: Seq<u8>, i: int) -> Seq<u8>
    decreases s.len() - i,
{
    if i < 0 || i >= s.len() {
        Seq::empty()
    } else if is_escape(s, i) {
        seq![(hex_byte_value(s[i + 1])->0 * 16 + hex_byte_value(s[i + 2])->0) as u8] + unescaped(
            s,
            i + 3,
        )
    } else {
        seq![s[i]] + unescaped(s, i + 1)
    }
}

/// Reads the escapes of a URL part.
pub fn percent_decode(bytes: &[u8]) -> (r: Vec<u8>)
    ensures
        r@ == unescaped(bytes@, 0),
{
    let mut out: Vec<u8> = Vec::new();
    let mut i: usize = 0;
    assert(out@ + unescaped(bytes@, 0) =~= unescaped(bytes@, 0));
    while i < bytes.len()
        invariant
            i <= bytes@.len(),
            out@ + unescaped(bytes@, i as int) == unescaped(bytes@, 0),
        decreases bytes@.len() - i,
    {
        let ghost before = out@;
        let mut escape: Option<u8> = None;
        if bytes[i] == 0x25 && bytes.len() - i > 2 {
            match (hex_value_of(bytes[i + 1]), hex_value_of(bytes[i + 2])) {
                (Some(h), Some(l)) => {
                    escape = Some(h * 16 + l);
                },
                _ => {},
            }
        }
        assert(escape is Some == is_escape(bytes@, i as int));
        match escape {
            Some(b) => {
                out.push(b);
                assert(out@ + unescaped(bytes@, i + 3) =~= before + unescaped(bytes@, i as int));
                i = i + 3;
            },
            None => {
                out.push(bytes[i]);
                assert(out@ + unescaped(bytes@, i + 1) =~= before + unescaped(bytes@, i as int));
                i = i + 1;
            },
        }
    }
    assert(out@ + unescaped(bytes@, i as int) =~= out@);
    out
}

proof fn lemma_nothing_to_unescape(s: Seq<u8>, i: int)
    requires
        0 <= i <= s.len(),
        forall|k: int| 0 <= k < s.len() ==> #[trigger] s[k] != 0x25,
    ensures
        unescaped(s, i) == s.skip(i),
    decreases s.len() - i,
{
    if i < s.len() {
        lemma_nothing_to_unescape(s, i + 1);
        assert(s[i] != 0x25);
        assert(seq![s[i]] + s.skip(i + 1) =~= s.skip(i));
    } else {
        assert(s.skip(i) =~= Seq::<u8>::empty());
    }
}

/// A URL part with its escapes read. Bytes that are no UTF-8 are replaced; a
/// part without `%` is left as it is.
pub fn url_decode(s: &str) -> (r: String)
    ensures
        r@ == crate::json::utf8_lossy(unescaped(vstd::utf8::encode_utf8(s@), 0)),
        vstd::utf8::valid_utf8(unescaped(vstd::utf8::encode_utf8(s@), 0)) ==> r@
            == vstd::utf8::decode_utf8(unescaped(vstd::utf8::encode_utf8(s@), 0)),
        (forall|k: int|
            0 <= k < vstd::utf8::encode_utf8(s@).len() ==> #[trigger] vstd::utf8::encode_utf8(s@)[k]
                != 0x25) ==> r@ == s@,
{
    let bytes = s.as_bytes();
    let decoded = percent_decode(bytes);
    proof {
        let e = vstd::utf8::encode_utf8(s@);
        if forall|k: int| 0 <= k < e.len() ==> #[trigger] e[k] != 0x25 {
            lemma_nothing_to_unescape(e, 0);
            assert(e.skip(0) =~= e);
            vstd::utf8::encode_utf8_valid_utf8(s@);
            vstd::utf8::encode_utf8_decode_utf8(s@);
        }
    }
    lossy(decoded.as_slice())
}

// Requests.

#[derive(Debug)]
pub struct Request {
    pub method: String,
    pub path: String,
    /// Names in lower case, values trimmed.
    pub headers: Vec<(String, String)>,
    pub body: Vec<u8>,
}

pub struct RequestView {
    pub method: Seq<char>,
    pub path: Seq<char>,
    pub headers: Seq<(Seq<char>, Seq<char>)>,
    pub body: Seq<u8>,
}

impl View for Request {
    type V = RequestView;

    open spec fn view(&self) -> RequestView {
        RequestView {
            method: self.method@,
            path: self.path@,
            headers: crate::writer::pair_views(self.headers@),
            body: self.body@,
        }
    }
}

/// A text in lower case, as `std` has it.
pub uninterp spec fn lowercase(s: Seq<char>) -> Seq<char>;

pub open spec fn ascii_lower(s: Seq<char>) -> Seq<char> {
    Seq::new(s.len(), |i: int| crate::number::lower_char(s[i]))
}

/// `str::to_lowercase`: on ASCII text, `A` to `Z` become `a` to `z` and the
/// rest stays. What becomes of other characters is left to `std`; the result
/// depends on the text alone.
#[verifier::external_body]
fn to_lower(s: &str) -> (r: String)
    ensures
        r@ == lowercase(s@),
        crate::scene::all_ascii(s@) ==> r@ == ascii_lower(s@),
{
    s.to_lowercase()
}

/// The header that a line holds.
pub open spec fn header_of(line: Seq<char>) -> Option<(Seq<char>, Seq<char>)> {
    let colon = crate::text::find_from(line, ':', 0);
    if colon < line.len() {
        Some(
            (
                lowercase(crate::text::trimmed(line.take(colon))),
                crate::text::trimmed(line.skip(colon + 1)),
            ),
        )
    } else {
        None
    }
}

/// The headers among lines 1 to `n` of a head; line 0 is the request line.
pub open spec fn headers_of(text: Seq<char>, n: int) -> Seq<(Seq<char>, Seq<char>)>
    decreases n,
{
    let lines = crate::text::lines_from(text, 0);
    if n <= 1 || n > lines.len() {
        Seq::empty()
    } else {
        match header_of(text.subrange(lines[n - 1].0, lines[n - 1].1)) {
            Some(h) => headers_of(text, n - 1).push(h),
            None => headers_of(text, n - 1),
        }
    }
}

/// A stated body length, capped; what is no number is none.
pub open spec fn stated_length(v: Seq<char>) -> int {
    match crate::text::unsigned(v, usize::MAX as nat) {
        Some(n) => if n <= MAX_BODY {
            n as int
        } else {
            MAX_BODY as int
        },
        None => 0,
    }
}

/// The body length that the first `n` headers state; the last one counts.
pub open spec fn body_length(headers: Seq<(Seq<char>, Seq<char>)>, n: int) -> int
    decreases n,
{
    if n <= 0 || n > headers.len() {
        0
    } else if headers[n - 1].0 == "content-length"@ {
        stated_length(headers[n - 1].1)
    } else {
        body_length(headers, n - 1)
    }
}

/// The head of a request.
#[derive(Debug)]
pub struct Head {
    pub method: String,
    pub path: String,
    pub headers: Vec<(String, String)>,
    pub length: usize,
}

pub struct HeadView {
    pub method: Seq<char>,
    pub path: Seq<char>,
    pub headers: Seq<(Seq<char>, Seq<char>)>,
    pub length: int,
}

impl View for Head {
    type V = HeadView;

    open spec fn view(&self) -> HeadView {
        HeadView {
            method: self.method@,
            path: self.path@,
            headers: crate::writer::pair_views(self.headers@),
            length: self.length as int,
        }
    }
}

/// The head that a text spells: a method and a path on the first line, then
/// headers.
pub open spec fn head_of(text: Seq<char>) -> Option<HeadView> {
    let words = crate::text::words(crate::engine::first_line(text));
    let n = crate::text::lines_from(text, 0).len() as int;
    let headers = headers_of(text, n);
    if words.len() < 2 {
        None
    } else {
        Some(
            HeadView {
                method: words[0],
                path: words[1],
                headers,
                length: body_length(headers, headers.len() as int),
            },
        )
    }
}

pub open spec fn head_view(h: Option<Head>) -> Option<HeadView> {
    match h {
        Some(v) => Some(v@),
        None => None,
    }
}

fn read_header(line: &[char]) -> (r: Option<(String, String)>)
    ensures
        match r {
            Some(h) => header_of(line@) == Some((h.0@, h.1@)),
            None => header_of(line@) is None,
        },
{
    let colon = find_char(line, ':', 0);
    if colon == line.len() {
        return None;
    }
    let head = slice_subrange(line, 0, colon);
    let rest = slice_subrange(line, colon + 1, line.len());
    assert(head@ =~= line@.take(colon as int));
    assert(rest@ =~= line@.skip(colon + 1));
    let name = string_of(trim(head));
    Some((to_lower(name.as_str()), string_of(trim(rest))))
}

fn read_length(v: &str) -> (r: usize)
    ensures
        r == stated_length(v@),
{
    let cs = chars_of(v);
    match parse_unsigned(cs.as_slice(), usize::MAX as u64) {
        Some(n) => if n <= MAX_BODY as u64 {
            n as usize
        } else {
            MAX_BODY
        },
        None => 0,
    }
}

/// Reads the head of a request.
pub fn parse_head(text: &str) -> (r: Option<Head>)
    ensures
        head_view(r) == head_of(text@),
{
    let cs = chars_of(text);
    let lines = split_lines(cs.as_slice());
    let ghost bounds = crate::text::lines_from(cs@, 0);
    if lines.len() == 0 {
        assert(bounds.len() == 0);
        assert(crate::engine::first_line(text@) =~= Seq::<char>::empty());
        assert(crate::text::words(Seq::<char>::empty()).len() == 0);
        return None;
    }
    let (start, end) = lines[0];
    assert(bounds[0] == (start as int, end as int));
    let mut words = split_words(slice_subrange(cs.as_slice(), start, end));
    let ghost spelled = crate::text::text_views(words@);
    if words.len() < 2 {
        return None;
    }
    let mut headers: Vec<(String, String)> = Vec::new();
    let mut length: usize = 0;
    let mut i: usize = 1;
    assert(crate::writer::pair_views(headers@) =~= headers_of(text@, 1));
    while i < lines.len()
        invariant
            1 <= i <= lines@.len(),
            cs@ == text@,
            bounds == crate::text::lines_from(text@, 0),
            bounds == crate::text::bound_views(lines@),
            forall|k: int|
                0 <= k < lines@.len() ==> (#[trigger] lines@[k]).0 <= lines@[k].1 <= cs@.len(),
            crate::writer::pair_views(headers@) == headers_of(text@, i as int),
            length == body_length(
                crate::writer::pair_views(headers@),
                headers@.len() as int,
            ),
        decreases lines@.len() - i,
    {
        let (a, b) = lines[i];
        assert(bounds[i as int] == (a as int, b as int));
        match read_header(slice_subrange(cs.as_slice(), a, b)) {
            Some(h) => {
                let ghost before = crate::writer::pair_views(headers@);
                if text_eq(h.0.as_str(), "content-length") {
                    length = read_length(h.1.as_str());
                }
                headers.push(h);
                assert(crate::writer::pair_views(headers@) =~= before.push((h.0@, h.1@)));
                proof {
                    lemma_length_prefix(
                        before,
                        crate::writer::pair_views(headers@),
                        before.len() as int,
                    );
                }
            },
            None => {},
        }
        i = i + 1;
    }
    assert(spelled[0] == words@[0]@ && spelled[1] == words@[1]@);
    let path: String = words[1].clone();
    let method: String = words[0].clone();
    Some(Head { method, path, headers, length })
}

proof fn lemma_length_prefix(
    a: Seq<(Seq<char>, Seq<char>)>,
    b: Seq<(Seq<char>, Seq<char>)>,
    n: int,
)
    requires
        n <= a.len(),
        n <= b.len(),
        forall|i: int| 0 <= i < n ==> a[i] == b[i],
    ensures
        body_length(a, n) == body_length(b, n),
    decreases n,
{
    if n > 0 {
        lemma_length_prefix(a, b, n - 1);
    }
}

/// A request that is being read.
#[derive(Debug)]
pub struct RequestReader {
    head: Option<Head>,
    /// What was read: of the head, while there is none; then of the body.
    bytes: Vec<u8>,
}

pub struct ReaderView {
    pub head: Option<HeadView>,
    pub bytes: Seq<u8>,
}

/// What to do after a read.
#[derive(Debug)]
pub enum ReadStep {
    More,
    /// Unreadable: close the connection.
    Close,
    Ready(Request),
}

pub enum ReadStepView {
    More,
    Close,
    Ready(RequestView),
}

impl View for ReadStep {
    type V = ReadStepView;

    open spec fn view(&self) -> ReadStepView {
        match self {
            ReadStep::More => ReadStepView::More,
            ReadStep::Close => ReadStepView::Close,
            ReadStep::Ready(r) => ReadStepView::Ready(r@),
        }
    }
}

/// The first `n` bytes, or all of them.
pub open spec fn truncated(s: Seq<u8>, n: int) -> Seq<u8> {
    if 0 <= n < s.len() {
        s.take(n)
    } else {
        s
    }
}

pub open spec fn request_of(h: HeadView, body: Seq<u8>) -> RequestView {
    RequestView {
        method: h.method,
        path: h.path,
        headers: h.headers,
        body: truncated(body, h.length),
    }
}

/// The blank line that ends a head.
pub open spec fn blank_line() -> Seq<u8> {
    seq![13u8, 10u8, 13u8, 10u8]
}

/// `end` is where the head of `bytes` ends.
pub open spec fn is_head_end(bytes: Seq<u8>, end: int) -> bool {
    &&& bytes_at(bytes, blank_line(), end - 4)
    &&& forall|j: int| 0 <= j < end - 4 ==> !#[trigger] bytes_at(bytes, blank_line(), j)
}

pub open spec fn has_head(bytes: Seq<u8>) -> bool {
    exists|end: int| is_head_end(bytes, end)
}

/// What a body that is being read comes to: it ends when it is long enough,
/// or when nothing more comes.
pub open spec fn body_step(h: HeadView, body: Seq<u8>, ended: bool) -> (ReaderView, ReadStepView) {
    (
        ReaderView { head: Some(h), bytes: body },
        if ended || body.len() >= h.length {
            ReadStepView::Ready(request_of(h, body))
        } else {
            ReadStepView::More
        },
    )
}

/// One read of a request: `chunk` is what came, nothing at the end of the
/// stream.
pub open spec fn read_step(
    before: ReaderView,
    chunk: Seq<u8>,
    after: ReaderView,
    step: ReadStepView,
) -> bool {
    let bytes = before.bytes + chunk;
    match before.head {
        Some(h) => (after, step) == body_step(h, bytes, chunk.len() == 0),
        None => if chunk.len() == 0 {
            step == ReadStepView::Close
        } else if has_head(bytes) {
            exists|end: int|
                #[trigger] is_head_end(bytes, end) && match head_of(
                    crate::json::utf8_lossy(bytes.take(end)),
                ) {
                    None => step == ReadStepView::Close,
                    Some(h) => (after, step) == body_step(h, bytes.skip(end), false),
                }
        } else if bytes.len() > MAX_HEAD {
            step == ReadStepView::Close
        } else {
            step == ReadStepView::More && after == (ReaderView { head: None, bytes })
        },
    }
}

fn push_bytes(out: &mut Vec<u8>, chunk: &[u8])
    ensures
        final(out)@ == old(out)@ + chunk@,
{
    let mut i: usize = 0;
    assert(out@ =~= old(out)@ + chunk@.take(0));
    while i < chunk.len()
        invariant
            i <= chunk@.len(),
            out@ == old(out)@ + chunk@.take(i as int),
        decreases chunk@.len() - i,
    {
        out.push(chunk[i]);
        assert(chunk@.take(i + 1) =~= chunk@.take(i as int).push(chunk@[i as int]));
        i = i + 1;
    }
    assert(chunk@.take(chunk@.len() as int) =~= chunk@);
}

fn finish_request(h: &Head, body: &Vec<u8>) -> (r: Request)
    ensures
        r@ == request_of(h@, body@),
{
    let n: usize = if h.length < body.len() {
        h.length
    } else {
        body.len()
    };
    let kept = slice_to_vec(slice_subrange(body.as_slice(), 0, n));
    assert(kept@ =~= truncated(body@, h@.length));
    let mut headers: Vec<(String, String)> = Vec::new();
    let mut i: usize = 0;
    while i < h.headers.len()
        invariant
            i <= h.headers@.len(),
            headers@.len() == i,
            forall|k: int|
                0 <= k < i ==> (#[trigger] headers@[k]).0@ == h.headers@[k].0@ && headers@[k].1@
                    == h.headers@[k].1@,
        decreases h.headers@.len() - i,
    {
        headers.push((h.headers[i].0.clone(), h.headers[i].1.clone()));
        i = i + 1;
    }
    assert(crate::writer::pair_views(headers@) =~= crate::writer::pair_views(h.headers@));
    Request { method: h.method.clone(), path: h.path.clone(), headers, body: kept }
}

impl RequestReader {
    pub closed spec fn view(&self) -> ReaderView {
        ReaderView { head: head_view(self.head), bytes: self.bytes@ }
    }

    pub fn new() -> (r: Self)
        ensures
            r@ == (ReaderView { head: None, bytes: Seq::empty() }),
    {
        RequestReader { head: None, bytes: Vec::new() }
    }

    /// Takes what was read, nothing at the end of the stream.
    pub fn offer(&mut self, chunk: &[u8]) -> (r: ReadStep)
        ensures
            read_step(old(self)@, chunk@, final(self)@, r@),
    {
        push_bytes(&mut self.bytes, chunk);
        let ended = chunk.len() == 0;
        match &self.head {
            Some(h) => {
                return if ended || self.bytes.len() >= h.length {
                    ReadStep::Ready(finish_request(h, &self.bytes))
                } else {
                    ReadStep::More
                };
            },
            None => {},
        }
        if ended {
            return ReadStep::Close;
        }
        let ghost bytes = self.bytes@;
        let blank: [u8; 4] = [13, 10, 13, 10];
        assert(blank@ =~= blank_line());
        match find(self.bytes.as_slice(), blank.as_slice()) {
            Some(pos) => {
                let total: usize = self.bytes.len();
                assert(pos + 4 <= total);
                let end: usize = pos + 4;
                assert(is_head_end(bytes, end as int));
                let text = lossy(slice_subrange(self.bytes.as_slice(), 0, end));
                assert(bytes.subrange(0, end as int) =~= bytes.take(end as int));
                match parse_head(text.as_str()) {
                    None => ReadStep::Close,
                    Some(h) => {
                        let body = slice_to_vec(
                            slice_subrange(self.bytes.as_slice(), end, self.bytes.len()),
                        );
                        assert(body@ =~= bytes.skip(end as int));
                        let step = if body.len() >= h.length {
                            ReadStep::Ready(finish_request(&h, &body))
                        } else {
                            ReadStep::More
                        };
                        self.bytes = body;
                        self.head = Some(h);
                        step
                    },
                }
            },
            None => {
                assert(!has_head(bytes)) by {
                    if has_head(bytes) {
                        let end = choose|end: int| is_head_end(bytes, end);
                        assert(bytes_at(bytes, blank_line(), end - 4));
                    }
                }
                if self.bytes.len() > MAX_HEAD {
                    ReadStep::Close
                } else {
                    ReadStep::More
                }
            },
        }
    }
}

/// There is one end of a head, so a read of a request decides one thing.
pub proof fn head_end_is_unique(bytes: Seq<u8>, a: int, b: int)
    requires
        is_head_end(bytes, a),
        is_head_end(bytes, b),
    ensures
        a == b,
{
    if a < b {
        assert(!bytes_at(bytes, blank_line(), a - 4));
    } else if b < a {
        assert(!bytes_at(bytes, blank_line(), b - 4));
    }
}

/// Where the head of `bytes` ends.
pub open spec fn head_end(bytes: Seq<u8>) -> int {
    choose|end: int| is_head_end(bytes, end)
}

/// What a reader holds that was offered `bytes` so far.
pub open spec fn reader_of(bytes: Seq<u8>) -> ReaderView {
    if has_head(bytes) {
        ReaderView {
            head: head_of(crate::json::utf8_lossy(bytes.take(head_end(bytes)))),
            bytes: bytes.skip(head_end(bytes)),
        }
    } else {
        ReaderView { head: None, bytes }
    }
}

/// What is made of `bytes`, as far as they came.
pub open spec fn reading(bytes: Seq<u8>) -> ReadStepView {
    if has_head(bytes) {
        match head_of(crate::json::utf8_lossy(bytes.take(head_end(bytes)))) {
            None => ReadStepView::Close,
            Some(h) => body_step(h, bytes.skip(head_end(bytes)), false).1,
        }
    } else if bytes.len() > MAX_HEAD {
        ReadStepView::Close
    } else {
        ReadStepView::More
    }
}

proof fn lemma_head_end(bytes: Seq<u8>, end: int)
    requires
        is_head_end(bytes, end),
    ensures
        has_head(bytes),
        head_end(bytes) == end,
        4 <= end <= bytes.len(),
{
    assert(has_head(bytes));
    head_end_is_unique(bytes, head_end(bytes), end);
}

/// A head that has ended ends there, whatever comes behind it.
proof fn lemma_head_stays(bytes: Seq<u8>, more: Seq<u8>, end: int)
    requires
        is_head_end(bytes, end),
    ensures
        is_head_end(bytes + more, end),
        (bytes + more).take(end) == bytes.take(end),
        (bytes + more).skip(end) == bytes.skip(end) + more,
{
    let all = bytes + more;
    lemma_head_end(bytes, end);
    assert forall|j: int| 0 <= j <= end - 4 implies #[trigger] bytes_at(all, blank_line(), j)
        == bytes_at(bytes, blank_line(), j) by {
        assert(all.subrange(j, j + 4) =~= bytes.subrange(j, j + 4));
    }
    assert(bytes_at(all, blank_line(), end - 4) == bytes_at(bytes, blank_line(), end - 4));
    assert forall|j: int| 0 <= j < end - 4 implies !#[trigger] bytes_at(all, blank_line(), j) by {
        assert(!bytes_at(bytes, blank_line(), j));
    }
    assert(all.take(end) =~= bytes.take(end));
    assert(all.skip(end) =~= bytes.skip(end) + more);
}

/// However a request is cut into chunks, what is made of it depends on the
/// bytes alone: a reader that wants more holds what they come to, and its next
/// answer is the one for all of them.
pub proof fn chunks_of_a_request_do_not_matter(
    seen: Seq<u8>,
    chunk: Seq<u8>,
    before: ReaderView,
    after: ReaderView,
    step: ReadStepView,
)
    requires
        before == reader_of(seen),
        reading(seen) is More,
        chunk.len() > 0,
        read_step(before, chunk, after, step),
    ensures
        step == reading(seen + chunk),
        step is More ==> after == reader_of(seen + chunk),
{
    let all = seen + chunk;
    if has_head(seen) {
        let end = head_end(seen);
        lemma_head_end(seen, end);
        lemma_head_stays(seen, chunk, end);
        lemma_head_end(all, end);
    } else if has_head(all) {
        let end = choose|end: int|
            #[trigger] is_head_end(all, end) && match head_of(
                crate::json::utf8_lossy(all.take(end)),
            ) {
                None => step == ReadStepView::Close,
                Some(h) => (after, step) == body_step(h, all.skip(end), false),
            };
        lemma_head_end(all, end);
    }
}

proof fn lemma_length(headers: Seq<(Seq<char>, Seq<char>)>, n: int)
    ensures
        0 <= body_length(headers, n) <= MAX_BODY,
    decreases n,
{
    if 0 < n <= headers.len() {
        lemma_length(headers, n - 1);
    }
}

/// Bytes that come behind a whole request do not change it.
pub proof fn a_whole_request_stays(bytes: Seq<u8>, more: Seq<u8>)
    requires
        reading(bytes) is Ready,
    ensures
        reading(bytes + more) == reading(bytes),
{
    let end = head_end(bytes);
    lemma_head_end(bytes, end);
    lemma_head_stays(bytes, more, end);
    lemma_head_end(bytes + more, end);
    let h = head_of(crate::json::utf8_lossy(bytes.take(end)))->0;
    let body = bytes.skip(end);
    lemma_length(h.headers, h.headers.len() as int);
    assert(truncated(body + more, h.length) =~= truncated(body, h.length));
}

// Responses.

/// The payload of a response; a file is streamed from `start`.
#[derive(Debug)]
pub enum Body {
    Bytes(Vec<u8>),
    File { start: u64, remaining: u64 },
}

pub enum BodyView {
    Bytes(Seq<u8>),
    File { start: u64, remaining: u64 },
}

#[derive(Debug)]
pub struct Response {
    pub status: u16,
    pub content_type: &'static str,
    pub body_len: u64,
    pub body: Body,
    pub extra_headers: Vec<String>,
}

pub struct ResponseView {
    pub status: u16,
    pub content_type: Seq<char>,
    pub body_len: nat,
    pub body: BodyView,
    pub extra_headers: Seq<Seq<char>>,
}

impl View for Response {
    type V = ResponseView;

    open spec fn view(&self) -> ResponseView {
        ResponseView {
            status: self.status,
            content_type: self.content_type@,
            body_len: self.body_len as nat,
            body: match self.body {
                Body::Bytes(b) => BodyView::Bytes(b@),
                Body::File { start, remaining } => BodyView::File { start, remaining },
            },
            extra_headers: crate::text::text_views(self.extra_headers@),
        }
    }
}

pub open spec fn whole_response(
    status: u16,
    content_type: Seq<char>,
    body: Seq<u8>,
) -> ResponseView {
    ResponseView {
        status,
        content_type,
        body_len: body.len(),
        body: BodyView::Bytes(body),
        extra_headers: Seq::empty(),
    }
}

impl Response {
    pub fn new(status: u16, content_type: &'static str, body: Vec<u8>) -> (r: Self)
        ensures
            r@ == whole_response(status, content_type@, body@),
    {
        let extra_headers: Vec<String> = Vec::new();
        assert(crate::text::text_views(extra_headers@) =~= Seq::<Seq<char>>::empty());
        Response {
            status,
            content_type,
            body_len: body.len() as u64,
            body: Body::Bytes(body),
            extra_headers,
        }
    }

    /// A JSON document.
    pub fn json(text: &str) -> (r: Self)
        ensures
            r@ == whole_response(200, "application/json"@, vstd::utf8::encode_utf8(text@)),
    {
        Response::new(200, "application/json", slice_to_vec(text.as_bytes()))
    }
}

pub open spec fn plain_response(status: u16, text: Seq<char>) -> ResponseView {
    whole_response(status, "text/plain"@, vstd::utf8::encode_utf8(text))
}

fn plain(status: u16, text: &str) -> (r: Response)
    ensures
        r@ == plain_response(status, text@),
{
    Response::new(status, "text/plain", slice_to_vec(text.as_bytes()))
}

pub open spec fn status_line(status: u16) -> Seq<char> {
    if status == 200 {
        "200 OK"@
    } else if status == 206 {
        "206 Partial Content"@
    } else if status == 400 {
        "400 Bad Request"@
    } else if status == 403 {
        "403 Forbidden"@
    } else if status == 404 {
        "404 Not Found"@
    } else if status == 415 {
        "415 Unsupported Media Type"@
    } else {
        "500 Internal Server Error"@
    }
}

/// The first `n` headers, each on its line.
pub open spec fn header_lines(headers: Seq<Seq<char>>, n: int) -> Seq<char>
    decreases n,
{
    if n <= 0 || n > headers.len() {
        Seq::empty()
    } else {
        header_lines(headers, n - 1) + headers[n - 1] + "\r\n"@
    }
}

pub open spec fn response_head_of(r: ResponseView) -> Seq<char> {
    "HTTP/1.1 "@ + status_line(r.status) + "\r\nContent-Type: "@ + r.content_type
        + "\r\nContent-Length: "@ + crate::text::dec(r.body_len) + "\r\nConnection: close\r\n"@
        + header_lines(r.extra_headers, r.extra_headers.len() as int) + "\r\n"@
}

fn status_text(status: u16) -> (r: &'static str)
    ensures
        r@ == status_line(status),
{
    if status == 200 {
        "200 OK"
    } else if status == 206 {
        "206 Partial Content"
    } else if status == 400 {
        "400 Bad Request"
    } else if status == 403 {
        "403 Forbidden"
    } else if status == 404 {
        "404 Not Found"
    } else if status == 415 {
        "415 Unsupported Media Type"
    } else {
        "500 Internal Server Error"
    }
}

/// The head of a response as it goes over the wire.
pub fn response_head(res: &Response) -> (r: String)
    ensures
        r@ == response_head_of(res@),
{
    let length = dec_text(res.body_len);
    let mut out = cat4(
        "HTTP/1.1 ",
        status_text(res.status),
        "\r\nContent-Type: ",
        res.content_type,
    );
    out.append("\r\nContent-Length: ");
    out.append(length.as_str());
    out.append("\r\nConnection: close\r\n");
    let ghost base = out@;
    let ghost all = crate::text::text_views(res.extra_headers@);
    let mut i: usize = 0;
    assert(base + header_lines(all, 0) =~= base);
    while i < res.extra_headers.len()
        invariant
            i <= res.extra_headers@.len(),
            all == crate::text::text_views(res.extra_headers@),
            out@ == base + header_lines(all, i as int),
        decreases res.extra_headers@.len() - i,
    {
        out.append(res.extra_headers[i].as_str());
        out.append("\r\n");
        assert(all[i as int] == res.extra_headers@[i as int]@);
        assert(out@ =~= base + header_lines(all, i + 1));
        i = i + 1;
    }
    out.append("\r\n");
    assert(out@ =~= response_head_of(res@));
    out
}

/// A `HEAD` request is answered without the body.
pub fn sends_body(method: &str) -> (r: bool)
    ensures
        r == (method@ != "HEAD"@),
{
    !text_eq(method, "HEAD")
}

// Routing.

/// What a request asks for.
#[derive(Debug)]
pub enum Action {
    Page,
    Scene,
    Assets,
    Timings,
    Check,
    Render,
    /// A file of the output directory.
    File(String),
    Reply(Response),
}

pub enum ActionView {
    Page,
    Scene,
    Assets,
    Timings,
    Check,
    Render,
    File(Seq<char>),
    Reply(ResponseView),
}

impl View for Action {
    type V = ActionView;

    open spec fn view(&self) -> ActionView {
        match self {
            Action::Page => ActionView::Page,
            Action::Scene => ActionView::Scene,
            Action::Assets => ActionView::Assets,
            Action::Timings => ActionView::Timings,
            Action::Check => ActionView::Check,
            Action::Render => ActionView::Render,
            Action::File(n) => ActionView::File(n@),
            Action::Reply(r) => ActionView::Reply(r@),
        }
    }
}

/// Whether a JSON content type is given, among headers from `i` on.
pub open spec fn says_json(headers: Seq<(Seq<char>, Seq<char>)>, i: int) -> bool
    decreases headers.len() - i,
{
    if i < 0 || i >= headers.len() {
        false
    } else {
        (headers[i].0 == "content-type"@ && crate::text::stands_at(
            headers[i].1,
            "application/json"@,
            0,
        )) || says_json(headers, i + 1)
    }
}

/// A POST has to carry a JSON content type: a page of another origin cannot
/// set it without a preflight, which is never answered.
pub fn post_guard(req: &Request) -> (r: Option<Response>)
    ensures
        match r {
            None => says_json(req@.headers, 0),
            Some(res) => !says_json(req@.headers, 0) && res@ == plain_response(
                415,
                "expected application/json"@,
            ),
        },
{
    let ghost all = req@.headers;
    let kind = chars_of("application/json");
    let mut i: usize = 0;
    while i < req.headers.len()
        invariant
            i <= req.headers@.len(),
            all == req@.headers,
            kind@ == "application/json"@,
            says_json(all, 0) == says_json(all, i as int),
        decreases req.headers@.len() - i,
    {
        assert(all[i as int] == (req.headers@[i as int].0@, req.headers@[i as int].1@));
        let value = chars_of(req.headers[i].1.as_str());
        if text_eq(req.headers[i].0.as_str(), "content-type") && at(
            value.as_slice(),
            kind.as_slice(),
            0,
        ) {
            return None;
        }
        i = i + 1;
    }
    Some(plain(415, "expected application/json"))
}

/// A path without any `/out/` at its front.
pub open spec fn below_out(s: Seq<char>) -> Seq<char>
    decreases s.len(),
{
    if "/out/"@.len() > 0 && crate::text::stands_at(s, "/out/"@, 0) {
        below_out(s.skip("/out/"@.len() as int))
    } else {
        s
    }
}

/// A name that cannot lead out of a directory.
pub open spec fn is_plain_name(name: Seq<char>) -> bool {
    &&& name.len() > 0
    &&& !crate::text::contains_text(name, ".."@)
    &&& !crate::text::has_char(name, '/')
    &&& !crate::text::has_char(name, '\\')
}

fn plain_name(name: &str) -> (r: bool)
    ensures
        r == is_plain_name(name@),
{
    let cs = chars_of(name);
    cs.len() > 0 && !contains(name, "..") && find_char(cs.as_slice(), '/', 0) == cs.len()
        && find_char(cs.as_slice(), '\\', 0) == cs.len()
}

fn strip_out(path: &[char]) -> (r: String)
    ensures
        r@ == below_out(path@),
{
    let out = chars_of("/out/");
    proof {
        reveal_strlit("/out/");
    }
    let n: usize = path.len();
    let mut i: usize = 0;
    assert(path@.skip(0) =~= path@);
    while at(slice_subrange(path, i, n), out.as_slice(), 0)
        invariant
            i <= n,
            n == path@.len(),
            out@ == "/out/"@,
            "/out/"@.len() == 5,
            below_out(path@) == below_out(path@.skip(i as int)),
        decreases n - i,
    {
        assert(path@.subrange(i as int, n as int) =~= path@.skip(i as int));
        assert(path@.skip(i as int).skip(5) =~= path@.skip(i + 5));
        i = i + 5;
    }
    assert(path@.subrange(i as int, n as int) =~= path@.skip(i as int));
    string_of(slice_subrange(path, i, n))
}

/// The file that a path below `/out/` names, with its escapes read.
pub open spec fn file_name_of(path: Seq<char>) -> Seq<char> {
    crate::json::utf8_lossy(unescaped(vstd::utf8::encode_utf8(below_out(path)), 0))
}

/// The path of a request without its query.
pub open spec fn bare_path(path: Seq<char>) -> Seq<char> {
    path.take(crate::text::find_from(path, '?', 0))
}

pub open spec fn file_action(name: Seq<char>) -> ActionView {
    if is_plain_name(name) {
        ActionView::File(name)
    } else {
        ActionView::Reply(plain_response(403, "forbidden"@))
    }
}

pub open spec fn guarded(json: bool, action: ActionView) -> ActionView {
    if json {
        action
    } else {
        ActionView::Reply(plain_response(415, "expected application/json"@))
    }
}

/// What a request asks for, or the refusal that it is answered with.
pub open spec fn route_of(req: RequestView) -> ActionView {
    let path = bare_path(req.path);
    let get = req.method == "GET"@;
    let reads = get || req.method == "HEAD"@;
    let post = req.method == "POST"@;
    if reads && path == "/"@ {
        ActionView::Page
    } else if get && path == "/api/scene"@ {
        ActionView::Scene
    } else if get && path == "/api/assets"@ {
        ActionView::Assets
    } else if get && path == "/api/timings"@ {
        ActionView::Timings
    } else if post && path == "/api/check"@ {
        guarded(says_json(req.headers, 0), ActionView::Check)
    } else if post && path == "/api/render"@ {
        guarded(says_json(req.headers, 0), ActionView::Render)
    } else if reads && crate::text::stands_at(path, "/out/"@, 0) {
        file_action(file_name_of(path))
    } else {
        ActionView::Reply(plain_response(404, "not found"@))
    }
}

/// The action for a file name, once its escapes are read: a name that could
/// lead out of the output directory is refused.
pub fn name_action(name: String) -> (r: Action)
    ensures
        r@ == file_action(name@),
{
    if plain_name(name.as_str()) {
        Action::File(name)
    } else {
        Action::Reply(plain(403, "forbidden"))
    }
}

/// Routes a request.
pub fn route(req: &Request) -> (r: Action)
    ensures
        r@ == route_of(req@),
{
    let cs = chars_of(req.path.as_str());
    let query = find_char(cs.as_slice(), '?', 0);
    let path = slice_subrange(cs.as_slice(), 0, query);
    assert(path@ =~= bare_path(req@.path));
    let get = text_eq(req.method.as_str(), "GET");
    let reads = get || text_eq(req.method.as_str(), "HEAD");
    let post = text_eq(req.method.as_str(), "POST");
    if reads && spells(path, "/") {
        return Action::Page;
    }
    if get && spells(path, "/api/scene") {
        return Action::Scene;
    }
    if get && spells(path, "/api/assets") {
        return Action::Assets;
    }
    if get && spells(path, "/api/timings") {
        return Action::Timings;
    }
    if post && spells(path, "/api/check") {
        return match post_guard(req) {
            Some(res) => Action::Reply(res),
            None => Action::Check,
        };
    }
    if post && spells(path, "/api/render") {
        return match post_guard(req) {
            Some(res) => Action::Reply(res),
            None => Action::Render,
        };
    }
    let out = chars_of("/out/");
    if reads && at(path, out.as_slice(), 0) {
        let part = strip_out(path);
        return name_action(url_decode(part.as_str()));
    }
    Action::Reply(plain(404, "not found"))
}

/// A file is served only under a plain name: nothing outside the output
/// directory can be named.
pub proof fn served_names_are_plain(req: RequestView)
    ensures
        route_of(req) matches ActionView::File(n) ==> is_plain_name(n) && !crate::text::has_char(
            n,
            '/',
        ),
{
}

/// What changes a file, or renders, is reached only by a POST with a JSON
/// content type.
pub proof fn work_needs_a_json_post(req: RequestView)
    ensures
        route_of(req) is Check || route_of(req) is Render ==> req.method == "POST"@ && says_json(
            req.headers,
            0,
        ),
{
}

// Files.

/// The start of the last part of a name, after its last point.
pub open spec fn last_part(s: Seq<char>, n: int) -> int
    decreases n,
{
    if n <= 0 {
        0
    } else if s[n - 1] == '.' {
        n
    } else {
        last_part(s, n - 1)
    }
}

pub open spec fn extension(s: Seq<char>) -> Seq<char> {
    s.skip(last_part(s, s.len() as int))
}

pub open spec fn type_of_extension(e: Seq<char>) -> Seq<char> {
    if e == "mp4"@ || e == "m4v"@ || e == "mov"@ {
        "video/mp4"@
    } else if e == "wav"@ {
        "audio/wav"@
    } else if e == "mp3"@ {
        "audio/mpeg"@
    } else if e == "png"@ {
        "image/png"@
    } else if e == "jpg"@ || e == "jpeg"@ {
        "image/jpeg"@
    } else if e == "json"@ {
        "application/json"@
    } else {
        "application/octet-stream"@
    }
}

/// The content type that goes with a file name.
pub fn content_type(name: &str) -> (r: &'static str)
    ensures
        r@ == type_of_extension(extension(name@)),
{
    let cs = chars_of(name);
    let mut n: usize = cs.len();
    while n > 0 && cs[n - 1] != '.'
        invariant
            n <= cs@.len(),
            last_part(cs@, cs@.len() as int) == last_part(cs@, n as int),
        decreases n,
    {
        n = n - 1;
    }
    let e = slice_subrange(cs.as_slice(), n, cs.len());
    assert(e@ =~= extension(name@));
    if spells(e, "mp4") || spells(e, "m4v") || spells(e, "mov") {
        "video/mp4"
    } else if spells(e, "wav") {
        "audio/wav"
    } else if spells(e, "mp3") {
        "audio/mpeg"
    } else if spells(e, "png") {
        "image/png"
    } else if spells(e, "jpg") || spells(e, "jpeg") {
        "image/jpeg"
    } else if spells(e, "json") {
        "application/json"
    } else {
        "application/octet-stream"
    }
}

/// The bytes `start..end` that a range header asks for: `a-b` through `b`,
/// `a-` to the end, `-n` the last `n`. A range that starts past the end, or
/// that is inverted, is none.
pub open spec fn range_of(v: Seq<char>, total: nat) -> Option<(int, int)> {
    let spec = v.skip("bytes="@.len() as int);
    let dash = crate::text::find_from(spec, '-', 0);
    let a = spec.take(dash);
    let b = spec.skip(dash + 1);
    if !crate::text::stands_at(v, "bytes="@, 0) || dash == spec.len() {
        None
    } else {
        let bounds: Option<(int, int)> = if a.len() == 0 {
            match crate::text::unsigned(b, usize::MAX as nat) {
                Some(n) => Some(
                    (
                        if n <= total {
                            total - n
                        } else {
                            0
                        },
                        total as int,
                    ),
                ),
                None => None,
            }
        } else {
            match crate::text::unsigned(a, usize::MAX as nat) {
                None => None,
                Some(start) => if b.len() == 0 {
                    Some((start as int, total as int))
                } else {
                    match crate::text::unsigned(b, usize::MAX as nat) {
                        None => None,
                        Some(last) => Some(
                            (
                                start as int,
                                if last < usize::MAX {
                                    last as int + 1
                                } else {
                                    usize::MAX as int
                                },
                            ),
                        ),
                    }
                },
            }
        };
        match bounds {
            Some((start, end)) => if start < total && end > start {
                Some((start, end))
            } else {
                None
            },
            None => None,
        }
    }
}

fn parse_usize(cs: &[char]) -> (r: Option<usize>)
    ensures
        match r {
            Some(n) => crate::text::unsigned(cs@, usize::MAX as nat) == Some(n as nat),
            None => crate::text::unsigned(cs@, usize::MAX as nat) is None,
        },
{
    match parse_unsigned(cs, usize::MAX as u64) {
        Some(n) => Some(n as usize),
        None => None,
    }
}

/// Reads a range header for a file of `total` bytes. The range is never
/// empty and starts inside the file.
pub fn parse_range(v: &str, total: usize) -> (r: Option<(usize, usize)>)
    ensures
        match r {
            Some((start, end)) => range_of(v@, total as nat) == Some((start as int, end as int)),
            None => range_of(v@, total as nat) is None,
        },
        r matches Some((start, end)) ==> start < total && start < end,
{
    let cs = chars_of(v);
    let unit = chars_of("bytes=");
    if !at(cs.as_slice(), unit.as_slice(), 0) {
        return None;
    }
    let spec_part = slice_subrange(cs.as_slice(), unit.len(), cs.len());
    assert(spec_part@ =~= v@.skip("bytes="@.len() as int));
    let dash = find_char(spec_part, '-', 0);
    if dash == spec_part.len() {
        return None;
    }
    let a = slice_subrange(spec_part, 0, dash);
    let b = slice_subrange(spec_part, dash + 1, spec_part.len());
    assert(a@ =~= spec_part@.take(dash as int));
    assert(b@ =~= spec_part@.skip(dash + 1));
    let (start, end): (usize, usize) = if a.len() == 0 {
        match parse_usize(b) {
            Some(n) => (
                if n <= total {
                    total - n
                } else {
                    0
                },
                total,
            ),
            None => return None,
        }
    } else {
        let start = match parse_usize(a) {
            Some(n) => n,
            None => return None,
        };
        let end: usize = if b.len() == 0 {
            total
        } else {
            match parse_usize(b) {
                Some(last) => if last < usize::MAX {
                    last + 1
                } else {
                    usize::MAX
                },
                None => return None,
            }
        };
        (start, end)
    };
    if start < total && end > start {
        Some((start, end))
    } else {
        None
    }
}

/// The value of the first header of a name, from `i` on.
pub open spec fn header(headers: Seq<(Seq<char>, Seq<char>)>, name: Seq<char>, i: int) -> Option<
    Seq<char>,
>
    decreases headers.len() - i,
{
    if i < 0 || i >= headers.len() {
        None
    } else if headers[i].0 == name {
        Some(headers[i].1)
    } else {
        header(headers, name, i + 1)
    }
}

fn find_header<'a>(headers: &'a Vec<(String, String)>, name: &str) -> (r: Option<&'a str>)
    ensures
        crate::media::str_view(r) == header(crate::writer::pair_views(headers@), name@, 0),
{
    let ghost all = crate::writer::pair_views(headers@);
    let mut i: usize = 0;
    while i < headers.len()
        invariant
            i <= headers@.len(),
            all == crate::writer::pair_views(headers@),
            header(all, name@, 0) == header(all, name@, i as int),
        decreases headers@.len() - i,
    {
        assert(all[i as int] == (headers@[i as int].0@, headers@[i as int].1@));
        if text_eq(headers[i].0.as_str(), name) {
            return Some(headers[i].1.as_str());
        }
        i = i + 1;
    }
    None
}

/// The part of a file that is served, and whether it is only a part. A range
/// that cannot be served gives the whole file.
pub open spec fn served_part(range: Option<Seq<char>>, total: nat) -> (bool, int, int) {
    match range {
        Some(v) => match range_of(v, total) {
            Some((start, end)) => (
                true,
                start,
                if end <= total {
                    end
                } else {
                    total as int
                },
            ),
            None => (false, 0, total as int),
        },
        None => (false, 0, total as int),
    }
}

pub open spec fn file_response(
    name: Seq<char>,
    range: Option<Seq<char>>,
    total: nat,
) -> ResponseView {
    let (part, start, end) = served_part(range, total);
    ResponseView {
        status: if part {
            206
        } else {
            200
        },
        content_type: type_of_extension(extension(name)),
        body_len: (end - start) as nat,
        body: BodyView::File { start: start as u64, remaining: (end - start) as u64 },
        extra_headers: if part {
            seq![
                "Accept-Ranges: bytes"@,
                "Content-Range: bytes "@ + crate::text::dec(start as nat) + "-"@
                    + crate::text::dec((end - 1) as nat) + "/"@ + crate::text::dec(total),
            ]
        } else {
            seq!["Accept-Ranges: bytes"@]
        },
    }
}

/// The response for a file of the output directory. `total` is its length, if
/// it stands there and could be opened.
pub fn serve_file(name: &str, total: Option<usize>, req: &Request) -> (r: Response)
    ensures
        r@ == (match total {
            None => plain_response(404, "not found"@),
            Some(n) => file_response(name@, header(req@.headers, "range"@, 0), n as nat),
        }),
{
    let total: usize = match total {
        Some(n) => n,
        None => return plain(404, "not found"),
    };
    let range = match find_header(&req.headers, "range") {
        Some(v) => parse_range(v, total),
        None => None,
    };
    let mut extra_headers: Vec<String> = Vec::new();
    extra_headers.push("Accept-Ranges: bytes".to_owned());
    let (status, start, end): (u16, usize, usize) = match range {
        Some((start, e)) => {
            let end: usize = if e <= total {
                e
            } else {
                total
            };
            let a = dec_text(start as u64);
            let b = dec_text((end - 1) as u64);
            let n = dec_text(total as u64);
            let mut line = cat4("Content-Range: bytes ", a.as_str(), "-", b.as_str());
            line.append("/");
            line.append(n.as_str());
            extra_headers.push(line);
            (206, start, end)
        },
        None => (200, 0, total),
    };
    let res = Response {
        status,
        content_type: content_type(name),
        body_len: (end - start) as u64,
        body: Body::File { start: start as u64, remaining: (end - start) as u64 },
        extra_headers,
    };
    assert(res@.extra_headers =~= file_response(
        name@,
        header(req@.headers, "range"@, 0),
        total as nat,
    ).extra_headers);
    res
}

/// What is served of a file lies in the file, and a partial response is never
/// empty.
pub proof fn served_parts_are_sound(range: Option<Seq<char>>, total: nat)
    ensures
        ({
            let (part, start, end) = served_part(range, total);
            &&& 0 <= start <= end <= total
            &&& part ==> start < end
            &&& !part ==> start == 0 && end == total
        }),
{
}

// Positions.

/// How many characters stand before a byte offset, counted from `i` on.
pub open spec fn chars_before(s: Seq<char>, byte: int, i: int) -> int
    decreases s.len() - i,
{
    if 0 <= i < s.len() && crate::text::offset(s, i) < byte {
        chars_before(s, byte, i + 1)
    } else {
        i
    }
}

/// The line after the first `n` characters, from 1 on.
pub open spec fn line_after(s: Seq<char>, n: int) -> nat
    decreases n,
{
    if n <= 0 {
        1
    } else if s[n - 1] == '\n' {
        line_after(s, n - 1) + 1
    } else {
        line_after(s, n - 1)
    }
}

/// The column after the first `n` characters, from 1 on.
pub open spec fn col_after(s: Seq<char>, n: int) -> nat
    decreases n,
{
    if n <= 0 || s[n - 1] == '\n' {
        1
    } else {
        col_after(s, n - 1) + 1
    }
}

/// Line and column of a byte offset, from 1 on.
pub open spec fn position(s: Seq<char>, byte: int) -> (nat, nat) {
    let n = chars_before(s, byte, 0);
    (line_after(s, n), col_after(s, n))
}

/// Byte offset to line and column, for display.
pub fn line_col(source: &str, byte: usize) -> (r: (usize, usize))
    ensures
        (r.0 as nat, r.1 as nat) == position(source@, byte as int),
{
    let cs = chars_of(source);
    let offs = byte_offsets(source);
    let total: usize = offs.len();
    let mut line: usize = 1;
    let mut col: usize = 1;
    let mut i: usize = 0;
    while i < cs.len() && offs[i] < byte
        invariant
            i <= cs@.len(),
            cs@ == source@,
            offs@.len() == cs@.len() + 1,
            total == offs@.len(),
            forall|k: int|
                0 <= k <= cs@.len() ==> #[trigger] offs@[k] == crate::text::offset(source@, k),
            line == line_after(source@, i as int),
            col == col_after(source@, i as int),
            line <= i + 1,
            col <= i + 1,
            chars_before(source@, byte as int, 0) == chars_before(source@, byte as int, i as int),
        decreases cs@.len() - i,
    {
        if cs[i] == '\n' {
            line = line + 1;
            col = 1;
        } else {
            col = col + 1;
        }
        i = i + 1;
    }
    (line, col)
}

// Replies.

pub open spec fn severity_word(s: Severity) -> Seq<char> {
    match s {
        Severity::Error => "error"@,
        Severity::Warning => "warning"@,
    }
}

/// Where a finding stands; nowhere is line 0, column 0.
pub open spec fn finding_position(source: Seq<char>, d: DiagnosticView) -> (nat, nat) {
    match d.span {
        Some(s) => position(source, s.start as int),
        None => (0, 0),
    }
}

/// A finding as a JSON object.
pub open spec fn finding_object(
    source: Seq<char>,
    file: Option<Seq<char>>,
    d: DiagnosticView,
) -> Seq<char> {
    let (line, col) = finding_position(source, d);
    "{\"col\":"@ + crate::text::dec(col) + (match file {
        Some(f) => ",\"file\":"@ + crate::json::json_string(f),
        None => Seq::empty(),
    }) + ",\"line\":"@ + crate::text::dec(line) + ",\"message\":"@ + crate::json::json_string(
        d.message,
    ) + ",\"severity\":\""@ + severity_word(d.severity) + "\"}"@
}

/// A finding of a source, with the name of its file where it is given.
pub fn diag_json(source: &str, file: Option<&str>, d: &Diagnostic) -> (r: String)
    ensures
        r@ == finding_object(source@, crate::media::str_view(file), d@),
{
    let (line, col): (usize, usize) = match d.span {
        Some(s) => line_col(source, s.start),
        None => (0, 0),
    };
    let c = dec_text(col as u64);
    let l = dec_text(line as u64);
    let m = quoted(d.message.as_str());
    let severity = match d.severity {
        Severity::Error => "error",
        Severity::Warning => "warning",
    };
    let mut out = cat2("{\"col\":", c.as_str());
    match file {
        Some(f) => {
            let q = quoted(f);
            out.append(",\"file\":");
            out.append(q.as_str());
        },
        None => {},
    }
    out.append(",\"line\":");
    out.append(l.as_str());
    out.append(",\"message\":");
    out.append(m.as_str());
    out.append(",\"severity\":\"");
    out.append(severity);
    out.append("\"}");
    assert(out@ =~= finding_object(source@, crate::media::str_view(file), d@));
    out
}

pub open spec fn finding_objects(
    source: Seq<char>,
    file: Option<Seq<char>>,
    diags: Seq<DiagnosticView>,
) -> Seq<Seq<char>> {
    Seq::new(diags.len(), |i: int| finding_object(source, file, diags[i]))
}

fn push_findings(out: &mut Vec<String>, source: &str, file: Option<&str>, diags: &Vec<Diagnostic>)
    ensures
        crate::text::text_views(final(out)@) == crate::text::text_views(old(out)@)
            + finding_objects(
            source@,
            crate::media::str_view(file),
            crate::diagnostic::views(diags@),
        ),
{
    let ghost before = crate::text::text_views(out@);
    let ghost all = finding_objects(
        source@,
        crate::media::str_view(file),
        crate::diagnostic::views(diags@),
    );
    let mut i: usize = 0;
    assert(before + all.take(0) =~= before);
    while i < diags.len()
        invariant
            i <= diags@.len(),
            all == finding_objects(
                source@,
                crate::media::str_view(file),
                crate::diagnostic::views(diags@),
            ),
            crate::text::text_views(out@) == before + all.take(i as int),
        decreases diags@.len() - i,
    {
        let ghost so_far = crate::text::text_views(out@);
        out.push(diag_json(source, file, &diags[i]));
        assert(crate::text::text_views(out@) =~= so_far.push(all[i as int]));
        assert(all.take(i + 1) =~= all.take(i as int).push(all[i as int]));
        i = i + 1;
    }
    assert(all.take(all.len() as int) =~= all);
}

/// The findings of the first `n` bundles, each with its file.
pub open spec fn bundle_objects(bundles: Seq<BundleView>, n: int) -> Seq<Seq<char>>
    decreases n,
{
    if n <= 0 || n > bundles.len() {
        Seq::empty()
    } else {
        let b = bundles[n - 1];
        bundle_objects(bundles, n - 1) + finding_objects(b.source, Some(b.name), b.diags)
    }
}

/// The findings of bundles as a JSON array.
pub fn bundle_json(bundles: &Vec<DiagBundle>) -> (r: String)
    ensures
        r@ == crate::json::array(
            bundle_objects(crate::engine::bundle_views(bundles@), bundles@.len() as int),
        ),
{
    let ghost all = crate::engine::bundle_views(bundles@);
    let mut out: Vec<String> = Vec::new();
    let mut i: usize = 0;
    assert(crate::text::text_views(out@) =~= bundle_objects(all, 0));
    while i < bundles.len()
        invariant
            i <= bundles@.len(),
            all == crate::engine::bundle_views(bundles@),
            crate::text::text_views(out@) == bundle_objects(all, i as int),
        decreases bundles@.len() - i,
    {
        let b = &bundles[i];
        assert(all[i as int] == b@);
        push_findings(&mut out, b.source.as_str(), Some(b.name.as_str()), &b.diags);
        i = i + 1;
    }
    array_json(&out)
}

fn diags_json(source: &str, diags: &Vec<Diagnostic>) -> (r: String)
    ensures
        r@ == crate::json::array(
            finding_objects(source@, None, crate::diagnostic::views(diags@)),
        ),
{
    let mut out: Vec<String> = Vec::new();
    push_findings(&mut out, source, None, diags);
    assert(crate::text::text_views(out@) =~= finding_objects(
        source@,
        None,
        crate::diagnostic::views(diags@),
    ));
    array_json(&out)
}

pub open spec fn bad_request() -> Seq<char> {
    "{\"error\":\"bad request json\",\"ok\":false}"@
}

/// The markup that a request carries.
pub fn req_markup(body: &[u8]) -> (r: Option<String>)
    ensures
        crate::scene::text_view(r) == crate::json::json_field(body@, "markup"@),
{
    text_field(body, "markup")
}

/// The answer to a check.
pub open spec fn check_reply_of(source: Seq<char>, diags: Seq<DiagnosticView>) -> Seq<char> {
    "{\"diagnostics\":"@ + crate::json::array(finding_objects(source, None, diags)) + ",\"ok\":"@
        + crate::json::bool_text(!crate::diagnostic::any_error(diags)) + "}"@
}

fn check_reply(source: &str, diags: &Vec<Diagnostic>) -> (r: String)
    ensures
        r@ == check_reply_of(source@, crate::diagnostic::views(diags@)),
{
    let list = diags_json(source, diags);
    let ok = bool_json(!crate::diagnostic::has_errors(diags.as_slice()));
    cat5("{\"diagnostics\":", list.as_str(), ",\"ok\":", ok.as_str(), "}")
}

/// How a check goes on.
#[derive(Debug)]
pub enum CheckStart {
    Reply(String),
    /// The scene compiled; its files are to be looked for.
    Look { scene: Scene, diags: Vec<Diagnostic> },
}

/// Starts a check of markup: markup with errors is answered at once.
pub fn check_markup(markup: &Option<String>) -> (r: CheckStart)
    ensures
        match *markup {
            None => r matches CheckStart::Reply(t) && t@ == bad_request(),
            Some(m) => match (crate::markup::compiled(m@), r) {
                ((Some(s), d), CheckStart::Look { scene, diags }) => scene@ == s
                    && crate::diagnostic::views(diags@) == d,
                ((None, d), CheckStart::Reply(t)) => t@ == check_reply_of(m@, d),
                _ => false,
            },
        },
{
    match markup {
        None => CheckStart::Reply("{\"error\":\"bad request json\",\"ok\":false}".to_owned()),
        Some(m) => {
            let outcome = compile(m.as_str());
            match outcome.scene {
                Some(scene) => CheckStart::Look { scene, diags: outcome.diagnostics },
                None => CheckStart::Reply(check_reply(m.as_str(), &outcome.diagnostics)),
            }
        },
    }
}

/// Ends a check with the files that were found: the same warnings that the
/// command line gives.
pub fn check_files(markup: &str, scene: &Scene, diags: Vec<Diagnostic>, found: &Vec<bool>) -> (r:
    String)
    requires
        found@.len() == crate::engine::scene_files(scene@).len(),
    ensures
        r@ == check_reply_of(
            markup@,
            crate::diagnostic::views(diags@) + crate::engine::missing(
                crate::engine::scene_files(scene@),
                found@,
                found@.len() as int,
            ),
        ),
{
    let mut all = diags;
    let ghost first = crate::diagnostic::views(all@);
    let mut more = asset_warnings(scene, found);
    let ghost second = crate::diagnostic::views(more@);
    all.append(&mut more);
    assert(crate::diagnostic::views(all@) =~= first + second);
    check_reply(markup, &all)
}

/// The answer to a render of markup with errors: nothing was saved.
pub open spec fn unsaved_reply(source: Seq<char>, diags: Seq<DiagnosticView>) -> Seq<char> {
    "{\"diagnostics\":"@ + crate::json::array(finding_objects(source, None, diags))
        + ",\"ok\":false,\"saved\":false}"@
}

/// How a render of the UI goes on.
#[derive(Debug)]
pub enum SaveStart {
    Reply(String),
    /// The markup compiled; it is saved, then rendered.
    Save(String),
}

/// Starts a render. Markup that does not compile never replaces the scene on
/// disk.
pub fn save_markup(markup: Option<String>) -> (r: SaveStart)
    ensures
        match markup {
            None => r matches SaveStart::Reply(t) && t@ == bad_request(),
            Some(m) => if crate::markup::compiled(m@).0 is Some {
                r matches SaveStart::Save(t) && t@ == m@
            } else {
                r matches SaveStart::Reply(t) && t@ == unsaved_reply(
                    m@,
                    crate::markup::compiled(m@).1,
                )
            },
        },
{
    match markup {
        None => SaveStart::Reply("{\"error\":\"bad request json\",\"ok\":false}".to_owned()),
        Some(m) => {
            let outcome = compile(m.as_str());
            if outcome.scene.is_some() {
                SaveStart::Save(m)
            } else {
                let list = diags_json(m.as_str(), &outcome.diagnostics);
                SaveStart::Reply(
                    cat3("{\"diagnostics\":", list.as_str(), ",\"ok\":false,\"saved\":false}"),
                )
            }
        },
    }
}

/// The answer when the scene could not be saved.
pub fn unwritten_reply(e: &str) -> (r: String)
    ensures
        r@ == "{\"error\":"@ + crate::json::json_string("write main.scene: "@ + e@)
            + ",\"ok\":false}"@,
{
    let m = cat2("write main.scene: ", e);
    let q = quoted(m.as_str());
    cat3("{\"error\":", q.as_str(), ",\"ok\":false}")
}

pub open spec fn bundle_array(s: Seq<DiagBundle>) -> Seq<char> {
    crate::json::array(bundle_objects(crate::engine::bundle_views(s), s.len() as int))
}

/// The answer to a render. Markup that was valid stays saved, whatever became
/// of the render.
pub fn render_reply(outcome: &Result<RenderReport, RenderError>, timings: bool) -> (r: String)
    ensures
        r@ == (match *outcome {
            Ok(report) => "{\"diagnostics\":"@ + bundle_array(report.bundles@) + ",\"frames\":"@
                + crate::text::dec(report.frames as nat)
                + ",\"ok\":true,\"saved\":true,\"timings\":"@ + crate::json::bool_text(timings)
                + ",\"url\":\"/out/ui.mp4\"}"@,
            Err(e) => "{\"diagnostics\":"@ + bundle_array(e.bundles@) + ",\"error\":"@
                + crate::json::json_string(e.message@) + ",\"ok\":false,\"saved\":true}"@,
        }),
{
    match outcome {
        Ok(report) => {
            let list = bundle_json(&report.bundles);
            let n = dec_text(report.frames as u64);
            let t = bool_json(timings);
            let head = cat4("{\"diagnostics\":", list.as_str(), ",\"frames\":", n.as_str());
            cat4(
                head.as_str(),
                ",\"ok\":true,\"saved\":true,\"timings\":",
                t.as_str(),
                ",\"url\":\"/out/ui.mp4\"}",
            )
        },
        Err(e) => {
            let list = bundle_json(&e.bundles);
            let m = quoted(e.message.as_str());
            cat5(
                "{\"diagnostics\":",
                list.as_str(),
                ",\"error\":",
                m.as_str(),
                ",\"ok\":false,\"saved\":true}",
            )
        },
    }
}

/// The scene on disk.
pub fn api_scene(markup: &str, path: &str) -> (r: String)
    ensures
        r@ == "{\"markup\":"@ + crate::json::json_string(markup@) + ",\"path\":"@
            + crate::json::json_string(path@) + "}"@,
{
    let m = quoted(markup);
    let p = quoted(path);
    cat5("{\"markup\":", m.as_str(), ",\"path\":", p.as_str(), "}")
}

/// The files of the asset directory, in order.
pub fn api_assets(dir: &str, files: &Vec<String>) -> (r: String)
    ensures
        r@ == "{\"dir\":"@ + crate::json::json_string(dir@) + ",\"files\":"@ + crate::json::array(
            crate::json::quoted_items(crate::lower::sorted(crate::text::text_views(files@))),
        ) + "}"@,
{
    let d = quoted(dir);
    let sorted = sorted_names(files);
    let list = strings_json(&sorted);
    cat5("{\"dir\":", d.as_str(), ",\"files\":", list.as_str(), "}")
}

/// Whether the project has timings.
pub fn api_timings(present: bool) -> (r: String)
    ensures
        r@ == "{\"present\":"@ + crate::json::bool_text(present) + "}"@,
{
    let b = bool_json(present);
    cat3("{\"present\":", b.as_str(), "}")
}

} // verus!
