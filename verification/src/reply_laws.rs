//! What the preview server answers, and what it reads off request lines.

use vstd::prelude::*;

use crate::diagnostic::{DiagnosticView, Severity};
use crate::engine::BundleView;
use crate::timing::AlignedLineView;
use crate::ui::{BodyView, ResponseView};

verus! {

/// A text starts with another.
pub open spec fn starts(s: Seq<char>, head: Seq<char>) -> bool {
    exists|rest: Seq<char>| s == #[trigger] (head + rest)
}

/// A text ends in another.
pub open spec fn ends(s: Seq<char>, tail: Seq<char>) -> bool {
    exists|rest: Seq<char>| s == #[trigger] (rest + tail)
}

// Findings.

/// A finding is told with the line and the column where it starts, its own
/// message and its own severity, and its file where one is named.
pub proof fn findings_are_told(source: Seq<char>, file: Option<Seq<char>>, d: DiagnosticView)
    ensures
        ({
            let told = crate::ui::finding_object(source, file, d);
            let (line, col) = match d.span {
                Some(s) => crate::ui::position(source, s.start as int),
                None => (0nat, 0nat),
            };
            &&& starts(told, "{\"col\":"@ + crate::text::dec(col))
            &&& crate::text_laws::mentions(
                told,
                ",\"line\":"@ + crate::text::dec(line) + ",\"message\":"@
                    + crate::json::json_string(d.message),
            )
            &&& d.severity == Severity::Error ==> ends(told, ",\"severity\":\""@ + "error"@ + "\"}"@)
            &&& d.severity == Severity::Warning ==> ends(
                told,
                ",\"severity\":\""@ + "warning"@ + "\"}"@,
            )
            &&& file matches Some(f) ==> crate::text_laws::mentions(
                told,
                ",\"file\":"@ + crate::json::json_string(f),
            )
        }),
{
    let told = crate::ui::finding_object(source, file, d);
    let (line, col) = crate::ui::finding_position(source, d);
    let head = "{\"col\":"@ + crate::text::dec(col);
    let named = match file {
        Some(f) => ",\"file\":"@ + crate::json::json_string(f),
        None => Seq::empty(),
    };
    let place = ",\"line\":"@ + crate::text::dec(line) + ",\"message\":"@
        + crate::json::json_string(d.message);
    let tail = ",\"severity\":\""@ + crate::ui::severity_word(d.severity) + "\"}"@;
    assert(told =~= head + (named + place + tail));
    crate::text_laws::lemma_mentions(head + named, place, tail);
    assert(head + named + place + tail =~= told);
    assert(told =~= (head + named + place) + tail);
    if file is Some {
        crate::text_laws::lemma_mentions(head, named, place + tail);
        assert(head + named + (place + tail) =~= told);
    }
}

/// Nothing between the brackets for no items; otherwise the items in order
/// with a comma between each two.
pub proof fn arrays_hold_their_items(a: Seq<Seq<char>>, b: Seq<Seq<char>>, item: Seq<char>)
    ensures
        crate::json::array(Seq::empty()) == "["@ + "]"@,
        crate::json::array(seq![item]) == "["@ + item + "]"@,
        a.len() > 0 && b.len() > 0 ==> crate::json::items(a + b, (a + b).len() as int)
            == crate::json::items(a, a.len() as int) + ","@ + crate::json::items(
            b,
            b.len() as int,
        ),
{
    let none = Seq::<Seq<char>>::empty();
    assert(crate::json::items(none, 0) =~= Seq::empty());
    assert("["@ + Seq::<char>::empty() + "]"@ =~= "["@ + "]"@);
    assert(crate::json::items(seq![item], 1) == item);
    if a.len() > 0 && b.len() > 0 {
        lemma_items(a, b, b.len() as int);
    }
}

proof fn lemma_items(a: Seq<Seq<char>>, b: Seq<Seq<char>>, k: int)
    requires
        a.len() > 0,
        0 < k <= b.len(),
    ensures
        crate::json::items(a + b, a.len() + k) == crate::json::items(a, a.len() as int) + ","@
            + crate::json::items(b, k),
    decreases k,
{
    let all = a + b;
    let n = a.len() as int;
    assert(all[n + k - 1] == b[k - 1]);
    if k == 1 {
        lemma_items_prefix(a, b, n);
    } else {
        lemma_items(a, b, k - 1);
        let x = crate::json::items(a, n);
        let y = crate::json::items(b, k - 1);
        assert(x + ","@ + y + ","@ + b[k - 1] =~= x + ","@ + (y + ","@ + b[k - 1]));
    }
}

proof fn lemma_items_prefix(a: Seq<Seq<char>>, b: Seq<Seq<char>>, n: int)
    requires
        0 <= n <= a.len(),
    ensures
        crate::json::items(a + b, n) == crate::json::items(a, n),
    decreases n,
{
    if n > 0 {
        lemma_items_prefix(a, b, n - 1);
        assert((a + b)[n - 1] == a[n - 1]);
        assert((a + b)[0] == a[0]);
    }
}

/// A check says that all is well exactly where no finding is an error.
pub proof fn checks_say_whether_all_is_well(source: Seq<char>, diags: Seq<DiagnosticView>)
    ensures
        ({
            let reply = crate::ui::check_reply_of(source, diags);
            let wrong = exists|i: int|
                0 <= i < diags.len() && (#[trigger] diags[i]).severity == Severity::Error;
            &&& wrong ==> ends(reply, ",\"ok\":"@ + "false"@ + "}"@)
            &&& !wrong ==> ends(reply, ",\"ok\":"@ + "true"@ + "}"@)
        }),
{
    let list = "{\"diagnostics\":"@ + crate::json::array(
        crate::ui::finding_objects(source, None, diags),
    );
    let reply = crate::ui::check_reply_of(source, diags);
    let tail = ",\"ok\":"@ + crate::json::bool_text(!crate::diagnostic::any_error(diags)) + "}"@;
    assert(reply =~= list + tail);
}

/// Every finding of every bundle is told with the file and the source of its
/// bundle.
pub proof fn every_finding_is_told(bundles: Seq<BundleView>, n: int, b: int, i: int)
    requires
        0 <= b < n <= bundles.len(),
        0 <= i < bundles[b].diags.len(),
    ensures
        crate::ui::bundle_objects(bundles, n).contains(
            crate::ui::finding_object(
                bundles[b].source,
                Some(bundles[b].name),
                bundles[b].diags[i],
            ),
        ),
    decreases n,
{
    let told = crate::ui::finding_object(
        bundles[b].source,
        Some(bundles[b].name),
        bundles[b].diags[i],
    );
    let before = crate::ui::bundle_objects(bundles, n - 1);
    let all = crate::ui::bundle_objects(bundles, n);
    if b == n - 1 {
        assert(all[before.len() + i] == told);
    } else {
        every_finding_is_told(bundles, n - 1, b, i);
        let k = choose|k: int| 0 <= k < before.len() && before[k] == told;
        assert(all[k] == told);
    }
}

// Responses.

/// The head of a response gives its content type and the length of its body
/// in their own lines, and every further header.
pub proof fn heads_describe_the_body(r: ResponseView)
    ensures
        ({
            let head = crate::ui::response_head_of(r);
            &&& crate::text_laws::mentions(head, "\r\nContent-Type: "@ + r.content_type)
            &&& crate::text_laws::mentions(
                head,
                "\r\nContent-Length: "@ + crate::text::dec(r.body_len),
            )
            &&& r.status == 200 ==> starts(head, "HTTP/1.1 "@ + "200 OK"@)
            &&& r.status == 206 ==> starts(head, "HTTP/1.1 "@ + "206 Partial Content"@)
            &&& r.status == 400 ==> starts(head, "HTTP/1.1 "@ + "400 Bad Request"@)
            &&& r.status == 403 ==> starts(head, "HTTP/1.1 "@ + "403 Forbidden"@)
            &&& r.status == 404 ==> starts(head, "HTTP/1.1 "@ + "404 Not Found"@)
            &&& r.status == 415 ==> starts(head, "HTTP/1.1 "@ + "415 Unsupported Media Type"@)
            &&& ends(head, "\r\n"@)
            &&& forall|i: int|
                0 <= i < r.extra_headers.len() ==> crate::text_laws::mentions(
                    head,
                    #[trigger] r.extra_headers[i],
                )
        }),
{
    let head = crate::ui::response_head_of(r);
    let first = "HTTP/1.1 "@ + crate::ui::status_line(r.status);
    let kind = "\r\nContent-Type: "@ + r.content_type;
    let len = "\r\nContent-Length: "@ + crate::text::dec(r.body_len);
    let close = "\r\nConnection: close\r\n"@;
    let n = r.extra_headers.len() as int;
    let more = crate::ui::header_lines(r.extra_headers, n);
    let end = "\r\n"@;
    let rest = kind + len + close + more + end;
    assert(head =~= first + rest);
    crate::text_laws::lemma_mentions(first, kind, len + close + more + end);
    assert(first + kind + (len + close + more + end) =~= head);
    crate::text_laws::lemma_mentions(first + kind, len, close + more + end);
    assert(first + kind + len + (close + more + end) =~= head);
    assert(head =~= (first + kind + len + close + more) + end);
    assert forall|i: int| 0 <= i < n implies crate::text_laws::mentions(
        head,
        #[trigger] r.extra_headers[i],
    ) by {
        let (a, b) = lemma_header_lines(r.extra_headers, n, i);
        let before = first + kind + len + close + a;
        let after = b + end;
        crate::text_laws::lemma_mentions(before, r.extra_headers[i], after);
        assert(before + r.extra_headers[i] + after =~= head);
    }
}

proof fn lemma_header_lines(headers: Seq<Seq<char>>, n: int, i: int) -> (r: (Seq<char>, Seq<char>))
    requires
        0 <= i < n <= headers.len(),
    ensures
        crate::ui::header_lines(headers, n) == r.0 + headers[i] + r.1,
    decreases n,
{
    let before = crate::ui::header_lines(headers, n - 1);
    if i == n - 1 {
        (before, "\r\n"@)
    } else {
        let (a, b) = lemma_header_lines(headers, n - 1, i);
        let c = b + headers[n - 1] + "\r\n"@;
        assert(crate::ui::header_lines(headers, n) =~= a + headers[i] + c);
        (a, c)
    }
}

/// A file that is asked for whole is sent whole; a range of it is sent alone,
/// and says which bytes of how many it is.
pub proof fn files_are_sent_as_asked(name: Seq<char>, range: Seq<char>, total: nat)
    requires
        total <= u64::MAX,
    ensures
        ({
            let r = crate::ui::file_response(name, None, total);
            &&& r.status == 200
            &&& r.body_len == total
            &&& r.body == (BodyView::File { start: 0, remaining: total as u64 })
        }),
        ({
            let r = crate::ui::file_response(name, Some(range), total);
            match crate::ui::range_of(range, total) {
                None => r.status == 200 && r.body_len == total,
                Some((start, end)) => {
                    let stop = if end <= total {
                        end
                    } else {
                        total as int
                    };
                    &&& r.status == 206
                    &&& r.body_len == stop - start
                    &&& r.body == (BodyView::File {
                        start: start as u64,
                        remaining: (stop - start) as u64,
                    })
                    &&& r.extra_headers.contains(
                        "Content-Range: bytes "@ + crate::text::dec(start as nat) + "-"@
                            + crate::text::dec((stop - 1) as nat) + "/"@ + crate::text::dec(total),
                    )
                },
            }
        }),
{
    let r = crate::ui::file_response(name, Some(range), total);
    if crate::ui::range_of(range, total) is Some {
        let line = r.extra_headers[1];
        assert(r.extra_headers.contains(line));
    }
}

// Requests.

/// A header line is read as its name, in lower case, and its value, each
/// without the blanks around it; a line without a colon is none.
pub proof fn header_lines_read_back(name: Seq<char>, value: Seq<char>)
    requires
        forall|k: int| 0 <= k < name.len() ==> #[trigger] name[k] != ':',
    ensures
        crate::ui::header_of(name + ":"@ + value) == Some(
            (crate::ui::lowercase(crate::text::trimmed(name)), crate::text::trimmed(value)),
        ),
        crate::ui::header_of(name) is None,
{
    reveal_strlit(":");
    assert(":"@ =~= seq![':']);
    crate::value_laws::lemma_apart(name, ':', value);
    crate::value_laws::lemma_first(name, ':', 0, name.len() as int);
}

/// The length of a body is what its last header of that name states.
pub proof fn the_last_length_counts(headers: Seq<(Seq<char>, Seq<char>)>, n: int, i: int)
    requires
        0 <= i < n <= headers.len(),
        headers[i].0 == "content-length"@,
        forall|k: int| i < k < n ==> (#[trigger] headers[k]).0 != "content-length"@,
    ensures
        crate::ui::body_length(headers, n) == crate::ui::stated_length(headers[i].1),
    decreases n,
{
    if i < n - 1 {
        assert(headers[n - 1].0 != "content-length"@);
        the_last_length_counts(headers, n - 1, i);
    }
}

/// A file below the output directory is named by what comes after it, however
/// often the directory is named.
pub proof fn names_are_below_the_directory(s: Seq<char>)
    ensures
        crate::ui::below_out("/out/"@ + s) == crate::ui::below_out(s),
        !crate::text::stands_at(s, "/out/"@, 0) ==> crate::ui::below_out("/out/"@ + s) == s,
{
    reveal_strlit("/out/");
    let t = "/out/"@ + s;
    assert(t.subrange(0, 5) =~= "/out/"@);
    assert(t.skip(5) =~= s);
    assert(crate::text::stands_at(t, "/out/"@, 0));
}

/// The line of a cue is the first that has it.
pub proof fn lines_are_found_by_cue(lines: Seq<AlignedLineView>, cue: Seq<char>, from: int)
    requires
        0 <= from <= lines.len(),
    ensures
        match crate::timing::find_line(lines, cue, from) {
            Some(l) => exists|i: int|
                {
                    &&& from <= i < lines.len()
                    &&& #[trigger] lines[i] == l
                    &&& l.cue == cue
                    &&& forall|k: int| from <= k < i ==> (#[trigger] lines[k]).cue != cue
                },
            None => forall|k: int| from <= k < lines.len() ==> (#[trigger] lines[k]).cue != cue,
        },
    decreases lines.len() - from,
{
    if from < lines.len() {
        if lines[from].cue == cue {
            assert(lines[from] == lines[from]);
        } else {
            lines_are_found_by_cue(lines, cue, from + 1);
            if let Some(l) = crate::timing::find_line(lines, cue, from + 1) {
                let i = choose|i: int|
                    {
                        &&& from + 1 <= i < lines.len()
                        &&& #[trigger] lines[i] == l
                        &&& l.cue == cue
                        &&& forall|k: int| from + 1 <= k < i ==> (#[trigger] lines[k]).cue != cue
                    };
                assert(lines[i] == l);
            }
        }
    }
}

} // verus!
