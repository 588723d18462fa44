use scene_engine::diagnostic::Diagnostic;
use scene_engine::engine::{asset_files, bundle};
use scene_engine::paths::{served_file, Part};
use scene_engine::render::{RenderError, RenderReport, Target};
use scene_engine::span::Span;
use scene_engine::ui::{
    api_assets, api_scene, api_timings, bundle_json, check_files, check_markup, content_type,
    diag_json, find, line_col, name_action, parse_head, parse_range, percent_decode, post_guard,
    render_reply, req_markup, response_head, route, save_markup, sends_body, serve_file,
    unwritten_reply, url_decode, Action, Body, CheckStart, ReadStep, Request, RequestReader,
    Response, SaveStart, MAX_BODY, MAX_HEAD,
};

#[test]
fn range_parses_open_and_closed() {
    assert_eq!(parse_range("bytes=0-99", 1000), Some((0, 100)));
    assert_eq!(parse_range("bytes=500-", 1000), Some((500, 1000)));
    assert_eq!(parse_range("bytes=999-999", 1000), Some((999, 1000)));
    assert_eq!(parse_range("bytes=-500", 1000), Some((500, 1000))); // suffix
    assert_eq!(parse_range("bytes=-2000", 1000), Some((0, 1000))); // over-long suffix
    assert_eq!(parse_range("bytes=1000-", 1000), None); // past EOF
    assert_eq!(parse_range("items=0-9", 1000), None);
    // An inverted range must not produce start > end.
    assert_eq!(parse_range("bytes=999-100", 8336), None);
    assert_eq!(parse_range("bytes=5-5", 10), Some((5, 6))); // one byte
}

fn req(method: &str, path: &str, headers: &[(&str, &str)], body: &[u8]) -> Request {
    Request {
        method: method.to_string(),
        path: path.to_string(),
        headers: headers.iter().map(|(k, v)| (k.to_string(), v.to_string())).collect(),
        body: body.to_vec(),
    }
}

#[test]
fn inverted_range_serves_full_body_not_a_panic() {
    let r = req("GET", "/out/v.mp4", &[("range", "bytes=9-2")], &[]);
    let res = serve_file("v.mp4", Some(10), &r);
    assert_eq!(res.status, 200); // bad range: full body
    assert_eq!(res.body_len, 10);
    assert!(matches!(res.body, Body::File { .. }), "file bodies stream");
}

#[test]
fn a_range_is_answered_in_part() {
    let r = req("GET", "/out/v.mp4", &[("range", "bytes=2-4")], &[]);
    let res = serve_file("v.mp4", Some(10), &r);
    assert_eq!(res.status, 206);
    assert_eq!(res.body_len, 3);
    assert!(matches!(res.body, Body::File { start: 2, remaining: 3 }));
    let head = response_head(&res);
    assert!(head.contains("Content-Range: bytes 2-4/10\r\n"), "{head}");
    assert_eq!(serve_file("v.mp4", None, &r).status, 404);
}

#[test]
fn posts_without_json_content_type_are_rejected() {
    let r = req(
        "POST",
        "/api/check",
        &[("content-type", "text/plain")],
        br#"{"markup":"x"}"#,
    );
    let refused = match route(&r) {
        Action::Reply(res) => res,
        other => panic!("{other:?}"),
    };
    assert_eq!(refused.status, 415);
    assert!(post_guard(&r).is_some());
    // With the right content type the same body is served.
    let r2 = req(
        "POST",
        "/api/check",
        &[("content-type", "application/json")],
        br#"{"markup":"<scene/>"}"#,
    );
    assert!(matches!(route(&r2), Action::Check));
    let reply = match check_markup(&req_markup(&r2.body)) {
        CheckStart::Reply(text) => text,
        other => panic!("{other:?}"),
    };
    assert_eq!(Response::json(&reply).status, 200);
}

#[test]
fn traversal_is_rejected_before_decode() {
    let r = req("GET", "/out/..%2Fsecret", &[], &[]);
    assert!(matches!(route(&r), Action::Reply(res) if res.status == 403));
    for name in ["../x", "a/b", "a\\b", "..", ""] {
        assert!(
            matches!(name_action(name.to_string()), Action::Reply(res) if res.status == 403),
            "{name}"
        );
    }
    assert!(matches!(name_action("v.mp4".to_string()), Action::File(n) if n == "v.mp4"));
}

#[test]
fn requests_are_routed() {
    let at = |method: &str, path: &str| route(&req(method, path, &[], &[]));
    assert!(matches!(at("GET", "/"), Action::Page));
    assert!(matches!(at("HEAD", "/"), Action::Page));
    assert!(matches!(at("GET", "/api/scene"), Action::Scene));
    assert!(matches!(at("GET", "/api/assets?x=1"), Action::Assets));
    assert!(matches!(at("GET", "/api/timings"), Action::Timings));
    assert!(matches!(at("GET", "/out/a%20b.mp4"), Action::File(n) if n == "a b.mp4"));
    assert!(matches!(at("GET", "/nowhere"), Action::Reply(res) if res.status == 404));
    let json = [("content-type", "application/json; charset=utf-8")];
    assert!(matches!(route(&req("POST", "/api/render", &json, &[])), Action::Render));
    assert!(matches!(route(&req("GET", "/api/render", &json, &[])), Action::Reply(_)));
}

#[test]
fn url_decode_handles_escapes_and_literals() {
    assert_eq!(url_decode("a%20b.mp4"), "a b.mp4");
    assert_eq!(url_decode("%2e%2e%2fx"), "../x");
    assert_eq!(url_decode("plain.mp4"), "plain.mp4");
    assert_eq!(url_decode("%zz"), "%zz"); // bad escape passes through
}

#[test]
fn url_decode_never_panics_on_multibyte_after_percent() {
    assert_eq!(url_decode("%€x"), "%€x");
    assert_eq!(url_decode("/out/%日本語.mp4"), "/out/%日本語.mp4");
    assert_eq!(url_decode("%e2%82%ac"), "€"); // valid escapes still decode
    assert_eq!(url_decode("%ff"), "\u{fffd}");
    assert_eq!(percent_decode(b"%ff%4"), [0xff, b'%', b'4']);
}

#[test]
fn line_col_tracks_newlines() {
    let src = "abc\ndef\nghi";
    assert_eq!(line_col(src, 0), (1, 1));
    assert_eq!(line_col(src, 3), (1, 4));
    assert_eq!(line_col(src, 4), (2, 1));
    assert_eq!(line_col(src, 9), (3, 2));
}

fn parsed(text: &str) -> serde_json::Value {
    serde_json::from_str(text).unwrap()
}

/// A request body that carries markup.
fn body(markup: &str) -> String {
    let mut map = serde_json::Map::new();
    map.insert("markup".to_string(), serde_json::Value::from(markup));
    serde_json::Value::from(map).to_string()
}

fn api_check(body: &str, there: bool) -> serde_json::Value {
    let markup = req_markup(body.as_bytes());
    match check_markup(&markup) {
        CheckStart::Reply(text) => parsed(&text),
        CheckStart::Look { scene, diags } => {
            let found: Vec<bool> = asset_files(&scene).iter().map(|_| there).collect();
            parsed(&check_files(&markup.unwrap(), &scene, diags, &found))
        }
    }
}

#[test]
fn check_reports_error_positions() {
    let res = api_check(
        &body("<scene canvas=\"64x64\" fps=\"30\">\n<track><bogus/></track>\n</scene>"),
        false,
    );
    assert_eq!(res["ok"], false);
    let diags = res["diagnostics"].as_array().unwrap();
    assert!(!diags.is_empty());
    assert!(diags.iter().any(|d| d["line"].as_u64() == Some(2)));
}

#[test]
fn check_clean_markup_is_ok() {
    let res = api_check(
        &body(
            "<scene canvas=\"64x64\" fps=\"30\"><track kind=\"visual\"><text during=\"0s..1s\">x</text></track></scene>",
        ),
        false,
    );
    assert_eq!(res["ok"], true);
}

#[test]
fn check_warns_on_missing_assets_like_the_cli() {
    let markup = body(
        "<scene canvas=\"64x64\" fps=\"30\"><track kind=\"visual\"><clip src=\"assets/nope.mp4\" during=\"0s..1s\"/></track></scene>",
    );
    let res = api_check(&markup, false);
    assert_eq!(res["ok"], true); // warning, not error
    let diags = res["diagnostics"].as_array().unwrap();
    assert!(
        diags.iter().any(|d| d["message"].as_str().unwrap().contains("nope.mp4")),
        "missing-asset warning should reach the UI: {diags:?}"
    );
    let res = api_check(&markup, true);
    assert!(res["diagnostics"].as_array().unwrap().is_empty());
}

#[test]
fn bad_request_bodies_are_named() {
    for text in ["", "[]", "{\"markup\":3}", "not json"] {
        let res = api_check(text, false);
        assert_eq!(res["ok"], false, "{text}");
        assert_eq!(res["error"], "bad request json", "{text}");
    }
}

#[test]
fn render_with_broken_markup_leaves_main_scene_untouched() {
    // Nothing is saved of markup that does not compile.
    for markup in ["<scene><bogus", "<scene><track/></scene>"] {
        let reply = match save_markup(req_markup(body(markup).as_bytes())) {
            SaveStart::Reply(text) => parsed(&text),
            SaveStart::Save(text) => panic!("{text}"),
        };
        assert_eq!(reply["ok"], false);
        assert_eq!(reply["saved"], false);
        assert!(!reply["diagnostics"].as_array().unwrap().is_empty());
    }
    let good = "<scene canvas=\"64x64\" fps=\"30\"><track kind=\"visual\"/></scene>";
    assert!(matches!(save_markup(Some(good.to_string())), SaveStart::Save(m) if m == good));
    assert!(matches!(save_markup(None), SaveStart::Reply(_)));
    assert_eq!(parsed(&unwritten_reply("full"))["error"], "write main.scene: full");
}

#[test]
fn a_render_answers_with_its_findings() {
    let source = "ab\ncd";
    let bundles = || {
        vec![bundle(
            "main.scene",
            source,
            vec![Diagnostic::warning("odd \"word\"".to_string(), Some(Span::new(3, 4)))],
        )]
    };
    let done = render_reply(
        &Ok(RenderReport {
            frames: 90,
            target: Target::Operator("out/ui.mp4".to_string()),
            bundles: bundles(),
        }),
        true,
    );
    let done = parsed(&done);
    assert_eq!(done["ok"], true);
    assert_eq!(done["saved"], true);
    assert_eq!(done["frames"], 90);
    assert_eq!(done["timings"], true);
    assert_eq!(done["url"], "/out/ui.mp4");
    assert_eq!(done["diagnostics"][0]["message"], "odd \"word\"");
    assert_eq!(done["diagnostics"][0]["line"], 2);
    assert_eq!(done["diagnostics"][0]["col"], 1);
    assert_eq!(done["diagnostics"][0]["severity"], "warning");
    assert_eq!(done["diagnostics"][0]["file"], "main.scene");
    let failed = render_reply(
        &Err(RenderError { message: "audio mix failed: x".to_string(), bundles: bundles() }),
        false,
    );
    let failed = parsed(&failed);
    assert_eq!(failed["ok"], false);
    assert_eq!(failed["saved"], true);
    assert_eq!(failed["error"], "audio mix failed: x");
    assert_eq!(bundle_json(&Vec::new()), "[]");
}

#[test]
fn findings_without_a_place_have_no_position() {
    let lost = parsed(&diag_json("ab", None, &Diagnostic::error("m".to_string(), None)));
    assert_eq!(lost["line"], 0);
    assert_eq!(lost["col"], 0);
    assert_eq!(lost["severity"], "error");
    assert!(lost.get("file").is_none());
}

fn resolved(names: &[&str]) -> Option<Vec<Part>> {
    let mut out = vec![Part::Anchor("/".to_string())];
    out.extend(names.iter().map(|n| Part::Name(n.to_string())));
    Some(out)
}

#[test]
fn symlink_escaping_out_is_not_served() {
    // `out/leak.mp4` is a link to `secret.txt` beside `out`.
    let root = || resolved(&["dir", "out"]);
    let r = req("GET", "/out/leak.mp4", &[], &[]);
    assert!(matches!(route(&r), Action::File(name) if name == "leak.mp4"));
    let served = served_file(root(), resolved(&["dir", "secret.txt"]), true);
    assert!(!served);
    let total = if served { Some(10) } else { None };
    let res = serve_file("leak.mp4", total, &r);
    assert!(
        res.status == 403 || res.status == 404,
        "symlink outside out/ must not be served: {}",
        res.status
    );
    assert!(served_file(root(), resolved(&["dir", "out", "v.mp4"]), true));
    assert!(!served_file(root(), resolved(&["dir", "out", "v"]), false));
    assert!(!served_file(root(), resolved(&["dir", "outer", "v.mp4"]), true));
    assert!(!served_file(None, resolved(&["dir", "out", "v.mp4"]), true));
    assert!(!served_file(root(), None, true));
}

#[test]
fn head_returns_headers_without_body() {
    let r = req("HEAD", "/out/v.mp4", &[], &[]);
    assert!(matches!(route(&r), Action::File(name) if name == "v.mp4"));
    let res = serve_file("v.mp4", Some(10), &r);
    assert_eq!(res.status, 200);
    // The length is known for Content-Length; the body is not sent.
    assert_eq!(res.body_len, 10);
    assert!(!sends_body(&r.method));
    assert!(sends_body("GET"));
    assert!(response_head(&res).contains("Content-Length: 10\r\n"));
}

#[test]
fn content_type_follows_extension() {
    assert_eq!(content_type("a.mp4"), "video/mp4");
    assert_eq!(content_type("b.wav"), "audio/wav");
    assert_eq!(content_type("c.png"), "image/png");
    assert_eq!(content_type("d.bin"), "application/octet-stream");
}

#[test]
fn requests_arrive_in_pieces() {
    let wire = b"POST /api/check HTTP/1.1\r\nContent-LENGTH: 5\r\nX-Name:  v \r\n\r\nhello";
    for cut in 1..wire.len() {
        let mut reader = RequestReader::new();
        assert!(matches!(reader.offer(&wire[..cut]), ReadStep::More), "{cut}");
        match reader.offer(&wire[cut..]) {
            ReadStep::Ready(r) => {
                assert_eq!(r.method, "POST");
                assert_eq!(r.path, "/api/check");
                assert_eq!(r.body, b"hello");
                assert_eq!(
                    r.headers,
                    [
                        ("content-length".to_string(), "5".to_string()),
                        ("x-name".to_string(), "v".to_string()),
                    ]
                );
            }
            other => panic!("{cut}: {other:?}"),
        }
    }
}

#[test]
fn unreadable_requests_are_closed() {
    let mut reader = RequestReader::new();
    assert!(matches!(reader.offer(b""), ReadStep::Close));
    let mut reader = RequestReader::new();
    assert!(matches!(reader.offer(&vec![b'x'; MAX_HEAD + 1]), ReadStep::Close));
    let mut reader = RequestReader::new();
    assert!(matches!(reader.offer(b"\r\n\r\n"), ReadStep::Close));
    // A body that ends early is taken as it is.
    let mut reader = RequestReader::new();
    assert!(matches!(reader.offer(b"POST / HTTP/1.1\r\ncontent-length: 9\r\n\r\nab"), ReadStep::More));
    assert!(matches!(reader.offer(b""), ReadStep::Ready(r) if r.body == b"ab"));
}

#[test]
fn bodies_are_capped() {
    let head = parse_head("POST / HTTP/1.1\r\ncontent-length: 99999999999").unwrap();
    assert_eq!(head.length, MAX_BODY);
    assert_eq!(parse_head("GET / HTTP/1.1").unwrap().length, 0);
    assert!(parse_head("").is_none());
    assert_eq!(find(b"ab\r\n\r\n\r\n", b"\r\n\r\n"), Some(2));
    assert_eq!(find(b"ab", b"\r\n\r\n"), None);
}

#[test]
fn header_names_lose_their_case_beyond_ascii() {
    let head = parse_head("GET / HTTP/1.1\r\nÄ-Name: B").unwrap();
    assert_eq!(head.headers, [("ä-name".to_string(), "B".to_string())]);
}

#[test]
fn project_facts_are_json() {
    let scene = parsed(&api_scene("<scene/>\n\"x\"", "main.scene"));
    assert_eq!(scene["markup"], "<scene/>\n\"x\"");
    assert_eq!(scene["path"], "main.scene");
    let files = vec!["b.wav".to_string(), "a.mp4".to_string()];
    assert_eq!(api_assets("assets", &files), "{\"dir\":\"assets\",\"files\":[\"a.mp4\",\"b.wav\"]}");
    assert_eq!(api_timings(true), "{\"present\":true}");
    assert_eq!(api_timings(false), "{\"present\":false}");
}

#[test]
fn a_response_head_is_this_text() {
    let res = Response::new(200, "text/plain", b"hey".to_vec());
    assert_eq!(
        response_head(&res),
        "HTTP/1.1 200 OK\r\nContent-Type: text/plain\r\nContent-Length: 3\r\nConnection: close\r\n\r\n"
    );
}

#[test]
fn quoted_texts_are_escaped() {
    let text = "a\"b\\c\u{8}\t\n\u{c}\r\u{1}\u{1f} é\u{7f}";
    assert_eq!(
        api_scene(text, ""),
        "{\"markup\":\"a\\\"b\\\\c\\b\\t\\n\\f\\r\\u0001\\u001f é\u{7f}\",\"path\":\"\"}"
    );
    assert_eq!(parsed(&api_scene(text, ""))["markup"], text);
}

#[test]
fn bytes_behind_a_request_are_dropped() {
    let mut reader = RequestReader::new();
    let wire = b"POST / HTTP/1.1\r\ncontent-length: 2\r\n\r\nabGET /x HTTP/1.1\r\n\r\n";
    assert!(matches!(reader.offer(wire), ReadStep::Ready(r) if r.body == b"ab" && r.path == "/"));
}
