use scene_engine::cap::{
    call_params, cap_list, connector_args, connector_config, connector_env, curl_config,
    find_capability, http_args, keychain_args, keychain_lookup, resolve_with, run_process,
    AuthError, AuthRef, AuthToml, CapError, CapRequest, CapToml, Capability, Connector, Registry,
    AUTH_ENV,
};
use scene_engine::media::MediaError;
use scene_engine::process::{Exit, ProcOutput};

const TOML: &str = r#"
[project]
name = "x"

[capabilities.tts]
command = ["python3", "tools/tts.py"]
auth = { env = "TTS_API_KEY" }

[capabilities.image]
endpoint = "https://api.example.com/v1/image"
auth = { keyring = "scene/image" }

[capabilities.local]
command = ["cat"]
"#;

fn text(v: Option<&toml::Value>) -> Option<String> {
    v.and_then(|t| t.as_str()).map(|t| t.to_string())
}

/// The `[capabilities.*]` sections of a document.
fn sections(document: &str) -> Result<Vec<CapToml>, String> {
    let table: toml::Table = document.parse().map_err(|e: toml::de::Error| e.to_string())?;
    let caps = match table.get("capabilities").and_then(|c| c.as_table()) {
        Some(caps) => caps,
        None => return Ok(Vec::new()),
    };
    Ok(caps
        .iter()
        .map(|(name, body)| CapToml {
            name: name.clone(),
            command: body.get("command").and_then(|c| c.as_array()).map(|words| {
                words.iter().map(|w| w.as_str().unwrap().to_string()).collect()
            }),
            endpoint: text(body.get("endpoint")),
            auth: body.get("auth").map(|a| AuthToml {
                env: text(a.get("env")),
                keyring: text(a.get("keyring")),
            }),
        })
        .collect())
}

fn registry(document: &str) -> Result<Registry, String> {
    Registry::from_toml(sections(document))
}

#[test]
fn registry_parses_both_connector_kinds() {
    let reg = registry(TOML).unwrap();
    assert_eq!(reg.names(), ["image", "local", "tts"]);
    let tts = reg.get("tts").unwrap();
    assert_eq!(
        tts.connector,
        Connector::Subprocess { argv: vec!["python3".into(), "tools/tts.py".into()] }
    );
    assert_eq!(tts.auth, Some(AuthRef::Env("TTS_API_KEY".into())));
    let image = reg.get("image").unwrap();
    assert_eq!(
        image.connector,
        Connector::Http { endpoint: "https://api.example.com/v1/image".into() }
    );
    assert_eq!(
        image.auth,
        Some(AuthRef::Keychain { service: "scene".into(), account: "image".into() })
    );
    assert_eq!(reg.get("local").unwrap().auth, None);
}

#[test]
fn registry_rejects_ambiguous_and_empty_connectors() {
    for body in [r#"command = ["a"], endpoint = "https://x""#, r#"command = []"#, r#""#] {
        let doc = format!("[capabilities.c]\n{body}");
        assert!(registry(&doc).is_err(), "{body}");
    }
    assert_eq!(
        registry("[capabilities.c]\ncommand=[\"a\"]\nendpoint=\"https://x\"").unwrap_err(),
        "capability `c` needs exactly one of `command` or `endpoint`"
    );
}

#[test]
fn registry_rejects_bad_auth_shapes() {
    let both = "[capabilities.c]\ncommand=[\"a\"]\nauth={env=\"V\",keyring=\"s/a\"}";
    assert!(registry(both).is_err());
    let no_slash = "[capabilities.c]\ncommand=[\"a\"]\nauth={keyring=\"noslash\"}";
    assert!(registry(no_slash).is_err());
}

fn no_keychain(_: &str, _: &str) -> Result<String, AuthError> {
    unreachable!()
}

#[test]
fn env_auth_resolves_and_missing_errors() {
    let auth = AuthRef::Env("MY_VAR".into());
    let got = resolve_with(
        &auth,
        |n: &str| if n == "MY_VAR" { Some("s3cret".to_string()) } else { None },
        no_keychain,
    );
    assert_eq!(got.unwrap(), "s3cret");
    let err = resolve_with(&auth, |_: &str| None, no_keychain).unwrap_err();
    assert_eq!(err.message(), "credential env var `MY_VAR` is not set");
    assert!(matches!(err, AuthError::MissingEnv(v) if v == "MY_VAR"));
}

#[test]
fn keychain_args_match_platform_tool() {
    let (tool, args) = keychain_args(true, "svc", "acct");
    assert_eq!(tool, "security");
    assert_eq!(args, vec!["find-generic-password", "-s", "svc", "-a", "acct", "-w"]);
    let (tool, args) = keychain_args(false, "svc", "acct");
    assert_eq!(tool, "secret-tool");
    assert_eq!(args, vec!["lookup", "service", "svc", "account", "acct"]);
}

#[test]
fn keychain_auth_asks_for_its_names() {
    let auth = AuthRef::Keychain { service: "svc".into(), account: "acct".into() };
    let got = resolve_with(&auth, |_: &str| unreachable!(), |s: &str, a: &str| {
        Ok(format!("{s}:{a}"))
    });
    assert_eq!(got.unwrap(), "svc:acct");
}

fn run(success: bool, stdout: &str, stderr: &str) -> Result<ProcOutput, MediaError> {
    Ok(ProcOutput {
        status: Exit { success, text: "exit status: 3".into() },
        stdout: stdout.as_bytes().to_vec(),
        stderr: stderr.as_bytes().to_vec(),
    })
}

#[test]
fn keychain_output_is_trimmed_and_never_empty() {
    assert_eq!(keychain_lookup("s", "a", run(true, "tok\n", "")).unwrap(), "tok");
    for (output, detail) in [
        (run(true, " \n", ""), "empty secret"),
        (run(false, "tok", " not found\n"), "not found"),
    ] {
        assert_eq!(
            keychain_lookup("s", "a", output).unwrap_err().message(),
            format!("keychain lookup failed for `s/a`: {detail}")
        );
    }
    let failed = keychain_lookup(
        "s",
        "a",
        Err(MediaError::TimedOut { tool: "secret-tool".into(), limit_ms: 5_000 }),
    );
    assert!(failed.unwrap_err().message().starts_with("keychain lookup failed for `s/a`: "));
}

#[test]
fn http_args_build_curl_post() {
    let args = http_args("https://api.x/v1", Some("/tmp/x.curlrc"), "/o.png");
    assert_eq!(args[0], "curl");
    assert!(args.windows(2).any(|w| w == ["-X", "POST"]));
    // The bearer goes through `-K <file>`, never a literal argv header.
    assert!(args.windows(2).any(|w| w == ["-K", "/tmp/x.curlrc"]));
    assert!(!args.iter().any(|a| a.contains("authorization")));
    assert!(args.windows(2).any(|w| w == ["-o", "/o.png"]));
    assert_eq!(args.last().map(String::as_str), Some("https://api.x/v1"));
    // No resolved secret, no config file reference.
    let args2 = http_args("https://api.x/v1", None, "/o.png");
    assert!(!args2.iter().any(|a| a == "-K"));
}

#[test]
fn argv_never_carries_the_secret() {
    let args = http_args("https://api.example/tts", Some("/tmp/x.curlrc"), "/tmp/o.bin");
    assert!(
        !args.iter().any(|a| a.contains("s3cr3t")),
        "no argv element may contain a credential"
    );
    let k = args.iter().position(|a| a == "-K").expect("config flag");
    assert_eq!(args[k + 1], "/tmp/x.curlrc");
}

#[test]
fn no_auth_means_no_config() {
    let args = http_args("https://api.example/tts", None, "/tmp/o.bin");
    assert!(!args.iter().any(|a| a == "-K"));
}

#[test]
fn config_holds_the_header() {
    let c = curl_config("tok-123");
    assert_eq!(c, "header = \"authorization: Bearer tok-123\"\n");
    // Escaping keeps a quote-bearing secret inside the line.
    let c = curl_config("a\"b");
    assert!(c.contains("a\\\"b"));
}

#[test]
fn unknown_capability_is_structured() {
    let reg = registry("").unwrap();
    let err = find_capability(&reg, "ghost").unwrap_err();
    assert_eq!(err.message(), "unknown capability `ghost`");
    assert!(matches!(err, CapError::Unknown(n) if n == "ghost"));
}

#[test]
fn a_request_is_one_json_document() {
    let request = CapRequest {
        capability: "fake",
        params: "{\"text\":\"hello\"}",
        out: "/d/\"a\".bin",
    };
    let document = request.document();
    assert_eq!(
        document,
        "{\"capability\":\"fake\",\"out\":\"/d/\\\"a\\\".bin\",\"params\":{\"text\":\"hello\"}}"
    );
    let parsed: serde_json::Value = serde_json::from_str(&document).unwrap();
    assert_eq!(parsed["params"]["text"], "hello");
    assert_eq!(parsed["out"], "/d/\"a\".bin");
}

#[test]
fn call_parameters_are_inline_json() {
    assert_eq!(call_params("{ \"b\" : [1, 2],\n \"a\": null }").unwrap(), "{\"a\":null,\"b\":[1,2]}");
    assert!(call_params("{").unwrap_err().starts_with("--params is not valid JSON: "));
}

fn capability(connector: Connector, auth: Option<AuthRef>) -> Capability {
    Capability { name: "fake".into(), connector, auth }
}

#[test]
fn secrets_travel_by_file_or_environment() {
    let http = capability(Connector::Http { endpoint: "https://x".into() }, None);
    let local = capability(
        Connector::Subprocess { argv: vec!["cat".into(), "-".into()] },
        Some(AuthRef::Env("KEY".into())),
    );
    let secret = Some("tok".to_string());
    assert_eq!(connector_config(&http, &secret), Some(curl_config("tok")));
    assert_eq!(connector_config(&http, &None), None);
    assert_eq!(connector_config(&local, &secret), None);
    assert_eq!(connector_env(&http, secret.clone(), None), None);
    assert_eq!(connector_env(&local, secret.clone(), None), secret);
    assert_eq!(connector_env(&local, secret, Some("now".into())), Some("now".to_string()));
    assert_eq!(connector_args(&local, None, "/o"), ["cat", "-"]);
    assert_eq!(connector_args(&http, Some("/c"), "/o"), http_args("https://x", Some("/c"), "/o"));
    assert_eq!(AUTH_ENV, "SCENE_CAP_AUTH");
}

#[test]
fn an_asset_needs_a_good_run_and_a_file() {
    let cap = capability(Connector::Subprocess { argv: vec!["cat".into()] }, None);
    assert!(run_process(&cap, run(true, "", ""), true, "/o").is_ok());
    assert_eq!(
        run_process(&cap, run(true, "", ""), false, "/o").unwrap_err().message(),
        "capability `fake` succeeded but produced no output at /o"
    );
    assert_eq!(
        run_process(&cap, run(false, "", "nope\n"), true, "/o").unwrap_err().message(),
        "capability `fake` failed (exit status: 3): nope"
    );
    assert_eq!(CapError::Io("disk full".into()).message(), "disk full");
}

#[test]
fn connectors_are_listed_by_name() {
    let reg = registry(TOML).unwrap();
    let lines = cap_list(&reg, "scene.toml");
    assert_eq!(
        lines,
        [
            "image\thttp: https://api.example.com/v1/image\tauth: keychain scene/image",
            "local\tcommand: cat\tauth: none",
            "tts\tcommand: python3 tools/tts.py\tauth: env TTS_API_KEY",
        ]
    );
    let none = cap_list(&registry("").unwrap(), "scene.toml");
    assert_eq!(none, ["no capabilities declared in scene.toml"]);
}
