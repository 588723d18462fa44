//! Capabilities: external services that a scene may call, declared in
//! `scene.toml` and called through one contract, a JSON request in and an
//! asset file out.
//!
//! ```toml
//! [capabilities.tts]
//! command = ["python3", "tools/tts.py"]   # request JSON on stdin
//! auth = { env = "TTS_API_KEY" }          # forwarded into the process env
//!
//! [capabilities.image]
//! endpoint = "https://api.gen/v1/image"   # POST, body → asset file
//! auth = { keyring = "scene/image" }      # OS keychain service/account
//! ```
//!
//! Credentials resolve via environment variables or the OS keychain and
//! always reach a connector the same way, as `SCENE_CAP_AUTH`. They are never
//! part of an argument vector.

use vstd::prelude::*;

use crate::json::{lossy, parse_json, quoted};
use crate::lower::{before, join_names};
use crate::media::{MediaError, MediaErrorView};
use crate::process::{tail_text, ProcOutput};
use crate::text::{
    cat2, cat3, cat4, cat5, chars_of, find_char, push_words, string_of, text_eq, trim_text,
};

verus! {

/// The environment variable that connectors read their credential from.
pub const AUTH_ENV: &'static str = "SCENE_CAP_AUTH";

// The registry.

/// Where a credential lives.
#[derive(Debug, PartialEq)]
pub enum AuthRef {
    /// Forward the value of a variable into the connector's environment.
    Env(String),
    /// macOS `security`, Linux `secret-tool`.
    Keychain { service: String, account: String },
}

/// How the engine reaches the connector.
#[derive(Debug, PartialEq)]
pub enum Connector {
    /// Spawn argv; request JSON on stdin; the connector writes `out`.
    Subprocess { argv: Vec<String> },
    /// POST request JSON via curl; the response body becomes `out`.
    Http { endpoint: String },
}

#[derive(Debug, PartialEq)]
pub struct Capability {
    pub name: String,
    pub connector: Connector,
    pub auth: Option<AuthRef>,
}

pub enum AuthRefView {
    Env(Seq<char>),
    Keychain { service: Seq<char>, account: Seq<char> },
}

pub enum ConnectorView {
    Subprocess { argv: Seq<Seq<char>> },
    Http { endpoint: Seq<char> },
}

pub struct CapabilityView {
    pub name: Seq<char>,
    pub connector: ConnectorView,
    pub auth: Option<AuthRefView>,
}

impl View for AuthRef {
    type V = AuthRefView;

    open spec fn view(&self) -> AuthRefView {
        match self {
            AuthRef::Env(v) => AuthRefView::Env(v@),
            AuthRef::Keychain { service, account } => AuthRefView::Keychain {
                service: service@,
                account: account@,
            },
        }
    }
}

impl View for Connector {
    type V = ConnectorView;

    open spec fn view(&self) -> ConnectorView {
        match self {
            Connector::Subprocess { argv } => ConnectorView::Subprocess {
                argv: crate::text::text_views(argv@),
            },
            Connector::Http { endpoint } => ConnectorView::Http { endpoint: endpoint@ },
        }
    }
}

pub open spec fn auth_view(a: Option<AuthRef>) -> Option<AuthRefView> {
    match a {
        Some(v) => Some(v@),
        None => None,
    }
}

impl View for Capability {
    type V = CapabilityView;

    open spec fn view(&self) -> CapabilityView {
        CapabilityView {
            name: self.name@,
            connector: self.connector@,
            auth: auth_view(self.auth),
        }
    }
}

/// A `[capabilities.*]` section as it is written.
#[derive(Debug)]
pub struct CapToml {
    pub name: String,
    pub command: Option<Vec<String>>,
    pub endpoint: Option<String>,
    pub auth: Option<AuthToml>,
}

/// An `auth` table as it is written.
#[derive(Debug)]
pub struct AuthToml {
    pub env: Option<String>,
    pub keyring: Option<String>,
}

/// Exactly one of `command`, which is not empty, and `endpoint`.
pub open spec fn connector_of(c: CapToml) -> Result<ConnectorView, Seq<char>> {
    match (c.command, c.endpoint) {
        (Some(argv), None) if argv@.len() > 0 => Ok(
            ConnectorView::Subprocess { argv: crate::text::text_views(argv@) },
        ),
        (None, Some(endpoint)) => Ok(ConnectorView::Http { endpoint: endpoint@ }),
        _ => Err(
            "capability `"@ + c.name@ + "` needs exactly one of `command` or `endpoint`"@,
        ),
    }
}

/// None, or exactly one of `env` and `keyring`, which is `service/account`.
pub open spec fn auth_of(c: CapToml) -> Result<Option<AuthRefView>, Seq<char>> {
    match c.auth {
        None => Ok(None),
        Some(a) => match (a.env, a.keyring) {
            (Some(var), None) => Ok(Some(AuthRefView::Env(var@))),
            (None, Some(sa)) => {
                let slash = crate::text::find_from(sa@, '/', 0);
                if slash == sa@.len() {
                    Err(
                        "capability `"@ + c.name@
                            + "` keyring auth wants `service/account`, got `"@ + sa@ + "`"@,
                    )
                } else {
                    Ok(
                        Some(
                            AuthRefView::Keychain {
                                service: sa@.take(slash),
                                account: sa@.skip(slash + 1),
                            },
                        ),
                    )
                }
            },
            _ => Err(
                "capability `"@ + c.name@ + "` auth needs exactly one of `env` or `keyring`"@,
            ),
        },
    }
}

pub open spec fn capability_of(c: CapToml) -> Result<CapabilityView, Seq<char>> {
    match connector_of(c) {
        Err(e) => Err(e),
        Ok(connector) => match auth_of(c) {
            Err(e) => Err(e),
            Ok(auth) => Ok(CapabilityView { name: c.name@, connector, auth }),
        },
    }
}

/// `c` in its place by name; it replaces one of the same name.
pub open spec fn placed(s: Seq<CapabilityView>, c: CapabilityView) -> Seq<CapabilityView>
    decreases s.len(),
{
    if s.len() == 0 || crate::lower::text_before(s.last().name, c.name) {
        s.push(c)
    } else if s.last().name == c.name {
        s.drop_last().push(c)
    } else {
        placed(s.drop_last(), c).push(s.last())
    }
}

/// The capabilities of the first `n` sections, or what is wrong with the first
/// section that is not in order.
pub open spec fn registered(doc: Seq<CapToml>, n: int) -> Result<Seq<CapabilityView>, Seq<char>>
    decreases n,
{
    if n <= 0 || n > doc.len() {
        Ok(Seq::empty())
    } else {
        match registered(doc, n - 1) {
            Err(e) => Err(e),
            Ok(s) => match capability_of(doc[n - 1]) {
                Err(e) => Err(e),
                Ok(c) => Ok(placed(s, c)),
            },
        }
    }
}

/// In order by name, none twice.
pub open spec fn in_order(s: Seq<CapabilityView>) -> bool {
    forall|i: int, j: int|
        0 <= i < j < s.len() ==> crate::lower::text_before(
            (#[trigger] s[i]).name,
            (#[trigger] s[j]).name,
        )
}

proof fn lemma_before_transitive(a: Seq<char>, b: Seq<char>, c: Seq<char>)
    requires
        crate::lower::text_before(a, b),
        crate::lower::text_before(b, c),
    ensures
        crate::lower::text_before(a, c),
    decreases a.len(),
{
    if a.len() > 0 && b.len() > 0 && c.len() > 0 && a[0] == b[0] && b[0] == c[0] {
        lemma_before_transitive(a.drop_first(), b.drop_first(), c.drop_first());
    }
}

proof fn lemma_before_total(a: Seq<char>, b: Seq<char>)
    ensures
        crate::lower::text_before(a, b) || crate::lower::text_before(b, a) || a == b,
        !(crate::lower::text_before(a, b) && crate::lower::text_before(b, a)),
        a == b ==> !crate::lower::text_before(a, b),
    decreases a.len(),
{
    if a.len() == 0 {
        if b.len() == 0 {
            assert(a =~= b);
        }
    } else if b.len() > 0 && a[0] == b[0] {
        lemma_before_total(a.drop_first(), b.drop_first());
        if a.drop_first() == b.drop_first() {
            assert(a =~= seq![a[0]] + a.drop_first());
            assert(b =~= seq![b[0]] + b.drop_first());
        }
    }
}

proof fn lemma_placed(s: Seq<CapabilityView>, c: CapabilityView)
    requires
        in_order(s),
    ensures
        in_order(placed(s, c)),
        placed(s, c).len() > 0,
        placed(s, c).contains(c),
        placed(s, c).last() == c || (s.len() > 0 && placed(s, c).last() == s.last()),
        forall|i: int|
            0 <= i < placed(s, c).len() ==> (#[trigger] placed(s, c)[i]) == c || s.contains(
                placed(s, c)[i],
            ),
    decreases s.len(),
{
    let out = placed(s, c);
    if s.len() == 0 {
        assert(out[0] == c);
    } else {
        let n = s.len() - 1;
        lemma_before_total(s.last().name, c.name);
        if crate::lower::text_before(s.last().name, c.name) {
            assert(out[s.len() as int] == c);
            assert forall|i: int, j: int| 0 <= i < j < out.len() implies crate::lower::text_before(
                (#[trigger] out[i]).name,
                (#[trigger] out[j]).name,
            ) by {
                if j == s.len() && i < n {
                    assert(crate::lower::text_before(s[i].name, s[n].name));
                    lemma_before_transitive(s[i].name, s[n].name, c.name);
                } else if j < s.len() {
                    assert(out[i] == s[i] && out[j] == s[j]);
                }
            }
            assert forall|i: int| 0 <= i < out.len() implies (#[trigger] out[i]) == c || s.contains(
                out[i],
            ) by {
                if i < s.len() {
                    assert(out[i] == s[i]);
                }
            }
        } else if s.last().name == c.name {
            assert(out[n] == c);
            assert forall|i: int, j: int| 0 <= i < j < out.len() implies crate::lower::text_before(
                (#[trigger] out[i]).name,
                (#[trigger] out[j]).name,
            ) by {
                assert(crate::lower::text_before(s[i].name, s[j].name));
            }
            assert forall|i: int| 0 <= i < out.len() implies (#[trigger] out[i]) == c || s.contains(
                out[i],
            ) by {
                if i < n {
                    assert(out[i] == s[i]);
                }
            }
        } else {
            let rest = s.drop_last();
            assert(in_order(rest)) by {
                assert forall|i: int, j: int|
                    0 <= i < j < rest.len() implies crate::lower::text_before(
                    (#[trigger] rest[i]).name,
                    (#[trigger] rest[j]).name,
                ) by {
                    assert(rest[i] == s[i] && rest[j] == s[j]);
                }
            }
            lemma_placed(rest, c);
            let head = placed(rest, c);
            let k = choose|k: int| 0 <= k < head.len() && head[k] == c;
            assert(out[k] == c);
            assert forall|i: int| 0 <= i < head.len() implies crate::lower::text_before(
                (#[trigger] head[i]).name,
                s.last().name,
            ) by {
                if head[i] != c {
                    let m = choose|m: int| 0 <= m < rest.len() && rest[m] == head[i];
                    assert(crate::lower::text_before(s[m].name, s[n].name));
                }
            }
            assert forall|i: int, j: int| 0 <= i < j < out.len() implies crate::lower::text_before(
                (#[trigger] out[i]).name,
                (#[trigger] out[j]).name,
            ) by {
                if j < head.len() {
                    assert(out[i] == head[i] && out[j] == head[j]);
                } else {
                    assert(out[i] == head[i]);
                }
            }
            assert forall|i: int| 0 <= i < out.len() implies (#[trigger] out[i]) == c || s.contains(
                out[i],
            ) by {
                if i < head.len() {
                    assert(out[i] == head[i]);
                    if head[i] != c {
                        let m = choose|m: int| 0 <= m < rest.len() && rest[m] == head[i];
                        assert(s[m] == head[i]);
                    }
                } else {
                    assert(out[i] == s[n]);
                }
            }
        }
    }
}

proof fn lemma_registered(doc: Seq<CapToml>, n: int)
    ensures
        registered(doc, n) matches Ok(s) ==> in_order(s),
    decreases n,
{
    if 0 < n <= doc.len() {
        lemma_registered(doc, n - 1);
        if let Ok(s) = registered(doc, n - 1) {
            if let Ok(c) = capability_of(doc[n - 1]) {
                lemma_placed(s, c);
            }
        }
    }
}

/// The capabilities of a project.
#[derive(Debug)]
pub struct Registry {
    caps: Vec<Capability>,
}

pub open spec fn cap_views(s: Seq<Capability>) -> Seq<CapabilityView> {
    Seq::new(s.len(), |i: int| s[i]@)
}

pub open spec fn cap_names(s: Seq<CapabilityView>) -> Seq<Seq<char>> {
    Seq::new(s.len(), |i: int| s[i].name)
}

fn read_connector(
    name: &str,
    command: Option<Vec<String>>,
    endpoint: Option<String>,
    Ghost(c): Ghost<CapToml>,
) -> (r: Result<Connector, String>)
    requires
        c.name@ == name@,
        c.command == command,
        c.endpoint == endpoint,
    ensures
        match r {
            Ok(v) => connector_of(c) == Ok::<ConnectorView, Seq<char>>(v@),
            Err(e) => connector_of(c) == Err::<ConnectorView, Seq<char>>(e@),
        },
{
    match (command, endpoint) {
        (Some(argv), None) => {
            if argv.len() > 0 {
                return Ok(Connector::Subprocess { argv });
            }
        },
        (None, Some(endpoint)) => {
            return Ok(Connector::Http { endpoint });
        },
        _ => {},
    }
    Err(cat3("capability `", name, "` needs exactly one of `command` or `endpoint`"))
}

fn read_auth(name: &str, auth: Option<AuthToml>, Ghost(c): Ghost<CapToml>) -> (r: Result<
    Option<AuthRef>,
    String,
>)
    requires
        c.name@ == name@,
        c.auth == auth,
    ensures
        match r {
            Ok(v) => auth_of(c) == Ok::<Option<AuthRefView>, Seq<char>>(auth_view(v)),
            Err(e) => auth_of(c) == Err::<Option<AuthRefView>, Seq<char>>(e@),
        },
{
    match auth {
        None => Ok(None),
        Some(a) => match (a.env, a.keyring) {
            (Some(var), None) => Ok(Some(AuthRef::Env(var))),
            (None, Some(sa)) => {
                let cs = chars_of(sa.as_str());
                let slash = find_char(cs.as_slice(), '/', 0);
                if slash == cs.len() {
                    return Err(
                        cat5(
                            "capability `",
                            name,
                            "` keyring auth wants `service/account`, got `",
                            sa.as_str(),
                            "`",
                        ),
                    );
                }
                let head = vstd::slice::slice_subrange(cs.as_slice(), 0, slash);
                let rest = vstd::slice::slice_subrange(cs.as_slice(), slash + 1, cs.len());
                assert(head@ =~= sa@.take(slash as int));
                assert(rest@ =~= sa@.skip(slash + 1));
                Ok(
                    Some(
                        AuthRef::Keychain { service: string_of(head), account: string_of(rest) },
                    ),
                )
            },
            _ => Err(cat3("capability `", name, "` auth needs exactly one of `env` or `keyring`")),
        },
    }
}

fn name_before(a: &str, b: &str) -> (r: bool)
    ensures
        r == crate::lower::text_before(a@, b@),
{
    let x = chars_of(a);
    let y = chars_of(b);
    before(x.as_slice(), y.as_slice())
}

fn place(caps: &mut Vec<Capability>, c: Capability)
    ensures
        cap_views(final(caps)@) == placed(cap_views(old(caps)@), c@),
    decreases old(caps)@.len(),
{
    let ghost s = cap_views(caps@);
    let n: usize = caps.len();
    if n == 0 {
        caps.push(c);
        assert(cap_views(caps@) =~= s.push(c@));
        return;
    }
    assert(s.last() == caps@[n - 1]@);
    if name_before(caps[n - 1].name.as_str(), c.name.as_str()) {
        caps.push(c);
        assert(cap_views(caps@) =~= s.push(c@));
        return;
    }
    let same = text_eq(caps[n - 1].name.as_str(), c.name.as_str());
    match caps.pop() {
        Some(last) => {
            assert(cap_views(caps@) =~= s.drop_last());
            if same {
                caps.push(c);
                assert(cap_views(caps@) =~= s.drop_last().push(c@));
            } else {
                place(caps, c);
                let ghost head = cap_views(caps@);
                caps.push(last);
                assert(cap_views(caps@) =~= head.push(last@));
            }
        },
        None => {},
    }
}

impl Registry {
    pub closed spec fn view(&self) -> Seq<CapabilityView> {
        cap_views(self.caps@)
    }

    /// The capability of a name.
    pub fn get(&self, name: &str) -> (r: Option<&Capability>)
        ensures
            match r {
                Some(c) => c@.name == name@ && self@.contains(c@),
                None => !cap_names(self@).contains(name@),
            },
    {
        let mut i: usize = 0;
        while i < self.caps.len()
            invariant
                i <= self.caps@.len(),
                forall|k: int| 0 <= k < i ==> (#[trigger] self.caps@[k])@.name != name@,
            decreases self.caps@.len() - i,
        {
            if text_eq(self.caps[i].name.as_str(), name) {
                assert(self@[i as int] == self.caps@[i as int]@);
                return Some(&self.caps[i]);
            }
            i = i + 1;
        }
        assert forall|k: int| 0 <= k < cap_names(self@).len() implies #[trigger] cap_names(
            self@,
        )[k] != name@ by {
            assert(self.caps@[k]@.name != name@);
        }
        None
    }

    /// The names, in order.
    pub fn names(&self) -> (r: Vec<String>)
        ensures
            crate::text::text_views(r@) == cap_names(self@),
    {
        let mut out: Vec<String> = Vec::new();
        let mut i: usize = 0;
        while i < self.caps.len()
            invariant
                i <= self.caps@.len(),
                out@.len() == i,
                forall|k: int| 0 <= k < i ==> (#[trigger] out@[k])@ == self.caps@[k]@.name,
            decreases self.caps@.len() - i,
        {
            out.push(self.caps[i].name.clone());
            i = i + 1;
        }
        assert(crate::text::text_views(out@) =~= cap_names(self@));
        out
    }

    /// The registry of a `scene.toml`. `parsed` holds the document's
    /// `[capabilities.*]` sections, or the message of its parser.
    pub fn from_toml(parsed: Result<Vec<CapToml>, String>) -> (r: Result<Self, String>)
        ensures
            match (parsed, r) {
                (Err(m), Err(e)) => e@ == m@,
                (Ok(doc), Ok(reg)) => registered(doc@, doc@.len() as int) == Ok::<
                    Seq<CapabilityView>,
                    Seq<char>,
                >(reg@) && in_order(reg@),
                (Ok(doc), Err(e)) => registered(doc@, doc@.len() as int) == Err::<
                    Seq<CapabilityView>,
                    Seq<char>,
                >(e@),
                _ => false,
            },
    {
        let mut doc = match parsed {
            Ok(d) => d,
            Err(m) => return Err(m),
        };
        let ghost all = doc@;
        let total: usize = doc.len();
        let mut caps: Vec<Capability> = Vec::new();
        let mut rest: Vec<CapToml> = Vec::new();
        while doc.len() > 0
            invariant
                doc@.len() + rest@.len() == all.len(),
                doc@ == all.take(doc@.len() as int),
                forall|k: int|
                    0 <= k < rest@.len() ==> #[trigger] rest@[k] == all[all.len() - 1 - k],
            decreases doc@.len(),
        {
            let ghost n = doc@.len();
            match doc.pop() {
                Some(c) => {
                    rest.push(c);
                    assert(doc@ =~= all.take(n - 1));
                },
                None => {},
            }
        }
        let mut i: usize = 0;
        assert(cap_views(caps@) =~= Seq::<CapabilityView>::empty());
        while rest.len() > 0
            invariant
                i + rest@.len() == all.len(),
                all.len() == total,
                parsed matches Ok(d) && d@ == all,
                forall|k: int|
                    0 <= k < rest@.len() ==> #[trigger] rest@[k] == all[all.len() - 1 - k],
                registered(all, i as int) == Ok::<Seq<CapabilityView>, Seq<char>>(
                    cap_views(caps@),
                ),
            decreases rest@.len(),
        {
            match rest.pop() {
                Some(c) => {
                    assert(c == all[i as int]);
                    let ghost whole = c;
                    let connector = match read_connector(
                        c.name.as_str(),
                        c.command,
                        c.endpoint,
                        Ghost(whole),
                    ) {
                        Ok(v) => v,
                        Err(e) => {
                            proof {
                                lemma_stays_wrong(all, i + 1, all.len() as int);
                            }
                            return Err(e);
                        },
                    };
                    let auth = match read_auth(c.name.as_str(), c.auth, Ghost(whole)) {
                        Ok(v) => v,
                        Err(e) => {
                            proof {
                                lemma_stays_wrong(all, i + 1, all.len() as int);
                            }
                            return Err(e);
                        },
                    };
                    place(&mut caps, Capability { name: c.name, connector, auth });
                    i = i + 1;
                },
                None => {},
            }
        }
        proof {
            lemma_registered(all, all.len() as int);
        }
        Ok(Registry { caps })
    }
}

proof fn lemma_stays_wrong(doc: Seq<CapToml>, m: int, n: int)
    requires
        0 <= m <= n <= doc.len(),
        registered(doc, m) is Err,
    ensures
        registered(doc, n) == registered(doc, m),
    decreases n - m,
{
    if m < n {
        lemma_stays_wrong(doc, m, n - 1);
    }
}

// Credentials.

#[derive(Debug)]
pub enum AuthError {
    MissingEnv(String),
    Keychain { service: String, account: String, detail: String },
}

pub enum AuthErrorView {
    MissingEnv(Seq<char>),
    Keychain { service: Seq<char>, account: Seq<char>, detail: Seq<char> },
}

impl View for AuthError {
    type V = AuthErrorView;

    open spec fn view(&self) -> AuthErrorView {
        match self {
            AuthError::MissingEnv(v) => AuthErrorView::MissingEnv(v@),
            AuthError::Keychain { service, account, detail } => AuthErrorView::Keychain {
                service: service@,
                account: account@,
                detail: detail@,
            },
        }
    }
}

pub open spec fn auth_message(e: AuthErrorView) -> Seq<char> {
    match e {
        AuthErrorView::MissingEnv(v) => "credential env var `"@ + v + "` is not set"@,
        AuthErrorView::Keychain { service, account, detail } => "keychain lookup failed for `"@
            + service + "/"@ + account + "`: "@ + detail,
    }
}

impl AuthError {
    /// The error in words.
    pub fn message(&self) -> (r: String)
        ensures
            r@ == auth_message(self@),
    {
        match self {
            AuthError::MissingEnv(v) => cat3("credential env var `", v.as_str(), "` is not set"),
            AuthError::Keychain { service, account, detail } => {
                let head = cat4(
                    "keychain lookup failed for `",
                    service.as_str(),
                    "/",
                    account.as_str(),
                );
                cat3(head.as_str(), "`: ", detail.as_str())
            },
        }
    }
}

/// The secret of a credential: from the variable that `env` reads, or from
/// the keychain. Only the source that the credential names is asked, and with
/// its names; a variable that is not set is an error.
pub fn resolve_with<E: Fn(&str) -> Option<String>, K: Fn(&str, &str) -> Result<String, AuthError>>(
    auth: &AuthRef,
    env: E,
    keychain: K,
) -> (r: Result<String, AuthError>)
    requires
        auth is Env ==> forall|n: &str| n@ == auth->Env_0@ ==> call_requires(env, (n,)),
        auth is Keychain ==> forall|s: &str, a: &str|
            s@ == auth->service@ && a@ == auth->account@ ==> call_requires(keychain, (s, a)),
    ensures
        match *auth {
            AuthRef::Env(var) => exists|n: &str, v: Option<String>|
                n@ == var@ && #[trigger] call_ensures(env, (n,), v) && match v {
                    Some(secret) => r matches Ok(t) && t@ == secret@,
                    None => r matches Err(e) && e@ == AuthErrorView::MissingEnv(var@),
                },
            AuthRef::Keychain { service, account } => exists|s: &str, a: &str|
                s@ == service@ && a@ == account@ && #[trigger] call_ensures(keychain, (s, a), r),
        },
{
    match auth {
        AuthRef::Env(var) => {
            let n: &str = var.as_str();
            match env(n) {
                Some(secret) => Ok(secret),
                None => Err(AuthError::MissingEnv(var.clone())),
            }
        },
        AuthRef::Keychain { service, account } => {
            let s: &str = service.as_str();
            let a: &str = account.as_str();
            keychain(s, a)
        },
    }
}

pub open spec fn keychain_tool(macos: bool) -> Seq<char> {
    if macos {
        "security"@
    } else {
        "secret-tool"@
    }
}

pub open spec fn keychain_argv(macos: bool, service: Seq<char>, account: Seq<char>) -> Seq<
    Seq<char>,
> {
    if macos {
        seq!["find-generic-password"@, "-s"@, service, "-a"@, account, "-w"@]
    } else {
        seq!["lookup"@, "service"@, service, "account"@, account]
    }
}

/// The OS keychain read: the tool of the platform and its arguments.
pub fn keychain_args(macos: bool, service: &str, account: &str) -> (r: (&'static str, Vec<String>))
    ensures
        r.0@ == keychain_tool(macos),
        crate::text::text_views(r.1@) == keychain_argv(macos, service@, account@),
{
    let mut args: Vec<String> = Vec::new();
    assert(crate::text::text_views(args@) =~= Seq::<Seq<char>>::empty());
    if macos {
        let words = ["find-generic-password", "-s", service, "-a", account, "-w"];
        push_words(&mut args, words.as_slice());
        assert(crate::text::text_views(args@) =~= keychain_argv(macos, service@, account@));
        ("security", args)
    } else {
        let words = ["lookup", "service", service, "account", account];
        push_words(&mut args, words.as_slice());
        assert(crate::text::text_views(args@) =~= keychain_argv(macos, service@, account@));
        ("secret-tool", args)
    }
}

/// What a run of the keychain tool says: a secret that is not empty, or why
/// there is none.
pub open spec fn keychain_secret(run: Result<ProcOutput, MediaError>) -> Result<
    Seq<char>,
    Seq<char>,
> {
    match run {
        Err(e) => Err(crate::media::media_message(e@)),
        Ok(o) => if !o.status.success {
            Err(crate::text::trimmed(crate::json::utf8_lossy(o.stderr@)))
        } else {
            let secret = crate::text::trimmed(crate::json::utf8_lossy(o.stdout@));
            if secret.len() == 0 {
                Err("empty secret"@)
            } else {
                Ok(secret)
            }
        },
    }
}

/// The secret that a run of the keychain tool gave.
pub fn keychain_lookup(service: &str, account: &str, run: Result<ProcOutput, MediaError>) -> (r:
    Result<String, AuthError>)
    ensures
        match keychain_secret(run) {
            Ok(secret) => r matches Ok(t) && t@ == secret,
            Err(detail) => r matches Err(e) && e@ == (AuthErrorView::Keychain {
                service: service@,
                account: account@,
                detail,
            }),
        },
{
    let detail: String = match run {
        Err(e) => e.message(),
        Ok(o) => if !o.status.success {
            tail_text(&o.stderr)
        } else {
            let text = lossy(o.stdout.as_slice());
            let secret = trim_text(text.as_str());
            if secret.as_str().unicode_len() > 0 {
                return Ok(secret);
            }
            "empty secret".to_owned()
        },
    };
    Err(AuthError::Keychain { service: service.to_owned(), account: account.to_owned(), detail })
}

// Requests.

/// What a request fails with.
#[derive(Debug)]
pub enum CapError {
    Unknown(String),
    Auth(AuthError),
    Spawn { tool: String, source: String },
    Failed { cap: String, status: String, detail: String },
    NoOutput { cap: String, path: String },
    Io(String),
}

pub enum CapErrorView {
    Unknown(Seq<char>),
    Auth(AuthErrorView),
    Spawn { tool: Seq<char>, source: Seq<char> },
    Failed { cap: Seq<char>, status: Seq<char>, detail: Seq<char> },
    NoOutput { cap: Seq<char>, path: Seq<char> },
    Io(Seq<char>),
}

impl View for CapError {
    type V = CapErrorView;

    open spec fn view(&self) -> CapErrorView {
        match self {
            CapError::Unknown(n) => CapErrorView::Unknown(n@),
            CapError::Auth(e) => CapErrorView::Auth(e@),
            CapError::Spawn { tool, source } => CapErrorView::Spawn {
                tool: tool@,
                source: source@,
            },
            CapError::Failed { cap, status, detail } => CapErrorView::Failed {
                cap: cap@,
                status: status@,
                detail: detail@,
            },
            CapError::NoOutput { cap, path } => CapErrorView::NoOutput { cap: cap@, path: path@ },
            CapError::Io(m) => CapErrorView::Io(m@),
        }
    }
}

pub open spec fn cap_message(e: CapErrorView) -> Seq<char> {
    match e {
        CapErrorView::Unknown(n) => "unknown capability `"@ + n + "`"@,
        CapErrorView::Auth(a) => auth_message(a),
        CapErrorView::Spawn { tool, source } => "could not run "@ + tool + ": "@ + source,
        CapErrorView::Failed { cap, status, detail } => "capability `"@ + cap + "` failed ("@
            + status + "): "@ + detail,
        CapErrorView::NoOutput { cap, path } => "capability `"@ + cap
            + "` succeeded but produced no output at "@ + path,
        CapErrorView::Io(m) => m,
    }
}

impl CapError {
    /// The error in words.
    pub fn message(&self) -> (r: String)
        ensures
            r@ == cap_message(self@),
    {
        match self {
            CapError::Unknown(n) => cat3("unknown capability `", n.as_str(), "`"),
            CapError::Auth(e) => e.message(),
            CapError::Spawn { tool, source } => cat4(
                "could not run ",
                tool.as_str(),
                ": ",
                source.as_str(),
            ),
            CapError::Failed { cap, status, detail } => {
                let head = cat4("capability `", cap.as_str(), "` failed (", status.as_str());
                cat3(head.as_str(), "): ", detail.as_str())
            },
            CapError::NoOutput { cap, path } => cat4(
                "capability `",
                cap.as_str(),
                "` succeeded but produced no output at ",
                path.as_str(),
            ),
            CapError::Io(m) => m.clone(),
        }
    }
}

/// One request against a registered capability.
#[derive(Debug)]
pub struct CapRequest<'a> {
    pub capability: &'a str,
    /// The parameters, as a JSON text.
    pub params: &'a str,
    /// Where the asset must land.
    pub out: &'a str,
}

/// The wire document of a request.
pub open spec fn request_document(
    capability: Seq<char>,
    params: Seq<char>,
    out: Seq<char>,
) -> Seq<char> {
    "{\"capability\":"@ + crate::json::json_string(capability) + ",\"out\":"@
        + crate::json::json_string(out) + ",\"params\":"@ + params + "}"@
}

impl<'a> CapRequest<'a> {
    /// The wire document: what stdin or the POST body carries.
    pub fn document(&self) -> (r: String)
        ensures
            r@ == request_document(self.capability@, self.params@, self.out@),
    {
        let name = quoted(self.capability);
        let out = quoted(self.out);
        let head = cat4("{\"capability\":", name.as_str(), ",\"out\":", out.as_str());
        cat4(head.as_str(), ",\"params\":", self.params, "}")
    }
}

/// The parameters of a call, given as inline JSON, in compact form.
pub fn call_params(text: &str) -> (r: Result<String, String>)
    ensures
        match r {
            Ok(p) => crate::json::json_value(text@) matches Ok(v) && p@ == v.1,
            Err(m) => crate::json::json_value(text@) matches Err(e) && m@
                == "--params is not valid JSON: "@ + e,
        },
{
    match parse_json(text) {
        Ok((_, p)) => Ok(p),
        Err(e) => Err(cat2("--params is not valid JSON: ", e.as_str())),
    }
}

/// The capability that a request is for.
pub fn find_capability<'a>(reg: &'a Registry, name: &str) -> (r: Result<&'a Capability, CapError>)
    ensures
        match r {
            Ok(c) => c@.name == name@ && reg@.contains(c@),
            Err(e) => !cap_names(reg@).contains(name@) && e@ == CapErrorView::Unknown(name@),
        },
{
    match reg.get(name) {
        Some(c) => Ok(c),
        None => Err(CapError::Unknown(name.to_owned())),
    }
}

/// The curl arguments of an HTTP connector. The response body goes straight
/// to `out`. `config` is the file that carries the auth header: its path is
/// safe in an argument vector, its contents are not.
pub open spec fn http_argv(
    endpoint: Seq<char>,
    config: Option<Seq<char>>,
    out: Seq<char>,
) -> Seq<Seq<char>> {
    seq![
        "curl"@,
        "-sfS"@,
        "--max-time"@,
        "300"@,
        "-X"@,
        "POST"@,
        "-H"@,
        "content-type: application/json"@,
    ] + (match config {
        Some(c) => seq!["-K"@, c],
        None => Seq::empty(),
    }) + seq!["--data-binary"@, "@-"@, "-o"@, out, endpoint]
}

pub fn http_args(endpoint: &str, config: Option<&str>, out: &str) -> (r: Vec<String>)
    ensures
        crate::text::text_views(r@) == http_argv(
            endpoint@,
            crate::media::str_view(config),
            out@,
        ),
{
    let mut args: Vec<String> = Vec::new();
    assert(crate::text::text_views(args@) =~= Seq::<Seq<char>>::empty());
    let post = [
        "curl",
        "-sfS",
        "--max-time",
        "300",
        "-X",
        "POST",
        "-H",
        "content-type: application/json",
    ];
    push_words(&mut args, post.as_slice());
    match config {
        Some(c) => {
            let file = ["-K", c];
            push_words(&mut args, file.as_slice());
        },
        None => {},
    }
    let body = ["--data-binary", "@-", "-o", out, endpoint];
    push_words(&mut args, body.as_slice());
    assert(crate::text::text_views(args@) =~= http_argv(
        endpoint@,
        crate::media::str_view(config),
        out@,
    ));
    args
}

/// A secret with its quotes and backslashes escaped.
pub open spec fn escaped_secret(s: Seq<char>) -> Seq<char>
    decreases s.len(),
{
    if s.len() == 0 {
        Seq::empty()
    } else if s.last() == '"' || s.last() == '\\' {
        escaped_secret(s.drop_last()).push('\\').push(s.last())
    } else {
        escaped_secret(s.drop_last()).push(s.last())
    }
}

/// The curl config that carries the bearer header.
pub open spec fn config_text(secret: Seq<char>) -> Seq<char> {
    "header = \"authorization: Bearer "@ + escaped_secret(secret) + "\"\n"@
}

/// The `-K` config body. Quotes and backslashes are escaped: an unusual
/// secret cannot break out of the quoted value.
pub fn curl_config(secret: &str) -> (r: String)
    ensures
        r@ == config_text(secret@),
{
    let cs = chars_of(secret);
    let mut out = String::new();
    let mut i: usize = 0;
    assert(out@ =~= escaped_secret(cs@.take(0)));
    while i < cs.len()
        invariant
            i <= cs@.len(),
            out@ == escaped_secret(cs@.take(i as int)),
        decreases cs@.len() - i,
    {
        assert(cs@.take(i + 1).drop_last() =~= cs@.take(i as int));
        if cs[i] == '"' || cs[i] == '\\' {
            out.push('\\');
        }
        out.push(cs[i]);
        i = i + 1;
    }
    assert(cs@.take(cs@.len() as int) =~= cs@);
    cat3("header = \"authorization: Bearer ", out.as_str(), "\"\n")
}

/// What a quoted value reads as from `i` on, up to its closing quote: a
/// backslash stands for the character after it.
pub open spec fn unquoted(s: Seq<char>, i: int) -> Option<Seq<char>>
    decreases s.len() - i,
{
    if i < 0 || i >= s.len() {
        None
    } else if s[i] == '"' {
        Some(Seq::empty())
    } else if s[i] == '\\' {
        if i + 1 >= s.len() {
            None
        } else {
            match unquoted(s, i + 2) {
                Some(rest) => Some(seq![s[i + 1]] + rest),
                None => None,
            }
        }
    } else {
        match unquoted(s, i + 1) {
            Some(rest) => Some(seq![s[i]] + rest),
            None => None,
        }
    }
}

proof fn lemma_escaped_push(a: Seq<char>, b: Seq<char>)
    ensures
        escaped_secret(a + b) == escaped_secret(a) + escaped_secret(b),
    decreases b.len(),
{
    if b.len() == 0 {
        assert(a + b =~= a);
        assert(escaped_secret(a) + escaped_secret(b) =~= escaped_secret(a));
    } else {
        lemma_escaped_push(a, b.drop_last());
        assert((a + b).drop_last() =~= a + b.drop_last());
        assert((a + b).last() == b.last());
        assert(escaped_secret(a + b) =~= escaped_secret(a) + escaped_secret(b));
    }
}

proof fn lemma_unquoted(head: Seq<char>, s: Seq<char>, tail: Seq<char>)
    requires
        tail.len() > 0,
        tail[0] == '"',
    ensures
        unquoted(head + escaped_secret(s) + tail, head.len() as int) == Some(s),
    decreases s.len(),
{
    let text = head + escaped_secret(s) + tail;
    let n = head.len() as int;
    if s.len() == 0 {
        assert(text[n] == '"');
        assert(s =~= Seq::<char>::empty());
    } else {
        let first = s.take(1);
        let rest = s.drop_first();
        assert(s =~= first + rest);
        lemma_escaped_push(first, rest);
        assert(first.drop_last() =~= Seq::<char>::empty());
        assert(escaped_secret(first.drop_last()) =~= Seq::<char>::empty());
        let e = escaped_secret(first);
        lemma_unquoted(head + e, rest, tail);
        assert(text =~= (head + e) + escaped_secret(rest) + tail);
        if s[0] == '"' || s[0] == '\\' {
            assert(e =~= seq!['\\', s[0]]);
            assert(text[n] == '\\' && text[n + 1] == s[0]);
        } else {
            assert(e =~= seq![s[0]]);
            assert(text[n] == s[0]);
        }
        assert(seq![s[0]] + rest =~= s);
    }
}

/// Whatever the secret, the quoted value of the config reads as the header
/// with exactly that secret.
pub proof fn config_holds_the_secret(secret: Seq<char>)
    ensures
        unquoted(config_text(secret), "header = \""@.len() as int) == Some(
            "authorization: Bearer "@ + secret,
        ),
{
    reveal_strlit("header = \"");
    reveal_strlit("header = \"authorization: Bearer ");
    reveal_strlit("authorization: Bearer ");
    reveal_strlit("\"\n");
    let plain = "authorization: Bearer "@;
    lemma_no_escapes(plain);
    lemma_escaped_push(plain, secret);
    lemma_unquoted("header = \""@, plain + secret, "\"\n"@);
    assert("header = \"authorization: Bearer "@ =~= "header = \""@ + plain);
    assert(config_text(secret) =~= "header = \""@ + escaped_secret(plain + secret) + "\"\n"@);
}

proof fn lemma_no_escapes(s: Seq<char>)
    requires
        forall|i: int| 0 <= i < s.len() ==> #[trigger] s[i] != '"' && s[i] != '\\',
    ensures
        escaped_secret(s) == s,
    decreases s.len(),
{
    if s.len() > 0 {
        lemma_no_escapes(s.drop_last());
        assert(s[s.len() - 1] != '"');
        assert(escaped_secret(s) =~= s);
    }
}

// Running a connector.

fn copy_texts(s: &Vec<String>) -> (r: Vec<String>)
    ensures
        crate::text::text_views(r@) == crate::text::text_views(s@),
{
    let mut out: Vec<String> = Vec::new();
    let mut i: usize = 0;
    while i < s.len()
        invariant
            i <= s@.len(),
            out@.len() == i,
            forall|k: int| 0 <= k < i ==> (#[trigger] out@[k])@ == s@[k]@,
        decreases s@.len() - i,
    {
        out.push(s[i].clone());
        i = i + 1;
    }
    assert(crate::text::text_views(out@) =~= crate::text::text_views(s@));
    out
}

/// The argument vector of a connector. No secret goes into it.
pub open spec fn connector_argv(
    c: ConnectorView,
    config: Option<Seq<char>>,
    out: Seq<char>,
) -> Seq<Seq<char>> {
    match c {
        ConnectorView::Subprocess { argv } => argv,
        ConnectorView::Http { endpoint } => http_argv(endpoint, config, out),
    }
}

pub fn connector_args(cap: &Capability, config: Option<&str>, out: &str) -> (r: Vec<String>)
    ensures
        crate::text::text_views(r@) == connector_argv(
            cap@.connector,
            crate::media::str_view(config),
            out@,
        ),
{
    match &cap.connector {
        Connector::Subprocess { argv } => copy_texts(argv),
        Connector::Http { endpoint } => http_args(endpoint.as_str(), config, out),
    }
}

/// The config file that a request needs: an HTTP connector gets its secret
/// that way.
pub fn connector_config(cap: &Capability, secret: &Option<String>) -> (r: Option<String>)
    ensures
        crate::scene::text_view(r) == (match (cap@.connector, crate::scene::text_view(*secret)) {
            (ConnectorView::Http { .. }, Some(s)) => Some(config_text(s)),
            _ => None,
        }),
{
    match (&cap.connector, secret) {
        (Connector::Http { .. }, Some(s)) => Some(curl_config(s.as_str())),
        _ => None,
    }
}

/// The value of `SCENE_CAP_AUTH` for a connector: the variable that the
/// credential names, as it stands now, or else the secret that was resolved
/// for a subprocess.
pub fn connector_env(cap: &Capability, secret: Option<String>, variable: Option<String>) -> (r:
    Option<String>)
    ensures
        crate::scene::text_view(r) == (match (cap@.auth, crate::scene::text_view(variable)) {
            (Some(AuthRefView::Env(_)), Some(v)) => Some(v),
            _ => if cap@.connector is Subprocess {
                crate::scene::text_view(secret)
            } else {
                None
            },
        }),
{
    match (&cap.auth, variable) {
        (Some(AuthRef::Env(_)), Some(v)) => Some(v),
        _ => match &cap.connector {
            Connector::Subprocess { .. } => secret,
            Connector::Http { .. } => None,
        },
    }
}

/// What a connector's run comes to: an asset, or the error. Success needs a
/// run that exited well and a file that is not empty.
pub open spec fn run_outcome(
    cap: Seq<char>,
    run: Result<ProcOutput, MediaError>,
    produced: bool,
    out: Seq<char>,
) -> Result<(), CapErrorView> {
    match run {
        Err(e) => Err(
            match e@ {
                MediaErrorView::Io(m) => CapErrorView::Io(m),
                MediaErrorView::Spawn { tool, source } => CapErrorView::Spawn { tool, source },
                other => CapErrorView::Failed {
                    cap,
                    status: "timeout"@,
                    detail: crate::media::media_message(other),
                },
            },
        ),
        Ok(o) => if !o.status.success {
            Err(
                CapErrorView::Failed {
                    cap,
                    status: o.status.text@,
                    detail: crate::text::trimmed(crate::json::utf8_lossy(o.stderr@)),
                },
            )
        } else if !produced {
            Err(CapErrorView::NoOutput { cap, path: out })
        } else {
            Ok(())
        },
    }
}

/// The outcome of a connector's run.
pub fn run_process(
    cap: &Capability,
    run: Result<ProcOutput, MediaError>,
    produced: bool,
    out: &str,
) -> (r: Result<(), CapError>)
    ensures
        match run_outcome(cap@.name, run, produced, out@) {
            Ok(_) => r is Ok,
            Err(v) => r matches Err(e) && e@ == v,
        },
{
    match run {
        Err(MediaError::Io(m)) => Err(CapError::Io(m)),
        Err(MediaError::Spawn { tool, source }) => Err(CapError::Spawn { tool, source }),
        Err(other) => Err(
            CapError::Failed {
                cap: cap.name.clone(),
                status: "timeout".to_owned(),
                detail: other.message(),
            },
        ),
        Ok(o) => if !o.status.success {
            Err(
                CapError::Failed {
                    cap: cap.name.clone(),
                    status: o.status.text,
                    detail: tail_text(&o.stderr),
                },
            )
        } else if !produced {
            Err(CapError::NoOutput { cap: cap.name.clone(), path: out.to_owned() })
        } else {
            Ok(())
        },
    }
}

// Listing.

pub open spec fn connector_line(c: ConnectorView) -> Seq<char> {
    match c {
        ConnectorView::Subprocess { argv } => "command: "@ + crate::lower::join(argv, " "@),
        ConnectorView::Http { endpoint } => "http: "@ + endpoint,
    }
}

pub open spec fn auth_line(a: Option<AuthRefView>) -> Seq<char> {
    match a {
        Some(AuthRefView::Env(v)) => "auth: env "@ + v,
        Some(AuthRefView::Keychain { service, account }) => "auth: keychain "@ + service + "/"@
            + account,
        None => "auth: none"@,
    }
}

pub open spec fn cap_line(c: CapabilityView) -> Seq<char> {
    c.name + "\t"@ + connector_line(c.connector) + "\t"@ + auth_line(c.auth)
}

pub open spec fn cap_lines(s: Seq<CapabilityView>) -> Seq<Seq<char>> {
    Seq::new(s.len(), |i: int| cap_line(s[i]))
}

fn line_of(c: &Capability) -> (r: String)
    ensures
        r@ == cap_line(c@),
{
    let kind = match &c.connector {
        Connector::Subprocess { argv } => {
            let words = join_names(argv, " ");
            cat2("command: ", words.as_str())
        },
        Connector::Http { endpoint } => cat2("http: ", endpoint.as_str()),
    };
    let auth = match &c.auth {
        Some(AuthRef::Env(v)) => cat2("auth: env ", v.as_str()),
        Some(AuthRef::Keychain { service, account }) => cat4(
            "auth: keychain ",
            service.as_str(),
            "/",
            account.as_str(),
        ),
        None => "auth: none".to_owned(),
    };
    cat5(c.name.as_str(), "\t", kind.as_str(), "\t", auth.as_str())
}

/// One line for each capability, or one that says there is none.
pub fn cap_list(reg: &Registry, config: &str) -> (r: Vec<String>)
    ensures
        crate::text::text_views(r@) == (if reg@.len() == 0 {
            seq!["no capabilities declared in "@ + config@]
        } else {
            cap_lines(reg@)
        }),
{
    let mut out: Vec<String> = Vec::new();
    let mut i: usize = 0;
    while i < reg.caps.len()
        invariant
            i <= reg.caps@.len(),
            out@.len() == i,
            forall|k: int| 0 <= k < i ==> (#[trigger] out@[k])@ == cap_line(reg.caps@[k]@),
        decreases reg.caps@.len() - i,
    {
        out.push(line_of(&reg.caps[i]));
        i = i + 1;
    }
    if out.len() == 0 {
        out.push(cat2("no capabilities declared in ", config));
        assert(crate::text::text_views(out@) =~= seq!["no capabilities declared in "@ + config@]);
    } else {
        assert(crate::text::text_views(out@) =~= cap_lines(reg@));
    }
    out
}

} // verus!
