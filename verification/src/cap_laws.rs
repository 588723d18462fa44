//! What a registry holds of its sections, and what connectors are run with.

use vstd::prelude::*;

use crate::cap::{AuthRefView, CapErrorView, CapToml, CapabilityView, ConnectorView};
use crate::media::{MediaError, MediaErrorView};
use crate::process::ProcOutput;

verus! {

/// A section declares a connector: a command or an endpoint, not both.
pub open spec fn declares_connector(t: CapToml, c: ConnectorView) -> bool {
    match c {
        ConnectorView::Subprocess { argv } => {
            &&& t.endpoint is None
            &&& t.command matches Some(words) && words@.len() > 0 && argv.len() == words@.len()
                && forall|i: int| 0 <= i < argv.len() ==> #[trigger] argv[i] == words@[i]@
        },
        ConnectorView::Http { endpoint } => {
            &&& t.command is None
            &&& t.endpoint matches Some(e) && e@ == endpoint
        },
    }
}

/// A section declares a credential: a variable, or a service and an account
/// with the first slash between them; or none.
pub open spec fn declares_auth(t: CapToml, a: Option<AuthRefView>) -> bool {
    match a {
        None => t.auth is None,
        Some(AuthRefView::Env(name)) => t.auth matches Some(x) && x.keyring is None && (
        x.env matches Some(v) && v@ == name),
        Some(AuthRefView::Keychain { service, account }) => {
            &&& t.auth matches Some(x) && x.env is None && (x.keyring matches Some(v) && v@
                == service + seq!['/'] + account)
            &&& forall|i: int| 0 <= i < service.len() ==> #[trigger] service[i] != '/'
        },
    }
}

pub open spec fn declares(t: CapToml, c: CapabilityView) -> bool {
    t.name@ == c.name && declares_connector(t, c.connector) && declares_auth(t, c.auth)
}

/// A section that declares nothing.
pub open spec fn is_amiss(t: CapToml) -> bool {
    forall|c: CapabilityView| !#[trigger] declares(t, c)
}

proof fn lemma_slash(sa: Seq<char>, service: Seq<char>, account: Seq<char>)
    requires
        sa == service + seq!['/'] + account,
        forall|i: int| 0 <= i < service.len() ==> #[trigger] service[i] != '/',
    ensures
        crate::text::find_from(sa, '/', 0) == service.len(),
        sa.take(service.len() as int) == service,
        sa.skip(service.len() as int + 1) == account,
        service.len() < sa.len(),
{
    crate::value_laws::lemma_apart(service, '/', account);
}

proof fn lemma_declares(t: CapToml)
    ensures
        crate::cap::capability_of(t) matches Ok(c) ==> declares(t, c),
        crate::cap::capability_of(t) is Err ==> is_amiss(t),
{
    if t.auth is Some && t.auth->0.keyring is Some {
        let sa = t.auth->0.keyring->0@;
        crate::text::lemma_find_from(sa, '/', 0);
        let k = crate::text::find_from(sa, '/', 0);
        if k < sa.len() {
            let service = sa.take(k);
            assert(sa =~= service + seq!['/'] + sa.skip(k + 1));
            assert forall|i: int| 0 <= i < service.len() implies #[trigger] service[i] != '/' by {
                assert(service[i] == sa[i]);
            }
        } else {
            assert forall|service: Seq<char>, account: Seq<char>|
                sa == #[trigger] (service + seq!['/'] + account) implies false by {
                let s = service + seq!['/'] + account;
                assert(s[service.len() as int] == '/');
                assert(sa[service.len() as int] != '/');
            }
        }
    }
    match crate::cap::capability_of(t) {
        Ok(c) => {},
        Err(_) => {
            assert forall|c: CapabilityView| !#[trigger] declares(t, c) by {
                if declares(t, c) {
                    match c.auth {
                        Some(AuthRefView::Keychain { service, account }) => {
                            lemma_slash(t.auth->0.keyring->0@, service, account);
                        },
                        _ => {},
                    }
                }
            }
        },
    }
}

proof fn lemma_placed_keeps(s: Seq<CapabilityView>, c: CapabilityView)
    ensures
        crate::cap::placed(s, c).contains(c),
        forall|x: CapabilityView|
            #[trigger] s.contains(x) && x.name != c.name ==> crate::cap::placed(s, c).contains(x),
        forall|x: CapabilityView|
            #[trigger] crate::cap::placed(s, c).contains(x) ==> x == c || s.contains(x),
    decreases s.len(),
{
    let out = crate::cap::placed(s, c);
    if s.len() == 0 || crate::lower::text_before(s.last().name, c.name) {
        assert(out[s.len() as int] == c);
        assert forall|x: CapabilityView| #[trigger] s.contains(x) && x.name != c.name implies
            out.contains(x) by {
            let i = choose|i: int| 0 <= i < s.len() && s[i] == x;
            assert(out[i] == x);
        }
        assert forall|x: CapabilityView| #[trigger] out.contains(x) implies x == c || s.contains(
            x,
        ) by {
            let i = choose|i: int| 0 <= i < out.len() && out[i] == x;
            if i < s.len() {
                assert(s[i] == x);
            }
        }
    } else if s.last().name == c.name {
        assert(out[s.len() - 1] == c);
        assert forall|x: CapabilityView| #[trigger] s.contains(x) && x.name != c.name implies
            out.contains(x) by {
            let i = choose|i: int| 0 <= i < s.len() && s[i] == x;
            assert(out[i] == x);
        }
        assert forall|x: CapabilityView| #[trigger] out.contains(x) implies x == c || s.contains(
            x,
        ) by {
            let i = choose|i: int| 0 <= i < out.len() && out[i] == x;
            if i < s.len() - 1 {
                assert(s[i] == x);
            }
        }
    } else {
        let rest = s.drop_last();
        let head = crate::cap::placed(rest, c);
        lemma_placed_keeps(rest, c);
        let k = choose|k: int| 0 <= k < head.len() && head[k] == c;
        assert(out[k] == c);
        assert forall|x: CapabilityView| #[trigger] s.contains(x) && x.name != c.name implies
            out.contains(x) by {
            let i = choose|i: int| 0 <= i < s.len() && s[i] == x;
            if i < rest.len() {
                assert(rest[i] == x);
                assert(rest.contains(x));
                let j = choose|j: int| 0 <= j < head.len() && head[j] == x;
                assert(out[j] == x);
            } else {
                assert(out[head.len() as int] == x);
            }
        }
        assert forall|x: CapabilityView| #[trigger] out.contains(x) implies x == c || s.contains(
            x,
        ) by {
            let i = choose|i: int| 0 <= i < out.len() && out[i] == x;
            if i < head.len() {
                assert(head[i] == x);
                assert(head.contains(x));
                if x != c {
                    let j = choose|j: int| 0 <= j < rest.len() && rest[j] == x;
                    assert(s[j] == x);
                }
            } else {
                assert(s[s.len() - 1] == x);
            }
        }
    }
}

/// No later section has the name of section `i`.
pub open spec fn stands_last(doc: Seq<CapToml>, n: int, i: int) -> bool {
    0 <= i < n && forall|j: int| i < j < n ==> (#[trigger] doc[j]).name@ != doc[i].name@
}

/// A registry holds a capability for each section, the last where some have
/// one name, as that section declares it, and nothing else; it is refused
/// where a section declares none, and only there.
pub proof fn registries_hold_the_sections(doc: Seq<CapToml>, n: int)
    requires
        0 <= n <= doc.len(),
    ensures
        match crate::cap::registered(doc, n) {
            Ok(s) => {
                &&& forall|i: int|
                    #[trigger] stands_last(doc, n, i) ==> exists|c: CapabilityView|
                        #[trigger] declares(doc[i], c) && s.contains(c)
                &&& forall|c: CapabilityView|
                    #[trigger] s.contains(c) ==> exists|i: int|
                        0 <= i < n && declares(#[trigger] doc[i], c)
                &&& forall|i: int| 0 <= i < n ==> !is_amiss(#[trigger] doc[i])
            },
            Err(_) => exists|i: int| 0 <= i < n && is_amiss(#[trigger] doc[i]),
        },
    decreases n,
{
    if n > 0 {
        registries_hold_the_sections(doc, n - 1);
        let t = doc[n - 1];
        lemma_declares(t);
        match crate::cap::registered(doc, n - 1) {
            Err(_) => {
                let i = choose|i: int| 0 <= i < n - 1 && is_amiss(#[trigger] doc[i]);
                assert(is_amiss(doc[i]));
            },
            Ok(before) => match crate::cap::capability_of(t) {
                Err(_) => {
                    assert(is_amiss(doc[n - 1]));
                },
                Ok(added) => {
                    lemma_placed_keeps(before, added);
                    let s = crate::cap::placed(before, added);
                    assert(declares(t, added));
                    assert forall|i: int| #[trigger] stands_last(doc, n, i) implies exists|
                        c: CapabilityView,
                    |
                        #[trigger] declares(doc[i], c) && s.contains(c) by {
                        if i == n - 1 {
                            assert(declares(doc[i], added) && s.contains(added));
                        } else {
                            assert(stands_last(doc, n - 1, i));
                            let c = choose|c: CapabilityView|
                                #[trigger] declares(doc[i], c) && before.contains(c);
                            assert(doc[n - 1].name@ != doc[i].name@);
                            assert(before.contains(c) && c.name != added.name);
                            assert(declares(doc[i], c) && s.contains(c));
                        }
                    }
                    assert forall|c: CapabilityView| #[trigger] s.contains(c) implies exists|
                        i: int,
                    |
                        0 <= i < n && declares(#[trigger] doc[i], c) by {
                        if c == added {
                            assert(declares(doc[n - 1], c));
                        } else {
                            assert(before.contains(c));
                            let i = choose|i: int|
                                0 <= i < n - 1 && declares(#[trigger] doc[i], c);
                            assert(declares(doc[i], c));
                        }
                    }
                },
            },
        }
    }
}

/// An HTTP connector posts the request to its endpoint, with the config file
/// it is given, and has the answer written to the file asked for.
pub proof fn requests_are_posted(endpoint: Seq<char>, config: Option<Seq<char>>, out: Seq<char>)
    ensures
        ({
            let args = crate::cap::http_argv(endpoint, config, out);
            let n = args.len() as int;
            &&& args[0] == "curl"@
            &&& crate::media_laws::gives(args, 1, n, "-X"@, "POST"@)
            &&& crate::media_laws::gives(args, 1, n, "--max-time"@, "300"@)
            &&& crate::media_laws::gives(args, 1, n, "-H"@, "content-type: application/json"@)
            &&& crate::media_laws::gives(args, 1, n, "--data-binary"@, "@-"@)
            &&& crate::media_laws::gives(args, 1, n - 1, "-o"@, out)
            &&& args.last() == endpoint
            &&& config matches Some(c) ==> crate::media_laws::gives(args, 1, n, "-K"@, c)
            &&& n == if config is Some {
                15int
            } else {
                13int
            }
        }),
{
    let args = crate::cap::http_argv(endpoint, config, out);
    let n = args.len() as int;
    crate::media_laws::lemma_gives(args, 1, n, 2);
    crate::media_laws::lemma_gives(args, 1, n, 4);
    crate::media_laws::lemma_gives(args, 1, n, 6);
    if config is Some {
        crate::media_laws::lemma_gives(args, 1, n, 8);
    }
    crate::media_laws::lemma_gives(args, 1, n, n - 5);
    crate::media_laws::lemma_gives(args, 1, n - 1, n - 3);
}

/// The keychain is asked for the service and the account, each by its name.
pub proof fn keychains_are_asked_by_name(service: Seq<char>, account: Seq<char>)
    ensures
        crate::media_laws::gives(
            crate::cap::keychain_argv(true, service, account),
            1,
            6,
            "-s"@,
            service,
        ),
        crate::media_laws::gives(
            crate::cap::keychain_argv(true, service, account),
            1,
            6,
            "-a"@,
            account,
        ),
        crate::media_laws::gives(
            crate::cap::keychain_argv(false, service, account),
            1,
            5,
            "service"@,
            service,
        ),
        crate::media_laws::gives(
            crate::cap::keychain_argv(false, service, account),
            1,
            5,
            "account"@,
            account,
        ),
{
    let mac = crate::cap::keychain_argv(true, service, account);
    let other = crate::cap::keychain_argv(false, service, account);
    crate::media_laws::lemma_gives(mac, 1, 6, 1);
    crate::media_laws::lemma_gives(mac, 1, 6, 3);
    crate::media_laws::lemma_gives(other, 1, 5, 1);
    crate::media_laws::lemma_gives(other, 1, 5, 3);
}

/// A request succeeds exactly where its connector ran, exited well and left a
/// file; a connector that fails says with what status.
pub proof fn requests_need_an_asset(
    cap: Seq<char>,
    run: Result<ProcOutput, MediaError>,
    produced: bool,
    out: Seq<char>,
)
    ensures
        ({
            let r = crate::cap::run_outcome(cap, run, produced, out);
            &&& r is Ok <==> run is Ok && run->Ok_0.status.success && produced
            &&& run is Ok && !run->Ok_0.status.success ==> (r matches Err(
                CapErrorView::Failed { cap: c, status, .. },
            ) && c == cap && status == run->Ok_0.status.text@)
            &&& run is Ok && run->Ok_0.status.success && !produced ==> r == Err::<
                (),
                CapErrorView,
            >(CapErrorView::NoOutput { cap, path: out })
            &&& run matches Err(MediaError::Spawn { tool, source }) ==> r == Err::<
                (),
                CapErrorView,
            >(CapErrorView::Spawn { tool: tool@, source: source@ })
        }),
{
}

} // verus!
