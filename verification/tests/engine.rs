//! The order of protocols and the collection of results.

use ds::bootstrap::{Bootstrap, RdapBootstrap, ServerMap, WhoisBootstrap};
use ds::cli::BD_ZONE_TLDS;
use ds::engine::{
    finalize, is_bd_zone_tld, Attempt, EngineConfig, HostLimiter, Lookup, Progress, Protocol,
    ResolverChain, ResultSlots, Stage, StubErrResolver, DEFAULT_CONCURRENCY,
    DEFAULT_PER_HOST_LIMIT, DEFAULT_TIMEOUT,
};
use ds::models::{DomainStatus, LookupDetails, LookupResult};
use ds::schedule::{Request, Run};

fn empty_bootstrap() -> Bootstrap {
    Bootstrap {
        rdap: RdapBootstrap {
            description: String::new(),
            publication: String::new(),
            version: String::new(),
            services: vec![],
        },
        whois: WhoisBootstrap {
            description: String::new(),
            version: String::new(),
            servers: ServerMap::new(),
        },
    }
}

fn found(domain: &str, status: DomainStatus, source: &str) -> Attempt {
    Attempt::Found(LookupResult {
        domain: domain.into(),
        status,
        source: source.into(),
        latency_ms: 0,
        details: Some(LookupDetails::default()),
    })
}

fn failed() -> Attempt {
    Attempt::Failed("upstream down".into())
}

fn done(p: Progress) -> LookupResult {
    match p {
        Progress::Done(r) => r,
        Progress::Ask(l) => panic!("still waiting at {:?}", l.stage),
    }
}

fn ask(p: Progress) -> Lookup {
    match p {
        Progress::Ask(l) => l,
        Progress::Done(r) => panic!("ended with {r:?}"),
    }
}

fn pair(name: &str, tld: &str) -> (String, String) {
    (name.to_string(), tld.to_string())
}

/// What a resolver finds that answers every request.
fn answer(r: &Request, status: DomainStatus, source: &str) -> Attempt {
    found(&format!("{}.{}", r.lookup.name, r.lookup.tld), status, source)
}

/// Runs lookups in which the latest request always ends first. Gives the results, and for
/// each request its pair and its protocol.
fn look_up(
    pairs: Vec<(String, String)>,
    config: &EngineConfig,
    resolve: impl Fn(&Request) -> Attempt,
) -> (Vec<LookupResult>, Vec<(usize, Protocol)>) {
    let mut run = Run::new(pairs, config);
    let mut asked = Vec::new();
    let mut in_flight: Vec<Request> = Vec::new();
    loop {
        while let Some(r) = run.poll() {
            asked.push((r.index, r.lookup.stage.protocol()));
            in_flight.push(r);
        }
        match in_flight.pop() {
            Some(r) => run.ended(r.index, resolve(&r), 1),
            None => break,
        }
    }
    assert!(run.is_over());
    (run.into_results(), asked)
}

fn server(r: &LookupResult) -> Option<&str> {
    r.details.as_ref().and_then(|d| d.server.as_deref())
}

#[test]
fn is_bd_zone_tld_matches_bd_and_2ld_bd() {
    assert!(is_bd_zone_tld("bd"));
    assert!(is_bd_zone_tld("BD"));
    assert!(is_bd_zone_tld("com.bd"));
    assert!(is_bd_zone_tld("net.bd"));
    assert!(is_bd_zone_tld("edu.bd"));
    assert!(is_bd_zone_tld("gov.bd"));
    assert!(is_bd_zone_tld("ac.bd"));
    assert!(is_bd_zone_tld("co.bd"));
    assert!(is_bd_zone_tld(" info.bd  "));
    assert!(!is_bd_zone_tld("com"));
    assert!(!is_bd_zone_tld("net"));
    assert!(!is_bd_zone_tld("app"));
    assert!(!is_bd_zone_tld("bds"));
    assert!(!is_bd_zone_tld("xbd"));
    assert!(!is_bd_zone_tld(""));
}

#[test]
fn bd_2ld_routes_to_bd_resolver() {
    // `com.bd` should route to the BD resolver, not the WHOIS resolver.
    let pairs = vec![pair("any", "com.bd")];
    let (out, asked) = look_up(pairs, &EngineConfig::default(), |r| {
        match r.lookup.stage.protocol() {
            Protocol::Rdap => answer(r, DomainStatus::Taken, "rdap"),
            Protocol::Whois => answer(r, DomainStatus::Taken, "whois"),
            Protocol::Bd => answer(r, DomainStatus::Available, "bd"),
        }
    });
    assert_eq!(out[0].domain, "any.com.bd");
    assert_eq!(out[0].source, "bd");
    assert_eq!(out[0].status, DomainStatus::Available);
    assert_eq!(asked, vec![(0, Protocol::Bd)]);
}

#[test]
fn empty_pairs_returns_empty() {
    let (out, asked) = look_up(vec![], &EngineConfig::default(), |_| failed());
    assert!(out.is_empty());
    assert!(asked.is_empty());
    assert!(ResultSlots::new(0).into_results(&[]).is_empty());
}

#[test]
fn results_preserve_input_order() {
    let pairs = vec![pair("a", "com"), pair("b", "com"), pair("c", "com")];
    let resolve = |r: &Request| match r.lookup.stage.protocol() {
        Protocol::Rdap => answer(r, DomainStatus::Taken, "rdap"),
        _ => failed(),
    };
    let (out, asked) = look_up(pairs.clone(), &EngineConfig::default(), resolve);
    assert_eq!(out.len(), 3);
    assert_eq!(out[0].domain, "a.com");
    assert_eq!(out[1].domain, "b.com");
    assert_eq!(out[2].domain, "c.com");
    assert_eq!(
        asked,
        vec![(0, Protocol::Rdap), (1, Protocol::Rdap), (2, Protocol::Rdap)]
    );

    for order in [[0, 1, 2], [0, 2, 1], [1, 0, 2], [1, 2, 0], [2, 0, 1], [2, 1, 0]] {
        let mut run = Run::new(pairs.clone(), &EngineConfig::default());
        let mut requests = Vec::new();
        while let Some(r) = run.poll() {
            requests.push(r);
        }
        for i in order {
            run.ended(requests[i].index, resolve(&requests[i]), 50);
        }
        assert!(run.is_over());
        let domains: Vec<String> = run.into_results().into_iter().map(|r| r.domain).collect();
        assert_eq!(domains, vec!["a.com", "b.com", "c.com"]);
    }
}

#[test]
fn results_are_put_in_their_places() {
    let pairs = vec![pair("a", "com"), pair("b", "com"), pair("c", "com")];
    let mut slots = ResultSlots::new(3);
    for i in [2, 0, 1] {
        let lookup = Lookup::begin(&pairs[i].0, &pairs[i].1, false);
        let domain = format!("{}.com", pairs[i].0);
        slots.put(i, done(lookup.advance(found(&domain, DomainStatus::Taken, "rdap"), 50)));
    }
    let out = slots.into_results(&pairs);
    assert_eq!(out.len(), 3);
    assert_eq!(out[0].domain, "a.com");
    assert_eq!(out[1].domain, "b.com");
    assert_eq!(out[2].domain, "c.com");
}

#[test]
fn rdap_failure_falls_back_to_whois() {
    let pairs = vec![pair("foo", "com")];
    let (out, asked) = look_up(pairs, &EngineConfig::default(), |r| {
        match r.lookup.stage.protocol() {
            Protocol::Whois => answer(r, DomainStatus::Available, "whois"),
            _ => failed(),
        }
    });
    assert_eq!(out[0].status, DomainStatus::Available);
    assert_eq!(out[0].source, "whois");
    assert_eq!(asked, vec![(0, Protocol::Rdap), (0, Protocol::Whois)]);
}

#[test]
fn whois_has_the_latency_of_the_whole_lookup() {
    let lookup = Lookup::begin("foo", "com", false);
    assert_eq!(lookup.stage.protocol(), Protocol::Rdap);
    let lookup = ask(lookup.advance(failed(), 1));
    assert_eq!(lookup.stage, Stage::WhoisFallback);
    assert_eq!(lookup.stage.protocol(), Protocol::Whois);
    let out = done(lookup.advance(found("foo.com", DomainStatus::Available, "whois"), 30));
    assert_eq!(out.status, DomainStatus::Available);
    assert_eq!(out.source, "whois");
    assert_eq!(out.latency_ms, 30);
}

#[test]
fn bd_tld_uses_bd_resolver_first() {
    let pairs = vec![pair("any", "bd")];
    let (out, asked) = look_up(pairs, &EngineConfig::default(), |r| {
        match r.lookup.stage.protocol() {
            Protocol::Bd => answer(r, DomainStatus::Taken, "bd"),
            _ => failed(),
        }
    });
    assert_eq!(out[0].source, "bd");
    assert_eq!(out[0].status, DomainStatus::Taken);
    assert_eq!(asked, vec![(0, Protocol::Bd)]);
}

#[test]
fn the_bd_zone_is_not_forced_to_whois() {
    let lookup = Lookup::begin("any", "bd", true);
    assert_eq!(lookup.stage, Stage::Bd);
    let out = done(lookup.advance(failed(), 1));
    assert_eq!(out.source, "bd");
    assert_eq!(out.status, DomainStatus::Unknown);
}

#[test]
fn force_whois_skips_rdap() {
    let pairs = vec![pair("foo", "com")];
    let config = EngineConfig {
        force_whois: true,
        ..EngineConfig::default()
    };
    let (out, asked) = look_up(pairs, &config, |r| match r.lookup.stage.protocol() {
        Protocol::Rdap => answer(r, DomainStatus::Taken, "rdap"),
        Protocol::Whois => answer(r, DomainStatus::Available, "whois"),
        Protocol::Bd => failed(),
    });
    assert_eq!(out[0].source, "whois");
    assert_eq!(asked, vec![(0, Protocol::Whois)]);
    assert_eq!(Lookup::begin("foo", "com", true).stage, Stage::WhoisOnly);
}

#[test]
fn both_resolvers_fail_returns_unknown() {
    let pairs = vec![pair("foo", "com")];
    let (out, asked) = look_up(pairs, &EngineConfig::default(), |_| failed());
    assert_eq!(out[0].status, DomainStatus::Unknown);
    assert_eq!(server(&out[0]), Some("err: upstream down"));
    assert_eq!(asked, vec![(0, Protocol::Rdap), (0, Protocol::Whois)]);
}

#[test]
fn the_last_error_is_told() {
    let lookup = ask(Lookup::begin("foo", "com", false).advance(Attempt::Failed("first".into()), 1));
    let out = done(lookup.advance(Attempt::Failed("second".into()), 2));
    assert_eq!(out.status, DomainStatus::Unknown);
    assert_eq!(out.domain, "foo.com");
    assert_eq!(out.source, "whois");
    assert_eq!(server(&out), Some("err: second"));
}

#[test]
fn timeout_marks_unknown() {
    let pairs = vec![pair("foo", "com")];
    let config = EngineConfig {
        timeout: 50,
        ..EngineConfig::default()
    };
    let (out, asked) = look_up(pairs, &config, |_| Attempt::TimedOut);
    assert_eq!(out[0].status, DomainStatus::Unknown);
    assert_eq!(server(&out[0]), Some("timeout"));
    assert_eq!(asked, vec![(0, Protocol::Rdap), (0, Protocol::Whois)]);
}

#[test]
fn a_timeout_names_its_source() {
    let lookup = ask(Lookup::begin("foo", "com", false).advance(Attempt::TimedOut, 50));
    let out = done(lookup.advance(Attempt::TimedOut, 100));
    assert_eq!(out.source, "whois");
    assert_eq!(out.latency_ms, 100);
    let out = done(Lookup::begin("foo", "bd", false).advance(Attempt::TimedOut, 5));
    assert_eq!(out.source, "bd");
    assert_eq!(server(&out), Some("timeout"));
    assert_eq!(finalize(Attempt::TimedOut, 0, "a", "foo.com", "b").source, "b");
    assert_eq!(finalize(Attempt::Cancelled, 0, "a", "foo.com", "b").source, "a");
}

#[test]
fn cancellation_ends_a_lookup_at_any_stage() {
    for (tld, force, source) in [("com", false, "rdap"), ("com", true, "whois"), ("bd", false, "bd")] {
        let out = done(Lookup::begin("foo", tld, force).advance(Attempt::Cancelled, 4));
        assert_eq!(out.status, DomainStatus::Unknown);
        assert_eq!(out.source, source);
        assert_eq!(server(&out), Some("err: cancelled"));
    }
}

#[test]
fn results_that_never_came_are_unknown() {
    let pairs = vec![
        ("a".to_string(), "com".to_string()),
        ("b".to_string(), "net".to_string()),
    ];
    let mut slots = ResultSlots::new(2);
    slots.put(0, finalize(failed(), 3, "whois", "a.com", "whois"));
    let out = slots.into_results(&pairs);
    assert_eq!(server(&out[0]), Some("err: upstream down"));
    assert_eq!(out[1].domain, "b.net");
    assert_eq!(out[1].status, DomainStatus::Unknown);
    assert_eq!(out[1].source, "engine");
    assert_eq!(out[1].latency_ms, 0);
    assert_eq!(server(&out[1]), Some("cancelled"));
}

#[test]
fn hosts_are_counted_by_protocol_and_tld() {
    let lookup = Lookup::begin("foo", "com", false);
    assert_eq!(lookup.host().as_deref(), Some("rdap:com"));
    let lookup = ask(lookup.advance(failed(), 0));
    assert_eq!(lookup.host().as_deref(), Some("whois:com"));
    assert_eq!(Lookup::begin("foo", "com", true).host().as_deref(), Some("com"));
    assert!(Lookup::begin("foo", "bd", false).host().is_none());
}

#[test]
fn a_host_has_a_limited_number_of_requests() {
    let mut limiter = HostLimiter::new();
    for _ in 0..DEFAULT_PER_HOST_LIMIT {
        assert!(limiter.try_acquire("com", DEFAULT_PER_HOST_LIMIT));
    }
    assert!(!limiter.try_acquire("com", DEFAULT_PER_HOST_LIMIT));
    assert!(limiter.try_acquire("net", DEFAULT_PER_HOST_LIMIT));
    limiter.release("com");
    assert!(limiter.try_acquire("com", DEFAULT_PER_HOST_LIMIT));
    assert!(!limiter.try_acquire("com", DEFAULT_PER_HOST_LIMIT));
    limiter.release("never");
    assert!(!limiter.try_acquire("org", 0));
}

#[test]
fn every_zone_of_the_bd_group_is_in_the_bd_zone() {
    for tld in BD_ZONE_TLDS {
        assert!(is_bd_zone_tld(tld), "{tld}");
    }
}

#[test]
fn the_configuration_has_defaults() {
    let config = EngineConfig::default();
    assert_eq!(config.concurrent, 20);
    assert_eq!(config.per_host_limit, 4);
    assert_eq!(config.timeout, 10_000);
    assert!(!config.force_whois);
    assert_eq!(DEFAULT_CONCURRENCY, 20);
    assert_eq!(DEFAULT_TIMEOUT, 10_000);
}

#[test]
fn a_chain_has_all_resolvers() {
    let chain = ResolverChain::for_tld(
        empty_bootstrap(),
        "com",
        7,
        Some("http://bd/{domain}".into()),
        None,
    )
    .ok()
    .unwrap();
    assert_eq!(chain.rdap.timeout, 7);
    assert_eq!(chain.whois.timeout, 7);
    assert_eq!(chain.bd.url("a", "bd"), "http://bd/a.bd");
    let err = ResolverChain::for_tld(empty_bootstrap(), "com", 7, None, Some("http://bd/".into()));
    assert!(err.is_err());
    let stub = StubErrResolver;
    assert_eq!(stub.name(), "err");
    let out = done(Lookup::begin("a", "bd", false).advance(stub.lookup("a", "bd"), 0));
    assert_eq!(server(&out), Some("err: resolver unavailable"));
}
