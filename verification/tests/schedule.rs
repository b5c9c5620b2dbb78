//! Many lookups side by side.

use ds::engine::{Attempt, EngineConfig, Protocol, DEFAULT_PER_HOST_LIMIT};
use ds::models::{DomainStatus, LookupResult};
use ds::schedule::{Request, Run};

fn pairs(names: usize, tld: &str) -> Vec<(String, String)> {
    (0..names)
        .map(|i| (format!("n{i}"), tld.to_string()))
        .collect()
}

fn found(r: &Request) -> Attempt {
    Attempt::Found(LookupResult {
        domain: format!("{}.{}", r.lookup.name, r.lookup.tld),
        status: DomainStatus::Taken,
        source: "count".into(),
        latency_ms: 0,
        details: None,
    })
}

fn all_requests(run: &mut Run) -> Vec<Request> {
    let mut out = Vec::new();
    while let Some(r) = run.poll() {
        out.push(r);
    }
    out
}

#[test]
fn concurrency_is_bounded() {
    let limit = 5;
    let config = EngineConfig {
        concurrent: limit,
        ..EngineConfig::default()
    };
    let mut run = Run::new(pairs(50, "com"), &config);
    let mut in_flight: Vec<Request> = Vec::new();
    let mut max = 0;
    loop {
        in_flight.extend(all_requests(&mut run));
        max = max.max(in_flight.len());
        if in_flight.is_empty() {
            break;
        }
        // The latest request ends first.
        let r = in_flight.pop().unwrap();
        run.ended(r.index, found(&r), 20);
    }
    assert!(max <= limit, "max in-flight ({max}) exceeded limit ({limit})");
    assert!(max >= 1, "should have run at least one task concurrently");
    // All of them ask one host.
    assert_eq!(max, DEFAULT_PER_HOST_LIMIT);
    assert!(run.is_over());
    let results = run.into_results();
    assert_eq!(results.len(), 50);
    for (i, r) in results.iter().enumerate() {
        assert_eq!(r.domain, format!("n{i}.com"));
        assert_eq!(r.latency_ms, 20);
    }
}

#[test]
fn a_host_is_asked_by_a_few_lookups_at_once() {
    let mut all = pairs(10, "com");
    all.push(("x".into(), "net".into()));
    all.push(("y".into(), "bd".into()));
    let mut run = Run::new(all, &EngineConfig::default());
    let first = all_requests(&mut run);
    // Four at `com`, one at `net`, one at the provider.
    assert_eq!(first.len(), 6);
    assert_eq!(run.started(), 12);
    assert_eq!(first[4].lookup.tld, "net");
    assert_eq!(first[5].lookup.stage.protocol(), Protocol::Bd);
    run.ended(first[0].index, found(&first[0]), 1);
    let next = all_requests(&mut run);
    assert_eq!(next.len(), 1);
    assert_eq!(next[0].index, 4);
}

#[test]
fn lookups_at_many_hosts_are_bounded_too() {
    let config = EngineConfig {
        concurrent: 5,
        ..EngineConfig::default()
    };
    let all = (0..9).map(|i| ("n".to_string(), format!("t{i}"))).collect();
    let mut run = Run::new(all, &config);
    let first = all_requests(&mut run);
    assert_eq!(first.len(), 5);
    assert_eq!(run.started(), 5);
}

#[test]
fn the_host_limit_is_the_same_for_every_configuration() {
    for per_host_limit in [0, 1, 100] {
        let config = EngineConfig {
            per_host_limit,
            ..EngineConfig::default()
        };
        let mut run = Run::new(pairs(10, "com"), &config);
        assert_eq!(all_requests(&mut run).len(), 4);
    }
    let config = EngineConfig {
        per_host_limit: 0,
        ..EngineConfig::default()
    };
    let mut run = Run::new(vec![("foo".into(), "com".into())], &config);
    let r = run.poll().unwrap();
    run.ended(r.index, found(&r), 1);
    assert!(run.is_over());
    assert_eq!(run.into_results()[0].source, "count");
}

#[test]
fn whois_is_a_request_of_its_own() {
    let mut run = Run::new(pairs(1, "com"), &EngineConfig::default());
    let r = run.poll().unwrap();
    assert_eq!(r.lookup.stage.protocol(), Protocol::Rdap);
    assert!(run.poll().is_none());
    run.ended(r.index, Attempt::Failed("down".into()), 3);
    assert!(!run.is_over());
    let r = run.poll().unwrap();
    assert_eq!(r.index, 0);
    assert_eq!(r.lookup.stage.protocol(), Protocol::Whois);
    run.ended(r.index, Attempt::TimedOut, 9);
    assert!(run.is_over());
    let results = run.into_results();
    assert_eq!(results[0].status, DomainStatus::Unknown);
    assert_eq!(results[0].latency_ms, 9);
}

#[test]
fn lost_requests_leave_their_pairs_unknown() {
    let config = EngineConfig {
        concurrent: 1,
        ..EngineConfig::default()
    };
    let mut run = Run::new(pairs(2, "com"), &config);
    let r = run.poll().unwrap();
    run.lost(r.index);
    let r = run.poll().unwrap();
    assert_eq!(r.index, 1);
    run.ended(r.index, found(&r), 1);
    assert!(run.is_over());
    let results = run.into_results();
    assert_eq!(results[0].domain, "n0.com");
    assert_eq!(results[0].source, "engine");
    assert_eq!(results[1].source, "count");
}

#[test]
fn ends_that_are_not_awaited_change_nothing() {
    let mut run = Run::new(pairs(2, "com"), &EngineConfig::default());
    run.ended(0, Attempt::TimedOut, 1);
    run.lost(7);
    assert_eq!(run.started(), 0);
    let r = run.poll().unwrap();
    run.ended(r.index, found(&r), 1);
    run.ended(r.index, Attempt::Cancelled, 2);
    let r = run.poll().unwrap();
    assert_eq!(r.index, 1);
    run.ended(1, found(&r), 5);
    let results = run.into_results();
    assert_eq!(results[0].latency_ms, 1);
    assert_eq!(results[1].latency_ms, 5);
}

#[test]
fn without_pairs_a_run_is_over() {
    let mut run = Run::new(Vec::new(), &EngineConfig::default());
    assert!(run.poll().is_none());
    assert!(run.is_over());
    assert!(run.into_results().is_empty());
}
