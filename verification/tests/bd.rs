//! Lookups in the `.bd` zone.

use ds::models::DomainStatus;
use ds::resolvers::bd::{
    judge_response, resolve, surface, BdError, BdLookup, BdReply, BdResolver, BdResponse, JsonBdProvider,
    DEFAULT_BD_ENDPOINT,
};

fn sample_domain() -> &'static str {
    "missing.bd"
}

fn blank() -> BdResponse {
    BdResponse {
        available: None,
        status: None,
        message: None,
        raw_response: None,
        source: None,
        registered: None,
        reserved: None,
        success: None,
    }
}

fn provider() -> JsonBdProvider {
    JsonBdProvider::new("http://mock/lookup?domain={domain}".into(), 2000).unwrap()
}

fn ok(response: BdResponse) -> BdReply {
    BdReply::Answered {
        code: 200,
        status: "200 OK".into(),
        response: Some(response),
    }
}

#[test]
fn json_provider_rejects_endpoint_without_placeholder() {
    let r = JsonBdProvider::new("https://example.com/lookup".into(), 1000);
    let err = r.err().expect("expected error");
    assert!(err.message().contains("placeholder"));
    assert_eq!(
        err.message(),
        "endpoint URL must contain {domain} placeholder"
    );
}

#[test]
fn json_provider_parses_available_true() {
    let reply = ok(BdResponse {
        available: Some(true),
        ..blank()
    });
    let p = provider();
    assert_eq!(p.url(sample_domain()), "http://mock/lookup?domain=missing.bd");
    let s = p.lookup(sample_domain(), reply).unwrap();
    assert_eq!(s.status, DomainStatus::Available);
}

#[test]
fn json_provider_parses_available_false() {
    let reply = ok(BdResponse {
        available: Some(false),
        ..blank()
    });
    let s = provider().lookup("taken.bd", reply).unwrap();
    assert_eq!(s.status, DomainStatus::Taken);
}

#[test]
fn json_provider_parses_status_string() {
    let reply = ok(BdResponse {
        status: Some("available".into()),
        ..blank()
    });
    let s = provider().lookup("free.bd", reply).unwrap();
    assert_eq!(s.status, DomainStatus::Available);
}

#[test]
fn json_provider_404_means_available() {
    let reply = BdReply::Answered {
        code: 404,
        status: "404 Not Found".into(),
        response: None,
    };
    let s = provider().lookup("missing.bd", reply).unwrap();
    assert_eq!(s.status, DomainStatus::Available);
    assert!(s.message.is_none() && s.source.is_none() && s.registered.is_none());
}

#[test]
fn json_provider_500_returns_err() {
    let reply = BdReply::Answered {
        code: 500,
        status: "500 Internal Server Error".into(),
        response: None,
    };
    let err = provider().lookup("x.bd", reply).unwrap_err();
    assert!(matches!(&err, BdError::Status(_)));
    assert_eq!(
        err.message(),
        ".bd provider HTTP 500 Internal Server Error"
    );
}

#[test]
fn json_provider_unknown_when_no_recognized_fields() {
    let reply = ok(BdResponse {
        message: Some("we have no opinion".into()),
        ..blank()
    });
    let s = provider().lookup("x.bd", reply).unwrap();
    assert_eq!(s.status, DomainStatus::Unknown);
}

#[test]
fn json_provider_parses_full_limda_response() {
    let reply = ok(BdResponse {
        success: Some(true),
        available: Some(false),
        registered: Some(true),
        reserved: Some(false),
        status: Some("registered".into()),
        message: Some("Domain already registered".into()),
        raw_response: Some("Domain already registered".into()),
        source: Some("btcl".into()),
    });
    let r = provider().lookup("google.com.bd", reply).unwrap();
    assert_eq!(r.status, DomainStatus::Taken);
    assert_eq!(r.source.as_deref(), Some("btcl"));
    assert_eq!(r.message.as_deref(), Some("Domain already registered"));
    assert_eq!(r.raw_response.as_deref(), Some("Domain already registered"));
    assert_eq!(r.registered, Some(true));
    assert_eq!(r.reserved, Some(false));
}

#[test]
fn json_provider_success_false_returns_unknown() {
    let reply = ok(BdResponse {
        success: Some(false),
        message: Some("rate limited".into()),
        ..blank()
    });
    let r = provider().lookup("x.bd", reply).unwrap();
    assert_eq!(r.status, DomainStatus::Unknown);
}

#[test]
fn bd_resolver_uses_provider() {
    let bd = BdLookup {
        status: DomainStatus::Available,
        ..Default::default()
    };
    let result = resolve("test", "any", "bd", Ok(bd), 5).unwrap();
    assert_eq!(result.status, DomainStatus::Available);
    assert_eq!(result.source, "bd");
    assert_eq!(result.domain, "any.bd");
    assert_eq!(result.latency_ms, 5);
    assert_eq!(result.details.unwrap().server.as_deref(), Some("test"));
}

#[test]
fn bd_resolver_surfaces_provider_details() {
    let bd = BdLookup {
        status: DomainStatus::Taken,
        source: Some("btcl".into()),
        message: Some("Domain already registered".into()),
        raw_response: Some("Domain already registered".into()),
        registered: Some(true),
        reserved: Some(false),
    };
    let details = surface("rich", "x", "bd", bd, 0).details.unwrap();
    assert_eq!(details.server.as_deref(), Some("rich"));
    assert!(details.registry.as_deref().unwrap().contains("btcl"));
    let notes = details.nameservers.join(" | ");
    assert!(notes.contains("Domain already registered"));
    assert!(notes.contains("registered: true"));
    assert_eq!(
        details.registry.as_deref(),
        Some("btcl via limda.net (btcl)")
    );
    assert_eq!(
        details.nameservers,
        vec![
            "message: Domain already registered",
            "upstream: Domain already registered",
            "registered: true",
            "reserved: false"
        ]
    );
}

#[test]
fn bd_resolver_propagates_provider_error() {
    let outcome = Err(BdError::Provider("upstream down".into()));
    let err = resolve("err", "x", "bd", outcome, 0).unwrap_err().message();
    assert!(err.contains("upstream down"));
    assert_eq!(err, "upstream down");
}

#[test]
fn an_unreachable_provider_is_an_error() {
    let r = BdResolver::with_provider(provider(), 1000);
    let err = r
        .lookup("x", "bd", BdReply::Unreachable, 0)
        .unwrap_err()
        .message();
    assert_eq!(err, "GET http://mock/lookup?domain=x.bd");
}

#[test]
fn default_endpoint_contains_placeholder() {
    assert!(DEFAULT_BD_ENDPOINT.contains("{domain}"));
}

#[test]
fn default_endpoint_points_at_limda() {
    // Sanity check so we notice if the default URL ever gets changed
    // by accident — this test documents the intended default.
    assert!(DEFAULT_BD_ENDPOINT.starts_with("https://www.limda.net/"));
    assert!(DEFAULT_BD_ENDPOINT.contains("check-domain-availability.php"));
    assert!(DEFAULT_BD_ENDPOINT.contains("?search={domain}"));
}

#[test]
fn unknown_status_string_is_unknown() {
    // Provider that returns a status string we don't recognize.
    let parsed = BdResponse {
        status: Some("pending-verification".into()),
        ..blank()
    };
    assert!(parsed.available.is_none());
    let s = parsed.status.as_deref().unwrap();
    assert!(!s.contains("available"));
    assert!(!s.contains("registered"));
    assert!(!s.contains("free"));
    assert_eq!(judge_response(parsed).status, DomainStatus::Unknown);
}

#[test]
fn words_of_a_status_are_recognized() {
    for (word, status) in [
        ("Is FREE", DomainStatus::Available),
        ("not found", DomainStatus::Available),
        ("Registered", DomainStatus::Taken),
        ("taken", DomainStatus::Taken),
        ("ACTIVE", DomainStatus::Taken),
        ("", DomainStatus::Unknown),
    ] {
        let r = BdResponse {
            status: Some(word.into()),
            ..blank()
        };
        assert_eq!(judge_response(r).status, status, "{word}");
    }
    let r = BdResponse {
        available: Some(false),
        status: Some("available".into()),
        ..blank()
    };
    assert_eq!(judge_response(r).status, DomainStatus::Taken);
}

#[test]
fn replies_without_a_document_are_errors() {
    let reply = BdReply::Answered {
        code: 204,
        status: "204 No Content".into(),
        response: None,
    };
    let err = provider().lookup("x.bd", reply).unwrap_err();
    assert!(matches!(err, BdError::Decode));
    assert_eq!(err.message(), "decoding .bd provider JSON");
    assert_eq!(BdError::NoPlaceholder.message(), "endpoint URL must contain {domain} placeholder");
}

#[test]
fn the_command_line_counts_before_the_environment() {
    let flag = Some("http://flag/{domain}".to_string());
    let env = Some("http://env/{domain}?again={domain}".to_string());
    let r = BdResolver::new(flag, env.clone(), 1).unwrap();
    assert_eq!(r.url("a", "bd"), "http://flag/a.bd");
    let r = BdResolver::new(None, env, 1).unwrap();
    assert_eq!(r.url("a", "com.bd"), "http://env/a.com.bd?again=a.com.bd");
    let r = BdResolver::new(None, None, 1).unwrap();
    assert_eq!(
        r.url("a", "bd"),
        "https://www.limda.net/inc/api/check-domain-availability.php?search=a.bd"
    );
    assert_eq!(r.name(), "bd");
    assert_eq!(r.provider.name(), "limda.net");
    assert_eq!(r.provider.timeout(), 1);
    assert!(BdResolver::new(Some("http://flag/".into()), None, 1).is_err());
}

#[test]
fn a_resolver_answers_with_its_provider() {
    let r = BdResolver::new(None, None, 1).unwrap();
    let reply = ok(BdResponse {
        available: Some(true),
        ..blank()
    });
    let result = r.lookup("a", "bd", reply, 9).unwrap();
    assert_eq!(result.domain, "a.bd");
    assert_eq!(result.status, DomainStatus::Available);
    let d = result.details.unwrap();
    assert_eq!(d.server.as_deref(), Some("limda.net"));
    assert!(d.registry.is_none());
    assert!(d.nameservers.is_empty());
}
