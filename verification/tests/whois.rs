//! WHOIS answers.

use ds::bootstrap::{ServerMap, WhoisBootstrap};
use ds::models::DomainStatus;
use ds::resolvers::whois::{
    is_available, not_found_patterns_for, query_text, server_address, WhoisResolver,
    GENERIC_NOT_FOUND_PATTERNS, WHOIS_PORT,
};

fn resolver(servers: &[(&str, &str)]) -> WhoisResolver {
    let mut map = ServerMap::new();
    for (tld, host) in servers {
        map.insert(tld.to_string(), host.to_string());
    }
    let bs = WhoisBootstrap {
        description: String::new(),
        version: String::new(),
        servers: map,
    };
    WhoisResolver::new(bs, 1000)
}

#[test]
fn detects_verisign_com_no_match() {
    let body = "   Domain Name: APPLE.COM\r\n   Registrar: EXAMPLE\r\n";
    assert!(!is_available(body, "com"));

    let body = "No match for domain \"NOT-REAL-12345.COM\".\r\n";
    assert!(is_available(body, "com"));
}

#[test]
fn detects_org_not_found() {
    let body = "Domain not found.\r\n";
    assert!(is_available(body, "org"));
}

#[test]
fn detects_io_is_available() {
    let body = "DOMAIN: something.io\nThe domain \"something.io\" is available.\n";
    assert!(is_available(body, "io"));
}

#[test]
fn detects_de_status_free() {
    let body = "status:        free\n";
    assert!(is_available(body, "de"));
}

#[test]
fn detects_co_no_data_found() {
    let body = "No Data Found\n";
    assert!(is_available(body, "co"));
}

#[test]
fn detects_uk_no_matching_record() {
    let body = "No matching record found.\n";
    assert!(is_available(body, "uk"));
}

#[test]
fn detects_jp_no_match() {
    let body = "No match!!\n";
    assert!(is_available(body, "jp"));
}

#[test]
fn detects_fr_no_entries() {
    let body = "No entries found in the AFNIC Database.\n";
    assert!(is_available(body, "fr"));
}

#[test]
fn detects_ca_status_available() {
    let body = "Domain status:         available\n";
    assert!(is_available(body, "ca"));
}

#[test]
fn detects_taken_when_no_pattern_matches() {
    let body = "Domain Name: apple.com\nRegistrar: Example Registrar\nCreated: 1990-01-01\n";
    assert!(!is_available(body, "com"));
}

#[test]
fn unknown_tld_uses_generic_patterns() {
    let body = "No match for this domain.";
    assert!(is_available(body, "zz"));
}

#[test]
fn case_insensitive_matching() {
    let body = "DOMAIN NOT FOUND";
    assert!(is_available(body, "com"));
}

#[test]
fn not_found_patterns_for_returns_per_tld_or_generic() {
    let per_tld = not_found_patterns_for("com");
    assert!(per_tld.contains(&"no match for"));

    let generic = not_found_patterns_for("nope");
    assert_eq!(generic, GENERIC_NOT_FOUND_PATTERNS);
}

#[test]
fn empty_response_is_treated_as_taken() {
    assert!(!is_available("", "com"));
}

#[test]
fn registrar_response_stays_taken() {
    let body = "Domain Name: example.com\nRegistrar: Some Registrar Inc.\nDomain Status: ok\n";
    assert!(!is_available(body, "com"));
}

#[test]
fn lookup_returns_unavailable_server_when_tld_unknown() {
    let r = resolver(&[]);
    let err = r.lookup("foo", "zzz").unwrap_err().message();
    assert!(err.contains("no WHOIS server"));
    assert_eq!(err, "no WHOIS server for TLD .zzz");
}

#[test]
fn lookup_returns_available_when_server_says_not_found() {
    let r = resolver(&[("test", "127.0.0.1")]);
    let lookup = r.lookup("missing", "Test").unwrap();
    assert_eq!(lookup.server(), "127.0.0.1");
    assert_eq!(lookup.domain(), "missing.Test");
    let result = lookup.finish(b"Domain not found.\r\n", 12);
    assert_eq!(result.status, DomainStatus::Available);
    assert_eq!(result.domain, "missing.Test");
    assert_eq!(result.source, "whois");
    assert_eq!(result.latency_ms, 12);
    assert_eq!(result.details.unwrap().server.as_deref(), Some("127.0.0.1"));
}

#[test]
fn lookup_returns_taken_when_server_gives_registrar_info() {
    let resp = "Domain Name: example.test\nRegistrar: Big Registrar Inc.\nDomain Status: ok\n";
    assert!(!is_available(resp, "test"));
    let lookup = resolver(&[("test", "h")]).lookup("taken", "test").unwrap();
    assert_eq!(lookup.judge(resp, 1).status, DomainStatus::Taken);
}

#[test]
fn bytes_that_are_no_text_are_replaced() {
    let r = resolver(&[("test", "h")]);
    let lookup = r.lookup("a", "test").unwrap();
    let result = lookup.clone().finish(b"\xff\xfe No \xc3\x9f match \xff", 0);
    assert_eq!(result.status, DomainStatus::Taken);
    let result = lookup.finish(b"\xff No   match \xff", 0);
    assert_eq!(result.status, DomainStatus::Available);
}

#[test]
fn generic_phrases_count_for_every_tld() {
    for tld in ["com", "de", "UK", "zz"] {
        assert!(is_available("We have no   ENTRY here", tld));
        assert!(!is_available("We have no entries", tld));
    }
}

#[test]
fn patterns_depend_on_the_tld() {
    assert_eq!(
        not_found_patterns_for("CO.uk"),
        vec!["no matching record", "not found"]
    );
    assert_eq!(
        not_found_patterns_for("de"),
        vec!["status: free", "object does not exist", "no match"]
    );
    assert_eq!(not_found_patterns_for("bd"), vec!["no match", "not found"]);
    assert_eq!(not_found_patterns_for("").len(), 32);
}

#[test]
fn servers_are_asked_in_one_line() {
    assert_eq!(query_text("apple.com"), "apple.com\r\n");
    assert_eq!(server_address("whois.nic.io", WHOIS_PORT), "whois.nic.io:43");
    assert_eq!(server_address("h", 65535), "h:65535");
    let r = resolver(&[]);
    assert_eq!(r.name(), "whois");
    assert_eq!(r.timeout, 1000);
}
