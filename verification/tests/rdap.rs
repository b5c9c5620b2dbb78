//! RDAP documents and lookups.

use ds::bootstrap::RdapBootstrap;
use ds::json::{parse, Json};
use ds::models::{DomainStatus, LookupResult};
use ds::resolvers::domain_object::{parse_domain_object, vcard_name_field};
use ds::resolvers::rdap::{
    build_url, judge_document, judge_reply, QueryOutcome, RdapError, RdapLookup, RdapProgress,
    RdapReply, RdapResolver,
};

fn bootstrap() -> RdapBootstrap {
    RdapBootstrap {
        description: String::new(),
        publication: String::new(),
        version: String::new(),
        services: vec![vec![
            vec!["example".into()],
            vec!["https://rdap.example/".into()],
        ]],
    }
}

fn text(s: &str) -> Json {
    Json::Text(s.to_string())
}

fn object(entries: Vec<(&str, Json)>) -> Json {
    Json::Object(
        entries
            .into_iter()
            .map(|(k, v)| (k.to_string(), v))
            .collect(),
    )
}

fn vcard(name: &str) -> Json {
    Json::Array(vec![
        text("vcard"),
        Json::Array(vec![Json::Array(vec![
            text("fn"),
            object(vec![]),
            text("text"),
            text(name),
        ])]),
    ])
}

fn event(action: &str, date: &str) -> Json {
    object(vec![("eventAction", text(action)), ("eventDate", text(date))])
}

fn read(s: &str) -> Json {
    parse(s.as_bytes()).expect("a document")
}

fn answered(code: u16, status: &str, body: &str) -> RdapReply {
    RdapReply::Answered {
        code,
        status: status.into(),
        body: body.as_bytes().to_vec(),
    }
}

fn begin(name: &str, tld: &str) -> RdapLookup {
    RdapResolver::new(bootstrap(), 5000)
        .lookup(name, tld)
        .expect("a server")
}

fn done(p: RdapProgress) -> Result<LookupResult, RdapError> {
    match p {
        RdapProgress::Done(r) => r,
        RdapProgress::Ask(l) => panic!("still asking {}", l.url()),
    }
}

#[test]
fn build_url_strips_trailing_slash() {
    let u = build_url("https://rdap.example.com/", "foo", "com").unwrap();
    assert_eq!(u, "https://rdap.example.com/domain/foo.com");
}

#[test]
fn parse_domain_object_picks_up_registrar_and_dates() {
    let body = object(vec![
        ("ldhName", text("example.com")),
        ("status", Json::Array(vec![text("active")])),
        (
            "nameservers",
            Json::Array(vec![
                object(vec![("ldhName", text("ns1.example.com"))]),
                object(vec![("ldhName", text("ns2.example.com"))]),
            ]),
        ),
        (
            "entities",
            Json::Array(vec![object(vec![
                ("handle", text("REG")),
                ("roles", Json::Array(vec![text("registrar")])),
                ("vcardArray", vcard("Example Registrar, Inc.")),
            ])]),
        ),
        (
            "events",
            Json::Array(vec![
                event("registration", "2000-01-01T00:00:00Z"),
                event("expiration", "2030-01-01T00:00:00Z"),
            ]),
        ),
    ]);
    let d = parse_domain_object(&body);
    assert_eq!(d.registrar.as_deref(), Some("Example Registrar, Inc."));
    assert_eq!(d.creation_date.as_deref(), Some("2000-01-01T00:00:00Z"));
    assert_eq!(d.expiry_date.as_deref(), Some("2030-01-01T00:00:00Z"));
    assert_eq!(d.nameservers, vec!["ns1.example.com", "ns2.example.com"]);
}

#[test]
fn parse_domain_object_handles_missing_fields() {
    let body = object(vec![("ldhName", text("example.com"))]);
    let d = parse_domain_object(&body);
    assert!(d.registrar.is_none());
    assert!(d.creation_date.is_none());
    assert!(d.nameservers.is_empty());
}

#[test]
fn vcard_array_formatted_name_extraction() {
    assert_eq!(
        vcard_name_field(&vcard("Registrar LLC")).as_deref(),
        Some("Registrar LLC")
    );
}

#[test]
fn vcard_array_returns_none_when_missing() {
    let vcard = Json::Array(vec![text("vcard"), Json::Array(vec![])]);
    assert!(vcard_name_field(&vcard).is_none());
}

#[test]
fn lookup_returns_available_on_404() {
    let lookup = begin("missing", "example");
    assert_eq!(lookup.url(), "https://rdap.example/domain/missing.example");
    let result = done(lookup.advance(&answered(404, "404 Not Found", ""), 7)).unwrap();
    assert_eq!(result.status, DomainStatus::Available);
    assert_eq!(result.source, "rdap");
    assert_eq!(result.domain, "missing.example");
    assert_eq!(result.latency_ms, 7);
    assert!(result.details.is_none());
}

#[test]
fn lookup_returns_taken_with_details_on_200() {
    let body = r#"{
        "ldhName": "taken.example",
        "entities": [{
            "roles": ["registrar"],
            "vcardArray": ["vcard", [["fn", {}, "text", "Mock Registrar"]]]
        }],
        "events": [
            {"eventAction": "registration", "eventDate": "2010-05-05T00:00:00Z"},
            {"eventAction": "expiration", "eventDate": "2030-05-05T00:00:00Z"}
        ],
        "nameservers": [{"ldhName": "ns1.taken.example"}]
    }"#;
    let result = done(begin("taken", "example").advance(&answered(200, "200 OK", body), 1)).unwrap();
    assert_eq!(result.status, DomainStatus::Taken);
    let d = result.details.expect("details should be present");
    assert_eq!(d.registrar.as_deref(), Some("Mock Registrar"));
    assert_eq!(d.creation_date.as_deref(), Some("2010-05-05T00:00:00Z"));
    assert_eq!(d.expiry_date.as_deref(), Some("2030-05-05T00:00:00Z"));
    assert_eq!(d.nameservers, vec!["ns1.taken.example"]);
    assert_eq!(d.server.as_deref(), Some("https://rdap.example/"));
    assert_eq!(d.registry.as_deref(), Some("https://rdap.example/"));
}

#[test]
fn lookup_returns_available_on_200_with_errorcode_404() {
    let body = r#"{"errorCode": 404, "title": "Not Found"}"#;
    let result = done(begin("missing", "example").advance(&answered(200, "200 OK", body), 1)).unwrap();
    assert_eq!(result.status, DomainStatus::Available);
}

#[test]
fn lookup_errors_when_no_server_for_tld() {
    let mut bs = bootstrap();
    bs.services.clear();
    let r = RdapResolver::new(bs, 5000);
    let err = r.lookup("foo", "zzz").unwrap_err().message();
    assert!(err.contains("no RDAP server"));
    assert_eq!(err, "no RDAP server for TLD .zzz");
    assert_eq!(r.name(), "rdap");
    assert_eq!(r.timeout, 5000);
}

#[test]
fn lookup_returns_err_on_5xx() {
    let reply = answered(503, "503 Service Unavailable", "");
    let err = done(begin("x", "example").advance(&reply, 1)).unwrap_err();
    assert!(matches!(&err, RdapError::Status(_, _)));
    assert_eq!(
        err.message(),
        "RDAP HTTP 503 Service Unavailable for https://rdap.example/domain/x.example"
    );
}

#[test]
fn servers_are_asked_until_one_answers() {
    let mut bs = bootstrap();
    bs.services[0][1] = vec!["http://a//".into(), "http://b".into(), "http://c".into()];
    let r = RdapResolver::new(bs, 1);
    let first = r.lookup("x", "EXAMPLE").unwrap();
    assert_eq!(first.url(), "http://a/domain/x.EXAMPLE");
    let second = match first.advance(&RdapReply::Unreachable, 1) {
        RdapProgress::Ask(l) => l,
        RdapProgress::Done(_) => panic!("more servers are left"),
    };
    assert_eq!(second.url(), "http://b/domain/x.EXAMPLE");
    let result = done(second.clone().advance(&answered(200, "200 OK", "{}"), 3)).unwrap();
    assert_eq!(result.status, DomainStatus::Taken);
    assert_eq!(result.details.unwrap().server.as_deref(), Some("http://b"));
    let third = match second.advance(&answered(200, "200 OK", "no json"), 2) {
        RdapProgress::Ask(l) => l,
        RdapProgress::Done(_) => panic!("one server is left"),
    };
    let err = done(third.advance(&RdapReply::Unreachable, 3)).unwrap_err();
    assert_eq!(err.message(), "RDAP GET http://c/domain/x.EXAMPLE");
}

#[test]
fn replies_that_are_no_json_are_errors() {
    let err = judge_reply("u", &answered(200, "200 OK", "{")).unwrap_err();
    assert!(matches!(&err, RdapError::Decode(u) if u == "u"));
    assert_eq!(err.message(), "decoding RDAP body u");
    assert!(matches!(
        judge_reply("u", &answered(301, "301 Moved", "")),
        Err(RdapError::Status(_, _))
    ));
    assert!(matches!(
        judge_reply("u", &answered(404, "", "{")),
        Ok(QueryOutcome::Available)
    ));
}

#[test]
fn only_the_error_code_404_means_available() {
    for (doc, available) in [
        (r#"{"errorCode":404}"#, true),
        (r#"{"errorCode":404.0}"#, false),
        (r#"{"errorCode":"404"}"#, false),
        (r#"{"errorCode":500}"#, false),
        (r#"[{"errorCode":404}]"#, false),
        ("null", false),
    ] {
        let outcome = judge_document(&read(doc));
        assert_eq!(matches!(outcome, QueryOutcome::Available), available, "{doc}");
    }
}

#[test]
fn the_last_registrar_and_dates_count() {
    let d = parse_domain_object(&read(
        r#"{"entities":[
            {"handle":"A","roles":["registrar"]},
            {"handle":"B","roles":["abuse","registrar"],"vcardArray":["vcard",[["fn",{},"text",["N","M"]]]]},
            {"roles":["registrar"],"vcardArray":null},
            {"handle":"C","roles":["registrant"]}],
          "events":[
            {"eventAction":"creation","eventDate":"1"},
            {"eventAction":"registered","eventDate":"2"},
            {"eventAction":"expiry","eventDate":"3"},
            {"eventAction":"expire"},
            {"eventAction":"last changed","eventDate":"4"}],
          "nameservers":[{"ldhName":"n1"},{},{"ldhName":null},{"ldhName":"n2"}]}"#,
    ));
    assert_eq!(d.registrar.as_deref(), Some("N"));
    assert_eq!(d.creation_date.as_deref(), Some("2"));
    assert!(d.expiry_date.is_none());
    assert_eq!(d.nameservers, vec!["n1", "n2"]);
    assert!(d.server.is_none() && d.registry.is_none());
}

#[test]
fn a_registrar_without_a_vcard_name_has_its_handle() {
    for vcard in [
        "[]",
        "\"x\"",
        "[1,2]",
        r#"["vcard",[["tel",{},"text","1"]]]"#,
        r#"["vcard",["x",["fn",{},"text","N"]]]"#,
        r#"["vcard",[[1],["fn",{},"text","N"]]]"#,
        r#"["vcard",[[],["fn",{},"text","N"]]]"#,
        r#"["vcard",[["fn",{},"text"]]]"#,
        r#"["vcard",[["fn",{},"text",[]]]]"#,
        r#"["vcard",[["fn",{},"text",7]]]"#,
    ] {
        let doc = format!(
            r#"{{"entities":[{{"handle":"H","roles":["registrar"],"vcardArray":{vcard}}}]}}"#
        );
        let d = parse_domain_object(&read(&doc));
        assert_eq!(d.registrar.as_deref(), Some("H"), "{vcard}");
    }
    let later = r#"["vcard",[["fn",{},"text"],["fn",{},"text","N"]]]"#;
    assert_eq!(vcard_name_field(&read(later)).as_deref(), Some("N"));
}

#[test]
fn a_document_of_the_wrong_shape_says_nothing() {
    let good = r#"{"nameservers":[{"ldhName":"n"}]}"#;
    assert_eq!(parse_domain_object(&read(good)).nameservers, vec!["n"]);
    for doc in [
        "null",
        "7",
        r#"{"nameservers":[{"ldhName":"n"}],"status":"active"}"#,
        r#"{"nameservers":[{"ldhName":"n"}],"status":null}"#,
        r#"{"nameservers":[{"ldhName":"n"}],"handle":1}"#,
        r#"{"nameservers":[{"ldhName":"n"}],"ldh_name":[]}"#,
        r#"{"nameservers":[{"ldhName":"n"}],"entities":{}}"#,
        r#"{"nameservers":[{"ldhName":"n"}],"entities":[{"roles":null}]}"#,
        r#"{"nameservers":[{"ldhName":"n"}],"events":[{"eventDate":5}]}"#,
        r#"{"nameservers":[{"ldhName":"n"},"n"]}"#,
    ] {
        let d = parse_domain_object(&read(doc));
        assert!(d.nameservers.is_empty(), "{doc}");
    }
}

#[test]
fn records_may_be_written_as_arrays() {
    let d = parse_domain_object(&read(
        r#"[null,"x",[["H",["registrar"]]],[["n1"],[]],[["creation","1"],["expiry"]]]"#,
    ));
    assert_eq!(d.registrar.as_deref(), Some("H"));
    assert_eq!(d.nameservers, vec!["n1"]);
    assert_eq!(d.creation_date.as_deref(), Some("1"));
    let d = parse_domain_object(&read(r#"[null,null,[],[["n1","more"]]]"#));
    assert!(d.nameservers.is_empty());
    let d = parse_domain_object(&read(r#"[null,null,[],[["n1"]],[],[],7]"#));
    assert!(d.nameservers.is_empty());
}

#[test]
fn documents_become_trees_of_plain_values() {
    let j = read(r#"{"a":[null,true,1,-1,1.5,"té"],"b":{"c":false},"a2":18446744073709551615}"#);
    match j.member("a") {
        Some(Json::Array(items)) => {
            assert!(matches!(items[0], Json::Null));
            assert!(matches!(items[1], Json::Bool(true)));
            assert!(matches!(items[2], Json::Number(Some(1))));
            assert!(matches!(items[3], Json::Number(None)));
            assert!(matches!(items[4], Json::Number(None)));
            assert!(matches!(&items[5], Json::Text(t) if t == "té"));
        }
        other => panic!("{other:?}"),
    }
    assert!(matches!(
        j.member("b").and_then(|b| b.member("c")),
        Some(Json::Bool(false))
    ));
    assert!(matches!(j.member("a2"), Some(Json::Number(Some(u64::MAX)))));
    assert!(j.member("z").is_none());
    assert!(parse(b"").is_none());
    assert!(parse(b"{} x").is_none());
    assert!(matches!(
        read(r#"{"k":1,"k":2}"#).member("k"),
        Some(Json::Number(Some(2)))
    ));
}
