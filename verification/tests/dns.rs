//! DNS messages.

use ds::dns::{
    add_records, build_query, decode_name, ipv4_string, ipv6_string, query_id, records_in,
    resolve_replies, skip_name, AnswerIter, DnsError, DnsRecords, RecordKind, DEFAULT_DNS, QTYPE_A,
    QTYPE_NS,
};
use ds::models::{DomainStatus, LookupDetails, LookupResult};

fn example_response() -> Vec<u8> {
    let mut buf = Vec::new();
    buf.extend_from_slice(&[0x12, 0x34]);
    buf.extend_from_slice(&[0x81, 0x80]);
    buf.extend_from_slice(&[0x00, 0x01]); // qdcount
    buf.extend_from_slice(&[0x00, 0x01]); // ancount
    buf.extend_from_slice(&[0x00, 0x00]);
    buf.extend_from_slice(&[0x00, 0x00]);
    buf.extend_from_slice(&[7]);
    buf.extend_from_slice(b"example");
    buf.extend_from_slice(&[3]);
    buf.extend_from_slice(b"com");
    buf.push(0);
    buf.extend_from_slice(&[0x00, 0x01]);
    buf.extend_from_slice(&[0x00, 0x01]);
    buf.extend_from_slice(&[0xc0, 0x0c]);
    buf.extend_from_slice(&[0x00, 0x01]);
    buf.extend_from_slice(&[0x00, 0x01]);
    buf.extend_from_slice(&[0x00, 0x00, 0x00, 0x3c]);
    buf.extend_from_slice(&[0x00, 0x04]);
    buf.extend_from_slice(&[1, 2, 3, 4]);
    buf
}

/// A response to a query for `example.com` with one answer.
fn response(rtype: u8, rdata: &[u8]) -> Vec<u8> {
    let mut buf = example_response();
    buf.truncate(29 + 2);
    buf.extend_from_slice(&[0, rtype, 0, 1, 0, 0, 0, 60, 0, rdata.len() as u8]);
    buf.extend_from_slice(rdata);
    buf
}

#[test]
fn parse_answers_extracts_a_record() {
    let resp = example_response();
    let mut iter = AnswerIter::new(&resp).unwrap();
    let mut a: Vec<String> = Vec::new();
    while let Some(answer) = iter.next() {
        if answer.rtype == QTYPE_A && answer.rdata.len() == 4 {
            a.push(ipv4_string(answer.rdata));
        }
    }
    assert_eq!(a, vec!["1.2.3.4"]);
    assert_eq!(records_in(&resp, RecordKind::A).unwrap(), vec!["1.2.3.4"]);
}

#[test]
fn iter_skips_questions() {
    let resp = example_response();
    let mut iter = AnswerIter::new(&resp).unwrap();
    let mut count = 0;
    while iter.next().is_some() {
        count += 1;
    }
    assert_eq!(count, 1);
}

#[test]
fn build_query_encodes_labels() {
    let q = build_query("foo.bar", QTYPE_A, 0x1234);
    // 12 header + 3+3+3+0 (labels) + 4 (qtype+qclass) = 25
    assert_eq!(q.len(), 12 + 9 + 4);
    assert_eq!(&q[0..2], &[0x12, 0x34]);
    assert_eq!(q[12], 3);
    assert_eq!(&q[13..16], b"foo");
    assert_eq!(q[16], 3);
    assert_eq!(&q[17..20], b"bar");
    assert_eq!(q[20], 0);
}

#[test]
fn skip_name_advances_past_root_label() {
    let data = [0u8, 1, 2, 3];
    assert_eq!(skip_name(&data, 0).unwrap(), 1);
    let data = [3, b'f', b'o', b'o', 0];
    assert_eq!(skip_name(&data, 0).unwrap(), 5);
}

#[test]
fn a_query_names_its_domain() {
    let q = build_query("foo.bar.", QTYPE_NS, 7);
    assert_eq!(
        q,
        vec![
            0, 7, 1, 0, 0, 1, 0, 0, 0, 0, 0, 0, 3, b'f', b'o', b'o', 3, b'b', b'a', b'r', 0, 0, 2,
            0, 1
        ]
    );
    assert_eq!(decode_name(&q, 12).unwrap(), "foo.bar");
}

#[test]
fn long_labels_are_cut() {
    let label = "x".repeat(70);
    let q = build_query(&label, QTYPE_A, 0);
    assert_eq!(q[12], 63);
    assert_eq!(q.len(), 12 + 64 + 1 + 4);
}

#[test]
fn names_may_point_at_earlier_names() {
    let resp = response(2, &[3, b'n', b's', b'1', 0xc0, 0x0c]);
    assert_eq!(
        records_in(&resp, RecordKind::Ns).unwrap(),
        vec!["ns1.example.com"]
    );
    let resp = response(15, &[0, 10, 4, b'm', b'a', b'i', b'l', 0xc0, 0x0c]);
    assert_eq!(
        records_in(&resp, RecordKind::Mx).unwrap(),
        vec!["mail.example.com"]
    );
}

#[test]
fn broken_names_are_errors() {
    assert!(matches!(decode_name(&[], 0), Err(DnsError::TruncatedName)));
    assert!(matches!(
        decode_name(&[3, b'a'], 0),
        Err(DnsError::TruncatedLabel)
    ));
    assert!(matches!(
        decode_name(&[0xc0], 0),
        Err(DnsError::TruncatedPointer)
    ));
    assert!(matches!(
        decode_name(&[0xc0, 0x00], 0),
        Err(DnsError::PointerLoop)
    ));
    assert!(matches!(skip_name(&[3, b'a'], 5), Err(DnsError::TruncatedName)));
    assert!(matches!(
        records_in(&[0; 11], RecordKind::A),
        Err(DnsError::ShortResponse)
    ));
}

#[test]
fn labels_without_utf8_are_marked() {
    assert_eq!(decode_name(&[1, 0xff, 1, b'a', 0], 0).unwrap(), "?.a");
    assert_eq!(decode_name(&[2, 0xc3, 0x9f, 0], 0).unwrap(), "ß");
}

#[test]
fn addresses_are_written_as_usual() {
    assert_eq!(ipv4_string(&[192, 168, 0, 1]), "192.168.0.1");
    let mut b = [0u8; 16];
    assert_eq!(ipv6_string(&b), "::");
    b[15] = 1;
    assert_eq!(ipv6_string(&b), "::1");
    b[0] = 0x20;
    b[1] = 0x01;
    b[2] = 0x0d;
    b[3] = 0xb8;
    assert_eq!(ipv6_string(&b), "2001:db8::1");
    let b = [0, 1, 0, 2, 0, 3, 0, 4, 0, 5, 0, 6, 0, 7, 0xab, 0xcd];
    assert_eq!(ipv6_string(&b), "1:2:3:4:5:6:7:abcd");
    let b = [0, 1, 0, 0, 0, 0, 0, 4, 0, 0, 0, 0, 0, 0, 0, 8];
    assert_eq!(ipv6_string(&b), "1:0:0:4::8");
    let b = [0, 0, 0, 0, 0, 0, 0, 0, 0, 0, 0xff, 0xff, 10, 0, 0, 1];
    assert_eq!(ipv6_string(&b), "::ffff:10.0.0.1");
    let b = [0, 1, 0, 0, 0, 3, 0, 4, 0, 5, 0, 6, 0, 7, 0, 8];
    assert_eq!(ipv6_string(&b), "1:0:3:4:5:6:7:8");
}

#[test]
fn records_of_another_type_or_size_are_left_out() {
    let resp = response(1, &[1, 2, 3]);
    assert!(records_in(&resp, RecordKind::A).unwrap().is_empty());
    let resp = response(1, &[1, 2, 3, 4]);
    assert!(records_in(&resp, RecordKind::Aaaa).unwrap().is_empty());
}

#[test]
fn failed_queries_leave_their_records_empty() {
    let a = Some(example_response());
    let short = Some(vec![0u8; 3]);
    let records = resolve_replies(&a, &None, &short, &None);
    assert_eq!(records.a, vec!["1.2.3.4"]);
    assert!(records.aaaa.is_empty());
    assert!(records.mx.is_empty());
    assert!(records.ns.is_empty());
}

#[test]
fn records_are_shown_behind_the_nameservers() {
    let records = DnsRecords {
        a: vec!["1.2.3.4".into()],
        aaaa: vec!["::1".into()],
        mx: vec!["mx.a.com".into()],
        ns: vec!["ns.a.com".into()],
    };
    let mut r = LookupResult {
        domain: "a.com".into(),
        status: DomainStatus::Taken,
        source: "rdap".into(),
        latency_ms: 1,
        details: None,
    };
    let with = add_records(r.clone(), &records);
    assert_eq!(
        with.details.unwrap().nameservers,
        vec!["A:1.2.3.4", "AAAA:::1", "MX:mx.a.com", "NS:ns.a.com"]
    );
    r.details = Some(LookupDetails {
        registrar: Some("R".into()),
        nameservers: vec!["first".into()],
        ..Default::default()
    });
    let with = add_records(r.clone(), &records).details.unwrap();
    assert_eq!(with.registrar.as_deref(), Some("R"));
    assert_eq!(with.nameservers.len(), 5);
    assert_eq!(with.nameservers[0], "first");
    r.status = DomainStatus::Available;
    r.details = None;
    assert!(add_records(r, &records).details.is_none());
}

#[test]
fn queries_are_numbered_by_the_process() {
    assert_eq!(query_id(0), 0x42);
    assert_eq!(query_id(0x1_2345), 0x2345 + 0x42);
    assert_eq!(query_id(0xffff), 0x41);
    assert_eq!(DEFAULT_DNS, "1.1.1.1:53");
}
