//! Saved results.

use ds::models::{DomainStatus, LookupDetails, LookupResult};
use ds::output::calendar::days_to_ymd;
use ds::output::export::{timestamped_path, utc_date_time_strings, CsvRow};

fn sample_results() -> Vec<LookupResult> {
    vec![
        LookupResult {
            domain: "a.com".into(),
            status: DomainStatus::Available,
            source: "rdap".into(),
            latency_ms: 100,
            details: None,
        },
        LookupResult {
            domain: "b.com".into(),
            status: DomainStatus::Taken,
            source: "whois".into(),
            latency_ms: 200,
            details: Some(LookupDetails {
                registrar: Some("Big Registrar".into()),
                ..Default::default()
            }),
        },
    ]
}

#[test]
fn timestamped_path_uses_extension() {
    let p = timestamped_path("csv", 1_786_894_200);
    assert!(p.starts_with("ds-results-"));
    assert!(p.ends_with(".csv"));
    assert_eq!(p, "ds-results-2026-08-16-15-30-00.csv");
}

#[test]
fn rows_show_the_results() {
    let results = sample_results();
    let row = CsvRow::from(&results[0]);
    assert_eq!(row.domain, "a.com");
    assert_eq!(row.status, "available");
    assert_eq!(row.source, "rdap");
    assert_eq!(row.latency_ms, 100);
    assert_eq!(row.registrar, "");
    assert_eq!(row.nameservers, "");
    let row = CsvRow::from(&results[1]);
    assert_eq!(row.status, "taken");
    assert_eq!(row.registrar, "Big Registrar");
    let mut r = results[1].clone();
    r.status = DomainStatus::Unknown;
    r.details = Some(LookupDetails {
        registrar: None,
        creation_date: Some("2000".into()),
        expiry_date: Some("2030".into()),
        nameservers: vec!["n1".into(), "n2".into()],
        registry: Some("reg".into()),
        server: Some("srv".into()),
    });
    let row = CsvRow::from(&r);
    assert_eq!(row.status, "unknown");
    assert_eq!(row.creation_date, "2000");
    assert_eq!(row.expiry_date, "2030");
    assert_eq!(row.nameservers, "n1;n2");
    assert_eq!(row.registry, "reg");
    assert_eq!(row.server, "srv");
}

#[test]
fn days_are_counted_from_the_epoch() {
    assert_eq!(days_to_ymd(0), (1970, 1, 1));
    assert_eq!(days_to_ymd(-1), (1969, 12, 31));
    assert_eq!(days_to_ymd(11_016), (2000, 2, 29));
    assert_eq!(days_to_ymd(11_017), (2000, 3, 1));
    assert_eq!(days_to_ymd(-25_509), (1900, 2, 28));
    assert_eq!(days_to_ymd(-25_508), (1900, 3, 1));
    assert_eq!(days_to_ymd(-719_468), (0, 3, 1));
}

#[test]
fn moments_have_a_date_and_a_time() {
    assert_eq!(
        utc_date_time_strings(0),
        ("1970-01-01".to_string(), "00-00-00".to_string())
    );
    assert_eq!(
        utc_date_time_strings(-1),
        ("1969-12-31".to_string(), "23-59-59".to_string())
    );
    assert_eq!(
        utc_date_time_strings(951_826_154),
        ("2000-02-29".to_string(), "12-09-14".to_string())
    );
}
