//! The results as text.

use ds::models::{DomainStatus, LookupDetails, LookupResult};
use ds::output::ansi::{paint, should_color, strip_ansi, Colour};
use ds::output::table::{
    format_status, render, render_extra, render_row, summary_line, RenderOptions, Widths,
};

fn result(domain: &str, status: DomainStatus, source: &str) -> LookupResult {
    LookupResult {
        domain: domain.into(),
        status,
        source: source.into(),
        latency_ms: 100,
        details: None,
    }
}

fn plain(results: &[LookupResult], opts: &RenderOptions) -> String {
    strip_ansi(&render(results, opts, true))
}

#[test]
fn render_produces_one_row_per_result() {
    let results = vec![
        result("a.com", DomainStatus::Available, "rdap"),
        result("b.com", DomainStatus::Taken, "rdap"),
        result("c.com", DomainStatus::Unknown, "bd"),
    ];
    let s = plain(&results, &RenderOptions::default());
    assert!(s.contains("a.com"));
    assert!(s.contains("b.com"));
    assert!(s.contains("c.com"));
    assert!(s.contains("rdap"));
    assert!(s.contains("bd"));
    // No header — exactly 3 result rows.
    let body_lines: Vec<&str> = s.lines().filter(|l| !l.is_empty()).collect();
    assert_eq!(body_lines.len(), 3);
}

#[test]
fn render_columns_align_to_widest_cell() {
    let results = vec![
        result("short.com", DomainStatus::Available, "rdap"),
        result("much-longer-domain-name.io", DomainStatus::Taken, "whois"),
    ];
    let s = plain(&results, &RenderOptions::default());
    // Both domains should be in the rendered string.
    assert!(s.contains("short.com"));
    assert!(s.contains("much-longer-domain-name.io"));
    // The short domain should be padded so the status column starts at
    // the same position for every row.
    // marker(2) + max_domain_width(24) - 2 = 24 chars for the prefix.
    // `short.com` is 10 chars, so it needs 14 trailing spaces, then
    // "AVAILABLE" starts. The exact padding length depends on the
    // test fixtures — assert it lines up with the longer row by
    // counting visible chars before the status text.
    let short_line = s
        .lines()
        .find(|l| l.contains("short.com"))
        .expect("short.com line");
    let long_line = s
        .lines()
        .find(|l| l.contains("much-longer-domain-name.io"))
        .expect("long line");
    let short_status_at = short_line.find("AVAILABLE").unwrap();
    let long_status_at = long_line.find("TAKEN").unwrap();
    assert_eq!(
        short_status_at, long_status_at,
        "status columns should start at the same column"
    );
}

#[test]
fn render_uneven_domains_status_columns_align() {
    // Reproduces the user's complaint: mixed-length domains should
    // still put the status column at the same offset.
    let results = vec![
        result("dolkana.bd", DomainStatus::Unknown, "bd"),
        result("dolkana.net", DomainStatus::Available, "rdap"),
        result("dolkana.app", DomainStatus::Available, "rdap"),
    ];
    let s = plain(&results, &RenderOptions::default());
    let status_cols: Vec<usize> = s
        .lines()
        .map(|l| {
            l.find("UNKNOWN")
                .or_else(|| l.find("AVAILABLE"))
                .unwrap_or_else(|| l.find("TAKEN").unwrap())
        })
        .collect();
    assert!(
        status_cols.iter().all(|c| *c == status_cols[0]),
        "all status columns should align at the same offset, got {:?}",
        status_cols
    );
}

#[test]
fn render_with_available_only_filters() {
    let results = vec![
        result("a.com", DomainStatus::Available, "rdap"),
        result("b.com", DomainStatus::Taken, "rdap"),
    ];
    let opts = RenderOptions {
        available_only: true,
        ..Default::default()
    };
    let s = plain(&results, &opts);
    assert!(s.contains("a.com"));
    assert!(!s.contains("b.com"));
}

#[test]
fn render_details_includes_registrar_and_dates() {
    let mut r = result("a.com", DomainStatus::Taken, "rdap");
    r.details = Some(LookupDetails {
        registrar: Some("Mock Registrar".into()),
        creation_date: Some("2020-01-01".into()),
        expiry_date: Some("2030-01-01".into()),
        nameservers: vec!["ns1.example.com".into()],
        server: None,
        registry: None,
    });
    let opts = RenderOptions {
        details: true,
        ..Default::default()
    };
    let s = plain(&[r], &opts);
    assert!(s.contains("Mock Registrar"));
    assert!(s.contains("2020-01-01"));
    assert!(s.contains("2030-01-01"));
    assert!(s.contains("ns1.example.com"));
}

#[test]
fn render_where_includes_server() {
    let mut r = result("a.com", DomainStatus::Taken, "rdap");
    r.details = Some(LookupDetails {
        server: Some("rdap.verisign-grs.com".into()),
        ..Default::default()
    });
    let opts = RenderOptions {
        show_where: true,
        ..Default::default()
    };
    let s = plain(&[r], &opts);
    assert!(s.contains("rdap.verisign-grs.com"));
}

#[test]
fn render_markers_match_status() {
    let results = vec![
        result("a.com", DomainStatus::Available, "rdap"),
        result("b.com", DomainStatus::Taken, "rdap"),
        result("c.com", DomainStatus::Unknown, "bd"),
    ];
    let s = plain(&results, &RenderOptions::default());
    assert!(s.contains("+ a.com"));
    assert!(s.contains("x b.com"));
    assert!(s.contains("? c.com"));
}

#[test]
fn render_emits_no_header_row() {
    let results = vec![result("a.com", DomainStatus::Available, "rdap")];
    let s = plain(&results, &RenderOptions::default());
    // No "Domain"/"Status"/"Source"/"Latency" labels.
    assert!(!s.contains("Domain"));
    assert!(!s.contains("Status"));
    assert!(!s.contains("Source"));
    assert!(!s.contains("Latency"));
}

#[test]
fn render_empty_returns_empty_string() {
    let s = plain(&[], &RenderOptions::default());
    assert_eq!(s, "");
}

#[test]
fn render_available_only_empty_returns_empty_string() {
    let results = vec![result("a.com", DomainStatus::Taken, "rdap")];
    let opts = RenderOptions {
        available_only: true,
        ..Default::default()
    };
    let s = plain(&results, &opts);
    assert_eq!(s, "");
}

#[test]
fn strip_ansi_removes_csi_sequences() {
    let s = "\u{1b}[31mhello\u{1b}[0m world".to_string();
    assert_eq!(strip_ansi(&s), "hello world");
}

#[test]
fn render_with_color_includes_ansi_escapes() {
    let results = vec![result("a.com", DomainStatus::Available, "rdap")];
    let s = render(&results, &RenderOptions::default(), true);
    // Green for available.
    assert!(s.contains("\u{1b}["));
    let plain_s = strip_ansi(&s);
    assert!(plain_s.contains("+ a.com"));
    assert!(plain_s.contains("AVAILABLE"));
}

#[test]
fn rows_have_four_aligned_columns() {
    let mut slow = result("long-name.org", DomainStatus::Taken, "whois");
    slow.latency_ms = 1050;
    let results = [
        result("a.bd", DomainStatus::Unknown, "bd"),
        slow,
        result("b.com", DomainStatus::Available, "rdap"),
    ];
    let text = render(&results, &RenderOptions::default(), false);
    assert_eq!(
        text,
        "? a.bd          UNKNOWN   bd     100ms\n\
         x long-name.org TAKEN     whois 1050ms\n\
         + b.com         AVAILABLE rdap   100ms\n"
    );
    assert_eq!(strip_ansi(&render(&results, &RenderOptions::default(), true)), text);
}

#[test]
fn colours_mark_the_marker_and_the_status() {
    let w = Widths { domain: 5, status: 9, source: 4, latency: 5 };
    let row = render_row(&result("a.com", DomainStatus::Taken, "rdap"), w, true);
    assert_eq!(
        row,
        "\u{1b}[1m\u{1b}[31mx \u{1b}[39m\u{1b}[0ma.com \
         \u{1b}[1m\u{1b}[31mTAKEN\u{1b}[39m\u{1b}[0m     rdap 100ms"
    );
}

#[test]
fn each_colour_has_its_code() {
    assert_eq!(paint("x", Colour::Green), "\u{1b}[1m\u{1b}[32mx\u{1b}[39m\u{1b}[0m");
    assert_eq!(paint("x", Colour::Red), "\u{1b}[1m\u{1b}[31mx\u{1b}[39m\u{1b}[0m");
    assert_eq!(paint("x", Colour::Yellow), "\u{1b}[1m\u{1b}[33mx\u{1b}[39m\u{1b}[0m");
    assert_eq!(paint("x", Colour::Cyan), "\u{1b}[1m\u{1b}[36mx\u{1b}[39m\u{1b}[0m");
    assert_eq!(strip_ansi(&paint("a b", Colour::Cyan)), "a b");
}

#[test]
fn strip_ansi_ends_at_a_letter() {
    assert_eq!(strip_ansi("a\u{1b}[1;31mb"), "ab");
    assert_eq!(strip_ansi("a\u{1b}[12"), "a");
    assert_eq!(strip_ansi("plain é"), "plain é");
    assert_eq!(strip_ansi("\u{1b}Xy"), "y");
}

#[test]
fn more_about_a_domain_follows_its_row() {
    let mut r = result("a.com", DomainStatus::Taken, "rdap");
    r.details = Some(LookupDetails {
        registrar: Some("R".into()),
        creation_date: Some("2020".into()),
        expiry_date: Some("2030".into()),
        nameservers: vec!["ns1".into(), "ns2".into()],
        registry: None,
        server: Some("srv".into()),
    });
    let all = RenderOptions {
        details: true,
        show_where: true,
        show_registry: true,
        available_only: false,
    };
    assert_eq!(
        render(&[r.clone()], &all, false),
        "x a.com TAKEN rdap 100ms\n    registrar : R\n    created   : 2020\n    expires   : 2030\n    \
         nservers  : ns1, ns2\n    via       : srv\n    registry  : srv\n"
    );
    r.details = Some(LookupDetails {
        registry: Some("reg".into()),
        server: Some("srv".into()),
        ..Default::default()
    });
    let registry = RenderOptions {
        show_registry: true,
        ..Default::default()
    };
    assert_eq!(render_extra(&r, &registry), "    registry  : reg");
    assert_eq!(render_extra(&r, &RenderOptions::default()), "");
    r.details = None;
    assert_eq!(render_extra(&r, &all), "");
}

#[test]
fn the_summary_counts_each_status() {
    let results = [
        result("a.com", DomainStatus::Available, "rdap"),
        result("b.com", DomainStatus::Taken, "rdap"),
        result("c.com", DomainStatus::Available, "rdap"),
        result("d.bd", DomainStatus::Unknown, "bd"),
    ];
    let line = "summary: 2 available  1 taken  1 unknown   (4 checked in 1.1s)";
    assert_eq!(summary_line(&results, "1.1", false), line);
    let coloured = summary_line(&results, "1.1", true);
    assert!(coloured.starts_with("\u{1b}[1m\u{1b}[36msummary:"));
    assert_eq!(strip_ansi(&coloured), line);
}

#[test]
fn statuses_have_their_words() {
    assert_eq!(format_status(DomainStatus::Available), "AVAILABLE");
    assert_eq!(format_status(DomainStatus::Taken), "TAKEN");
    assert_eq!(format_status(DomainStatus::Unknown), "UNKNOWN");
}

#[test]
fn colours_follow_the_user_and_the_terminal() {
    assert!(!should_color(true, true, true));
    assert!(should_color(false, true, false));
    assert!(should_color(false, false, true));
    assert!(!should_color(false, false, false));
}
