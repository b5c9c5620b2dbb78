//! Expansion of the command line.

use ds::cli::{
    expand_inputs, expand_names, expand_tlds, known_tlds, name_files, normalize_name, parse_level,
    read_names_file, split_full_domain, Cli, CliError, TldSet, BD_ZONE_TLDS, POPULAR_TLDS,
};
use ds::models::LookupLevel;

fn args(names: &[&str], tld: Option<&str>, level: Option<&str>) -> Cli {
    Cli {
        names: names.iter().map(|n| n.to_string()).collect(),
        tld: tld.map(|t| t.to_string()),
        details: false,
        whois: false,
        dns_records: false,
        registry: false,
        show_where: false,
        available_only: false,
        save: false,
        level: level.map(|l| l.to_string()),
        concurrent: None,
        timeout: None,
        rdap_json: None,
        whois_json: None,
        no_merge: false,
        bd_endpoint: None,
    }
}

fn tld_set(tlds: &[&str]) -> TldSet {
    let mut set = TldSet::new();
    for t in tlds {
        set.insert(t.to_string());
    }
    set
}

#[test]
fn expand_names_handles_comma_and_space() {
    let raw = vec!["apple,orange".into(), "banana".into()];
    let out = expand_names(&raw, &[]).unwrap();
    assert_eq!(out, vec!["apple", "orange", "banana"]);
}

#[test]
fn expand_names_skips_empty_pieces() {
    let raw = vec![",,apple,,".into()];
    let out = expand_names(&raw, &[]).unwrap();
    assert_eq!(out, vec!["apple"]);
}

#[test]
fn expand_tlds_popular_group() {
    assert_eq!(expand_tlds("popular").unwrap(), POPULAR_TLDS);
}

#[test]
fn expand_tlds_all_group() {
    assert_eq!(expand_tlds("all").unwrap(), POPULAR_TLDS);
}

#[test]
fn expand_tlds_bd_alias_expands_to_bd_zone() {
    // The `bd` shorthand expands to direct `.bd` plus the common
    // second-level `.bd` SLDs.
    let out = expand_tlds("bd").unwrap();
    assert_eq!(out, BD_ZONE_TLDS);
    // All entries must end in `.bd` (or be exactly `bd`).
    for tld in &out {
        assert!(
            *tld == "bd" || tld.ends_with(".bd"),
            "BD_ZONE_TLDS entry {tld} is not a .bd TLD"
        );
    }
}

#[test]
fn expand_tlds_handles_dot_in_tld_name() {
    // TLDs may contain dots — `com.bd` is a single SLD, not `com` + `bd`.
    assert_eq!(expand_tlds("com.bd,net").unwrap(), vec!["com.bd", "net"]);
    assert_eq!(
        expand_tlds("com.bd net.bd org.bd").unwrap(),
        vec!["com.bd", "net.bd", "org.bd"]
    );
}

#[test]
fn expand_tlds_concrete_list() {
    assert_eq!(
        expand_tlds("com,net,org").unwrap(),
        vec!["com", "net", "org"]
    );
}

#[test]
fn expand_tlds_dedupes() {
    let out = expand_tlds("com,net,com,org,net").unwrap();
    assert_eq!(out, vec!["com", "net", "org"]);
}

#[test]
fn expand_tlds_handles_spaces() {
    assert_eq!(
        expand_tlds("com net org").unwrap(),
        vec!["com", "net", "org"]
    );
}

#[test]
fn split_full_domain_basic_tld() {
    let tlds = tld_set(&["com", "net"]);
    assert_eq!(
        split_full_domain("apple.com", &tlds),
        Some(("apple".into(), "com".into()))
    );
    assert_eq!(
        split_full_domain("Saikat.NET", &tlds),
        Some(("Saikat".into(), "net".into()))
    );
}

#[test]
fn split_full_domain_multi_label_tld() {
    // `co.uk` is a multi-label TLD. Without it in the set, `apple.co.uk`
    // would split as (apple.co, uk). With both `uk` and `co.uk` in the
    // set, it should pick the longest match: (apple, co.uk).
    let tlds = tld_set(&["uk", "co.uk"]);
    assert_eq!(
        split_full_domain("apple.co.uk", &tlds),
        Some(("apple".into(), "co.uk".into()))
    );
}

#[test]
fn split_full_domain_bd_zone() {
    let tlds = known_tlds();
    assert_eq!(
        split_full_domain("saikat.com.bd", &tlds),
        Some(("saikat".into(), "com.bd".into()))
    );
    assert_eq!(
        split_full_domain("saikat.bd", &tlds),
        Some(("saikat".into(), "bd".into()))
    );
    assert_eq!(
        split_full_domain("saikat.net.bd", &tlds),
        Some(("saikat".into(), "net.bd".into()))
    );
}

#[test]
fn split_full_domain_unknown_tld_falls_through() {
    // If the trailing label isn't a known TLD we return None — the
    // input is treated as a base name and combined with --tld.
    let tlds = tld_set(&["com"]);
    assert_eq!(split_full_domain("saikat.com.bd", &tlds), None);
    assert_eq!(split_full_domain("saikat.example", &tlds), None);
}

#[test]
fn split_full_domain_no_dot_returns_none() {
    let tlds = tld_set(&["com"]);
    assert_eq!(split_full_domain("apple", &tlds), None);
    assert_eq!(split_full_domain("", &tlds), None);
    assert_eq!(split_full_domain(".com", &tlds), None);
}

#[test]
fn expand_inputs_recognises_full_domain() {
    // `ds apple.com` should NOT get `com` appended again — the input
    // already contains a TLD.
    let cli = args(&["apple.com"], None, None);
    let inputs = expand_inputs(&cli, &known_tlds(), &[]).unwrap();
    assert_eq!(inputs.pairs, vec![("apple".into(), "com".into())]);
}

#[test]
fn expand_inputs_recognises_full_2ld_bd_domain() {
    // `ds saikat.com.bd` (no --tld flag) should split correctly.
    let cli = args(&["saikat.com.bd"], None, None);
    let inputs = expand_inputs(&cli, &known_tlds(), &[]).unwrap();
    assert_eq!(inputs.pairs, vec![("saikat".into(), "com.bd".into())]);
}

#[test]
fn expand_inputs_full_domain_does_not_get_tld_appended() {
    // Regression test for the bug where `ds saikat.com.bd --details`
    // produced `saikat.com.bd.com`. With the fix it produces just
    // (saikat, com.bd) — `com` is not appended because the input
    // already contained a TLD.
    let cli = args(&["saikat.com.bd"], None, None);
    let inputs = expand_inputs(&cli, &known_tlds(), &[]).unwrap();
    // Critical: the result must NOT contain `com.bd.com`.
    for (name, tld) in &inputs.pairs {
        let full = format!("{name}.{tld}");
        assert!(
            !full.ends_with(".com.bd.com"),
            "{full} has the wrong TLD (shouldn't be com.bd.com)"
        );
    }
    assert_eq!(inputs.pairs, vec![("saikat".into(), "com.bd".into())]);
}

#[test]
fn expand_inputs_mixed_full_and_bare_names() {
    // `apple.com` (full domain) and `orange` (base name) together
    // should produce different shapes: apple → (apple, com),
    // orange → (orange, com) from the --tld default.
    let cli = args(&["apple.com", "orange"], None, None);
    let inputs = expand_inputs(&cli, &known_tlds(), &[]).unwrap();
    assert_eq!(
        inputs.pairs,
        vec![
            ("apple".into(), "com".into()),
            ("orange".into(), "com".into()),
        ]
    );
}

#[test]
fn expand_inputs_dedupes_pairs() {
    let cli = args(&["apple,APPLE"], Some("com,com"), None);
    let inputs = expand_inputs(&cli, &known_tlds(), &[]).unwrap();
    assert_eq!(inputs.pairs, vec![("apple".into(), "com".into())]);
}

#[test]
fn expand_inputs_default_level_is_first() {
    let cli = args(&["apple"], Some("com"), None);
    let inputs = expand_inputs(&cli, &known_tlds(), &[]).unwrap();
    assert_eq!(inputs.level, LookupLevel::First);
}

#[test]
fn expand_inputs_parses_second_level() {
    let cli = args(&["apple"], Some("co.uk"), Some("second"));
    let inputs = expand_inputs(&cli, &known_tlds(), &[]).unwrap();
    assert_eq!(inputs.level, LookupLevel::Second);
}

#[test]
fn expand_inputs_defaults_to_com_when_no_tld_flag() {
    let cli = args(&["apple"], None, None);
    let inputs = expand_inputs(&cli, &known_tlds(), &[]).unwrap();
    assert_eq!(inputs.pairs, vec![("apple".into(), "com".into())]);
}

#[test]
fn expand_inputs_rejects_bad_level() {
    let cli = args(&["apple"], Some("com"), Some("third"));
    assert!(expand_inputs(&cli, &known_tlds(), &[]).is_err());
}

#[test]
fn expand_inputs_pairs_intersection() {
    let cli = args(&["apple,banana"], Some("com,net"), None);
    let inputs = expand_inputs(&cli, &known_tlds(), &[]).unwrap();
    assert_eq!(
        inputs.pairs,
        vec![
            ("apple".into(), "com".into()),
            ("apple".into(), "net".into()),
            ("banana".into(), "com".into()),
            ("banana".into(), "net".into()),
        ]
    );
}

#[test]
fn expand_names_loads_from_file() {
    let raw = vec!["@names.txt".to_string()];
    assert_eq!(name_files(&raw), vec!["names.txt"]);
    let content = "# comment\n\napple\norange, banana\n  cherry  \n".to_string();
    let out = expand_names(&raw, &[Some(content)]).unwrap();
    assert_eq!(out, vec!["apple", "orange", "banana", "cherry"]);
}

#[test]
fn expand_names_read_file_skips_comments_and_blanks() {
    let content = Some("# header\n\nfoo\n# mid\nbar\n".to_string());
    let out = read_names_file("n.txt", &content).unwrap();
    assert_eq!(out, vec!["foo", "bar"]);
}

#[test]
fn files_are_expanded_in_the_order_of_their_names() {
    let raw = vec!["a,@one.txt".to_string(), "b".to_string(), "@two.txt,c".to_string()];
    assert_eq!(name_files(&raw), vec!["one.txt", "two.txt"]);
    let files = [Some("x\r\ny\r\n".to_string()), Some("z,,w".to_string())];
    let out = expand_names(&raw, &files).unwrap();
    assert_eq!(out, vec!["a", "x", "y", "b", "z", "w", "c"]);
}

#[test]
fn the_first_unreadable_file_is_the_error() {
    let raw = vec!["@one.txt,@two.txt,@three.txt".to_string()];
    let err = expand_names(&raw, &[Some(String::new()), None, None]).unwrap_err();
    assert!(matches!(&err, CliError::NamesFile(p) if p == "two.txt"));
    assert_eq!(err.message(), "reading names file: two.txt");
    let err = expand_names(&raw, &[]).unwrap_err();
    assert_eq!(err.message(), "reading names file: one.txt");
}

#[test]
fn an_unreadable_file_counts_before_a_bad_level() {
    let cli = args(&["@gone.txt"], None, Some("third"));
    let err = expand_inputs(&cli, &known_tlds(), &[None]).unwrap_err();
    assert_eq!(err.message(), "reading names file: gone.txt");
}

#[test]
fn bad_levels_are_named() {
    let err = parse_level(&Some("third".to_string())).unwrap_err();
    assert!(matches!(&err, CliError::InvalidLevel(l) if l == "third"));
    assert_eq!(err.message(), "invalid --level: third (expected 'first' or 'second')");
    assert_eq!(parse_level(&None).unwrap(), LookupLevel::First);
    assert_eq!(parse_level(&Some("first".to_string())).unwrap(), LookupLevel::First);
    assert_eq!(parse_level(&Some("second".to_string())).unwrap(), LookupLevel::Second);
    assert!(parse_level(&Some("First".to_string())).is_err());
}

#[test]
fn names_are_trimmed_and_lowered() {
    assert_eq!(normalize_name("  ..APPLE "), "apple");
    assert_eq!(normalize_name(" . "), "");
    assert_eq!(normalize_name("\u{3000}Straße\u{a0}"), "straße");
}

#[test]
fn names_without_text_stand_for_no_pair() {
    let cli = args(&[".", "...", "apple"], None, None);
    let inputs = expand_inputs(&cli, &known_tlds(), &[]).unwrap();
    assert_eq!(inputs.pairs, vec![("apple".to_string(), "com".to_string())]);
}

#[test]
fn groups_may_be_mixed_with_domains() {
    let out = expand_tlds("COM, BD  org").unwrap();
    assert_eq!(out.len(), 12);
    assert_eq!(out[0], "com");
    assert_eq!(out[1], "bd");
    assert_eq!(out[11], "org");
    assert!(expand_tlds(" ,, ").unwrap().is_empty());
}

#[test]
fn the_longest_known_ending_is_the_tld() {
    let tlds = tld_set(&["uk", "co.uk", "b.co.uk"]);
    assert_eq!(
        split_full_domain(" .A.B.Co.UK ", &tlds),
        Some(("A".to_string(), "b.co.uk".to_string()))
    );
    assert_eq!(
        split_full_domain("a..uk", &tlds),
        Some(("a.".to_string(), "uk".to_string()))
    );
}

#[test]
fn a_full_domain_ignores_the_list_of_tlds() {
    let cli = args(&["apple.com"], Some("net,org"), None);
    let inputs = expand_inputs(&cli, &known_tlds(), &[]).unwrap();
    assert_eq!(inputs.pairs, vec![("apple".to_string(), "com".to_string())]);
}

#[test]
fn known_tlds_are_the_members_of_the_groups() {
    let known = known_tlds();
    for t in POPULAR_TLDS {
        assert!(known.contains(t));
    }
    for t in BD_ZONE_TLDS {
        assert!(known.contains(t));
    }
    assert!(!known.contains("uk"));
}

#[test]
fn pairs_are_kept_apart_from_look_alikes() {
    let tlds = tld_set(&["c", "b.c"]);
    let cli = args(&["a.b.c", "ab.c", "a"], Some("bc,c"), None);
    let inputs = expand_inputs(&cli, &tlds, &[]).unwrap();
    let pairs: Vec<String> = inputs.pairs.iter().map(|(n, t)| format!("{n}|{t}")).collect();
    assert_eq!(pairs, vec!["a|b.c", "ab|c", "a|bc", "a|c"]);
}

#[test]
fn commas_and_arguments_are_alike() {
    let one = expand_names(&["a, b,,c".to_string()], &[]).unwrap();
    let many = expand_names(&["a".to_string(), " b".to_string(), ",c".to_string()], &[]).unwrap();
    assert_eq!(one, many);
    assert_eq!(expand_tlds("com,net").unwrap(), expand_tlds("com\tnet").unwrap());
}
