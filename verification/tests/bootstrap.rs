//! The lists of servers.

use ds::bootstrap::{
    extend_known_tlds, is_fresh, load, merge_rdap, merge_whois, rdap_servers_for, refresh_age,
    whois_server_for, Bootstrap, RdapBootstrap, ServerMap, WhoisBootstrap, BOOTSTRAP_TTL,
};
use ds::cli::TldSet;

fn sample_rdap() -> RdapBootstrap {
    RdapBootstrap {
        description: "base".into(),
        publication: "p1".into(),
        version: "v1".into(),
        services: vec![
            vec![
                vec!["com".into()],
                vec!["https://rdap.verisign.com/".into()],
            ],
            vec![vec!["io".into()], vec!["https://rdap.nic.io/".into()]],
        ],
    }
}

fn rdap(services: Vec<Vec<Vec<String>>>) -> RdapBootstrap {
    RdapBootstrap {
        description: "".into(),
        publication: "".into(),
        version: "".into(),
        services,
    }
}

fn service(tld: &str, urls: &[&str]) -> Vec<Vec<String>> {
    vec![
        vec![tld.to_string()],
        urls.iter().map(|u| u.to_string()).collect(),
    ]
}

fn sample_whois() -> WhoisBootstrap {
    let mut s = WhoisBootstrap {
        description: "".into(),
        version: "".into(),
        servers: ServerMap::new(),
    };
    s.servers
        .insert("com".into(), "whois.verisign-grs.com".into());
    s.servers.insert("io".into(), "whois.nic.io".into());
    s
}

fn empty_whois() -> WhoisBootstrap {
    WhoisBootstrap {
        description: "".into(),
        version: "".into(),
        servers: ServerMap::new(),
    }
}

/// The lists as they are bundled, cut down to a few entries.
fn bundled() -> Bootstrap {
    let mut whois = sample_whois();
    whois
        .servers
        .insert("net".into(), "whois.verisign-grs.com".into());
    Bootstrap {
        rdap: sample_rdap(),
        whois,
    }
}

#[test]
fn merge_whois_user_wins() {
    let base = sample_whois();
    let mut overlay = empty_whois();
    overlay
        .servers
        .insert("com".into(), "whois.custom.com".into());
    overlay
        .servers
        .insert("net".into(), "whois.verisign-grs.com".into());

    let merged = merge_whois(base, overlay);
    assert_eq!(merged.servers.get("com").unwrap(), "whois.custom.com");
    assert_eq!(merged.servers.get("io").unwrap(), "whois.nic.io");
    assert_eq!(merged.servers.get("net").unwrap(), "whois.verisign-grs.com");
}

#[test]
fn merge_whois_lowercases_keys() {
    let base = sample_whois();
    let mut overlay = empty_whois();
    overlay
        .servers
        .insert("COM".into(), "whois.upper.com".into());
    let merged = merge_whois(base, overlay);
    assert_eq!(merged.servers.get("com").unwrap(), "whois.upper.com");
}

#[test]
fn merge_rdap_dedupes_service_urls() {
    let base = sample_rdap();
    let overlay = RdapBootstrap {
        description: "".into(),
        publication: "".into(),
        version: "".into(),
        services: vec![
            vec![
                vec!["com".into()],
                vec!["https://rdap.verisign.com/".into()],
            ],
            vec![vec!["com".into()], vec!["https://rdap.alt.com/".into()]],
            vec![
                vec!["net".into()],
                vec!["https://rdap.verisign.com/".into()],
            ],
        ],
    };
    let merged = merge_rdap(base, overlay);
    let com = rdap_servers_for(&merged, "com");
    assert_eq!(
        com,
        vec!["https://rdap.verisign.com/", "https://rdap.alt.com/"]
    );
    let net = rdap_servers_for(&merged, "net");
    assert_eq!(net, vec!["https://rdap.verisign.com/"]);
}

#[test]
fn rdap_servers_for_unknown_tld_is_empty() {
    let b = sample_rdap();
    assert!(rdap_servers_for(&b, "ZZ").is_empty());
}

#[test]
fn whois_server_for_lookup() {
    let b = sample_whois();
    assert_eq!(whois_server_for(&b, "com"), Some("whois.verisign-grs.com"));
    assert_eq!(whois_server_for(&b, "io"), Some("whois.nic.io"));
    assert_eq!(whois_server_for(&b, "nope"), None);
}

#[test]
fn load_works_with_no_user_data() {
    let b = load(bundled(), None, None, None, None, false);
    assert!(!b.rdap.services.is_empty());
    assert!(b.whois.servers.contains_key("com"));
}

#[test]
fn load_with_user_whois_no_merge_replaces() {
    let mut user = WhoisBootstrap {
        description: "user".into(),
        version: "1".into(),
        servers: ServerMap::new(),
    };
    user.servers
        .insert("example".into(), "whois.example".into());

    let b = load(bundled(), None, None, None, Some(user), true);
    assert_eq!(b.whois.servers.get("example").unwrap(), "whois.example");
    assert!(!b.whois.servers.contains_key("com"));
}

#[test]
fn load_with_user_whois_merge_extends() {
    let mut user = WhoisBootstrap {
        description: "user".into(),
        version: "1".into(),
        servers: ServerMap::new(),
    };
    user.servers
        .insert("example".into(), "whois.example".into());
    user.servers
        .insert("com".into(), "whois.override.com".into());

    let b = load(bundled(), None, None, None, Some(user), false);
    assert_eq!(b.whois.servers.get("example").unwrap(), "whois.example");
    assert_eq!(b.whois.servers.get("com").unwrap(), "whois.override.com");
    // bundled data still present
    assert!(b.whois.servers.contains_key("net"));
}

#[test]
fn load_with_user_rdap_no_merge_replaces() {
    let user = rdap(vec![vec![
        vec!["test".into()],
        vec!["https://rdap.test/".into()],
    ]]);
    let b = load(bundled(), None, None, Some(user), None, true);
    assert_eq!(b.rdap.services.len(), 1);
    assert_eq!(b.rdap.services[0][0][0], "test");
}

#[test]
fn load_with_user_rdap_merge_extends() {
    let user = rdap(vec![vec![
        vec!["test".into()],
        vec!["https://rdap.test/".into()],
    ]]);
    let b = load(bundled(), None, None, Some(user), None, false);
    assert!(b
        .rdap
        .services
        .iter()
        .any(|e| e.first().and_then(|t| t.first()) == Some(&"test".to_string())));
    assert!(b
        .rdap
        .services
        .iter()
        .any(|e| e.first().and_then(|t| t.first()) == Some(&"com".to_string())));
}

#[test]
fn a_cached_list_is_laid_over_the_bundled_one() {
    let mut cached = empty_whois();
    cached.servers.insert("com".into(), "whois.cached".into());
    cached.servers.insert("io".into(), "whois.cached".into());
    let mut user = empty_whois();
    user.servers.insert("IO".into(), "whois.user".into());
    let cached_rdap = rdap(vec![service("io", &["https://cached/"])]);
    let b = load(
        bundled(),
        Some(cached_rdap),
        Some(cached),
        None,
        Some(user),
        false,
    );
    assert_eq!(whois_server_for(&b.whois, "com"), Some("whois.cached"));
    assert_eq!(whois_server_for(&b.whois, "io"), Some("whois.user"));
    assert_eq!(
        whois_server_for(&b.whois, "NET"),
        Some("whois.verisign-grs.com")
    );
    assert_eq!(
        rdap_servers_for(&b.rdap, "IO"),
        vec!["https://rdap.nic.io/", "https://cached/"]
    );
}

#[test]
fn merged_services_stand_in_order() {
    let base = rdap(vec![
        service("org", &["https://o/"]),
        service("com", &["https://c/", "https://c/"]),
        vec![],
        vec![vec![]],
        vec![vec!["net".into()]],
    ]);
    let overlay = rdap(vec![
        service("app", &["https://a/"]),
        service("com", &["https://d/", "https://c/"]),
    ]);
    let merged = merge_rdap(base, overlay);
    let tlds: Vec<&str> = merged.services.iter().map(|s| s[0][0].as_str()).collect();
    assert_eq!(tlds, vec!["app", "com", "net", "org"]);
    assert_eq!(merged.services[1][1], vec!["https://c/", "https://d/"]);
    assert!(merged.services[2][1].is_empty());
}

#[test]
fn urls_of_one_tld_in_several_entries_are_merged() {
    let base = rdap(vec![
        service("com", &["https://a/"]),
        service("com", &["https://b/"]),
    ]);
    assert_eq!(
        rdap_servers_for(&base, "Com"),
        vec!["https://a/", "https://b/"]
    );
    let merged = merge_rdap(base, rdap(vec![service("com", &["https://a/", "https://e/"])]));
    assert_eq!(merged.services.len(), 1);
    assert_eq!(
        rdap_servers_for(&merged, "com"),
        vec!["https://a/", "https://b/", "https://e/"]
    );
}

#[test]
fn a_merge_keeps_what_the_base_says_of_itself() {
    let merged = merge_rdap(sample_rdap(), rdap(vec![]));
    assert_eq!(merged.description, "base");
    assert_eq!(merged.publication, "p1");
    assert_eq!(merged.version, "v1");
    let mut base = empty_whois();
    base.description = "base".into();
    base.version = "7".into();
    let mut overlay = empty_whois();
    overlay.description = "user".into();
    let merged = merge_whois(base, overlay);
    assert_eq!(merged.description, "base");
    assert_eq!(merged.version, "7");
}

#[test]
fn a_server_map_holds_one_host_for_each_key() {
    let mut map = ServerMap::new();
    assert!(map.get("com").is_none());
    map.insert("com".into(), "a".into());
    map.insert("net".into(), "b".into());
    map.insert("com".into(), "c".into());
    assert_eq!(map.get("com").unwrap(), "c");
    assert_eq!(map.get("net").unwrap(), "b");
    assert!(!map.contains_key("COM"));
}

#[test]
fn lists_are_fresh_for_seven_days() {
    assert_eq!(BOOTSTRAP_TTL, 7 * 24 * 60 * 60);
    let day: u128 = 86_400_000_000_000;
    assert_eq!(refresh_age(9 * day, 2 * day), 7 * day);
    assert_eq!(refresh_age(day, 2 * day), 0);
    assert!(is_fresh(0));
    assert!(is_fresh(7 * day - 1));
    assert!(!is_fresh(7 * day));
}

#[test]
fn servers_make_their_tlds_known() {
    let mut b = bundled();
    b.rdap.services.push(service("CO.uk", &["https://u/"]));
    b.rdap.services.push(vec![]);
    b.whois.servers.insert("Museum".into(), "whois.m".into());
    let mut known = TldSet::new();
    known.insert("zz".into());
    extend_known_tlds(&mut known, &b);
    for t in ["zz", "com", "io", "net", "co.uk", "museum"] {
        assert!(known.contains(t), "{t}");
    }
    assert!(!known.contains("CO.uk"));
    assert!(!known.contains("org"));
}
