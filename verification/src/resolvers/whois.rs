//! Lookups over WHOIS.
//!
//! A server is sent the name of the domain and answers in free text. Whether the
//! domain is available is told by the phrases in the answer: each registry has its
//! own for a domain that it does not know.

use vstd::prelude::*;
use vstd::utf8::{decode_utf8, valid_utf8};

use crate::bootstrap::{whois_server_for, WhoisBootstrap};
use crate::models::{
    domain_of, full_name, DetailsView, DomainStatus, LookupDetails, LookupResult, ResultView,
};
use crate::text::{
    chars_of, collapse, collapse_of, contains, contains_text, decimal, decimal_of, join,
    law_contains_is_transitive, literals, lower, lower_of, lower_text, non_empty, occurs_at,
    same_text, split, string_of, CharSet,
};

verus! {

/// The port of WHOIS servers.
pub const WHOIS_PORT: u16 = 43;

// ---------- phrases ----------

/// The phrases that registries use for a domain that they do not know, in lower
/// case.
pub const GENERIC_NOT_FOUND_PATTERNS: [&'static str; 32] = [
    "no match",
    "not found",
    "no data found",
    "no entries found",
    "no object found",
    "object does not exist",
    "object not found",
    "domain not found",
    "domain name not found",
    "no such domain",
    "is available",
    "is free",
    "is not registered",
    "is not been registered",
    "is not currently registered",
    "has not been registered",
    "no matching record",
    "no matching domain",
    "nothing found",
    "status: available",
    "status: free",
    "no match for domain",
    "no matching record found",
    "no matching entry",
    "no record found",
    "no results found",
    "no registration data",
    "no found",
    "we have no entry",
    "no information about",
    "domain status: available",
    "domain name not known",
];

/// The phrases of the registry of a top-level domain. Registries without phrases of
/// their own have the generic ones.
pub open spec fn patterns_for(tld: Seq<char>) -> Seq<Seq<char>> {
    let t = lower(tld);
    if t == "com"@ || t == "net"@ {
        seq!["no match for"@, "no match for domain"@, "not found"@]
    } else if t == "org"@ {
        seq!["not found"@, "no matching record"@, "domain not found"@]
    } else if t == "io"@ {
        seq!["is available"@, "not found"@, "no match"@]
    } else if t == "co"@ {
        seq!["no data found"@, "not found"@, "no match"@]
    } else if t == "ai"@ {
        seq!["no object found"@, "not found"@]
    } else if t == "uk"@ || t == "co.uk"@ {
        seq!["no matching record"@, "not found"@]
    } else if t == "de"@ {
        seq!["status: free"@, "object does not exist"@, "no match"@]
    } else if t == "fr"@ {
        seq!["no entries found"@, "not found"@]
    } else if t == "jp"@ {
        seq!["no match"@, "no matching record"@, "not found"@]
    } else if t == "ru"@ {
        seq!["no entries found"@, "not found"@]
    } else if t == "br"@ {
        seq!["no match"@, "not found"@, "no object found"@]
    } else if t == "in"@ {
        seq!["no data found"@, "not found"@, "no matching record"@]
    } else if t == "au"@ {
        seq!["no data found"@, "not found"@]
    } else if t == "ca"@ {
        seq!["domain status: available"@, "not found"@]
    } else if t == "tv"@ {
        seq!["no match for"@, "no data found"@]
    } else if t == "biz"@ {
        seq!["not found"@, "no matching record"@]
    } else if t == "info"@ {
        seq!["not found"@, "no matching record"@]
    } else if t == "bd"@ {
        seq!["no match"@, "not found"@]
    } else {
        literals(GENERIC_NOT_FOUND_PATTERNS@)
    }
}

/// A list of two phrases.
fn two(a: &'static str, b: &'static str) -> (r: Vec<&'static str>)
    ensures
        literals(r@) == seq![a@, b@],
{
    let mut v: Vec<&'static str> = Vec::new();
    v.push(a);
    v.push(b);
    proof {
        assert(literals(v@) =~= seq![a@, b@]);
    }
    v
}

/// A list of three phrases.
fn three(a: &'static str, b: &'static str, c: &'static str) -> (r: Vec<&'static str>)
    ensures
        literals(r@) == seq![a@, b@, c@],
{
    let mut v: Vec<&'static str> = Vec::new();
    v.push(a);
    v.push(b);
    v.push(c);
    proof {
        assert(literals(v@) =~= seq![a@, b@, c@]);
    }
    v
}

/// The generic phrases, as a list.
fn generic() -> (r: Vec<&'static str>)
    ensures
        r@ == GENERIC_NOT_FOUND_PATTERNS@,
{
    let mut v: Vec<&'static str> = Vec::new();
    let mut i: usize = 0;
    while i < GENERIC_NOT_FOUND_PATTERNS.len()
        invariant
            i <= GENERIC_NOT_FOUND_PATTERNS@.len(),
            v@ == GENERIC_NOT_FOUND_PATTERNS@.take(i as int),
        decreases GENERIC_NOT_FOUND_PATTERNS@.len() - i,
    {
        v.push(GENERIC_NOT_FOUND_PATTERNS[i]);
        i += 1;
    }
    proof {
        assert(GENERIC_NOT_FOUND_PATTERNS@.take(i as int) =~= GENERIC_NOT_FOUND_PATTERNS@);
    }
    v
}

/// The phrases of the registry of a top-level domain.
pub fn not_found_patterns_for(tld: &str) -> (r: Vec<&'static str>)
    ensures
        literals(r@) == patterns_for(tld@),
{
    let small = lower_text(tld);
    let t = small.as_str();
    if same_text(t, "com") || same_text(t, "net") {
        three("no match for", "no match for domain", "not found")
    } else if same_text(t, "org") {
        three("not found", "no matching record", "domain not found")
    } else if same_text(t, "io") {
        three("is available", "not found", "no match")
    } else if same_text(t, "co") {
        three("no data found", "not found", "no match")
    } else if same_text(t, "ai") {
        two("no object found", "not found")
    } else if same_text(t, "uk") || same_text(t, "co.uk") {
        two("no matching record", "not found")
    } else if same_text(t, "de") {
        three("status: free", "object does not exist", "no match")
    } else if same_text(t, "fr") {
        two("no entries found", "not found")
    } else if same_text(t, "jp") {
        three("no match", "no matching record", "not found")
    } else if same_text(t, "ru") {
        two("no entries found", "not found")
    } else if same_text(t, "br") {
        three("no match", "not found", "no object found")
    } else if same_text(t, "in") {
        three("no data found", "not found", "no matching record")
    } else if same_text(t, "au") {
        two("no data found", "not found")
    } else if same_text(t, "ca") {
        two("domain status: available", "not found")
    } else if same_text(t, "tv") {
        two("no match for", "no data found")
    } else if same_text(t, "biz") {
        two("not found", "no matching record")
    } else if same_text(t, "info") {
        two("not found", "no matching record")
    } else if same_text(t, "bd") {
        two("no match", "not found")
    } else {
        generic()
    }
}

/// Whether one of the patterns stands in the text.
pub open spec fn mentions(text: Seq<char>, patterns: Seq<Seq<char>>) -> bool {
    exists|i: int|
        0 <= i < patterns.len() && contains(text, #[trigger] patterns[i])
}

/// The form of an answer in which phrases are looked for: in lower case, with single
/// blanks between the words.
pub open spec fn plain(response: Seq<char>) -> Seq<char> {
    collapse(lower(response))
}

/// Whether an answer means that the domain is available: it has a phrase of the
/// registry, or one of the generic phrases.
pub open spec fn means_available(response: Seq<char>, tld: Seq<char>) -> bool {
    ||| mentions(plain(response), patterns_for(tld))
    ||| mentions(plain(response), literals(GENERIC_NOT_FOUND_PATTERNS@))
}

/// Whether one of the patterns stands in the text.
fn mentions_one(text: &[char], patterns: &[&'static str]) -> (r: bool)
    ensures
        r == mentions(text@, literals(patterns@)),
{
    let ghost all = literals(patterns@);
    let mut i: usize = 0;
    while i < patterns.len()
        invariant
            i <= patterns@.len(),
            all == literals(patterns@),
            forall|k: int| 0 <= k < i ==> !contains(text@, #[trigger] all[k]),
        decreases patterns@.len() - i,
    {
        if contains_text(text, patterns[i]) {
            proof {
                assert(contains(text@, all[i as int]));
            }
            return true;
        }
        i += 1;
    }
    false
}

/// Whether an answer means that the domain is available. An answer without a known
/// phrase counts as that of a registered domain.
pub fn is_available(response: &str, tld: &str) -> (r: bool)
    ensures
        r == means_available(response@, tld@),
{
    let text = collapse_of(&lower_of(&chars_of(response)));
    mentions_one(&text, &not_found_patterns_for(tld)) || mentions_one(
        &text,
        &GENERIC_NOT_FOUND_PATTERNS,
    )
}

// ---------- lookups ----------

/// Why a WHOIS lookup cannot begin.
#[derive(Debug, Clone)]
pub enum WhoisError {
    /// No server is known for this top-level domain.
    NoServer(String),
}

impl WhoisError {
    /// The top-level domain without a server.
    pub open spec fn tld(self) -> Seq<char> {
        match self {
            WhoisError::NoServer(tld) => tld@,
        }
    }

    /// The text that tells what went wrong.
    pub fn message(&self) -> (r: String)
        ensures
            r@ == "no WHOIS server for TLD ."@ + self.tld(),
    {
        match self {
            WhoisError::NoServer(tld) => {
                let mut s = "no WHOIS server for TLD .".to_owned();
                s.append(tld.as_str());
                s
            },
        }
    }
}

/// Asks the WHOIS server of a domain's registry.
pub struct WhoisResolver {
    pub bootstrap: WhoisBootstrap,
    /// The time that each step of a lookup may take, in milliseconds.
    pub timeout: u64,
}

/// A lookup that waits for the answer of its server.
#[derive(Debug, Clone)]
pub struct WhoisLookup {
    name: String,
    tld: String,
    server: String,
}

/// The view of [`WhoisLookup`].
#[verifier::ext_equal]
pub struct WhoisLookupView {
    pub name: Seq<char>,
    pub tld: Seq<char>,
    pub server: Seq<char>,
}

impl View for WhoisLookup {
    type V = WhoisLookupView;

    closed spec fn view(&self) -> WhoisLookupView {
        WhoisLookupView { name: self.name@, tld: self.tld@, server: self.server@ }
    }
}

impl WhoisLookupView {
    /// The result for an answer.
    pub open spec fn result(self, response: Seq<char>, latency: u64) -> ResultView {
        ResultView {
            domain: full_name(self.name, self.tld),
            status: if means_available(response, self.tld) {
                DomainStatus::Available
            } else {
                DomainStatus::Taken
            },
            source: "whois"@,
            latency_ms: latency,
            details: Some(DetailsView::only_server(self.server)),
        }
    }
}

/// The text in the bytes of an answer; what is no UTF-8 in them is replaced.
pub uninterp spec fn lossy_text(bytes: Seq<u8>) -> Seq<char>;

/// `String::from_utf8_lossy`: the text that the bytes encode, with the replacement
/// character for what is no UTF-8.
#[verifier::external_body]
fn text_in(bytes: &[u8]) -> (r: String)
    ensures
        r@ == lossy_text(bytes@),
        valid_utf8(bytes@) ==> r@ == decode_utf8(bytes@),
{
    String::from_utf8_lossy(bytes).into_owned()
}

/// The network address of a server: `host:port`.
pub fn server_address(host: &str, port: u16) -> (r: String)
    ensures
        r@ == host@ + ":"@ + decimal(port as nat),
{
    let mut s = host.to_owned();
    s.append(":");
    s.append(string_of(&decimal_of(port as u64)).as_str());
    s
}

/// What a server is sent: the domain and the end of the line.
pub fn query_text(domain: &str) -> (r: String)
    ensures
        r@ == domain@ + "\r\n"@,
{
    let mut s = domain.to_owned();
    s.append("\r\n");
    s
}

impl WhoisResolver {
    /// A resolver that asks the servers of `bootstrap`.
    pub fn new(bootstrap: WhoisBootstrap, timeout: u64) -> (r: Self)
        ensures
            r.bootstrap == bootstrap,
            r.timeout == timeout,
    {
        WhoisResolver { bootstrap, timeout }
    }

    /// The name of the protocol.
    pub fn name(&self) -> (r: &'static str)
        ensures
            r@ == "whois"@,
    {
        "whois"
    }

    /// Begins a lookup at the server for the top-level domain.
    pub fn lookup(&self, name: &str, tld: &str) -> (r: Result<WhoisLookup, WhoisError>)
        ensures
            ({
                let servers = self.bootstrap.servers@;
                if servers.contains_key(lower(tld@)) {
                    r matches Ok(lookup) && lookup@ == (WhoisLookupView {
                        name: name@,
                        tld: tld@,
                        server: servers[lower(tld@)],
                    })
                } else {
                    r matches Err(e) && e.tld() == tld@
                }
            }),
    {
        match whois_server_for(&self.bootstrap, tld) {
            Some(server) => Ok(
                WhoisLookup {
                    name: name.to_owned(),
                    tld: tld.to_owned(),
                    server: server.to_owned(),
                },
            ),
            None => Err(WhoisError::NoServer(tld.to_owned())),
        }
    }
}

impl WhoisLookup {
    /// The host to ask.
    pub fn server(&self) -> (r: &str)
        ensures
            r@ == self@.server,
    {
        self.server.as_str()
    }

    /// The domain to ask for.
    pub fn domain(&self) -> (r: String)
        ensures
            r@ == full_name(self@.name, self@.tld),
    {
        domain_of(self.name.as_str(), self.tld.as_str())
    }

    /// The result for the text of an answer.
    pub fn judge(self, response: &str, latency_ms: u64) -> (r: LookupResult)
        ensures
            r@ == self@.result(response@, latency_ms),
    {
        let status = if is_available(response, self.tld.as_str()) {
            DomainStatus::Available
        } else {
            DomainStatus::Taken
        };
        LookupResult {
            domain: domain_of(self.name.as_str(), self.tld.as_str()),
            status,
            source: "whois".to_owned(),
            latency_ms,
            details: Some(LookupDetails::from_server(self.server)),
        }
    }

    /// The result for the bytes of an answer.
    pub fn finish(self, response: &[u8], latency_ms: u64) -> (r: LookupResult)
        ensures
            r@ == self@.result(lossy_text(response@), latency_ms),
    {
        let text = text_in(response);
        self.judge(text.as_str(), latency_ms)
    }
}

// ---------- laws ----------

/// Capitals do not count, neither in an answer nor in a top-level domain.
pub proof fn law_case_does_not_count(
    some: Seq<char>,
    other: Seq<char>,
    tld: Seq<char>,
    same_tld: Seq<char>,
)
    requires
        lower(some) == lower(other),
        lower(tld) == lower(same_tld),
    ensures
        means_available(some, tld) == means_available(other, same_tld),
{
}

/// Only the words of an answer count, not the white space between them.
pub proof fn law_spacing_does_not_count(some: Seq<char>, other: Seq<char>, tld: Seq<char>)
    requires
        non_empty(split(lower(some), CharSet::Space))
            == non_empty(
            split(lower(other), CharSet::Space),
        ),
    ensures
        means_available(some, tld) == means_available(other, tld),
{
}

/// An answer is taken for that of an available domain as soon as a generic phrase
/// stands in it, whatever the top-level domain.
pub proof fn law_generic_phrases_always_count(response: Seq<char>, tld: Seq<char>, i: int)
    requires
        0 <= i < GENERIC_NOT_FOUND_PATTERNS@.len(),
        contains(plain(response), GENERIC_NOT_FOUND_PATTERNS@[i]@),
    ensures
        means_available(response, tld),
{
    assert(literals(GENERIC_NOT_FOUND_PATTERNS@)[i]
        == GENERIC_NOT_FOUND_PATTERNS@[i]@);
}

/// An answer in which no phrase of the registry and no generic phrase stands is that of a
/// registered domain.
pub proof fn law_answers_without_phrases_tell_of_taken_domains(response: Seq<char>, tld: Seq<char>)
    requires
        forall|i: int|
            0 <= i < patterns_for(tld).len() ==> !contains(
                plain(response),
                #[trigger] patterns_for(tld)[i],
            ),
        forall|i: int|
            0 <= i < GENERIC_NOT_FOUND_PATTERNS@.len() ==> !contains(
                plain(response),
                (#[trigger] GENERIC_NOT_FOUND_PATTERNS@[i])@,
            ),
    ensures
        !means_available(response, tld),
{
    let all = literals(GENERIC_NOT_FOUND_PATTERNS@);
    assert forall|i: int| 0 <= i < all.len() implies !contains(
        plain(response),
        #[trigger] all[i],
    ) by {
        assert(all[i] == GENERIC_NOT_FOUND_PATTERNS@[i]@);
    }
}

/// An answer tells of an available domain where one of these phrases stands in it,
/// whatever the top-level domain and whatever else stands in the answer.
pub proof fn law_phrases_of_denial(response: Seq<char>, tld: Seq<char>, phrase: Seq<char>)
    requires
        contains(plain(response), phrase),
        phrase == "no match"@
            || phrase == "not found"@
            || phrase == "no data found"@
            || phrase == "no entries found"@
            || phrase == "no object found"@
            || phrase == "object does not exist"@
            || phrase == "object not found"@
            || phrase == "domain not found"@
            || phrase == "domain name not found"@
            || phrase == "no such domain"@
            || phrase == "is available"@
            || phrase == "is free"@
            || phrase == "is not registered"@
            || phrase == "is not been registered"@
            || phrase == "is not currently registered"@
            || phrase == "has not been registered"@
            || phrase == "no matching record"@
            || phrase == "no matching domain"@
            || phrase == "nothing found"@
            || phrase == "status: available"@
            || phrase == "status: free"@
            || phrase == "no match for domain"@
            || phrase == "no matching record found"@
            || phrase == "no matching entry"@
            || phrase == "no record found"@
            || phrase == "no results found"@
            || phrase == "no registration data"@
            || phrase == "no found"@
            || phrase == "we have no entry"@
            || phrase == "no information about"@
            || phrase == "domain status: available"@
            || phrase == "domain name not known"@,
    ensures
        means_available(response, tld),
{
    let all = literals(GENERIC_NOT_FOUND_PATTERNS@);
    assert(all[0] == "no match"@);
    assert(all[1] == "not found"@);
    assert(all[2] == "no data found"@);
    assert(all[3] == "no entries found"@);
    assert(all[4] == "no object found"@);
    assert(all[5] == "object does not exist"@);
    assert(all[6] == "object not found"@);
    assert(all[7] == "domain not found"@);
    assert(all[8] == "domain name not found"@);
    assert(all[9] == "no such domain"@);
    assert(all[10] == "is available"@);
    assert(all[11] == "is free"@);
    assert(all[12] == "is not registered"@);
    assert(all[13] == "is not been registered"@);
    assert(all[14] == "is not currently registered"@);
    assert(all[15] == "has not been registered"@);
    assert(all[16] == "no matching record"@);
    assert(all[17] == "no matching domain"@);
    assert(all[18] == "nothing found"@);
    assert(all[19] == "status: available"@);
    assert(all[20] == "status: free"@);
    assert(all[21] == "no match for domain"@);
    assert(all[22] == "no matching record found"@);
    assert(all[23] == "no matching entry"@);
    assert(all[24] == "no record found"@);
    assert(all[25] == "no results found"@);
    assert(all[26] == "no registration data"@);
    assert(all[27] == "no found"@);
    assert(all[28] == "we have no entry"@);
    assert(all[29] == "no information about"@);
    assert(all[30] == "domain status: available"@);
    assert(all[31] == "domain name not known"@);
    let i = choose|i: int| 0 <= i < all.len() && #[trigger] all[i] == phrase;
    assert(contains(plain(response), all[i]));
}

/// Every generic phrase denies something, or calls something free or available.
proof fn lemma_generic_phrases_deny(i: int)
    requires
        0 <= i < GENERIC_NOT_FOUND_PATTERNS@.len(),
    ensures
        ({
            let phrase = GENERIC_NOT_FOUND_PATTERNS@[i]@;
            contains(phrase, "no"@) || contains(phrase, "free"@) || contains(phrase, "available"@)
        }),
{
    reveal_strlit("no");
    reveal_strlit("free");
    reveal_strlit("available");
    if i == 0 {
        reveal_strlit("no match");
        assert("no match"@.subrange(0, 2) =~= "no"@);
        assert(occurs_at("no match"@, "no"@, 0));
    } else if i == 1 {
        reveal_strlit("not found");
        assert("not found"@.subrange(0, 2) =~= "no"@);
        assert(occurs_at("not found"@, "no"@, 0));
    } else if i == 2 {
        reveal_strlit("no data found");
        assert("no data found"@.subrange(0, 2) =~= "no"@);
        assert(occurs_at("no data found"@, "no"@, 0));
    } else if i == 3 {
        reveal_strlit("no entries found");
        assert("no entries found"@.subrange(0, 2) =~= "no"@);
        assert(occurs_at("no entries found"@, "no"@, 0));
    } else if i == 4 {
        reveal_strlit("no object found");
        assert("no object found"@.subrange(0, 2) =~= "no"@);
        assert(occurs_at("no object found"@, "no"@, 0));
    } else if i == 5 {
        reveal_strlit("object does not exist");
        assert("object does not exist"@.subrange(12, 14) =~= "no"@);
        assert(occurs_at("object does not exist"@, "no"@, 12));
    } else if i == 6 {
        reveal_strlit("object not found");
        assert("object not found"@.subrange(7, 9) =~= "no"@);
        assert(occurs_at("object not found"@, "no"@, 7));
    } else if i == 7 {
        reveal_strlit("domain not found");
        assert("domain not found"@.subrange(7, 9) =~= "no"@);
        assert(occurs_at("domain not found"@, "no"@, 7));
    } else if i == 8 {
        reveal_strlit("domain name not found");
        assert("domain name not found"@.subrange(12, 14) =~= "no"@);
        assert(occurs_at("domain name not found"@, "no"@, 12));
    } else if i == 9 {
        reveal_strlit("no such domain");
        assert("no such domain"@.subrange(0, 2) =~= "no"@);
        assert(occurs_at("no such domain"@, "no"@, 0));
    } else if i == 10 {
        reveal_strlit("is available");
        assert("is available"@.subrange(3, 12) =~= "available"@);
        assert(occurs_at("is available"@, "available"@, 3));
    } else if i == 11 {
        reveal_strlit("is free");
        assert("is free"@.subrange(3, 7) =~= "free"@);
        assert(occurs_at("is free"@, "free"@, 3));
    } else if i == 12 {
        reveal_strlit("is not registered");
        assert("is not registered"@.subrange(3, 5) =~= "no"@);
        assert(occurs_at("is not registered"@, "no"@, 3));
    } else if i == 13 {
        reveal_strlit("is not been registered");
        assert("is not been registered"@.subrange(3, 5) =~= "no"@);
        assert(occurs_at("is not been registered"@, "no"@, 3));
    } else if i == 14 {
        reveal_strlit("is not currently registered");
        assert("is not currently registered"@.subrange(3, 5) =~= "no"@);
        assert(occurs_at("is not currently registered"@, "no"@, 3));
    } else if i == 15 {
        reveal_strlit("has not been registered");
        assert("has not been registered"@.subrange(4, 6) =~= "no"@);
        assert(occurs_at("has not been registered"@, "no"@, 4));
    } else if i == 16 {
        reveal_strlit("no matching record");
        assert("no matching record"@.subrange(0, 2) =~= "no"@);
        assert(occurs_at("no matching record"@, "no"@, 0));
    } else if i == 17 {
        reveal_strlit("no matching domain");
        assert("no matching domain"@.subrange(0, 2) =~= "no"@);
        assert(occurs_at("no matching domain"@, "no"@, 0));
    } else if i == 18 {
        reveal_strlit("nothing found");
        assert("nothing found"@.subrange(0, 2) =~= "no"@);
        assert(occurs_at("nothing found"@, "no"@, 0));
    } else if i == 19 {
        reveal_strlit("status: available");
        assert("status: available"@.subrange(8, 17) =~= "available"@);
        assert(occurs_at("status: available"@, "available"@, 8));
    } else if i == 20 {
        reveal_strlit("status: free");
        assert("status: free"@.subrange(8, 12) =~= "free"@);
        assert(occurs_at("status: free"@, "free"@, 8));
    } else if i == 21 {
        reveal_strlit("no match for domain");
        assert("no match for domain"@.subrange(0, 2) =~= "no"@);
        assert(occurs_at("no match for domain"@, "no"@, 0));
    } else if i == 22 {
        reveal_strlit("no matching record found");
        assert("no matching record found"@.subrange(0, 2) =~= "no"@);
        assert(occurs_at("no matching record found"@, "no"@, 0));
    } else if i == 23 {
        reveal_strlit("no matching entry");
        assert("no matching entry"@.subrange(0, 2) =~= "no"@);
        assert(occurs_at("no matching entry"@, "no"@, 0));
    } else if i == 24 {
        reveal_strlit("no record found");
        assert("no record found"@.subrange(0, 2) =~= "no"@);
        assert(occurs_at("no record found"@, "no"@, 0));
    } else if i == 25 {
        reveal_strlit("no results found");
        assert("no results found"@.subrange(0, 2) =~= "no"@);
        assert(occurs_at("no results found"@, "no"@, 0));
    } else if i == 26 {
        reveal_strlit("no registration data");
        assert("no registration data"@.subrange(0, 2) =~= "no"@);
        assert(occurs_at("no registration data"@, "no"@, 0));
    } else if i == 27 {
        reveal_strlit("no found");
        assert("no found"@.subrange(0, 2) =~= "no"@);
        assert(occurs_at("no found"@, "no"@, 0));
    } else if i == 28 {
        reveal_strlit("we have no entry");
        assert("we have no entry"@.subrange(8, 10) =~= "no"@);
        assert(occurs_at("we have no entry"@, "no"@, 8));
    } else if i == 29 {
        reveal_strlit("no information about");
        assert("no information about"@.subrange(0, 2) =~= "no"@);
        assert(occurs_at("no information about"@, "no"@, 0));
    } else if i == 30 {
        reveal_strlit("domain status: available");
        assert("domain status: available"@.subrange(15, 24) =~= "available"@);
        assert(occurs_at("domain status: available"@, "available"@, 15));
    } else if i == 31 {
        reveal_strlit("domain name not known");
        assert("domain name not known"@.subrange(12, 14) =~= "no"@);
        assert(occurs_at("domain name not known"@, "no"@, 12));
    }
}

/// A phrase of a registry is a generic phrase, or has one in it.
proof fn lemma_registry_phrases_are_generic(tld: Seq<char>, i: int)
    requires
        0 <= i < patterns_for(tld).len(),
    ensures
        exists|k: int|
            0 <= k < GENERIC_NOT_FOUND_PATTERNS@.len() && contains(
                patterns_for(tld)[i],
                (#[trigger] GENERIC_NOT_FOUND_PATTERNS@[k])@,
            ),
{
    let all = GENERIC_NOT_FOUND_PATTERNS@;
    let phrase = patterns_for(tld)[i];
    if phrase == "no match for"@ {
        reveal_strlit("no match for");
        reveal_strlit("no match");
        assert("no match for"@.subrange(0, 8) =~= "no match"@);
        assert(occurs_at(phrase, all[0]@, 0));
    } else {
        assert(exists|k: int| 0 <= k < all.len() && phrase == (#[trigger] all[k])@) by {
            assert(literals(all).len() == all.len());
            if phrase == literals(all)[i] {
                assert(phrase == all[i]@);
            }
            assert(all[0]@ == "no match"@ && all[1]@ == "not found"@ && all[2]@ == "no data found"@
                && all[3]@ == "no entries found"@ && all[4]@ == "no object found"@);
            assert(all[5]@ == "object does not exist"@ && all[7]@ == "domain not found"@ && all[10]@
                == "is available"@ && all[16]@ == "no matching record"@);
            assert(all[20]@ == "status: free"@ && all[21]@ == "no match for domain"@ && all[30]@
                == "domain status: available"@);
        }
        let k = choose|k: int| 0 <= k < all.len() && phrase == (#[trigger] all[k])@;
        assert(phrase.subrange(0, phrase.len() as int) =~= phrase);
        assert(occurs_at(phrase, all[k]@, 0));
    }
}

/// The same answer tells the same of a domain under every top-level domain.
pub proof fn law_answers_mean_the_same_everywhere(
    response: Seq<char>,
    some: Seq<char>,
    other: Seq<char>,
)
    ensures
        means_available(response, some) == means_available(response, other),
{
    lemma_generic_phrases_suffice(response, some);
    lemma_generic_phrases_suffice(response, other);
}

/// The phrases of a registry add nothing to the generic ones.
proof fn lemma_generic_phrases_suffice(response: Seq<char>, tld: Seq<char>)
    ensures
        means_available(response, tld) == mentions(
            plain(response),
            literals(GENERIC_NOT_FOUND_PATTERNS@),
        ),
{
    let all = literals(GENERIC_NOT_FOUND_PATTERNS@);
    if mentions(plain(response), patterns_for(tld)) {
        let i = choose|i: int|
            0 <= i < patterns_for(tld).len() && contains(
                plain(response),
                #[trigger] patterns_for(tld)[i],
            );
        lemma_registry_phrases_are_generic(tld, i);
        let k = choose|k: int|
            0 <= k < GENERIC_NOT_FOUND_PATTERNS@.len() && contains(
                patterns_for(tld)[i],
                (#[trigger] GENERIC_NOT_FOUND_PATTERNS@[k])@,
            );
        law_contains_is_transitive(
            plain(response),
            patterns_for(tld)[i],
            GENERIC_NOT_FOUND_PATTERNS@[k]@,
        );
        assert(contains(plain(response), all[k]));
    }
}

/// An answer that denies nothing, and calls nothing free or available, tells of a taken
/// domain.
pub proof fn law_only_denials_tell_of_available_domains(response: Seq<char>, tld: Seq<char>)
    requires
        !contains(plain(response), "no"@),
        !contains(plain(response), "free"@),
        !contains(plain(response), "available"@),
    ensures
        !means_available(response, tld),
{
    lemma_generic_phrases_suffice(response, tld);
    let text = plain(response);
    let all = literals(GENERIC_NOT_FOUND_PATTERNS@);
    if mentions(text, all) {
        let i = choose|i: int| 0 <= i < all.len() && contains(text, #[trigger] all[i]);
        let phrase = GENERIC_NOT_FOUND_PATTERNS@[i]@;
        assert(all[i] == phrase);
        lemma_generic_phrases_deny(i);
        if contains(phrase, "no"@) {
            law_contains_is_transitive(text, phrase, "no"@);
        } else if contains(phrase, "free"@) {
            law_contains_is_transitive(text, phrase, "free"@);
        } else {
            law_contains_is_transitive(text, phrase, "available"@);
        }
    }
}

/// Phrases are looked for in the words of the answer, in lower case and with one blank
/// between them.
pub proof fn law_plain(response: Seq<char>)
    ensures
        plain(response) == join(non_empty(split(lower(response), CharSet::Space)), seq![' ']),
{
    reveal_strlit(" ");
    assert(" "@ =~= seq![' ']);
}

/// The result of a lookup: available or taken as the answer says, never unknown, with the
/// server that gave the answer.
pub proof fn law_whois_result(lookup: WhoisLookupView, response: Seq<char>, latency: u64)
    ensures
        ({
            let r = lookup.result(response, latency);
            &&& r.domain == full_name(lookup.name, lookup.tld)
            &&& r.status == DomainStatus::Available <==> means_available(response, lookup.tld)
            &&& r.status == DomainStatus::Taken <==> !means_available(response, lookup.tld)
            &&& r.source == "whois"@
            &&& r.latency_ms == latency
            &&& r.details matches Some(d)
            &&& d.server == Some(lookup.server)
            &&& d.registrar is None && d.creation_date is None && d.expiry_date is None
            &&& d.registry is None && d.nameservers.len() == 0
        }),
{
}

/// Only some registries have phrases of their own; every other top-level domain has the
/// generic ones.
pub proof fn law_registries_without_phrases(tld: Seq<char>)
    ensures
        patterns_for(tld) == literals(GENERIC_NOT_FOUND_PATTERNS@) || 2 <= patterns_for(tld).len()
            <= 3,
        !seq![
            "com"@,
            "net"@,
            "org"@,
            "io"@,
            "co"@,
            "ai"@,
            "uk"@,
            "co.uk"@,
            "de"@,
            "fr"@,
            "jp"@,
            "ru"@,
            "br"@,
            "in"@,
            "au"@,
            "ca"@,
            "tv"@,
            "biz"@,
            "info"@,
            "bd"@,
        ].contains(lower(tld)) ==> patterns_for(tld) == literals(GENERIC_NOT_FOUND_PATTERNS@),
{
    let own = seq![
        "com"@,
        "net"@,
        "org"@,
        "io"@,
        "co"@,
        "ai"@,
        "uk"@,
        "co.uk"@,
        "de"@,
        "fr"@,
        "jp"@,
        "ru"@,
        "br"@,
        "in"@,
        "au"@,
        "ca"@,
        "tv"@,
        "biz"@,
        "info"@,
        "bd"@,
    ];
    if !own.contains(lower(tld)) {
        assert(own[0] == "com"@ && own[1] == "net"@ && own[2] == "org"@ && own[3] == "io"@ && own[4]
            == "co"@);
        assert(own[5] == "ai"@ && own[6] == "uk"@ && own[7] == "co.uk"@ && own[8] == "de"@ && own[9]
            == "fr"@);
        assert(own[10] == "jp"@ && own[11] == "ru"@ && own[12] == "br"@ && own[13] == "in"@
            && own[14] == "au"@);
        assert(own[15] == "ca"@ && own[16] == "tv"@ && own[17] == "biz"@ && own[18] == "info"@
            && own[19] == "bd"@);
    }
}

} // verus!
