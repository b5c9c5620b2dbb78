//! Lookups in the `.bd` zone.
//!
//! The registry of `.bd` offers neither RDAP nor WHOIS, so its domains are looked up
//! with a provider that answers over HTTP. The default provider replies with a JSON
//! document such as
//!
//! ```json
//! {
//!   "success": true,
//!   "available": true,
//!   "registered": false,
//!   "reserved": false,
//!   "status": "available",
//!   "message": "Domain is available",
//!   "raw_response": "Domain is available",
//!   "source": "btcl"
//! }
//! ```
//!
//! `available` counts before `status`, and neither counts where `success` is false.

use vstd::prelude::*;

use crate::models::{
    domain_of, full_name, text_of, DetailsView, DomainStatus, LookupDetails, LookupResult,
    ResultView,
};
use crate::text::{
    chars_of, contains, contains_text, law_contains, law_replace, law_replace_nothing, lower,
    lower_of, occurs_at, replace, replace_of, starts_with, string_of,
};

verus! {

/// The URL template of the default provider.
pub const DEFAULT_BD_ENDPOINT: &'static str =
    "https://www.limda.net/inc/api/check-domain-availability.php?search={domain}";

// ---------- what a provider says ----------

/// What a provider says of a domain.
#[derive(Debug, Clone)]
pub struct BdLookup {
    pub status: DomainStatus,
    pub message: Option<String>,
    pub raw_response: Option<String>,
    pub source: Option<String>,
    pub registered: Option<bool>,
    pub reserved: Option<bool>,
}

/// The view of [`BdLookup`].
#[verifier::ext_equal]
pub struct BdLookupView {
    pub status: DomainStatus,
    pub message: Option<Seq<char>>,
    pub raw_response: Option<Seq<char>>,
    pub source: Option<Seq<char>>,
    pub registered: Option<bool>,
    pub reserved: Option<bool>,
}

impl View for BdLookup {
    type V = BdLookupView;

    open spec fn view(&self) -> BdLookupView {
        BdLookupView {
            status: self.status,
            message: text_of(self.message),
            raw_response: text_of(self.raw_response),
            source: text_of(self.source),
            registered: self.registered,
            reserved: self.reserved,
        }
    }
}

impl BdLookupView {
    /// A status about which nothing more is said.
    pub open spec fn bare(status: DomainStatus) -> BdLookupView {
        BdLookupView {
            status,
            message: None,
            raw_response: None,
            source: None,
            registered: None,
            reserved: None,
        }
    }
}

impl Default for BdLookup {
    fn default() -> (r: Self)
        ensures
            r@ == BdLookupView::bare(DomainStatus::Unknown),
    {
        BdLookup {
            status: DomainStatus::Unknown,
            message: None,
            raw_response: None,
            source: None,
            registered: None,
            reserved: None,
        }
    }
}

/// The document that the default provider replies with. Every member may be
/// missing.
#[derive(Debug, Clone)]
pub struct BdResponse {
    pub available: Option<bool>,
    pub status: Option<String>,
    pub message: Option<String>,
    pub raw_response: Option<String>,
    pub source: Option<String>,
    pub registered: Option<bool>,
    pub reserved: Option<bool>,
    pub success: Option<bool>,
}

/// The status that a word in a document stands for.
pub open spec fn word_status(word: Seq<char>) -> DomainStatus {
    let w = lower(word);
    if contains(w, "available"@) || contains(w, "free"@)
        || contains(w, "not found"@) {
        DomainStatus::Available
    } else if contains(w, "registered"@) || contains(w, "taken"@)
        || contains(w, "active"@) {
        DomainStatus::Taken
    } else {
        DomainStatus::Unknown
    }
}

/// The status in a document.
pub open spec fn response_status(response: BdResponse) -> DomainStatus {
    if response.success == Some(false) {
        DomainStatus::Unknown
    } else {
        match (response.available, response.status) {
            (Some(true), _) => DomainStatus::Available,
            (Some(false), _) => DomainStatus::Taken,
            (None, Some(word)) => word_status(word@),
            (None, None) => DomainStatus::Unknown,
        }
    }
}

/// What a document says of a domain.
pub open spec fn response_lookup(response: BdResponse) -> BdLookupView {
    BdLookupView {
        status: response_status(response),
        message: text_of(response.message),
        raw_response: text_of(response.raw_response),
        source: text_of(response.source),
        registered: response.registered,
        reserved: response.reserved,
    }
}

/// The status that a word in a document stands for.
fn status_of_word(word: &str) -> (r: DomainStatus)
    ensures
        r == word_status(word@),
{
    let w = lower_of(&chars_of(word));
    if contains_text(&w, "available") || contains_text(&w, "free") || contains_text(
        &w,
        "not found",
    ) {
        DomainStatus::Available
    } else if contains_text(&w, "registered") || contains_text(&w, "taken") || contains_text(
        &w,
        "active",
    ) {
        DomainStatus::Taken
    } else {
        DomainStatus::Unknown
    }
}

/// What a document says of a domain.
pub fn judge_response(response: BdResponse) -> (r: BdLookup)
    ensures
        r@ == response_lookup(response),
{
    let status = if response.success == Some(false) {
        DomainStatus::Unknown
    } else if let Some(available) = response.available {
        if available {
            DomainStatus::Available
        } else {
            DomainStatus::Taken
        }
    } else if let Some(word) = &response.status {
        status_of_word(word.as_str())
    } else {
        DomainStatus::Unknown
    };
    BdLookup {
        status,
        message: response.message,
        raw_response: response.raw_response,
        source: response.source,
        registered: response.registered,
        reserved: response.reserved,
    }
}

// ---------- the default provider ----------

/// Why a `.bd` lookup fails.
#[derive(Debug, Clone)]
pub enum BdError {
    /// The URL template has no place for the domain.
    NoPlaceholder,
    /// The provider at this URL gave no reply.
    Get(String),
    /// The provider replied with this status.
    Status(String),
    /// The reply is no document of the provider.
    Decode,
    /// A provider failed, and this is what it says of it.
    Provider(String),
}

/// The view of [`BdError`].
pub enum BdErrorView {
    NoPlaceholder,
    Get(Seq<char>),
    Status(Seq<char>),
    Decode,
    Provider(Seq<char>),
}

impl View for BdError {
    type V = BdErrorView;

    open spec fn view(&self) -> BdErrorView {
        match self {
            BdError::NoPlaceholder => BdErrorView::NoPlaceholder,
            BdError::Get(url) => BdErrorView::Get(url@),
            BdError::Status(status) => BdErrorView::Status(status@),
            BdError::Decode => BdErrorView::Decode,
            BdError::Provider(text) => BdErrorView::Provider(text@),
        }
    }
}

impl BdError {
    /// The text that tells what went wrong.
    pub fn message(&self) -> (r: String)
        ensures
            r@ == match self@ {
                BdErrorView::NoPlaceholder => "endpoint URL must contain {domain} placeholder"@,
                BdErrorView::Get(url) => "GET "@ + url,
                BdErrorView::Status(status) => ".bd provider HTTP "@ + status,
                BdErrorView::Decode => "decoding .bd provider JSON"@,
                BdErrorView::Provider(text) => text,
            },
    {
        match self {
            BdError::NoPlaceholder => "endpoint URL must contain {domain} placeholder".to_owned(),
            BdError::Get(url) => {
                let mut s = "GET ".to_owned();
                s.append(url.as_str());
                s
            },
            BdError::Status(status) => {
                let mut s = ".bd provider HTTP ".to_owned();
                s.append(status.as_str());
                s
            },
            BdError::Decode => "decoding .bd provider JSON".to_owned(),
            BdError::Provider(text) => text.clone(),
        }
    }
}

/// What a request to the provider brings.
#[derive(Debug, Clone)]
pub enum BdReply {
    /// No reply, for whatever reason.
    Unreachable,
    /// A reply: its status code, the code with its reason, and the document in it if
    /// it could be read as one.
    Answered { code: u16, status: String, response: Option<BdResponse> },
}

/// What a reply from `url` says of a domain.
pub open spec fn reply_lookup(url: Seq<char>, reply: BdReply) -> Result<BdLookupView, BdErrorView> {
    match reply {
        BdReply::Unreachable => Err(BdErrorView::Get(url)),
        BdReply::Answered { code, status, response } => if 200 <= code < 300 {
            match response {
                Some(response) => Ok(response_lookup(response)),
                None => Err(BdErrorView::Decode),
            }
        } else if code == 404 {
            Ok(BdLookupView::bare(DomainStatus::Available))
        } else {
            Err(BdErrorView::Status(status@))
        },
    }
}

/// A provider that replies with a JSON document.
#[derive(Debug, Clone)]
pub struct JsonBdProvider {
    endpoint_template: String,
    timeout: u64,
}

impl JsonBdProvider {
    /// The URL template.
    pub closed spec fn template(self) -> Seq<char> {
        self.endpoint_template@
    }

    /// The time that a request may take, in milliseconds.
    pub closed spec fn limit(self) -> u64 {
        self.timeout
    }

    /// The URL at which a domain is asked for.
    pub open spec fn url_of(self, domain: Seq<char>) -> Seq<char> {
        replace(self.template(), "{domain}"@, domain)
    }

    /// A provider at the URLs that the template makes with `{domain}`.
    pub fn new(endpoint_template: String, timeout: u64) -> (r: Result<Self, BdError>)
        ensures
            if contains(endpoint_template@, "{domain}"@) {
                r matches Ok(p) && p.template() == endpoint_template@ && p.limit() == timeout
            } else {
                r matches Err(e) && e@ == BdErrorView::NoPlaceholder
            },
    {
        if contains_text(&chars_of(endpoint_template.as_str()), "{domain}") {
            Ok(JsonBdProvider { endpoint_template, timeout })
        } else {
            Err(BdError::NoPlaceholder)
        }
    }

    /// The name of the provider.
    pub fn name(&self) -> (r: &'static str)
        ensures
            r@ == "limda.net"@,
    {
        "limda.net"
    }

    /// The time that a request may take, in milliseconds.
    pub fn timeout(&self) -> (r: u64)
        ensures
            r == self.limit(),
    {
        self.timeout
    }

    /// The URL at which a domain is asked for.
    pub fn url(&self, domain: &str) -> (r: String)
        ensures
            r@ == self.url_of(domain@),
    {
        proof {
            reveal_strlit("{domain}");
        }
        string_of(
            &replace_of(
                &chars_of(self.endpoint_template.as_str()),
                &chars_of("{domain}"),
                &chars_of(domain),
            ),
        )
    }

    /// What the reply to a request says of the domain.
    pub fn lookup(&self, domain: &str, reply: BdReply) -> (r: Result<BdLookup, BdError>)
        ensures
            match reply_lookup(self.url_of(domain@), reply) {
                Ok(lookup) => r matches Ok(v) && v@ == lookup,
                Err(error) => r matches Err(e) && e@ == error,
            },
    {
        match reply {
            BdReply::Unreachable => Err(BdError::Get(self.url(domain))),
            BdReply::Answered { code, status, response } => if 200 <= code && code < 300 {
                match response {
                    Some(response) => Ok(judge_response(response)),
                    None => Err(BdError::Decode),
                }
            } else if code == 404 {
                let mut lookup = BdLookup::default();
                lookup.status = DomainStatus::Available;
                Ok(lookup)
            } else {
                Err(BdError::Status(status))
            },
        }
    }
}

// ---------- results ----------

/// The text of a truth value.
pub open spec fn truth(b: bool) -> Seq<char> {
    if b {
        "true"@
    } else {
        "false"@
    }
}

/// A note that may be missing.
pub open spec fn note(label: Seq<char>, text: Option<Seq<char>>) -> Seq<Seq<char>> {
    match text {
        Some(t) => seq![label + t],
        None => Seq::empty(),
    }
}

/// The text of a truth value that may be missing.
pub open spec fn truth_of(b: Option<bool>) -> Option<Seq<char>> {
    match b {
        Some(b) => Some(truth(b)),
        None => None,
    }
}

/// What a provider says beside the status, in the order in which it is shown.
pub open spec fn notes(bd: BdLookupView) -> Seq<Seq<char>> {
    note("message: "@, bd.message) + note("upstream: "@, bd.raw_response) + note(
        "registered: "@,
        truth_of(bd.registered),
    ) + note("reserved: "@, truth_of(bd.reserved))
}

/// The result for what a provider says. What it says beside the status stands among
/// the details: its source as the registry, the rest in the list of nameservers.
pub open spec fn provider_result(
    provider: Seq<char>,
    name: Seq<char>,
    tld: Seq<char>,
    bd: BdLookupView,
    latency: u64,
) -> ResultView {
    ResultView {
        domain: full_name(name, tld),
        status: bd.status,
        source: "bd"@,
        latency_ms: latency,
        details: Some(
            DetailsView {
                registry: match bd.source {
                    Some(source) => Some("btcl via limda.net ("@ + source + ")"@),
                    None => None,
                },
                nameservers: notes(bd),
                ..DetailsView::only_server(provider)
            },
        ),
    }
}

/// Appends a note, if there is one.
fn append_note(notes: &mut Vec<String>, label: &str, text: &Option<String>)
    ensures
        final(notes).deep_view() == old(notes).deep_view() + note(
            label@,
            text_of(*text),
        ),
{
    if let Some(t) = text {
        let ghost was = notes.deep_view();
        let mut s = label.to_owned();
        s.append(t.as_str());
        notes.push(s);
        proof {
            assert(notes.deep_view() =~= was.push(label@ + t@));
        }
    } else {
        proof {
            assert(notes.deep_view() =~= notes.deep_view() + Seq::<Seq<char>>::empty());
        }
    }
}

/// The text of a truth value that may be missing.
fn truth_text(b: Option<bool>) -> (r: Option<String>)
    ensures
        text_of(r) == truth_of(b),
{
    match b {
        Some(true) => Some("true".to_owned()),
        Some(false) => Some("false".to_owned()),
        None => None,
    }
}

/// The result for what a provider says.
pub fn surface(
    provider: &str,
    name: &str,
    tld: &str,
    bd: BdLookup,
    latency_ms: u64,
) -> (r: LookupResult)
    ensures
        r@ == provider_result(provider@, name@, tld@, bd@, latency_ms),
{
    let mut details = LookupDetails::from_server(provider.to_owned());
    if let Some(source) = &bd.source {
        let mut registry = "btcl via limda.net (".to_owned();
        registry.append(source.as_str());
        registry.append(")");
        details.registry = Some(registry);
    }
    let mut list: Vec<String> = Vec::new();
    proof {
        assert(list.deep_view() =~= Seq::<Seq<char>>::empty());
    }
    append_note(&mut list, "message: ", &bd.message);
    append_note(&mut list, "upstream: ", &bd.raw_response);
    append_note(&mut list, "registered: ", &truth_text(bd.registered));
    append_note(&mut list, "reserved: ", &truth_text(bd.reserved));
    proof {
        assert(list.deep_view() =~= notes(bd@));
    }
    details.nameservers = list;
    LookupResult {
        domain: domain_of(name, tld),
        status: bd.status,
        source: "bd".to_owned(),
        latency_ms,
        details: Some(details),
    }
}

/// The result of a lookup with any provider: what it says is surfaced, and its error is
/// passed on.
pub fn resolve(
    provider: &str,
    name: &str,
    tld: &str,
    outcome: Result<BdLookup, BdError>,
    latency_ms: u64,
) -> (r: Result<LookupResult, BdError>)
    ensures
        match outcome {
            Ok(bd) => r matches Ok(result) && result@ == provider_result(
                provider@,
                name@,
                tld@,
                bd@,
                latency_ms,
            ),
            Err(error) => r matches Err(e) && e@ == error@,
        },
{
    match outcome {
        Ok(bd) => Ok(surface(provider, name, tld, bd, latency_ms)),
        Err(e) => Err(e),
    }
}

// ---------- the resolver ----------

/// The URL template to use: that of the command line, else that of the environment,
/// else the default.
pub open spec fn chosen_endpoint(flag: Option<Seq<char>>, env: Option<Seq<char>>) -> Seq<char> {
    match (flag, env) {
        (Some(flag), _) => flag,
        (None, Some(env)) => env,
        (None, None) => DEFAULT_BD_ENDPOINT@,
    }
}

/// Looks domains of the `.bd` zone up with the default provider.
#[derive(Debug, Clone)]
pub struct BdResolver {
    pub provider: JsonBdProvider,
    /// The time that a lookup may take, in milliseconds.
    pub timeout: u64,
}

impl BdResolver {
    /// A resolver at the URL template of the command line, else at that of the
    /// environment variable `DS_BD_ENDPOINT`, else at the default.
    pub fn new(endpoint_template: Option<String>, env: Option<String>, timeout: u64) -> (r: Result<
        Self,
        BdError,
    >)
        ensures
            ({
                let template = chosen_endpoint(
                    text_of(endpoint_template),
                    text_of(env),
                );
                if contains(template, "{domain}"@) {
                    r matches Ok(b) && b.provider.template() == template && b.provider.limit()
                        == timeout && b.timeout == timeout
                } else {
                    r matches Err(e) && e@ == BdErrorView::NoPlaceholder
                }
            }),
            endpoint_template is None && env is None ==> r is Ok,
    {
        proof {
            lemma_default_endpoint();
        }
        let template = match endpoint_template {
            Some(template) => template,
            None => match env {
                Some(template) => template,
                None => DEFAULT_BD_ENDPOINT.to_owned(),
            },
        };
        match JsonBdProvider::new(template, timeout) {
            Ok(provider) => Ok(BdResolver { provider, timeout }),
            Err(e) => Err(e),
        }
    }

    /// A resolver with the given provider.
    pub fn with_provider(provider: JsonBdProvider, timeout: u64) -> (r: Self)
        ensures
            r.provider == provider,
            r.timeout == timeout,
    {
        BdResolver { provider, timeout }
    }

    /// The name of the protocol.
    pub fn name(&self) -> (r: &'static str)
        ensures
            r@ == "bd"@,
    {
        "bd"
    }

    /// The URL at which a domain is asked for.
    pub fn url(&self, name: &str, tld: &str) -> (r: String)
        ensures
            r@ == self.provider.url_of(full_name(name@, tld@)),
    {
        self.provider.url(domain_of(name, tld).as_str())
    }

    /// The result for the provider's reply.
    pub fn lookup(&self, name: &str, tld: &str, reply: BdReply, latency_ms: u64) -> (r: Result<
        LookupResult,
        BdError,
    >)
        ensures
            match reply_lookup(
                self.provider.url_of(full_name(name@, tld@)),
                reply,
            ) {
                Ok(bd) => r matches Ok(result) && result@ == provider_result(
                    "limda.net"@,
                    name@,
                    tld@,
                    bd,
                    latency_ms,
                ),
                Err(error) => r matches Err(e) && e@ == error,
            },
    {
        let outcome = self.provider.lookup(domain_of(name, tld).as_str(), reply);
        resolve(self.provider.name(), name, tld, outcome, latency_ms)
    }
}

/// The default template has a place for the domain.
proof fn lemma_default_endpoint()
    ensures
        contains(DEFAULT_BD_ENDPOINT@, "{domain}"@),
{
    reveal_strlit(
        "https://www.limda.net/inc/api/check-domain-availability.php?search={domain}",
    );
    reveal_strlit("{domain}");
    let at = DEFAULT_BD_ENDPOINT@.len() - 8;
    assert(DEFAULT_BD_ENDPOINT@.subrange(at, at + 8) =~= "{domain}"@);
    assert(occurs_at(DEFAULT_BD_ENDPOINT@, "{domain}"@, at));
}

// ---------- laws ----------

/// Where a text stands in another, its replacement stands in the result.
proof fn lemma_replacement_stands(s: Seq<char>, p: Seq<char>, with: Seq<char>)
    requires
        p.len() > 0,
        contains(s, p),
    ensures
        contains(replace(s, p, with), with),
    decreases s.len(),
{
    let i = choose|i: int| occurs_at(s, p, i);
    let out = replace(s, p, with);
    if starts_with(s, p) {
        assert(out.subrange(0, with.len() as int) =~= with);
        assert(occurs_at(out, with, 0));
    } else {
        let rest = s.drop_first();
        assert(rest.subrange(i - 1, i - 1 + p.len()) =~= s.subrange(i, i + p.len()));
        assert(occurs_at(rest, p, i - 1));
        lemma_replacement_stands(rest, p, with);
        let tail = replace(rest, p, with);
        let j = choose|j: int| occurs_at(tail, with, j);
        assert(out.subrange(j + 1, j + 1 + with.len()) =~= tail.subrange(j, j + with.len()));
        assert(occurs_at(out, with, j + 1));
    }
}

/// The URL that a provider is asked at names the domain.
pub proof fn law_url_names_the_domain(provider: JsonBdProvider, domain: Seq<char>)
    requires
        contains(provider.template(), "{domain}"@),
    ensures
        contains(provider.url_of(domain), domain),
{
    reveal_strlit("{domain}");
    lemma_replacement_stands(provider.template(), "{domain}"@, domain);
}

/// A reply of the server's own failure says nothing of the domain: it is an error.
pub proof fn law_server_failure_is_an_error(
    url: Seq<char>,
    code: u16,
    status: String,
    response: Option<BdResponse>,
)
    requires
        500 <= code < 600,
    ensures
        reply_lookup(url, BdReply::Answered { code, status, response }) is Err,
{
}

/// Unless the provider says that it failed, its yes or no to whether a domain is available
/// decides, whatever the rest of the document says.
pub proof fn law_available_counts_first(response: BdResponse)
    ensures
        response.success != Some(false) && response.available == Some(true) ==> response_lookup(
            response,
        ).status == DomainStatus::Available,
        response.success != Some(false) && response.available == Some(false) ==> response_lookup(
            response,
        ).status == DomainStatus::Taken,
{
}

/// A provider that says that it failed says nothing of the domain, and one that says
/// neither yes or no nor a status word does not either.
pub proof fn law_failures_leave_the_status_unknown(response: BdResponse)
    ensures
        response.success == Some(false) || (response.available is None && response.status is None)
            ==> response_lookup(response).status == DomainStatus::Unknown,
{
}

/// Only the members `success`, `available` and `status` decide on the status.
pub proof fn law_other_members_do_not_count(some: BdResponse, other: BdResponse)
    requires
        some.success == other.success,
        some.available == other.available,
        text_of(some.status) == text_of(other.status),
    ensures
        response_lookup(some).status == response_lookup(other).status,
{
}

/// Without a yes or no the status word decides: a word in which `available`, `free` or
/// `not found` stands tells of an available domain, any other in which `registered`,
/// `taken` or `active` stands tells of a taken one, and the rest tells nothing. Capitals
/// do not count.
pub proof fn law_status_words(response: BdResponse, before: Seq<char>, key: Seq<char>, behind: Seq<char>)
    requires
        response.success != Some(false),
        response.available is None,
        response.status matches Some(word) && lower(word@) == before + key + behind,
    ensures
        key == "available"@ || key == "free"@ || key == "not found"@ ==> response_lookup(
            response,
        ).status == DomainStatus::Available,
        key == "registered"@ || key == "taken"@ || key == "active"@ ==> response_lookup(
            response,
        ).status != DomainStatus::Unknown,
        response_lookup(response).status == DomainStatus::Available <==> (contains(
            before + key + behind,
            "available"@,
        ) || contains(before + key + behind, "free"@) || contains(
            before + key + behind,
            "not found"@,
        )),
        response_lookup(response).status == DomainStatus::Taken ==> (contains(
            before + key + behind,
            "registered"@,
        ) || contains(before + key + behind, "taken"@) || contains(
            before + key + behind,
            "active"@,
        )),
{
    law_contains(before + key + behind, key);
}

/// What else a document says is passed on as it is.
pub proof fn law_documents_are_passed_on(response: BdResponse)
    ensures
        response_lookup(response).message == text_of(response.message),
        response_lookup(response).raw_response == text_of(response.raw_response),
        response_lookup(response).source == text_of(response.source),
        response_lookup(response).registered == response.registered,
        response_lookup(response).reserved == response.reserved,
{
}

/// A status of success with a document has what the document says, a status of 404 means
/// available, and every other reply is an error.
pub proof fn law_replies(url: Seq<char>, code: u16, status: String, response: Option<BdResponse>)
    ensures
        ({
            let reply = BdReply::Answered { code, status, response };
            &&& reply_lookup(url, reply) is Ok <==> code == 404 || (200 <= code <= 299
                && response is Some)
            &&& code == 404 ==> reply_lookup(url, reply)->Ok_0 == BdLookupView::bare(
                DomainStatus::Available,
            )
            &&& 200 <= code <= 299 && response is Some ==> reply_lookup(url, reply)->Ok_0
                == response_lookup(response->0)
            &&& 200 <= code <= 299 && response is None ==> reply_lookup(url, reply)->Err_0
                == BdErrorView::Decode
            &&& (code < 200 || code > 299) && code != 404 ==> reply_lookup(url, reply)->Err_0
                == BdErrorView::Status(status@)
            &&& reply_lookup(url, BdReply::Unreachable) == Err::<BdLookupView, BdErrorView>(
                BdErrorView::Get(url),
            )
        }),
{
}

/// The URL is the template with the domain in the place of `{domain}`.
pub proof fn law_domain_takes_the_place(
    provider: JsonBdProvider,
    before: Seq<char>,
    behind: Seq<char>,
    domain: Seq<char>,
)
    requires
        provider.template() == before + "{domain}"@ + behind,
        !before.contains('{'),
        !behind.contains('{'),
    ensures
        provider.url_of(domain) == before + domain + behind,
{
    let p = "{domain}"@;
    let s = before + p + behind;
    reveal_strlit("{domain}");
    assert(p[0] == '{');
    assert forall|i: int| 0 <= i < before.len() implies !occurs_at(s, p, i) by {
        if occurs_at(s, p, i) {
            assert(s.subrange(i, i + p.len())[0] == s[i]);
            assert(before[i] == '{');
        }
    }
    law_replace(before, p, behind, domain);
    if contains(behind, p) {
        let i = choose|i: int| occurs_at(behind, p, i);
        assert(behind.subrange(i, i + p.len())[0] == behind[i]);
        assert(behind[i] == '{');
    }
    law_replace_nothing(behind, p, domain);
}

/// The template of the command line counts before that of the environment, and that
/// before the default.
pub proof fn law_chosen_endpoint(flag: Seq<char>, env: Seq<char>, other: Option<Seq<char>>)
    ensures
        chosen_endpoint(Some(flag), other) == flag,
        chosen_endpoint(None, Some(env)) == env,
        chosen_endpoint(None, None) == DEFAULT_BD_ENDPOINT@,
{
}

/// A result shows what a provider said: the status, the domain, the provider as the
/// server, and each note with its label.
pub proof fn law_surfaced(
    provider: Seq<char>,
    name: Seq<char>,
    tld: Seq<char>,
    bd: BdLookupView,
    latency: u64,
)
    ensures
        ({
            let r = provider_result(provider, name, tld, bd, latency);
            &&& r.domain == full_name(name, tld)
            &&& r.status == bd.status
            &&& r.source == "bd"@
            &&& r.latency_ms == latency
            &&& r.details matches Some(d)
            &&& d.server == Some(provider)
            &&& d.registrar is None && d.creation_date is None && d.expiry_date is None
            &&& d.registry is Some <==> bd.source is Some
            &&& bd.source matches Some(source) ==> d.registry == Some(
                "btcl via limda.net ("@ + source + ")"@,
            )
            &&& bd.message matches Some(text) ==> d.nameservers.contains("message: "@ + text)
            &&& bd.raw_response matches Some(text) ==> d.nameservers.contains("upstream: "@ + text)
            &&& bd.registered matches Some(b) ==> d.nameservers.contains(
                "registered: "@ + (if b { "true"@ } else { "false"@ }),
            )
            &&& bd.reserved matches Some(b) ==> d.nameservers.contains(
                "reserved: "@ + (if b { "true"@ } else { "false"@ }),
            )
            &&& d.nameservers.len() == there(bd.message is Some) + there(bd.raw_response is Some)
                + there(bd.registered is Some) + there(bd.reserved is Some)
        }),
{
    let list = provider_result(provider, name, tld, bd, latency).details->0.nameservers;
    let m = there(bd.message is Some);
    let r = there(bd.raw_response is Some);
    let g = there(bd.registered is Some);
    if let Some(text) = bd.message {
        assert(list[0] == "message: "@ + text);
    }
    if let Some(text) = bd.raw_response {
        assert(list[m] == "upstream: "@ + text);
    }
    if let Some(b) = bd.registered {
        assert(list[m + r] == "registered: "@ + (if b { "true"@ } else { "false"@ }));
    }
    if let Some(b) = bd.reserved {
        assert(list[m + r + g] == "reserved: "@ + (if b { "true"@ } else { "false"@ }));
    }
}

/// One for what is there, zero for what is not.
pub open spec fn there(b: bool) -> int {
    if b {
        1
    } else {
        0
    }
}

} // verus!
