//! Lookups over RDAP.
//!
//! A server is sent `GET {base}/domain/{name}.{tld}`.
//!
//! * Status 404, or 200 with an `errorCode` of 404, means that the domain is
//!   available.
//! * Status 200 with another document means that it is taken. The document tells
//!   the registrar, the dates and the nameservers.
//! * Anything else is an error, and the next server is asked.

use vstd::prelude::*;

use crate::bootstrap::{borrowed, rdap_servers_for, urls_for, RdapBootstrap};
use crate::json::{law_member, member, parse, Json, JsonView};
use crate::models::{
    domain_of, full_name, law_full_name, DetailsView, DomainStatus, LookupDetails, LookupResult,
    ResultView,
};
use crate::resolvers::domain_object::{
    domain_details, items_in, law_details, law_nameservers_are_listed, parse_domain_object,
    well_typed,
};
use crate::text::{chars_of, law_strip_end, lower, string_of, strip_end, strip_end_of, CharSet};

verus! {

// ---------- queries ----------

/// Why an RDAP lookup fails.
#[derive(Debug, Clone)]
pub enum RdapError {
    /// No server is known for this top-level domain.
    NoServer(String),
    /// The server at this URL gave no reply.
    Get(String),
    /// The document from this URL is no JSON.
    Decode(String),
    /// A reply with this status came from this URL.
    Status(String, String),
}

/// The view of [`RdapError`].
pub enum RdapErrorView {
    NoServer(Seq<char>),
    Get(Seq<char>),
    Decode(Seq<char>),
    Status(Seq<char>, Seq<char>),
}

impl View for RdapError {
    type V = RdapErrorView;

    open spec fn view(&self) -> RdapErrorView {
        match self {
            RdapError::NoServer(tld) => RdapErrorView::NoServer(tld@),
            RdapError::Get(url) => RdapErrorView::Get(url@),
            RdapError::Decode(url) => RdapErrorView::Decode(url@),
            RdapError::Status(status, url) => RdapErrorView::Status(status@, url@),
        }
    }
}

impl RdapError {
    /// The text that tells what went wrong.
    pub fn message(&self) -> (r: String)
        ensures
            r@ == match self@ {
                RdapErrorView::NoServer(tld) => "no RDAP server for TLD ."@ + tld,
                RdapErrorView::Get(url) => "RDAP GET "@ + url,
                RdapErrorView::Decode(url) => "decoding RDAP body "@ + url,
                RdapErrorView::Status(status, url) => "RDAP HTTP "@ + status + " for "@ + url,
            },
    {
        match self {
            RdapError::NoServer(tld) => {
                let mut s = "no RDAP server for TLD .".to_owned();
                s.append(tld.as_str());
                s
            },
            RdapError::Get(url) => {
                let mut s = "RDAP GET ".to_owned();
                s.append(url.as_str());
                s
            },
            RdapError::Decode(url) => {
                let mut s = "decoding RDAP body ".to_owned();
                s.append(url.as_str());
                s
            },
            RdapError::Status(status, url) => {
                let mut s = "RDAP HTTP ".to_owned();
                s.append(status.as_str());
                s.append(" for ");
                s.append(url.as_str());
                s
            },
        }
    }
}

/// The URL of a domain at a server. Slashes at the end of the server's base URL do
/// not count.
pub open spec fn domain_url(base: Seq<char>, name: Seq<char>, tld: Seq<char>) -> Seq<char> {
    strip_end(base, CharSet::Only('/')) + "/domain/"@ + full_name(
        name,
        tld,
    )
}

/// Builds the URL of a domain at a server.
pub fn build_url(base: &str, name: &str, tld: &str) -> (r: Result<String, RdapError>)
    ensures
        r matches Ok(url) && url@ == domain_url(base@, name@, tld@),
{
    let chars = chars_of(base);
    let mut url = string_of(strip_end_of(&chars, CharSet::Only('/')));
    url.append("/domain/");
    url.append(domain_of(name, tld).as_str());
    Ok(url)
}

/// What a request for a domain brings.
#[derive(Debug, Clone)]
pub enum RdapReply {
    /// No reply, for whatever reason.
    Unreachable,
    /// A reply: its status code, the code with its reason, and its body.
    Answered { code: u16, status: String, body: Vec<u8> },
}

/// The view of [`RdapReply`].
pub enum ReplyView {
    Unreachable,
    Answered { code: u16, status: Seq<char>, body: Seq<u8> },
}

impl View for RdapReply {
    type V = ReplyView;

    open spec fn view(&self) -> ReplyView {
        match self {
            RdapReply::Unreachable => ReplyView::Unreachable,
            RdapReply::Answered { code, status, body } => ReplyView::Answered {
                code: *code,
                status: status@,
                body: body@,
            },
        }
    }
}

/// What a server says of a domain.
#[derive(Debug, Clone)]
pub enum QueryOutcome {
    Available,
    Taken(LookupDetails),
}

/// The view of [`QueryOutcome`].
pub enum OutcomeView {
    Available,
    Taken(DetailsView),
}

impl View for QueryOutcome {
    type V = OutcomeView;

    open spec fn view(&self) -> OutcomeView {
        match self {
            QueryOutcome::Available => OutcomeView::Available,
            QueryOutcome::Taken(details) => OutcomeView::Taken(details@),
        }
    }
}

/// What a document says of a domain.
pub open spec fn document_outcome(document: JsonView) -> OutcomeView {
    if member(document, "errorCode"@) == Some(JsonView::Number(Some(404))) {
        OutcomeView::Available
    } else {
        OutcomeView::Taken(domain_details(document))
    }
}

/// What a reply from `url` says of a domain.
pub open spec fn reply_outcome(url: Seq<char>, reply: ReplyView) -> Result<
    OutcomeView,
    RdapErrorView,
> {
    match reply {
        ReplyView::Unreachable => Err(RdapErrorView::Get(url)),
        ReplyView::Answered { code, status, body } => if code == 404 {
            Ok(OutcomeView::Available)
        } else if code == 200 {
            match crate::json::document(body) {
                Some(document) => Ok(document_outcome(document)),
                None => Err(RdapErrorView::Decode(url)),
            }
        } else {
            Err(RdapErrorView::Status(status, url))
        },
    }
}

/// What a document says of a domain: some servers write the error into the document
/// of a reply that claims success.
pub fn judge_document(document: &Json) -> (r: QueryOutcome)
    ensures
        r@ == document_outcome(document@),
{
    if let Some(Json::Number(Some(code))) = document.member("errorCode") {
        if *code == 404 {
            return QueryOutcome::Available;
        }
    }
    QueryOutcome::Taken(parse_domain_object(document))
}

/// What a reply from `url` says of a domain.
pub fn judge_reply(url: &str, reply: &RdapReply) -> (r: Result<QueryOutcome, RdapError>)
    ensures
        match reply_outcome(url@, reply@) {
            Ok(outcome) => r matches Ok(v) && v@ == outcome,
            Err(error) => r matches Err(e) && e@ == error,
        },
{
    match reply {
        RdapReply::Unreachable => Err(RdapError::Get(url.to_owned())),
        RdapReply::Answered { code, status, body } => if *code == 404 {
            Ok(QueryOutcome::Available)
        } else if *code == 200 {
            match parse(body) {
                Some(document) => Ok(judge_document(&document)),
                None => Err(RdapError::Decode(url.to_owned())),
            }
        } else {
            Err(RdapError::Status(status.clone(), url.to_owned()))
        },
    }
}

// ---------- lookups ----------

/// Asks the RDAP servers of a domain's registry.
pub struct RdapResolver {
    pub bootstrap: RdapBootstrap,
    /// The time that a request may take, in milliseconds.
    pub timeout: u64,
}

/// A lookup that waits for the reply of one of the servers.
#[derive(Debug, Clone)]
pub struct RdapLookup {
    name: String,
    tld: String,
    servers: Vec<String>,
    next: usize,
}

/// The view of [`RdapLookup`].
#[verifier::ext_equal]
pub struct RdapLookupView {
    pub name: Seq<char>,
    pub tld: Seq<char>,
    /// The base URLs of all servers.
    pub servers: Seq<Seq<char>>,
    /// The number of the server whose reply is awaited.
    pub next: int,
}

impl View for RdapLookup {
    type V = RdapLookupView;

    closed spec fn view(&self) -> RdapLookupView {
        RdapLookupView {
            name: self.name@,
            tld: self.tld@,
            servers: self.servers.deep_view(),
            next: self.next as int,
        }
    }
}

impl RdapLookupView {
    /// One of the servers is awaited.
    pub open spec fn wf(self) -> bool {
        0 <= self.next < self.servers.len()
    }

    /// The URL that the awaited server was asked for.
    pub open spec fn url(self) -> Seq<char> {
        domain_url(self.servers[self.next], self.name, self.tld)
    }

    /// The result for an outcome from the awaited server.
    pub open spec fn result(self, outcome: OutcomeView, latency: u64) -> ResultView {
        ResultView {
            domain: full_name(self.name, self.tld),
            status: match outcome {
                OutcomeView::Available => DomainStatus::Available,
                OutcomeView::Taken(_) => DomainStatus::Taken,
            },
            source: "rdap"@,
            latency_ms: latency,
            details: match outcome {
                OutcomeView::Available => None,
                OutcomeView::Taken(details) => Some(
                    answered_by(details, self.servers[self.next]),
                ),
            },
        }
    }

    /// What follows a reply: the end, or the wait for the next server.
    pub open spec fn after(self, reply: ReplyView, latency: u64) -> ProgressView {
        match reply_outcome(self.url(), reply) {
            Ok(outcome) => ProgressView::Done(Ok(self.result(outcome, latency))),
            Err(error) => if self.next < self.servers.len() - 1 {
                ProgressView::Ask(RdapLookupView { next: self.next + 1, ..self })
            } else {
                ProgressView::Done(Err(error))
            },
        }
    }
}

/// The details with the server that gave them, where they do not name one.
pub open spec fn answered_by(details: DetailsView, server: Seq<char>) -> DetailsView {
    DetailsView {
        server: if details.server is None {
            Some(server)
        } else {
            details.server
        },
        registry: if details.registry is None {
            Some(server)
        } else {
            details.registry
        },
        ..details
    }
}

/// What a lookup does next.
pub enum RdapProgress {
    /// Ask the server that the lookup waits for.
    Ask(RdapLookup),
    /// End, with a result or with the error of the last server.
    Done(Result<LookupResult, RdapError>),
}

/// The view of [`RdapProgress`].
pub enum ProgressView {
    Ask(RdapLookupView),
    Done(Result<ResultView, RdapErrorView>),
}

impl View for RdapProgress {
    type V = ProgressView;

    open spec fn view(&self) -> ProgressView {
        match self {
            RdapProgress::Ask(lookup) => ProgressView::Ask(lookup@),
            RdapProgress::Done(Ok(result)) => ProgressView::Done(Ok(result@)),
            RdapProgress::Done(Err(error)) => ProgressView::Done(Err(error@)),
        }
    }
}

impl RdapResolver {
    /// A resolver that asks the servers of `bootstrap`.
    pub fn new(bootstrap: RdapBootstrap, timeout: u64) -> (r: Self)
        ensures
            r.bootstrap == bootstrap,
            r.timeout == timeout,
    {
        RdapResolver { bootstrap, timeout }
    }

    /// The name of the protocol.
    pub fn name(&self) -> (r: &'static str)
        ensures
            r@ == "rdap"@,
    {
        "rdap"
    }

    /// Begins a lookup: the servers for the top-level domain are to be asked in
    /// order.
    pub fn lookup(&self, name: &str, tld: &str) -> (r: Result<RdapLookup, RdapError>)
        ensures
            ({
                let servers = urls_for(
                    self.bootstrap.services.deep_view(),
                    lower(tld@),
                );
                if servers.len() == 0 {
                    r matches Err(e) && e@ == RdapErrorView::NoServer(tld@)
                } else {
                    r matches Ok(lookup) && lookup@.wf() && lookup@ == (RdapLookupView {
                        name: name@,
                        tld: tld@,
                        servers,
                        next: 0,
                    })
                }
            }),
    {
        let found = rdap_servers_for(&self.bootstrap, tld);
        if found.len() == 0 {
            return Err(RdapError::NoServer(tld.to_owned()));
        }
        let ghost all = borrowed(found@);
        let mut servers: Vec<String> = Vec::new();
        let mut i: usize = 0;
        proof {
            assert(servers.deep_view() =~= all.take(0));
        }
        while i < found.len()
            invariant
                i <= found@.len(),
                all == borrowed(found@),
                servers.deep_view() == all.take(i as int),
            decreases found@.len() - i,
        {
            let ghost was = servers.deep_view();
            servers.push(found[i].to_owned());
            proof {
                assert(servers.deep_view() =~= was.push(all[i as int]));
                assert(all.take(i + 1) =~= all.take(i as int).push(all[i as int]));
            }
            i += 1;
        }
        proof {
            assert(all.take(i as int) =~= all);
        }
        Ok(RdapLookup { name: name.to_owned(), tld: tld.to_owned(), servers, next: 0 })
    }
}

impl RdapLookup {
    /// The URL to get.
    pub fn url(&self) -> (r: String)
        requires
            self@.wf(),
        ensures
            r@ == self@.url(),
    {
        match build_url(self.servers[self.next].as_str(), self.name.as_str(), self.tld.as_str()) {
            Ok(url) => url,
            Err(_) => String::new(),
        }
    }

    /// Goes on with the reply to the request.
    pub fn advance(self, reply: &RdapReply, latency_ms: u64) -> (r: RdapProgress)
        requires
            self@.wf(),
        ensures
            r@ == self@.after(reply@, latency_ms),
            r matches RdapProgress::Ask(lookup) ==> lookup@.wf(),
    {
        let url = self.url();
        let base = self.servers[self.next].clone();
        match judge_reply(url.as_str(), reply) {
            Ok(outcome) => {
                let (status, details) = match outcome {
                    QueryOutcome::Available => (DomainStatus::Available, None),
                    QueryOutcome::Taken(details) => {
                        let mut details = details;
                        if details.server.is_none() {
                            details.server = Some(base.clone());
                        }
                        if details.registry.is_none() {
                            details.registry = Some(base);
                        }
                        (DomainStatus::Taken, Some(details))
                    },
                };
                RdapProgress::Done(
                    Ok(
                        LookupResult {
                            domain: domain_of(self.name.as_str(), self.tld.as_str()),
                            status,
                            source: "rdap".to_owned(),
                            latency_ms,
                            details,
                        },
                    ),
                )
            },
            Err(error) => if self.next < self.servers.len() - 1 {
                let mut lookup = self;
                lookup.next = lookup.next + 1;
                RdapProgress::Ask(lookup)
            } else {
                RdapProgress::Done(Err(error))
            },
        }
    }
}

// ---------- laws ----------

/// What a lookup has come to after some replies, each with its latency.
pub open spec fn run(lookup: RdapLookupView, replies: Seq<(ReplyView, u64)>) -> ProgressView
    decreases replies.len(),
{
    if replies.len() == 0 {
        ProgressView::Ask(lookup)
    } else {
        match lookup.after(replies[0].0, replies[0].1) {
            ProgressView::Ask(next) => run(next, replies.drop_first()),
            done => done,
        }
    }
}

/// The lookup as it waits for the server `k` places further on.
pub open spec fn skip_servers(lookup: RdapLookupView, k: int) -> RdapLookupView {
    RdapLookupView { next: lookup.next + k, ..lookup }
}

/// The servers are asked in order until one answers, and its answer is the result:
/// neither the errors before it nor the replies after it count.
pub proof fn law_first_answer_decides(
    lookup: RdapLookupView,
    replies: Seq<(ReplyView, u64)>,
    k: int,
)
    requires
        lookup.wf(),
        0 <= k < replies.len(),
        lookup.next + k < lookup.servers.len(),
        forall|i: int|
            0 <= i < k ==> reply_outcome(
                #[trigger] skip_servers(lookup, i).url(),
                replies[i].0,
            ) is Err,
        reply_outcome(skip_servers(lookup, k).url(), replies[k].0) is Ok,
    ensures
        run(lookup, replies) == ProgressView::Done(
            Ok(
                skip_servers(lookup, k).result(
                    reply_outcome(skip_servers(lookup, k).url(), replies[k].0)->Ok_0,
                    replies[k].1,
                ),
            ),
        ),
    decreases k,
{
    assert(skip_servers(lookup, 0) =~= lookup);
    if k > 0 {
        let next = skip_servers(lookup, 1);
        let rest = replies.drop_first();
        assert(reply_outcome(skip_servers(lookup, 0).url(), replies[0].0) is Err);
        assert forall|i: int| 0 <= i < k - 1 implies reply_outcome(
            #[trigger] skip_servers(next, i).url(),
            rest[i].0,
        ) is Err by {
            assert(skip_servers(next, i) =~= skip_servers(lookup, i + 1));
        }
        assert(skip_servers(next, k - 1) =~= skip_servers(lookup, k));
        law_first_answer_decides(next, rest, k - 1);
    }
}

/// Where every server fails, the lookup fails with the error of the last one.
pub proof fn law_last_error_remains(lookup: RdapLookupView, replies: Seq<(ReplyView, u64)>)
    requires
        lookup.wf(),
        replies.len() == lookup.servers.len() - lookup.next,
        forall|i: int|
            0 <= i < replies.len() ==> reply_outcome(
                #[trigger] skip_servers(lookup, i).url(),
                replies[i].0,
            ) is Err,
    ensures
        run(lookup, replies) == ProgressView::Done(
            Err(
                reply_outcome(
                    skip_servers(lookup, replies.len() - 1).url(),
                    replies.last().0,
                )->Err_0,
            ),
        ),
    decreases replies.len(),
{
    assert(skip_servers(lookup, 0) =~= lookup);
    assert(reply_outcome(skip_servers(lookup, 0).url(), replies[0].0) is Err);
    if replies.len() > 1 {
        let next = skip_servers(lookup, 1);
        let rest = replies.drop_first();
        assert forall|i: int| 0 <= i < rest.len() implies reply_outcome(
            #[trigger] skip_servers(next, i).url(),
            rest[i].0,
        ) is Err by {
            assert(skip_servers(next, i) =~= skip_servers(lookup, i + 1));
        }
        assert(skip_servers(next, rest.len() - 1) =~= skip_servers(lookup, replies.len() - 1));
        assert(rest.last() == replies.last());
        law_last_error_remains(next, rest);
    }
}

/// A reply means that the domain is available only where its status is 404, or where its
/// status is 200 and the member `errorCode` of its document is 404. Nothing else in a
/// document counts.
pub proof fn law_only_a_404_means_available(
    url: Seq<char>,
    code: u16,
    status: Seq<char>,
    body: Seq<u8>,
)
    ensures
        ({
            let outcome = reply_outcome(url, ReplyView::Answered { code, status, body });
            let read = crate::json::document(body);
            let says_404 = read matches Some(d) && member(d, "errorCode"@) == Some(
                JsonView::Number(Some(404)),
            );
            &&& outcome == Ok::<OutcomeView, RdapErrorView>(OutcomeView::Available) <==> code == 404
                || code == 200 && says_404
            &&& code == 200 && read is Some && !says_404 ==> outcome == Ok::<
                OutcomeView,
                RdapErrorView,
            >(OutcomeView::Taken(domain_details(read->0)))
        }),
{
}

/// A document in which no entry is an `errorCode` of 404 tells of a taken domain,
/// whatever its entries are. So does everything that is no object.
pub proof fn law_documents_tell_of_taken_domains(
    entries: Seq<(Seq<char>, JsonView)>,
    other: JsonView,
)
    requires
        forall|i: int|
            0 <= i < entries.len() ==> (#[trigger] entries[i]).0 != "errorCode"@ || entries[i].1
                != JsonView::Number(Some(404)),
        !(other is Object),
    ensures
        document_outcome(JsonView::Object(entries)) == OutcomeView::Taken(
            domain_details(JsonView::Object(entries)),
        ),
        document_outcome(other) == OutcomeView::Taken(domain_details(other)),
{
    lemma_member_is_an_entry(entries, "errorCode"@);
}

/// A member is one of the entries.
proof fn lemma_member_is_an_entry(entries: Seq<(Seq<char>, JsonView)>, name: Seq<char>)
    ensures
        member(JsonView::Object(entries), name) matches Some(value) ==> exists|i: int|
            0 <= i < entries.len() && (#[trigger] entries[i]).0 == name && entries[i].1 == value,
    decreases entries.len(),
{
    if entries.len() > 0 {
        let less = entries.drop_last();
        assert(entries[entries.len() - 1] == entries.last());
        if entries.last().0 != name {
            lemma_member_is_an_entry(less, name);
            if member(JsonView::Object(less), name) is Some {
                let value = member(JsonView::Object(less), name)->0;
                let i = choose|i: int|
                    0 <= i < less.len() && (#[trigger] less[i]).0 == name && less[i].1 == value;
                assert(entries[i] == less[i]);
            }
        }
    }
}

/// The entry of an error 404 makes any document tell of an available domain.
pub proof fn law_error_404_tells_of_an_available_domain(
    entries: Seq<(Seq<char>, JsonView)>,
    more: Seq<(Seq<char>, JsonView)>,
)
    requires
        forall|i: int| 0 <= i < more.len() ==> (#[trigger] more[i]).0 != "errorCode"@,
    ensures
        document_outcome(
            JsonView::Object(
                entries + seq![("errorCode"@, JsonView::Number(Some(404)))] + more,
            ),
        ) == OutcomeView::Available,
{
    let all = entries + seq![("errorCode"@, JsonView::Number(Some(404)))] + more;
    let at = entries.len() as int;
    assert forall|j: int| at < j < all.len() implies (#[trigger] all[j]).0 != all[at].0 by {
        assert(all[j] == more[j - at - 1]);
    }
    law_member(all, at);
}

/// The result for the document of a registered domain: it is taken, and the nameservers
/// of the document are listed, all of them and in their order.
pub proof fn law_registered_domains_are_taken(
    lookup: RdapLookupView,
    status: Seq<char>,
    body: Seq<u8>,
    latency: u64,
    names: Seq<Seq<char>>,
)
    requires
        lookup.wf(),
        crate::json::document(body) matches Some(d) && well_typed(d) && member(d, "errorCode"@)
            is None && items_in(member(d, "nameservers"@)).len() == names.len() && (forall|i: int|
            0 <= i < names.len() ==> member(
                items_in(member(d, "nameservers"@))[i],
                "ldhName"@,
            ) == Some(JsonView::Text(#[trigger] names[i]))),
    ensures
        ({
            let reply = ReplyView::Answered { code: 200, status, body };
            &&& lookup.after(reply, latency) matches ProgressView::Done(Ok(result))
            &&& result.status == DomainStatus::Taken
            &&& result.domain == full_name(lookup.name, lookup.tld)
            &&& result.source == "rdap"@
            &&& result.latency_ms == latency
            &&& result.details matches Some(details)
            &&& details.nameservers == names
            &&& details.server == Some(lookup.servers[lookup.next])
            &&& details.registry == Some(lookup.servers[lookup.next])
        }),
{
    let d = crate::json::document(body)->0;
    law_nameservers_are_listed(d, names);
    law_details(d);
}

/// The result for an available domain, which has no details.
pub proof fn law_unknown_domains_are_available(
    lookup: RdapLookupView,
    status: Seq<char>,
    body: Seq<u8>,
    latency: u64,
)
    ensures
        lookup.after(ReplyView::Answered { code: 404, status, body }, latency)
            == ProgressView::Done(
            Ok(
                ResultView {
                    domain: full_name(lookup.name, lookup.tld),
                    status: DomainStatus::Available,
                    source: "rdap"@,
                    latency_ms: latency,
                    details: None,
                },
            ),
        ),
{
}

/// No reply, a reply with another status and one whose document cannot be read are errors
/// that name the URL.
pub proof fn law_other_replies_are_errors(
    url: Seq<char>,
    code: u16,
    status: Seq<char>,
    body: Seq<u8>,
)
    ensures
        reply_outcome(url, ReplyView::Unreachable) == Err::<OutcomeView, RdapErrorView>(
            RdapErrorView::Get(url),
        ),
        code != 200 && code != 404 ==> reply_outcome(
            url,
            ReplyView::Answered { code, status, body },
        ) == Err::<OutcomeView, RdapErrorView>(RdapErrorView::Status(status, url)),
        code == 200 && crate::json::document(body) is None ==> reply_outcome(
            url,
            ReplyView::Answered { code, status, body },
        ) == Err::<OutcomeView, RdapErrorView>(RdapErrorView::Decode(url)),
{
}

/// The URL of a domain is the server's base URL, `/domain/` and the domain. It makes no
/// difference how many slashes the base URL ends in.
pub proof fn law_domain_url(base: Seq<char>, slashes: Seq<char>, name: Seq<char>, tld: Seq<char>)
    requires
        base.len() > 0 ==> base.last() != '/',
        forall|i: int| 0 <= i < slashes.len() ==> #[trigger] slashes[i] == '/',
    ensures
        domain_url(base + slashes, name, tld) == base + "/domain/"@ + name + seq!['.'] + tld,
{
    let s = base + slashes;
    let set = CharSet::Only('/');
    law_strip_end(s, set);
    let n = choose|n: int|
        0 <= n <= s.len() && strip_end(s, set) == #[trigger] s.take(n) && (forall|i: int|
            n <= i < s.len() ==> set.holds(#[trigger] s[i])) && (n > 0 ==> !set.holds(s[n - 1]));
    if n < base.len() {
        assert(set.holds(s[base.len() - 1]));
    }
    if n > base.len() {
        assert(s[n - 1] == slashes[n - 1 - base.len()]);
    }
    assert(s.take(n) =~= base);
    law_full_name(name, tld);
    assert(domain_url(s, name, tld) =~= base + "/domain/"@ + name + seq!['.'] + tld);
}

/// The result for a document that tells of a taken domain has the details of the document,
/// and the server that gave them as server and as registry.
pub proof fn law_taken_results(
    lookup: RdapLookupView,
    status: Seq<char>,
    body: Seq<u8>,
    latency: u64,
)
    requires
        crate::json::document(body) matches Some(d) && member(d, "errorCode"@) != Some(
            JsonView::Number(Some(404)),
        ),
    ensures
        ({
            let found = domain_details(crate::json::document(body)->0);
            let server = lookup.servers[lookup.next];
            &&& lookup.after(ReplyView::Answered { code: 200, status, body }, latency) matches
                ProgressView::Done(Ok(r))
            &&& r.domain == full_name(lookup.name, lookup.tld)
            &&& r.status == DomainStatus::Taken
            &&& r.source == "rdap"@
            &&& r.latency_ms == latency
            &&& r.details matches Some(d)
            &&& d.registrar == found.registrar
            &&& d.creation_date == found.creation_date
            &&& d.expiry_date == found.expiry_date
            &&& d.nameservers == found.nameservers
            &&& d.server == Some(server)
            &&& d.registry == Some(server)
        }),
{
    law_details(crate::json::document(body)->0);
}

/// A server is asked at its own URL, and after an error the next server is asked for the
/// same domain.
pub proof fn law_servers_are_asked_in_turn(
    lookup: RdapLookupView,
    base: Seq<char>,
    slashes: Seq<char>,
    reply: ReplyView,
    latency: u64,
)
    requires
        lookup.wf(),
        lookup.servers[lookup.next] == base + slashes,
        base.len() > 0 ==> base.last() != '/',
        forall|i: int| 0 <= i < slashes.len() ==> #[trigger] slashes[i] == '/',
    ensures
        lookup.url() == base + "/domain/"@ + lookup.name + seq!['.'] + lookup.tld,
        lookup.after(reply, latency) matches ProgressView::Ask(next) ==> {
            &&& next.next == lookup.next + 1
            &&& next.servers == lookup.servers
            &&& next.name == lookup.name
            &&& next.tld == lookup.tld
            &&& next.wf()
        },
        reply is Unreachable && lookup.next + 1 < lookup.servers.len() ==> lookup.after(
            reply,
            latency,
        ) is Ask,
{
    law_domain_url(base, slashes, lookup.name, lookup.tld);
}

} // verus!
