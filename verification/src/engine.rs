//! The order in which protocols are asked, and what comes of their answers.
//!
//! * A domain of the `.bd` zone is looked up with the `.bd` provider only.
//! * Any other domain is looked up over RDAP first, and over WHOIS where RDAP
//!   fails. Where both fail its status is unknown, and the last error stands among
//!   the details.
//! * With `force_whois`, RDAP is left out.
//!
//! Lookups run side by side; [`HostLimiter`] counts those that ask the same host,
//! and [`ResultSlots`] puts their results in the order of the pairs.

use vstd::hash_map::StringHashMap;
use vstd::prelude::*;

use crate::bootstrap::Bootstrap;
use crate::cli::{Cli, BD_ZONE_TLDS};
use crate::models::{
    domain_of, full_name, text_of, views, DetailsView, DomainStatus, LookupDetails, LookupResult,
    ResultView,
};
use crate::resolvers::bd::{chosen_endpoint, BdError, BdErrorView, BdResolver};
use crate::resolvers::rdap::RdapResolver;
use crate::resolvers::whois::WhoisResolver;
use crate::text::{
    chars_of, contains, ends_with, ends_with_text, is_space, law_trim, lower,
    lower_of, same_text, string_of, strip_start, trim, trim_of, CharSet,
};

verus! {

/// The number of lookups that run at once where `--concurrent` does not say.
pub const DEFAULT_CONCURRENCY: usize = 20;

/// The number of lookups that may ask one host at once.
pub const DEFAULT_PER_HOST_LIMIT: usize = 4;

/// The time that a lookup may take where `--timeout` does not say, in milliseconds.
pub const DEFAULT_TIMEOUT: u64 = 10_000;

/// How lookups are run.
#[derive(Debug, Clone)]
pub struct EngineConfig {
    pub concurrent: usize,
    /// The number of requests that one host may get at once. A run goes by
    /// [`DEFAULT_PER_HOST_LIMIT`] whatever stands here.
    pub per_host_limit: usize,
    /// In milliseconds.
    pub timeout: u64,
    pub force_whois: bool,
}

impl Default for EngineConfig {
    fn default() -> (r: Self)
        ensures
            r == (EngineConfig {
                concurrent: DEFAULT_CONCURRENCY,
                per_host_limit: DEFAULT_PER_HOST_LIMIT,
                timeout: DEFAULT_TIMEOUT,
                force_whois: false,
            }),
    {
        EngineConfig {
            concurrent: DEFAULT_CONCURRENCY,
            per_host_limit: DEFAULT_PER_HOST_LIMIT,
            timeout: DEFAULT_TIMEOUT,
            force_whois: false,
        }
    }
}

impl EngineConfig {
    /// The configuration that the command line asks for.
    pub fn from_cli(cli: &Cli) -> (r: Self)
        ensures
            r.concurrent == match cli.concurrent {
                Some(n) => n,
                None => DEFAULT_CONCURRENCY,
            },
            r.per_host_limit == DEFAULT_PER_HOST_LIMIT,
            r.timeout == match cli.timeout {
                Some(ms) => ms,
                None => DEFAULT_TIMEOUT,
            },
            r.force_whois == cli.whois,
    {
        EngineConfig {
            concurrent: match cli.concurrent {
                Some(n) => n,
                None => DEFAULT_CONCURRENCY,
            },
            per_host_limit: DEFAULT_PER_HOST_LIMIT,
            timeout: match cli.timeout {
                Some(ms) => ms,
                None => DEFAULT_TIMEOUT,
            },
            force_whois: cli.whois,
        }
    }
}

// ---------- stages ----------

/// Whether a top-level domain belongs to the `.bd` zone.
pub open spec fn in_bd_zone(tld: Seq<char>) -> bool {
    let t = lower(trim(tld));
    t == "bd"@ || ends_with(t, ".bd"@)
}

/// Whether a top-level domain belongs to the `.bd` zone: it is `bd` or ends in
/// `.bd`.
pub fn is_bd_zone_tld(tld: &str) -> (r: bool)
    ensures
        r == in_bd_zone(tld@),
{
    let t = lower_of(trim_of(&chars_of(tld)));
    same_text(string_of(&t).as_str(), "bd") || ends_with_text(&t, ".bd")
}

/// A protocol.
#[derive(Debug, Clone, Copy, PartialEq, Eq, Structural)]
pub enum Protocol {
    Rdap,
    Whois,
    Bd,
}

/// What a lookup waits for.
#[derive(Debug, Clone, Copy, PartialEq, Eq, Structural)]
pub enum Stage {
    /// The `.bd` provider, the only one that is asked.
    Bd,
    /// A WHOIS server, the only one that is asked.
    WhoisOnly,
    /// The RDAP servers, with WHOIS to follow where they fail.
    Rdap,
    /// A WHOIS server, after RDAP has failed.
    WhoisFallback,
}

impl Stage {
    /// The protocol of the stage.
    pub open spec fn spoken(self) -> Protocol {
        match self {
            Stage::Bd => Protocol::Bd,
            Stage::WhoisOnly => Protocol::Whois,
            Stage::Rdap => Protocol::Rdap,
            Stage::WhoisFallback => Protocol::Whois,
        }
    }

    /// The protocol of the stage.
    pub fn protocol(self) -> (r: Protocol)
        ensures
            r == self.spoken(),
    {
        match self {
            Stage::Bd => Protocol::Bd,
            Stage::WhoisOnly => Protocol::Whois,
            Stage::Rdap => Protocol::Rdap,
            Stage::WhoisFallback => Protocol::Whois,
        }
    }
}

/// The stage at which the lookup of a domain begins.
pub open spec fn first_stage(tld: Seq<char>, force_whois: bool) -> Stage {
    if in_bd_zone(tld) {
        Stage::Bd
    } else if force_whois {
        Stage::WhoisOnly
    } else {
        Stage::Rdap
    }
}

/// How the request of a stage ended.
#[derive(Debug, Clone)]
pub enum Attempt {
    /// With a result.
    Found(LookupResult),
    /// With an error, of which this is the text.
    Failed(String),
    /// It took too long.
    TimedOut,
    /// The user gave up.
    Cancelled,
}

/// The view of [`Attempt`].
pub enum AttemptView {
    Found(ResultView),
    Failed(Seq<char>),
    TimedOut,
    Cancelled,
}

impl View for Attempt {
    type V = AttemptView;

    open spec fn view(&self) -> AttemptView {
        match self {
            Attempt::Found(result) => AttemptView::Found(result@),
            Attempt::Failed(error) => AttemptView::Failed(error@),
            Attempt::TimedOut => AttemptView::TimedOut,
            Attempt::Cancelled => AttemptView::Cancelled,
        }
    }
}

/// A result without an answer. The reason stands in the place of the server.
pub open spec fn unanswered(
    domain: Seq<char>,
    source: Seq<char>,
    latency: u64,
    reason: Seq<char>,
) -> ResultView {
    ResultView {
        domain,
        status: DomainStatus::Unknown,
        source,
        latency_ms: latency,
        details: Some(DetailsView::only_server(reason)),
    }
}

/// The result of a lookup whose last request ended so. The fallback source is named where
/// the request took too long.
pub open spec fn final_result(
    attempt: AttemptView,
    latency: u64,
    source: Seq<char>,
    domain: Seq<char>,
    fallback_source: Seq<char>,
) -> ResultView {
    match attempt {
        AttemptView::Found(result) => ResultView { latency_ms: latency, ..result },
        AttemptView::Failed(error) => unanswered(domain, source, latency, "err: "@ + error),
        AttemptView::TimedOut => unanswered(domain, fallback_source, latency, "timeout"@),
        AttemptView::Cancelled => unanswered(domain, source, latency, "err: cancelled"@),
    }
}

/// A result without an answer.
fn no_answer(domain: &str, source: &str, latency_ms: u64, reason: String) -> (r: LookupResult)
    ensures
        r@ == unanswered(domain@, source@, latency_ms, reason@),
{
    LookupResult {
        domain: domain.to_owned(),
        status: DomainStatus::Unknown,
        source: source.to_owned(),
        latency_ms,
        details: Some(LookupDetails::from_server(reason)),
    }
}

/// The result of a lookup whose last request ended so. The latency is that of the
/// whole lookup; the fallback source is named where the request took too long.
pub fn finalize(
    attempt: Attempt,
    latency_ms: u64,
    source: &str,
    domain: &str,
    fallback_source: &str,
) -> (r: LookupResult)
    ensures
        r@ == final_result(attempt@, latency_ms, source@, domain@, fallback_source@),
{
    match attempt {
        Attempt::Found(result) => {
            let mut result = result;
            result.latency_ms = latency_ms;
            result
        },
        Attempt::Failed(error) => {
            let mut reason = "err: ".to_owned();
            reason.append(error.as_str());
            no_answer(domain, source, latency_ms, reason)
        },
        Attempt::TimedOut => no_answer(
            domain,
            fallback_source,
            latency_ms,
            "timeout".to_owned(),
        ),
        Attempt::Cancelled => no_answer(domain, source, latency_ms, "err: cancelled".to_owned()),
    }
}

// ---------- lookups ----------

/// The lookup of one pair, waiting for the request of its stage.
#[derive(Debug, Clone)]
pub struct Lookup {
    pub name: String,
    pub tld: String,
    pub stage: Stage,
}

/// The view of [`Lookup`].
#[verifier::ext_equal]
pub struct LookupView {
    pub name: Seq<char>,
    pub tld: Seq<char>,
    pub stage: Stage,
}

impl View for Lookup {
    type V = LookupView;

    open spec fn view(&self) -> LookupView {
        LookupView { name: self.name@, tld: self.tld@, stage: self.stage }
    }
}

/// What a lookup does next.
pub enum Progress {
    /// Make the request of the lookup's stage.
    Ask(Lookup),
    /// End.
    Done(LookupResult),
}

/// The view of [`Progress`].
pub enum ProgressView {
    Ask(LookupView),
    Done(ResultView),
}

impl View for Progress {
    type V = ProgressView;

    open spec fn view(&self) -> ProgressView {
        match self {
            Progress::Ask(lookup) => ProgressView::Ask(lookup@),
            Progress::Done(result) => ProgressView::Done(result@),
        }
    }
}

impl LookupView {
    /// The domain that is looked up.
    pub open spec fn domain(self) -> Seq<char> {
        full_name(self.name, self.tld)
    }

    /// The host under which the request of the stage is counted, if it is counted.
    pub open spec fn host(self) -> Option<Seq<char>> {
        match self.stage {
            Stage::Bd => None,
            Stage::WhoisOnly => Some(self.tld),
            Stage::Rdap => Some("rdap:"@ + self.tld),
            Stage::WhoisFallback => Some("whois:"@ + self.tld),
        }
    }

    /// What follows the end of a request. The latency is that of the whole lookup
    /// so far.
    pub open spec fn after(self, attempt: AttemptView, latency: u64) -> ProgressView {
        match self.stage {
            Stage::Bd => ProgressView::Done(
                final_result(attempt, latency, "bd"@, self.domain(), "bd"@),
            ),
            Stage::WhoisOnly => ProgressView::Done(
                final_result(attempt, latency, "whois"@, self.domain(), "whois"@),
            ),
            Stage::WhoisFallback => ProgressView::Done(
                final_result(attempt, latency, "whois"@, self.domain(), "whois"@),
            ),
            Stage::Rdap => if attempt is Failed || attempt is TimedOut {
                ProgressView::Ask(LookupView { stage: Stage::WhoisFallback, ..self })
            } else {
                ProgressView::Done(
                    final_result(attempt, latency, "rdap"@, self.domain(), "rdap"@),
                )
            },
        }
    }
}

impl Lookup {
    /// Begins the lookup of a pair.
    pub fn begin(name: &str, tld: &str, force_whois: bool) -> (r: Self)
        ensures
            r@ == (LookupView { name: name@, tld: tld@, stage: first_stage(tld@, force_whois) }),
    {
        let stage = if is_bd_zone_tld(tld) {
            Stage::Bd
        } else if force_whois {
            Stage::WhoisOnly
        } else {
            Stage::Rdap
        };
        Lookup { name: name.to_owned(), tld: tld.to_owned(), stage }
    }

    /// The lookup once more.
    pub fn copy(&self) -> (r: Self)
        ensures
            r@ == self@,
    {
        Lookup { name: self.name.clone(), tld: self.tld.clone(), stage: self.stage }
    }

    /// The host under which the request of the stage is counted, if it is counted.
    pub fn host(&self) -> (r: Option<String>)
        ensures
            text_of(r) == self@.host(),
    {
        match self.stage {
            Stage::Bd => None,
            Stage::WhoisOnly => Some(self.tld.clone()),
            Stage::Rdap => {
                let mut host = "rdap:".to_owned();
                host.append(self.tld.as_str());
                Some(host)
            },
            Stage::WhoisFallback => {
                let mut host = "whois:".to_owned();
                host.append(self.tld.as_str());
                Some(host)
            },
        }
    }

    /// Goes on when the request of the stage has ended.
    pub fn advance(self, attempt: Attempt, latency_ms: u64) -> (r: Progress)
        ensures
            r@ == self@.after(attempt@, latency_ms),
    {
        let domain = domain_of(self.name.as_str(), self.tld.as_str());
        match self.stage {
            Stage::Bd => Progress::Done(
                finalize(attempt, latency_ms, "bd", domain.as_str(), "bd"),
            ),
            Stage::WhoisOnly => Progress::Done(
                finalize(attempt, latency_ms, "whois", domain.as_str(), "whois"),
            ),
            Stage::WhoisFallback => Progress::Done(
                finalize(attempt, latency_ms, "whois", domain.as_str(), "whois"),
            ),
            Stage::Rdap => match attempt {
                Attempt::Failed(_) => Progress::Ask(
                    Lookup { name: self.name, tld: self.tld, stage: Stage::WhoisFallback },
                ),
                Attempt::TimedOut => Progress::Ask(
                    Lookup { name: self.name, tld: self.tld, stage: Stage::WhoisFallback },
                ),
                attempt => Progress::Done(
                    finalize(attempt, latency_ms, "rdap", domain.as_str(), "rdap"),
                ),
            },
        }
    }
}

// ---------- resolvers ----------

/// The resolvers of all protocols.
pub struct ResolverChain {
    pub rdap: RdapResolver,
    pub whois: WhoisResolver,
    pub bd: BdResolver,
}

impl ResolverChain {
    /// The resolvers for a top-level domain. They are the same for every one: which
    /// of them are asked is decided by the stages of a lookup. `endpoint` and `env`
    /// are the URL templates for the `.bd` zone of the command line and of the
    /// environment.
    pub fn for_tld(
        bootstrap: Bootstrap,
        _tld: &str,
        timeout: u64,
        endpoint: Option<String>,
        env: Option<String>,
    ) -> (r: Result<Self, BdError>)
        ensures
            ({
                let template = chosen_endpoint(
                    text_of(endpoint),
                    text_of(env),
                );
                if contains(template, "{domain}"@) {
                    &&& r matches Ok(chain)
                    &&& chain.rdap.bootstrap == bootstrap.rdap
                    &&& chain.rdap.timeout == timeout
                    &&& chain.whois.bootstrap == bootstrap.whois
                    &&& chain.whois.timeout == timeout
                    &&& chain.bd.provider.template() == template
                    &&& chain.bd.provider.limit() == timeout
                    &&& chain.bd.timeout == timeout
                } else {
                    r matches Err(e) && e@ == BdErrorView::NoPlaceholder
                }
            }),
    {
        match BdResolver::new(endpoint, env, timeout) {
            Ok(bd) => Ok(
                ResolverChain {
                    rdap: RdapResolver::new(bootstrap.rdap, timeout),
                    whois: WhoisResolver::new(bootstrap.whois, timeout),
                    bd,
                },
            ),
            Err(e) => Err(e),
        }
    }
}

/// Stands in for every resolver where there is no chain of them.
pub struct StubErrResolver;

impl StubErrResolver {
    /// The name of the protocol.
    pub fn name(&self) -> (r: &'static str)
        ensures
            r@ == "err"@,
    {
        "err"
    }

    /// Fails.
    pub fn lookup(&self, _name: &str, _tld: &str) -> (r: Attempt)
        ensures
            r@ == AttemptView::Failed("resolver unavailable"@),
    {
        Attempt::Failed("resolver unavailable".to_owned())
    }
}

// ---------- results ----------

/// The results of the pairs, as far as they are there.
pub struct ResultSlots {
    slots: Vec<Option<LookupResult>>,
}

/// The view of an optional result.
pub open spec fn result_of(o: Option<LookupResult>) -> Option<ResultView> {
    match o {
        Some(r) => Some(r@),
        None => None,
    }
}

impl View for ResultSlots {
    type V = Seq<Option<ResultView>>;

    closed spec fn view(&self) -> Seq<Option<ResultView>> {
        self.slots@.map_values(|o: Option<LookupResult>| result_of(o))
    }
}

/// The result of a pair whose lookup did not come to its end.
pub open spec fn abandoned(pair: (Seq<char>, Seq<char>)) -> ResultView {
    unanswered(full_name(pair.0, pair.1), "engine"@, 0, "cancelled"@)
}

/// The results of the pairs, in the order of the pairs.
pub open spec fn all_results(
    slots: Seq<Option<ResultView>>,
    pairs: Seq<(Seq<char>, Seq<char>)>,
) -> Seq<ResultView> {
    Seq::new(
        pairs.len(),
        |i: int|
            match slots[i] {
                Some(result) => result,
                None => abandoned(pairs[i]),
            },
    )
}

impl ResultSlots {
    /// A place for each of `n` results.
    pub fn new(n: usize) -> (r: Self)
        ensures
            r@ == Seq::new(n as nat, |i: int| None::<ResultView>),
    {
        let mut slots: Vec<Option<LookupResult>> = Vec::new();
        let mut i: usize = 0;
        while i < n
            invariant
                i <= n,
                slots@.len() == i,
                forall|k: int| 0 <= k < i ==> #[trigger] slots@[k] is None,
            decreases n - i,
        {
            slots.push(None);
            i += 1;
        }
        let r = ResultSlots { slots };
        proof {
            assert(r@ =~= Seq::new(n as nat, |i: int| None::<ResultView>));
        }
        r
    }

    /// Puts the result of pair number `i` in its place.
    pub fn put(&mut self, i: usize, result: LookupResult)
        requires
            i < old(self)@.len(),
        ensures
            final(self)@ == old(self)@.update(i as int, Some(result@)),
    {
        let ghost was = self@;
        self.slots.set(i, Some(result));
        proof {
            assert(self@ =~= was.update(i as int, Some(result@)));
        }
    }

    /// One result for each pair, in the order of the pairs.
    pub fn into_results(self, pairs: &[(String, String)]) -> (r: Vec<LookupResult>)
        requires
            self@.len() == pairs@.len(),
        ensures
            views(r@) == all_results(self@, pairs.deep_view()),
    {
        let ghost all = all_results(self@, pairs.deep_view());
        let ghost filled = self@;
        let mut slots = self.slots;
        let mut out: Vec<LookupResult> = Vec::new();
        let mut i: usize = 0;
        proof {
            assert(views(out@) =~= all.take(0));
        }
        while i < pairs.len()
            invariant
                i <= pairs@.len(),
                all == all_results(filled, pairs.deep_view()),
                filled.len() == pairs@.len(),
                slots@.len() == pairs@.len(),
                forall|k: int|
                    i <= k < pairs@.len() ==> result_of(#[trigger] slots@[k]) == filled[k],
                views(out@) == all.take(i as int),
            decreases pairs@.len() - i,
        {
            let ghost was = views(out@);
            proof {
                assert(result_of(slots@[i as int]) == filled[i as int]);
            }
            let mut slot: Option<LookupResult> = None;
            std::mem::swap(&mut slots[i], &mut slot);
            let result = match slot {
                Some(result) => result,
                None => no_answer(
                    domain_of(pairs[i].0.as_str(), pairs[i].1.as_str()).as_str(),
                    "engine",
                    0,
                    "cancelled".to_owned(),
                ),
            };
            out.push(result);
            proof {
                assert(views(out@) =~= was.push(all[i as int]));
                assert(all.take(i + 1) =~= all.take(i as int).push(all[i as int]));
            }
            i += 1;
        }
        proof {
            assert(all.take(i as int) =~= all);
        }
        out
    }
}

// ---------- hosts ----------

/// Counts the requests that are under way at each host.
pub struct HostLimiter {
    counts: StringHashMap<usize>,
}

impl View for HostLimiter {
    type V = Map<Seq<char>, usize>;

    closed spec fn view(&self) -> Map<Seq<char>, usize> {
        self.counts@
    }
}

/// The number of requests that are under way at a host.
pub open spec fn count(counts: Map<Seq<char>, usize>, host: Seq<char>) -> usize {
    if counts.contains_key(host) {
        counts[host]
    } else {
        0
    }
}

/// The counts when a request at a host has begun.
pub open spec fn acquired(counts: Map<Seq<char>, usize>, host: Seq<char>) -> Map<
    Seq<char>,
    usize,
> {
    counts.insert(host, (count(counts, host) + 1) as usize)
}

/// The counts when a request at a host has ended. Hosts without requests are
/// forgotten.
pub open spec fn released(counts: Map<Seq<char>, usize>, host: Seq<char>) -> Map<
    Seq<char>,
    usize,
> {
    if count(counts, host) <= 1 {
        counts.remove(host)
    } else {
        counts.insert(host, (counts[host] - 1) as usize)
    }
}

impl HostLimiter {
    /// Only hosts with requests are remembered.
    pub open spec fn wf(&self) -> bool {
        forall|host: Seq<char>| #[trigger] self@.contains_key(host) ==> self@[host] > 0
    }

    /// No request is under way.
    pub fn new() -> (r: Self)
        ensures
            r@ == Map::<Seq<char>, usize>::empty(),
            r.wf(),
    {
        HostLimiter { counts: StringHashMap::new() }
    }

    /// Whether fewer than `max` requests are under way at a host.
    pub fn has_room(&self, host: &str, max: usize) -> (r: bool)
        ensures
            r == (count(self@, host@) < max),
    {
        let n: usize = match self.counts.get(host) {
            Some(n) => *n,
            None => 0,
        };
        n < max
    }

    /// Begins a request at a host, unless `max` of them are under way there. Says
    /// whether it has begun.
    pub fn try_acquire(&mut self, host: &str, max: usize) -> (r: bool)
        ensures
            r == (count(old(self)@, host@) < max),
            final(self)@ == if r {
                acquired(old(self)@, host@)
            } else {
                old(self)@
            },
            old(self).wf() ==> final(self).wf(),
            r ==> count(final(self)@, host@) <= max,
    {
        let ghost was = self@;
        let n: usize = match self.counts.get(host) {
            Some(n) => *n,
            None => 0,
        };
        if n < max {
            self.counts.insert(host.to_owned(), n + 1);
            proof {
                assert forall|h: Seq<char>|
                    old(self).wf() && #[trigger] self@.contains_key(h) implies self@[h] > 0 by {
                    if h != host@ {
                        assert(was.contains_key(h));
                    }
                }
            }
            true
        } else {
            false
        }
    }

    /// Ends a request at a host.
    pub fn release(&mut self, host: &str)
        ensures
            final(self)@ == released(old(self)@, host@),
            old(self).wf() ==> final(self).wf(),
    {
        let ghost was = self@;
        let n: usize = match self.counts.get(host) {
            Some(n) => *n,
            None => 0,
        };
        if n <= 1 {
            self.counts.remove(host);
        } else {
            self.counts.insert(host.to_owned(), n - 1);
        }
        proof {
            assert forall|h: Seq<char>|
                old(self).wf() && #[trigger] self@.contains_key(h) implies self@[h] > 0 by {
                if h != host@ {
                    assert(was.contains_key(h));
                }
            }
        }
    }
}

// ---------- laws ----------

/// A domain of the `.bd` zone is looked up with the provider only, whatever the
/// configuration and whatever the provider does.
pub proof fn law_bd_zone_asks_the_provider_only(
    name: Seq<char>,
    tld: Seq<char>,
    force_whois: bool,
    attempt: AttemptView,
    latency: u64,
)
    requires
        in_bd_zone(tld),
    ensures
        first_stage(tld, force_whois).spoken() == Protocol::Bd,
        (LookupView { name, tld, stage: first_stage(tld, force_whois) }).after(
            attempt,
            latency,
        ) is Done,
{
}

/// A lookup with `force_whois` never comes to ask RDAP, and ends with its one
/// request.
pub proof fn law_forced_whois_leaves_rdap_out(
    name: Seq<char>,
    tld: Seq<char>,
    attempt: AttemptView,
    latency: u64,
)
    ensures
        first_stage(tld, true).spoken() != Protocol::Rdap,
        (LookupView { name, tld, stage: first_stage(tld, true) }).after(attempt, latency) is Done,
{
}

/// WHOIS follows RDAP where RDAP fails, and only there. It is asked for the same
/// domain, and then the lookup ends.
pub proof fn law_whois_follows_failed_rdap(
    lookup: LookupView,
    attempt: AttemptView,
    latency: u64,
    then: AttemptView,
    later: u64,
)
    ensures
        lookup.after(attempt, latency) is Ask <==> lookup.stage == Stage::Rdap && (
        attempt is Failed || attempt is TimedOut),
        lookup.after(attempt, latency) matches ProgressView::Ask(next) ==> {
            &&& next.stage.spoken() == Protocol::Whois
            &&& next.domain() == lookup.domain()
            &&& next.after(then, later) is Done
        },
{
}

/// Where RDAP and then WHOIS fail, the status is unknown and the details tell the
/// last error.
pub proof fn law_last_error_is_told(
    name: Seq<char>,
    tld: Seq<char>,
    first: Seq<char>,
    last: Seq<char>,
    latency: u64,
    total: u64,
)
    requires
        !in_bd_zone(tld),
    ensures
        ({
            let lookup = LookupView { name, tld, stage: first_stage(tld, false) };
            &&& lookup.after(AttemptView::Failed(first), latency) matches ProgressView::Ask(next)
            &&& next.after(AttemptView::Failed(last), total) == ProgressView::Done(
                unanswered(
                    full_name(name, tld),
                    "whois"@,
                    total,
                    "err: "@ + last,
                ),
            )
        }),
{
}

/// What a protocol finds is passed on, with the latency of the whole lookup.
pub proof fn law_findings_are_passed_on(lookup: LookupView, found: ResultView, latency: u64)
    ensures
        lookup.after(AttemptView::Found(found), latency) == ProgressView::Done(
            ResultView { latency_ms: latency, ..found },
        ),
{
}

/// There is one result for each pair, in the order of the pairs, and a result that
/// was put in its place stays what it is.
pub proof fn law_results_keep_the_order(
    slots: Seq<Option<ResultView>>,
    pairs: Seq<(Seq<char>, Seq<char>)>,
    i: int,
)
    requires
        slots.len() == pairs.len(),
        0 <= i < pairs.len(),
    ensures
        all_results(slots, pairs).len() == pairs.len(),
        slots[i] matches Some(result) ==> all_results(slots, pairs)[i] == result,
        slots[i] is None ==> all_results(slots, pairs)[i].domain == full_name(
            pairs[i].0,
            pairs[i].1,
        ),
{
}

/// The end of a request undoes its beginning.
pub proof fn law_release_undoes_acquire(counts: Map<Seq<char>, usize>, host: Seq<char>)
    requires
        forall|h: Seq<char>| #[trigger] counts.contains_key(h) ==> counts[h] > 0,
        count(counts, host) < usize::MAX,
    ensures
        released(acquired(counts, host), host) == counts,
{
    assert(released(acquired(counts, host), host) =~= counts);
}

/// Requests at one host do not count at another.
pub proof fn law_hosts_are_counted_apart(
    counts: Map<Seq<char>, usize>,
    host: Seq<char>,
    other: Seq<char>,
)
    requires
        host != other,
    ensures
        count(acquired(counts, host), other) == count(counts, other),
        count(released(counts, host), other) == count(counts, other),
{
}

/// A lower-case text of letters and dots that ends in `.bd`, or is `bd`, is in the
/// zone.
proof fn lemma_bd_zone(t: Seq<char>)
    requires
        t == "bd"@ || ends_with(t, ".bd"@),
        forall|i: int| 0 <= i < t.len() ==> #[trigger] t[i] == '.' || 'a' <= t[i] <= 'z',
    ensures
        in_bd_zone(t),
{
    reveal_strlit("bd");
    reveal_strlit(".bd");
    assert(t.len() > 0);
    assert(!is_space(t[0]));
    assert(strip_start(t, CharSet::Space) == t);
    assert(!is_space(t.last()));
    assert(trim(t) == t);
    assert(lower(t) =~= t);
}

/// Each of the zones that the group `bd` stands for is looked up with the provider.
pub proof fn law_bd_group_is_in_the_zone(i: int)
    requires
        0 <= i < BD_ZONE_TLDS@.len(),
    ensures
        in_bd_zone(BD_ZONE_TLDS@[i]@),
{
    reveal_strlit("bd");
    reveal_strlit(".bd");
    reveal_strlit("com.bd");
    reveal_strlit("net.bd");
    reveal_strlit("org.bd");
    reveal_strlit("edu.bd");
    reveal_strlit("gov.bd");
    reveal_strlit("ac.bd");
    reveal_strlit("co.bd");
    reveal_strlit("info.bd");
    reveal_strlit("name.bd");
    let t = BD_ZONE_TLDS@[i]@;
    if t != "bd"@ {
        assert(t.subrange(t.len() - 3, t.len() as int) =~= ".bd"@);
    }
    lemma_bd_zone(t);
}

/// A lookup that ends without an answer leaves the status unknown. Its result names the
/// domain and the protocol that was asked last, and tells why there is no answer.
pub proof fn law_no_answer_is_told(lookup: LookupView, attempt: AttemptView, latency: u64)
    requires
        !(attempt is Found),
    ensures
        lookup.after(attempt, latency) matches ProgressView::Done(r) ==> {
            &&& r.status == DomainStatus::Unknown
            &&& r.domain == full_name(lookup.name, lookup.tld)
            &&& r.latency_ms == latency
            &&& r.source == match lookup.stage {
                Stage::Bd => "bd"@,
                Stage::Rdap => "rdap"@,
                Stage::WhoisOnly => "whois"@,
                Stage::WhoisFallback => "whois"@,
            }
            &&& r.details matches Some(d)
            &&& attempt matches AttemptView::Failed(error) ==> d.server == Some("err: "@ + error)
            &&& attempt is TimedOut ==> d.server == Some("timeout"@)
            &&& attempt is Cancelled ==> d.server == Some("err: cancelled"@)
            &&& d.registrar is None && d.creation_date is None && d.expiry_date is None
            &&& d.registry is None && d.nameservers.len() == 0
        },
{
}

/// A pair whose lookup did not come to its end has a result that says so.
pub proof fn law_abandoned_pairs(name: Seq<char>, tld: Seq<char>)
    ensures
        ({
            let r = abandoned((name, tld));
            &&& r.domain == full_name(name, tld)
            &&& r.status == DomainStatus::Unknown
            &&& r.source == "engine"@
            &&& r.latency_ms == 0
            &&& r.details matches Some(d)
            &&& d.server == Some("cancelled"@)
        }),
{
}

/// The zone of `.bd` holds `bd` and whatever ends in `.bd`, and nothing else. Capitals and
/// white space around a top-level domain do not count.
pub proof fn law_bd_zone(before: Seq<char>, tld: Seq<char>, behind: Seq<char>)
    requires
        forall|i: int| 0 <= i < before.len() ==> is_space(#[trigger] before[i]),
        forall|i: int| 0 <= i < behind.len() ==> is_space(#[trigger] behind[i]),
        tld.len() > 0 ==> !is_space(tld[0]) && !is_space(tld.last()),
    ensures
        in_bd_zone(before + tld + behind) <==> lower(tld) == seq!['b', 'd'] || (lower(tld).len() >= 3
            && lower(tld).skip(lower(tld).len() - 3) == seq!['.', 'b', 'd']),
{
    law_trim(before, tld, behind);
    reveal_strlit("bd");
    reveal_strlit(".bd");
    assert("bd"@ =~= seq!['b', 'd']);
    assert(".bd"@ =~= seq!['.', 'b', 'd']);
    let t = lower(tld);
    if t.len() >= 3 {
        assert(t.skip(t.len() - 3) =~= t.subrange(t.len() - 3, t.len() as int));
    }
}

/// A lookup begins with the provider in the zone of `.bd`, else with WHOIS where that is
/// forced, else with RDAP.
pub proof fn law_first_stage(tld: Seq<char>, force_whois: bool)
    ensures
        first_stage(tld, force_whois).spoken() == Protocol::Bd <==> in_bd_zone(tld),
        first_stage(tld, force_whois).spoken() == Protocol::Whois <==> !in_bd_zone(tld)
            && force_whois,
        first_stage(tld, force_whois).spoken() == Protocol::Rdap <==> !in_bd_zone(tld)
            && !force_whois,
        first_stage(tld, force_whois) != Stage::WhoisFallback,
{
}

/// Requests are counted by what is asked and by the top-level domain; those to the
/// provider are not counted.
pub proof fn law_counted_hosts(some: LookupView, other: LookupView)
    ensures
        some.host() is None <==> some.stage == Stage::Bd,
        some.stage == other.stage && some.host() is Some ==> (some.host() == other.host()
            <==> some.tld == other.tld),
        some.stage == Stage::Rdap && other.stage == Stage::WhoisFallback ==> some.host()
            != other.host(),
{
    reveal_strlit("rdap:");
    reveal_strlit("whois:");
    if some.stage == other.stage && some.host() is Some && some.host() == other.host() {
        let n: int = match some.stage {
            Stage::Rdap => 5,
            Stage::WhoisFallback => 6,
            _ => 0,
        };
        assert(some.tld =~= some.host()->0.skip(n));
        assert(other.tld =~= other.host()->0.skip(n));
    }
    if some.stage == Stage::Rdap && other.stage == Stage::WhoisFallback {
        assert(some.host()->0[0] == 'r');
        assert(other.host()->0[0] == 'w');
    }
}

/// The protocol that a stage speaks.
pub proof fn law_protocols()
    ensures
        Stage::Bd.spoken() == Protocol::Bd,
        Stage::Rdap.spoken() == Protocol::Rdap,
        Stage::WhoisOnly.spoken() == Protocol::Whois,
        Stage::WhoisFallback.spoken() == Protocol::Whois,
{
}

/// A request that begins counts for one, and so does one that ends.
pub proof fn law_requests_are_counted(counts: Map<Seq<char>, usize>, host: Seq<char>)
    ensures
        count(counts, host) < usize::MAX ==> count(acquired(counts, host), host) == count(
            counts,
            host,
        ) + 1,
        count(counts, host) > 0 ==> count(released(counts, host), host) == count(counts, host) - 1,
        count(counts, host) == 0 ==> count(released(counts, host), host) == 0,
        count(Map::empty(), host) == 0,
{
}

} // verus!
