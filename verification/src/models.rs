//! The data that a lookup produces.

use vstd::prelude::*;

verus! {

/// What is known of a domain's availability.
#[derive(Debug, Clone, Copy, PartialEq, Eq, Structural)]
pub enum DomainStatus {
    /// Nobody holds the domain.
    Available,
    /// The domain is registered.
    Taken,
    /// No resolver gave an answer.
    Unknown,
}

/// The level at which names are combined with top-level domains.
#[derive(Debug, Clone, Copy, PartialEq, Eq, Structural)]
pub enum LookupLevel {
    /// Check `name.tld`, such as `apple.com`.
    First,
    /// For multi-part top-level domains such as `co.uk`, check `name.co.uk`.
    Second,
}

impl Default for LookupLevel {
    fn default() -> (r: Self)
        ensures
            r == LookupLevel::First,
    {
        LookupLevel::First
    }
}

/// The outcome of one lookup.
#[derive(Debug, Clone)]
pub struct LookupResult {
    pub domain: String,
    pub status: DomainStatus,
    /// The protocol that gave the answer.
    pub source: String,
    pub latency_ms: u64,
    pub details: Option<LookupDetails>,
}

/// What a registry says of a registered domain.
#[derive(Debug, Clone)]
pub struct LookupDetails {
    pub registrar: Option<String>,
    pub creation_date: Option<String>,
    pub expiry_date: Option<String>,
    pub nameservers: Vec<String>,
    pub registry: Option<String>,
    pub server: Option<String>,
}

/// The view of [`LookupDetails`].
#[verifier::ext_equal]
pub struct DetailsView {
    pub registrar: Option<Seq<char>>,
    pub creation_date: Option<Seq<char>>,
    pub expiry_date: Option<Seq<char>>,
    pub nameservers: Seq<Seq<char>>,
    pub registry: Option<Seq<char>>,
    pub server: Option<Seq<char>>,
}

/// The view of [`LookupResult`].
#[verifier::ext_equal]
pub struct ResultView {
    pub domain: Seq<char>,
    pub status: DomainStatus,
    pub source: Seq<char>,
    pub latency_ms: u64,
    pub details: Option<DetailsView>,
}

/// The text in an optional string.
pub open spec fn text_of(o: Option<String>) -> Option<Seq<char>> {
    match o {
        Some(s) => Some(s@),
        None => None,
    }
}

/// The view of optional details.
pub open spec fn details_of(o: Option<LookupDetails>) -> Option<DetailsView> {
    match o {
        Some(d) => Some(d@),
        None => None,
    }
}

impl View for LookupDetails {
    type V = DetailsView;

    open spec fn view(&self) -> DetailsView {
        DetailsView {
            registrar: text_of(self.registrar),
            creation_date: text_of(self.creation_date),
            expiry_date: text_of(self.expiry_date),
            nameservers: self.nameservers.deep_view(),
            registry: text_of(self.registry),
            server: text_of(self.server),
        }
    }
}

impl View for LookupResult {
    type V = ResultView;

    open spec fn view(&self) -> ResultView {
        ResultView {
            domain: self.domain@,
            status: self.status,
            source: self.source@,
            latency_ms: self.latency_ms,
            details: details_of(self.details),
        }
    }
}

impl DetailsView {
    /// Details in which nothing is known.
    pub open spec fn blank() -> DetailsView {
        DetailsView {
            registrar: None,
            creation_date: None,
            expiry_date: None,
            nameservers: Seq::empty(),
            registry: None,
            server: None,
        }
    }

    /// Details in which only the answering server is known.
    pub open spec fn only_server(server: Seq<char>) -> DetailsView {
        DetailsView { server: Some(server), ..DetailsView::blank() }
    }
}

impl Default for LookupDetails {
    fn default() -> (r: Self)
        ensures
            r@ == DetailsView::blank(),
    {
        let nameservers: Vec<String> = Vec::new();
        proof {
            assert(nameservers.deep_view() =~= Seq::<Seq<char>>::empty());
        }
        LookupDetails {
            registrar: None,
            creation_date: None,
            expiry_date: None,
            nameservers,
            registry: None,
            server: None,
        }
    }
}

impl LookupDetails {
    /// Details that hold nothing but the answering server.
    pub fn from_server(server: String) -> (r: Self)
        ensures
            r@ == DetailsView::only_server(server@),
    {
        let mut d = LookupDetails::default();
        d.server = Some(server);
        d
    }
}

/// The views of some results.
pub open spec fn views(results: Seq<LookupResult>) -> Seq<ResultView> {
    results.map_values(|r: LookupResult| r@)
}

/// The full name of a domain: `name.tld`.
pub open spec fn full_name(name: Seq<char>, tld: Seq<char>) -> Seq<char> {
    name + "."@ + tld
}

/// Builds the full name of a domain: `name.tld`.
pub fn domain_of(name: &str, tld: &str) -> (r: String)
    ensures
        r@ == full_name(name@, tld@),
{
    let mut s = name.to_owned();
    s.append(".");
    s.append(tld);
    s
}

// ---------- laws ----------

/// A domain is its name, a dot and its top-level domain.
pub proof fn law_full_name(name: Seq<char>, tld: Seq<char>)
    ensures
        full_name(name, tld) == name + seq!['.'] + tld,
{
    reveal_strlit(".");
    assert("."@ =~= seq!['.']);
}

} // verus!
