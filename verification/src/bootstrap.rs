//! The servers to ask: RDAP services and WHOIS hosts by top-level domain.
//!
//! A snapshot of both lists is bundled with the program. A fresh copy in the
//! user's cache is laid over it, and files that the user names are laid over both,
//! or take their place.

use vstd::prelude::*;

use crate::cli::TldSet;
use crate::text::{
    chars_of, comes_before, lemma_precedes_irreflexive, lemma_precedes_total,
    lemma_precedes_transitive, lower, lower_text, precedes, same_chars, same_text, string_of,
};
use crate::unique::{distinct, law_distinct, lemma_distinct_all, UniqueTexts};

verus! {

/// The RDAP services by top-level domain, in the shape in which IANA lists them.
#[derive(Debug, Clone)]
pub struct RdapBootstrap {
    pub description: String,
    pub publication: String,
    pub version: String,
    /// Each entry is a list of top-level domains, of which the first counts, and a
    /// list of base URLs.
    pub services: Vec<Vec<Vec<String>>>,
}

/// The WHOIS hosts by top-level domain.
#[derive(Debug, Clone)]
pub struct WhoisBootstrap {
    pub description: String,
    pub version: String,
    pub servers: ServerMap,
}

/// Both lists.
#[derive(Debug, Clone)]
pub struct Bootstrap {
    pub rdap: RdapBootstrap,
    pub whois: WhoisBootstrap,
}

// ---------- RDAP ----------

/// One entry of the RDAP list.
pub type ServiceView = Seq<Seq<Seq<char>>>;

/// The top-level domain of an entry, if it has one.
pub open spec fn service_tld(entry: ServiceView) -> Option<Seq<char>> {
    if entry.len() > 0 && entry[0].len() > 0 {
        Some(entry[0][0])
    } else {
        None
    }
}

/// The base URLs of an entry.
pub open spec fn service_urls(entry: ServiceView) -> Seq<Seq<char>> {
    if entry.len() > 1 {
        entry[1]
    } else {
        Seq::empty()
    }
}

/// The base URLs that the entries give for `tld`, in order.
pub open spec fn urls_for(services: Seq<ServiceView>, tld: Seq<char>) -> Seq<Seq<char>>
    decreases services.len(),
{
    if services.len() == 0 {
        Seq::empty()
    } else if service_tld(services.last()) == Some(tld) {
        urls_for(services.drop_last(), tld) + service_urls(services.last())
    } else {
        urls_for(services.drop_last(), tld)
    }
}

/// Whether an entry for `tld` is among the services.
pub open spec fn listed(services: Seq<ServiceView>, tld: Seq<char>) -> bool {
    exists|k: int| 0 <= k < services.len() && service_tld(#[trigger] services[k]) == Some(tld)
}

/// The texts of a list of borrowed strings.
pub open spec fn borrowed(list: Seq<&str>) -> Seq<Seq<char>> {
    list.map_values(|s: &str| s@)
}

/// The base URLs of the RDAP services for a top-level domain, in the order in
/// which they are to be asked.
pub fn rdap_servers_for<'a>(bootstrap: &'a RdapBootstrap, tld: &str) -> (r: Vec<&'a str>)
    ensures
        borrowed(r@) == urls_for(bootstrap.services.deep_view(), lower(tld@)),
{
    let wanted = lower_text(tld);
    let ghost all = bootstrap.services.deep_view();
    let mut out: Vec<&'a str> = Vec::new();
    let mut i: usize = 0;
    proof {
        assert(borrowed(out@) =~= urls_for(all.take(0), wanted@));
    }
    while i < bootstrap.services.len()
        invariant
            i <= bootstrap.services@.len(),
            all == bootstrap.services.deep_view(),
            borrowed(out@) == urls_for(all.take(i as int), wanted@),
        decreases bootstrap.services@.len() - i,
    {
        let entry = &bootstrap.services[i];
        proof {
            assert(all.take(i + 1).drop_last() =~= all.take(i as int));
            assert(all.take(i + 1).last() == all[i as int]);
        }
        if entry.len() > 0 && entry[0].len() > 0 && same_text(
            entry[0][0].as_str(),
            wanted.as_str(),
        ) {
            if entry.len() > 1 {
                let ghost was = borrowed(out@);
                let urls = &entry[1];
                let mut j: usize = 0;
                proof {
                    assert(was + urls.deep_view().take(0) =~= was);
                }
                while j < urls.len()
                    invariant
                        j <= urls@.len(),
                        borrowed(out@) == was + urls.deep_view().take(j as int),
                    decreases urls@.len() - j,
                {
                    let ghost sofar = borrowed(out@);
                    out.push(urls[j].as_str());
                    proof {
                        assert(borrowed(out@) =~= sofar.push(urls.deep_view()[j as int]));
                        assert(borrowed(out@) =~= was + urls.deep_view().take(j + 1));
                    }
                    j += 1;
                }
                proof {
                    assert(urls.deep_view().take(j as int) =~= urls.deep_view());
                }
            } else {
                proof {
                    assert(borrowed(out@) + Seq::<Seq<char>>::empty() =~= borrowed(out@));
                }
            }
        }
        i += 1;
    }
    proof {
        assert(all.take(i as int) =~= all);
    }
    out
}

/// The top-level domain of entry number `i`.
pub open spec fn tld_at(services: Seq<ServiceView>, i: int) -> Seq<char> {
    services[i][0][0]
}

/// Whether `out` is the merge of `base` and `overlay`: one entry for each top-level
/// domain of either, in the order of the top-level domains. An entry has the URLs
/// of the base and then those of the overlay, each once.
pub open spec fn merges(
    out: Seq<ServiceView>,
    base: Seq<ServiceView>,
    overlay: Seq<ServiceView>,
) -> bool {
    &&& forall|i: int, j: int|
        0 <= i < j < out.len() ==> precedes(
            #[trigger] tld_at(out, i),
            #[trigger] tld_at(out, j),
        )
    &&& forall|i: int|
        0 <= i < out.len() ==> #[trigger] out[i] == seq![
            seq![tld_at(out, i)],
            distinct(
                urls_for(base, tld_at(out, i)) + urls_for(overlay, tld_at(out, i)),
            ),
        ]
    &&& forall|tld: Seq<char>|
        #[trigger] listed(out, tld) <==> listed(base, tld) || listed(overlay, tld)
}

/// A top-level domain with the URLs that were found for it.
struct Row {
    tld: Vec<char>,
    urls: UniqueTexts,
}

/// Whether the rows hold what the entries say: a row for each top-level domain, in
/// order, with its URLs.
spec fn rows_of(rows: Seq<Row>, services: Seq<ServiceView>) -> bool {
    &&& forall|i: int, j: int|
        0 <= i < j < rows.len() ==> precedes(
            (#[trigger] rows[i]).tld@,
            (#[trigger] rows[j]).tld@,
        )
    &&& forall|i: int|
        0 <= i < rows.len() ==> {
            &&& (#[trigger] rows[i]).urls.wf()
            &&& rows[i].urls@ == distinct(urls_for(services, rows[i].tld@))
            &&& listed(services, rows[i].tld@)
        }
    &&& forall|tld: Seq<char>|
        #[trigger] listed(services, tld) ==> exists|i: int|
            0 <= i < rows.len() && (#[trigger] rows[i]).tld@ == tld
}

/// What one more entry means for the lists of the top-level domains.
proof fn lemma_push_service(services: Seq<ServiceView>, entry: ServiceView, tld: Seq<char>)
    ensures
        listed(services.push(entry), tld) <==> listed(services, tld) || service_tld(entry)
            == Some(tld),
        service_tld(entry) == Some(tld) ==> urls_for(services.push(entry), tld) == urls_for(
            services,
            tld,
        ) + service_urls(entry),
        service_tld(entry) != Some(tld) ==> urls_for(services.push(entry), tld) == urls_for(
            services,
            tld,
        ),
{
    let more = services.push(entry);
    assert(more.drop_last() =~= services);
    if listed(services, tld) {
        let k = choose|k: int|
            0 <= k < services.len() && service_tld(#[trigger] services[k]) == Some(tld);
        assert(service_tld(more[k]) == Some(tld));
    }
    if service_tld(entry) == Some(tld) {
        assert(service_tld(more[services.len() as int]) == Some(tld));
    }
    if listed(more, tld) {
        let k = choose|k: int| 0 <= k < more.len() && service_tld(#[trigger] more[k]) == Some(tld);
        if k < services.len() {
            assert(service_tld(services[k]) == Some(tld));
        }
    }
}

/// Where no entry is for `tld` there are no URLs.
proof fn lemma_not_listed(services: Seq<ServiceView>, tld: Seq<char>)
    requires
        !listed(services, tld),
    ensures
        urls_for(services, tld) == Seq::<Seq<char>>::empty(),
    decreases services.len(),
{
    if services.len() > 0 {
        let before = services.drop_last();
        assert(services[services.len() - 1] == services.last());
        assert(!listed(before, tld)) by {
            if listed(before, tld) {
                let k = choose|k: int|
                    0 <= k < before.len() && service_tld(#[trigger] before[k]) == Some(tld);
                assert(service_tld(services[k]) == Some(tld));
            }
        }
        lemma_not_listed(before, tld);
    }
}

/// The index of the first row whose top-level domain does not come before `tld`.
fn row_index(rows: &Vec<Row>, tld: &[char]) -> (r: usize)
    ensures
        r <= rows@.len(),
        forall|i: int| 0 <= i < r ==> precedes((#[trigger] rows@[i]).tld@, tld@),
        r < rows@.len() ==> !precedes(rows@[r as int].tld@, tld@),
{
    let mut i: usize = 0;
    while i < rows.len() && comes_before(&rows[i].tld, tld)
        invariant
            i <= rows@.len(),
            forall|j: int| 0 <= j < i ==> precedes((#[trigger] rows@[j]).tld@, tld@),
        decreases rows@.len() - i,
    {
        i += 1;
    }
    i
}

/// Adds an entry to the rows.
fn add_service(rows: &mut Vec<Row>, entry: &Vec<Vec<String>>, Ghost(done): Ghost<Seq<ServiceView>>)
    requires
        rows_of(old(rows)@, done),
    ensures
        rows_of(final(rows)@, done.push(entry.deep_view())),
{
    let ghost e = entry.deep_view();
    let ghost before = rows@;
    proof {
        assert forall|tld: Seq<char>| #[trigger]
            listed(done.push(e), tld) <==> listed(done, tld) || service_tld(e) == Some(tld) by {
            lemma_push_service(done, e, tld);
        }
    }
    if entry.len() == 0 || entry[0].len() == 0 {
        proof {
            assert forall|i: int| 0 <= i < before.len() implies {
                &&& (#[trigger] before[i]).urls@ == distinct(
                    urls_for(done.push(e), before[i].tld@),
                )
                &&& listed(done.push(e), before[i].tld@)
            } by {
                lemma_push_service(done, e, before[i].tld@);
            }
        }
        return;
    }
    let tld = chars_of(entry[0][0].as_str());
    let at = row_index(rows, &tld);
    let ghost t = tld@;
    let found = at < rows.len() && same_chars(&rows[at].tld, &tld);
    let mut urls = if found {
        let row = rows.remove(at);
        row.urls
    } else {
        UniqueTexts::new()
    };
    proof {
        lemma_push_service(done, e, t);
        if !found {
            assert(!listed(done, t)) by {
                if listed(done, t) {
                    let i = choose|i: int| 0 <= i < before.len() && (#[trigger] before[i]).tld@ == t;
                    lemma_precedes_irreflexive(t);
                    assert(i >= at);
                    if i > at {
                        lemma_precedes_total(before[at as int].tld@, t);
                    }
                }
            }
            lemma_not_listed(done, t);
        }
        assert(urls@ == distinct(urls_for(done, t)));
        lemma_distinct_all(urls_for(done, t), service_urls(e));
    }
    if entry.len() > 1 {
        urls.add_all(&entry[1]);
    }
    let ghost rest = rows@;
    rows.insert(at, Row { tld, urls });
    proof {
        let new = rows@[at as int];
        if found {
            assert(rows@ =~= before.update(at as int, new));
        } else {
            assert(rows@ =~= before.insert(at as int, new));
        }
        assert forall|i: int, j: int| 0 <= i < j < rows@.len() implies precedes(
            (#[trigger] rows@[i]).tld@,
            (#[trigger] rows@[j]).tld@,
        ) by {
            if !found {
                let old_i = if i < at { i } else { i - 1 };
                let old_j = if j < at { j } else { j - 1 };
                if i == at {
                    // The new row comes before the old row at its place, or equals it.
                    lemma_precedes_total(before[at as int].tld@, t);
                    if old_j > at {
                        lemma_precedes_transitive(
                            t,
                            before[at as int].tld@,
                            before[old_j].tld@,
                        );
                    }
                } else if j == at {
                    assert(precedes(before[i].tld@, t));
                } else {
                    assert(precedes(before[old_i].tld@, before[old_j].tld@));
                }
            }
        }
        assert forall|i: int| 0 <= i < rows@.len() implies {
            &&& (#[trigger] rows@[i]).urls.wf()
            &&& rows@[i].urls@ == distinct(urls_for(done.push(e), rows@[i].tld@))
            &&& listed(done.push(e), rows@[i].tld@)
        } by {
            lemma_push_service(done, e, rows@[i].tld@);
            if i != at {
                let k = if found || i < at { i } else { i - 1 };
                assert(rows@[i] == before[k]);
                if before[k].tld@ == t {
                    lemma_precedes_irreflexive(t);
                    if found {
                        if k < at {
                            assert(precedes(before[k].tld@, before[at as int].tld@));
                        } else {
                            assert(precedes(before[at as int].tld@, before[k].tld@));
                        }
                    }
                }
            }
        }
        assert forall|tld: Seq<char>| #[trigger] listed(done.push(e), tld) implies exists|i: int|
            0 <= i < rows@.len() && (#[trigger] rows@[i]).tld@ == tld by {
            if tld == t {
                assert(rows@[at as int].tld@ == t);
            } else {
                assert(listed(done, tld));
                let k = choose|k: int| 0 <= k < before.len() && (#[trigger] before[k]).tld@ == tld;
                if found || k < at {
                    assert(rows@[k] == before[k]);
                } else {
                    assert(rows@[k + 1] == before[k]);
                }
            }
        }
    }
}

/// Adds all entries of `services` to the rows.
fn add_services(
    rows: &mut Vec<Row>,
    services: &Vec<Vec<Vec<String>>>,
    Ghost(done): Ghost<Seq<ServiceView>>,
)
    requires
        rows_of(old(rows)@, done),
    ensures
        rows_of(final(rows)@, done + services.deep_view()),
{
    let mut i: usize = 0;
    proof {
        assert(done + services.deep_view().take(0) =~= done);
    }
    while i < services.len()
        invariant
            i <= services@.len(),
            rows_of(rows@, done + services.deep_view().take(i as int)),
        decreases services@.len() - i,
    {
        add_service(rows, &services[i], Ghost(done + services.deep_view().take(i as int)));
        proof {
            assert((done + services.deep_view().take(i as int)).push(services.deep_view()[i as int])
                =~= done + services.deep_view().take(i + 1));
        }
        i += 1;
    }
    proof {
        assert(services.deep_view().take(i as int) =~= services.deep_view());
    }
}

/// The URLs of two lists of entries, one after the other.
proof fn lemma_urls_concat(a: Seq<ServiceView>, b: Seq<ServiceView>, tld: Seq<char>)
    ensures
        urls_for(a + b, tld) == urls_for(a, tld) + urls_for(b, tld),
        listed(a + b, tld) <==> listed(a, tld) || listed(b, tld),
    decreases b.len(),
{
    if b.len() == 0 {
        assert(a + b =~= a);
        assert(urls_for(a, tld) + urls_for(b, tld) =~= urls_for(a, tld));
    } else {
        let before = a + b.drop_last();
        lemma_urls_concat(a, b.drop_last(), tld);
        lemma_push_service(before, b.last(), tld);
        lemma_push_service(b.drop_last(), b.last(), tld);
        assert(a + b =~= before.push(b.last()));
        assert(b =~= b.drop_last().push(b.last()));
        assert(urls_for(a + b, tld) =~= urls_for(a, tld) + urls_for(b, tld));
    }
}

/// The entries that are made of the rows of two lists are the merge of the lists.
proof fn lemma_rows_merge(
    v: Seq<ServiceView>,
    all: Seq<Row>,
    b: Seq<ServiceView>,
    o: Seq<ServiceView>,
)
    requires
        rows_of(all, b + o),
        v.len() == all.len(),
        forall|k: int|
            0 <= k < v.len() ==> #[trigger] v[k] == seq![seq![all[k].tld@], all[k].urls@],
    ensures
        merges(v, b, o),
{
    assert forall|i: int| 0 <= i < v.len() implies #[trigger] tld_at(v, i) == all[i].tld@ by {
        assert(v[i][0] == seq![all[i].tld@]);
    }
    assert forall|i: int, j: int| 0 <= i < j < v.len() implies precedes(
        #[trigger] tld_at(v, i),
        #[trigger] tld_at(v, j),
    ) by {
        assert(precedes(all[i].tld@, all[j].tld@));
    }
    assert forall|i: int| 0 <= i < v.len() implies #[trigger] v[i] == seq![
        seq![tld_at(v, i)],
        distinct(urls_for(b, tld_at(v, i)) + urls_for(o, tld_at(v, i))),
    ] by {
        lemma_urls_concat(b, o, all[i].tld@);
        assert(tld_at(v, i) == all[i].tld@);
    }
    assert forall|tld: Seq<char>|
        #[trigger] listed(v, tld) <==> listed(b, tld) || listed(o, tld) by {
        lemma_urls_concat(b, o, tld);
        if listed(v, tld) {
            let k = choose|k: int|
                0 <= k < v.len() && service_tld(#[trigger] v[k]) == Some(tld);
            assert(tld_at(v, k) == all[k].tld@);
            assert(listed(b + o, all[k].tld@));
        }
        if listed(b + o, tld) {
            let k = choose|k: int| 0 <= k < all.len() && (#[trigger] all[k]).tld@ == tld;
            assert(tld_at(v, k) == all[k].tld@);
            assert(service_tld(v[k]) == Some(tld));
        }
    }
}

/// Merges two RDAP lists. What the base says of itself is kept.
pub fn merge_rdap(base: RdapBootstrap, overlay: RdapBootstrap) -> (r: RdapBootstrap)
    ensures
        merged_rdap(r, base, overlay),
{
    let ghost b = base.services.deep_view();
    let ghost o = overlay.services.deep_view();
    let mut rows: Vec<Row> = Vec::new();
    add_services(&mut rows, &base.services, Ghost(Seq::empty()));
    proof {
        assert(Seq::empty() + b =~= b);
    }
    add_services(&mut rows, &overlay.services, Ghost(b));
    let ghost all = rows@;
    let mut out: Vec<Vec<Vec<String>>> = Vec::new();
    while rows.len() > 0
        invariant
            out@.len() + rows@.len() == all.len(),
            rows@ == all.skip(out@.len() as int),
            forall|k: int|
                0 <= k < out@.len() ==> #[trigger] out.deep_view()[k] == seq![
                    seq![all[k].tld@],
                    all[k].urls@,
                ],
        decreases rows@.len(),
    {
        let ghost n = out@.len() as int;
        let row = rows.remove(0);
        let ghost was = out.deep_view();
        let mut tlds: Vec<String> = Vec::new();
        tlds.push(string_of(&row.tld));
        let mut entry: Vec<Vec<String>> = Vec::new();
        entry.push(tlds);
        entry.push(row.urls.into_list());
        proof {
            assert(row == all[n]);
            assert(entry.deep_view()[0] =~= seq![all[n].tld@]);
            assert(entry.deep_view() =~= seq![seq![all[n].tld@], all[n].urls@]);
        }
        out.push(entry);
        proof {
            assert(out.deep_view() =~= was.push(entry.deep_view()));
            assert(rows@ =~= all.skip(n + 1));
        }
    }
    proof {
        lemma_rows_merge(out.deep_view(), all, b, o);
    }
    RdapBootstrap {
        description: base.description,
        publication: base.publication,
        version: base.version,
        services: out,
    }
}

/// Whether `r` is the merge of the two lists.
pub open spec fn merged_rdap(
    r: RdapBootstrap,
    base: RdapBootstrap,
    overlay: RdapBootstrap,
) -> bool {
    &&& r.description@ == base.description@
    &&& r.publication@ == base.publication@
    &&& r.version@ == base.version@
    &&& merges(
        r.services.deep_view(),
        base.services.deep_view(),
        overlay.services.deep_view(),
    )
}

// ---------- WHOIS ----------

/// A map from top-level domains to hosts.
#[derive(Debug, Clone)]
pub struct ServerMap {
    entries: Vec<(String, String)>,
}

/// The map that a list of keys and values stands for: of several values for one
/// key the last counts.
pub open spec fn map_of(entries: Seq<(Seq<char>, Seq<char>)>) -> Map<Seq<char>, Seq<char>>
    decreases entries.len(),
{
    if entries.len() == 0 {
        Map::empty()
    } else {
        map_of(entries.drop_last()).insert(entries.last().0, entries.last().1)
    }
}

/// The place of the last entry for a key.
pub open spec fn last_place(entries: Seq<(Seq<char>, Seq<char>)>, key: Seq<char>) -> Option<int>
    decreases entries.len(),
{
    if entries.len() == 0 {
        None
    } else if entries.last().0 == key {
        Some(entries.len() - 1)
    } else {
        last_place(entries.drop_last(), key)
    }
}

/// The entries with a value for a key: in the place of the last one for it, or behind
/// the others.
pub open spec fn with_entry(
    entries: Seq<(Seq<char>, Seq<char>)>,
    key: Seq<char>,
    value: Seq<char>,
) -> Seq<(Seq<char>, Seq<char>)> {
    match last_place(entries, key) {
        Some(i) => entries.update(i, (key, value)),
        None => entries.push((key, value)),
    }
}

/// What the last entry for a key says is what the map holds.
proof fn lemma_map_of(entries: Seq<(Seq<char>, Seq<char>)>, i: int)
    requires
        0 <= i < entries.len(),
        forall|j: int| i < j < entries.len() ==> (#[trigger] entries[j]).0 != entries[i].0,
    ensures
        map_of(entries).contains_key(entries[i].0),
        map_of(entries)[entries[i].0] == entries[i].1,
    decreases entries.len(),
{
    if i < entries.len() - 1 {
        assert(entries.last() == entries[entries.len() - 1]);
        lemma_map_of(entries.drop_last(), i);
    }
}

/// A key without an entry is not in the map.
proof fn lemma_map_of_none(entries: Seq<(Seq<char>, Seq<char>)>, key: Seq<char>)
    requires
        forall|j: int| 0 <= j < entries.len() ==> (#[trigger] entries[j]).0 != key,
    ensures
        !map_of(entries).contains_key(key),
    decreases entries.len(),
{
    if entries.len() > 0 {
        assert(entries.last() == entries[entries.len() - 1]);
        lemma_map_of_none(entries.drop_last(), key);
    }
}

/// A new value in the last entry for a key is a new value in the map.
proof fn lemma_map_of_update(entries: Seq<(Seq<char>, Seq<char>)>, i: int, value: Seq<char>)
    requires
        0 <= i < entries.len(),
        forall|j: int| i < j < entries.len() ==> (#[trigger] entries[j]).0 != entries[i].0,
    ensures
        map_of(entries.update(i, (entries[i].0, value))) == map_of(entries).insert(
            entries[i].0,
            value,
        ),
    decreases entries.len(),
{
    let after = entries.update(i, (entries[i].0, value));
    if i == entries.len() - 1 {
        assert(after.drop_last() =~= entries.drop_last());
    } else {
        assert(entries.last() == entries[entries.len() - 1]);
        lemma_map_of_update(entries.drop_last(), i, value);
        assert(after.drop_last() =~= entries.drop_last().update(i, (entries[i].0, value)));
    }
    assert(map_of(after) =~= map_of(entries).insert(entries[i].0, value));
}

impl View for ServerMap {
    type V = Map<Seq<char>, Seq<char>>;

    open spec fn view(&self) -> Map<Seq<char>, Seq<char>> {
        map_of(self.list())
    }
}

impl ServerMap {
    /// The entries of the map, in the order in which they were made.
    pub closed spec fn list(&self) -> Seq<(Seq<char>, Seq<char>)> {
        self.entries.deep_view()
    }

    /// The empty map.
    pub fn new() -> (r: Self)
        ensures
            r@ == Map::<Seq<char>, Seq<char>>::empty(),
            r.list() == Seq::<(Seq<char>, Seq<char>)>::empty(),
    {
        let entries: Vec<(String, String)> = Vec::new();
        proof {
            assert(entries.deep_view() =~= Seq::<(Seq<char>, Seq<char>)>::empty());
        }
        ServerMap { entries }
    }

    /// The place of the last entry for `key`.
    fn position(&self, key: &str) -> (r: Option<usize>)
        ensures
            match r {
                Some(i) => {
                    &&& last_place(self.list(), key@) == Some(i as int)
                    &&& i < self.list().len()
                    &&& self.list()[i as int].0 == key@
                    &&& forall|j: int| i < j < self.list().len() ==> (#[trigger] self.list()[j]).0
                        != key@
                },
                None => {
                    &&& last_place(self.list(), key@) is None
                    &&& forall|j: int|
                        0 <= j < self.list().len() ==> (#[trigger] self.list()[j]).0 != key@
                },
            },
    {
        let mut i: usize = self.entries.len();
        proof {
            assert(self.list().take(i as int) =~= self.list());
        }
        while i > 0
            invariant
                i <= self.list().len(),
                last_place(self.list(), key@) == last_place(self.list().take(i as int), key@),
                forall|j: int|
                    i <= j < self.list().len() ==> (#[trigger] self.list()[j]).0 != key@,
            decreases i,
        {
            i -= 1;
            proof {
                assert(self.list().take(i + 1).drop_last() =~= self.list().take(i as int));
                assert(self.list().take(i + 1).last() == self.list()[i as int]);
            }
            if same_text(self.entries[i].0.as_str(), key) {
                return Some(i);
            }
        }
        None
    }

    /// The host for `key`.
    pub fn get(&self, key: &str) -> (r: Option<&String>)
        ensures
            match r {
                Some(host) => self@.contains_key(key@) && host@ == self@[key@],
                None => !self@.contains_key(key@),
            },
    {
        match self.position(key) {
            Some(i) => {
                proof {
                    lemma_map_of(self.list(), i as int);
                }
                Some(&self.entries[i].1)
            },
            None => {
                proof {
                    lemma_map_of_none(self.list(), key@);
                }
                None
            },
        }
    }

    /// Whether there is a host for `key`.
    pub fn contains_key(&self, key: &str) -> (r: bool)
        ensures
            r == self@.contains_key(key@),
    {
        self.get(key).is_some()
    }

    /// Sets the host for `key`.
    pub fn insert(&mut self, key: String, host: String)
        ensures
            final(self)@ == old(self)@.insert(key@, host@),
            final(self).list() == with_entry(old(self).list(), key@, host@),
    {
        let ghost was = self.list();
        match self.position(key.as_str()) {
            Some(i) => {
                proof {
                    lemma_map_of_update(was, i as int, host@);
                }
                self.entries.set(i, (key, host));
                proof {
                    assert(self.list() =~= was.update(i as int, (key@, host@)));
                }
            },
            None => {
                self.entries.push((key, host));
                proof {
                    assert(self.list() =~= was.push((key@, host@)));
                    assert(self.list().drop_last() =~= was);
                }
            },
        }
    }
}

/// The map with the entries of a list laid over it, their keys in lower case.
pub open spec fn with_servers(
    base: Map<Seq<char>, Seq<char>>,
    overlay: Seq<(Seq<char>, Seq<char>)>,
) -> Map<Seq<char>, Seq<char>>
    decreases overlay.len(),
{
    if overlay.len() == 0 {
        base
    } else {
        with_servers(base, overlay.drop_last()).insert(
            lower(overlay.last().0),
            overlay.last().1,
        )
    }
}

/// Whether `r` is the merge of the two lists.
pub open spec fn merged_whois(
    r: WhoisBootstrap,
    base: WhoisBootstrap,
    overlay: WhoisBootstrap,
) -> bool {
    &&& r.description@ == base.description@
    &&& r.version@ == base.version@
    &&& r.servers@ == with_servers(base.servers@, overlay.servers.list())
}

/// Merges two WHOIS lists: what the overlay says wins. What the base says of itself
/// is kept.
pub fn merge_whois(base: WhoisBootstrap, overlay: WhoisBootstrap) -> (r: WhoisBootstrap)
    ensures
        merged_whois(r, base, overlay),
{
    let ghost all = overlay.servers.list();
    let mut servers = base.servers;
    let mut i: usize = 0;
    while i < overlay.servers.entries.len()
        invariant
            i <= all.len(),
            all == overlay.servers.list(),
            servers@ == with_servers(base.servers@, all.take(i as int)),
        decreases all.len() - i,
    {
        let entry = &overlay.servers.entries[i];
        servers.insert(lower_text(entry.0.as_str()), entry.1.clone());
        proof {
            assert(all.take(i + 1).drop_last() =~= all.take(i as int));
        }
        i += 1;
    }
    proof {
        assert(all.take(i as int) =~= all);
    }
    WhoisBootstrap { description: base.description, version: base.version, servers }
}

/// The WHOIS host for a top-level domain, if there is one.
pub fn whois_server_for<'a>(bootstrap: &'a WhoisBootstrap, tld: &str) -> (r: Option<&'a str>)
    ensures
        match r {
            Some(host) => {
                &&& bootstrap.servers@.contains_key(lower(tld@))
                &&& host@ == bootstrap.servers@[lower(tld@)]
            },
            None => !bootstrap.servers@.contains_key(lower(tld@)),
        },
{
    match bootstrap.servers.get(lower_text(tld).as_str()) {
        Some(host) => Some(host.as_str()),
        None => None,
    }
}

// ---------- loading ----------

/// How long a cached list stays fresh, in seconds: seven days.
pub const BOOTSTRAP_TTL: u64 = 604_800;

/// The age of a file, in nanoseconds. Both moments are counted from the Unix epoch;
/// a file of the future has no age.
pub fn refresh_age(now: u128, modified: u128) -> (r: u128)
    ensures
        r == if now >= modified {
            now - modified
        } else {
            0
        },
{
    if now >= modified {
        now - modified
    } else {
        0
    }
}

/// Whether a cached list of this age, in nanoseconds, is still fresh.
pub fn is_fresh(age: u128) -> (r: bool)
    ensures
        r == (age < BOOTSTRAP_TTL * 1_000_000_000),
        r == (age < 7 * 24 * 60 * 60 * 1_000_000_000),
{
    age < (BOOTSTRAP_TTL as u128) * 1_000_000_000
}

/// Whether `r` is `base` with `overlay`, if there is one, merged into it.
pub open spec fn overlaid_rdap(
    r: RdapBootstrap,
    base: RdapBootstrap,
    overlay: Option<RdapBootstrap>,
) -> bool {
    match overlay {
        Some(o) => merged_rdap(r, base, o),
        None => r == base,
    }
}

/// Whether `r` is `base` with `overlay`, if there is one, merged into it.
pub open spec fn overlaid_whois(
    r: WhoisBootstrap,
    base: WhoisBootstrap,
    overlay: Option<WhoisBootstrap>,
) -> bool {
    match overlay {
        Some(o) => merged_whois(r, base, o),
        None => r == base,
    }
}

/// Whether `r` is what is loaded: the user's list alone where it is to replace the
/// others, else the bundled list with the cached one and then the user's merged
/// into it.
pub open spec fn loaded_rdap(
    r: RdapBootstrap,
    bundled: RdapBootstrap,
    cached: Option<RdapBootstrap>,
    user: Option<RdapBootstrap>,
    no_merge: bool,
) -> bool {
    if no_merge && user is Some {
        Some(r) == user
    } else {
        exists|base: RdapBootstrap| #[trigger]
            overlaid_rdap(base, bundled, cached) && overlaid_rdap(r, base, user)
    }
}

/// The same for the WHOIS list.
pub open spec fn loaded_whois(
    r: WhoisBootstrap,
    bundled: WhoisBootstrap,
    cached: Option<WhoisBootstrap>,
    user: Option<WhoisBootstrap>,
    no_merge: bool,
) -> bool {
    if no_merge && user is Some {
        Some(r) == user
    } else {
        exists|base: WhoisBootstrap| #[trigger]
            overlaid_whois(base, bundled, cached) && overlaid_whois(r, base, user)
    }
}

/// Puts the RDAP list together.
pub fn load_rdap(
    bundled: RdapBootstrap,
    cached: Option<RdapBootstrap>,
    user: Option<RdapBootstrap>,
    no_merge: bool,
) -> (r: RdapBootstrap)
    ensures
        loaded_rdap(r, bundled, cached, user, no_merge),
{
    let base = match cached {
        Some(cached) => merge_rdap(bundled, cached),
        None => bundled,
    };
    proof {
        assert(overlaid_rdap(base, bundled, cached));
    }
    match user {
        None => base,
        Some(user) => if no_merge {
            user
        } else {
            merge_rdap(base, user)
        },
    }
}

/// Puts the WHOIS list together.
pub fn load_whois(
    bundled: WhoisBootstrap,
    cached: Option<WhoisBootstrap>,
    user: Option<WhoisBootstrap>,
    no_merge: bool,
) -> (r: WhoisBootstrap)
    ensures
        loaded_whois(r, bundled, cached, user, no_merge),
{
    let base = match cached {
        Some(cached) => merge_whois(bundled, cached),
        None => bundled,
    };
    proof {
        assert(overlaid_whois(base, bundled, cached));
    }
    match user {
        None => base,
        Some(user) => if no_merge {
            user
        } else {
            merge_whois(base, user)
        },
    }
}

/// Puts both lists together: the bundled ones, with the fresh ones of the cache and
/// the user's own merged into them. With `no_merge`, a list of the user's takes the
/// place of the others.
pub fn load(
    bundled: Bootstrap,
    cached_rdap: Option<RdapBootstrap>,
    cached_whois: Option<WhoisBootstrap>,
    user_rdap: Option<RdapBootstrap>,
    user_whois: Option<WhoisBootstrap>,
    no_merge: bool,
) -> (r: Bootstrap)
    ensures
        loaded_rdap(r.rdap, bundled.rdap, cached_rdap, user_rdap, no_merge),
        loaded_whois(r.whois, bundled.whois, cached_whois, user_whois, no_merge),
{
    let rdap = load_rdap(bundled.rdap, cached_rdap, user_rdap, no_merge);
    let whois = load_whois(bundled.whois, cached_whois, user_whois, no_merge);
    Bootstrap { rdap, whois }
}

/// The top-level domains of the first entries, in lower case.
pub open spec fn service_tlds(services: Seq<ServiceView>) -> Set<Seq<char>>
    decreases services.len(),
{
    if services.len() == 0 {
        Set::empty()
    } else {
        match service_tld(services.last()) {
            Some(tld) => service_tlds(services.drop_last()).insert(lower(tld)),
            None => service_tlds(services.drop_last()),
        }
    }
}

/// The keys of the entries, in lower case.
pub open spec fn entry_tlds(entries: Seq<(Seq<char>, Seq<char>)>) -> Set<Seq<char>>
    decreases entries.len(),
{
    if entries.len() == 0 {
        Set::empty()
    } else {
        entry_tlds(entries.drop_last()).insert(lower(entries.last().0))
    }
}

/// Adds each top-level domain that has a server to the known ones.
pub fn extend_known_tlds(known: &mut TldSet, bootstrap: &Bootstrap)
    ensures
        final(known)@ == old(known)@ + service_tlds(bootstrap.rdap.services.deep_view())
            + entry_tlds(bootstrap.whois.servers.list()),
{
    let services = &bootstrap.rdap.services;
    let ghost all = services.deep_view();
    let mut i: usize = 0;
    proof {
        assert(known@ =~= old(known)@ + service_tlds(all.take(0)));
    }
    while i < services.len()
        invariant
            i <= services@.len(),
            all == services.deep_view(),
            known@ == old(known)@ + service_tlds(all.take(i as int)),
        decreases services@.len() - i,
    {
        let entry = &services[i];
        proof {
            assert(all.take(i + 1).drop_last() =~= all.take(i as int));
            assert(all.take(i + 1).last() == all[i as int]);
        }
        if entry.len() > 0 && entry[0].len() > 0 {
            known.insert(lower_text(entry[0][0].as_str()));
        }
        proof {
            assert(known@ =~= old(known)@ + service_tlds(all.take(i + 1)));
        }
        i += 1;
    }
    proof {
        assert(all.take(i as int) =~= all);
    }

    let entries = &bootstrap.whois.servers.entries;
    let ghost list = entries.deep_view();
    let ghost base = known@;
    let mut i: usize = 0;
    proof {
        assert(known@ =~= base + entry_tlds(list.take(0)));
    }
    while i < entries.len()
        invariant
            i <= entries@.len(),
            list == entries.deep_view(),
            known@ == base + entry_tlds(list.take(i as int)),
        decreases entries@.len() - i,
    {
        known.insert(lower_text(entries[i].0.as_str()));
        proof {
            assert(list.take(i + 1).drop_last() =~= list.take(i as int));
            assert(known@ =~= base + entry_tlds(list.take(i + 1)));
        }
        i += 1;
    }
    proof {
        assert(list.take(i as int) =~= list);
    }
}

// ---------- laws ----------

/// Two ordered lists of the same texts are the same list.
proof fn lemma_ordered_lists(a: Seq<Seq<char>>, b: Seq<Seq<char>>)
    requires
        forall|i: int, j: int| 0 <= i < j < a.len() ==> precedes(a[i], a[j]),
        forall|i: int, j: int| 0 <= i < j < b.len() ==> precedes(b[i], b[j]),
        forall|t: Seq<char>| #[trigger] a.contains(t) <==> b.contains(t),
    ensures
        a == b,
    decreases a.len(),
{
    if a.len() == 0 {
        if b.len() > 0 {
            assert(b.contains(b[0]));
            assert(!a.contains(b[0]));
        }
        assert(a =~= b);
    } else {
        let x = a.last();
        let y = b.last();
        assert(a[a.len() - 1] == x);
        assert(a.contains(x) && b.contains(x));
        let j = choose|j: int| 0 <= j < b.len() && b[j] == x;
        assert(b[b.len() - 1] == y);
        assert(b.contains(y));
        assert(a.contains(y));
        let i = choose|i: int| 0 <= i < a.len() && a[i] == y;
        if x != y {
            assert(precedes(b[j], b[b.len() - 1]));
            assert(precedes(a[i], a[a.len() - 1]));
            lemma_precedes_transitive(x, y, x);
            lemma_precedes_irreflexive(x);
        }
        let s = a.drop_last();
        let t = b.drop_last();
        assert forall|u: Seq<char>| #[trigger] s.contains(u) <==> t.contains(u) by {
            assert(a.contains(u) <==> b.contains(u));
            lemma_precedes_irreflexive(x);
            if s.contains(u) {
                let k = choose|k: int| 0 <= k < s.len() && s[k] == u;
                assert(a[k] == u);
                assert(precedes(a[k], a[a.len() - 1]));
                let m = choose|m: int| 0 <= m < b.len() && b[m] == u;
                assert(t[m] == u);
            }
            if t.contains(u) {
                let k = choose|k: int| 0 <= k < t.len() && t[k] == u;
                assert(b[k] == u);
                assert(precedes(b[k], b[b.len() - 1]));
                let m = choose|m: int| 0 <= m < a.len() && a[m] == u;
                assert(s[m] == u);
            }
        }
        lemma_ordered_lists(s, t);
        assert(a =~= s.push(x));
        assert(b =~= t.push(y));
    }
}

/// There is only one merge of two lists.
pub proof fn law_one_merge(
    some: Seq<ServiceView>,
    other: Seq<ServiceView>,
    base: Seq<ServiceView>,
    overlay: Seq<ServiceView>,
)
    requires
        merges(some, base, overlay),
        merges(other, base, overlay),
    ensures
        some == other,
{
    let a = Seq::new(some.len(), |i: int| tld_at(some, i));
    let b = Seq::new(other.len(), |i: int| tld_at(other, i));
    assert forall|i: int, j: int| 0 <= i < j < a.len() implies precedes(a[i], a[j]) by {
        assert(precedes(tld_at(some, i), tld_at(some, j)));
    }
    assert forall|i: int, j: int| 0 <= i < j < b.len() implies precedes(b[i], b[j]) by {
        assert(precedes(tld_at(other, i), tld_at(other, j)));
    }
    assert forall|t: Seq<char>| #[trigger] a.contains(t) <==> b.contains(t) by {
        lemma_merge_tlds(some, base, overlay, t);
        lemma_merge_tlds(other, base, overlay, t);
        assert(listed(some, t) <==> listed(other, t));
    }
    lemma_ordered_lists(a, b);
    assert(a.len() == some.len() && b.len() == other.len());
    assert forall|i: int| 0 <= i < some.len() implies #[trigger] some[i] == other[i] by {
        assert(a[i] == b[i]);
        let tld = tld_at(some, i);
        assert(tld_at(other, i) == tld);
        let entry = seq![
            seq![tld],
            distinct(urls_for(base, tld) + urls_for(overlay, tld)),
        ];
        assert(some[i] == entry);
        assert(other[i] == entry);
    }
    assert(some =~= other);
}

/// The top-level domains of a merge's entries are those that it lists.
proof fn lemma_merge_tlds(
    out: Seq<ServiceView>,
    base: Seq<ServiceView>,
    overlay: Seq<ServiceView>,
    t: Seq<char>,
)
    requires
        merges(out, base, overlay),
    ensures
        listed(out, t) <==> Seq::new(out.len(), |i: int| tld_at(out, i)).contains(t),
{
    let a = Seq::new(out.len(), |i: int| tld_at(out, i));
    if listed(out, t) {
        let k = choose|k: int| 0 <= k < out.len() && service_tld(#[trigger] out[k]) == Some(t);
        assert(a[k] == t);
    }
    if a.contains(t) {
        let k = choose|k: int| 0 <= k < a.len() && a[k] == t;
        assert(out[k] == seq![
            seq![tld_at(out, k)],
            distinct(
                urls_for(base, tld_at(out, k)) + urls_for(overlay, tld_at(out, k)),
            ),
        ]);
        assert(service_tld(out[k]) == Some(t));
    }
}

/// After a merge a top-level domain has the URLs of the base and then those of the
/// overlay, each once.
pub proof fn law_merge_joins_urls(
    out: Seq<ServiceView>,
    base: Seq<ServiceView>,
    overlay: Seq<ServiceView>,
    tld: Seq<char>,
)
    requires
        merges(out, base, overlay),
    ensures
        urls_for(out, tld) == distinct(urls_for(base, tld) + urls_for(overlay, tld)),
        urls_for(out, tld).no_duplicates(),
{
    let all = urls_for(base, tld) + urls_for(overlay, tld);
    law_distinct(all);
    if listed(out, tld) {
        let k = choose|k: int| 0 <= k < out.len() && service_tld(#[trigger] out[k]) == Some(tld);
        assert(tld_at(out, k) == tld);
        lemma_urls_of_one(out, base, overlay, k, out.len() as int);
        assert(out.take(out.len() as int) =~= out);
    } else {
        lemma_not_listed(out, tld);
        lemma_not_listed(base, tld);
        lemma_not_listed(overlay, tld);
        assert(all =~= Seq::empty());
    }
}

/// Of the first entries of a merge only one gives URLs for its top-level domain.
proof fn lemma_urls_of_one(
    out: Seq<ServiceView>,
    base: Seq<ServiceView>,
    overlay: Seq<ServiceView>,
    k: int,
    n: int,
)
    requires
        merges(out, base, overlay),
        0 <= k < out.len(),
        0 <= n <= out.len(),
    ensures
        urls_for(out.take(n), tld_at(out, k)) == if k < n {
            service_urls(out[k])
        } else {
            Seq::empty()
        },
    decreases n,
{
    if n > 0 {
        let last = n - 1;
        lemma_urls_of_one(out, base, overlay, k, last);
        assert(out.take(n).drop_last() =~= out.take(last));
        assert(out.take(n).last() == out[last]);
        assert(out[last] == seq![
            seq![tld_at(out, last)],
            distinct(
                urls_for(base, tld_at(out, last)) + urls_for(overlay, tld_at(out, last)),
            ),
        ]);
        lemma_precedes_irreflexive(tld_at(out, k));
        if last < k {
            assert(precedes(tld_at(out, last), tld_at(out, k)));
        } else if k < last {
            assert(precedes(tld_at(out, k), tld_at(out, last)));
        } else {
            assert(Seq::<Seq<char>>::empty() + service_urls(out[k]) =~= service_urls(out[k]));
        }
    }
}

/// What the overlay says of a top-level domain wins over what the base says, and
/// where the overlay says nothing the base holds.
pub proof fn law_overlay_wins(
    base: Map<Seq<char>, Seq<char>>,
    overlay: Seq<(Seq<char>, Seq<char>)>,
    tld: Seq<char>,
)
    ensures
        (exists|i: int|
            0 <= i < overlay.len() && lower((#[trigger] overlay[i]).0) == tld) ==> {
            &&& with_servers(base, overlay).contains_key(tld)
            &&& exists|i: int|
                0 <= i < overlay.len() && lower((#[trigger] overlay[i]).0) == tld
                    && with_servers(base, overlay)[tld] == overlay[i].1
        },
        (forall|i: int|
            0 <= i < overlay.len() ==> lower((#[trigger] overlay[i]).0) != tld) ==> {
            &&& with_servers(base, overlay).contains_key(tld) == base.contains_key(tld)
            &&& base.contains_key(tld) ==> with_servers(base, overlay)[tld] == base[tld]
        },
    decreases overlay.len(),
{
    if overlay.len() > 0 {
        let before = overlay.drop_last();
        law_overlay_wins(base, before, tld);
        assert(overlay[overlay.len() - 1] == overlay.last());
        assert(forall|i: int| 0 <= i < before.len() ==> before[i] == overlay[i]);
        if lower(overlay.last().0) == tld {
            assert(with_servers(base, overlay)[tld] == overlay[overlay.len() - 1].1);
        } else if exists|i: int|
            0 <= i < overlay.len() && lower((#[trigger] overlay[i]).0) == tld {
            let i = choose|i: int|
                0 <= i < overlay.len() && lower((#[trigger] overlay[i]).0) == tld;
            assert(lower(before[i].0) == tld);
            let j = choose|j: int|
                0 <= j < before.len() && lower((#[trigger] before[j]).0) == tld
                    && with_servers(base, before)[tld] == before[j].1;
            assert(overlay[j] == before[j]);
        }
    }
}

/// An entry gives its URLs for its first top-level domain, and for no other. One without a
/// top-level domain, or without URLs, gives none.
pub proof fn law_urls_of_an_entry(entry: ServiceView, tld: Seq<char>)
    ensures
        entry.len() > 1 && entry[0].len() > 0 ==> urls_for(seq![entry], entry[0][0]) == entry[1],
        entry.len() > 0 && entry[0].len() > 0 && entry[0][0] != tld ==> urls_for(
            seq![entry],
            tld,
        ).len() == 0,
        entry.len() == 0 || entry[0].len() == 0 || entry.len() == 1 ==> urls_for(
            seq![entry],
            tld,
        ).len() == 0,
{
    assert(seq![entry].drop_last() =~= Seq::empty());
    assert(urls_for(Seq::<ServiceView>::empty(), tld) =~= Seq::empty());
    if entry.len() > 1 && entry[0].len() > 0 {
        let own = entry[0][0];
        assert(urls_for(Seq::<ServiceView>::empty(), own) =~= Seq::empty());
        assert(urls_for(seq![entry], own) =~= entry[1]);
    }
}

/// The URLs of two lists stand one after the other.
pub proof fn law_urls_of_lists(a: Seq<ServiceView>, b: Seq<ServiceView>, tld: Seq<char>)
    ensures
        urls_for(a + b, tld) == urls_for(a, tld) + urls_for(b, tld),
{
    lemma_urls_concat(a, b, tld);
}

/// A merge loses no URL, adds none, and gives none to another top-level domain.
pub proof fn law_no_url_is_lost(
    out: Seq<ServiceView>,
    base: Seq<ServiceView>,
    overlay: Seq<ServiceView>,
    tld: Seq<char>,
    url: Seq<char>,
)
    requires
        merges(out, base, overlay),
    ensures
        urls_for(out, tld).contains(url) <==> urls_for(base, tld).contains(url) || urls_for(
            overlay,
            tld,
        ).contains(url),
{
    let a = urls_for(base, tld);
    let b = urls_for(overlay, tld);
    law_merge_joins_urls(out, base, overlay, tld);
    law_distinct(a + b);
    if a.contains(url) {
        let i = choose|i: int| 0 <= i < a.len() && a[i] == url;
        assert((a + b)[i] == url);
    }
    if b.contains(url) {
        let i = choose|i: int| 0 <= i < b.len() && b[i] == url;
        assert((a + b)[a.len() + i] == url);
    }
    if (a + b).contains(url) {
        let i = choose|i: int| 0 <= i < (a + b).len() && (a + b)[i] == url;
        if i < a.len() {
            assert(a[i] == url);
        } else {
            assert(b[i - a.len()] == url);
        }
    }
}

/// The URLs that an optional list gives for a top-level domain.
pub open spec fn urls_in(list: Option<RdapBootstrap>, tld: Seq<char>) -> Seq<Seq<char>> {
    match list {
        Some(list) => urls_for(list.services.deep_view(), tld),
        None => Seq::empty(),
    }
}

/// What is loaded has the URLs of the bundled list, of the cached one and of the user's, and
/// no others; where the user's is to replace the others it has those of that list alone.
pub proof fn law_loaded_urls(
    r: RdapBootstrap,
    bundled: RdapBootstrap,
    cached: Option<RdapBootstrap>,
    user: Option<RdapBootstrap>,
    no_merge: bool,
    tld: Seq<char>,
    url: Seq<char>,
)
    requires
        loaded_rdap(r, bundled, cached, user, no_merge),
    ensures
        no_merge && user is Some ==> r == user->0,
        cached is None && user is None ==> r == bundled,
        !(no_merge && user is Some) ==> (urls_in(Some(r), tld).contains(url) <==> urls_in(
            Some(bundled),
            tld,
        ).contains(url) || urls_in(cached, tld).contains(url) || urls_in(user, tld).contains(url)),
{
    if !(no_merge && user is Some) {
        let base = choose|base: RdapBootstrap| #[trigger]
            overlaid_rdap(base, bundled, cached) && overlaid_rdap(r, base, user);
        if let Some(c) = cached {
            law_no_url_is_lost(
                base.services.deep_view(),
                bundled.services.deep_view(),
                c.services.deep_view(),
                tld,
                url,
            );
        }
        if let Some(u) = user {
            law_no_url_is_lost(
                r.services.deep_view(),
                base.services.deep_view(),
                u.services.deep_view(),
                tld,
                url,
            );
        }
    }
}

/// Whether a list has an entry for a top-level domain.
pub open spec fn names_host(list: Option<WhoisBootstrap>, tld: Seq<char>) -> bool {
    list matches Some(w) && exists|i: int|
        0 <= i < w.servers.list().len() && lower((#[trigger] w.servers.list()[i]).0) == tld
}

/// Whether a host is what an entry of a list gives for a top-level domain.
pub open spec fn gives_host(list: Option<WhoisBootstrap>, tld: Seq<char>, host: Seq<char>) -> bool {
    list matches Some(w) && exists|i: int|
        0 <= i < w.servers.list().len() && lower((#[trigger] w.servers.list()[i]).0) == tld
            && w.servers.list()[i].1 == host
}

/// The user's host for a top-level domain counts before that of the cached list, and that
/// before the bundled one. Where the user's list is to replace the others it counts alone.
pub proof fn law_loaded_hosts(
    r: WhoisBootstrap,
    bundled: WhoisBootstrap,
    cached: Option<WhoisBootstrap>,
    user: Option<WhoisBootstrap>,
    no_merge: bool,
    tld: Seq<char>,
)
    requires
        loaded_whois(r, bundled, cached, user, no_merge),
    ensures
        no_merge && user is Some ==> r == user->0,
        cached is None && user is None ==> r == bundled,
        !(no_merge && user is Some) ==> {
            &&& names_host(user, tld) ==> r.servers@.contains_key(tld) && gives_host(
                user,
                tld,
                r.servers@[tld],
            )
            &&& !names_host(user, tld) && names_host(cached, tld) ==> r.servers@.contains_key(tld)
                && gives_host(cached, tld, r.servers@[tld])
            &&& !names_host(user, tld) && !names_host(cached, tld) ==> {
                &&& r.servers@.contains_key(tld) == bundled.servers@.contains_key(tld)
                &&& bundled.servers@.contains_key(tld) ==> r.servers@[tld] == bundled.servers@[tld]
            }
        },
{
    if !(no_merge && user is Some) {
        let base = choose|base: WhoisBootstrap| #[trigger]
            overlaid_whois(base, bundled, cached) && overlaid_whois(r, base, user);
        if let Some(c) = cached {
            law_overlay_wins(bundled.servers@, c.servers.list(), tld);
        }
        if let Some(u) = user {
            law_overlay_wins(base.servers@, u.servers.list(), tld);
        }
    }
}

/// A new value for a key is a new value in the map, and no other key changes.
pub proof fn law_entries(
    entries: Seq<(Seq<char>, Seq<char>)>,
    key: Seq<char>,
    value: Seq<char>,
)
    ensures
        map_of(with_entry(entries, key, value)) == map_of(entries).insert(key, value),
        map_of(Seq::empty()) == Map::<Seq<char>, Seq<char>>::empty(),
{
    lemma_last_place(entries, key);
    match last_place(entries, key) {
        Some(i) => {
            lemma_map_of_update(entries, i, value);
        },
        None => {
            assert(entries.push((key, value)).drop_last() =~= entries);
        },
    }
}

/// What is found is the last entry for a key.
proof fn lemma_last_place(entries: Seq<(Seq<char>, Seq<char>)>, key: Seq<char>)
    ensures
        match last_place(entries, key) {
            Some(i) => 0 <= i < entries.len() && entries[i].0 == key && forall|j: int|
                i < j < entries.len() ==> (#[trigger] entries[j]).0 != key,
            None => forall|j: int| 0 <= j < entries.len() ==> (#[trigger] entries[j]).0 != key,
        },
    decreases entries.len(),
{
    if entries.len() > 0 {
        let less = entries.drop_last();
        assert(entries[entries.len() - 1] == entries.last());
        lemma_last_place(less, key);
        if entries.last().0 != key {
            assert(forall|j: int| 0 <= j < less.len() ==> less[j] == entries[j]);
        }
    }
}

/// A top-level domain is known, in lower case, as soon as an RDAP entry or a WHOIS entry is
/// for it, and only then.
pub proof fn law_known_by_their_servers(
    services: Seq<ServiceView>,
    entries: Seq<(Seq<char>, Seq<char>)>,
    t: Seq<char>,
)
    ensures
        service_tlds(services).contains(t) <==> exists|i: int|
            0 <= i < services.len() && (#[trigger] services[i]).len() > 0 && services[i][0].len() > 0
                && lower(services[i][0][0]) == t,
        entry_tlds(entries).contains(t) <==> exists|i: int|
            0 <= i < entries.len() && lower((#[trigger] entries[i]).0) == t,
    decreases services.len() + entries.len(),
{
    if services.len() > 0 {
        let less = services.drop_last();
        law_known_by_their_servers(less, entries, t);
        assert(services[services.len() - 1] == services.last());
        assert(forall|i: int| 0 <= i < less.len() ==> less[i] == services[i]);
        if service_tlds(less).contains(t) {
            let i = choose|i: int|
                0 <= i < less.len() && (#[trigger] less[i]).len() > 0 && less[i][0].len() > 0
                    && lower(less[i][0][0]) == t;
            assert(services[i] == less[i]);
        }
    }
    if entries.len() > 0 {
        let less = entries.drop_last();
        law_known_by_their_servers(services, less, t);
        assert(entries[entries.len() - 1] == entries.last());
        assert(forall|i: int| 0 <= i < less.len() ==> less[i] == entries[i]);
        if entry_tlds(less).contains(t) {
            let i = choose|i: int| 0 <= i < less.len() && lower((#[trigger] less[i]).0) == t;
            assert(entries[i] == less[i]);
        }
    }
}

/// What a list says of itself is that of the list that others are laid over.
pub proof fn law_merges_keep_the_description(
    r: RdapBootstrap,
    base: RdapBootstrap,
    overlay: RdapBootstrap,
    w: WhoisBootstrap,
    whois_base: WhoisBootstrap,
    whois_overlay: WhoisBootstrap,
)
    requires
        merged_rdap(r, base, overlay),
        merged_whois(w, whois_base, whois_overlay),
    ensures
        r.description@ == base.description@,
        r.publication@ == base.publication@,
        r.version@ == base.version@,
        w.description@ == whois_base.description@,
        w.version@ == whois_base.version@,
{
}

/// A merge has one entry for each top-level domain of either list and no others, with that
/// top-level domain alone and its URLs, in the order of the top-level domains.
pub proof fn law_merged_entries(
    out: Seq<ServiceView>,
    base: Seq<ServiceView>,
    overlay: Seq<ServiceView>,
    tld: Seq<char>,
    i: int,
    j: int,
)
    requires
        merges(out, base, overlay),
        0 <= i < j < out.len(),
    ensures
        out[i].len() == 2,
        out[i][0].len() == 1,
        precedes(out[i][0][0], out[j][0][0]),
        (exists|k: int| 0 <= k < out.len() && (#[trigger] out[k])[0][0] == tld) <==> (exists|k: int|
            0 <= k < base.len() && (#[trigger] base[k]).len() > 0 && base[k][0].len() > 0
                && base[k][0][0] == tld) || (exists|k: int|
            0 <= k < overlay.len() && (#[trigger] overlay[k]).len() > 0 && overlay[k][0].len() > 0
                && overlay[k][0][0] == tld),
{
    assert(out[i] == seq![
        seq![tld_at(out, i)],
        distinct(urls_for(base, tld_at(out, i)) + urls_for(overlay, tld_at(out, i))),
    ]);
    assert(precedes(tld_at(out, i), tld_at(out, j)));
    lemma_merge_tlds(out, base, overlay, tld);
    let tlds = Seq::new(out.len(), |i: int| tld_at(out, i));
    if exists|k: int| 0 <= k < out.len() && (#[trigger] out[k])[0][0] == tld {
        let k = choose|k: int| 0 <= k < out.len() && (#[trigger] out[k])[0][0] == tld;
        assert(tlds[k] == tld);
        assert(listed(out, tld));
        if listed(base, tld) {
            let k = choose|k: int|
                0 <= k < base.len() && service_tld(#[trigger] base[k]) == Some(tld);
            assert(base[k].len() > 0 && base[k][0].len() > 0 && base[k][0][0] == tld);
        } else {
            let k = choose|k: int|
                0 <= k < overlay.len() && service_tld(#[trigger] overlay[k]) == Some(tld);
            assert(overlay[k].len() > 0 && overlay[k][0].len() > 0 && overlay[k][0][0] == tld);
        }
    }
    if exists|k: int|
        0 <= k < base.len() && (#[trigger] base[k]).len() > 0 && base[k][0].len() > 0
            && base[k][0][0] == tld {
        let k = choose|k: int|
            0 <= k < base.len() && (#[trigger] base[k]).len() > 0 && base[k][0].len() > 0
                && base[k][0][0] == tld;
        assert(service_tld(base[k]) == Some(tld));
        assert(listed(base, tld));
        assert(listed(out, tld));
        let m = choose|m: int| 0 <= m < tlds.len() && tlds[m] == tld;
        assert(out[m][0][0] == tld);
    }
    if exists|k: int|
        0 <= k < overlay.len() && (#[trigger] overlay[k]).len() > 0 && overlay[k][0].len() > 0
            && overlay[k][0][0] == tld {
        let k = choose|k: int|
            0 <= k < overlay.len() && (#[trigger] overlay[k]).len() > 0 && overlay[k][0].len() > 0
                && overlay[k][0][0] == tld;
        assert(service_tld(overlay[k]) == Some(tld));
        assert(listed(overlay, tld));
        assert(listed(out, tld));
        let m = choose|m: int| 0 <= m < tlds.len() && tlds[m] == tld;
        assert(out[m][0][0] == tld);
    }
}

} // verus!
