//! The domain object: the JSON document in which an RDAP server describes a
//! domain.

use vstd::prelude::*;

use crate::json::{is_record, json_option, member, Json, JsonView};
use crate::models::{text_of, DetailsView, LookupDetails};
use crate::text::same_text;

verus! {

// ---------- reading ----------

/// One party to a domain.
pub struct EntityView {
    pub handle: Option<Seq<char>>,
    pub roles: Seq<Seq<char>>,
    pub vcard: Option<JsonView>,
}

/// Something that happened to a domain.
pub struct EventView {
    pub action: Option<Seq<char>>,
    pub date: Option<Seq<char>>,
}

/// The parts of a domain object that count.
pub struct DomainView {
    pub entities: Seq<EntityView>,
    pub nameservers: Seq<Option<Seq<char>>>,
    pub events: Seq<EventView>,
}

/// A text.
pub open spec fn as_text(j: JsonView) -> Option<Seq<char>> {
    match j {
        JsonView::Text(t) => Some(t),
        _ => None,
    }
}

/// An optional text: absent, null or a text. The outer option says whether the
/// value is one of these.
pub open spec fn optional_text(o: Option<JsonView>) -> Option<Option<Seq<char>>> {
    match o {
        None => Some(None),
        Some(JsonView::Null) => Some(None),
        Some(JsonView::Text(t)) => Some(Some(t)),
        Some(_) => None,
    }
}

/// Each item as `f` reads it, if it can read all of them.
pub open spec fn all_of<T>(items: Seq<JsonView>, f: spec_fn(JsonView) -> Option<T>) -> Option<Seq<T>>
    decreases items.len(),
{
    if items.len() == 0 {
        Some(Seq::empty())
    } else {
        match (all_of(items.drop_last(), f), f(items.last())) {
            (Some(before), Some(last)) => Some(before.push(last)),
            _ => None,
        }
    }
}

/// A list that may be absent, each item as `f` reads it.
pub open spec fn list_of<T>(o: Option<JsonView>, f: spec_fn(JsonView) -> Option<T>) -> Option<
    Seq<T>,
> {
    match o {
        None => Some(Seq::empty()),
        Some(JsonView::Array(items)) => all_of(items, f),
        Some(_) => None,
    }
}

/// The texts of a list.
pub open spec fn texts(o: Option<JsonView>) -> Option<Seq<Seq<char>>> {
    list_of(o, |j: JsonView| as_text(j))
}

/// A party, as an RDAP document writes it.
pub open spec fn as_entity(j: JsonView) -> Option<EntityView> {
    let handle = optional_text(crate::json::field(j, 0, "handle"@));
    let roles = texts(crate::json::field(j, 1, "roles"@));
    let vcard = crate::json::field(j, 2, "vcardArray"@);
    if !is_record(j, 3) || handle is None || roles is None {
        None
    } else {
        Some(
            EntityView {
                handle: handle->0,
                roles: roles->0,
                vcard: if vcard == Some(JsonView::Null) {
                    None
                } else {
                    vcard
                },
            },
        )
    }
}

/// A nameserver, as an RDAP document writes it: its name, if it has one.
pub open spec fn as_nameserver(j: JsonView) -> Option<Option<Seq<char>>> {
    if is_record(j, 1) {
        optional_text(crate::json::field(j, 0, "ldhName"@))
    } else {
        None
    }
}

/// An event, as an RDAP document writes it.
pub open spec fn as_event(j: JsonView) -> Option<EventView> {
    let action = optional_text(crate::json::field(j, 0, "eventAction"@));
    let date = optional_text(crate::json::field(j, 1, "eventDate"@));
    if !is_record(j, 2) || action is None || date is None {
        None
    } else {
        Some(EventView { action: action->0, date: date->0 })
    }
}

/// A domain object, as an RDAP document writes it.
pub open spec fn as_domain(j: JsonView) -> Option<DomainView> {
    let entities = list_of(
        crate::json::field(j, 2, "entities"@),
        |e: JsonView| as_entity(e),
    );
    let nameservers = list_of(
        crate::json::field(j, 3, "nameservers"@),
        |n: JsonView| as_nameserver(n),
    );
    let events = list_of(crate::json::field(j, 4, "events"@), |e: JsonView| as_event(e));
    if !is_record(j, 6) || optional_text(crate::json::field(j, 0, "handle"@)) is None
        || optional_text(crate::json::field(j, 1, "ldh_name"@)) is None || texts(
        crate::json::field(j, 5, "status"@),
    ) is None || entities is None || nameservers is None || events is None {
        None
    } else {
        Some(
            DomainView {
                entities: entities->0,
                nameservers: nameservers->0,
                events: events->0,
            },
        )
    }
}

struct RdapEntity<'a> {
    handle: Option<String>,
    roles: Vec<String>,
    vcard_array: Option<&'a Json>,
}

struct RdapEvent {
    event_action: Option<String>,
    event_date: Option<String>,
}

struct RdapDomain<'a> {
    entities: Vec<RdapEntity<'a>>,
    nameservers: Vec<Option<String>>,
    events: Vec<RdapEvent>,
}

impl<'a> View for RdapEntity<'a> {
    type V = EntityView;

    closed spec fn view(&self) -> EntityView {
        EntityView {
            handle: text_of(self.handle),
            roles: self.roles.deep_view(),
            vcard: json_option(self.vcard_array),
        }
    }
}

impl View for RdapEvent {
    type V = EventView;

    closed spec fn view(&self) -> EventView {
        EventView {
            action: text_of(self.event_action),
            date: text_of(self.event_date),
        }
    }
}

impl<'a> View for RdapDomain<'a> {
    type V = DomainView;

    closed spec fn view(&self) -> DomainView {
        DomainView {
            entities: self.entities@.map_values(|e: RdapEntity| e@),
            nameservers: self.nameservers@.map_values(
                |n: Option<String>| text_of(n),
            ),
            events: self.events@.map_values(|e: RdapEvent| e@),
        }
    }
}

/// Where the first items cannot be read, all of them cannot.
proof fn lemma_all_of_none<T>(items: Seq<JsonView>, f: spec_fn(JsonView) -> Option<T>, n: int)
    requires
        0 <= n <= items.len(),
        all_of(items.take(n), f) is None,
    ensures
        all_of(items, f) is None,
    decreases items.len(),
{
    if n == items.len() {
        assert(items.take(n) =~= items);
    } else {
        assert(items.drop_last().take(n) =~= items.take(n));
        lemma_all_of_none(items.drop_last(), f, n);
    }
}

/// Reads an optional text.
fn read_text(o: Option<&Json>) -> (r: Option<Option<String>>)
    ensures
        match optional_text(json_option(o)) {
            Some(t) => r matches Some(s) && text_of(s) == t,
            None => r is None,
        },
{
    match o {
        None => Some(None),
        Some(Json::Null) => Some(None),
        Some(Json::Text(s)) => Some(Some(s.clone())),
        Some(_) => None,
    }
}

/// Reads a list of texts.
fn read_texts(o: Option<&Json>) -> (r: Option<Vec<String>>)
    ensures
        match texts(json_option(o)) {
            Some(t) => r matches Some(v) && v.deep_view() == t,
            None => r is None,
        },
{
    let ghost f = |j: JsonView| as_text(j);
    let mut out: Vec<String> = Vec::new();
    proof {
        assert(out.deep_view() =~= Seq::<Seq<char>>::empty());
    }
    let items = match o {
        None => {
            return Some(out);
        },
        Some(Json::Array(items)) => items,
        Some(_) => {
            return None;
        },
    };
    let ghost all = o->0@->Array_0;
    let mut i: usize = 0;
    while i < items.len()
        invariant
            i <= items@.len(),
            f == |j: JsonView| as_text(j),
            o == Some(&Json::Array(*items)),
            all == o->0@->Array_0,
            all_of(all.take(i as int), f) == Some(out.deep_view()),
        decreases items@.len() - i,
    {
        let ghost was = out.deep_view();
        proof {
            assert(all.take(i + 1).drop_last() =~= all.take(i as int));
            assert(all.take(i + 1).last() == items@[i as int]@);
        }
        match &items[i] {
            Json::Text(s) => {
                out.push(s.clone());
                proof {
                    assert(out.deep_view() =~= was.push(s@));
                }
            },
            _ => {
                proof {
                    lemma_all_of_none(all, f, i + 1);
                }
                return None;
            },
        }
        i += 1;
    }
    proof {
        assert(all.take(i as int) =~= all);
    }
    Some(out)
}

/// Reads a party.
fn read_entity<'a>(j: &'a Json) -> (r: Option<RdapEntity<'a>>)
    ensures
        match as_entity(j@) {
            Some(e) => r matches Some(v) && v@ == e,
            None => r is None,
        },
{
    if !j.is_record(3) {
        return None;
    }
    let handle = match read_text(j.field(0, "handle")) {
        Some(handle) => handle,
        None => {
            return None;
        },
    };
    let roles = match read_texts(j.field(1, "roles")) {
        Some(roles) => roles,
        None => {
            return None;
        },
    };
    let vcard_array = match j.field(2, "vcardArray") {
        Some(Json::Null) => None,
        vcard => vcard,
    };
    Some(RdapEntity { handle, roles, vcard_array })
}

/// Reads a nameserver.
fn read_nameserver(j: &Json) -> (r: Option<Option<String>>)
    ensures
        match as_nameserver(j@) {
            Some(n) => r matches Some(v) && text_of(v) == n,
            None => r is None,
        },
{
    if j.is_record(1) {
        read_text(j.field(0, "ldhName"))
    } else {
        None
    }
}

/// Reads an event.
fn read_event(j: &Json) -> (r: Option<RdapEvent>)
    ensures
        match as_event(j@) {
            Some(e) => r matches Some(v) && v@ == e,
            None => r is None,
        },
{
    if !j.is_record(2) {
        return None;
    }
    let event_action = match read_text(j.field(0, "eventAction")) {
        Some(action) => action,
        None => {
            return None;
        },
    };
    let event_date = match read_text(j.field(1, "eventDate")) {
        Some(date) => date,
        None => {
            return None;
        },
    };
    Some(RdapEvent { event_action, event_date })
}

/// Reads a list of parties.
fn read_entities<'a>(o: Option<&'a Json>) -> (r: Option<Vec<RdapEntity<'a>>>)
    ensures
        match list_of(json_option(o), |j: JsonView| as_entity(j)) {
            Some(t) => r matches Some(v) && v@.map_values(|e: RdapEntity<'a>| e@) == t,
            None => r is None,
        },
{
    let ghost f = |j: JsonView| as_entity(j);
    let mut out: Vec<RdapEntity<'a>> = Vec::new();
    proof {
        assert(out@.map_values(|e: RdapEntity<'a>| e@) =~= Seq::empty());
    }
    let items = match o {
        None => {
            return Some(out);
        },
        Some(Json::Array(items)) => items,
        Some(_) => {
            return None;
        },
    };
    let ghost all = o->0@->Array_0;
    let mut i: usize = 0;
    while i < items.len()
        invariant
            i <= items@.len(),
            f == |j: JsonView| as_entity(j),
            o == Some(&Json::Array(*items)),
            all == o->0@->Array_0,
            all_of(all.take(i as int), f) == Some(out@.map_values(|e: RdapEntity<'a>| e@)),
        decreases items@.len() - i,
    {
        let ghost was = out@.map_values(|e: RdapEntity<'a>| e@);
        proof {
            assert(all.take(i + 1).drop_last() =~= all.take(i as int));
            assert(all.take(i + 1).last() == items@[i as int]@);
        }
        match read_entity(&items[i]) {
            Some(item) => {
                out.push(item);
                proof {
                    assert(out@.map_values(|e: RdapEntity<'a>| e@) =~= was.push(item@));
                }
            },
            None => {
                proof {
                    lemma_all_of_none(all, f, i + 1);
                }
                return None;
            },
        }
        i += 1;
    }
    proof {
        assert(all.take(i as int) =~= all);
    }
    Some(out)
}

/// Reads a list of nameservers.
fn read_nameservers(o: Option<&Json>) -> (r: Option<Vec<Option<String>>>)
    ensures
        match list_of(json_option(o), |j: JsonView| as_nameserver(j)) {
            Some(t) => r matches Some(v) && v@.map_values(|n: Option<String>| text_of(n)) == t,
            None => r is None,
        },
{
    let ghost f = |j: JsonView| as_nameserver(j);
    let mut out: Vec<Option<String>> = Vec::new();
    proof {
        assert(out@.map_values(|n: Option<String>| text_of(n)) =~= Seq::empty());
    }
    let items = match o {
        None => {
            return Some(out);
        },
        Some(Json::Array(items)) => items,
        Some(_) => {
            return None;
        },
    };
    let ghost all = o->0@->Array_0;
    let mut i: usize = 0;
    while i < items.len()
        invariant
            i <= items@.len(),
            f == |j: JsonView| as_nameserver(j),
            o == Some(&Json::Array(*items)),
            all == o->0@->Array_0,
            all_of(all.take(i as int), f) == Some(out@.map_values(|n: Option<String>| text_of(n))),
        decreases items@.len() - i,
    {
        let ghost was = out@.map_values(|n: Option<String>| text_of(n));
        proof {
            assert(all.take(i + 1).drop_last() =~= all.take(i as int));
            assert(all.take(i + 1).last() == items@[i as int]@);
        }
        match read_nameserver(&items[i]) {
            Some(item) => {
                out.push(item);
                proof {
                    assert(out@.map_values(|n: Option<String>| text_of(n)) =~= was.push(text_of(item)));
                }
            },
            None => {
                proof {
                    lemma_all_of_none(all, f, i + 1);
                }
                return None;
            },
        }
        i += 1;
    }
    proof {
        assert(all.take(i as int) =~= all);
    }
    Some(out)
}

/// Reads a list of events.
fn read_events(o: Option<&Json>) -> (r: Option<Vec<RdapEvent>>)
    ensures
        match list_of(json_option(o), |j: JsonView| as_event(j)) {
            Some(t) => r matches Some(v) && v@.map_values(|e: RdapEvent| e@) == t,
            None => r is None,
        },
{
    let ghost f = |j: JsonView| as_event(j);
    let mut out: Vec<RdapEvent> = Vec::new();
    proof {
        assert(out@.map_values(|e: RdapEvent| e@) =~= Seq::empty());
    }
    let items = match o {
        None => {
            return Some(out);
        },
        Some(Json::Array(items)) => items,
        Some(_) => {
            return None;
        },
    };
    let ghost all = o->0@->Array_0;
    let mut i: usize = 0;
    while i < items.len()
        invariant
            i <= items@.len(),
            f == |j: JsonView| as_event(j),
            o == Some(&Json::Array(*items)),
            all == o->0@->Array_0,
            all_of(all.take(i as int), f) == Some(out@.map_values(|e: RdapEvent| e@)),
        decreases items@.len() - i,
    {
        let ghost was = out@.map_values(|e: RdapEvent| e@);
        proof {
            assert(all.take(i + 1).drop_last() =~= all.take(i as int));
            assert(all.take(i + 1).last() == items@[i as int]@);
        }
        match read_event(&items[i]) {
            Some(item) => {
                out.push(item);
                proof {
                    assert(out@.map_values(|e: RdapEvent| e@) =~= was.push(item@));
                }
            },
            None => {
                proof {
                    lemma_all_of_none(all, f, i + 1);
                }
                return None;
            },
        }
        i += 1;
    }
    proof {
        assert(all.take(i as int) =~= all);
    }
    Some(out)
}

/// Reads a domain object.
fn read_domain<'a>(j: &'a Json) -> (r: Option<RdapDomain<'a>>)
    ensures
        match as_domain(j@) {
            Some(d) => r matches Some(v) && v@ == d,
            None => r is None,
        },
{
    if !j.is_record(6) || read_text(j.field(0, "handle")).is_none() || read_text(
        j.field(1, "ldh_name"),
    ).is_none() || read_texts(j.field(5, "status")).is_none() {
        return None;
    }
    let entities = match read_entities(j.field(2, "entities")) {
        Some(entities) => entities,
        None => {
            return None;
        },
    };
    let nameservers = match read_nameservers(j.field(3, "nameservers")) {
        Some(nameservers) => nameservers,
        None => {
            return None;
        },
    };
    let events = match read_events(j.field(4, "events")) {
        Some(events) => events,
        None => {
            return None;
        },
    };
    Some(RdapDomain { entities, nameservers, events })
}

// ---------- details ----------

/// The value of a vCard field: its fourth part, a text or a list that begins with
/// one.
pub open spec fn vcard_value(field: Seq<JsonView>) -> Option<Seq<char>> {
    if field.len() > 3 {
        match field[3] {
            JsonView::Text(s) => Some(s),
            JsonView::Array(items) => if items.len() > 0 {
                as_text(items[0])
            } else {
                None
            },
            _ => None,
        }
    } else {
        None
    }
}

/// The value of the first field `fn` that has one. The search ends at something
/// that is no field: a field is a list that begins with its name.
pub open spec fn formatted_name(fields: Seq<JsonView>) -> Option<Seq<char>>
    decreases fields.len(),
{
    if fields.len() == 0 {
        None
    } else {
        match fields[0] {
            JsonView::Array(field) => if field.len() == 0 {
                None
            } else {
                match field[0] {
                    JsonView::Text(name) => if name == "fn"@ && vcard_value(field) is Some {
                        vcard_value(field)
                    } else {
                        formatted_name(fields.drop_first())
                    },
                    _ => None,
                }
            },
            _ => None,
        }
    }
}

/// The formatted name in a vCard, which is a list of a tag and a list of fields.
pub open spec fn vcard_name(vcard: JsonView) -> Option<Seq<char>> {
    match vcard {
        JsonView::Array(parts) => if parts.len() > 1 {
            match parts[1] {
                JsonView::Array(fields) => formatted_name(fields),
                _ => None,
            }
        } else {
            None
        },
        _ => None,
    }
}

/// The name of a party: the formatted name in its vCard, else its handle.
pub open spec fn entity_name(e: EntityView) -> Option<Seq<char>> {
    match e.vcard {
        Some(vcard) => match vcard_name(vcard) {
            Some(name) => Some(name),
            None => e.handle,
        },
        None => e.handle,
    }
}

/// The name of the last party that is a registrar and has a name.
pub open spec fn registrar(entities: Seq<EntityView>) -> Option<Seq<char>>
    decreases entities.len(),
{
    if entities.len() == 0 {
        None
    } else if entities.last().roles.contains("registrar"@) && entity_name(entities.last()) is Some {
        entity_name(entities.last())
    } else {
        registrar(entities.drop_last())
    }
}

/// The words for the creation of a domain.
pub open spec fn is_creation(action: Seq<char>) -> bool {
    action == "registration"@ || action == "creation"@ || action == "registered"@
}

/// The words for the end of a registration.
pub open spec fn is_expiry(action: Seq<char>) -> bool {
    action == "expiration"@ || action == "expiry"@ || action == "expire"@
}

/// The date of the last creation.
pub open spec fn creation_date(events: Seq<EventView>) -> Option<Seq<char>>
    decreases events.len(),
{
    if events.len() == 0 {
        None
    } else if events.last().action is Some && is_creation(events.last().action->0) {
        events.last().date
    } else {
        creation_date(events.drop_last())
    }
}

/// The date of the last expiry.
pub open spec fn expiry_date(events: Seq<EventView>) -> Option<Seq<char>>
    decreases events.len(),
{
    if events.len() == 0 {
        None
    } else if events.last().action is Some && is_expiry(events.last().action->0) {
        events.last().date
    } else {
        expiry_date(events.drop_last())
    }
}

/// The texts that are there, in order.
pub open spec fn present(list: Seq<Option<Seq<char>>>) -> Seq<Seq<char>>
    decreases list.len(),
{
    if list.len() == 0 {
        Seq::empty()
    } else {
        match list.last() {
            Some(t) => present(list.drop_last()).push(t),
            None => present(list.drop_last()),
        }
    }
}

/// What a document says of a domain. A document that is no domain object says
/// nothing.
pub open spec fn domain_details(document: JsonView) -> DetailsView {
    match as_domain(document) {
        None => DetailsView::blank(),
        Some(d) => DetailsView {
            registrar: registrar(d.entities),
            creation_date: creation_date(d.events),
            expiry_date: expiry_date(d.events),
            nameservers: present(d.nameservers),
            registry: None,
            server: None,
        },
    }
}

/// The value of a vCard field.
fn read_vcard_value(field: &Vec<Json>) -> (r: Option<String>)
    ensures
        text_of(r) == vcard_value(Json::Array(*field)@->Array_0),
{
    if field.len() > 3 {
        proof {
            assert(Json::Array(*field)@->Array_0[3] == field@[3]@);
        }
        match &field[3] {
            Json::Text(s) => Some(s.clone()),
            Json::Array(items) => if items.len() > 0 {
                proof {
                    assert(field@[3]@->Array_0[0] == items@[0]@);
                }
                match &items[0] {
                    Json::Text(s) => Some(s.clone()),
                    _ => None,
                }
            } else {
                None
            },
            _ => None,
        }
    } else {
        None
    }
}

/// The formatted name in a vCard.
pub fn vcard_name_field(vcard: &Json) -> (r: Option<String>)
    ensures
        text_of(r) == vcard_name(vcard@),
{
    let fields = match vcard {
        Json::Array(parts) => if parts.len() > 1 {
            proof {
                assert(vcard@->Array_0[1] == parts@[1]@);
            }
            match &parts[1] {
                Json::Array(fields) => fields,
                _ => {
                    return None;
                },
            }
        } else {
            return None;
        },
        _ => {
            return None;
        },
    };
    let ghost all = Json::Array(*fields)@->Array_0;
    let mut i: usize = 0;
    proof {
        assert(all.skip(0) =~= all);
        assert(vcard_name(vcard@) == formatted_name(all));
    }
    while i < fields.len()
        invariant
            i <= fields@.len(),
            all == Json::Array(*fields)@->Array_0,
            formatted_name(all) == formatted_name(all.skip(i as int)),
            vcard_name(vcard@) == formatted_name(all),
        decreases fields@.len() - i,
    {
        proof {
            assert(all.skip(i as int)[0] == fields@[i as int]@);
            assert(all.skip(i as int).drop_first() =~= all.skip(i + 1));
        }
        let field = match &fields[i] {
            Json::Array(field) => field,
            _ => {
                return None;
            },
        };
        if field.len() == 0 {
            return None;
        }
        proof {
            assert(fields@[i as int]@->Array_0[0] == field@[0]@);
        }
        match &field[0] {
            Json::Text(name) => if same_text(name.as_str(), "fn") {
                let value = read_vcard_value(field);
                if value.is_some() {
                    return value;
                }
            },
            _ => {
                return None;
            },
        }
        i += 1;
    }
    None
}

/// Whether `role` is among the roles.
fn has_role(roles: &Vec<String>, role: &str) -> (r: bool)
    ensures
        r == roles.deep_view().contains(role@),
{
    let mut i: usize = 0;
    while i < roles.len()
        invariant
            i <= roles@.len(),
            forall|k: int| 0 <= k < i ==> #[trigger] roles.deep_view()[k] != role@,
        decreases roles@.len() - i,
    {
        if same_text(roles[i].as_str(), role) {
            proof {
                assert(roles.deep_view()[i as int] == role@);
            }
            return true;
        }
        i += 1;
    }
    false
}

/// The name of the last party that is a registrar and has a name.
fn registrar_of(entities: &Vec<RdapEntity<'_>>) -> (r: Option<String>)
    ensures
        text_of(r) == registrar(entities@.map_values(|e: RdapEntity<'_>| e@)),
{
    let ghost all = entities@.map_values(|e: RdapEntity<'_>| e@);
    let mut n: usize = entities.len();
    proof {
        assert(all.take(n as int) =~= all);
    }
    while n > 0
        invariant
            n <= entities@.len(),
            all == entities@.map_values(|e: RdapEntity<'_>| e@),
            registrar(all) == registrar(all.take(n as int)),
        decreases n,
    {
        proof {
            assert(all.take(n as int).last() == entities@[n - 1]@);
            assert(all.take(n as int).drop_last() =~= all.take(n - 1));
        }
        n -= 1;
        let e = &entities[n];
        if has_role(&e.roles, "registrar") {
            if let Some(vcard) = e.vcard_array {
                let name = vcard_name_field(vcard);
                if name.is_some() {
                    return name;
                }
            }
            if e.handle.is_some() {
                return e.handle.clone();
            }
        }
    }
    None
}

/// Whether `word` is one of three.
fn is_one_of(word: &str, a: &str, b: &str, c: &str) -> (r: bool)
    ensures
        r == (word@ == a@ || word@ == b@ || word@ == c@),
{
    same_text(word, a) || same_text(word, b) || same_text(word, c)
}

/// The dates of the last creation and of the last expiry.
fn dates_of(events: &Vec<RdapEvent>) -> (r: (Option<String>, Option<String>))
    ensures
        text_of(r.0) == creation_date(events@.map_values(|e: RdapEvent| e@)),
        text_of(r.1) == expiry_date(events@.map_values(|e: RdapEvent| e@)),
{
    let ghost all = events@.map_values(|e: RdapEvent| e@);
    let mut created: Option<String> = None;
    let mut expires: Option<String> = None;
    let mut i: usize = 0;
    proof {
        reveal_strlit("registration");
        reveal_strlit("creation");
        reveal_strlit("registered");
        reveal_strlit("expiration");
        reveal_strlit("expiry");
        reveal_strlit("expire");
        assert("registration"@[0] == 'r' && "creation"@[0] == 'c' && "registered"@[0] == 'r');
        assert("expiration"@[0] == 'e' && "expiry"@[0] == 'e' && "expire"@[0] == 'e');
    }
    while i < events.len()
        invariant
            i <= events@.len(),
            all == events@.map_values(|e: RdapEvent| e@),
            text_of(created) == creation_date(all.take(i as int)),
            text_of(expires) == expiry_date(all.take(i as int)),
            forall|a: Seq<char>| !(#[trigger] is_creation(a) && is_expiry(a)),
        decreases events@.len() - i,
    {
        let e = &events[i];
        proof {
            assert(all.take(i + 1).last() == events@[i as int]@);
            assert(all.take(i + 1).drop_last() =~= all.take(i as int));
        }
        if let Some(action) = &e.event_action {
            if is_one_of(action.as_str(), "registration", "creation", "registered") {
                proof {
                    assert(is_creation(action@));
                }
                created = e.event_date.clone();
            } else if is_one_of(action.as_str(), "expiration", "expiry", "expire") {
                expires = e.event_date.clone();
            }
        }
        i += 1;
    }
    proof {
        assert(all.take(i as int) =~= all);
    }
    (created, expires)
}

/// The names that are there, in order.
fn names_of(list: &Vec<Option<String>>) -> (r: Vec<String>)
    ensures
        r.deep_view() == present(list@.map_values(|n: Option<String>| text_of(n))),
{
    let ghost all = list@.map_values(|n: Option<String>| text_of(n));
    let mut out: Vec<String> = Vec::new();
    let mut i: usize = 0;
    proof {
        assert(out.deep_view() =~= present(all.take(0)));
    }
    while i < list.len()
        invariant
            i <= list@.len(),
            all == list@.map_values(|n: Option<String>| text_of(n)),
            out.deep_view() == present(all.take(i as int)),
        decreases list@.len() - i,
    {
        let ghost was = out.deep_view();
        proof {
            assert(all.take(i + 1).last() == all[i as int]);
            assert(all.take(i + 1).drop_last() =~= all.take(i as int));
        }
        if let Some(name) = &list[i] {
            out.push(name.clone());
            proof {
                assert(out.deep_view() =~= was.push(name@));
            }
        }
        i += 1;
    }
    proof {
        assert(all.take(i as int) =~= all);
    }
    out
}

/// What an RDAP document says of a domain.
pub fn parse_domain_object(body: &Json) -> (r: LookupDetails)
    ensures
        r@ == domain_details(body@),
{
    match read_domain(body) {
        None => LookupDetails::default(),
        Some(d) => {
            let (creation_date, expiry_date) = dates_of(&d.events);
            LookupDetails {
                registrar: registrar_of(&d.entities),
                creation_date,
                expiry_date,
                nameservers: names_of(&d.nameservers),
                registry: None,
                server: None,
            }
        },
    }
}

// ---------- laws ----------

/// Whether a value that may be missing is a text, or as good as missing.
pub open spec fn text_or_missing(o: Option<JsonView>) -> bool {
    o matches Some(j) ==> j is Text || j is Null
}

/// The text in a value that may be missing.
pub open spec fn text_in(o: Option<JsonView>) -> Option<Seq<char>> {
    match o {
        Some(JsonView::Text(t)) => Some(t),
        _ => None,
    }
}

/// The items of a list that may be missing.
pub open spec fn items_in(o: Option<JsonView>) -> Seq<JsonView> {
    match o {
        Some(JsonView::Array(items)) => items,
        _ => Seq::empty(),
    }
}

/// Whether a value that may be missing is a list of texts.
pub open spec fn texts_or_missing(o: Option<JsonView>) -> bool {
    o matches Some(j) ==> j is Array && forall|i: int|
        0 <= i < j->Array_0.len() ==> #[trigger] j->Array_0[i] is Text
}

/// Whether a document is an object whose members, as far as they are there, have the
/// types that RDAP gives them.
pub open spec fn well_typed(document: JsonView) -> bool {
    let entities = member(document, "entities"@);
    let nameservers = member(document, "nameservers"@);
    let events = member(document, "events"@);
    &&& document is Object
    &&& text_or_missing(member(document, "handle"@))
    &&& text_or_missing(member(document, "ldh_name"@))
    &&& texts_or_missing(member(document, "status"@))
    &&& entities matches Some(j) ==> j is Array
    &&& nameservers matches Some(j) ==> j is Array
    &&& events matches Some(j) ==> j is Array
    &&& forall|i: int|
        0 <= i < items_in(entities).len() ==> {
            &&& #[trigger] items_in(entities)[i] is Object
            &&& text_or_missing(member(items_in(entities)[i], "handle"@))
            &&& texts_or_missing(member(items_in(entities)[i], "roles"@))
        }
    &&& forall|i: int|
        0 <= i < items_in(nameservers).len() ==> {
            &&& #[trigger] items_in(nameservers)[i] is Object
            &&& text_or_missing(member(items_in(nameservers)[i], "ldhName"@))
        }
    &&& forall|i: int|
        0 <= i < items_in(events).len() ==> {
            &&& #[trigger] items_in(events)[i] is Object
            &&& text_or_missing(member(items_in(events)[i], "eventAction"@))
            &&& text_or_missing(member(items_in(events)[i], "eventDate"@))
        }
}

/// All items can be read where each can, and each is read at its place.
pub proof fn law_all_of<T>(items: Seq<JsonView>, f: spec_fn(JsonView) -> Option<T>)
    ensures
        all_of(items, f) is Some <==> forall|i: int|
            0 <= i < items.len() ==> f(#[trigger] items[i]) is Some,
        all_of(items, f) matches Some(all) ==> all.len() == items.len() && forall|i: int|
            0 <= i < items.len() ==> Some(#[trigger] all[i]) == f(items[i]),
    decreases items.len(),
{
    if items.len() > 0 {
        let less = items.drop_last();
        law_all_of(less, f);
        assert(items[items.len() - 1] == items.last());
        if all_of(items, f) is Some {
            assert forall|i: int| 0 <= i < items.len() implies f(#[trigger] items[i]) is Some by {
                if i < less.len() {
                    assert(f(less[i]) is Some);
                }
            }
            let all = all_of(items, f)->0;
            assert forall|i: int| 0 <= i < items.len() implies Some(#[trigger] all[i]) == f(
                items[i],
            ) by {
                if i < less.len() {
                    assert(all[i] == all_of(less, f)->0[i]);
                    assert(less[i] == items[i]);
                }
            }
        }
        if forall|i: int| 0 <= i < items.len() ==> f(#[trigger] items[i]) is Some {
            assert forall|i: int| 0 <= i < less.len() implies f(#[trigger] less[i]) is Some by {
                assert(f(items[i]) is Some);
            }
        }
    }
}

/// A list of texts is read text by text.
proof fn lemma_texts(o: Option<JsonView>)
    requires
        texts_or_missing(o),
    ensures
        texts(o) is Some,
        texts(o)->0.len() == items_in(o).len(),
        forall|i: int|
            0 <= i < items_in(o).len() ==> items_in(o)[i] == JsonView::Text(
                #[trigger] texts(o)->0[i],
            ),
{
    let f = |j: JsonView| as_text(j);
    law_all_of(items_in(o), f);
    if o is Some {
        assert forall|i: int| 0 <= i < items_in(o).len() implies f(
            #[trigger] items_in(o)[i],
        ) is Some by {
            assert(o->0->Array_0[i] is Text);
        }
    }
}

/// A document whose members have the right types is read, party by party, nameserver by
/// nameserver and event by event.
pub proof fn law_well_typed_documents_are_read(document: JsonView)
    requires
        well_typed(document),
    ensures
        ({
            let entities = items_in(member(document, "entities"@));
            let nameservers = items_in(member(document, "nameservers"@));
            let events = items_in(member(document, "events"@));
            &&& as_domain(document) matches Some(d)
            &&& d.entities.len() == entities.len()
            &&& d.nameservers.len() == nameservers.len()
            &&& d.events.len() == events.len()
            &&& forall|i: int|
                0 <= i < entities.len() ==> {
                    &&& (#[trigger] d.entities[i]).handle == text_in(
                        member(entities[i], "handle"@),
                    )
                    &&& d.entities[i].vcard == match member(entities[i], "vcardArray"@) {
                        Some(JsonView::Null) => None,
                        vcard => vcard,
                    }
                    &&& d.entities[i].roles.len() == items_in(member(entities[i], "roles"@)).len()
                    &&& forall|k: int|
                        0 <= k < d.entities[i].roles.len() ==> items_in(
                            member(entities[i], "roles"@),
                        )[k] == JsonView::Text(#[trigger] d.entities[i].roles[k])
                }
            &&& forall|i: int|
                0 <= i < nameservers.len() ==> #[trigger] d.nameservers[i] == text_in(
                    member(nameservers[i], "ldhName"@),
                )
            &&& forall|i: int|
                0 <= i < events.len() ==> {
                    &&& (#[trigger] d.events[i]).action == text_in(
                        member(events[i], "eventAction"@),
                    )
                    &&& d.events[i].date == text_in(member(events[i], "eventDate"@))
                }
        }),
{
    let entities = items_in(member(document, "entities"@));
    let nameservers = items_in(member(document, "nameservers"@));
    let events = items_in(member(document, "events"@));
    let f = |e: JsonView| as_entity(e);
    let g = |n: JsonView| as_nameserver(n);
    let h = |e: JsonView| as_event(e);
    lemma_texts(member(document, "status"@));
    assert forall|i: int| 0 <= i < entities.len() implies f(#[trigger] entities[i]) is Some by {
        lemma_texts(member(entities[i], "roles"@));
    }
    assert forall|i: int| 0 <= i < nameservers.len() implies g(#[trigger] nameservers[i]) is Some by {
    }
    assert forall|i: int| 0 <= i < events.len() implies h(#[trigger] events[i]) is Some by {
    }
    law_all_of(entities, f);
    law_all_of(nameservers, g);
    law_all_of(events, h);
    let d = as_domain(document)->0;
    assert forall|i: int| 0 <= i < entities.len() implies {
        &&& (#[trigger] d.entities[i]).handle == text_in(member(entities[i], "handle"@))
        &&& d.entities[i].vcard == match member(entities[i], "vcardArray"@) {
            Some(JsonView::Null) => None,
            vcard => vcard,
        }
        &&& d.entities[i].roles.len() == items_in(member(entities[i], "roles"@)).len()
        &&& forall|k: int|
            0 <= k < d.entities[i].roles.len() ==> items_in(member(entities[i], "roles"@))[k]
                == JsonView::Text(#[trigger] d.entities[i].roles[k])
    } by {
        assert(Some(d.entities[i]) == f(entities[i]));
        lemma_texts(member(entities[i], "roles"@));
    }
    assert forall|i: int| 0 <= i < nameservers.len() implies #[trigger] d.nameservers[i] == text_in(
        member(nameservers[i], "ldhName"@),
    ) by {
        assert(Some(d.nameservers[i]) == g(nameservers[i]));
    }
    assert forall|i: int| 0 <= i < events.len() implies {
        &&& (#[trigger] d.events[i]).action == text_in(member(events[i], "eventAction"@))
        &&& d.events[i].date == text_in(member(events[i], "eventDate"@))
    } by {
        assert(Some(d.events[i]) == h(events[i]));
    }
}

/// Where every nameserver of a document has a name, the details list the names, all of
/// them and in their order.
pub proof fn law_nameservers_are_listed(document: JsonView, names: Seq<Seq<char>>)
    requires
        well_typed(document),
        items_in(member(document, "nameservers"@)).len() == names.len(),
        forall|i: int|
            0 <= i < names.len() ==> member(
                items_in(member(document, "nameservers"@))[i],
                "ldhName"@,
            ) == Some(JsonView::Text(#[trigger] names[i])),
    ensures
        domain_details(document).nameservers == names,
{
    law_well_typed_documents_are_read(document);
    let list = as_domain(document)->0.nameservers;
    assert forall|i: int| 0 <= i < list.len() implies #[trigger] list[i] == Some(names[i]) by {
        assert(member(items_in(member(document, "nameservers"@))[i], "ldhName"@) == Some(
            JsonView::Text(names[i]),
        ));
    }
    lemma_all_present(list, names);
}

/// Where all texts are there, they are what is there.
proof fn lemma_all_present(list: Seq<Option<Seq<char>>>, names: Seq<Seq<char>>)
    requires
        list.len() == names.len(),
        forall|i: int| 0 <= i < list.len() ==> #[trigger] list[i] == Some(names[i]),
    ensures
        present(list) == names,
    decreases list.len(),
{
    if list.len() > 0 {
        assert(list[list.len() - 1] == Some(names[names.len() - 1]));
        assert forall|i: int| 0 <= i < list.drop_last().len() implies #[trigger] list.drop_last()[i]
            == Some(names.drop_last()[i]) by {
            assert(list[i] == Some(names[i]));
        }
        lemma_all_present(list.drop_last(), names.drop_last());
        assert(names.drop_last().push(names.last()) =~= names);
    } else {
        assert(names =~= Seq::empty());
    }
}

/// Nameservers without a name are left out, and no others.
pub proof fn law_present(list: Seq<Option<Seq<char>>>)
    ensures
        present(list) == list.filter(|o: Option<Seq<char>>| o is Some).map_values(
            |o: Option<Seq<char>>| o->0,
        ),
    decreases list.len(),
{
    reveal(Seq::filter);
    let there = |o: Option<Seq<char>>| o is Some;
    let text = |o: Option<Seq<char>>| o->0;
    if list.len() > 0 {
        law_present(list.drop_last());
        let before = list.drop_last().filter(there);
        if list.last() is Some {
            assert(before.push(list.last()).map_values(text) =~= before.map_values(text).push(
                list.last()->0,
            ));
        }
    } else {
        assert(present(list) =~= list.filter(there).map_values(text));
    }
}

/// The registrar is the last party that has the role and a name; without one there is
/// none.
pub proof fn law_registrar(entities: Seq<EntityView>, i: int)
    requires
        -1 <= i < entities.len(),
        i >= 0 ==> entities[i].roles.contains("registrar"@) && entity_name(entities[i]) is Some,
        forall|j: int|
            i < j < entities.len() ==> !(#[trigger] entities[j]).roles.contains("registrar"@)
                || entity_name(entities[j]) is None,
    ensures
        registrar(entities) == if i >= 0 {
            entity_name(entities[i])
        } else {
            None
        },
    decreases entities.len(),
{
    if i < entities.len() - 1 {
        let less = entities.drop_last();
        assert(!entities[entities.len() - 1].roles.contains("registrar"@) || entity_name(
            entities[entities.len() - 1],
        ) is None);
        assert forall|j: int| i < j < less.len() implies !(#[trigger] less[j]).roles.contains(
            "registrar"@,
        ) || entity_name(less[j]) is None by {
            assert(less[j] == entities[j]);
        }
        law_registrar(less, i);
    }
}

/// A party goes by the formatted name in its vCard, and by its handle only where there is
/// no such name.
pub proof fn law_entity_name(handle: Option<Seq<char>>, roles: Seq<Seq<char>>, vcard: JsonView)
    ensures
        entity_name(EntityView { handle, roles, vcard: None }) == handle,
        vcard_name(vcard) is None ==> entity_name(EntityView { handle, roles, vcard: Some(vcard) })
            == handle,
        vcard_name(vcard) is Some ==> entity_name(EntityView { handle, roles, vcard: Some(vcard) })
            == vcard_name(vcard),
{
}

/// The formatted name is the value of the field `fn`, at whatever place it stands among
/// the fields of a vCard.
pub proof fn law_formatted_name(tag: JsonView, fields: Seq<JsonView>, i: int, value: Seq<char>)
    requires
        0 <= i < fields.len(),
        forall|j: int|
            0 <= j < i ==> (#[trigger] fields[j] matches JsonView::Array(field) && field.len() > 0 && (
            field[0] matches JsonView::Text(name) && name != "fn"@)),
        fields[i] matches JsonView::Array(field) && field.len() > 3 && field[0] == JsonView::Text(
            "fn"@,
        ) && (field[3] == JsonView::Text(value) || (field[3] matches JsonView::Array(parts)
            && parts.len() > 0 && parts[0] == JsonView::Text(value))),
    ensures
        vcard_name(JsonView::Array(seq![tag, JsonView::Array(fields)])) == Some(value),
{
    lemma_formatted_name(fields, i, value);
}

/// The value of the first field `fn`.
proof fn lemma_formatted_name(fields: Seq<JsonView>, i: int, value: Seq<char>)
    requires
        0 <= i < fields.len(),
        forall|j: int|
            0 <= j < i ==> (#[trigger] fields[j] matches JsonView::Array(field) && field.len() > 0 && (
            field[0] matches JsonView::Text(name) && name != "fn"@)),
        fields[i] matches JsonView::Array(field) && field.len() > 3 && field[0] == JsonView::Text(
            "fn"@,
        ) && (field[3] == JsonView::Text(value) || (field[3] matches JsonView::Array(parts)
            && parts.len() > 0 && parts[0] == JsonView::Text(value))),
    ensures
        formatted_name(fields) == Some(value),
    decreases i,
{
    if i > 0 {
        let rest = fields.drop_first();
        assert(fields[0] matches JsonView::Array(field) && field.len() > 0 && (field[0] matches
            JsonView::Text(name) && name != "fn"@));
        assert forall|j: int| 0 <= j < i - 1 implies (#[trigger] rest[j] matches JsonView::Array(
            field,
        ) && field.len() > 0 && (field[0] matches JsonView::Text(name) && name != "fn"@)) by {
            assert(rest[j] == fields[j + 1]);
        }
        lemma_formatted_name(rest, i - 1, value);
    }
}

/// The date of creation is that of the last event that is one; without one there is no
/// date. The same holds of the end of the registration.
pub proof fn law_dates(events: Seq<EventView>, i: int, expiry: bool)
    requires
        -1 <= i < events.len(),
        i >= 0 ==> events[i].action is Some && tells(events[i].action->0, expiry),
        forall|j: int|
            i < j < events.len() ==> (#[trigger] events[j]).action is None || !tells(
                events[j].action->0,
                expiry,
            ),
    ensures
        (if expiry {
            expiry_date(events)
        } else {
            creation_date(events)
        }) == if i >= 0 {
            events[i].date
        } else {
            None
        },
    decreases events.len(),
{
    if i < events.len() - 1 {
        let less = events.drop_last();
        assert(events[events.len() - 1].action is None || !tells(
            events[events.len() - 1].action->0,
            expiry,
        ));
        assert forall|j: int| i < j < less.len() implies (#[trigger] less[j]).action is None
            || !tells(less[j].action->0, expiry) by {
            assert(less[j] == events[j]);
        }
        law_dates(less, i, expiry);
    }
}

/// Whether a word tells the end of a registration, or else its beginning.
pub open spec fn tells(action: Seq<char>, expiry: bool) -> bool {
    if expiry {
        seq!["expiration"@, "expiry"@, "expire"@].contains(action)
    } else {
        seq!["registration"@, "creation"@, "registered"@].contains(action)
    }
}

/// The details of a document are those of its parts; a document that cannot be read has
/// none.
pub proof fn law_details(document: JsonView)
    ensures
        as_domain(document) matches Some(d) ==> {
            &&& domain_details(document).registrar == registrar(d.entities)
            &&& domain_details(document).creation_date == creation_date(d.events)
            &&& domain_details(document).expiry_date == expiry_date(d.events)
            &&& domain_details(document).nameservers == present(d.nameservers)
        },
        as_domain(document) is None ==> domain_details(document) == DetailsView::blank(),
        domain_details(document).server is None,
        domain_details(document).registry is None,
{
}

/// A document with a member of the wrong type says nothing at all.
pub proof fn law_ill_typed_documents_say_nothing(document: JsonView)
    requires
        document is Object,
        !text_or_missing(member(document, "handle"@)) || !text_or_missing(
            member(document, "ldh_name"@),
        ) || !texts_or_missing(member(document, "status"@)) || (member(document, "entities"@) matches
            Some(j) && !(j is Array)) || (member(document, "nameservers"@) matches Some(j) && !(
        j is Array)) || (member(document, "events"@) matches Some(j) && !(j is Array)),
    ensures
        domain_details(document) == DetailsView::blank(),
{
    let status = member(document, "status"@);
    if !texts_or_missing(status) && status is Some && status->0 is Array {
        let items = status->0->Array_0;
        let f = |j: JsonView| as_text(j);
        law_all_of(items, f);
        let i = choose|i: int| 0 <= i < items.len() && !(#[trigger] items[i] is Text);
        assert(f(items[i]) is None);
    }
}

/// A domain object may be written as an array, with its members at their positions: what
/// counts are the members, not how they are written.
pub proof fn law_positions_stand_for_names(a: JsonView, b: JsonView)
    ensures
        is_record(a, 6) && is_record(b, 6) && crate::json::field(a, 0, "handle"@)
            == crate::json::field(b, 0, "handle"@) && crate::json::field(a, 1, "ldh_name"@)
            == crate::json::field(b, 1, "ldh_name"@) && crate::json::field(a, 2, "entities"@)
            == crate::json::field(b, 2, "entities"@) && crate::json::field(a, 3, "nameservers"@)
            == crate::json::field(b, 3, "nameservers"@) && crate::json::field(a, 4, "events"@)
            == crate::json::field(b, 4, "events"@) && crate::json::field(a, 5, "status"@)
            == crate::json::field(b, 5, "status"@) ==> as_domain(a) == as_domain(b),
        is_record(a, 3) && is_record(b, 3) && crate::json::field(a, 0, "handle"@)
            == crate::json::field(b, 0, "handle"@) && crate::json::field(a, 1, "roles"@)
            == crate::json::field(b, 1, "roles"@) && crate::json::field(a, 2, "vcardArray"@)
            == crate::json::field(b, 2, "vcardArray"@) ==> as_entity(a) == as_entity(b),
        is_record(a, 1) && is_record(b, 1) && crate::json::field(a, 0, "ldhName"@)
            == crate::json::field(b, 0, "ldhName"@) ==> as_nameserver(a) == as_nameserver(b),
        is_record(a, 2) && is_record(b, 2) && crate::json::field(a, 0, "eventAction"@)
            == crate::json::field(b, 0, "eventAction"@) && crate::json::field(a, 1, "eventDate"@)
            == crate::json::field(b, 1, "eventDate"@) ==> as_event(a) == as_event(b),
        !is_record(a, 6) ==> as_domain(a) is None,
        !is_record(a, 3) ==> as_entity(a) is None,
        !is_record(a, 1) ==> as_nameserver(a) is None,
        !is_record(a, 2) ==> as_event(a) is None,
{
}

/// A vCard without a field `fn` has no formatted name, and neither has anything that is no
/// vCard.
pub proof fn law_no_formatted_name(tag: JsonView, fields: Seq<JsonView>, other: JsonView)
    requires
        forall|j: int|
            0 <= j < fields.len() ==> (#[trigger] fields[j] matches JsonView::Array(field) ==> (
            field.len() > 0 ==> field[0] != JsonView::Text("fn"@))),
        !(other is Array),
    ensures
        vcard_name(JsonView::Array(seq![tag, JsonView::Array(fields)])) is None,
        vcard_name(JsonView::Array(seq![tag])) is None,
        vcard_name(other) is None,
{
    lemma_no_formatted_name(fields);
}

/// Fields without a field `fn`.
proof fn lemma_no_formatted_name(fields: Seq<JsonView>)
    requires
        forall|j: int|
            0 <= j < fields.len() ==> (#[trigger] fields[j] matches JsonView::Array(field) ==> (
            field.len() > 0 ==> field[0] != JsonView::Text("fn"@))),
    ensures
        formatted_name(fields) is None,
    decreases fields.len(),
{
    if fields.len() > 0 {
        let rest = fields.drop_first();
        assert(fields[0] matches JsonView::Array(field) ==> (field.len() > 0 ==> field[0]
            != JsonView::Text("fn"@)));
        assert forall|j: int| 0 <= j < rest.len() implies (#[trigger] rest[j] matches
            JsonView::Array(field) ==> (field.len() > 0 ==> field[0] != JsonView::Text("fn"@))) by {
            assert(rest[j] == fields[j + 1]);
        }
        lemma_no_formatted_name(rest);
    }
}

} // verus!
