//! JSON documents as trees of plain values.
//!
//! `serde_json` reads the bytes; this module turns what it read into [`Json`],
//! which the rest of the library works on.

use serde_json::Value;
use vstd::prelude::*;

use crate::text::same_text;

verus! {

/// A JSON value. A number keeps its value where it is an integer that fits in 64
/// bits without a sign.
#[derive(Debug)]
pub enum Json {
    Null,
    Bool(bool),
    Number(Option<u64>),
    Text(String),
    Array(Vec<Json>),
    Object(Vec<(String, Json)>),
}

/// The view of [`Json`].
pub enum JsonView {
    Null,
    Bool(bool),
    Number(Option<u64>),
    Text(Seq<char>),
    Array(Seq<JsonView>),
    Object(Seq<(Seq<char>, JsonView)>),
}

/// The view of a JSON value.
pub open spec fn json_view(j: Json) -> JsonView
    decreases j,
{
    match j {
        Json::Null => JsonView::Null,
        Json::Bool(b) => JsonView::Bool(b),
        Json::Number(n) => JsonView::Number(n),
        Json::Text(s) => JsonView::Text(s@),
        Json::Array(items) => JsonView::Array(
            Seq::new(
                items@.len(),
                |i: int|
                    if 0 <= i < items@.len() {
                        json_view(items@[i])
                    } else {
                        JsonView::Null
                    },
            ),
        ),
        Json::Object(entries) => JsonView::Object(
            Seq::new(
                entries@.len(),
                |i: int|
                    if 0 <= i < entries@.len() {
                        (entries@[i].0@, json_view(entries@[i].1))
                    } else {
                        (Seq::empty(), JsonView::Null)
                    },
            ),
        ),
    }
}

impl View for Json {
    type V = JsonView;

    open spec fn view(&self) -> JsonView {
        json_view(*self)
    }
}

// ---------- reading ----------

/// A value that `serde_json` has read.
#[verifier::external_type_specification]
#[verifier::external_body]
pub struct ExValue(serde_json::Value);

/// Why `serde_json` could not read a document.
#[verifier::external_type_specification]
#[verifier::external_body]
pub struct ExError(serde_json::Error);

/// What a `serde_json` value holds. Numbers hold what `Value::as_u64` gives, and the
/// entries of an object stand in the order in which its map is walked.
pub uninterp spec fn value_view(v: serde_json::Value) -> JsonView;

/// What the bytes hold as a JSON document, if they are one.
pub uninterp spec fn document(bytes: Seq<u8>) -> Option<JsonView>;

/// `serde_json::from_slice`, for `serde_json::Value`: reads the bytes as one JSON
/// document. What the bytes hold depends on them alone.
#[verifier::external_body]
fn read_value(bytes: &[u8]) -> (r: Result<serde_json::Value, serde_json::Error>)
    ensures
        match r {
            Ok(v) => document(bytes@) == Some(value_view(v)),
            Err(_) => document(bytes@) is None,
        },
{
    serde_json::from_slice(bytes)
}

/// `Value::is_null`: whether the value is `null`.
pub assume_specification[ serde_json::Value::is_null ](v: &serde_json::Value) -> (r: bool)
    ensures
        r == (value_view(*v) is Null),
;

/// `Value::as_bool`: the boolean, if the value is one.
pub assume_specification[ serde_json::Value::as_bool ](v: &serde_json::Value) -> (r: Option<bool>)
    ensures
        r == match value_view(*v) {
            JsonView::Bool(b) => Some(b),
            _ => None,
        },
;

/// `Value::as_u64`: the number, if the value is one that fits.
pub assume_specification[ serde_json::Value::as_u64 ](v: &serde_json::Value) -> (r: Option<u64>)
    ensures
        r == match value_view(*v) {
            JsonView::Number(n) => n,
            _ => None,
        },
;

/// `Value::as_str`: the text, if the value is one.
pub assume_specification[ serde_json::Value::as_str ](v: &serde_json::Value) -> (r: Option<&str>)
    ensures
        match value_view(*v) {
            JsonView::Text(t) => r matches Some(s) && s@ == t,
            _ => r is None,
        },
;

/// `Value::as_array`: the items, if the value is an array.
pub assume_specification[ serde_json::Value::as_array ](v: &serde_json::Value) -> (r: Option<
    &Vec<serde_json::Value>,
>)
    ensures
        match value_view(*v) {
            JsonView::Array(items) => r matches Some(a) && a@.len() == items.len() && forall|i: int|
                0 <= i < items.len() ==> value_view(a@[i]) == #[trigger] items[i],
            _ => r is None,
        },
;

/// `Value::as_object`: the entries, if the value is an object.
#[verifier::external_body]
fn entries_of(v: &serde_json::Value) -> (r: Option<Vec<(String, &serde_json::Value)>>)
    ensures
        match value_view(*v) {
            JsonView::Object(entries) => r matches Some(e) && e@.len() == entries.len()
                && forall|i: int|
                0 <= i < entries.len() ==> {
                    &&& e@[i].0@ == (#[trigger] entries[i]).0
                    &&& value_view(*e@[i].1) == entries[i].1
                },
            _ => r is None,
        },
{
    v.as_object().map(|m| m.iter().map(|(k, x)| (k.clone(), x)).collect())
}

/// The tree of plain values in a `serde_json` value.
fn json_of(v: &Value) -> (r: Json)
    ensures
        r@ == value_view(*v),
    decreases value_view(*v),
{
    if v.is_null() {
        Json::Null
    } else if let Some(b) = v.as_bool() {
        Json::Bool(b)
    } else if let Some(s) = v.as_str() {
        Json::Text(s.to_owned())
    } else if let Some(values) = v.as_array() {
        let ghost all = value_view(*v)->Array_0;
        let mut items: Vec<Json> = Vec::new();
        let mut i: usize = 0;
        while i < values.len()
            invariant
                i <= values@.len(),
                value_view(*v) == JsonView::Array(all),
                all.len() == values@.len(),
                forall|k: int| 0 <= k < all.len() ==> value_view(values@[k]) == #[trigger] all[k],
                items@.len() == i,
                forall|k: int| 0 <= k < i ==> (#[trigger] items@[k])@ == all[k],
            decreases values@.len() - i,
        {
            proof {
                assert(value_view(values@[i as int]) == all[i as int]);
                assert(decreases_to!(value_view(*v) => value_view(*v)->Array_0));
                assert(decreases_to!(all => all[i as int]));
            }
            items.push(json_of(&values[i]));
            i += 1;
        }
        let r = Json::Array(items);
        proof {
            assert(r@->Array_0 =~= all);
        }
        r
    } else if let Some(values) = entries_of(v) {
        let ghost all = value_view(*v)->Object_0;
        let mut entries: Vec<(String, Json)> = Vec::new();
        let mut i: usize = 0;
        while i < values.len()
            invariant
                i <= values@.len(),
                value_view(*v) == JsonView::Object(all),
                all.len() == values@.len(),
                forall|k: int|
                    0 <= k < all.len() ==> {
                        &&& values@[k].0@ == (#[trigger] all[k]).0
                        &&& value_view(*values@[k].1) == all[k].1
                    },
                entries@.len() == i,
                forall|k: int|
                    0 <= k < i ==> {
                        &&& (#[trigger] entries@[k]).0@ == all[k].0
                        &&& entries@[k].1@ == all[k].1
                    },
            decreases values@.len() - i,
        {
            proof {
                assert(value_view(*values@[i as int].1) == all[i as int].1);
                assert(decreases_to!(value_view(*v) => value_view(*v)->Object_0));
                assert(decreases_to!(all => all[i as int]));
                assert(decreases_to!(all[i as int] => all[i as int].1));
            }
            let key = values[i].0.clone();
            entries.push((key, json_of(values[i].1)));
            i += 1;
        }
        let r = Json::Object(entries);
        proof {
            assert(r@->Object_0 =~= all);
        }
        r
    } else {
        Json::Number(v.as_u64())
    }
}

/// Reads the bytes as one JSON document.
pub fn parse(bytes: &[u8]) -> (r: Option<Json>)
    ensures
        match document(bytes@) {
            Some(j) => r matches Some(v) && v@ == j,
            None => r is None,
        },
{
    match read_value(bytes) {
        Ok(v) => Some(json_of(&v)),
        Err(_) => None,
    }
}

// ---------- members ----------

/// The value for `name` among the entries of an object, if there is one. Of several
/// the last counts.
pub open spec fn entry(entries: Seq<(Seq<char>, JsonView)>, name: Seq<char>) -> Option<JsonView>
    decreases entries.len(),
{
    if entries.len() == 0 {
        None
    } else if entries.last().0 == name {
        Some(entries.last().1)
    } else {
        entry(entries.drop_last(), name)
    }
}

/// The member `name` of an object. What is no object has no members.
pub open spec fn member(j: JsonView, name: Seq<char>) -> Option<JsonView> {
    match j {
        JsonView::Object(entries) => entry(entries, name),
        _ => None,
    }
}

/// A field of a record. A record is written as an object, with the field under its
/// name, or as an array, with the field at its position.
pub open spec fn field(j: JsonView, position: int, name: Seq<char>) -> Option<JsonView> {
    match j {
        JsonView::Array(items) => if 0 <= position < items.len() {
            Some(items[position])
        } else {
            None
        },
        _ => member(j, name),
    }
}

/// Whether a record of `fields` fields can be read from the value: an object, or an
/// array that is not longer than the record.
pub open spec fn is_record(j: JsonView, fields: int) -> bool {
    match j {
        JsonView::Object(_) => true,
        JsonView::Array(items) => items.len() <= fields,
        _ => false,
    }
}

/// The view of an optional value.
pub open spec fn json_option(o: Option<&Json>) -> Option<JsonView> {
    match o {
        Some(j) => Some(j@),
        None => None,
    }
}

impl Json {
    /// The member `name` of an object.
    pub fn member(&self, name: &str) -> (r: Option<&Json>)
        ensures
            json_option(r) == member(self@, name@),
    {
        match self {
            Json::Object(entries) => {
                let ghost all = self@->Object_0;
                let mut n: usize = entries.len();
                proof {
                    assert(all.take(n as int) =~= all);
                }
                while n > 0
                    invariant
                        n <= entries@.len(),
                        *self == Json::Object(*entries),
                        all == self@->Object_0,
                        entry(all, name@) == entry(all.take(n as int), name@),
                    decreases n,
                {
                    proof {
                        assert(all.take(n as int).last() == all[n - 1]);
                        assert(all.take(n as int).drop_last() =~= all.take(n - 1));
                        assert(all[n - 1] == (entries@[n - 1].0@, entries@[n - 1].1@));
                    }
                    n -= 1;
                    if same_text(entries[n].0.as_str(), name) {
                        return Some(&entries[n].1);
                    }
                }
                None
            },
            _ => None,
        }
    }

    /// A field of a record.
    pub fn field(&self, position: usize, name: &str) -> (r: Option<&Json>)
        ensures
            json_option(r) == field(self@, position as int, name@),
    {
        match self {
            Json::Array(items) => if position < items.len() {
                Some(&items[position])
            } else {
                None
            },
            _ => self.member(name),
        }
    }

    /// Whether a record of `fields` fields can be read from the value.
    pub fn is_record(&self, fields: usize) -> (r: bool)
        ensures
            r == is_record(self@, fields as int),
    {
        match self {
            Json::Object(_) => true,
            Json::Array(items) => items.len() <= fields,
            _ => false,
        }
    }
}

// ---------- laws ----------

/// The member of an object is the value of the last entry with its name.
pub proof fn law_member(entries: Seq<(Seq<char>, JsonView)>, i: int)
    requires
        0 <= i < entries.len(),
        forall|j: int| i < j < entries.len() ==> (#[trigger] entries[j]).0 != entries[i].0,
    ensures
        member(JsonView::Object(entries), entries[i].0) == Some(entries[i].1),
    decreases entries.len(),
{
    if i < entries.len() - 1 {
        let less = entries.drop_last();
        assert(entries[entries.len() - 1].0 != entries[i].0);
        assert forall|j: int| i < j < less.len() implies (#[trigger] less[j]).0 != less[i].0 by {
            assert(entries[j].0 != entries[i].0);
        }
        law_member(less, i);
    }
}

/// An object without an entry of a name has no member of that name, and nothing but an
/// object has members.
pub proof fn law_no_member(entries: Seq<(Seq<char>, JsonView)>, other: JsonView, name: Seq<char>)
    requires
        forall|j: int| 0 <= j < entries.len() ==> (#[trigger] entries[j]).0 != name,
        !(other is Object),
    ensures
        member(JsonView::Object(entries), name) is None,
        member(other, name) is None,
    decreases entries.len(),
{
    if entries.len() > 0 {
        let less = entries.drop_last();
        assert(entries[entries.len() - 1].0 != name);
        assert forall|j: int| 0 <= j < less.len() implies (#[trigger] less[j]).0 != name by {
            assert(entries[j].0 != name);
        }
        law_no_member(less, other, name);
    }
}

/// A field of a record stands under its name in an object, and at its position in an
/// array.
pub proof fn law_field(
    entries: Seq<(Seq<char>, JsonView)>,
    items: Seq<JsonView>,
    position: int,
    name: Seq<char>,
)
    requires
        0 <= position,
    ensures
        field(JsonView::Object(entries), position, name) == member(JsonView::Object(entries), name),
        position < items.len() ==> field(JsonView::Array(items), position, name) == Some(
            items[position],
        ),
        position >= items.len() ==> field(JsonView::Array(items), position, name) is None,
{
}

/// The view of a value shows the value.
pub proof fn law_views(b: bool, n: Option<u64>, s: String, items: Vec<Json>)
    ensures
        Json::Null@ == JsonView::Null,
        Json::Bool(b)@ == JsonView::Bool(b),
        Json::Number(n)@ == JsonView::Number(n),
        Json::Text(s)@ == JsonView::Text(s@),
        Json::Array(items)@ is Array,
        Json::Array(items)@->Array_0.len() == items@.len(),
        forall|i: int|
            0 <= i < items@.len() ==> #[trigger] Json::Array(items)@->Array_0[i] == items@[i]@,
{
}

/// An object shows its entries, and an array or an object can be a record: an object always,
/// an array where it is not longer than the record.
pub proof fn law_records(entries: Vec<(String, Json)>, j: JsonView, fields: int)
    ensures
        Json::Object(entries)@ is Object,
        Json::Object(entries)@->Object_0.len() == entries@.len(),
        forall|i: int|
            0 <= i < entries@.len() ==> #[trigger] Json::Object(entries)@->Object_0[i] == (
                entries@[i].0@,
                entries@[i].1@,
            ),
        is_record(j, fields) <==> j is Object || (j is Array && j->Array_0.len() <= fields),
{
}

} // verus!
