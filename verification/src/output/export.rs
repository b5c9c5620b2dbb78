//! Rows and file names for saved results.

use vstd::prelude::*;

use crate::models::{text_of, DomainStatus, LookupDetails, LookupResult, ResultView};
use crate::output::calendar::{days_to_ymd, falls_on, law_date_is_unique};
use crate::text::{
    append_chars, append_zero_padded, chars_of, decimal, join, join_texts, law_padding,
    law_split_undoes_join, split, string_of, zero_padded, CharSet,
};

verus! {

// ---------- rows ----------

/// One row of a saved table: a result with its details side by side.
#[derive(Debug, Clone)]
pub struct CsvRow {
    pub domain: String,
    pub status: String,
    pub source: String,
    pub latency_ms: u64,
    pub registrar: String,
    pub creation_date: String,
    pub expiry_date: String,
    pub nameservers: String,
    pub server: String,
    pub registry: String,
}

/// The word that stands for a status in a saved table.
pub open spec fn status_word(s: DomainStatus) -> Seq<char> {
    match s {
        DomainStatus::Available => "available"@,
        DomainStatus::Taken => "taken"@,
        DomainStatus::Unknown => "unknown"@,
    }
}

/// The text, or nothing where there is none.
pub open spec fn or_nothing(t: Option<Seq<char>>) -> Seq<char> {
    match t {
        Some(s) => s,
        None => Seq::empty(),
    }
}

impl CsvRow {
    /// Whether the row shows the result `r`.
    pub open spec fn shows(&self, r: ResultView) -> bool {
        &&& self.domain@ == r.domain
        &&& self.status@ == status_word(r.status)
        &&& self.source@ == r.source
        &&& self.latency_ms == r.latency_ms
        &&& match r.details {
            Some(d) => {
                &&& self.registrar@ == or_nothing(d.registrar)
                &&& self.creation_date@ == or_nothing(d.creation_date)
                &&& self.expiry_date@ == or_nothing(d.expiry_date)
                &&& self.nameservers@ == join(d.nameservers, ";"@)
                &&& self.server@ == or_nothing(d.server)
                &&& self.registry@ == or_nothing(d.registry)
            },
            None => {
                &&& self.registrar@.len() == 0
                &&& self.creation_date@.len() == 0
                &&& self.expiry_date@.len() == 0
                &&& self.nameservers@.len() == 0
                &&& self.server@.len() == 0
                &&& self.registry@.len() == 0
            },
        }
    }

    /// The row for a result. Missing details leave their cells empty, and the
    /// name servers share a cell, separated by semicolons.
    pub fn from(r: &LookupResult) -> (row: CsvRow)
        ensures
            row.shows(r@),
    {
        let status = match r.status {
            DomainStatus::Available => "available".to_owned(),
            DomainStatus::Taken => "taken".to_owned(),
            DomainStatus::Unknown => "unknown".to_owned(),
        };
        let domain = r.domain.clone();
        let source = r.source.clone();
        let latency_ms: u64 = r.latency_ms;
        match &r.details {
            Some(d) => CsvRow {
                domain,
                status,
                source,
                latency_ms,
                registrar: text_or_nothing(&d.registrar),
                creation_date: text_or_nothing(&d.creation_date),
                expiry_date: text_or_nothing(&d.expiry_date),
                nameservers: join_texts(d.nameservers.as_slice(), ";"),
                server: text_or_nothing(&d.server),
                registry: text_or_nothing(&d.registry),
            },
            None => CsvRow {
                domain,
                status,
                source,
                latency_ms,
                registrar: String::new(),
                creation_date: String::new(),
                expiry_date: String::new(),
                nameservers: String::new(),
                server: String::new(),
                registry: String::new(),
            },
        }
    }
}

/// A copy of the text, or the empty string where there is none.
fn text_or_nothing(o: &Option<String>) -> (r: String)
    ensures
        r@ == or_nothing(text_of(*o)),
{
    match o {
        Some(s) => s.clone(),
        None => String::new(),
    }
}

// ---------- file names ----------

/// A date as `YYYY-MM-DD`.
pub open spec fn date_text(y: int, m: int, d: int) -> Seq<char> {
    zero_padded(y, 4) + "-"@ + zero_padded(m, 2) + "-"@ + zero_padded(d, 2)
}

/// A time of day as `HH-MM-SS`.
pub open spec fn time_text(second_of_day: int) -> Seq<char> {
    zero_padded(second_of_day / 3600, 2) + "-"@ + zero_padded((second_of_day % 3600) / 60, 2)
        + "-"@ + zero_padded(second_of_day % 60, 2)
}

/// Whether `date` is the text of the date on which the second `secs` after
/// 1970-01-01 00:00:00 UTC falls.
pub open spec fn is_date_at(secs: int, date: Seq<char>) -> bool {
    exists|y: i64, m: int, d: int|
        #![trigger falls_on(secs / 86_400, y as int, m, d)]
        falls_on(secs / 86_400, y as int, m, d) && date == date_text((y as i32) as int, m, d)
}

/// The date and the time of day of the second `secs` after 1970-01-01
/// 00:00:00 UTC, as `YYYY-MM-DD` and `HH-MM-SS`.
pub fn utc_date_time_strings(secs: i64) -> (r: (String, String))
    ensures
        is_date_at(secs as int, r.0@),
        r.1@ == time_text(secs as int % 86_400),
{
    let days: i64 = if secs >= 0 {
        secs / 86_400
    } else {
        -((-(secs + 1)) / 86_400) - 1
    };
    let second: i64 = if secs >= 0 {
        secs % 86_400
    } else {
        86_399 - (-(secs + 1)) % 86_400
    };
    assert(days == secs as int / 86_400);
    assert(second == secs as int % 86_400);
    let (year, month, day) = days_to_ymd(days);
    let ghost y = choose|y: i64|
        #![trigger falls_on(days as int, y as int, month as int, day as int)]
        falls_on(days as int, y as int, month as int, day as int) && year == y as i32;

    let mut date: Vec<char> = Vec::new();
    let dash = chars_of("-");
    append_zero_padded(&mut date, year, 4);
    append_chars(&mut date, &dash);
    append_zero_padded(&mut date, month as i32, 2);
    append_chars(&mut date, &dash);
    append_zero_padded(&mut date, day as i32, 2);
    proof {
        assert(falls_on(secs as int / 86_400, y as int, month as int, day as int));
        assert(date@ =~= date_text((y as i32) as int, month as int, day as int));
    }

    let mut time: Vec<char> = Vec::new();
    append_zero_padded(&mut time, (second / 3600) as i32, 2);
    append_chars(&mut time, &dash);
    append_zero_padded(&mut time, ((second % 3600) / 60) as i32, 2);
    append_chars(&mut time, &dash);
    append_zero_padded(&mut time, (second % 60) as i32, 2);
    proof {
        assert(time@ =~= time_text(secs as int % 86_400));
    }
    (string_of(&date), string_of(&time))
}

/// The name of a file saved at the second `secs` after 1970-01-01 00:00:00
/// UTC: `ds-results-YYYY-MM-DD-HH-MM-SS.ext`.
pub fn timestamped_path(ext: &str, secs: i64) -> (r: String)
    ensures
        exists|date: Seq<char>| #[trigger]
            is_date_at(secs as int, date) && r@ == "ds-results-"@ + date + "-"@ + time_text(
                secs as int % 86_400,
            ) + "."@ + ext@,
{
    let (date, time) = utc_date_time_strings(secs);
    let mut s = "ds-results-".to_owned();
    s.append(date.as_str());
    s.append("-");
    s.append(time.as_str());
    s.append(".");
    s.append(ext);
    s
}

// ---------- laws ----------

/// A row shows a result field by field. What is missing is left empty, and the cell of the
/// nameservers gives them back when it is split at the semicolons.
pub proof fn law_rows_show_results(row: CsvRow, r: ResultView)
    requires
        row.shows(r),
    ensures
        row.domain@ == r.domain,
        row.source@ == r.source,
        row.latency_ms == r.latency_ms,
        r.status == DomainStatus::Available ==> row.status@ == "available"@,
        r.status == DomainStatus::Taken ==> row.status@ == "taken"@,
        r.status == DomainStatus::Unknown ==> row.status@ == "unknown"@,
        r.details is None ==> row.registrar@.len() == 0 && row.creation_date@.len() == 0
            && row.expiry_date@.len() == 0 && row.nameservers@.len() == 0 && row.server@.len() == 0
            && row.registry@.len() == 0,
        r.details matches Some(d) ==> {
            &&& row.registrar@ == if d.registrar is Some { d.registrar->0 } else { Seq::empty() }
            &&& row.creation_date@ == if d.creation_date is Some { d.creation_date->0 } else {
                Seq::empty()
            }
            &&& row.expiry_date@ == if d.expiry_date is Some { d.expiry_date->0 } else {
                Seq::empty()
            }
            &&& row.server@ == if d.server is Some { d.server->0 } else { Seq::empty() }
            &&& row.registry@ == if d.registry is Some { d.registry->0 } else { Seq::empty() }
            &&& d.nameservers.len() == 0 ==> row.nameservers@.len() == 0
            &&& d.nameservers.len() > 0 && (forall|k: int, i: int|
                0 <= k < d.nameservers.len() && 0 <= i < d.nameservers[k].len()
                    ==> #[trigger] d.nameservers[k][i] != ';') ==> split(
                row.nameservers@,
                CharSet::Only(';'),
            ) == d.nameservers
        },
{
    reveal_strlit(";");
    assert(";"@ =~= seq![';']);
    if let Some(d) = r.details {
        if d.nameservers.len() > 0 && (forall|k: int, i: int|
            0 <= k < d.nameservers.len() && 0 <= i < d.nameservers[k].len()
                ==> #[trigger] d.nameservers[k][i] != ';') {
            law_split_undoes_join(d.nameservers, ';');
        }
    }
}

/// A time of day shows its hours, its minutes and its seconds, each in two digits.
pub proof fn law_time_of_day(h: int, m: int, s: int)
    requires
        0 <= h < 24,
        0 <= m < 60,
        0 <= s < 60,
    ensures
        time_text(3600 * h + 60 * m + s) == zero_padded(h, 2) + seq!['-'] + zero_padded(m, 2) + seq![
            '-',
        ] + zero_padded(s, 2),
        time_text(3600 * h + 60 * m + s).len() == 8,
{
    reveal_strlit("-");
    assert("-"@ =~= seq!['-']);
    let t = 3600 * h + 60 * m + s;
    assert(t / 3600 == h);
    assert(t % 3600 == 60 * m + s);
    assert((t % 3600) / 60 == m);
    assert(t % 60 == s);
    lemma_two_digits(h);
    lemma_two_digits(m);
    lemma_two_digits(s);
}

/// A number below a hundred has two digits where it is padded to two.
proof fn lemma_two_digits(n: int)
    requires
        0 <= n < 100,
    ensures
        zero_padded(n, 2).len() == 2,
{
    reveal_with_fuel(decimal, 3);
    law_padding(decimal(n as nat), 2, '0');
}

/// A date shows its year, its month and its day, with dashes between them.
pub proof fn law_date_text(y: int, m: int, d: int)
    ensures
        date_text(y, m, d) == zero_padded(y, 4) + seq!['-'] + zero_padded(m, 2) + seq!['-']
            + zero_padded(d, 2),
{
    reveal_strlit("-");
    assert("-"@ =~= seq!['-']);
}

/// A second has the date of its day, in UTC, and no other.
pub proof fn law_date_of_a_second(secs: int, y: i64, m: int, d: int, date: Seq<char>)
    requires
        falls_on(secs / 86_400, y as int, m, d),
    ensures
        is_date_at(secs, date) <==> date == date_text((y as i32) as int, m, d),
{
    if is_date_at(secs, date) {
        let (a, b, c) = choose|a: i64, b: int, c: int|
            #![trigger falls_on(secs / 86_400, a as int, b, c)]
            falls_on(secs / 86_400, a as int, b, c) && date == date_text((a as i32) as int, b, c);
        law_date_is_unique(secs / 86_400, y as int, m, d, a as int, b, c);
    }
}

} // verus!
