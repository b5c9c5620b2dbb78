//! The results as lines of text.
//!
//! ```text
//! + dolkana.app AVAILABLE rdap  442ms
//! x dolkana.com TAKEN     rdap  120ms
//! ? dolkana.bd  UNKNOWN   bd    536ms
//! ```
//!
//! Each line has a marker with the domain, the status, the protocol and the latency.
//! The columns are as wide as their widest cell and stand one blank apart; only the
//! latency is aligned to the right. Markers and status cells may be coloured, which
//! changes no widths. Indented lines with more about the domain may follow.

use vstd::prelude::*;

use crate::cli::Cli;
use crate::models::{text_of, views, DetailsView, DomainStatus, LookupResult, ResultView};
use crate::output::ansi::{
    is_plain, lemma_strip_painted, lemma_strip_plain, paint, painted, stripped, Colour, ESCAPE,
};
use crate::text::{
    append_chars, append_padded_left, append_padded_right, append_run, chars_of, contains, decimal,
    decimal_of, digit, ends_with, join, join_texts, occurs_at, pad_left, pad_right, run_of,
    string_of,
};

verus! {

/// What is shown of the results.
#[derive(Debug, Clone)]
pub struct RenderOptions {
    pub details: bool,
    pub show_where: bool,
    pub show_registry: bool,
    pub available_only: bool,
}

impl Default for RenderOptions {
    fn default() -> (r: Self)
        ensures
            r == (RenderOptions {
                details: false,
                show_where: false,
                show_registry: false,
                available_only: false,
            }),
    {
        RenderOptions {
            details: false,
            show_where: false,
            show_registry: false,
            available_only: false,
        }
    }
}

impl RenderOptions {
    /// The options that the command line asks for.
    pub fn from_cli(cli: &Cli) -> (r: Self)
        ensures
            r == (RenderOptions {
                details: cli.details,
                show_where: cli.show_where,
                show_registry: cli.registry,
                available_only: cli.available_only,
            }),
    {
        RenderOptions {
            details: cli.details,
            show_where: cli.show_where,
            show_registry: cli.registry,
            available_only: cli.available_only,
        }
    }
}

// ---------- cells ----------

/// The word for a status.
pub open spec fn status_text(status: DomainStatus) -> Seq<char> {
    match status {
        DomainStatus::Available => "AVAILABLE"@,
        DomainStatus::Taken => "TAKEN"@,
        DomainStatus::Unknown => "UNKNOWN"@,
    }
}

/// The marker of a status.
pub open spec fn marker(status: DomainStatus) -> Seq<char> {
    match status {
        DomainStatus::Available => "+ "@,
        DomainStatus::Taken => "x "@,
        DomainStatus::Unknown => "? "@,
    }
}

/// The colour of a status.
pub open spec fn status_colour(status: DomainStatus) -> Colour {
    match status {
        DomainStatus::Available => Colour::Green,
        DomainStatus::Taken => Colour::Red,
        DomainStatus::Unknown => Colour::Yellow,
    }
}

/// The text of a latency.
pub open spec fn latency_text(ms: u64) -> Seq<char> {
    decimal(ms as nat) + "ms"@
}

/// A text in the colour of a status, where colours are wanted.
pub open spec fn tinted(text: Seq<char>, status: DomainStatus, colour: bool) -> Seq<char> {
    if colour {
        painted(text, status_colour(status))
    } else {
        text
    }
}

/// The word for a status.
pub fn format_status(s: DomainStatus) -> (r: String)
    ensures
        r@ == status_text(s),
{
    match s {
        DomainStatus::Available => "AVAILABLE".to_owned(),
        DomainStatus::Taken => "TAKEN".to_owned(),
        DomainStatus::Unknown => "UNKNOWN".to_owned(),
    }
}

/// The marker of a status.
fn marker_of(status: DomainStatus) -> (r: &'static str)
    ensures
        r@ == marker(status),
{
    match status {
        DomainStatus::Available => "+ ",
        DomainStatus::Taken => "x ",
        DomainStatus::Unknown => "? ",
    }
}

/// The text of a latency.
fn latency_chars(ms: u64) -> (r: Vec<char>)
    ensures
        r@ == latency_text(ms),
{
    let mut out = decimal_of(ms);
    append_chars(&mut out, &chars_of("ms"));
    out
}

/// A text in the colour of a status, where colours are wanted.
fn tint(text: &str, status: DomainStatus, colour: bool) -> (r: String)
    ensures
        r@ == tinted(text@, status, colour),
{
    if colour {
        let c = match status {
            DomainStatus::Available => Colour::Green,
            DomainStatus::Taken => Colour::Red,
            DomainStatus::Unknown => Colour::Yellow,
        };
        paint(text, c)
    } else {
        text.to_owned()
    }
}

// ---------- rows ----------

/// The widths of the columns.
#[derive(Debug, Clone, Copy)]
pub struct Widths {
    pub domain: usize,
    pub status: usize,
    pub source: usize,
    pub latency: usize,
}

/// The view of [`Widths`].
pub struct WidthsView {
    pub domain: int,
    pub status: int,
    pub source: int,
    pub latency: int,
}

impl View for Widths {
    type V = WidthsView;

    open spec fn view(&self) -> WidthsView {
        WidthsView {
            domain: self.domain as int,
            status: self.status as int,
            source: self.source as int,
            latency: self.latency as int,
        }
    }
}

/// The larger of two numbers.
pub open spec fn larger(a: int, b: int) -> int {
    if a < b {
        b
    } else {
        a
    }
}

/// The length of the longest of some texts.
pub open spec fn longest(cells: Seq<Seq<char>>) -> int
    decreases cells.len(),
{
    if cells.len() == 0 {
        0
    } else {
        larger(longest(cells.drop_last()), cells.last().len() as int)
    }
}

/// The domains of some results.
pub open spec fn domain_cells(rows: Seq<ResultView>) -> Seq<Seq<char>> {
    rows.map_values(|r: ResultView| r.domain)
}

/// The status words of some results.
pub open spec fn status_cells(rows: Seq<ResultView>) -> Seq<Seq<char>> {
    rows.map_values(|r: ResultView| status_text(r.status))
}

/// The protocols of some results.
pub open spec fn source_cells(rows: Seq<ResultView>) -> Seq<Seq<char>> {
    rows.map_values(|r: ResultView| r.source)
}

/// The latencies of some results.
pub open spec fn latency_cells(rows: Seq<ResultView>) -> Seq<Seq<char>> {
    rows.map_values(|r: ResultView| latency_text(r.latency_ms))
}

/// The widths at which the columns are as wide as their widest cells.
pub open spec fn widths(rows: Seq<ResultView>) -> WidthsView {
    WidthsView {
        domain: longest(domain_cells(rows)),
        status: longest(status_cells(rows)),
        source: longest(source_cells(rows)),
        latency: longest(latency_cells(rows)),
    }
}

/// The status cell: padded by its visible width.
pub open spec fn status_cell(status: DomainStatus, width: int, colour: bool) -> Seq<char> {
    tinted(status_text(status), status, colour) + run_of(
        ' ',
        width - status_text(status).len(),
    )
}

/// The line of a result.
pub open spec fn row(r: ResultView, w: WidthsView, colour: bool) -> Seq<char> {
    tinted(marker(r.status), r.status, colour) + pad_right(r.domain, w.domain) + " "@
        + status_cell(r.status, w.status, colour) + " "@ + pad_right(
        r.source,
        w.source,
    ) + " "@ + pad_left(latency_text(r.latency_ms), w.latency, ' ')
}

/// The line of a result.
pub fn render_row(r: &LookupResult, w: Widths, colour: bool) -> (out: String)
    ensures
        out@ == row(r@, w@, colour),
{
    let mut out = chars_of(tint(marker_of(r.status), r.status, colour).as_str());
    append_padded_right(&mut out, &chars_of(r.domain.as_str()), w.domain);
    append_chars(&mut out, &chars_of(" "));
    let status = format_status(r.status);
    let visible: usize = status.as_str().unicode_len();
    append_chars(&mut out, &chars_of(tint(status.as_str(), r.status, colour).as_str()));
    if visible < w.status {
        append_run(&mut out, ' ', w.status - visible);
    }
    append_chars(&mut out, &chars_of(" "));
    append_padded_right(&mut out, &chars_of(r.source.as_str()), w.source);
    append_chars(&mut out, &chars_of(" "));
    append_padded_left(&mut out, &latency_chars(r.latency_ms), w.latency, ' ');
    proof {
        assert(out@ =~= row(r@, w@, colour));
    }
    string_of(&out)
}

// ---------- more about a domain ----------

/// An indented line that may be missing.
pub open spec fn line(label: Seq<char>, text: Option<Seq<char>>) -> Seq<Seq<char>> {
    match text {
        Some(t) => seq![label + t],
        None => Seq::empty(),
    }
}

/// The nameservers in one text, if there are any.
pub open spec fn nameserver_text(list: Seq<Seq<char>>) -> Option<Seq<char>> {
    if list.len() == 0 {
        None
    } else {
        Some(join(list, ", "@))
    }
}

/// The registry, or else the server.
pub open spec fn registry_text(d: DetailsView) -> Option<Seq<char>> {
    match d.registry {
        Some(registry) => Some(registry),
        None => d.server,
    }
}

/// The lines with more about a domain.
pub open spec fn extra_lines(d: DetailsView, opts: RenderOptions) -> Seq<Seq<char>> {
    (if opts.details {
        line("    registrar : "@, d.registrar) + line("    created   : "@, d.creation_date) + line(
            "    expires   : "@,
            d.expiry_date,
        ) + line("    nservers  : "@, nameserver_text(d.nameservers))
    } else {
        Seq::empty()
    }) + (if opts.show_where {
        line("    via       : "@, d.server)
    } else {
        Seq::empty()
    }) + (if opts.show_registry {
        line("    registry  : "@, registry_text(d))
    } else {
        Seq::empty()
    })
}

/// The text with more about a domain.
pub open spec fn extra(r: ResultView, opts: RenderOptions) -> Seq<char> {
    match r.details {
        Some(d) => join(extra_lines(d, opts), "\n"@),
        None => Seq::empty(),
    }
}

/// Appends an indented line, if there is one.
fn append_line(lines: &mut Vec<String>, label: &str, text: Option<&str>)
    ensures
        final(lines).deep_view() == old(lines).deep_view() + line(
            label@,
            match text {
                Some(t) => Some(t@),
                None => None,
            },
        ),
{
    if let Some(t) = text {
        let ghost was = lines.deep_view();
        let mut s = label.to_owned();
        s.append(t);
        lines.push(s);
        proof {
            assert(lines.deep_view() =~= was.push(label@ + t@));
        }
    } else {
        proof {
            assert(lines.deep_view() =~= lines.deep_view() + Seq::<Seq<char>>::empty());
        }
    }
}

/// The text in an optional string.
fn borrow(o: &Option<String>) -> (r: Option<&str>)
    ensures
        text_of(*o) == match r {
            Some(t) => Some(t@),
            None => None,
        },
{
    match o {
        Some(s) => Some(s.as_str()),
        None => None,
    }
}

/// The text with more about a domain.
pub fn render_extra(r: &LookupResult, opts: &RenderOptions) -> (out: String)
    ensures
        out@ == extra(r@, *opts),
{
    let d = match &r.details {
        Some(d) => d,
        None => {
            return String::new();
        },
    };
    let mut lines: Vec<String> = Vec::new();
    proof {
        assert(lines.deep_view() =~= Seq::<Seq<char>>::empty());
    }
    if opts.details {
        append_line(&mut lines, "    registrar : ", borrow(&d.registrar));
        append_line(&mut lines, "    created   : ", borrow(&d.creation_date));
        append_line(&mut lines, "    expires   : ", borrow(&d.expiry_date));
        if d.nameservers.len() > 0 {
            let list = join_texts(&d.nameservers, ", ");
            append_line(&mut lines, "    nservers  : ", Some(list.as_str()));
        }
    }
    if opts.show_where {
        append_line(&mut lines, "    via       : ", borrow(&d.server));
    }
    if opts.show_registry {
        if d.registry.is_some() {
            append_line(&mut lines, "    registry  : ", borrow(&d.registry));
        } else {
            append_line(&mut lines, "    registry  : ", borrow(&d.server));
        }
    }
    proof {
        assert(lines.deep_view() =~= extra_lines(d@, *opts));
    }
    join_texts(&lines, "\n")
}

// ---------- the whole ----------

/// The results that are shown.
pub open spec fn shown(results: Seq<ResultView>, available_only: bool) -> Seq<ResultView>
    decreases results.len(),
{
    if results.len() == 0 {
        Seq::empty()
    } else {
        let before = shown(results.drop_last(), available_only);
        if available_only && results.last().status != DomainStatus::Available {
            before
        } else {
            before.push(results.last())
        }
    }
}

/// The lines of a result.
pub open spec fn block(r: ResultView, w: WidthsView, opts: RenderOptions, colour: bool) -> Seq<
    char,
> {
    row(r, w, colour) + (if extra(r, opts).len() > 0 {
        "\n"@ + extra(r, opts)
    } else {
        Seq::empty()
    }) + "\n"@
}

/// The lines of some results.
pub open spec fn blocks(
    rows: Seq<ResultView>,
    w: WidthsView,
    opts: RenderOptions,
    colour: bool,
) -> Seq<char>
    decreases rows.len(),
{
    if rows.len() == 0 {
        Seq::empty()
    } else {
        blocks(rows.drop_last(), w, opts, colour) + block(rows.last(), w, opts, colour)
    }
}

/// The results as text.
pub open spec fn rendered(results: Seq<ResultView>, opts: RenderOptions, colour: bool) -> Seq<
    char,
> {
    let rows = shown(results, opts.available_only);
    blocks(rows, widths(rows), opts, colour)
}

/// The views of some borrowed results.
pub open spec fn borrowed(rows: Seq<&LookupResult>) -> Seq<ResultView> {
    rows.map_values(|r: &LookupResult| r@)
}

/// The results that are shown.
fn visible<'a>(results: &'a [LookupResult], available_only: bool) -> (r: Vec<&'a LookupResult>)
    ensures
        borrowed(r@) == shown(views(results@), available_only),
{
    let ghost all = views(results@);
    let mut out: Vec<&'a LookupResult> = Vec::new();
    let mut i: usize = 0;
    proof {
        assert(borrowed(out@) =~= shown(all.take(0), available_only));
    }
    while i < results.len()
        invariant
            i <= results@.len(),
            all == views(results@),
            borrowed(out@) == shown(all.take(i as int), available_only),
        decreases results@.len() - i,
    {
        let ghost was = borrowed(out@);
        proof {
            assert(all.take(i + 1).last() == all[i as int]);
            assert(all.take(i + 1).drop_last() =~= all.take(i as int));
        }
        if !available_only || results[i].status == DomainStatus::Available {
            out.push(&results[i]);
            proof {
                assert(borrowed(out@) =~= was.push(all[i as int]));
            }
        }
        i += 1;
    }
    proof {
        assert(all.take(i as int) =~= all);
    }
    out
}

/// The larger of two numbers.
fn max_of(a: usize, b: usize) -> (r: usize)
    ensures
        r == larger(a as int, b as int),
{
    if a < b {
        b
    } else {
        a
    }
}

/// The widths at which the columns are as wide as their widest cells.
fn widths_of(rows: &Vec<&LookupResult>) -> (r: Widths)
    ensures
        r@ == widths(borrowed(rows@)),
{
    let ghost all = borrowed(rows@);
    let mut w = Widths { domain: 0, status: 0, source: 0, latency: 0 };
    let mut i: usize = 0;
    while i < rows.len()
        invariant
            i <= rows@.len(),
            all == borrowed(rows@),
            w@ == widths(all.take(i as int)),
        decreases rows@.len() - i,
    {
        let r = rows[i];
        proof {
            let more = all.take(i + 1);
            let less = all.take(i as int);
            assert(more.last() == all[i as int]);
            assert(domain_cells(more).drop_last() =~= domain_cells(less));
            assert(status_cells(more).drop_last() =~= status_cells(less));
            assert(source_cells(more).drop_last() =~= source_cells(less));
            assert(latency_cells(more).drop_last() =~= latency_cells(less));
        }
        w.domain = max_of(w.domain, r.domain.as_str().unicode_len());
        w.status = max_of(w.status, format_status(r.status).as_str().unicode_len());
        w.source = max_of(w.source, r.source.as_str().unicode_len());
        w.latency = max_of(w.latency, latency_chars(r.latency_ms).len());
        i += 1;
    }
    proof {
        assert(all.take(i as int) =~= all);
    }
    w
}

/// The lines of a result.
fn render_block(r: &LookupResult, w: Widths, opts: &RenderOptions, colour: bool) -> (out: String)
    ensures
        out@ == block(r@, w@, *opts, colour),
{
    let mut out = render_row(r, w, colour);
    let more = render_extra(r, opts);
    let ghost first = out@;
    if more.as_str().unicode_len() > 0 {
        out.append("\n");
        out.append(more.as_str());
        proof {
            lemma_append(first, "\n"@, more@);
        }
    } else {
        proof {
            lemma_append(first, Seq::empty(), Seq::empty());
        }
    }
    out.append("\n");
    out
}

/// Appending two texts one after the other appends them together.
proof fn lemma_append(a: Seq<char>, b: Seq<char>, c: Seq<char>)
    ensures
        (a + b) + c == a + (b + c),
        a + Seq::<char>::empty() == a,
{
    assert((a + b) + c =~= a + (b + c));
    assert(a + Seq::<char>::empty() =~= a);
}

/// The results as text, with or without colours. Without results there is no text.
pub fn render(results: &[LookupResult], opts: &RenderOptions, colour: bool) -> (r: String)
    ensures
        r@ == rendered(views(results@), *opts, colour),
{
    let rows = visible(results, opts.available_only);
    let w = widths_of(&rows);
    let ghost all = borrowed(rows@);
    let mut out = String::new();
    let mut i: usize = 0;
    while i < rows.len()
        invariant
            i <= rows@.len(),
            all == borrowed(rows@),
            out@ == blocks(all.take(i as int), w@, *opts, colour),
        decreases rows@.len() - i,
    {
        proof {
            assert(all.take(i + 1).last() == all[i as int]);
            assert(all.take(i + 1).drop_last() =~= all.take(i as int));
        }
        out.append(render_block(rows[i], w, opts, colour).as_str());
        i += 1;
    }
    proof {
        assert(all.take(i as int) =~= all);
    }
    out
}

// ---------- the summary ----------

/// The number of results with a status.
pub open spec fn count(results: Seq<ResultView>, status: DomainStatus) -> nat
    decreases results.len(),
{
    if results.len() == 0 {
        0
    } else if results.last().status == status {
        count(results.drop_last(), status) + 1
    } else {
        count(results.drop_last(), status)
    }
}

/// The label of the summary.
pub open spec fn summary_label(colour: bool) -> Seq<char> {
    if colour {
        painted("summary:"@, Colour::Cyan)
    } else {
        "summary:"@
    }
}

/// The summary of some results.
pub open spec fn summary(results: Seq<ResultView>, seconds: Seq<char>, colour: bool) -> Seq<char> {
    summary_label(colour) + " "@ + decimal(count(results, DomainStatus::Available))
        + " available  "@ + decimal(count(results, DomainStatus::Taken)) + " taken  "@
        + decimal(count(results, DomainStatus::Unknown)) + " unknown   ("@
        + decimal(results.len()) + " checked in "@ + seconds + "s)"@
}

/// The number of results with a status.
fn count_of(results: &[LookupResult], status: DomainStatus) -> (r: u64)
    ensures
        r == count(views(results@), status),
{
    let ghost all = views(results@);
    let mut n: u64 = 0;
    let mut i: usize = 0;
    while i < results.len()
        invariant
            i <= results@.len(),
            all == views(results@),
            n == count(all.take(i as int), status),
            n <= i,
        decreases results@.len() - i,
    {
        proof {
            assert(all.take(i + 1).last() == all[i as int]);
            assert(all.take(i + 1).drop_last() =~= all.take(i as int));
        }
        if results[i].status == status {
            n += 1;
        }
        i += 1;
    }
    proof {
        assert(all.take(i as int) =~= all);
    }
    n
}

/// The line that sums the results up. `seconds` is the time that the lookups took.
pub fn summary_line(results: &[LookupResult], seconds: &str, colour: bool) -> (r: String)
    ensures
        r@ == summary(views(results@), seconds@, colour),
{
    let mut out = if colour {
        paint("summary:", Colour::Cyan)
    } else {
        "summary:".to_owned()
    };
    out.append(" ");
    out.append(string_of(&decimal_of(count_of(results, DomainStatus::Available))).as_str());
    out.append(" available  ");
    out.append(string_of(&decimal_of(count_of(results, DomainStatus::Taken))).as_str());
    out.append(" taken  ");
    out.append(string_of(&decimal_of(count_of(results, DomainStatus::Unknown))).as_str());
    out.append(" unknown   (");
    out.append(string_of(&decimal_of(results.len() as u64)).as_str());
    out.append(" checked in ");
    out.append(seconds);
    out.append("s)");
    out
}

// ---------- laws ----------

/// Each result has one of the three statuses that are counted.
pub proof fn law_counts_add_up(results: Seq<ResultView>)
    ensures
        count(results, DomainStatus::Available) + count(results, DomainStatus::Taken) + count(
            results,
            DomainStatus::Unknown,
        ) == results.len(),
    decreases results.len(),
{
    if results.len() > 0 {
        law_counts_add_up(results.drop_last());
    }
}

/// With `available_only` what is shown is available, and without it every result is
/// shown.
pub proof fn law_shown_results(results: Seq<ResultView>)
    ensures
        shown(results, false) == results,
        forall|i: int|
            0 <= i < shown(results, true).len() ==> (#[trigger] shown(results, true)[i]).status
                == DomainStatus::Available,
        shown(results, true).len() == count(results, DomainStatus::Available),
    decreases results.len(),
{
    if results.len() > 0 {
        law_shown_results(results.drop_last());
        assert(results.drop_last().push(results.last()) =~= results);
    } else {
        assert(shown(results, false) =~= results);
    }
}

/// No cell is longer than the longest one.
proof fn lemma_longest(cells: Seq<Seq<char>>, i: int)
    requires
        0 <= i < cells.len(),
    ensures
        cells[i].len() <= longest(cells),
    decreases cells.len(),
{
    if i < cells.len() - 1 {
        lemma_longest(cells.drop_last(), i);
    }
}

/// The columns line up: without colours, the status of every row begins at the same
/// place, the protocol and the end of the row too.
pub proof fn law_columns_line_up(rows: Seq<ResultView>, i: int)
    requires
        0 <= i < rows.len(),
    ensures
        ({
            let w = widths(rows);
            let text = row(rows[i], w, false);
            &&& occurs_at(text, rows[i].domain, 2)
            &&& occurs_at(text, status_text(rows[i].status), w.domain + 3)
            &&& occurs_at(text, rows[i].source, w.domain + w.status + 4)
            &&& text.len() == w.domain + w.status + w.source + w.latency + 5
            &&& ends_with(text, latency_text(rows[i].latency_ms))
        }),
{
    let w = widths(rows);
    let r = rows[i];
    let text = row(r, w, false);
    lemma_longest(domain_cells(rows), i);
    lemma_longest(status_cells(rows), i);
    lemma_longest(source_cells(rows), i);
    lemma_longest(latency_cells(rows), i);
    reveal_strlit(" ");
    reveal_strlit("+ ");
    reveal_strlit("x ");
    reveal_strlit("? ");
    let status = status_text(r.status);
    let latency = latency_text(r.latency_ms);
    let n = text.len() as int;
    assert(n == w.domain + w.status + w.source + w.latency + 5);
    assert(text.subrange(2, 2int + r.domain.len()) =~= r.domain);
    assert(text.subrange(w.domain + 3, w.domain + 3 + status.len()) =~= status);
    assert(text.subrange(
        w.domain + w.status + 4,
        w.domain + w.status + 4 + r.source.len(),
    ) =~= r.source);
    assert(text.subrange(n - latency.len(), n) =~= latency);
}

/// Whether a text that may be missing is plain.
pub open spec fn plain_text(text: Option<Seq<char>>) -> bool {
    match text {
        Some(t) => is_plain(t),
        None => true,
    }
}

/// Whether no text in a result holds an escape sequence.
pub open spec fn plain_result(r: ResultView) -> bool {
    &&& is_plain(r.domain)
    &&& is_plain(r.source)
    &&& r.details matches Some(d) ==> {
        &&& plain_text(d.registrar)
        &&& plain_text(d.creation_date)
        &&& plain_text(d.expiry_date)
        &&& plain_text(d.registry)
        &&& plain_text(d.server)
        &&& forall|i: int|
            0 <= i < d.nameservers.len() ==> is_plain(
                #[trigger] d.nameservers[i],
            )
    }
}

/// A text is plain if its parts are.
proof fn lemma_plain_parts(a: Seq<char>, b: Seq<char>)
    requires
        is_plain(a),
        is_plain(b),
    ensures
        is_plain(a + b),
{
    let escape = ESCAPE;
    if (a + b).contains(escape) {
        let i = choose|i: int| 0 <= i < (a + b).len() && (a + b)[i] == escape;
        if i < a.len() {
            assert(a[i] == escape);
        } else {
            assert(b[i - a.len()] == escape);
        }
    }
}

/// The fixed texts in the lines of a result are plain.
proof fn lemma_plain_literals()
    ensures
        is_plain("    registrar : "@),
        is_plain("    created   : "@),
        is_plain("    expires   : "@),
        is_plain("    nservers  : "@),
        is_plain("    via       : "@),
        is_plain("    registry  : "@),
        is_plain(" "@),
        is_plain("\n"@),
        is_plain(", "@),
        is_plain("ms"@),
{
    reveal_strlit("    registrar : ");
    reveal_strlit("    created   : ");
    reveal_strlit("    expires   : ");
    reveal_strlit("    nservers  : ");
    reveal_strlit("    via       : ");
    reveal_strlit("    registry  : ");
    reveal_strlit(" ");
    reveal_strlit("\n");
    reveal_strlit(", ");
    reveal_strlit("ms");
}

/// The words and markers of the statuses are plain.
proof fn lemma_plain_status(status: DomainStatus)
    ensures
        is_plain(status_text(status)),
        is_plain(marker(status)),
{
    reveal_strlit("AVAILABLE");
    reveal_strlit("TAKEN");
    reveal_strlit("UNKNOWN");
    reveal_strlit("+ ");
    reveal_strlit("x ");
    reveal_strlit("? ");
}

/// Numbers are plain.
proof fn lemma_plain_decimal(n: nat)
    ensures
        is_plain(decimal(n)),
    decreases n,
{
    let last = digit(n % 10);
    assert(is_plain(seq![last]));
    if n >= 10 {
        lemma_plain_decimal(n / 10);
        lemma_plain_parts(decimal(n / 10), seq![last]);
        assert(decimal(n) =~= decimal(n / 10) + seq![last]);
    }
}

/// Joined texts are plain if the texts and the separator are.
proof fn lemma_plain_join(parts: Seq<Seq<char>>, sep: Seq<char>)
    requires
        is_plain(sep),
        forall|i: int|
            0 <= i < parts.len() ==> is_plain(#[trigger] parts[i]),
    ensures
        is_plain(join(parts, sep)),
    decreases parts.len(),
{
    if parts.len() > 1 {
        let before = parts.drop_last();
        assert forall|i: int| 0 <= i < before.len() implies is_plain(
            #[trigger] before[i],
        ) by {
            assert(before[i] == parts[i]);
        }
        lemma_plain_join(before, sep);
        lemma_plain_parts(join(before, sep), sep);
        assert(parts.last() == parts[parts.len() - 1]);
        lemma_plain_parts(join(before, sep) + sep, parts.last());
    }
}

/// A line that may be missing is plain if its parts are.
proof fn lemma_plain_line(label: Seq<char>, text: Option<Seq<char>>)
    requires
        is_plain(label),
        plain_text(text),
    ensures
        forall|i: int|
            0 <= i < line(label, text).len() ==> is_plain(
                #[trigger] line(label, text)[i],
            ),
{
    if let Some(t) = text {
        lemma_plain_parts(label, t);
    }
}

/// What is said more about a domain is plain if the result is.
proof fn lemma_plain_extra(r: ResultView, opts: RenderOptions)
    requires
        plain_result(r),
    ensures
        is_plain(extra(r, opts)),
{
    lemma_plain_literals();
    if let Some(d) = r.details {
        lemma_plain_join(d.nameservers, ", "@);
        lemma_plain_line("    registrar : "@, d.registrar);
        lemma_plain_line("    created   : "@, d.creation_date);
        lemma_plain_line("    expires   : "@, d.expiry_date);
        lemma_plain_line("    nservers  : "@, nameserver_text(d.nameservers));
        lemma_plain_line("    via       : "@, d.server);
        lemma_plain_line("    registry  : "@, registry_text(d));
        lemma_plain_join(extra_lines(d, opts), "\n"@);
    }
}

/// Padding is plain.
proof fn lemma_plain_blanks(n: int)
    ensures
        is_plain(run_of(' ', n)),
{
}

/// What stands between the marker and the status of a row.
spec fn row_middle(r: ResultView, w: WidthsView) -> Seq<char> {
    pad_right(r.domain, w.domain) + " "@
}

/// What follows the status of a row.
spec fn row_end(r: ResultView, w: WidthsView) -> Seq<char> {
    run_of(' ', w.status - status_text(r.status).len()) + " "@
        + pad_right(r.source, w.source) + " "@ + pad_left(
        latency_text(r.latency_ms),
        w.latency,
        ' ',
    )
}

/// The uncoloured parts of a row are plain if the result is.
proof fn lemma_plain_row(r: ResultView, w: WidthsView)
    requires
        plain_result(r),
    ensures
        is_plain(row_middle(r, w)),
        is_plain(row_end(r, w)),
{
    let status = status_text(r.status);
    let blanks = run_of(' ', w.status - status.len());
    let domain = pad_right(r.domain, w.domain);
    let source = pad_right(r.source, w.source);
    let latency = latency_text(r.latency_ms);
    let right = pad_left(latency, w.latency, ' ');
    lemma_plain_literals();
    lemma_plain_blanks(w.status - status.len());
    lemma_plain_blanks(w.domain - r.domain.len());
    lemma_plain_blanks(w.source - r.source.len());
    lemma_plain_blanks(w.latency - latency.len());
    lemma_plain_decimal(r.latency_ms as nat);
    lemma_plain_parts(decimal(r.latency_ms as nat), "ms"@);
    lemma_plain_parts(r.domain, run_of(' ', w.domain - r.domain.len()));
    lemma_plain_parts(r.source, run_of(' ', w.source - r.source.len()));
    lemma_plain_parts(run_of(' ', w.latency - latency.len()), latency);
    lemma_plain_parts(domain, " "@);
    lemma_plain_parts(blanks, " "@);
    lemma_plain_parts(blanks + " "@, source);
    lemma_plain_parts(blanks + " "@ + source, " "@);
    lemma_plain_parts(blanks + " "@ + source + " "@, right);
}

/// The parts of a row, and what follows it, in different groups.
proof fn lemma_row_groups(
    marker: Seq<char>,
    domain: Seq<char>,
    status: Seq<char>,
    blanks: Seq<char>,
    source: Seq<char>,
    right: Seq<char>,
    gap: Seq<char>,
    rest: Seq<char>,
)
    ensures
        (marker + domain + gap + (status + blanks) + gap + source + gap + right) + rest == marker + (
        (domain + gap) + (status + ((blanks + gap + source + gap + right) + rest))),
{
    assert((marker + domain + gap + (status + blanks) + gap + source + gap + right) + rest
        =~= marker + ((domain + gap) + (status + ((blanks + gap + source + gap + right) + rest))));
}

/// Stripping takes the colours off a row in front.
proof fn lemma_strip_row(r: ResultView, w: WidthsView, rest: Seq<char>)
    requires
        plain_result(r),
    ensures
        stripped(row(r, w, true) + rest) == row(r, w, false)
            + stripped(rest),
{
    let colour = status_colour(r.status);
    let status = status_text(r.status);
    let middle = row_middle(r, w);
    let end = row_end(r, w);
    let bare = stripped(rest);
    let tail = painted(status, colour) + (end + rest);
    lemma_plain_row(r, w);
    lemma_plain_status(r.status);
    lemma_strip_plain(end, rest);
    lemma_strip_painted(status, colour, end + rest);
    lemma_strip_plain(middle, tail);
    lemma_strip_painted(marker(r.status), colour, middle + tail);
    lemma_row_groups(
        painted(marker(r.status), colour),
        pad_right(r.domain, w.domain),
        painted(status, colour),
        run_of(' ', w.status - status.len()),
        pad_right(r.source, w.source),
        pad_left(latency_text(r.latency_ms), w.latency, ' '),
        " "@,
        rest,
    );
    lemma_row_groups(
        marker(r.status),
        pad_right(r.domain, w.domain),
        status,
        run_of(' ', w.status - status.len()),
        pad_right(r.source, w.source),
        pad_left(latency_text(r.latency_ms), w.latency, ' '),
        " "@,
        bare,
    );
}

/// Stripping takes the colours off the lines of a result in front.
proof fn lemma_strip_block(r: ResultView, w: WidthsView, opts: RenderOptions, rest: Seq<char>)
    requires
        plain_result(r),
    ensures
        stripped(block(r, w, opts, true) + rest) == block(r, w, opts, false)
            + stripped(rest),
{
    let more = if extra(r, opts).len() > 0 {
        "\n"@ + extra(r, opts)
    } else {
        Seq::empty()
    };
    let end = more + "\n"@;
    lemma_plain_literals();
    lemma_plain_extra(r, opts);
    lemma_plain_parts("\n"@, extra(r, opts));
    lemma_plain_parts(more, "\n"@);
    lemma_strip_plain(end, rest);
    lemma_strip_row(r, w, end + rest);
    let bare = stripped(rest);
    lemma_regroup(row(r, w, true), more, "\n"@, rest);
    lemma_regroup(row(r, w, false), more, "\n"@, bare);
}

/// Appending four texts in different groups.
proof fn lemma_regroup(a: Seq<char>, b: Seq<char>, c: Seq<char>, d: Seq<char>)
    ensures
        ((a + b) + c) + d == a + ((b + c) + d),
{
    assert(((a + b) + c) + d =~= a + ((b + c) + d));
}

/// Stripping takes the colours off the lines of some results in front.
proof fn lemma_strip_blocks(
    rows: Seq<ResultView>,
    w: WidthsView,
    opts: RenderOptions,
    rest: Seq<char>,
)
    requires
        forall|i: int| 0 <= i < rows.len() ==> plain_result(#[trigger] rows[i]),
    ensures
        stripped(blocks(rows, w, opts, true) + rest) == blocks(
            rows,
            w,
            opts,
            false,
        ) + stripped(rest),
    decreases rows.len(),
{
    let bare = stripped(rest);
    if rows.len() == 0 {
        assert(Seq::<char>::empty() + rest =~= rest);
        assert(Seq::<char>::empty() + bare =~= bare);
    } else {
        let before = rows.drop_last();
        let last = rows.last();
        assert(last == rows[rows.len() - 1]);
        assert forall|i: int| 0 <= i < before.len() implies plain_result(#[trigger] before[i]) by {
            assert(before[i] == rows[i]);
        }
        lemma_strip_block(last, w, opts, rest);
        lemma_strip_blocks(before, w, opts, block(last, w, opts, true) + rest);
        lemma_append(blocks(before, w, opts, true), block(last, w, opts, true), rest);
        lemma_append(blocks(before, w, opts, false), block(last, w, opts, false), bare);
    }
}

/// What is shown is among the results.
proof fn lemma_shown_plain(results: Seq<ResultView>, available_only: bool)
    requires
        forall|i: int| 0 <= i < results.len() ==> plain_result(#[trigger] results[i]),
    ensures
        forall|i: int|
            0 <= i < shown(results, available_only).len() ==> plain_result(
                #[trigger] shown(results, available_only)[i],
            ),
    decreases results.len(),
{
    if results.len() > 0 {
        let before = results.drop_last();
        assert forall|i: int| 0 <= i < before.len() implies plain_result(#[trigger] before[i]) by {
            assert(before[i] == results[i]);
        }
        assert(plain_result(results[results.len() - 1]));
        lemma_shown_plain(before, available_only);
        let out = shown(results, available_only);
        assert forall|i: int| 0 <= i < out.len() implies plain_result(#[trigger] out[i]) by {
            if i < shown(before, available_only).len() {
                assert(out[i] == shown(before, available_only)[i]);
            }
        }
    }
}

/// Colours change nothing but the looks: without its escape sequences the coloured
/// text is the plain one.
pub proof fn law_colours_change_no_text(results: Seq<ResultView>, opts: RenderOptions)
    requires
        forall|i: int| 0 <= i < results.len() ==> plain_result(#[trigger] results[i]),
    ensures
        stripped(rendered(results, opts, true)) == rendered(
            results,
            opts,
            false,
        ),
{
    let rows = shown(results, opts.available_only);
    let w = widths(rows);
    lemma_shown_plain(results, opts.available_only);
    lemma_strip_blocks(rows, w, opts, Seq::empty());
    lemma_append(blocks(rows, w, opts, true), Seq::empty(), Seq::empty());
    lemma_append(blocks(rows, w, opts, false), Seq::empty(), Seq::empty());
}

/// The word, the marker and the colour of each status.
pub proof fn law_statuses()
    ensures
        status_text(DomainStatus::Available) == "AVAILABLE"@,
        status_text(DomainStatus::Taken) == "TAKEN"@,
        status_text(DomainStatus::Unknown) == "UNKNOWN"@,
        marker(DomainStatus::Available) == seq!['+', ' '],
        marker(DomainStatus::Taken) == seq!['x', ' '],
        marker(DomainStatus::Unknown) == seq!['?', ' '],
        status_colour(DomainStatus::Available) == Colour::Green,
        status_colour(DomainStatus::Taken) == Colour::Red,
        status_colour(DomainStatus::Unknown) == Colour::Yellow,
{
    reveal_strlit("+ ");
    reveal_strlit("x ");
    reveal_strlit("? ");
    assert("+ "@ =~= seq!['+', ' ']);
    assert("x "@ =~= seq!['x', ' ']);
    assert("? "@ =~= seq!['?', ' ']);
}

/// A latency is shown in milliseconds.
pub proof fn law_latency(ms: u64)
    ensures
        latency_text(ms) == decimal(ms as nat) + seq!['m', 's'],
{
    reveal_strlit("ms");
    assert("ms"@ =~= seq!['m', 's']);
}

/// A row has the marker, the domain, the status, the protocol and the latency of its
/// result, with nothing but blanks between them.
pub proof fn law_rows(r: ResultView, w: WidthsView)
    requires
        r.domain.len() <= w.domain,
        status_text(r.status).len() <= w.status,
        r.source.len() <= w.source,
        latency_text(r.latency_ms).len() <= w.latency,
    ensures
        row(r, w, false) == marker(r.status) + r.domain + Seq::new(
            (w.domain - r.domain.len() + 1) as nat,
            |i: int| ' ',
        ) + status_text(r.status) + Seq::new(
            (w.status - status_text(r.status).len() + 1) as nat,
            |i: int| ' ',
        ) + r.source + Seq::new(
            (w.source - r.source.len() + 1 + w.latency - latency_text(r.latency_ms).len()) as nat,
            |i: int| ' ',
        ) + latency_text(r.latency_ms),
{
    reveal_strlit(" ");
    let status = status_text(r.status);
    let latency = latency_text(r.latency_ms);
    let a = w.domain - r.domain.len();
    let b = w.status - status.len();
    let c = w.source - r.source.len();
    let d = w.latency - latency.len();
    let blanks = |n: int| Seq::new(n as nat, |i: int| ' ');
    assert(run_of(' ', a) + " "@ =~= blanks(a + 1));
    assert(run_of(' ', b) + " "@ =~= blanks(b + 1));
    assert(run_of(' ', c) + " "@ + run_of(' ', d) =~= blanks(c + 1 + d));
    lemma_row_parts(
        marker(r.status),
        r.domain,
        run_of(' ', a),
        status,
        run_of(' ', b),
        r.source,
        run_of(' ', c),
        run_of(' ', d),
        latency,
        " "@,
    );
}

/// The parts of a row in different groups.
proof fn lemma_row_parts(
    marker: Seq<char>,
    domain: Seq<char>,
    a: Seq<char>,
    status: Seq<char>,
    b: Seq<char>,
    source: Seq<char>,
    c: Seq<char>,
    d: Seq<char>,
    latency: Seq<char>,
    gap: Seq<char>,
)
    ensures
        marker + (domain + a) + gap + (status + b) + gap + (source + c) + gap + (d + latency)
            == marker + domain + (a + gap) + status + (b + gap) + source + (c + gap + d) + latency,
{
    assert(marker + (domain + a) + gap + (status + b) + gap + (source + c) + gap + (d + latency)
        =~= marker + domain + (a + gap) + status + (b + gap) + source + (c + gap + d) + latency);
}

/// A column is as wide as its widest cell.
pub proof fn law_widths(cells: Seq<Seq<char>>, i: int)
    requires
        0 <= i < cells.len(),
    ensures
        cells[i].len() <= longest(cells),
        exists|k: int| 0 <= k < cells.len() && (#[trigger] cells[k]).len() == longest(cells),
        longest(Seq::empty()) == 0,
    decreases cells.len(),
{
    lemma_longest(cells, i);
    assert(cells[cells.len() - 1] == cells.last());
    if cells.len() > 1 && longest(cells) != cells.last().len() {
        law_widths(cells.drop_last(), 0);
        let k = choose|k: int|
            0 <= k < cells.drop_last().len() && (#[trigger] cells.drop_last()[k]).len() == longest(
                cells.drop_last(),
            );
        assert(cells[k] == cells.drop_last()[k]);
    } else if cells.len() == 1 {
        assert(longest(cells.drop_last()) == 0);
    }
}

/// With `available_only` the available results are shown, all of them and in their order.
/// What is counted are the results with the status.
pub proof fn law_shown_and_counted(results: Seq<ResultView>, status: DomainStatus)
    ensures
        shown(results, true) == results.filter(
            |r: ResultView| r.status == DomainStatus::Available,
        ),
        count(results, status) == results.filter(|r: ResultView| r.status == status).len(),
    decreases results.len(),
{
    reveal(Seq::filter);
    if results.len() > 0 {
        law_shown_and_counted(results.drop_last(), status);
    }
}

/// The lines of some results are those of each of them, in order.
pub proof fn law_blocks(
    a: Seq<ResultView>,
    b: Seq<ResultView>,
    w: WidthsView,
    opts: RenderOptions,
    colour: bool,
)
    ensures
        blocks(a + b, w, opts, colour) == blocks(a, w, opts, colour) + blocks(b, w, opts, colour),
    decreases b.len(),
{
    let first = blocks(a, w, opts, colour);
    if b.len() == 0 {
        assert(a + b =~= a);
        lemma_append(first, Seq::empty(), Seq::empty());
    } else {
        let less = b.drop_last();
        law_blocks(a, less, w, opts, colour);
        assert((a + b).drop_last() =~= a + less);
        assert((a + b).last() == b.last());
        lemma_append(first, blocks(less, w, opts, colour), block(b.last(), w, opts, colour));
    }
}

/// A result has its row and, where there is more to say, the lines with that; each ends in
/// the end of a line.
pub proof fn law_block(r: ResultView, w: WidthsView, opts: RenderOptions, colour: bool)
    ensures
        extra(r, opts).len() == 0 ==> block(r, w, opts, colour) == row(r, w, colour) + seq!['\n'],
        extra(r, opts).len() > 0 ==> block(r, w, opts, colour) == row(r, w, colour) + seq!['\n']
            + extra(r, opts) + seq!['\n'],
        blocks(seq![r], w, opts, colour) == block(r, w, opts, colour),
{
    reveal_strlit("\n");
    assert("\n"@ =~= seq!['\n']);
    lemma_append(row(r, w, colour), Seq::empty(), Seq::empty());
    lemma_append(row(r, w, colour), "\n"@, extra(r, opts));
    assert(seq![r].drop_last() =~= Seq::empty());
    let one = block(r, w, opts, colour);
    assert(blocks(Seq::<ResultView>::empty(), w, opts, colour) =~= Seq::empty());
    assert(Seq::<char>::empty() + one =~= one);
}

/// Every result that is shown has its row in the text, with the widths of all rows.
pub proof fn law_every_result_is_shown(
    results: Seq<ResultView>,
    opts: RenderOptions,
    colour: bool,
    i: int,
)
    requires
        0 <= i < shown(results, opts.available_only).len(),
    ensures
        ({
            let rows = shown(results, opts.available_only);
            contains(rendered(results, opts, colour), row(rows[i], widths(rows), colour))
        }),
        results.len() == 0 ==> rendered(results, opts, colour).len() == 0,
{
    let rows = shown(results, opts.available_only);
    let w = widths(rows);
    let r = rows[i];
    let a = rows.take(i);
    let b = rows.skip(i + 1);
    law_blocks(a + seq![r], b, w, opts, colour);
    law_blocks(a, seq![r], w, opts, colour);
    law_block(r, w, opts, colour);
    assert(a + seq![r] + b =~= rows);
    let before = blocks(a, w, opts, colour);
    let text = row(r, w, colour);
    let all = rendered(results, opts, colour);
    let one = block(r, w, opts, colour);
    lemma_append(before, one, blocks(b, w, opts, colour));
    assert(one.subrange(0, text.len() as int) =~= text);
    assert(all.subrange(before.len() as int, (before.len() + text.len()) as int) =~= text);
    assert(occurs_at(all, text, before.len() as int));
}

/// More about a domain is shown as far as it is known and asked for, each on a line of its
/// own with its label, and nothing else.
pub proof fn law_more_about_a_domain(r: ResultView, opts: RenderOptions)
    ensures
        r.details is None ==> extra(r, opts).len() == 0,
        !opts.details && !opts.show_where && !opts.show_registry ==> extra(r, opts).len() == 0,
        r.details matches Some(d) ==> {
            let lines = extra_lines(d, opts);
            &&& extra(r, opts) == join(lines, seq!['\n'])
            &&& opts.details && d.registrar is Some ==> lines.contains(
                "    registrar : "@ + d.registrar->0,
            )
            &&& opts.details && d.creation_date is Some ==> lines.contains(
                "    created   : "@ + d.creation_date->0,
            )
            &&& opts.details && d.expiry_date is Some ==> lines.contains(
                "    expires   : "@ + d.expiry_date->0,
            )
            &&& opts.details && d.nameservers.len() > 0 ==> lines.contains(
                "    nservers  : "@ + join(d.nameservers, seq![',', ' ']),
            )
            &&& opts.show_where && d.server is Some ==> lines.contains(
                "    via       : "@ + d.server->0,
            )
            &&& opts.show_registry && d.registry is Some ==> lines.contains(
                "    registry  : "@ + d.registry->0,
            )
            &&& opts.show_registry && d.registry is None && d.server is Some ==> lines.contains(
                "    registry  : "@ + d.server->0,
            )
            &&& lines.len() == (if opts.details {
                one_if(d.registrar is Some) + one_if(d.creation_date is Some) + one_if(
                    d.expiry_date is Some,
                ) + one_if(d.nameservers.len() > 0)
            } else {
                0
            }) + one_if(opts.show_where && d.server is Some) + one_if(
                opts.show_registry && (d.registry is Some || d.server is Some),
            )
        },
{
    reveal_strlit("\n");
    reveal_strlit(", ");
    assert("\n"@ =~= seq!['\n']);
    assert(", "@ =~= seq![',', ' ']);
    if let Some(d) = r.details {
        let lines = extra_lines(d, opts);
        let a = if opts.details { one_if(d.registrar is Some) } else { 0 };
        let b = if opts.details { a + one_if(d.creation_date is Some) } else { 0 };
        let c = if opts.details { b + one_if(d.expiry_date is Some) } else { 0 };
        let e = if opts.details { c + one_if(d.nameservers.len() > 0) } else { 0 };
        let f = e + one_if(opts.show_where && d.server is Some);
        if opts.details {
            if d.registrar is Some {
                assert(lines[0] == "    registrar : "@ + d.registrar->0);
            }
            if d.creation_date is Some {
                assert(lines[a] == "    created   : "@ + d.creation_date->0);
            }
            if d.expiry_date is Some {
                assert(lines[b] == "    expires   : "@ + d.expiry_date->0);
            }
            if d.nameservers.len() > 0 {
                assert(lines[c] == "    nservers  : "@ + join(d.nameservers, ", "@));
            }
        }
        if opts.show_where && d.server is Some {
            assert(lines[e] == "    via       : "@ + d.server->0);
        }
        if opts.show_registry && d.registry is Some {
            assert(lines[f] == "    registry  : "@ + d.registry->0);
        } else if opts.show_registry && d.server is Some {
            assert(lines[f] == "    registry  : "@ + d.server->0);
        }
        if !opts.details && !opts.show_where && !opts.show_registry {
            assert(lines.len() == 0);
        }
    }
}

/// One for what holds, zero for what does not.
pub open spec fn one_if(b: bool) -> int {
    if b {
        1
    } else {
        0
    }
}

/// The summary tells how many results are available, taken and unknown, how many there are
/// in all, and how long they took. Its label may be coloured.
pub proof fn law_summary(results: Seq<ResultView>, seconds: Seq<char>)
    ensures
        ({
            let available = results.filter(|r: ResultView| r.status == DomainStatus::Available);
            let taken = results.filter(|r: ResultView| r.status == DomainStatus::Taken);
            let unknown = results.filter(|r: ResultView| r.status == DomainStatus::Unknown);
            let rest = " "@ + decimal(available.len()) + " available  "@ + decimal(taken.len())
                + " taken  "@ + decimal(unknown.len()) + " unknown   ("@ + decimal(results.len())
                + " checked in "@ + seconds + "s)"@;
            &&& summary(results, seconds, false) == "summary:"@ + rest
            &&& summary(results, seconds, true) == painted("summary:"@, Colour::Cyan) + rest
        }),
{
    law_shown_and_counted(results, DomainStatus::Available);
    law_shown_and_counted(results, DomainStatus::Taken);
    law_shown_and_counted(results, DomainStatus::Unknown);
    let a = decimal(count(results, DomainStatus::Available));
    let t = decimal(count(results, DomainStatus::Taken));
    let u = decimal(count(results, DomainStatus::Unknown));
    let n = decimal(results.len());
    lemma_summary_parts("summary:"@, a, t, u, n, seconds);
    lemma_summary_parts(painted("summary:"@, Colour::Cyan), a, t, u, n, seconds);
}

/// The parts of a summary in different groups.
proof fn lemma_summary_parts(
    label: Seq<char>,
    a: Seq<char>,
    t: Seq<char>,
    u: Seq<char>,
    n: Seq<char>,
    seconds: Seq<char>,
)
    ensures
        label + " "@ + a + " available  "@ + t + " taken  "@ + u + " unknown   ("@ + n
            + " checked in "@ + seconds + "s)"@ == label + (" "@ + a + " available  "@ + t
            + " taken  "@ + u + " unknown   ("@ + n + " checked in "@ + seconds + "s)"@),
{
    assert(label + " "@ + a + " available  "@ + t + " taken  "@ + u + " unknown   ("@ + n
        + " checked in "@ + seconds + "s)"@ =~= label + (" "@ + a + " available  "@ + t
        + " taken  "@ + u + " unknown   ("@ + n + " checked in "@ + seconds + "s)"@));
}

/// Where colours are wanted, the marker and the status of a row have the colour of the
/// status, and nothing else has one.
pub proof fn law_coloured_rows(r: ResultView, w: WidthsView)
    ensures
        ({
            let colour = status_colour(r.status);
            let status = status_text(r.status);
            row(r, w, true) == painted(marker(r.status), colour) + pad_right(r.domain, w.domain)
                + seq![' '] + painted(status, colour) + run_of(' ', w.status - status.len()) + seq![
                ' ',
            ] + pad_right(r.source, w.source) + seq![' '] + pad_left(
                latency_text(r.latency_ms),
                w.latency,
                ' ',
            )
        }),
{
    reveal_strlit(" ");
    assert(" "@ =~= seq![' ']);
    let colour = status_colour(r.status);
    let status = status_text(r.status);
    let front = painted(marker(r.status), colour) + pad_right(r.domain, w.domain) + seq![' '];
    lemma_append(front, painted(status, colour), run_of(' ', w.status - status.len()));
}

} // verus!
