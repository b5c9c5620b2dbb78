//! DNS messages: building queries and reading the records of responses.

use vstd::prelude::*;
use vstd::utf8::{decode_utf8, encode_utf8, valid_utf8};

use crate::models::{text_of, DetailsView, DomainStatus, LookupDetails, LookupResult, ResultView};
use crate::text::{
    append_chars, chars_of, decimal, decimal_of, digit, join, join_texts, law_decimal,
    law_split_undoes_join, lemma_join_split, number_in, pieces, split, split_of, string_of,
    strip_end, strip_end_of, CharSet,
};

verus! {

/// The DNS server that is asked when none is given.
pub const DEFAULT_DNS: &'static str = "1.1.1.1:53";

/// The record type of IPv4 addresses.
pub const QTYPE_A: u16 = 1;

/// The record type of IPv6 addresses.
pub const QTYPE_AAAA: u16 = 28;

/// The record type of mail exchangers.
pub const QTYPE_MX: u16 = 15;

/// The record type of name servers.
pub const QTYPE_NS: u16 = 2;

/// Why a message could not be read.
#[derive(Debug, Clone, Copy, PartialEq, Eq, Structural)]
pub enum DnsError {
    /// The message is shorter than a header.
    ShortResponse,
    /// A name runs past the end of the message.
    TruncatedName,
    /// A compression pointer runs past the end of the message.
    TruncatedPointer,
    /// A label runs past the end of the message.
    TruncatedLabel,
    /// The compression pointers of a name lead in a circle.
    PointerLoop,
}

// ---------- queries ----------

/// The two bytes of `n`, the high one first.
pub open spec fn be16(n: u16) -> Seq<u8> {
    seq![(n / 256) as u8, (n % 256) as u8]
}

/// At most the first 63 bytes of a label.
pub open spec fn label_bytes(label: Seq<char>) -> Seq<u8> {
    let bytes = encode_utf8(label);
    if bytes.len() > 63 {
        bytes.take(63)
    } else {
        bytes
    }
}

/// A label as it stands in a message: its length, then its bytes.
pub open spec fn encoded_label(label: Seq<char>) -> Seq<u8> {
    seq![label_bytes(label).len() as u8] + label_bytes(label)
}

/// The encoded labels, one after the other.
pub open spec fn encoded_labels(labels: Seq<Seq<char>>) -> Seq<u8>
    decreases labels.len(),
{
    if labels.len() == 0 {
        Seq::empty()
    } else {
        encoded_labels(labels.drop_last()) + encoded_label(labels.last())
    }
}

/// The labels of a domain: its parts between dots, dots at its end left out.
pub open spec fn labels_of(domain: Seq<char>) -> Seq<Seq<char>> {
    split(strip_end(domain, CharSet::Only('.')), CharSet::Only('.'))
}

/// The header of a query with one question that asks for recursion.
pub open spec fn query_header(id: u16) -> Seq<u8> {
    be16(id) + seq![1u8, 0, 0, 1, 0, 0, 0, 0, 0, 0]
}

/// The query for records of type `qtype` of the domain.
pub open spec fn query_message(domain: Seq<char>, qtype: u16, id: u16) -> Seq<u8> {
    query_header(id) + encoded_labels(labels_of(domain)) + seq![0u8] + be16(qtype) + seq![0u8, 1]
}

/// Appends the two bytes of `n`.
fn append_be16(out: &mut Vec<u8>, n: u16)
    ensures
        final(out)@ == old(out)@ + be16(n),
{
    out.push((n / 256) as u8);
    out.push((n % 256) as u8);
    proof {
        assert(out@ =~= old(out)@ + be16(n));
    }
}

/// Appends the first `n` of the bytes.
fn append_bytes(out: &mut Vec<u8>, bytes: &[u8], n: usize)
    requires
        n <= bytes@.len(),
    ensures
        final(out)@ == old(out)@ + bytes@.take(n as int),
{
    let mut i: usize = 0;
    while i < n
        invariant
            i <= n <= bytes@.len(),
            out@ == old(out)@ + bytes@.take(i as int),
        decreases n - i,
    {
        out.push(bytes[i]);
        i += 1;
        proof {
            assert(bytes@.take(i as int) =~= bytes@.take(i - 1).push(bytes@[i - 1]));
        }
    }
}

/// The number that a process gives its queries.
pub fn query_id(process: u32) -> (r: u16)
    ensures
        r == (process + 0x42) % 0x1_0000,
{
    let low: u32 = process % 0x1_0000;
    ((low + 0x42) % 0x1_0000) as u16
}

/// Builds the query for records of type `qtype` of the domain. Labels are cut
/// to 63 bytes.
pub fn build_query(domain: &str, qtype: u16, id: u16) -> (r: Vec<u8>)
    ensures
        r@ == query_message(domain@, qtype, id),
{
    let mut buf: Vec<u8> = Vec::new();
    append_be16(&mut buf, id);
    append_be16(&mut buf, 0x0100);
    append_be16(&mut buf, 1);
    append_be16(&mut buf, 0);
    append_be16(&mut buf, 0);
    append_be16(&mut buf, 0);
    proof {
        assert(buf@ =~= query_header(id));
    }
    let chars = chars_of(domain);
    let labels = split_of(strip_end_of(&chars, CharSet::Only('.')), CharSet::Only('.'));
    let ghost views = labels_of(domain@);
    let mut i: usize = 0;
    proof {
        assert(views.take(0) =~= Seq::empty());
        assert(buf@ =~= query_header(id) + encoded_labels(views.take(0)));
    }
    while i < labels.len()
        invariant
            i <= labels@.len(),
            pieces(labels@) == views,
            buf@ == query_header(id) + encoded_labels(views.take(i as int)),
        decreases labels@.len() - i,
    {
        let label = string_of(labels[i].as_slice());
        let bytes = label.as_str().as_bytes();
        let n: usize = if bytes.len() > 63 {
            63
        } else {
            bytes.len()
        };
        let ghost was = buf@;
        buf.push(n as u8);
        append_bytes(&mut buf, bytes, n);
        proof {
            assert(views[i as int] == labels@[i as int]@);
            assert(bytes@.take(n as int) =~= label_bytes(views[i as int]));
            assert(views.take(i + 1).drop_last() =~= views.take(i as int));
            assert(buf@ =~= query_header(id) + (encoded_labels(views.take(i as int))
                + encoded_label(views[i as int])));
        }
        i += 1;
    }
    proof {
        assert(views.take(i as int) =~= views);
    }
    buf.push(0);
    append_be16(&mut buf, qtype);
    append_be16(&mut buf, 1);
    proof {
        assert(be16(1) =~= seq![0u8, 1]);
        assert(buf@ =~= query_message(domain@, qtype, id));
    }
    buf
}

// ---------- names ----------

/// The position behind the name at `pos`, which ends in a zero byte or in a
/// compression pointer of two bytes.
pub open spec fn name_end(resp: Seq<u8>, pos: int) -> Option<int>
    decreases
        (if pos < resp.len() {
            resp.len() - pos
        } else {
            0
        }),
{
    if pos < 0 || pos >= resp.len() {
        None
    } else if resp[pos] == 0 {
        Some(pos + 1)
    } else if resp[pos] >= 0xc0 {
        Some(pos + 2)
    } else {
        name_end(resp, pos + 1 + resp[pos])
    }
}

/// Where the name at `pos` ends: the place of its last part, and how many bytes that
/// part has.
fn name_stop(resp: &[u8], pos: usize) -> (r: Option<(usize, usize)>)
    ensures
        match name_end(resp@, pos as int) {
            Some(end) => {
                &&& r matches Some((at, size))
                &&& pos <= at < resp@.len()
                &&& 1 <= size <= 2
                &&& end == at + size
            },
            None => r is None,
        },
{
    let mut p: usize = pos;
    while p < resp.len()
        invariant
            pos <= p,
            name_end(resp@, p as int) == name_end(resp@, pos as int),
        decreases
            (if p < resp@.len() {
                resp@.len() - p
            } else {
                0
            }),
    {
        let len: u8 = resp[p];
        if len == 0 {
            return Some((p, 1));
        }
        if len >= 0xc0 {
            return Some((p, 2));
        }
        if (len as usize) >= resp.len() - p - 1 {
            proof {
                assert(name_end(resp@, p + 1 + len) is None);
            }
            return None;
        }
        p = p + 1 + (len as usize);
    }
    None
}

/// The position behind the name at `pos`. It may lie one byte behind the message; one
/// that is no number of a byte at all counts as outside.
pub fn skip_name(resp: &[u8], pos: usize) -> (r: Result<usize, DnsError>)
    ensures
        match name_end(resp@, pos as int) {
            Some(end) => if end <= usize::MAX {
                r == Ok::<usize, DnsError>(end as usize)
            } else {
                r == Err::<usize, DnsError>(DnsError::TruncatedName)
            },
            None => r == Err::<usize, DnsError>(DnsError::TruncatedName),
        },
{
    match name_stop(resp, pos) {
        Some((at, size)) => if size <= usize::MAX - at {
            Ok(at + size)
        } else {
            Err(DnsError::TruncatedName)
        },
        None => Err(DnsError::TruncatedName),
    }
}

/// One step in reading a name.
pub enum NameStep {
    /// The name ends here.
    Done,
    /// The name goes on at another position.
    Jump(int),
    /// A label stands between the two positions, and the name goes on behind it.
    Label(int, int),
    /// The name cannot be read.
    Fail(DnsError),
}

/// What stands at `p` within a name.
pub open spec fn name_step(resp: Seq<u8>, p: int) -> NameStep {
    if p < 0 || p >= resp.len() {
        NameStep::Fail(DnsError::TruncatedName)
    } else if resp[p] == 0 {
        NameStep::Done
    } else if resp[p] >= 0xc0 {
        if p + 1 >= resp.len() {
            NameStep::Fail(DnsError::TruncatedPointer)
        } else {
            NameStep::Jump((resp[p] - 0xc0) * 256 + resp[p + 1])
        }
    } else if p + 1 + resp[p] > resp.len() {
        NameStep::Fail(DnsError::TruncatedLabel)
    } else {
        NameStep::Label(p + 1, p + 1 + resp[p])
    }
}

/// The text of a label, or a question mark where it is not UTF-8.
pub open spec fn label_text(bytes: Seq<u8>) -> Seq<char> {
    if valid_utf8(bytes) {
        decode_utf8(bytes)
    } else {
        "?"@
    }
}

/// The labels of the name at `p`, read in fewer than `steps` steps; `None`
/// where that many are not enough.
pub open spec fn name_labels(resp: Seq<u8>, p: int, steps: nat) -> Option<
    Result<Seq<Seq<char>>, DnsError>,
>
    decreases steps,
{
    if steps == 0 {
        None
    } else {
        match name_step(resp, p) {
            NameStep::Done => Some(Ok(Seq::empty())),
            NameStep::Fail(e) => Some(Err(e)),
            NameStep::Jump(q) => name_labels(resp, q, (steps - 1) as nat),
            NameStep::Label(start, end) => match name_labels(resp, end, (steps - 1) as nat) {
                Some(Ok(rest)) => Some(Ok(seq![label_text(resp.subrange(start, end))] + rest)),
                other => other,
            },
        }
    }
}

/// The name at `p`: its labels with dots between them. A name that is not read
/// after as many steps as the message has bytes, and one, runs in a circle.
pub open spec fn name_at(resp: Seq<u8>, p: int) -> Result<Seq<char>, DnsError> {
    match name_labels(resp, p, resp.len() + 1) {
        Some(Ok(labels)) => Ok(join(labels, "."@)),
        Some(Err(e)) => Err(e),
        None => Err(DnsError::PointerLoop),
    }
}

/// `std::str::from_utf8`: the text that the bytes encode, or nothing where they
/// are not UTF-8.
#[verifier::external_body]
fn utf8_text(bytes: &[u8]) -> (r: Option<String>)
    ensures
        match r {
            Some(s) => valid_utf8(bytes@) && s@ == decode_utf8(bytes@),
            None => !valid_utf8(bytes@),
        },
{
    std::str::from_utf8(bytes).ok().map(|s| s.to_string())
}

/// What reading has collected so far, followed by what is still to come.
spec fn resumed(
    done: Seq<Seq<char>>,
    rest: Option<Result<Seq<Seq<char>>, DnsError>>,
) -> Option<Result<Seq<Seq<char>>, DnsError>> {
    match rest {
        Some(Ok(labels)) => Some(Ok(done + labels)),
        other => other,
    }
}

/// Decodes the name at `pos`, following compression pointers.
pub fn decode_name(resp: &[u8], pos: usize) -> (r: Result<String, DnsError>)
    ensures
        match name_at(resp@, pos as int) {
            Ok(name) => r is Ok && r->Ok_0@ == name,
            Err(e) => r is Err && r->Err_0 == e,
        },
{
    let mut labels: Vec<String> = Vec::new();
    let mut p: usize = pos;
    let mut left: usize = resp.len();
    proof {
        let rest = name_labels(resp@, p as int, left as nat + 1);
        assert(labels.deep_view() =~= Seq::<Seq<char>>::empty());
        if let Some(Ok(l)) = rest {
            assert(Seq::<Seq<char>>::empty() + l =~= l);
        }
    }
    loop
        invariant
            name_labels(resp@, pos as int, resp@.len() + 1) == resumed(
                labels.deep_view(),
                name_labels(resp@, p as int, left as nat + 1),
            ),
        decreases left,
    {
        if p >= resp.len() {
            return Err(DnsError::TruncatedName);
        }
        let len: u8 = resp[p];
        if len == 0 {
            proof {
                assert(labels.deep_view() + Seq::<Seq<char>>::empty() =~= labels.deep_view());
            }
            return Ok(join_texts(labels.as_slice(), "."));
        }
        if len >= 0xc0 {
            if p + 1 >= resp.len() {
                return Err(DnsError::TruncatedPointer);
            }
            p = ((len - 0xc0) as usize) * 256 + (resp[p + 1] as usize);
        } else {
            let start: usize = p + 1;
            if (len as usize) > resp.len() - start {
                return Err(DnsError::TruncatedLabel);
            }
            let end: usize = start + (len as usize);
            let bytes = &resp[start..end];
            let label = match utf8_text(bytes) {
                Some(s) => s,
                None => "?".to_owned(),
            };
            let ghost was = labels.deep_view();
            labels.push(label);
            proof {
                assert(labels.deep_view() =~= was.push(label_text(bytes@)));
                if let Some(Ok(rest)) = name_labels(resp@, end as int, left as nat) {
                    assert(was + (seq![label_text(bytes@)] + rest) =~= labels.deep_view() + rest);
                }
            }
            p = end;
        }
        if left == 0 {
            proof {
                assert(name_labels(resp@, p as int, 0) is None);
            }
            return Err(DnsError::PointerLoop);
        }
        left -= 1;
    }
}

// ---------- answers ----------

/// The number in the two bytes at `i`, the high byte first.
pub open spec fn be16_at(resp: Seq<u8>, i: int) -> int {
    resp[i] * 256 + resp[i + 1]
}

/// A resource record of a response: its type, and the range of the message in
/// which its data stand.
#[verifier::ext_equal]
pub struct RecordView {
    pub rtype: int,
    pub start: int,
    pub end: int,
}

/// The position behind the `n` questions that begin at `pos`, or behind the
/// message where it ends before.
pub open spec fn questions_end(resp: Seq<u8>, pos: int, n: nat) -> Result<int, DnsError>
    decreases n,
{
    if n == 0 || pos >= resp.len() {
        Ok(pos)
    } else {
        match name_end(resp, pos) {
            Some(end) => questions_end(resp, end + 4, (n - 1) as nat),
            None => Err(DnsError::TruncatedName),
        }
    }
}

/// The records that can be read from `pos` on, at most `n`. Reading ends at the
/// first one that does not lie within the message.
pub open spec fn records_from(resp: Seq<u8>, pos: int, n: nat) -> Seq<RecordView>
    decreases n,
{
    if n == 0 || pos >= resp.len() {
        Seq::empty()
    } else {
        match name_end(resp, pos) {
            None => Seq::empty(),
            Some(end) => {
                let start = end + 10;
                if start > resp.len() || start + be16_at(resp, end + 8) > resp.len() {
                    Seq::empty()
                } else {
                    let record = RecordView {
                        rtype: be16_at(resp, end),
                        start,
                        end: start + be16_at(resp, end + 8),
                    };
                    seq![record] + records_from(resp, record.end, (n - 1) as nat)
                }
            },
        }
    }
}

/// The records behind the questions that begin at `pos`, at most `n`.
pub open spec fn answers_behind(resp: Seq<u8>, pos: int, questions: nat, n: nat) -> Result<
    Seq<RecordView>,
    DnsError,
> {
    match questions_end(resp, pos, questions) {
        Ok(end) => Ok(records_from(resp, end, n)),
        Err(e) => Err(e),
    }
}

/// The answers of a response.
pub open spec fn answers_of(resp: Seq<u8>) -> Result<Seq<RecordView>, DnsError> {
    if resp.len() < 12 {
        Err(DnsError::ShortResponse)
    } else {
        answers_behind(resp, 12, be16_at(resp, 4) as nat, be16_at(resp, 6) as nat)
    }
}

/// Behind the message there are no records.
proof fn lemma_behind(resp: Seq<u8>, pos: int, questions: nat, n: nat)
    ensures
        pos >= resp.len() ==> answers_behind(resp, pos, questions, n) == Ok::<
            Seq<RecordView>,
            DnsError,
        >(Seq::empty()),
{
}

/// One answer of a response.
pub struct Answer<'a> {
    pub rtype: u16,
    /// The record's data.
    pub rdata: &'a [u8],
    /// Where the data begin in the response.
    pub start: usize,
}

impl<'a> Answer<'a> {
    /// Whether this is the record `v` of the response `resp`.
    pub open spec fn is_record(&self, resp: Seq<u8>, v: RecordView) -> bool {
        &&& self.rtype == v.rtype
        &&& self.start == v.start
        &&& 0 <= v.start <= v.end <= resp.len()
        &&& self.rdata@ == resp.subrange(v.start, v.end)
    }
}

/// The number in the two bytes at `i`.
fn read_be16(resp: &[u8], i: usize) -> (r: u16)
    requires
        i + 1 < resp@.len(),
    ensures
        r == be16_at(resp@, i as int),
{
    (resp[i] as u16) * 256 + (resp[i + 1] as u16)
}

/// Walks over the answers of a response.
pub struct AnswerIter<'a> {
    resp: &'a [u8],
    pos: usize,
    remaining: usize,
}

impl<'a> AnswerIter<'a> {
    /// The response that is read.
    pub closed spec fn response(&self) -> Seq<u8> {
        self.resp@
    }

    /// The answers that are still to come.
    pub closed spec fn rest(&self) -> Seq<RecordView> {
        records_from(self.resp@, self.pos as int, self.remaining as nat)
    }

    /// How many answers the walk can still yield.
    pub closed spec fn bound(&self) -> nat {
        self.remaining as nat
    }

    /// Starts behind the questions of the response.
    pub fn new(resp: &'a [u8]) -> (r: Result<AnswerIter<'a>, DnsError>)
        ensures
            match answers_of(resp@) {
                Ok(answers) => r is Ok && r->Ok_0.response() == resp@ && r->Ok_0.rest()
                    == answers,
                Err(e) => r is Err && r->Err_0 == e,
            },
    {
        if resp.len() < 12 {
            return Err(DnsError::ShortResponse);
        }
        let questions: u16 = read_be16(resp, 4);
        let remaining: usize = read_be16(resp, 6) as usize;
        let mut pos: usize = 12;
        let mut left: u16 = questions;
        while left > 0 && pos < resp.len()
            invariant
                12 <= resp@.len(),
                questions == be16_at(resp@, 4),
                remaining == be16_at(resp@, 6),
                answers_behind(resp@, 12, questions as nat, remaining as nat) == answers_behind(
                    resp@,
                    pos as int,
                    left as nat,
                    remaining as nat,
                ),
            decreases left,
        {
            match name_stop(resp, pos) {
                Some((at, size)) => {
                    proof {
                        lemma_behind(resp@, at + size + 4, (left - 1) as nat, remaining as nat);
                        lemma_behind(resp@, resp@.len() as int, (left - 1) as nat, remaining as nat);
                    }
                    if resp.len() - at < size + 4 {
                        pos = resp.len();
                    } else {
                        pos = at + size + 4;
                    }
                },
                None => {
                    return Err(DnsError::TruncatedName);
                },
            }
            left -= 1;
        }
        Ok(AnswerIter { resp, pos, remaining })
    }

    /// The next answer, or `None` behind the last one that can be read.
    pub fn next(&mut self) -> (r: Option<Answer<'a>>)
        ensures
            final(self).response() == old(self).response(),
            match r {
                Some(a) => {
                    &&& old(self).rest().len() > 0
                    &&& a.is_record(old(self).response(), old(self).rest()[0])
                    &&& final(self).rest() == old(self).rest().drop_first()
                    &&& final(self).bound() < old(self).bound()
                },
                None => old(self).rest().len() == 0 && final(self).rest().len() == 0,
            },
    {
        if self.remaining == 0 || self.pos >= self.resp.len() {
            return None;
        }
        let (at, size): (usize, usize) = match name_stop(self.resp, self.pos) {
            Some(stop) => stop,
            None => {
                return None;
            },
        };
        if self.resp.len() - at < size + 10 {
            return None;
        }
        let rtype: u16 = read_be16(self.resp, at + size);
        let rdlen: usize = read_be16(self.resp, at + size + 8) as usize;
        let start: usize = at + size + 10;
        if rdlen > self.resp.len() - start {
            return None;
        }
        let rdata = &self.resp[start..start + rdlen];
        let ghost before = self.rest();
        self.pos = start + rdlen;
        self.remaining = self.remaining - 1;
        proof {
            assert(before.drop_first() =~= self.rest());
        }
        Some(Answer { rtype, rdata, start })
    }
}

// ---------- addresses ----------

/// An IPv4 address: four decimal numbers with dots between them.
pub open spec fn ipv4_text(b: Seq<u8>) -> Seq<char> {
    decimal(b[0] as nat) + "."@ + decimal(b[1] as nat) + "."@ + decimal(b[2] as nat) + "."@
        + decimal(b[3] as nat)
}

/// The hexadecimal digit for `d`, in lower case.
pub open spec fn hex_digit(d: nat) -> char {
    if d < 10 {
        digit(d)
    } else {
        (('a' as u32) + d - 10) as char
    }
}

/// The hexadecimal digits of `n`, without leading zeros.
pub open spec fn hex(n: nat) -> Seq<char>
    decreases n,
{
    if n < 16 {
        seq![hex_digit(n)]
    } else {
        hex(n / 16).push(hex_digit(n % 16))
    }
}

/// The eight groups of 16 bits of an IPv6 address.
pub open spec fn groups_of(b: Seq<u8>) -> Seq<int> {
    Seq::new(8, |i: int| be16_at(b, 2 * i))
}

/// Groups in hexadecimal, with colons between them.
pub open spec fn groups_text(groups: Seq<int>) -> Seq<char> {
    join(groups.map_values(|g: int| hex(g as nat)), ":"@)
}

/// Whether the `n` groups from `start` on are zero.
pub open spec fn zero_run(groups: Seq<int>, start: int, n: int) -> bool {
    &&& 0 <= start
    &&& 0 <= n
    &&& start + n <= groups.len()
    &&& forall|i: int| start <= i < start + n ==> groups[i] == 0
}

/// Whether the `n` groups from `start` on are the first of the longest runs of
/// zeros.
pub open spec fn first_longest_run(groups: Seq<int>, start: int, n: int) -> bool {
    &&& zero_run(groups, start, n)
    &&& forall|s: int, k: int| #[trigger]
        zero_run(groups, s, k) ==> k < n || (k == n && start <= s)
}

/// An IPv6 address in its canonical form. An address that maps an IPv4 address
/// shows it in decimal; in any other, two colons stand for the first of the
/// longest runs of zero groups, if that run has at least two.
pub open spec fn ipv6_text(b: Seq<u8>) -> Seq<char> {
    let groups = groups_of(b);
    if zero_run(groups, 0, 5) && groups[5] == 0xffff {
        "::ffff:"@ + ipv4_text(b.subrange(12, 16))
    } else if exists|s: int, n: int| n >= 2 && #[trigger] first_longest_run(groups, s, n) {
        let (s, n) = choose|s: int, n: int| n >= 2 && #[trigger] first_longest_run(groups, s, n);
        groups_text(groups.take(s)) + "::"@ + groups_text(groups.skip(s + n))
    } else {
        groups_text(groups)
    }
}

/// The text of an IPv4 address.
pub fn ipv4_string(b: &[u8]) -> (r: String)
    requires
        b@.len() == 4,
    ensures
        r@ == ipv4_text(b@),
{
    let mut out = decimal_of(b[0] as u64);
    let dot = chars_of(".");
    append_chars(&mut out, &dot);
    append_chars(&mut out, &decimal_of(b[1] as u64));
    append_chars(&mut out, &dot);
    append_chars(&mut out, &decimal_of(b[2] as u64));
    append_chars(&mut out, &dot);
    append_chars(&mut out, &decimal_of(b[3] as u64));
    string_of(&out)
}

/// The hexadecimal digits of `n`.
fn hex_of(n: u16) -> (r: Vec<char>)
    ensures
        r@ == hex(n as nat),
    decreases n,
{
    let low: u8 = (n % 16) as u8;
    let last: char = if low < 10 {
        (48 + low) as char
    } else {
        (87 + low) as char
    };
    if n < 16 {
        let mut out: Vec<char> = Vec::new();
        out.push(last);
        out
    } else {
        let mut out = hex_of(n / 16);
        out.push(last);
        out
    }
}

/// The values of the groups.
spec fn group_values(groups: Seq<u16>) -> Seq<int> {
    groups.map_values(|g: u16| g as int)
}

/// Groups in hexadecimal, with colons between them.
fn groups_string(groups: &[u16]) -> (r: String)
    ensures
        r@ == groups_text(group_values(groups@)),
{
    let mut parts: Vec<String> = Vec::new();
    let mut i: usize = 0;
    while i < groups.len()
        invariant
            i <= groups@.len(),
            parts@.len() == i,
            forall|j: int| 0 <= j < i ==> #[trigger] parts@[j]@ == hex(groups@[j] as nat),
        decreases groups@.len() - i,
    {
        parts.push(string_of(&hex_of(groups[i])));
        i += 1;
    }
    proof {
        assert(parts.deep_view() =~= group_values(groups@).map_values(|g: int| hex(g as nat)));
    }
    join_texts(parts.as_slice(), ":")
}

/// The start and the length of the first of the longest runs of zeros.
fn longest_zero_run(groups: &[u16]) -> (r: (usize, usize))
    ensures
        first_longest_run(group_values(groups@), r.0 as int, r.1 as int),
{
    let ghost values = group_values(groups@);
    let mut best: usize = 0;
    let mut best_len: usize = 0;
    let mut start: usize = 0;
    let mut i: usize = 0;
    while i < groups.len()
        invariant
            start <= i <= groups@.len(),
            values == group_values(groups@),
            zero_run(values, start as int, i - start),
            start > 0 ==> values[start - 1] != 0,
            best + best_len <= i,
            zero_run(values, best as int, best_len as int),
            forall|s: int, k: int| #[trigger]
                zero_run(values, s, k) && s + k <= i ==> k < best_len || (k == best_len && best
                    <= s),
        decreases groups@.len() - i,
    {
        let ghost last = i;
        if groups[i] == 0 {
            i += 1;
            if i - start > best_len {
                best = start;
                best_len = i - start;
            }
            assert forall|s: int, k: int| #[trigger]
                zero_run(values, s, k) && s + k <= i implies k < best_len || (k == best_len && best
                <= s) by {
                if s + k == i && k > 0 {
                    if s < start {
                        assert(values[start - 1] == 0);
                    }
                }
            }
        } else {
            i += 1;
            start = i;
            assert forall|s: int, k: int| #[trigger]
                zero_run(values, s, k) && s + k <= i implies k < best_len || (k == best_len && best
                <= s) by {
                if s + k == i && k > 0 {
                    assert(values[last as int] == groups@[last as int]);
                    assert(values[i - 1] == 0);
                }
            }
        }
    }
    (best, best_len)
}

/// The text of an IPv6 address.
pub fn ipv6_string(b: &[u8]) -> (r: String)
    requires
        b@.len() == 16,
    ensures
        r@ == ipv6_text(b@),
{
    let mut groups: Vec<u16> = Vec::new();
    let mut i: usize = 0;
    while i < 8
        invariant
            i <= 8,
            b@.len() == 16,
            groups@.len() == i,
            forall|j: int| 0 <= j < i ==> groups@[j] == be16_at(b@, 2 * j),
        decreases 8 - i,
    {
        groups.push(read_be16(b, 2 * i));
        i += 1;
    }
    let ghost values = groups_of(b@);
    proof {
        assert(group_values(groups@) =~= values);
    }
    let mapped = groups[0] == 0 && groups[1] == 0 && groups[2] == 0 && groups[3] == 0 && groups[4]
        == 0 && groups[5] == 0xffff;
    if mapped {
        assert(zero_run(values, 0, 5));
        let mut s = "::ffff:".to_owned();
        s.append(ipv4_string(&b[12..16]).as_str());
        return s;
    }
    proof {
        if zero_run(values, 0, 5) && values[5] == 0xffff {
            assert(values[0] == 0 && values[1] == 0 && values[2] == 0 && values[3] == 0
                && values[4] == 0);
        }
    }
    let (start, len) = longest_zero_run(groups.as_slice());
    if len >= 2 {
        let mut s = groups_string(&groups.as_slice()[0..start]);
        s.append("::");
        s.append(groups_string(&groups.as_slice()[start + len..8]).as_str());
        proof {
            assert(group_values(groups@.subrange(0, start as int)) =~= values.take(start as int));
            assert(group_values(groups@.subrange(start + len, 8)) =~= values.skip(start + len));
            let (s1, n1) = choose|s: int, n: int|
                n >= 2 && #[trigger] first_longest_run(values, s, n);
            assert(first_longest_run(values, start as int, len as int));
            assert(zero_run(values, s1, n1));
            assert(zero_run(values, start as int, len as int));
            assert(s1 == start && n1 == len);
        }
        s
    } else {
        proof {
            assert forall|s: int, n: int| n >= 2 implies !#[trigger] first_longest_run(
                values,
                s,
                n,
            ) by {
                if first_longest_run(values, s, n) {
                    assert(zero_run(values, s, n));
                }
            }
        }
        groups_string(groups.as_slice())
    }
}

// ---------- records ----------

/// The records of a domain, by type.
#[derive(Debug, Clone)]
pub struct DnsRecords {
    pub a: Vec<String>,
    pub aaaa: Vec<String>,
    pub mx: Vec<String>,
    pub ns: Vec<String>,
}

/// A type of record that is shown.
#[derive(Debug, Clone, Copy, PartialEq, Eq, Structural)]
pub enum RecordKind {
    A,
    Aaaa,
    Mx,
    Ns,
}

impl RecordKind {
    /// The number of the type in a message.
    pub open spec fn number(self) -> u16 {
        match self {
            RecordKind::A => QTYPE_A,
            RecordKind::Aaaa => QTYPE_AAAA,
            RecordKind::Mx => QTYPE_MX,
            RecordKind::Ns => QTYPE_NS,
        }
    }

    /// The number of the type in a message.
    pub fn qtype(self) -> (r: u16)
        ensures
            r == self.number(),
    {
        match self {
            RecordKind::A => QTYPE_A,
            RecordKind::Aaaa => QTYPE_AAAA,
            RecordKind::Mx => QTYPE_MX,
            RecordKind::Ns => QTYPE_NS,
        }
    }
}

/// The text of a record, if it is of the given kind and can be read: an
/// address, or the name that the record points at.
pub open spec fn record_text(resp: Seq<u8>, v: RecordView, kind: RecordKind) -> Option<Seq<char>> {
    if v.rtype != kind.number() {
        None
    } else {
        let len = v.end - v.start;
        match kind {
            RecordKind::A => if len == 4 {
                Some(ipv4_text(resp.subrange(v.start, v.end)))
            } else {
                None
            },
            RecordKind::Aaaa => if len == 16 {
                Some(ipv6_text(resp.subrange(v.start, v.end)))
            } else {
                None
            },
            RecordKind::Mx => if len >= 3 {
                name_at(resp, v.start + 2).ok()
            } else {
                None
            },
            RecordKind::Ns => name_at(resp, v.start).ok(),
        }
    }
}

/// The texts of the records of the given kind, in order.
pub open spec fn record_texts(
    resp: Seq<u8>,
    records: Seq<RecordView>,
    kind: RecordKind,
) -> Seq<Seq<char>>
    decreases records.len(),
{
    if records.len() == 0 {
        Seq::empty()
    } else {
        let rest = record_texts(resp, records.drop_first(), kind);
        match record_text(resp, records[0], kind) {
            Some(text) => seq![text] + rest,
            None => rest,
        }
    }
}

/// The text of an answer, if it is of the given kind and can be read.
fn answer_text(resp: &[u8], a: &Answer, kind: RecordKind, Ghost(v): Ghost<RecordView>) -> (r: Option<
    String,
>)
    requires
        a.is_record(resp@, v),
    ensures
        text_of(r) == record_text(resp@, v, kind),
{
    if a.rtype != kind.qtype() {
        return None;
    }
    match kind {
        RecordKind::A => if a.rdata.len() == 4 {
            Some(ipv4_string(a.rdata))
        } else {
            None
        },
        RecordKind::Aaaa => if a.rdata.len() == 16 {
            Some(ipv6_string(a.rdata))
        } else {
            None
        },
        RecordKind::Mx => if a.rdata.len() >= 3 {
            proof {
                assert(a.rdata@.len() == v.end - v.start);
                assert(v.end <= resp.len());
            }
            match decode_name(resp, a.start + 2) {
                Ok(name) => Some(name),
                Err(_) => None,
            }
        } else {
            None
        },
        RecordKind::Ns => match decode_name(resp, a.start) {
            Ok(name) => Some(name),
            Err(_) => None,
        },
    }
}

/// The texts of the records of the given kind in a response.
pub fn records_in(resp: &[u8], kind: RecordKind) -> (r: Result<Vec<String>, DnsError>)
    ensures
        match answers_of(resp@) {
            Ok(answers) => r is Ok && r->Ok_0.deep_view() == record_texts(resp@, answers, kind),
            Err(e) => r is Err && r->Err_0 == e,
        },
{
    let mut iter = match AnswerIter::new(resp) {
        Ok(iter) => iter,
        Err(e) => {
            return Err(e);
        },
    };
    let mut out: Vec<String> = Vec::new();
    let ghost answers = iter.rest();
    proof {
        assert(out.deep_view() + record_texts(resp@, iter.rest(), kind) =~= record_texts(
            resp@,
            answers,
            kind,
        ));
    }
    loop
        invariant
            iter.response() == resp@,
            out.deep_view() + record_texts(resp@, iter.rest(), kind) == record_texts(
                resp@,
                answers,
                kind,
            ),
            answers_of(resp@) == Ok::<Seq<RecordView>, DnsError>(answers),
        decreases iter.bound(),
    {
        let ghost v = iter.rest()[0];
        let ghost rest = iter.rest();
        let ghost was = out.deep_view();
        match iter.next() {
            Some(a) => {
                if let Some(text) = answer_text(resp, &a, kind, Ghost(v)) {
                    out.push(text);
                    proof {
                        assert(out.deep_view() =~= was.push(text@));
                        assert(was + (seq![text@] + record_texts(resp@, rest.drop_first(), kind))
                            =~= out.deep_view() + record_texts(resp@, iter.rest(), kind));
                    }
                }
            },
            None => {
                proof {
                    assert(out.deep_view() + Seq::<Seq<char>>::empty() =~= out.deep_view());
                }
                return Ok(out);
            },
        }
    }
}

/// The texts of the records of the given kind in what a server sent, if it
/// sent a response that can be read; nothing otherwise.
pub open spec fn reply_texts(reply: Option<Seq<u8>>, kind: RecordKind) -> Seq<Seq<char>> {
    match reply {
        Some(resp) => match answers_of(resp) {
            Ok(answers) => record_texts(resp, answers, kind),
            Err(_) => Seq::empty(),
        },
        None => Seq::empty(),
    }
}

/// The bytes of an optional reply.
pub open spec fn bytes_of(reply: Option<Vec<u8>>) -> Option<Seq<u8>> {
    match reply {
        Some(b) => Some(b@),
        None => None,
    }
}

/// The texts of the records of the given kind in an optional reply.
fn records_or_none(reply: &Option<Vec<u8>>, kind: RecordKind) -> (r: Vec<String>)
    ensures
        r.deep_view() == reply_texts(bytes_of(*reply), kind),
{
    let none: Vec<String> = Vec::new();
    proof {
        assert(none.deep_view() =~= Seq::<Seq<char>>::empty());
    }
    match reply {
        Some(resp) => match records_in(resp.as_slice(), kind) {
            Ok(texts) => texts,
            Err(_) => none,
        },
        None => none,
    }
}

/// Puts together the records from the replies to the four queries. A query
/// that failed leaves its list empty; the others are kept.
pub fn resolve_replies(
    a: &Option<Vec<u8>>,
    aaaa: &Option<Vec<u8>>,
    mx: &Option<Vec<u8>>,
    ns: &Option<Vec<u8>>,
) -> (r: DnsRecords)
    ensures
        r.a.deep_view() == reply_texts(bytes_of(*a), RecordKind::A),
        r.aaaa.deep_view() == reply_texts(bytes_of(*aaaa), RecordKind::Aaaa),
        r.mx.deep_view() == reply_texts(bytes_of(*mx), RecordKind::Mx),
        r.ns.deep_view() == reply_texts(bytes_of(*ns), RecordKind::Ns),
{
    DnsRecords {
        a: records_or_none(a, RecordKind::A),
        aaaa: records_or_none(aaaa, RecordKind::Aaaa),
        mx: records_or_none(mx, RecordKind::Mx),
        ns: records_or_none(ns, RecordKind::Ns),
    }
}

/// The texts with a tag in front of each.
pub open spec fn tagged(tag: Seq<char>, texts: Seq<Seq<char>>) -> Seq<Seq<char>> {
    texts.map_values(|t: Seq<char>| tag + t)
}

/// A result with the records of its domain, if it is taken. They stand behind the
/// nameservers, each with its type in front.
pub open spec fn with_records(r: ResultView, records: DnsRecords) -> ResultView {
    if r.status != DomainStatus::Taken {
        r
    } else {
        let d = match r.details {
            Some(d) => d,
            None => DetailsView::blank(),
        };
        ResultView {
            details: Some(
                DetailsView {
                    nameservers: d.nameservers + tagged("A:"@, records.a.deep_view()) + tagged(
                        "AAAA:"@,
                        records.aaaa.deep_view(),
                    ) + tagged("MX:"@, records.mx.deep_view()) + tagged(
                        "NS:"@,
                        records.ns.deep_view(),
                    ),
                    ..d
                },
            ),
            ..r
        }
    }
}

/// Appends the texts with a tag in front of each.
fn append_tagged(out: &mut Vec<String>, tag: &str, texts: &Vec<String>)
    ensures
        final(out).deep_view() == old(out).deep_view() + tagged(tag@, texts.deep_view()),
{
    let ghost all = tagged(tag@, texts.deep_view());
    let mut i: usize = 0;
    proof {
        assert(out.deep_view() =~= old(out).deep_view() + all.take(0));
    }
    while i < texts.len()
        invariant
            i <= texts@.len(),
            all == tagged(tag@, texts.deep_view()),
            out.deep_view() == old(out).deep_view() + all.take(i as int),
        decreases texts@.len() - i,
    {
        let ghost was = out.deep_view();
        let mut s = tag.to_owned();
        s.append(texts[i].as_str());
        out.push(s);
        proof {
            assert(out.deep_view() =~= was.push(all[i as int]));
            assert(all.take(i + 1) =~= all.take(i as int).push(all[i as int]));
        }
        i += 1;
    }
    proof {
        assert(all.take(i as int) =~= all);
    }
}

/// Adds the records of its domain to the details of a result, if the domain is
/// taken.
pub fn add_records(result: LookupResult, records: &DnsRecords) -> (r: LookupResult)
    ensures
        r@ == with_records(result@, *records),
{
    if result.status != DomainStatus::Taken {
        return result;
    }
    let mut result = result;
    let mut details = match result.details {
        Some(details) => details,
        None => LookupDetails::default(),
    };
    let mut list = details.nameservers;
    append_tagged(&mut list, "A:", &records.a);
    append_tagged(&mut list, "AAAA:", &records.aaaa);
    append_tagged(&mut list, "MX:", &records.mx);
    append_tagged(&mut list, "NS:", &records.ns);
    details.nameservers = list;
    result.details = Some(details);
    result
}

// ---------- laws ----------

/// More steps do not change what was read.
proof fn lemma_more_steps(resp: Seq<u8>, p: int, few: nat, many: nat)
    requires
        few <= many,
        name_labels(resp, p, few) is Some,
    ensures
        name_labels(resp, p, many) == name_labels(resp, p, few),
    decreases few,
{
    match name_step(resp, p) {
        NameStep::Jump(q) => lemma_more_steps(resp, q, (few - 1) as nat, (many - 1) as nat),
        NameStep::Label(_, q) => lemma_more_steps(resp, q, (few - 1) as nat, (many - 1) as nat),
        _ => {},
    }
}

/// Where reading a name goes on after `n` steps.
spec fn position_after(resp: Seq<u8>, p: int, n: nat) -> int
    decreases n,
{
    if n == 0 {
        p
    } else {
        let before = position_after(resp, p, (n - 1) as nat);
        match name_step(resp, before) {
            NameStep::Jump(q) => q,
            NameStep::Label(_, q) => q,
            _ => before,
        }
    }
}

/// The first of `n` steps, and the `n - 1` steps after it.
proof fn lemma_first_step(resp: Seq<u8>, p: int, n: nat)
    requires
        n > 0,
        name_labels(resp, p, 1) is None,
    ensures
        position_after(resp, p, n) == position_after(
            resp,
            position_after(resp, p, 1),
            (n - 1) as nat,
        ),
    decreases n,
{
    reveal_with_fuel(position_after, 2);
    if n > 1 {
        lemma_first_step(resp, p, (n - 1) as nat);
    }
}

/// A name that needs more than `n` steps needs as many less after `n` of them.
proof fn lemma_steps_left(resp: Seq<u8>, p: int, n: nat, total: nat)
    requires
        n <= total,
        name_labels(resp, p, n) is None,
    ensures
        (name_labels(resp, p, total) is None) == (name_labels(
            resp,
            position_after(resp, p, n),
            (total - n) as nat,
        ) is None),
    decreases n,
{
    if n > 0 {
        reveal_with_fuel(name_labels, 2);
        reveal_with_fuel(position_after, 2);
        let q = position_after(resp, p, 1);
        lemma_first_step(resp, p, n);
        lemma_steps_left(resp, q, (n - 1) as nat, (total - 1) as nat);
    }
}

/// A name that comes back to where it began never ends.
proof fn lemma_circle(resp: Seq<u8>, p: int, n: nat, total: nat)
    requires
        n > 0,
        name_labels(resp, p, n) is None,
        position_after(resp, p, n) == p,
    ensures
        name_labels(resp, p, total) is None,
    decreases total,
{
    if total <= n {
        if name_labels(resp, p, total) is Some {
            lemma_more_steps(resp, p, total, n);
        }
    } else {
        lemma_steps_left(resp, p, n, total);
        lemma_circle(resp, p, n, (total - n) as nat);
    }
}

/// Steps add up.
proof fn lemma_positions_add(resp: Seq<u8>, p: int, i: nat, n: nat)
    ensures
        position_after(resp, p, i + n) == position_after(resp, position_after(resp, p, i), n),
    decreases n,
{
    if n > 0 {
        lemma_positions_add(resp, p, i, (n - 1) as nat);
        assert((i + n - 1) as nat == (i + (n - 1)) as nat);
    }
}

/// Among more numbers below `bound` than there are such numbers, two are equal.
proof fn lemma_pigeonhole(s: Seq<int>, bound: nat)
    requires
        s.len() > bound,
        forall|i: int| 0 <= i < s.len() ==> 0 <= #[trigger] s[i] < bound,
    ensures
        exists|i: int, j: int| 0 <= i < j < s.len() && s[i] == s[j],
{
    if forall|i: int, j: int| 0 <= i < j < s.len() ==> s[i] != s[j] {
        assert(s.no_duplicates());
        s.unique_seq_to_set();
        let range = vstd::set_lib::set_int_range(0, bound as int);
        vstd::set_lib::lemma_int_range(0, bound as int);
        assert(s.to_set().subset_of(range));
        vstd::set_lib::lemma_len_subset(s.to_set(), range);
        assert(false);
    }
}

/// The bound on the steps in reading a name loses nothing: a name that can be
/// read in any number of steps is read, with the same outcome, in at most as
/// many steps as the message has bytes, and one. Only names that run in a
/// circle are given up.
pub proof fn law_only_circles_are_given_up(resp: Seq<u8>, p: int, steps: nat)
    requires
        name_labels(resp, p, steps) is Some,
    ensures
        name_labels(resp, p, resp.len() + 1) == name_labels(resp, p, steps),
{
    let bound = resp.len() + 1;
    if name_labels(resp, p, bound) is Some {
        if steps <= bound {
            lemma_more_steps(resp, p, steps, bound);
        } else {
            lemma_more_steps(resp, p, bound, steps);
        }
    } else {
        if steps <= bound {
            lemma_more_steps(resp, p, steps, bound);
        }
        let positions = Seq::new(bound, |i: int| position_after(resp, p, i as nat));
        assert forall|i: int| 0 <= i < positions.len() implies 0 <= #[trigger] positions[i]
            < resp.len() by {
            if name_labels(resp, p, i as nat) is Some {
                lemma_more_steps(resp, p, i as nat, bound);
            }
            lemma_steps_left(resp, p, i as nat, bound);
        }
        lemma_pigeonhole(positions, resp.len());
        let (i, j) = choose|i: int, j: int|
            0 <= i < j < positions.len() && positions[i] == positions[j];
        let q = positions[i];
        let n = (j - i) as nat;
        lemma_positions_add(resp, p, i as nat, n);
        assert((i as nat) + n == j as nat);
        if name_labels(resp, p, i as nat) is Some {
            lemma_more_steps(resp, p, i as nat, bound);
        }
        lemma_steps_left(resp, p, i as nat, bound);
        if name_labels(resp, q, n) is Some {
            lemma_more_steps(resp, q, n, (bound - i) as nat);
        }
        lemma_circle(resp, q, n, (steps - i) as nat);
        lemma_steps_left(resp, p, i as nat, steps);
        assert(false);
    }
}

/// The encoded labels begin with those of the first `k` labels, and the next
/// label follows them.
proof fn lemma_label_place(labels: Seq<Seq<char>>, k: int)
    requires
        0 <= k < labels.len(),
    ensures
        ({
            let before = encoded_labels(labels.take(k));
            let upto = encoded_labels(labels.take(k + 1));
            let all = encoded_labels(labels);
            &&& upto == before + encoded_label(labels[k])
            &&& upto.len() <= all.len()
            &&& all.take(upto.len() as int) == upto
        }),
    decreases labels.len(),
{
    assert(labels.take(k + 1).drop_last() =~= labels.take(k));
    let all = encoded_labels(labels);
    if k + 1 == labels.len() {
        assert(labels.take(k + 1) =~= labels);
        assert(all.take(all.len() as int) =~= all);
    } else {
        let init = labels.drop_last();
        lemma_label_place(init, k);
        assert(init.take(k + 1) =~= labels.take(k + 1));
        let upto = encoded_labels(labels.take(k + 1));
        assert(all.take(upto.len() as int) =~= encoded_labels(init).take(upto.len() as int));
    }
}

/// Reading the encoded labels from label `k` on.
proof fn lemma_read_labels(msg: Seq<u8>, at: int, labels: Seq<Seq<char>>, k: int)
    requires
        0 <= k <= labels.len(),
        0 <= at,
        at + encoded_labels(labels).len() < msg.len(),
        msg.subrange(at, at + encoded_labels(labels).len()) == encoded_labels(labels),
        msg[at + encoded_labels(labels).len()] == 0,
        forall|i: int|
            0 <= i < labels.len() ==> 1 <= encode_utf8(#[trigger] labels[i]).len() <= 63,
    ensures
        name_labels(
            msg,
            at + encoded_labels(labels.take(k)).len(),
            (labels.len() - k + 1) as nat,
        ) == Some(Ok::<Seq<Seq<char>>, DnsError>(labels.skip(k))),
        name_end(msg, at + encoded_labels(labels.take(k)).len()) == Some(
            at + encoded_labels(labels).len() + 1,
        ),
    decreases labels.len() - k,
{
    let all = encoded_labels(labels);
    let p = at + encoded_labels(labels.take(k)).len();
    if k == labels.len() {
        assert(labels.take(k) =~= labels);
        assert(labels.skip(k) =~= Seq::empty());
    } else {
        lemma_label_place(labels, k);
        lemma_read_labels(msg, at, labels, k + 1);
        let bytes = encode_utf8(labels[k]);
        let enc = encoded_label(labels[k]);
        let off = encoded_labels(labels.take(k)).len() as int;
        assert forall|i: int| 0 <= i < enc.len() implies msg[p + i] == #[trigger] enc[i] by {
            assert(all.take(off + enc.len())[off + i] == enc[i]);
            assert(msg.subrange(at, at + all.len())[off + i] == all[off + i]);
        }
        assert(msg[p] == enc[0]);
        assert(bytes.len() == msg[p]);
        assert(msg.subrange(p + 1, p + 1 + bytes.len()) =~= bytes) by {
            assert forall|i: int| 0 <= i < bytes.len() implies msg[p + 1 + i] == bytes[i] by {
                assert(enc[i + 1] == bytes[i]);
            }
        }
        vstd::utf8::encode_utf8_valid_utf8(labels[k]);
        vstd::utf8::encode_utf8_decode_utf8(labels[k]);
        assert(labels.skip(k) =~= seq![labels[k]] + labels.skip(k + 1));
    }
}

/// A query names the domain that was asked for: the name that stands in it is
/// the domain, without dots at its end, and the question ends four bytes behind
/// that name. This holds of every domain whose labels have between 1 and 63
/// bytes.
pub proof fn law_query_names_the_domain(domain: Seq<char>, qtype: u16, id: u16)
    requires
        forall|i: int|
            0 <= i < labels_of(domain).len() ==> 1 <= encode_utf8(
                #[trigger] labels_of(domain)[i],
            ).len() <= 63,
    ensures
        name_at(query_message(domain, qtype, id), 12) == Ok::<Seq<char>, DnsError>(
            strip_end(domain, CharSet::Only('.')),
        ),
        name_end(query_message(domain, qtype, id), 12) == Some(
            query_message(domain, qtype, id).len() - 4,
        ),
{
    let msg = query_message(domain, qtype, id);
    let labels = labels_of(domain);
    let all = encoded_labels(labels);
    assert(msg.subrange(12, 12int + all.len()) =~= all);
    assert(msg[12int + all.len()] == 0);
    lemma_read_labels(msg, 12, labels, 0);
    assert(labels.take(0) =~= Seq::empty());
    assert(labels.skip(0) =~= labels);
    lemma_label_count(labels);
    lemma_more_steps(msg, 12, (labels.len() + 1) as nat, msg.len() + 1);
    reveal_strlit(".");
    assert("."@ =~= seq!['.']);
    lemma_join_split(strip_end(domain, CharSet::Only('.')), '.');
}

/// Every label takes at least one byte.
proof fn lemma_label_count(labels: Seq<Seq<char>>)
    ensures
        encoded_labels(labels).len() >= labels.len(),
    decreases labels.len(),
{
    if labels.len() > 0 {
        lemma_label_count(labels.drop_last());
    }
}

/// The number of a record type, and the records of what kind it stands for.
pub proof fn law_record_types()
    ensures
        RecordKind::A.number() == 1,
        RecordKind::Ns.number() == 2,
        RecordKind::Mx.number() == 15,
        RecordKind::Aaaa.number() == 28,
{
}

/// The records of two lists, one after the other.
proof fn lemma_record_texts_concat(
    resp: Seq<u8>,
    a: Seq<RecordView>,
    b: Seq<RecordView>,
    kind: RecordKind,
)
    ensures
        record_texts(resp, a + b, kind) == record_texts(resp, a, kind) + record_texts(resp, b, kind),
    decreases a.len(),
{
    let all = record_texts(resp, a + b, kind);
    let second = record_texts(resp, b, kind);
    if a.len() == 0 {
        assert(a + b =~= b);
        assert(record_texts(resp, a, kind) + second =~= second);
    } else {
        lemma_record_texts_concat(resp, a.drop_first(), b, kind);
        assert((a + b).drop_first() =~= a.drop_first() + b);
        assert((a + b)[0] == a[0]);
        assert(all =~= record_texts(resp, a, kind) + second);
    }
}

/// Every record of a kind that can be read is listed: the texts are those of all such
/// records, in their order, and no others.
pub proof fn law_every_record_is_listed(
    resp: Seq<u8>,
    records: Seq<RecordView>,
    kind: RecordKind,
)
    ensures
        record_texts(resp, records, kind) == records.filter(
            |v: RecordView| record_text(resp, v, kind) is Some,
        ).map_values(|v: RecordView| record_text(resp, v, kind)->0),
        forall|i: int|
            0 <= i < records.len() ==> (record_text(resp, #[trigger] records[i], kind) matches Some(
                text,
            ) ==> record_texts(resp, records, kind).contains(text)),
    decreases records.len(),
{
    reveal(Seq::filter);
    let can = |v: RecordView| record_text(resp, v, kind) is Some;
    let text = |v: RecordView| record_text(resp, v, kind)->0;
    let all = record_texts(resp, records, kind);
    if records.len() > 0 {
        let less = records.drop_last();
        let last = records.last();
        law_every_record_is_listed(resp, less, kind);
        lemma_record_texts_concat(resp, less, seq![last], kind);
        assert(less + seq![last] =~= records);
        assert(seq![last].drop_first() =~= Seq::empty());
        assert(record_texts(resp, Seq::<RecordView>::empty(), kind) =~= Seq::empty());
        let before = record_texts(resp, less, kind);
        if can(last) {
            assert(record_texts(resp, seq![last], kind) =~= seq![text(last)]);
            assert(less.filter(can).push(last).map_values(text) =~= less.filter(can).map_values(
                text,
            ).push(text(last)));
            assert(all =~= before.push(text(last)));
            assert(all[before.len() as int] == text(last));
        } else {
            assert(record_texts(resp, seq![last], kind) =~= Seq::empty());
            assert(all =~= before);
        }
        assert forall|i: int| 0 <= i < records.len() implies (record_text(
            resp,
            #[trigger] records[i],
            kind,
        ) matches Some(t) ==> all.contains(t)) by {
            if let Some(t) = record_text(resp, records[i], kind) {
                if i < less.len() {
                    assert(less[i] == records[i]);
                    assert(before.contains(t));
                    let j = choose|j: int| 0 <= j < before.len() && before[j] == t;
                    assert(all[j] == t);
                }
            }
        }
    } else {
        assert(all =~= records.filter(can).map_values(text));
    }
}

/// Records of another type do not count, nor do addresses of another length.
pub proof fn law_other_records_do_not_count(resp: Seq<u8>, v: RecordView, kind: RecordKind)
    ensures
        v.rtype != kind.number() ==> record_text(resp, v, kind) is None,
        v.end - v.start != 4 ==> record_text(resp, v, RecordKind::A) is None,
        v.end - v.start != 16 ==> record_text(resp, v, RecordKind::Aaaa) is None,
        v.end - v.start < 3 ==> record_text(resp, v, RecordKind::Mx) is None,
{
}

/// An address record of four bytes shows the four numbers, with dots between them.
pub proof fn law_a_records(resp: Seq<u8>, v: RecordView)
    requires
        v.rtype == 1,
        0 <= v.start,
        v.end == v.start + 4,
        v.end <= resp.len(),
    ensures
        record_text(resp, v, RecordKind::A) matches Some(text) && split(text, CharSet::Only('.'))
            == seq![
            decimal(resp[v.start] as nat),
            decimal(resp[v.start + 1] as nat),
            decimal(resp[v.start + 2] as nat),
            decimal(resp[v.start + 3] as nat),
        ],
{
    lemma_ipv4(resp.subrange(v.start, v.end));
}

/// The parts of an IPv4 address.
proof fn lemma_ipv4(b: Seq<u8>)
    requires
        b.len() == 4,
    ensures
        split(ipv4_text(b), CharSet::Only('.')) == seq![
            decimal(b[0] as nat),
            decimal(b[1] as nat),
            decimal(b[2] as nat),
            decimal(b[3] as nat),
        ],
{
    let parts = seq![
        decimal(b[0] as nat),
        decimal(b[1] as nat),
        decimal(b[2] as nat),
        decimal(b[3] as nat),
    ];
    reveal_strlit(".");
    assert("."@ =~= seq!['.']);
    assert forall|k: int, i: int|
        0 <= k < parts.len() && 0 <= i < parts[k].len() implies #[trigger] parts[k][i] != '.' by {
        law_decimal(b[k] as nat);
        assert(parts[k] == decimal(b[k] as nat));
    }
    law_split_undoes_join(parts, '.');
    reveal_with_fuel(join, 5);
    assert(parts.drop_last() =~= seq![parts[0], parts[1], parts[2]]);
    assert(parts.drop_last().drop_last() =~= seq![parts[0], parts[1]]);
    assert(parts.drop_last().drop_last().drop_last() =~= seq![parts[0]]);
    assert(join(parts, seq!['.']) =~= ipv4_text(b));
}

/// The hexadecimal digits of a number stand for that number, in lower case, and no zero
/// leads them.
pub proof fn law_hex(n: nat)
    ensures
        number_in(
            hex(n),
            16,
            |c: char|
                if c <= '9' {
                    (c as u32 - '0' as u32) as nat
                } else {
                    (c as u32 - 'a' as u32 + 10) as nat
                },
        ) == n,
        forall|i: int|
            0 <= i < hex(n).len() ==> '0' <= #[trigger] hex(n)[i] <= '9' || 'a' <= hex(n)[i] <= 'f',
        hex(n).len() >= 1,
        hex(n)[0] == '0' ==> n == 0 && hex(n).len() == 1,
    decreases n,
{
    let value = |c: char|
        if c <= '9' {
            (c as u32 - '0' as u32) as nat
        } else {
            (c as u32 - 'a' as u32 + 10) as nat
        };
    let last = hex_digit(n % 16);
    assert(value(last) == n % 16);
    assert('0' <= last <= '9' || 'a' <= last <= 'f');
    if n < 16 {
        assert(hex(n).drop_last() =~= Seq::empty());
        assert(number_in(hex(n).drop_last(), 16, value) == 0);
    } else {
        law_hex(n / 16);
        let before = hex(n / 16);
        assert(hex(n).drop_last() =~= before);
        assert(hex(n)[0] == before[0]);
        assert forall|i: int| 0 <= i < hex(n).len() implies '0' <= #[trigger] hex(n)[i] <= '9'
            || 'a' <= hex(n)[i] <= 'f' by {
            if i < before.len() {
                assert(hex(n)[i] == before[i]);
            }
        }
    }
}

/// Groups are shown in hexadecimal, with colons between them.
pub proof fn law_groups_text(groups: Seq<int>)
    requires
        forall|i: int| 0 <= i < groups.len() ==> 0 <= #[trigger] groups[i],
    ensures
        groups.len() > 0 ==> split(groups_text(groups), CharSet::Only(':')).len() == groups.len(),
        forall|i: int|
            0 <= i < groups.len() ==> #[trigger] split(groups_text(groups), CharSet::Only(':'))[i]
                == hex(groups[i] as nat),
        groups.len() == 0 ==> groups_text(groups).len() == 0,
{
    reveal_strlit(":");
    assert(":"@ =~= seq![':']);
    let parts = groups.map_values(|g: int| hex(g as nat));
    if groups.len() > 0 {
        assert forall|k: int, i: int|
            0 <= k < parts.len() && 0 <= i < parts[k].len() implies #[trigger] parts[k][i] != ':' by {
            law_hex(groups[k] as nat);
            assert(parts[k] == hex(groups[k] as nat));
        }
        law_split_undoes_join(parts, ':');
    }
}

/// An address record of sixteen bytes shows the address: an IPv4 address that it maps in
/// decimal, else its eight groups, where two colons stand for the first of the longest
/// runs of two or more zero groups.
pub proof fn law_aaaa_records(resp: Seq<u8>, v: RecordView, groups: Seq<int>, s: int, n: int)
    requires
        v.rtype == 28,
        0 <= v.start,
        v.end == v.start + 16,
        v.end <= resp.len(),
        groups.len() == 8,
        forall|i: int|
            0 <= i < 8 ==> #[trigger] groups[i] == resp[v.start + 2 * i] * 256 + resp[v.start + 2 * i
                + 1],
        0 <= s,
        0 <= n,
        s + n <= 8,
        forall|i: int| s <= i < s + n ==> groups[i] == 0,
        s > 0 ==> forall|k: int|
            #![trigger zero_run(groups, k, n)]
            0 <= k < s ==> !zero_run(groups, k, n),
        forall|k: int| !#[trigger] zero_run(groups, k, n + 1),
    ensures
        record_text(resp, v, RecordKind::Aaaa) matches Some(text) && text == if groups[0] == 0
            && groups[1] == 0 && groups[2] == 0 && groups[3] == 0 && groups[4] == 0 && groups[5]
            == 0xffff {
            "::ffff:"@ + ipv4_text(resp.subrange(v.start + 12, v.end))
        } else if n >= 2 {
            groups_text(groups.take(s)) + "::"@ + groups_text(groups.skip(s + n))
        } else {
            groups_text(groups)
        },
{
    let b = resp.subrange(v.start, v.end);
    assert(groups_of(b) =~= groups);
    assert(b.subrange(12, 16) =~= resp.subrange(v.start + 12, v.end));
    if zero_run(groups, 0, 5) {
        assert(groups[0] == 0 && groups[1] == 0 && groups[2] == 0 && groups[3] == 0 && groups[4]
            == 0);
    }
    if groups[0] == 0 && groups[1] == 0 && groups[2] == 0 && groups[3] == 0 && groups[4] == 0 {
        assert(zero_run(groups, 0, 5));
    }
    assert(zero_run(groups, s, n));
    assert forall|a: int, k: int| #[trigger] zero_run(groups, a, k) implies k < n || (k == n && s
        <= a) by {
        if k > n {
            assert(zero_run(groups, a, n + 1));
        }
        if k == n && a < s {
            assert(zero_run(groups, a, n));
        }
    }
    assert(first_longest_run(groups, s, n));
    if exists|a: int, k: int| k >= 2 && #[trigger] first_longest_run(groups, a, k) {
        let (a, k) = choose|a: int, k: int| k >= 2 && #[trigger] first_longest_run(groups, a, k);
        assert(zero_run(groups, a, k));
        assert(a == s && k == n);
    }
}

/// A label that was encoded is read as it was, and bytes that encode no text are shown as
/// a question mark.
pub proof fn law_labels_are_read_back(label: Seq<char>, bytes: Seq<u8>)
    ensures
        label_text(encode_utf8(label)) == label,
        !valid_utf8(bytes) ==> label_text(bytes) == seq!['?'],
{
    vstd::utf8::encode_utf8_valid_utf8(label);
    vstd::utf8::encode_utf8_decode_utf8(label);
    reveal_strlit("?");
    assert("?"@ =~= seq!['?']);
}

/// A label stands in a message behind its length, cut to 63 bytes.
pub proof fn law_encoded_label(label: Seq<char>)
    ensures
        encode_utf8(label).len() <= 63 ==> encoded_label(label) == seq![
            encode_utf8(label).len() as u8,
        ] + encode_utf8(label),
        encode_utf8(label).len() > 63 ==> encoded_label(label) == seq![63u8] + encode_utf8(
            label,
        ).take(63),
        encoded_labels(seq![label]) == encoded_label(label),
{
    assert(seq![label].drop_last() =~= Seq::empty());
    assert(encoded_labels(Seq::<Seq<char>>::empty()) =~= Seq::empty());
    assert(encoded_labels(seq![label]) =~= encoded_label(label));
}

/// The labels of two lists stand one after the other.
pub proof fn law_encoded_labels(a: Seq<Seq<char>>, b: Seq<Seq<char>>)
    ensures
        encoded_labels(a + b) == encoded_labels(a) + encoded_labels(b),
    decreases b.len(),
{
    if b.len() == 0 {
        assert(a + b =~= a);
        assert(encoded_labels(a) + encoded_labels(b) =~= encoded_labels(a));
    } else {
        law_encoded_labels(a, b.drop_last());
        assert((a + b).drop_last() =~= a + b.drop_last());
        assert((a + b).last() == b.last());
        assert(encoded_labels(a + b) =~= encoded_labels(a) + encoded_labels(b));
    }
}

/// A name that stands in a message, label by label and with a zero behind, is read as its
/// labels with dots between them.
proof fn lemma_name_in_message(resp: Seq<u8>, at: int, labels: Seq<Seq<char>>)
    requires
        0 <= at,
        at + encoded_labels(labels).len() < resp.len(),
        resp.subrange(at, at + encoded_labels(labels).len()) == encoded_labels(labels),
        resp[at + encoded_labels(labels).len()] == 0,
        forall|i: int|
            0 <= i < labels.len() ==> 1 <= encode_utf8(#[trigger] labels[i]).len() <= 63,
    ensures
        name_at(resp, at) == Ok::<Seq<char>, DnsError>(join(labels, seq!['.'])),
        name_end(resp, at) == Some(at + encoded_labels(labels).len() + 1),
{
    lemma_read_labels(resp, at, labels, 0);
    assert(labels.take(0) =~= Seq::empty());
    assert(labels.skip(0) =~= labels);
    assert(encoded_labels(labels.take(0)).len() == 0);
    lemma_label_count(labels);
    lemma_more_steps(resp, at, (labels.len() + 1) as nat, resp.len() + 1);
    reveal_strlit(".");
    assert("."@ =~= seq!['.']);
}

/// A record for a name server shows the name in it, and one for a mail exchanger the name
/// behind the two bytes of its preference.
pub proof fn law_name_records(
    resp: Seq<u8>,
    v: RecordView,
    labels: Seq<Seq<char>>,
    mx: bool,
)
    requires
        v.rtype == if mx {
            15int
        } else {
            2
        },
        0 <= v.start,
        v.end <= resp.len(),
        mx ==> v.end - v.start >= 3,
        ({
            let at = if mx {
                v.start + 2
            } else {
                v.start
            };
            let name = encoded_labels(labels);
            &&& at + name.len() < resp.len()
            &&& resp.subrange(at, at + name.len()) == name
            &&& resp[at + name.len()] == 0
        }),
        forall|i: int|
            0 <= i < labels.len() ==> 1 <= encode_utf8(#[trigger] labels[i]).len() <= 63,
    ensures
        record_text(
            resp,
            v,
            if mx {
                RecordKind::Mx
            } else {
                RecordKind::Ns
            },
        ) == Some(join(labels, seq!['.'])),
{
    let at = if mx {
        v.start + 2
    } else {
        v.start
    };
    lemma_name_in_message(resp, at, labels);
}

/// A compression pointer stands for the name that it points at, and takes two bytes.
pub proof fn law_pointers(resp: Seq<u8>, p: int)
    requires
        0 <= p,
        p + 1 < resp.len(),
        resp[p] >= 192,
    ensures
        name_end(resp, p) == Some(p + 2),
        ({
            let target = (resp[p] - 192) * 256 + resp[p + 1];
            name_at(resp, target) is Ok ==> name_at(resp, p) == name_at(resp, target)
        }),
{
    let target = (resp[p] - 192) * 256 + resp[p + 1];
    let n = resp.len() + 1;
    if name_at(resp, target) is Ok {
        assert(name_labels(resp, p, (n + 1) as nat) == name_labels(resp, target, n));
        law_only_circles_are_given_up(resp, p, (n + 1) as nat);
    }
}

/// A label stands before the rest of its name.
pub proof fn law_labels_come_first(resp: Seq<u8>, p: int, rest: Seq<Seq<char>>, steps: nat)
    requires
        0 <= p < resp.len(),
        1 <= resp[p] < 192,
        p + 1 + resp[p] <= resp.len(),
        name_labels(resp, p + 1 + resp[p], steps) == Some(Ok::<Seq<Seq<char>>, DnsError>(rest)),
    ensures
        name_at(resp, p) == Ok::<Seq<char>, DnsError>(
            join(
                seq![label_text(resp.subrange(p + 1, p + 1 + resp[p]))] + rest,
                seq!['.'],
            ),
        ),
{
    reveal_strlit(".");
    assert("."@ =~= seq!['.']);
    assert(name_labels(resp, p, (steps + 1) as nat) is Some);
    law_only_circles_are_given_up(resp, p, (steps + 1) as nat);
}

/// A name that does not lie within the message cannot be read.
pub proof fn law_names_lie_within_the_message(resp: Seq<u8>, p: int)
    ensures
        p >= resp.len() ==> name_at(resp, p) == Err::<Seq<char>, DnsError>(
            DnsError::TruncatedName,
        ) && name_end(resp, p) is None,
        0 <= p < resp.len() && resp[p] == 0 ==> name_at(resp, p) == Ok::<Seq<char>, DnsError>(
            Seq::empty(),
        ) && name_end(resp, p) == Some(p + 1),
        0 <= p < resp.len() && 1 <= resp[p] < 192 ==> name_end(resp, p) == name_end(
            resp,
            p + 1 + resp[p],
        ),
        0 <= p < resp.len() && 1 <= resp[p] < 192 && p + 1 + resp[p] > resp.len() ==> name_at(
            resp,
            p,
        ) == Err::<Seq<char>, DnsError>(DnsError::TruncatedLabel),
        0 <= p == resp.len() - 1 && resp[p] >= 192 ==> name_at(resp, p) == Err::<
            Seq<char>,
            DnsError,
        >(DnsError::TruncatedPointer),
{
    reveal_with_fuel(name_labels, 2);
}

/// A record has a name, a type, six bytes that do not count here, a length and as many
/// bytes of data; the next record follows it.
pub proof fn law_records_follow_each_other(resp: Seq<u8>, pos: int, end: int, n: nat)
    requires
        0 <= pos < resp.len(),
        name_end(resp, pos) == Some(end),
        end + 10 <= resp.len(),
        end + 10 + resp[end + 8] * 256 + resp[end + 9] <= resp.len(),
    ensures
        ({
            let after = end + 10 + resp[end + 8] * 256 + resp[end + 9];
            records_from(resp, pos, (n + 1) as nat) == seq![
                RecordView {
                    rtype: resp[end] * 256 + resp[end + 1],
                    start: end + 10,
                    end: after,
                },
            ] + records_from(resp, after, n)
        }),
{
}

/// Reading ends behind the last record, at the end of the message and at a record that
/// does not lie within it.
pub proof fn law_records_end(resp: Seq<u8>, pos: int, n: nat)
    requires
        0 <= pos,
    ensures
        n == 0 || pos >= resp.len() || name_end(resp, pos) is None ==> records_from(
            resp,
            pos,
            n,
        ).len() == 0,
        name_end(resp, pos) matches Some(end) && (end + 10 > resp.len() || end + 10 + resp[end + 8]
            * 256 + resp[end + 9] > resp.len()) ==> records_from(resp, pos, n).len() == 0,
{
}

/// The answers of a response stand behind its header of twelve bytes and its questions,
/// each of which has four bytes behind its name. Both are counted in the header.
pub proof fn law_answers(resp: Seq<u8>, end: int)
    ensures
        resp.len() < 12 ==> answers_of(resp) == Err::<Seq<RecordView>, DnsError>(
            DnsError::ShortResponse,
        ),
        resp.len() >= 12 && resp[4] == 0 && resp[5] == 0 ==> answers_of(resp) == Ok::<
            Seq<RecordView>,
            DnsError,
        >(records_from(resp, 12, (resp[6] * 256 + resp[7]) as nat)),
        resp.len() > 12 && resp[4] == 0 && resp[5] == 1 && name_end(resp, 12) == Some(end)
            ==> answers_of(resp) == Ok::<Seq<RecordView>, DnsError>(
            records_from(resp, end + 4, (resp[6] * 256 + resp[7]) as nat),
        ),
        resp.len() > 12 && resp[4] * 256 + resp[5] > 0 && name_end(resp, 12) is None
            ==> answers_of(resp) == Err::<Seq<RecordView>, DnsError>(DnsError::TruncatedName),
{
    reveal_with_fuel(questions_end, 3);
}

/// Questions follow each other.
pub proof fn law_questions(resp: Seq<u8>, pos: int, end: int, n: nat)
    requires
        0 <= pos < resp.len(),
        name_end(resp, pos) == Some(end),
    ensures
        questions_end(resp, pos, (n + 1) as nat) == questions_end(resp, end + 4, n),
        questions_end(resp, pos, 0) == Ok::<int, DnsError>(pos),
{
}

/// A query has a header with its number, the wish for recursion and one question, which
/// ends in the type of the records and the class of the internet.
pub proof fn law_query_bytes(domain: Seq<char>, qtype: u16, id: u16)
    ensures
        ({
            let q = query_message(domain, qtype, id);
            let n = q.len();
            &&& n >= 17
            &&& q[0] * 256 + q[1] == id
            &&& q[2] == 1 && q[3] == 0
            &&& q[4] == 0 && q[5] == 1
            &&& q[6] == 0 && q[7] == 0 && q[8] == 0 && q[9] == 0 && q[10] == 0 && q[11] == 0
            &&& q[n - 5] == 0
            &&& q[n - 4] * 256 + q[n - 3] == qtype
            &&& q[n - 2] == 0 && q[n - 1] == 1
        }),
{
}

/// A reply that did not come, or cannot be read, leaves its own list empty.
pub proof fn law_replies_that_cannot_be_read(resp: Seq<u8>, kind: RecordKind)
    ensures
        reply_texts(None, kind).len() == 0,
        answers_of(resp) is Err ==> reply_texts(Some(resp), kind).len() == 0,
        answers_of(resp) matches Ok(answers) ==> reply_texts(Some(resp), kind) == record_texts(
            resp,
            answers,
            kind,
        ),
{
}

/// Records are added to taken domains only. They stand behind the nameservers that are
/// there already, each with its type in front, and nothing else changes.
pub proof fn law_records_are_added(r: ResultView, records: DnsRecords)
    ensures
        r.status != DomainStatus::Taken ==> with_records(r, records) == r,
        r.status == DomainStatus::Taken ==> {
            let out = with_records(r, records);
            let old = match r.details {
                Some(d) => d,
                None => DetailsView::blank(),
            };
            let n = old.nameservers.len() as int;
            let a = records.a.deep_view();
            let aaaa = records.aaaa.deep_view();
            let mx = records.mx.deep_view();
            let ns = records.ns.deep_view();
            &&& out.domain == r.domain && out.status == r.status && out.source == r.source
                && out.latency_ms == r.latency_ms
            &&& out.details matches Some(d)
            &&& d.registrar == old.registrar && d.creation_date == old.creation_date
                && d.expiry_date == old.expiry_date && d.registry == old.registry && d.server
                == old.server
            &&& d.nameservers.len() == n + a.len() + aaaa.len() + mx.len() + ns.len()
            &&& d.nameservers.take(n) == old.nameservers
            &&& forall|i: int|
                0 <= i < a.len() ==> d.nameservers[n + i] == seq!['A', ':'] + #[trigger] a[i]
            &&& forall|i: int|
                0 <= i < aaaa.len() ==> d.nameservers[n + a.len() + i] == seq![
                    'A',
                    'A',
                    'A',
                    'A',
                    ':',
                ] + #[trigger] aaaa[i]
            &&& forall|i: int|
                0 <= i < mx.len() ==> d.nameservers[n + a.len() + aaaa.len() + i] == seq![
                    'M',
                    'X',
                    ':',
                ] + #[trigger] mx[i]
            &&& forall|i: int|
                0 <= i < ns.len() ==> d.nameservers[n + a.len() + aaaa.len() + mx.len() + i]
                    == seq!['N', 'S', ':'] + #[trigger] ns[i]
        },
{
    reveal_strlit("A:");
    reveal_strlit("AAAA:");
    reveal_strlit("MX:");
    reveal_strlit("NS:");
    assert("A:"@ =~= seq!['A', ':']);
    assert("AAAA:"@ =~= seq!['A', 'A', 'A', 'A', ':']);
    assert("MX:"@ =~= seq!['M', 'X', ':']);
    assert("NS:"@ =~= seq!['N', 'S', ':']);
    if r.status == DomainStatus::Taken {
        let old = match r.details {
            Some(d) => d,
            None => DetailsView::blank(),
        };
        let list = with_records(r, records).details->0.nameservers;
        assert(list.take(old.nameservers.len() as int) =~= old.nameservers);
    }
}

/// A response is read behind all its questions.
pub proof fn law_answers_stand_behind_the_questions(resp: Seq<u8>)
    requires
        resp.len() >= 12,
    ensures
        ({
            let behind = questions_end(resp, 12, (resp[4] * 256 + resp[5]) as nat);
            &&& behind matches Ok(end) ==> answers_of(resp) == Ok::<Seq<RecordView>, DnsError>(
                records_from(resp, end, (resp[6] * 256 + resp[7]) as nat),
            )
            &&& behind matches Err(e) ==> answers_of(resp) == Err::<Seq<RecordView>, DnsError>(e)
        }),
{
}

/// A name that no number of steps reads is given up, and a name whose rest cannot be read
/// cannot be read either.
pub proof fn law_names_that_cannot_be_read(resp: Seq<u8>, p: int, steps: nat, e: DnsError)
    ensures
        (forall|n: nat| #[trigger] name_labels(resp, p, n) is None) ==> name_at(resp, p) == Err::<
            Seq<char>,
            DnsError,
        >(DnsError::PointerLoop),
        0 <= p < resp.len() && 1 <= resp[p] < 192 && p + 1 + resp[p] <= resp.len() && name_labels(
            resp,
            p + 1 + resp[p],
            steps,
        ) == Some(Err::<Seq<Seq<char>>, DnsError>(e)) ==> name_at(resp, p) == Err::<
            Seq<char>,
            DnsError,
        >(e),
{
    if 0 <= p < resp.len() && 1 <= resp[p] < 192 && p + 1 + resp[p] <= resp.len() && name_labels(
        resp,
        p + 1 + resp[p],
        steps,
    ) == Some(Err::<Seq<Seq<char>>, DnsError>(e)) {
        assert(name_labels(resp, p, (steps + 1) as nat) is Some);
        law_only_circles_are_given_up(resp, p, (steps + 1) as nat);
    }
}

/// Between its header and its end a query has the labels of the domain: the parts between
/// its dots, dots at its end left out.
pub proof fn law_query_labels(domain: Seq<char>, qtype: u16, id: u16)
    ensures
        ({
            let q = query_message(domain, qtype, id);
            let labels = split(strip_end(domain, CharSet::Only('.')), CharSet::Only('.'));
            q.subrange(12, q.len() - 5) == encoded_labels(labels)
        }),
{
    let q = query_message(domain, qtype, id);
    let labels = split(strip_end(domain, CharSet::Only('.')), CharSet::Only('.'));
    assert(q.subrange(12, q.len() - 5) =~= encoded_labels(labels));
}

/// A record for a name server shows the name that stands at its data, and one for a mail
/// exchanger the name two bytes behind; neither is shown where that name cannot be read.
pub proof fn law_names_in_records(resp: Seq<u8>, v: RecordView, text: Seq<char>)
    ensures
        v.rtype == 2 ==> (record_text(resp, v, RecordKind::Ns) == Some(text) <==> name_at(
            resp,
            v.start,
        ) == Ok::<Seq<char>, DnsError>(text)),
        v.rtype == 15 && v.end - v.start >= 3 ==> (record_text(resp, v, RecordKind::Mx) == Some(text)
            <==> name_at(resp, v.start + 2) == Ok::<Seq<char>, DnsError>(text)),
{
}

} // verus!
