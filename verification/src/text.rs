//! Text as sequences of characters.
//!
//! Every contract in this library describes text by its `Seq<char>` view. The
//! specification functions here say what trimming, splitting, searching and
//! formatting mean on such sequences; the executable functions compute them.

use vstd::prelude::*;

verus! {

/// `String::push`: appends one character to the end of the string.
pub assume_specification[ String::push ](s: &mut String, c: char)
    ensures
        final(s)@ == old(s)@.push(c),
;

// ---------- characters ----------

/// The characters with Unicode's `White_Space` property.
pub open spec fn is_space(c: char) -> bool {
    let n = c as u32;
    ||| 0x09 <= n <= 0x0d
    ||| n == 0x20
    ||| n == 0x85
    ||| n == 0xa0
    ||| n == 0x1680
    ||| 0x2000 <= n <= 0x200a
    ||| n == 0x2028
    ||| n == 0x2029
    ||| n == 0x202f
    ||| n == 0x205f
    ||| n == 0x3000
}

/// Whether `c` is a Unicode white-space character.
pub fn is_whitespace(c: char) -> (r: bool)
    ensures
        r == is_space(c),
{
    let n: u32 = c as u32;
    (0x09 <= n && n <= 0x0d) || n == 0x20 || n == 0x85 || n == 0xa0 || n == 0x1680 || (0x2000 <= n
        && n <= 0x200a) || n == 0x2028 || n == 0x2029 || n == 0x202f || n == 0x205f || n == 0x3000
}

/// The lower-case form of an ASCII capital letter; any other character itself.
pub open spec fn lower_char(c: char) -> char {
    if 'A' <= c && c <= 'Z' {
        ((c as u32) + 32) as char
    } else {
        c
    }
}

/// `s` with its ASCII letters in lower case.
pub open spec fn lower(s: Seq<char>) -> Seq<char> {
    s.map_values(|c: char| lower_char(c))
}

/// A set of characters at which text is trimmed or split.
#[derive(Clone, Copy)]
pub enum CharSet {
    /// Unicode white space.
    Space,
    /// Unicode white space and the comma.
    SpaceOrComma,
    /// One character.
    Only(char),
}

impl CharSet {
    /// Whether the set holds `c`.
    pub open spec fn holds(self, c: char) -> bool {
        match self {
            CharSet::Space => is_space(c),
            CharSet::SpaceOrComma => c == ',' || is_space(c),
            CharSet::Only(d) => c == d,
        }
    }

    /// Whether the set holds `c`.
    pub fn has(self, c: char) -> (r: bool)
        ensures
            r == self.holds(c),
    {
        match self {
            CharSet::Space => is_whitespace(c),
            CharSet::SpaceOrComma => c == ',' || is_whitespace(c),
            CharSet::Only(d) => c == d,
        }
    }
}

// ---------- trimming ----------

/// `s` without its leading characters from `set`.
pub open spec fn strip_start(s: Seq<char>, set: CharSet) -> Seq<char>
    decreases s.len(),
{
    if s.len() > 0 && set.holds(s[0]) {
        strip_start(s.drop_first(), set)
    } else {
        s
    }
}

/// `s` without its trailing characters from `set`.
pub open spec fn strip_end(s: Seq<char>, set: CharSet) -> Seq<char>
    decreases s.len(),
{
    if s.len() > 0 && set.holds(s.last()) {
        strip_end(s.drop_last(), set)
    } else {
        s
    }
}

/// `s` without white space at either end.
pub open spec fn trim(s: Seq<char>) -> Seq<char> {
    strip_end(strip_start(s, CharSet::Space), CharSet::Space)
}

/// Drops the leading characters that are in `set`.
pub fn strip_start_of(s: &[char], set: CharSet) -> (r: &[char])
    ensures
        r@ == strip_start(s@, set),
{
    let mut i: usize = 0;
    proof {
        assert(s@.skip(0) =~= s@);
    }
    while i < s.len() && set.has(s[i])
        invariant
            i <= s@.len(),
            strip_start(s@, set) == strip_start(s@.skip(i as int), set),
        decreases s@.len() - i,
    {
        proof {
            assert(s@.skip(i as int).drop_first() =~= s@.skip(i + 1));
        }
        i += 1;
    }
    proof {
        assert(s@.skip(i as int) =~= s@.subrange(i as int, s@.len() as int));
    }
    &s[i..s.len()]
}

/// Drops the trailing characters that are in `set`.
pub fn strip_end_of(s: &[char], set: CharSet) -> (r: &[char])
    ensures
        r@ == strip_end(s@, set),
{
    let mut n: usize = s.len();
    proof {
        assert(s@.take(n as int) =~= s@);
    }
    while n > 0 && set.has(s[n - 1])
        invariant
            n <= s@.len(),
            strip_end(s@, set) == strip_end(s@.take(n as int), set),
        decreases n,
    {
        proof {
            assert(s@.take(n as int).drop_last() =~= s@.take(n - 1));
        }
        n -= 1;
    }
    proof {
        assert(s@.take(n as int) =~= s@.subrange(0, n as int));
    }
    &s[0..n]
}

/// Drops white space at both ends.
pub fn trim_of(s: &[char]) -> (r: &[char])
    ensures
        r@ == trim(s@),
{
    strip_end_of(strip_start_of(s, CharSet::Space), CharSet::Space)
}

// ---------- conversions and comparisons ----------

/// The characters of `s`.
pub fn chars_of(s: &str) -> (r: Vec<char>)
    ensures
        r@ == s@,
{
    let mut out: Vec<char> = Vec::new();
    for c in it: s.chars()
        invariant
            out@ == it.seq().take(it.index()),
            it.seq() == s@,
    {
        out.push(c);
    }
    out
}

/// The string made of the characters `cs`.
pub fn string_of(cs: &[char]) -> (r: String)
    ensures
        r@ == cs@,
{
    let mut out = String::new();
    let mut i: usize = 0;
    while i < cs.len()
        invariant
            i <= cs@.len(),
            out@ == cs@.take(i as int),
        decreases cs@.len() - i,
    {
        out.push(cs[i]);
        i += 1;
    }
    out
}

/// Appends `cs` to `out`.
pub fn append_chars(out: &mut Vec<char>, cs: &[char])
    ensures
        final(out)@ == old(out)@ + cs@,
{
    let mut i: usize = 0;
    while i < cs.len()
        invariant
            i <= cs@.len(),
            out@ == old(out)@ + cs@.take(i as int),
        decreases cs@.len() - i,
    {
        out.push(cs[i]);
        i += 1;
    }
    proof {
        assert(cs@.take(i as int) =~= cs@);
    }
}

/// Whether two character sequences are equal.
pub fn same_chars(a: &[char], b: &[char]) -> (r: bool)
    ensures
        r == (a@ == b@),
{
    if a.len() != b.len() {
        return false;
    }
    let mut i: usize = 0;
    while i < a.len()
        invariant
            i <= a@.len(),
            a@.len() == b@.len(),
            forall|j: int| 0 <= j < i ==> a@[j] == b@[j],
        decreases a@.len() - i,
    {
        if a[i] != b[i] {
            return false;
        }
        i += 1;
    }
    proof {
        assert(a@ =~= b@);
    }
    true
}

/// Whether two strings hold the same characters.
pub fn same_text(a: &str, b: &str) -> (r: bool)
    ensures
        r == (a@ == b@),
{
    a.to_owned() == b.to_owned()
}

/// The ASCII lower-case form of one character.
pub fn lower_char_of(c: char) -> (r: char)
    ensures
        r == lower_char(c),
{
    if 'A' <= c && c <= 'Z' {
        ((c as u8) + 32) as char
    } else {
        c
    }
}

/// `s` with its ASCII letters in lower case.
pub fn lower_of(s: &[char]) -> (r: Vec<char>)
    ensures
        r@ == lower(s@),
{
    let mut out: Vec<char> = Vec::new();
    let mut i: usize = 0;
    while i < s.len()
        invariant
            i <= s@.len(),
            out@ == lower(s@.take(i as int)),
        decreases s@.len() - i,
    {
        out.push(lower_char_of(s[i]));
        i += 1;
        proof {
            assert(lower(s@.take(i as int)) =~= lower(s@.take(i - 1)).push(lower_char(s@[i - 1])));
        }
    }
    proof {
        assert(s@.take(i as int) =~= s@);
    }
    out
}

/// `s` with its ASCII letters in lower case, as a string.
pub fn lower_text(s: &str) -> (r: String)
    ensures
        r@ == lower(s@),
{
    string_of(&lower_of(&chars_of(s)))
}

// ---------- splitting and joining ----------

/// The pieces of `s` between the characters of `set`, empty ones included.
/// There is one piece more than there are such characters.
pub open spec fn split(s: Seq<char>, set: CharSet) -> Seq<Seq<char>>
    decreases s.len(),
{
    if s.len() == 0 {
        seq![Seq::empty()]
    } else {
        let before = split(s.drop_last(), set);
        if set.holds(s.last()) {
            before.push(Seq::empty())
        } else {
            before.drop_last().push(before.last().push(s.last()))
        }
    }
}

/// The parts one after the other, with `sep` between neighbours.
pub open spec fn join(parts: Seq<Seq<char>>, sep: Seq<char>) -> Seq<char>
    decreases parts.len(),
{
    if parts.len() == 0 {
        Seq::empty()
    } else if parts.len() == 1 {
        parts[0]
    } else {
        join(parts.drop_last(), sep) + sep + parts.last()
    }
}

/// The parts that are not empty, in order.
pub open spec fn non_empty(parts: Seq<Seq<char>>) -> Seq<Seq<char>>
    decreases parts.len(),
{
    if parts.len() == 0 {
        Seq::empty()
    } else {
        let before = non_empty(parts.drop_last());
        if parts.last().len() > 0 {
            before.push(parts.last())
        } else {
            before
        }
    }
}

/// The words of `s`, with one blank between neighbours and none at the ends.
pub open spec fn collapse(s: Seq<char>) -> Seq<char> {
    join(non_empty(split(s, CharSet::Space)), " "@)
}

/// The pieces of a split, as views.
pub open spec fn pieces(v: Seq<Vec<char>>) -> Seq<Seq<char>> {
    v.map_values(|p: Vec<char>| p@)
}

/// A split has at least one piece.
pub proof fn lemma_split_len(s: Seq<char>, set: CharSet)
    ensures
        split(s, set).len() >= 1,
    decreases s.len(),
{
    if s.len() > 0 {
        lemma_split_len(s.drop_last(), set);
    }
}

/// Joining the pieces of a split gives the text back.
pub proof fn lemma_join_split(s: Seq<char>, c: char)
    ensures
        join(split(s, CharSet::Only(c)), seq![c]) == s,
    decreases s.len(),
{
    let parts = split(s, CharSet::Only(c));
    if s.len() == 0 {
        assert(join(parts, seq![c]) =~= s);
    } else {
        let before = split(s.drop_last(), CharSet::Only(c));
        lemma_split_len(s.drop_last(), CharSet::Only(c));
        lemma_join_split(s.drop_last(), c);
        if s.last() == c {
            assert(parts.drop_last() =~= before);
            assert(join(parts, seq![c]) =~= s.drop_last() + seq![c]);
        } else {
            assert(parts.drop_last() =~= before.drop_last());
            assert(join(parts, seq![c]) =~= join(before, seq![c]).push(s.last()));
        }
        assert(s =~= s.drop_last().push(s.last()));
    }
}

/// A text around a separator has the pieces of what is before it and of what is
/// behind it.
pub proof fn lemma_split_around(a: Seq<char>, c: char, b: Seq<char>, set: CharSet)
    requires
        set.holds(c),
    ensures
        split(a + seq![c] + b, set) == split(a, set) + split(b, set),
    decreases b.len(),
{
    let s = a + seq![c] + b;
    lemma_split_len(a, set);
    if b.len() == 0 {
        assert(s.drop_last() =~= a);
        assert(split(s, set) =~= split(a, set) + split(b, set));
    } else {
        let less = b.drop_last();
        lemma_split_around(a, c, less, set);
        lemma_split_len(less, set);
        assert(s.drop_last() =~= a + seq![c] + less);
        assert(s.last() == b.last());
        assert(split(s, set) =~= split(a, set) + split(b, set));
    }
}

/// The parts of two lists that are not empty.
pub proof fn lemma_non_empty_concat(a: Seq<Seq<char>>, b: Seq<Seq<char>>)
    ensures
        non_empty(a + b) == non_empty(a) + non_empty(b),
    decreases b.len(),
{
    if b.len() == 0 {
        assert(a + b =~= a);
        assert(non_empty(a) + non_empty(b) =~= non_empty(a));
    } else {
        lemma_non_empty_concat(a, b.drop_last());
        assert((a + b).drop_last() =~= a + b.drop_last());
        assert((a + b).last() == b.last());
        assert(non_empty(a + b) =~= non_empty(a) + non_empty(b));
    }
}

/// Splits `s` at every character of `set`.
pub fn split_of(s: &[char], set: CharSet) -> (r: Vec<Vec<char>>)
    ensures
        pieces(r@) == split(s@, set),
        r@.len() >= 1,
{
    let mut done: Vec<Vec<char>> = Vec::new();
    let mut piece: Vec<char> = Vec::new();
    let mut i: usize = 0;
    proof {
        assert(pieces(done@).push(piece@) =~= split(s@.take(0), set));
    }
    while i < s.len()
        invariant
            i <= s@.len(),
            pieces(done@).push(piece@) == split(s@.take(i as int), set),
        decreases s@.len() - i,
    {
        let c = s[i];
        let ghost before = pieces(done@).push(piece@);
        let ghost was = done@;
        proof {
            assert(s@.take(i + 1).drop_last() =~= s@.take(i as int));
            assert(before.drop_last() =~= pieces(was));
        }
        if set.has(c) {
            done.push(piece);
            piece = Vec::new();
            proof {
                assert(pieces(done@) =~= before);
                assert(piece@ =~= Seq::<char>::empty());
            }
        } else {
            piece.push(c);
        }
        i += 1;
    }
    proof {
        assert(s@.take(i as int) =~= s@);
    }
    let ghost was = done@;
    done.push(piece);
    proof {
        assert(pieces(done@) =~= pieces(was).push(piece@));
    }
    done
}

/// The words of `s` with single blanks between them.
pub fn collapse_of(s: &[char]) -> (r: Vec<char>)
    ensures
        r@ == collapse(s@),
{
    let words = split_of(s, CharSet::Space);
    let mut out: Vec<char> = Vec::new();
    let mut first = true;
    let mut i: usize = 0;
    proof {
        reveal_strlit(" ");
        assert(pieces(words@).take(0) =~= Seq::empty());
    }
    while i < words.len()
        invariant
            i <= words@.len(),
            pieces(words@) == split(s@, CharSet::Space),
            out@ == join(non_empty(pieces(words@).take(i as int)), " "@),
            first == (non_empty(pieces(words@).take(i as int)).len() == 0),
            " "@ == seq![' '],
        decreases words@.len() - i,
    {
        let ghost sofar = non_empty(pieces(words@).take(i as int));
        proof {
            assert(pieces(words@).take(i + 1).drop_last() =~= pieces(words@).take(i as int));
        }
        if words[i].len() > 0 {
            proof {
                assert(sofar.push(words@[i as int]@).drop_last() =~= sofar);
            }
            if !first {
                out.push(' ');
            }
            append_chars(&mut out, words[i].as_slice());
            first = false;
            proof {
                if sofar.len() == 0 {
                    assert(out@ =~= words@[i as int]@);
                } else {
                    assert(out@ =~= join(sofar, " "@) + " "@ + words@[i as int]@);
                }
            }
        }
        i += 1;
    }
    proof {
        assert(pieces(words@).take(i as int) =~= pieces(words@));
    }
    out
}

/// The strings one after the other, with `sep` between neighbours.
pub fn join_texts(parts: &[String], sep: &str) -> (r: String)
    ensures
        r@ == join(parts.deep_view(), sep@),
{
    let mut out = String::new();
    let mut i: usize = 0;
    while i < parts.len()
        invariant
            i <= parts@.len(),
            out@ == join(parts.deep_view().take(i as int), sep@),
        decreases parts@.len() - i,
    {
        proof {
            assert(parts.deep_view().take(i + 1).drop_last() =~= parts.deep_view().take(i as int));
        }
        if i > 0 {
            out.append(sep);
        }
        out.append(parts[i].as_str());
        proof {
            if i == 0 {
                assert(out@ =~= parts.deep_view()[0]);
            }
        }
        i += 1;
    }
    proof {
        assert(parts.deep_view().take(i as int) =~= parts.deep_view());
    }
    out
}

/// The texts in a list of string literals.
pub open spec fn literals(list: Seq<&'static str>) -> Seq<Seq<char>> {
    list.map_values(|s: &'static str| s@)
}

// ---------- searching ----------

/// Whether `p` stands in `s` at index `i`.
pub open spec fn occurs_at(s: Seq<char>, p: Seq<char>, i: int) -> bool {
    0 <= i && i + p.len() <= s.len() && s.subrange(i, i + p.len()) == p
}

/// Whether `p` stands somewhere in `s`.
pub open spec fn contains(s: Seq<char>, p: Seq<char>) -> bool {
    exists|i: int| occurs_at(s, p, i)
}

/// Whether `s` begins with `p`.
pub open spec fn starts_with(s: Seq<char>, p: Seq<char>) -> bool {
    occurs_at(s, p, 0)
}

/// Whether `s` ends in `p`.
pub open spec fn ends_with(s: Seq<char>, p: Seq<char>) -> bool {
    occurs_at(s, p, s.len() - p.len())
}

/// Whether `p` stands in `s` at index `i`.
pub fn found_at(s: &[char], p: &[char], i: usize) -> (r: bool)
    ensures
        r == occurs_at(s@, p@, i as int),
{
    if i > s.len() || p.len() > s.len() - i {
        return false;
    }
    same_chars(&s[i..i + p.len()], p)
}

/// Whether `p` stands somewhere in `s`.
pub fn contains_chars(s: &[char], p: &[char]) -> (r: bool)
    ensures
        r == contains(s@, p@),
{
    let mut i: usize = 0;
    while i < s.len()
        invariant
            i <= s@.len(),
            forall|j: int| 0 <= j < i ==> !occurs_at(s@, p@, j),
        decreases s@.len() - i,
    {
        if found_at(s, p, i) {
            return true;
        }
        i += 1;
    }
    found_at(s, p, i)
}

/// Whether the text `p` stands somewhere in `s`.
pub fn contains_text(s: &[char], p: &str) -> (r: bool)
    ensures
        r == contains(s@, p@),
{
    contains_chars(s, &chars_of(p))
}

/// Whether `s` ends in `p`.
pub fn ends_with_text(s: &[char], p: &str) -> (r: bool)
    ensures
        r == ends_with(s@, p@),
{
    let p = chars_of(p);
    p.len() <= s.len() && found_at(s, &p, s.len() - p.len())
}

/// `s` with every occurrence of `p` replaced by `with`, where occurrences are
/// taken from the left and do not overlap.
pub open spec fn replace(s: Seq<char>, p: Seq<char>, with: Seq<char>) -> Seq<char>
    decreases s.len(),
{
    if p.len() == 0 || s.len() == 0 {
        s
    } else if starts_with(s, p) {
        with + replace(s.skip(p.len() as int), p, with)
    } else {
        seq![s[0]] + replace(s.drop_first(), p, with)
    }
}

/// Replaces every occurrence of the non-empty `p` in `s` by `with`.
pub fn replace_of(s: &[char], p: &[char], with: &[char]) -> (r: Vec<char>)
    requires
        p@.len() > 0,
    ensures
        r@ == replace(s@, p@, with@),
{
    let mut out: Vec<char> = Vec::new();
    let mut i: usize = 0;
    proof {
        assert(s@.skip(0) =~= s@);
    }
    while i < s.len()
        invariant
            i <= s@.len(),
            p@.len() > 0,
            out@ + replace(s@.skip(i as int), p@, with@) == replace(s@, p@, with@),
        decreases s@.len() - i,
    {
        let ghost rest = s@.skip(i as int);
        let ghost was = out@;
        proof {
            if i + p@.len() <= s@.len() {
                assert(rest.subrange(0, p@.len() as int) =~= s@.subrange(i as int, i + p@.len()));
            }
        }
        if found_at(s, p, i) {
            append_chars(&mut out, with);
            proof {
                assert(rest.skip(p@.len() as int) =~= s@.skip(i + p@.len()));
                let tail = replace(s@.skip(i + p@.len()), p@, with@);
                assert(out@ + tail =~= was + (with@ + tail));
            }
            i += p.len();
        } else {
            out.push(s[i]);
            proof {
                assert(rest.drop_first() =~= s@.skip(i + 1));
                let tail = replace(s@.skip(i + 1), p@, with@);
                assert(out@ + tail =~= was + (seq![s@[i as int]] + tail));
            }
            i += 1;
        }
    }
    proof {
        assert(out@ + replace(s@.skip(i as int), p@, with@) =~= out@);
    }
    out
}

// ---------- order ----------

/// Whether `a` comes before `b` in the order of their characters' code points.
pub open spec fn precedes(a: Seq<char>, b: Seq<char>) -> bool
    decreases a.len(),
{
    if b.len() == 0 {
        false
    } else if a.len() == 0 {
        true
    } else if a[0] != b[0] {
        a[0] < b[0]
    } else {
        precedes(a.drop_first(), b.drop_first())
    }
}

/// Whether `a` comes before `b`.
pub fn comes_before(a: &[char], b: &[char]) -> (r: bool)
    ensures
        r == precedes(a@, b@),
{
    let mut i: usize = 0;
    proof {
        assert(a@.skip(0) =~= a@);
        assert(b@.skip(0) =~= b@);
    }
    while i < a.len() && i < b.len() && a[i] == b[i]
        invariant
            i <= a@.len(),
            i <= b@.len(),
            precedes(a@, b@) == precedes(a@.skip(i as int), b@.skip(i as int)),
        decreases a@.len() - i,
    {
        proof {
            assert(a@.skip(i as int).drop_first() =~= a@.skip(i + 1));
            assert(b@.skip(i as int).drop_first() =~= b@.skip(i + 1));
        }
        i += 1;
    }
    if i >= b.len() {
        false
    } else if i >= a.len() {
        true
    } else {
        a[i] < b[i]
    }
}

/// No text comes before itself.
pub proof fn lemma_precedes_irreflexive(a: Seq<char>)
    ensures
        !precedes(a, a),
    decreases a.len(),
{
    if a.len() > 0 {
        lemma_precedes_irreflexive(a.drop_first());
    }
}

/// The order is transitive.
pub proof fn lemma_precedes_transitive(a: Seq<char>, b: Seq<char>, c: Seq<char>)
    requires
        precedes(a, b),
        precedes(b, c),
    ensures
        precedes(a, c),
    decreases a.len(),
{
    if a.len() > 0 && a[0] == b[0] && b[0] == c[0] {
        lemma_precedes_transitive(a.drop_first(), b.drop_first(), c.drop_first());
    }
}

/// Of two different texts one comes before the other.
pub proof fn lemma_precedes_total(a: Seq<char>, b: Seq<char>)
    ensures
        precedes(a, b) || precedes(b, a) || a == b,
    decreases a.len(),
{
    if a.len() > 0 && b.len() > 0 && a[0] == b[0] {
        lemma_precedes_total(a.drop_first(), b.drop_first());
        if a.drop_first() == b.drop_first() {
            assert(a =~= seq![a[0]] + a.drop_first());
            assert(b =~= seq![b[0]] + b.drop_first());
        }
    } else if a.len() == 0 && b.len() == 0 {
        assert(a =~= b);
    }
}

// ---------- numbers and padding ----------

/// The decimal digit for `d`.
pub open spec fn digit(d: nat) -> char {
    (('0' as u32) + d) as char
}

/// The decimal digits of `n`, without leading zeros.
pub open spec fn decimal(n: nat) -> Seq<char>
    decreases n,
{
    if n < 10 {
        seq![digit(n)]
    } else {
        decimal(n / 10).push(digit(n % 10))
    }
}

/// `n` times the character `c`.
pub open spec fn run_of(c: char, n: int) -> Seq<char> {
    Seq::new(if n < 0 { 0 } else { n as nat }, |i: int| c)
}

/// `s` with blanks on the right, to a width of at least `width`.
pub open spec fn pad_right(s: Seq<char>, width: int) -> Seq<char> {
    s + run_of(' ', width - s.len())
}

/// `s` with `c` on the left, to a width of at least `width`.
pub open spec fn pad_left(s: Seq<char>, width: int, c: char) -> Seq<char> {
    run_of(c, width - s.len()) + s
}

/// `n` in decimal with leading zeros up to `width` characters, the sign counted.
pub open spec fn zero_padded(n: int, width: int) -> Seq<char> {
    if n < 0 {
        seq!['-'] + pad_left(decimal((-n) as nat), width - 1, '0')
    } else {
        pad_left(decimal(n as nat), width, '0')
    }
}

/// The decimal digits of `n`.
pub fn decimal_of(n: u64) -> (r: Vec<char>)
    ensures
        r@ == decimal(n as nat),
    decreases n,
{
    let last: char = (48 + (n % 10) as u8) as char;
    if n < 10 {
        let mut out: Vec<char> = Vec::new();
        out.push(last);
        out
    } else {
        let mut out = decimal_of(n / 10);
        out.push(last);
        out
    }
}

/// Appends `c` to `out`, `n` times.
pub fn append_run(out: &mut Vec<char>, c: char, n: usize)
    ensures
        final(out)@ == old(out)@ + run_of(c, n as int),
{
    let mut i: usize = 0;
    while i < n
        invariant
            i <= n,
            out@ == old(out)@ + run_of(c, i as int),
        decreases n - i,
    {
        out.push(c);
        i += 1;
        proof {
            assert(run_of(c, i as int) =~= run_of(c, i - 1).push(c));
        }
    }
}

/// Appends `s` to `out`, with blanks behind it up to `width` characters.
pub fn append_padded_right(out: &mut Vec<char>, s: &[char], width: usize)
    ensures
        final(out)@ == old(out)@ + pad_right(s@, width as int),
{
    append_chars(out, s);
    if s.len() < width {
        append_run(out, ' ', width - s.len());
    }
    proof {
        assert(out@ =~= old(out)@ + pad_right(s@, width as int));
    }
}

/// Appends `s` to `out`, with `c` before it up to `width` characters.
pub fn append_padded_left(out: &mut Vec<char>, s: &[char], width: usize, c: char)
    ensures
        final(out)@ == old(out)@ + pad_left(s@, width as int, c),
{
    if s.len() < width {
        append_run(out, c, width - s.len());
    }
    append_chars(out, s);
    proof {
        assert(out@ =~= old(out)@ + pad_left(s@, width as int, c));
    }
}

/// Appends `n` in decimal, with leading zeros up to `width` characters.
pub fn append_zero_padded(out: &mut Vec<char>, n: i32, width: usize)
    requires
        width >= 1,
    ensures
        final(out)@ == old(out)@ + zero_padded(n as int, width as int),
{
    if n < 0 {
        out.push('-');
        let size: u64 = (0 - (n as i64)) as u64;
        append_padded_left(out, &decimal_of(size), width - 1, '0');
        proof {
            assert(out@ =~= old(out)@ + zero_padded(n as int, width as int));
        }
    } else {
        append_padded_left(out, &decimal_of(n as u64), width, '0');
    }
}

// ---------- laws ----------

/// Lower-casing changes the capital letters of ASCII, each at its place, and nothing
/// else.
pub proof fn law_lower_changes_capitals_only(s: Seq<char>)
    ensures
        lower(s).len() == s.len(),
        forall|i: int|
            0 <= i < s.len() && 'A' <= s[i] <= 'Z' ==> (#[trigger] lower(s)[i]) as u32 == s[i] as u32
                + 32,
        forall|i: int|
            0 <= i < s.len() && !('A' <= s[i] <= 'Z') ==> #[trigger] lower(s)[i] == s[i],
        lower(lower(s)) == lower(s),
{
    assert forall|i: int| 0 <= i < s.len() && 'A' <= s[i] <= 'Z' implies (
    #[trigger] lower(s)[i]) as u32 == s[i] as u32 + 32 by {
        assert(s[i] as u32 + 32 <= 'z' as u32);
    }
    assert(lower(lower(s)) =~= lower(s));
}

/// Lower-casing goes character by character.
pub proof fn law_lower_of_parts(a: Seq<char>, b: Seq<char>)
    ensures
        lower(a + b) == lower(a) + lower(b),
{
    assert(lower(a + b) =~= lower(a) + lower(b));
}

/// White space are the blank, the tab, the ends of lines and of pages, and the blanks of
/// other scripts and widths; no visible character is, and no other control character.
pub proof fn law_white_space(c: char)
    ensures
        c == ' ' || '\t' <= c <= '\r' || c == '\u{85}' || c == '\u{a0}' || c == '\u{1680}'
            || '\u{2000}' <= c <= '\u{200a}' || c == '\u{2028}' || c == '\u{2029}' || c
            == '\u{202f}' || c == '\u{205f}' || c == '\u{3000}' ==> is_space(c),
        c < '\t' || '\r' < c < ' ' || ' ' < c < '\u{85}' || '\u{85}' < c < '\u{a0}' ==> !is_space(c),
        '\u{a0}' < c < '\u{1680}' || '\u{1680}' < c < '\u{2000}' || '\u{200a}' < c < '\u{2028}'
            ==> !is_space(c),
        '\u{2029}' < c < '\u{202f}' || '\u{202f}' < c < '\u{205f}' || '\u{205f}' < c < '\u{3000}'
            || c > '\u{3000}' ==> !is_space(c),
        CharSet::Space.holds(c) <==> is_space(c),
        CharSet::SpaceOrComma.holds(c) <==> c == ',' || is_space(c),
        forall|d: char| #[trigger] CharSet::Only(d).holds(c) <==> c == d,
{
}

/// Stripping the start takes the leading characters of the set, all of them and no
/// others.
pub proof fn law_strip_start(s: Seq<char>, set: CharSet)
    ensures
        exists|n: int|
            0 <= n <= s.len() && strip_start(s, set) == #[trigger] s.skip(n) && (forall|i: int|
                0 <= i < n ==> set.holds(#[trigger] s[i])) && (n < s.len() ==> !set.holds(s[n])),
    decreases s.len(),
{
    if s.len() > 0 && set.holds(s[0]) {
        let rest = s.drop_first();
        law_strip_start(rest, set);
        let n = choose|n: int|
            0 <= n <= rest.len() && strip_start(rest, set) == #[trigger] rest.skip(n) && (forall|
                i: int,
            |
                0 <= i < n ==> set.holds(#[trigger] rest[i])) && (n < rest.len() ==> !set.holds(
                rest[n],
            ));
        assert(rest.skip(n) =~= s.skip(n + 1));
        assert forall|i: int| 0 <= i < n + 1 implies set.holds(#[trigger] s[i]) by {
            if i > 0 {
                assert(set.holds(rest[i - 1]));
            }
        }
    } else {
        assert(s.skip(0) =~= s);
    }
}

/// Stripping the end takes the trailing characters of the set, all of them and no
/// others.
pub proof fn law_strip_end(s: Seq<char>, set: CharSet)
    ensures
        exists|n: int|
            0 <= n <= s.len() && strip_end(s, set) == #[trigger] s.take(n) && (forall|i: int|
                n <= i < s.len() ==> set.holds(#[trigger] s[i])) && (n > 0 ==> !set.holds(s[n - 1])),
    decreases s.len(),
{
    if s.len() > 0 && set.holds(s.last()) {
        let rest = s.drop_last();
        law_strip_end(rest, set);
        let n = choose|n: int|
            0 <= n <= rest.len() && strip_end(rest, set) == #[trigger] rest.take(n) && (forall|
                i: int,
            |
                n <= i < rest.len() ==> set.holds(#[trigger] rest[i])) && (n > 0 ==> !set.holds(
                rest[n - 1],
            ));
        assert(rest.take(n) =~= s.take(n));
        assert forall|i: int| n <= i < s.len() implies set.holds(#[trigger] s[i]) by {
            if i < rest.len() {
                assert(set.holds(rest[i]));
            }
        }
    } else {
        assert(s.take(s.len() as int) =~= s);
    }
}

/// Trimming takes the white space around a text and leaves the text between as it is.
pub proof fn law_trim(before: Seq<char>, text: Seq<char>, behind: Seq<char>)
    requires
        forall|i: int| 0 <= i < before.len() ==> is_space(#[trigger] before[i]),
        forall|i: int| 0 <= i < behind.len() ==> is_space(#[trigger] behind[i]),
        text.len() > 0 ==> !is_space(text[0]) && !is_space(text.last()),
    ensures
        trim(before + text + behind) == text,
{
    let s = before + text + behind;
    law_strip_start(s, CharSet::Space);
    let n = choose|n: int|
        0 <= n <= s.len() && strip_start(s, CharSet::Space) == #[trigger] s.skip(n) && (forall|
            i: int,
        |
            0 <= i < n ==> CharSet::Space.holds(#[trigger] s[i])) && (n < s.len()
            ==> !CharSet::Space.holds(s[n]));
    let t = s.skip(n);
    law_strip_end(t, CharSet::Space);
    let m = choose|m: int|
        0 <= m <= t.len() && strip_end(t, CharSet::Space) == #[trigger] t.take(m) && (forall|i: int|
            m <= i < t.len() ==> CharSet::Space.holds(#[trigger] t[i])) && (m > 0
            ==> !CharSet::Space.holds(t[m - 1]));
    if text.len() > 0 {
        let b = before.len() as int;
        assert(s[b] == text[0]);
        if n > b {
            assert(CharSet::Space.holds(s[b]));
        }
        if n < b {
            assert(s[n] == before[n]);
        }
        assert(n == b);
        let e = text.len() as int;
        assert(t[e - 1] == text.last());
        if m < e {
            assert(CharSet::Space.holds(t[e - 1]));
        }
        if m > e {
            assert(t[m - 1] == behind[m - 1 - e]);
        }
        assert(t.take(m) =~= text);
    } else {
        if n < s.len() {
            if n < before.len() {
                assert(s[n] == before[n]);
            } else {
                assert(s[n] == behind[n - before.len()]);
            }
        }
        assert(t.take(m) =~= text);
    }
}

/// A text that neither begins nor ends in white space is trimmed already.
pub proof fn law_trimmed_stays(text: Seq<char>)
    requires
        text.len() > 0 ==> !is_space(text[0]) && !is_space(text.last()),
    ensures
        trim(text) == text,
{
    law_trim(Seq::empty(), text, Seq::empty());
    assert(Seq::<char>::empty() + text + Seq::<char>::empty() =~= text);
}

/// What trimming leaves is a part of the text, with white space only around it.
pub proof fn law_trim_leaves_a_part(s: Seq<char>)
    ensures
        exists|a: int, b: int|
            0 <= a <= b <= s.len() && trim(s) == #[trigger] s.subrange(a, b) && (forall|i: int|
                0 <= i < a || b <= i < s.len() ==> is_space(#[trigger] s[i])),
        trim(s).len() > 0 ==> !is_space(trim(s)[0]) && !is_space(trim(s).last()),
{
    law_strip_start(s, CharSet::Space);
    let n = choose|n: int|
        0 <= n <= s.len() && strip_start(s, CharSet::Space) == #[trigger] s.skip(n) && (forall|
            i: int,
        |
            0 <= i < n ==> CharSet::Space.holds(#[trigger] s[i])) && (n < s.len()
            ==> !CharSet::Space.holds(s[n]));
    let t = s.skip(n);
    law_strip_end(t, CharSet::Space);
    let m = choose|m: int|
        0 <= m <= t.len() && strip_end(t, CharSet::Space) == #[trigger] t.take(m) && (forall|i: int|
            m <= i < t.len() ==> CharSet::Space.holds(#[trigger] t[i])) && (m > 0
            ==> !CharSet::Space.holds(t[m - 1]));
    assert(s.subrange(n, n + m) =~= t.take(m));
    assert forall|i: int| 0 <= i < n || n + m <= i < s.len() implies is_space(#[trigger] s[i]) by {
        if i < n {
            assert(CharSet::Space.holds(s[i]));
        } else {
            assert(CharSet::Space.holds(t[i - n]));
        }
    }
    if m > 0 {
        assert(trim(s)[0] == s[n]);
        assert(trim(s).last() == t[m - 1]);
    }
}

/// A text without separators is its own only piece, and a separator parts what stands
/// before it from what stands behind it.
pub proof fn law_split_at_separators(a: Seq<char>, c: char, b: Seq<char>, set: CharSet)
    requires
        forall|i: int| 0 <= i < a.len() ==> !set.holds(#[trigger] a[i]),
        set.holds(c),
    ensures
        split(a, set) == seq![a],
        split(a + seq![c] + b, set) == seq![a] + split(b, set),
{
    lemma_unsplit(a, set);
    lemma_split_around(a, c, b, set);
}

/// A text without separators is its own only piece.
pub proof fn lemma_unsplit(a: Seq<char>, set: CharSet)
    requires
        forall|i: int| 0 <= i < a.len() ==> !set.holds(#[trigger] a[i]),
    ensures
        split(a, set) == seq![a],
    decreases a.len(),
{
    if a.len() == 0 {
        assert(a =~= Seq::empty());
        assert(split(a, set) =~= seq![a]);
    } else {
        let less = a.drop_last();
        assert forall|i: int| 0 <= i < less.len() implies !set.holds(#[trigger] less[i]) by {
            assert(!set.holds(a[i]));
        }
        lemma_unsplit(less, set);
        assert(!set.holds(a[a.len() - 1]));
        assert(less.push(a.last()) =~= a);
        assert(split(a, set) =~= seq![a]);
    }
}

/// No piece of a split has a separator in it.
pub proof fn law_pieces_have_no_separators(s: Seq<char>, set: CharSet)
    ensures
        forall|k: int, i: int|
            0 <= k < split(s, set).len() && 0 <= i < split(s, set)[k].len() ==> !set.holds(
                #[trigger] split(s, set)[k][i],
            ),
    decreases s.len(),
{
    if s.len() > 0 {
        let before = split(s.drop_last(), set);
        lemma_split_len(s.drop_last(), set);
        law_pieces_have_no_separators(s.drop_last(), set);
        let all = split(s, set);
        assert forall|k: int, i: int| 0 <= k < all.len() && 0 <= i < all[k].len() implies !set.holds(
            #[trigger] all[k][i],
        ) by {
            if set.holds(s.last()) {
                if k < before.len() {
                    assert(all[k] == before[k]);
                    assert(!set.holds(before[k][i]));
                }
            } else if k < before.len() - 1 {
                assert(all[k] == before[k]);
                assert(!set.holds(before[k][i]));
            } else if i < before.last().len() {
                assert(all[k][i] == before[k][i]);
                assert(!set.holds(before[k][i]));
            }
        }
    }
}

/// The pieces between a separator give the text back when they are joined with it.
pub proof fn law_join_undoes_split(s: Seq<char>, c: char)
    ensures
        join(split(s, CharSet::Only(c)), seq![c]) == s,
{
    lemma_join_split(s, c);
}

/// One text is joined to itself, and two lists with one separator between them.
pub proof fn law_join(a: Seq<Seq<char>>, b: Seq<Seq<char>>, sep: Seq<char>)
    requires
        a.len() > 0,
        b.len() > 0,
    ensures
        join(Seq::empty(), sep) == Seq::<char>::empty(),
        a.len() == 1 ==> join(a, sep) == a[0],
        join(a + b, sep) == join(a, sep) + sep + join(b, sep),
    decreases b.len(),
{
    if b.len() == 1 {
        assert((a + b).drop_last() =~= a);
        assert((a + b).last() == b[0]);
    } else {
        let less = b.drop_last();
        law_join(a, less, sep);
        assert((a + b).drop_last() =~= a + less);
        assert((a + b).last() == b.last());
        assert(join(a + b, sep) =~= join(a, sep) + sep + join(b, sep));
    }
}

/// The parts that are not empty are kept, in their order, and no others.
pub proof fn law_non_empty(parts: Seq<Seq<char>>)
    ensures
        non_empty(parts) == parts.filter(|p: Seq<char>| p.len() > 0),
    decreases parts.len(),
{
    reveal(Seq::filter);
    if parts.len() > 0 {
        law_non_empty(parts.drop_last());
    }
}

/// A text stands in another where that one is made of something, the text and something
/// else.
pub proof fn law_contains(s: Seq<char>, p: Seq<char>)
    ensures
        contains(s, p) <==> exists|a: Seq<char>, b: Seq<char>| s == #[trigger] (a + p + b),
        starts_with(s, p) <==> exists|b: Seq<char>| s == #[trigger] (p + b),
        ends_with(s, p) <==> exists|a: Seq<char>| s == #[trigger] (a + p),
{
    if contains(s, p) {
        let i = choose|i: int| occurs_at(s, p, i);
        assert(s =~= s.take(i) + p + s.skip(i + p.len()));
    }
    if exists|a: Seq<char>, b: Seq<char>| s == #[trigger] (a + p + b) {
        let (a, b) = choose|a: Seq<char>, b: Seq<char>| s == #[trigger] (a + p + b);
        assert(s.subrange(a.len() as int, (a.len() + p.len()) as int) =~= p);
        assert(occurs_at(s, p, a.len() as int));
    }
    if starts_with(s, p) {
        assert(s =~= p + s.skip(p.len() as int));
    }
    if exists|b: Seq<char>| s == #[trigger] (p + b) {
        let b = choose|b: Seq<char>| s == #[trigger] (p + b);
        assert(s.subrange(0, p.len() as int) =~= p);
    }
    if ends_with(s, p) {
        assert(s =~= s.take(s.len() - p.len()) + p);
    }
    if exists|a: Seq<char>| s == #[trigger] (a + p) {
        let a = choose|a: Seq<char>| s == #[trigger] (a + p);
        assert(s.subrange(s.len() - p.len(), s.len() as int) =~= p);
    }
}

/// What stands in a part of a text stands in the text.
pub proof fn law_contains_is_transitive(s: Seq<char>, p: Seq<char>, q: Seq<char>)
    requires
        contains(s, p),
        contains(p, q),
    ensures
        contains(s, q),
{
    let i = choose|i: int| occurs_at(s, p, i);
    let j = choose|j: int| occurs_at(p, q, j);
    assert(s.subrange(i + j, i + j + q.len()) =~= p.subrange(j, j + q.len()));
    assert(occurs_at(s, q, i + j));
}

/// Replacing changes nothing before the first place of a text, puts the new text in that
/// place, and goes on behind it.
pub proof fn law_replace(a: Seq<char>, p: Seq<char>, b: Seq<char>, with: Seq<char>)
    requires
        p.len() > 0,
        forall|i: int| 0 <= i < a.len() ==> !occurs_at(a + p + b, p, i),
    ensures
        replace(a + p + b, p, with) == a + with + replace(b, p, with),
    decreases a.len(),
{
    let s = a + p + b;
    if a.len() == 0 {
        assert(s.subrange(0, p.len() as int) =~= p);
        assert(s.skip(p.len() as int) =~= b);
        assert(a + with + replace(b, p, with) =~= with + replace(b, p, with));
    } else {
        let rest = a.drop_first();
        assert(s.drop_first() =~= rest + p + b);
        assert forall|i: int| 0 <= i < rest.len() implies !occurs_at(rest + p + b, p, i) by {
            if occurs_at(rest + p + b, p, i) {
                assert(s.subrange(i + 1, i + 1 + p.len()) =~= (rest + p + b).subrange(
                    i,
                    i + p.len(),
                ));
                assert(occurs_at(s, p, i + 1));
            }
        }
        law_replace(rest, p, b, with);
        assert(!occurs_at(s, p, 0));
        assert(replace(s, p, with) =~= a + with + replace(b, p, with));
    }
}

/// Where there is nothing to replace nothing changes.
pub proof fn law_replace_nothing(s: Seq<char>, p: Seq<char>, with: Seq<char>)
    requires
        p.len() > 0,
        !contains(s, p),
    ensures
        replace(s, p, with) == s,
    decreases s.len(),
{
    if s.len() > 0 {
        let rest = s.drop_first();
        assert(!contains(rest, p)) by {
            if contains(rest, p) {
                let i = choose|i: int| occurs_at(rest, p, i);
                assert(s.subrange(i + 1, i + 1 + p.len()) =~= rest.subrange(i, i + p.len()));
                assert(occurs_at(s, p, i + 1));
            }
        }
        law_replace_nothing(rest, p, with);
        assert(!occurs_at(s, p, 0));
        assert(seq![s[0]] + rest =~= s);
    }
}

/// One text comes before another where it has the smaller character at the first place at
/// which they differ, or where it ends there.
pub proof fn law_precedes(a: Seq<char>, b: Seq<char>)
    ensures
        precedes(a, b) <==> exists|k: int|
            0 <= k <= a.len() && k < b.len() && #[trigger] a.take(k) == b.take(k) && (k == a.len()
                || a[k] < b[k]),
    decreases a.len(),
{
    if a.len() > 0 && b.len() > 0 && a[0] == b[0] {
        let x = a.drop_first();
        let y = b.drop_first();
        law_precedes(x, y);
        if precedes(a, b) {
            let k = choose|k: int|
                0 <= k <= x.len() && k < y.len() && #[trigger] x.take(k) == y.take(k) && (k
                    == x.len() || x[k] < y[k]);
            assert forall|i: int| 0 <= i < k + 1 implies a[i] == b[i] by {
                if i > 0 {
                    assert(x.take(k)[i - 1] == y.take(k)[i - 1]);
                }
            }
            assert(a.take(k + 1) =~= b.take(k + 1));
        }
        if exists|k: int|
            0 <= k <= a.len() && k < b.len() && #[trigger] a.take(k) == b.take(k) && (k == a.len()
                || a[k] < b[k]) {
            let k = choose|k: int|
                0 <= k <= a.len() && k < b.len() && #[trigger] a.take(k) == b.take(k) && (k
                    == a.len() || a[k] < b[k]);
            assert(k > 0);
            assert forall|i: int| 0 <= i < k - 1 implies x[i] == y[i] by {
                assert(a.take(k)[i + 1] == b.take(k)[i + 1]);
            }
            assert(x.take(k - 1) =~= y.take(k - 1));
        }
    } else if b.len() > 0 {
        assert(a.take(0) =~= b.take(0));
        if exists|k: int|
            0 <= k <= a.len() && k < b.len() && #[trigger] a.take(k) == b.take(k) && (k == a.len()
                || a[k] < b[k]) {
            let k = choose|k: int|
                0 <= k <= a.len() && k < b.len() && #[trigger] a.take(k) == b.take(k) && (k
                    == a.len() || a[k] < b[k]);
            if k > 0 {
                assert(a.take(k)[0] == b.take(k)[0]);
            }
        }
    }
}

/// The number that some digits, read one after the other, stand for.
pub open spec fn number_in(digits: Seq<char>, base: nat, value: spec_fn(char) -> nat) -> nat
    decreases digits.len(),
{
    if digits.len() == 0 {
        0
    } else {
        number_in(digits.drop_last(), base, value) * base + value(digits.last())
    }
}

/// The decimal digits of a number stand for that number, and no zero leads them.
pub proof fn law_decimal(n: nat)
    ensures
        number_in(decimal(n), 10, |c: char| (c as u32 - '0' as u32) as nat) == n,
        forall|i: int| 0 <= i < decimal(n).len() ==> '0' <= #[trigger] decimal(n)[i] <= '9',
        decimal(n).len() >= 1,
        decimal(n)[0] == '0' ==> n == 0 && decimal(n).len() == 1,
    decreases n,
{
    let value = |c: char| (c as u32 - '0' as u32) as nat;
    let last = digit(n % 10);
    assert(last as u32 == '0' as u32 + n % 10);
    assert('0' <= last <= '9');
    if n < 10 {
        assert(decimal(n).drop_last() =~= Seq::empty());
        assert(number_in(decimal(n).drop_last(), 10, value) == 0);
    } else {
        law_decimal(n / 10);
        let before = decimal(n / 10);
        assert(decimal(n).drop_last() =~= before);
        assert(decimal(n)[0] == before[0]);
        assert forall|i: int| 0 <= i < decimal(n).len() implies '0' <= #[trigger] decimal(n)[i]
            <= '9' by {
            if i < before.len() {
                assert(decimal(n)[i] == before[i]);
            }
        }
    }
}

/// Padding puts blanks, or another character, beside a text until it has the width, and
/// never takes anything from it.
pub proof fn law_padding(s: Seq<char>, width: int, c: char)
    ensures
        pad_right(s, width).len() == if width > s.len() {
            width
        } else {
            s.len() as int
        },
        pad_left(s, width, c).len() == pad_right(s, width).len(),
        pad_right(s, width).take(s.len() as int) == s,
        pad_left(s, width, c).skip(pad_left(s, width, c).len() - s.len()) == s,
        forall|i: int|
            s.len() <= i < pad_right(s, width).len() ==> #[trigger] pad_right(s, width)[i] == ' ',
        forall|i: int|
            0 <= i < pad_left(s, width, c).len() - s.len() ==> #[trigger] pad_left(s, width, c)[i]
                == c,
{
    assert(pad_right(s, width).take(s.len() as int) =~= s);
    assert(pad_left(s, width, c).skip(pad_left(s, width, c).len() - s.len()) =~= s);
}

/// Padded with zeros, a number has at least the width and still stands for itself, behind
/// its sign if it has one.
pub proof fn law_zero_padded(n: int, width: int)
    requires
        width >= 1,
    ensures
        zero_padded(n, width).len() >= width,
        n >= 0 ==> number_in(
            zero_padded(n, width),
            10,
            |c: char| (c as u32 - '0' as u32) as nat,
        ) == n,
        n < 0 ==> zero_padded(n, width)[0] == '-' && number_in(
            zero_padded(n, width).drop_first(),
            10,
            |c: char| (c as u32 - '0' as u32) as nat,
        ) == -n,
        zero_padded(n, width).len() > width ==> zero_padded(n, width) == if n < 0 {
            seq!['-'] + decimal((-n) as nat)
        } else {
            decimal(n as nat)
        },
{
    let size = if n < 0 { (-n) as nat } else { n as nat };
    let digits = decimal(size);
    let room = if n < 0 { width - 1 } else { width };
    law_decimal(size);
    lemma_leading_zeros(digits, room - digits.len());
    if n < 0 {
        assert(zero_padded(n, width).drop_first() =~= pad_left(digits, room, '0'));
        if digits.len() >= room {
            assert(pad_left(digits, room, '0') =~= digits);
        }
    } else if digits.len() >= room {
        assert(pad_left(digits, room, '0') =~= digits);
    }
}

/// Leading zeros do not count.
proof fn lemma_leading_zeros(digits: Seq<char>, n: int)
    ensures
        number_in(run_of('0', n) + digits, 10, |c: char| (c as u32 - '0' as u32) as nat)
            == number_in(digits, 10, |c: char| (c as u32 - '0' as u32) as nat),
    decreases digits.len(), if n < 0 { 0 } else { n },
{
    let value = |c: char| (c as u32 - '0' as u32) as nat;
    let all = run_of('0', n) + digits;
    if digits.len() > 0 {
        lemma_leading_zeros(digits.drop_last(), n);
        assert(all.drop_last() =~= run_of('0', n) + digits.drop_last());
        assert(all.last() == digits.last());
    } else if n > 0 {
        lemma_leading_zeros(digits, n - 1);
        assert(all.drop_last() =~= run_of('0', n - 1) + digits);
        assert(all.last() == '0');
    } else {
        assert(all =~= digits);
    }
}

/// Collapsing keeps the words of a text.
pub proof fn law_collapse_keeps_words(s: Seq<char>)
    ensures
        non_empty(split(collapse(s), CharSet::Space)) == non_empty(split(s, CharSet::Space)),
{
    let words = non_empty(split(s, CharSet::Space));
    law_pieces_have_no_separators(s, CharSet::Space);
    lemma_words(split(s, CharSet::Space));
    lemma_words_of_join(words);
}

/// What is not empty among pieces is a piece.
proof fn lemma_words(parts: Seq<Seq<char>>)
    requires
        forall|k: int, i: int|
            0 <= k < parts.len() && 0 <= i < parts[k].len() ==> !is_space(#[trigger] parts[k][i]),
    ensures
        forall|k: int, i: int|
            0 <= k < non_empty(parts).len() && 0 <= i < non_empty(parts)[k].len() ==> !is_space(
                #[trigger] non_empty(parts)[k][i],
            ),
        forall|k: int| 0 <= k < non_empty(parts).len() ==> (#[trigger] non_empty(parts)[k]).len() > 0,
    decreases parts.len(),
{
    if parts.len() > 0 {
        let less = parts.drop_last();
        assert forall|k: int, i: int|
            0 <= k < less.len() && 0 <= i < less[k].len() implies !is_space(
            #[trigger] less[k][i],
        ) by {
            assert(!is_space(parts[k][i]));
        }
        lemma_words(less);
        let before = non_empty(less);
        let all = non_empty(parts);
        assert forall|k: int, i: int| 0 <= k < all.len() && 0 <= i < all[k].len() implies !is_space(
            #[trigger] all[k][i],
        ) by {
            if k < before.len() {
                assert(all[k] == before[k]);
                assert(!is_space(before[k][i]));
            } else {
                assert(!is_space(parts[parts.len() - 1][i]));
            }
        }
        assert forall|k: int| 0 <= k < all.len() implies (#[trigger] all[k]).len() > 0 by {
            if k < before.len() {
                assert(all[k] == before[k]);
            }
        }
    }
}

/// Words with single blanks between them are the words of that text.
proof fn lemma_words_of_join(words: Seq<Seq<char>>)
    requires
        forall|k: int, i: int|
            0 <= k < words.len() && 0 <= i < words[k].len() ==> !is_space(#[trigger] words[k][i]),
        forall|k: int| 0 <= k < words.len() ==> (#[trigger] words[k]).len() > 0,
    ensures
        non_empty(split(join(words, " "@), CharSet::Space)) == words,
    decreases words.len(),
{
    reveal_strlit(" ");
    assert(" "@ =~= seq![' ']);
    if words.len() == 0 {
        assert(split(join(words, " "@), CharSet::Space) =~= seq![Seq::<char>::empty()]);
        assert(seq![Seq::<char>::empty()].drop_last() =~= Seq::empty());
        assert(non_empty(Seq::<Seq<char>>::empty()) =~= Seq::empty());
        assert(non_empty(seq![Seq::<char>::empty()]) =~= words);
    } else {
        let last = words.last();
        assert(last == words[words.len() - 1]);
        assert forall|i: int| 0 <= i < last.len() implies !CharSet::Space.holds(
            #[trigger] last[i],
        ) by {
            assert(!is_space(words[words.len() - 1][i]));
        }
        lemma_unsplit(last, CharSet::Space);
        assert(seq![last].drop_last() =~= Seq::empty());
        assert(non_empty(Seq::<Seq<char>>::empty()) =~= Seq::empty());
        assert(non_empty(seq![last]) =~= seq![last]);
        if words.len() == 1 {
            assert(join(words, " "@) == last);
            assert(words =~= seq![last]);
        } else {
            let less = words.drop_last();
            assert forall|k: int, i: int|
                0 <= k < less.len() && 0 <= i < less[k].len() implies !is_space(
                #[trigger] less[k][i],
            ) by {
                assert(!is_space(words[k][i]));
            }
            assert forall|k: int| 0 <= k < less.len() implies (#[trigger] less[k]).len() > 0 by {
                assert(words[k].len() > 0);
            }
            lemma_words_of_join(less);
            lemma_split_around(join(less, " "@), ' ', last, CharSet::Space);
            lemma_non_empty_concat(
                split(join(less, " "@), CharSet::Space),
                split(last, CharSet::Space),
            );
            assert(less + seq![last] =~= words);
        }
    }
}

/// A text of words with single blanks between them is collapsed already.
pub proof fn law_collapsed_stays(words: Seq<Seq<char>>)
    requires
        forall|k: int, i: int|
            0 <= k < words.len() && 0 <= i < words[k].len() ==> !is_space(#[trigger] words[k][i]),
        forall|k: int| 0 <= k < words.len() ==> (#[trigger] words[k]).len() > 0,
    ensures
        collapse(join(words, seq![' '])) == join(words, seq![' ']),
{
    reveal_strlit(" ");
    assert(" "@ =~= seq![' ']);
    lemma_words_of_join(words);
}

/// Splitting gives back the parts that were joined, where the separator stands in none of
/// them.
pub proof fn law_split_undoes_join(parts: Seq<Seq<char>>, c: char)
    requires
        parts.len() > 0,
        forall|k: int, i: int|
            0 <= k < parts.len() && 0 <= i < parts[k].len() ==> #[trigger] parts[k][i] != c,
    ensures
        split(join(parts, seq![c]), CharSet::Only(c)) == parts,
    decreases parts.len(),
{
    let set = CharSet::Only(c);
    let last = parts.last();
    assert(last == parts[parts.len() - 1]);
    assert forall|i: int| 0 <= i < last.len() implies !set.holds(#[trigger] last[i]) by {
        assert(parts[parts.len() - 1][i] != c);
    }
    lemma_unsplit(last, set);
    if parts.len() == 1 {
        assert(parts =~= seq![last]);
    } else {
        let less = parts.drop_last();
        assert forall|k: int, i: int|
            0 <= k < less.len() && 0 <= i < less[k].len() implies #[trigger] less[k][i] != c by {
            assert(parts[k][i] != c);
        }
        law_split_undoes_join(less, c);
        lemma_split_around(join(less, seq![c]), c, last, set);
        assert(less + seq![last] =~= parts);
    }
}

/// A list of literals has the text of each of them at its place.
pub proof fn law_literals(list: Seq<&'static str>)
    ensures
        literals(list).len() == list.len(),
        forall|i: int| 0 <= i < list.len() ==> #[trigger] literals(list)[i] == list[i]@,
{
}

} // verus!
