//! Lists without repetitions, in the order of first appearance.

use vstd::hash_set::StringHashSet;
use vstd::prelude::*;

use crate::text::chars_of;

verus! {

/// `s` with `a` behind it, unless `a` is there already.
pub open spec fn with_new<A>(s: Seq<A>, a: A) -> Seq<A> {
    if s.contains(a) {
        s
    } else {
        s.push(a)
    }
}

/// The elements of `s` in the order of their first appearance, each once.
pub open spec fn distinct<A>(s: Seq<A>) -> Seq<A>
    decreases s.len(),
{
    if s.len() == 0 {
        s
    } else {
        with_new(distinct(s.drop_last()), s.last())
    }
}

/// Nothing occurs twice among the distinct elements, and they are the elements
/// of the list.
pub proof fn law_distinct<A>(s: Seq<A>)
    ensures
        distinct(s).no_duplicates(),
        forall|a: A| distinct(s).contains(a) <==> s.contains(a),
    decreases s.len(),
{
    if s.len() > 0 {
        let before = distinct(s.drop_last());
        law_distinct(s.drop_last());
        assert forall|a: A| distinct(s).contains(a) <==> s.contains(a) by {
            assert(before.contains(a) <==> s.drop_last().contains(a));
            if distinct(s).contains(a) {
                let i = choose|i: int| 0 <= i < distinct(s).len() && distinct(s)[i] == a;
                if i < before.len() {
                    assert(before[i] == a);
                    let j = choose|j: int| 0 <= j < s.drop_last().len() && s.drop_last()[j] == a;
                    assert(s[j] == a);
                } else {
                    assert(s[s.len() - 1] == a);
                }
            }
            if s.contains(a) {
                let j = choose|j: int| 0 <= j < s.len() && s[j] == a;
                if j < s.len() - 1 {
                    assert(s.drop_last()[j] == a);
                    let i = choose|i: int| 0 <= i < before.len() && before[i] == a;
                    assert(distinct(s)[i] == a);
                } else if !before.contains(a) {
                    assert(distinct(s)[before.len() as int] == a);
                }
            }
        }
    }
}

/// `s` with each element of `more` behind it that is not there already.
pub open spec fn with_all<A>(s: Seq<A>, more: Seq<A>) -> Seq<A>
    decreases more.len(),
{
    if more.len() == 0 {
        s
    } else {
        with_new(with_all(s, more.drop_last()), more.last())
    }
}

/// The distinct elements of a list that is built in two steps.
pub proof fn lemma_distinct_all<A>(s: Seq<A>, more: Seq<A>)
    ensures
        distinct(s + more) == with_all(distinct(s), more),
    decreases more.len(),
{
    if more.len() == 0 {
        assert(s + more =~= s);
    } else {
        lemma_distinct_all(s, more.drop_last());
        assert((s + more).drop_last() =~= s + more.drop_last());
    }
}

// ---------- texts ----------

/// A list of texts that grows by texts it does not hold.
pub struct UniqueTexts {
    list: Vec<String>,
    seen: StringHashSet,
}

impl View for UniqueTexts {
    type V = Seq<Seq<char>>;

    closed spec fn view(&self) -> Seq<Seq<char>> {
        self.list.deep_view()
    }
}

impl UniqueTexts {
    /// The set holds the texts of the list.
    pub closed spec fn wf(&self) -> bool {
        forall|t: Seq<char>| self.seen@.contains(t) <==> #[trigger] self@.contains(t)
    }

    /// The empty list.
    pub fn new() -> (r: Self)
        ensures
            r.wf(),
            r@ == Seq::<Seq<char>>::empty(),
    {
        let list: Vec<String> = Vec::new();
        proof {
            assert(list.deep_view() =~= Seq::<Seq<char>>::empty());
        }
        UniqueTexts { list, seen: StringHashSet::new() }
    }

    /// Adds a text, unless the list holds it already.
    pub fn add(&mut self, t: String)
        requires
            old(self).wf(),
        ensures
            final(self).wf(),
            final(self)@ == with_new(old(self)@, t@),
    {
        let ghost before = self@;
        let ghost set = self.seen@;
        if self.seen.insert(t.clone()) {
            self.list.push(t);
            proof {
                assert(self@ =~= before.push(t@));
                assert forall|x: Seq<char>|
                    self.seen@.contains(x) <==> #[trigger] self@.contains(x) by {
                    assert(set.contains(x) <==> before.contains(x));
                    lemma_push_contains(before, t@, x);
                }
            }
        } else {
            proof {
                assert(before.contains(t@));
                assert(self.seen@ =~= set);
            }
        }
    }

    /// Adds each text of `more` that the list does not hold already.
    pub fn add_all(&mut self, more: &[String])
        requires
            old(self).wf(),
        ensures
            final(self).wf(),
            final(self)@ == with_all(old(self)@, more.deep_view()),
    {
        let mut i: usize = 0;
        while i < more.len()
            invariant
                i <= more@.len(),
                self.wf(),
                self@ == with_all(old(self)@, more.deep_view().take(i as int)),
            decreases more@.len() - i,
        {
            self.add(more[i].clone());
            proof {
                assert(more.deep_view().take(i + 1).drop_last() =~= more.deep_view().take(
                    i as int,
                ));
            }
            i += 1;
        }
        proof {
            assert(more.deep_view().take(i as int) =~= more.deep_view());
        }
    }

    /// The list itself.
    pub fn into_list(self) -> (r: Vec<String>)
        ensures
            r.deep_view() == self@,
    {
        self.list
    }
}

/// What a list holds after one more element.
proof fn lemma_push_contains<A>(s: Seq<A>, a: A, x: A)
    ensures
        s.push(a).contains(x) <==> s.contains(x) || x == a,
{
    if s.push(a).contains(x) {
        let i = choose|i: int| 0 <= i < s.push(a).len() && s.push(a)[i] == x;
        if i < s.len() {
            assert(s[i] == x);
        }
    }
    if s.contains(x) {
        let i = choose|i: int| 0 <= i < s.len() && s[i] == x;
        assert(s.push(a)[i] == x);
    }
    assert(s.push(a)[s.len() as int] == a);
}

// ---------- pairs ----------

/// A text that stands for a pair of texts: an `a` before each character of the
/// first, then a `b`, then the second.
spec fn pair_key(first: Seq<char>, second: Seq<char>) -> Seq<char> {
    Seq::new(2 * first.len(), |i: int| if i % 2 == 0 { 'a' } else { first[i / 2] }) + seq!['b']
        + second
}

/// Different pairs have different keys.
proof fn lemma_pair_key(a: Seq<char>, b: Seq<char>, c: Seq<char>, d: Seq<char>)
    requires
        pair_key(a, b) == pair_key(c, d),
    ensures
        a == c,
        b == d,
{
    let k = pair_key(a, b);
    let l = pair_key(c, d);
    if a.len() < c.len() {
        assert(k[2 * a.len() as int] == 'b');
        assert(l[2 * a.len() as int] == 'a');
    } else if c.len() < a.len() {
        assert(l[2 * c.len() as int] == 'b');
        assert(k[2 * c.len() as int] == 'a');
    }
    assert forall|i: int| 0 <= i < a.len() implies a[i] == c[i] by {
        assert(k[2 * i + 1] == a[(2 * i + 1) / 2]);
        assert(l[2 * i + 1] == c[(2 * i + 1) / 2]);
    }
    assert(a =~= c);
    assert(b =~= k.skip(2int * a.len() + 1));
    assert(d =~= l.skip(2int * c.len() + 1));
}

/// Builds the text that stands for a pair of texts.
fn key_of(first: &str, second: &str) -> (r: String)
    ensures
        r@ == pair_key(first@, second@),
{
    let chars = chars_of(first);
    let mut key = String::new();
    let mut i: usize = 0;
    while i < chars.len()
        invariant
            i <= chars@.len(),
            key@ == Seq::new(
                2 * i as nat,
                |j: int| if j % 2 == 0 { 'a' } else { chars@[j / 2] },
            ),
        decreases chars@.len() - i,
    {
        let ghost was = key@;
        key.push('a');
        key.push(chars[i]);
        i += 1;
        proof {
            assert(key@ =~= Seq::new(
                2 * i as nat,
                |j: int| if j % 2 == 0 { 'a' } else { chars@[j / 2] },
            ));
        }
    }
    key.push('b');
    key.append(second);
    proof {
        assert(key@ =~= pair_key(first@, second@));
    }
    key
}

/// A list of pairs of texts that grows by pairs it does not hold.
pub struct UniquePairs {
    list: Vec<(String, String)>,
    seen: StringHashSet,
}

impl View for UniquePairs {
    type V = Seq<(Seq<char>, Seq<char>)>;

    closed spec fn view(&self) -> Seq<(Seq<char>, Seq<char>)> {
        self.list.deep_view()
    }
}

impl UniquePairs {
    /// The set holds the keys of the list.
    pub closed spec fn wf(&self) -> bool {
        forall|a: Seq<char>, b: Seq<char>|
            self.seen@.contains(pair_key(a, b)) <==> #[trigger] self@.contains((a, b))
    }

    /// The empty list.
    pub fn new() -> (r: Self)
        ensures
            r.wf(),
            r@ == Seq::<(Seq<char>, Seq<char>)>::empty(),
    {
        let list: Vec<(String, String)> = Vec::new();
        proof {
            assert(list.deep_view() =~= Seq::<(Seq<char>, Seq<char>)>::empty());
        }
        UniquePairs { list, seen: StringHashSet::new() }
    }

    /// Adds a pair, unless the list holds it already.
    pub fn add(&mut self, first: String, second: String)
        requires
            old(self).wf(),
        ensures
            final(self).wf(),
            final(self)@ == with_new(old(self)@, (first@, second@)),
    {
        let ghost before = self@;
        let ghost set = self.seen@;
        let ghost pair = (first@, second@);
        let key = key_of(first.as_str(), second.as_str());
        if self.seen.insert(key) {
            self.list.push((first, second));
            proof {
                assert(self@ =~= before.push(pair));
                assert(!before.contains(pair));
                assert forall|a: Seq<char>, b: Seq<char>|
                    self.seen@.contains(pair_key(a, b)) <==> #[trigger] self@.contains((a, b)) by {
                    assert(set.contains(pair_key(a, b)) <==> before.contains((a, b)));
                    lemma_push_contains(before, pair, (a, b));
                    if pair_key(a, b) == pair_key(pair.0, pair.1) {
                        lemma_pair_key(a, b, pair.0, pair.1);
                    }
                }
            }
        } else {
            proof {
                assert(before.contains(pair));
                assert(self.seen@ =~= set);
            }
        }
    }

    /// The list itself.
    pub fn into_list(self) -> (r: Vec<(String, String)>)
        ensures
            r.deep_view() == self@,
    {
        self.list
    }
}

// ---------- laws ----------

/// What comes later in a list changes nothing of what is there: the distinct elements stand
/// in the order of their first appearance.
pub proof fn law_first_appearances_count<A>(s: Seq<A>, more: Seq<A>)
    ensures
        distinct(s).len() <= distinct(s + more).len(),
        distinct(s + more).take(distinct(s).len() as int) == distinct(s),
    decreases more.len(),
{
    let first = distinct(s);
    if more.len() == 0 {
        assert(s + more =~= s);
        assert(first.take(first.len() as int) =~= first);
    } else {
        law_first_appearances_count(s, more.drop_last());
        assert((s + more).drop_last() =~= s + more.drop_last());
        let before = distinct(s + more.drop_last());
        assert(distinct(s + more).take(first.len() as int) =~= before.take(first.len() as int));
    }
}

/// A list without repetitions stays as it is.
pub proof fn law_distinct_stays<A>(s: Seq<A>)
    requires
        s.no_duplicates(),
    ensures
        distinct(s) == s,
    decreases s.len(),
{
    if s.len() > 0 {
        let less = s.drop_last();
        assert(less.no_duplicates());
        law_distinct_stays(less);
        assert(!less.contains(s.last())) by {
            if less.contains(s.last()) {
                let i = choose|i: int| 0 <= i < less.len() && less[i] == s.last();
                assert(s[i] == s[s.len() - 1]);
            }
        }
        assert(less.push(s.last()) =~= s);
    }
}

} // verus!
