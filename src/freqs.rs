//! Frequency of occurrence of units.
use vstd::multiset::Multiset;
use vstd::prelude::*;

use self::builder::FrequencyBuilder;
use self::iter::FrequencyIter;
use crate::histogram::{histogram, in_order, lemma_same_rows_listing, render_rows, sort_rows};
use crate::split::views;

pub mod builder;
pub mod iter;

verus! {

/// How often `k` occurs according to `m`: zero where `m` has no entry.
pub open spec fn count_of(m: Map<Seq<char>, nat>, k: Seq<char>) -> nat {
    if m.contains_key(k) {
        m[k]
    } else {
        0
    }
}

/// A count held to the largest value that a `u32` holds.
pub open spec fn capped(x: nat) -> nat {
    if x > u32::MAX {
        u32::MAX as nat
    } else {
        x
    }
}

/// `m` after `c` more occurrences of `k`; nothing changes when `c` is zero.
pub open spec fn add_count(m: Map<Seq<char>, nat>, k: Seq<char>, c: nat) -> Map<Seq<char>, nat> {
    if c == 0 {
        m
    } else {
        m.insert(k, capped(count_of(m, k) + c))
    }
}

/// The counts that a sequence of `(unit, count)` pairs adds up to, from an empty table.
pub open spec fn tally(items: Seq<(Seq<char>, nat)>) -> Map<Seq<char>, nat>
    decreases items.len(),
{
    if items.len() == 0 {
        Map::empty()
    } else {
        add_count(tally(items.drop_last()), items.last().0, items.last().1)
    }
}

/// Table `a` with the counts of table `b` added to it, key by key.
pub open spec fn absorb(a: Map<Seq<char>, nat>, b: Map<Seq<char>, nat>) -> Map<Seq<char>, nat> {
    Map::new(
        |k: Seq<char>| a.contains_key(k) || b.contains_key(k),
        |k: Seq<char>| capped(count_of(a, k) + count_of(b, k)),
    )
}

/// Each unit paired with a count of one.
pub open spec fn ones(units: Seq<Seq<char>>) -> Seq<(Seq<char>, nat)> {
    units.map_values(|u: Seq<char>| (u, 1nat))
}

/// The views of `(unit, count)` pairs.
pub open spec fn pairs_view(v: Seq<(String, u32)>) -> Seq<(Seq<char>, nat)> {
    v.map_values(|p: (String, u32)| (p.0@, p.1 as nat))
}

/// A frequency table: finitely many units, each with a count from one to `u32::MAX`.
pub open spec fn is_table(m: Map<Seq<char>, nat>) -> bool {
    &&& m.dom().finite()
    &&& forall|k: Seq<char>| #[trigger] m.contains_key(k) ==> 1 <= m[k] <= u32::MAX
}

/// No unit occurs twice among the pairs.
pub open spec fn distinct_keys(s: Seq<(Seq<char>, nat)>) -> bool {
    forall|i: int, j: int| 0 <= i < j < s.len() ==> s[i].0 != s[j].0
}

/// The pairs `s` list the entries of `m`, each exactly once.
pub open spec fn listing(s: Seq<(Seq<char>, nat)>, m: Map<Seq<char>, nat>) -> bool {
    &&& distinct_keys(s)
    &&& forall|i: int| 0 <= i < s.len() ==> #[trigger] m.contains_key(s[i].0) && m[s[i].0] == s[i].1
    &&& forall|k: Seq<char>| #[trigger] m.contains_key(k) ==> exists|i: int| 0 <= i < s.len() && s[i].0 == k
}

/// Every count of the pairs lies between one and `u32::MAX`.
pub open spec fn counts_in_range(s: Seq<(Seq<char>, nat)>) -> bool {
    forall|i: int| 0 <= i < s.len() ==> 1 <= #[trigger] s[i].1 <= u32::MAX
}

proof fn lemma_tally_finite(s: Seq<(Seq<char>, nat)>)
    ensures
        tally(s).dom().finite(),
    decreases s.len(),
{
    if s.len() > 0 {
        lemma_tally_finite(s.drop_last());
    }
}

/// Pairs with distinct units and counts in range list the table they add up to.
proof fn lemma_tally_distinct(s: Seq<(Seq<char>, nat)>)
    requires
        distinct_keys(s),
        counts_in_range(s),
    ensures
        listing(s, tally(s)),
        is_table(tally(s)),
    decreases s.len(),
{
    lemma_tally_finite(s);
    if s.len() > 0 {
        let p = s.drop_last();
        lemma_tally_distinct(p);
        let t = tally(p);
        let x = s.last();
        assert(!t.contains_key(x.0)) by {
            if t.contains_key(x.0) {
                let i = choose|i: int| 0 <= i < p.len() && p[i].0 == x.0;
                assert(s[i].0 == s[s.len() - 1].0);
            }
        }
        assert(tally(s) == t.insert(x.0, x.1));
        assert forall|i: int| 0 <= i < s.len() implies #[trigger] tally(s).contains_key(s[i].0)
            && tally(s)[s[i].0] == s[i].1 by {
            if i < s.len() - 1 {
                assert(p[i] == s[i]);
                assert(s[i].0 != x.0);
            }
        }
        assert forall|k: Seq<char>| #[trigger] tally(s).contains_key(k) implies exists|i: int|
            0 <= i < s.len() && s[i].0 == k by {
            if k != x.0 {
                let i = choose|i: int| 0 <= i < p.len() && p[i].0 == k;
                assert(s[i] == p[i]);
            } else {
                assert(s[s.len() - 1].0 == k);
            }
        }
    }
}

/// A table is what the pairs that list it add up to.
pub proof fn lemma_listing_tally(s: Seq<(Seq<char>, nat)>, m: Map<Seq<char>, nat>)
    requires
        is_table(m),
        listing(s, m),
    ensures
        tally(s) == m,
{
    assert forall|i: int| 0 <= i < s.len() implies 1 <= #[trigger] s[i].1 <= u32::MAX by {
        assert(m.contains_key(s[i].0));
    }
    lemma_tally_distinct(s);
    let t = tally(s);
    assert forall|k: Seq<char>| t.contains_key(k) <==> m.contains_key(k) by {
        if t.contains_key(k) {
            let i = choose|i: int| 0 <= i < s.len() && s[i].0 == k;
            assert(m.contains_key(s[i].0));
        }
        if m.contains_key(k) {
            let i = choose|i: int| 0 <= i < s.len() && s[i].0 == k;
            assert(t.contains_key(s[i].0));
        }
    }
    assert forall|k: Seq<char>| #[trigger] t.contains_key(k) implies t[k] == m[k] by {
        let i = choose|i: int| 0 <= i < s.len() && s[i].0 == k;
        assert(t.contains_key(s[i].0));
    }
    assert(t =~= m);
}

/// Adding a pair to the right-hand table of `absorb` adds it to the result.
proof fn lemma_absorb_add(a: Map<Seq<char>, nat>, t: Map<Seq<char>, nat>, k: Seq<char>, c: nat)
    ensures
        absorb(a, add_count(t, k, c)) == add_count(absorb(a, t), k, c),
{
    if c == 0 {
    } else {
        let l = absorb(a, add_count(t, k, c));
        let r = add_count(absorb(a, t), k, c);
        assert forall|k2: Seq<char>| #[trigger] l.contains_key(k2) implies l[k2] == r[k2] by {
            if k2 == k {
                assert(count_of(absorb(a, t), k) == capped(count_of(a, k) + count_of(t, k)));
            }
        }
        assert(l =~= r);
    }
}

/// Setting the count of one entry of distinct pairs sets it in the table they add up to.
proof fn lemma_tally_update(s: Seq<(Seq<char>, nat)>, j: int, v: nat)
    requires
        distinct_keys(s),
        counts_in_range(s),
        0 <= j < s.len(),
        1 <= v <= u32::MAX,
    ensures
        tally(s.update(j, (s[j].0, v))) == tally(s).insert(s[j].0, v),
{
    let k = s[j].0;
    let s2 = s.update(j, (k, v));
    lemma_tally_distinct(s);
    let t = tally(s);
    let m = t.insert(k, v);
    assert forall|i: int| 0 <= i < s.len() && i != j implies #[trigger] s2[i] == s[i] by {}
    assert(distinct_keys(s2)) by {
        assert forall|i: int, l: int| 0 <= i < l < s2.len() implies s2[i].0 != s2[l].0 by {
            assert(s2[i].0 == s[i].0);
            assert(s2[l].0 == s[l].0);
        }
    }
    assert(is_table(m));
    assert forall|i: int| 0 <= i < s2.len() implies #[trigger] m.contains_key(s2[i].0)
        && m[s2[i].0] == s2[i].1 by {
        if i != j {
            assert(s[i].0 != k);
            assert(t.contains_key(s[i].0));
        }
    }
    assert forall|k2: Seq<char>| #[trigger] m.contains_key(k2) implies exists|i: int|
        0 <= i < s2.len() && s2[i].0 == k2 by {
        if k2 == k {
            assert(s2[j].0 == k2);
        } else {
            let i = choose|i: int| 0 <= i < s.len() && s[i].0 == k2;
            assert(s2[i].0 == k2);
        }
    }
    lemma_listing_tally(s2, m);
}

/// A frequency table: each unit that occurs, with how often it occurs.
pub struct Frequency {
    keys: Vec<String>,
    counts: Vec<u32>,
}

impl View for Frequency {
    type V = Map<Seq<char>, nat>;

    closed spec fn view(&self) -> Map<Seq<char>, nat> {
        tally(self.entries())
    }
}

impl Frequency {
    /// The entries as stored: each unit with its count.
    pub closed spec fn entries(&self) -> Seq<(Seq<char>, nat)> {
        Seq::new(self.keys@.len(), |i: int| (self.keys@[i]@, self.counts@[i] as nat))
    }

    /// Units are stored once each, with a count of at least one.
    pub closed spec fn wf(&self) -> bool {
        &&& self.keys@.len() == self.counts@.len()
        &&& distinct_keys(self.entries())
        &&& forall|i: int| 0 <= i < self.counts@.len() ==> #[trigger] self.counts@[i] >= 1
    }

    /// A well-formed table is listed by its stored entries.
    pub proof fn lemma_table(&self)
        requires
            self.wf(),
        ensures
            is_table(self@),
            listing(self.entries(), self@),
    {
        let s = self.entries();
        assert forall|i: int| 0 <= i < s.len() implies 1 <= #[trigger] s[i].1 <= u32::MAX by {
            assert(self.counts@[i] >= 1);
        }
        lemma_tally_distinct(s);
    }

    /// An empty table.
    pub fn new() -> (r: Frequency)
        ensures
            r.wf(),
            r@ == Map::<Seq<char>, nat>::empty(),
    {
        let r = Frequency { keys: Vec::new(), counts: Vec::new() };
        assert(r.entries() =~= Seq::<(Seq<char>, nat)>::empty());
        r
    }

    /// Adds `c` occurrences of `key`.
    fn add(&mut self, key: &String, c: u32)
        requires
            old(self).wf(),
        ensures
            final(self).wf(),
            final(self)@ == add_count(old(self)@, key@, c as nat),
    {
        if c == 0 {
            return;
        }
        let ghost s = self.entries();
        let ghost m0 = self@;
        proof {
            self.lemma_table();
        }
        let n = self.keys.len();
        let mut j: usize = 0;
        while j < n
            invariant
                self.wf(),
                self.entries() == s,
                listing(s, tally(s)),
                is_table(tally(s)),
                self@ == tally(s),
                m0 == tally(s),
                m0 == old(self)@,
                n == self.keys@.len(),
                j <= n,
                c >= 1,
                forall|t: int| 0 <= t < j ==> (#[trigger] s[t]).0 != key@,
            decreases n - j,
        {
            if self.keys[j] == *key {
                let cur = self.counts[j];
                let v: u32 = if cur > u32::MAX - c {
                    u32::MAX
                } else {
                    cur + c
                };
                proof {
                    assert(s[j as int] == (key@, cur as nat));
                    assert(tally(s).contains_key(s[j as int].0));
                }
                self.counts.set(j, v);
                proof {
                    assert(self.entries() =~= s.update(j as int, (key@, v as nat)));
                    assert(counts_in_range(s));
                    lemma_tally_update(s, j as int, v as nat);
                    assert(tally(s)[key@] == cur);
                    assert(capped(cur as nat + c as nat) == v);
                    assert(self@ == tally(s).insert(key@, v as nat));
                    assert(forall|i: int| 0 <= i < self.counts@.len() ==> #[trigger] self.counts@[i] >= 1);
                }
                return;
            }
            assert(s[j as int].0 != key@);
            j = j + 1;
        }
        let ghost cs = self.counts@;
        self.keys.push(key.clone());
        self.counts.push(c);
        proof {
            let s2 = self.entries();
            assert(s2 =~= s.push((key@, c as nat)));
            assert(s2.drop_last() =~= s);
            assert(distinct_keys(s2)) by {
                assert forall|i: int, l: int| 0 <= i < l < s2.len() implies s2[i].0 != s2[l].0 by {
                    if l == s2.len() - 1 {
                        assert(s2[i] == s[i]);
                    } else {
                        assert(s2[i] == s[i] && s2[l] == s[l]);
                    }
                }
            }
            assert forall|i: int| 0 <= i < self.counts@.len() implies #[trigger] self.counts@[i] >= 1 by {
                if i < n {
                    assert(self.counts@[i] == cs[i]);
                }
            }
        }
    }

    /// Adds each pair's count to the count of its unit.
    pub fn merge(&mut self, items: &[(String, u32)])
        requires
            old(self).wf(),
        ensures
            final(self).wf(),
            final(self)@ == absorb(old(self)@, tally(pairs_view(items@))),
    {
        let ghost a = self@;
        let ghost pv = pairs_view(items@);
        proof {
            self.lemma_table();
            lemma_absorb_empty(a);
            assert(pv.take(0) =~= Seq::<(Seq<char>, nat)>::empty());
        }
        let n = items.len();
        let mut i: usize = 0;
        while i < n
            invariant
                self.wf(),
                n == items@.len(),
                pv == pairs_view(items@),
                i <= n,
                self@ == absorb(a, tally(pv.take(i as int))),
            decreases n - i,
        {
            let c = items[i].1;
            self.add(&items[i].0, c);
            proof {
                lemma_absorb_add(a, tally(pv.take(i as int)), items@[i as int].0@, c as nat);
                assert(pv.take(i + 1).drop_last() =~= pv.take(i as int));
            }
            i = i + 1;
        }
        assert(pv.take(n as int) =~= pv);
    }

    /// The table of how often each unit occurs in `units`.
    pub fn from_units(units: &[String]) -> (r: Frequency)
        ensures
            r.wf(),
            r@ == tally(ones(views(units@))),
    {
        let ghost us = ones(views(units@));
        let mut r = Frequency::new();
        assert(us.take(0) =~= Seq::<(Seq<char>, nat)>::empty());
        let n = units.len();
        let mut i: usize = 0;
        while i < n
            invariant
                r.wf(),
                n == units@.len(),
                us == ones(views(units@)),
                i <= n,
                r@ == tally(us.take(i as int)),
            decreases n - i,
        {
            r.add(&units[i], 1);
            assert(us.take(i + 1).drop_last() =~= us.take(i as int));
            i = i + 1;
        }
        assert(us.take(n as int) =~= us);
        r
    }

    /// A copy of the entries, each unit once with its count.
    fn pairs(&self) -> (r: Vec<(String, u32)>)
        requires
            self.wf(),
        ensures
            listing(pairs_view(r@), self@),
    {
        proof {
            self.lemma_table();
        }
        let n = self.keys.len();
        let mut r: Vec<(String, u32)> = Vec::new();
        let mut i: usize = 0;
        while i < n
            invariant
                self.wf(),
                n == self.keys@.len(),
                i <= n,
                pairs_view(r@) =~= self.entries().take(i as int),
            decreases n - i,
        {
            let ghost before = pairs_view(r@);
            r.push((self.keys[i].clone(), self.counts[i]));
            assert(pairs_view(r@) =~= before.push(self.entries()[i as int]));
            i = i + 1;
            assert(pairs_view(r@) =~= self.entries().take(i as int));
        }
        assert(self.entries().take(n as int) =~= self.entries());
        r
    }

    /// A builder that counts the units of `s` once it is given the unit.
    pub fn builder(s: String) -> (r: FrequencyBuilder)
        ensures
            r.0 == s,
    {
        FrequencyBuilder(s)
    }

    /// The entries, each unit once with its count, in no particular order.
    pub fn iter(&self) -> (r: FrequencyIter)
        requires
            self.wf(),
        ensures
            r.wf(),
            listing(r@, self@),
    {
        FrequencyIter::from_pairs(self.pairs())
    }

    /// The histogram of the table: a line per unit, by count from the largest, equal
    /// counts in lexicographic order of their units; each line holds the unit right-aligned
    /// in a column as wide as the longest unit, a colon, and an asterisk per occurrence.
    /// Lines are joined by a line feed, with none after the last.
    pub fn to_string(&self) -> (r: String)
        requires
            self.wf(),
        ensures
            exists|rows: Seq<(Seq<char>, nat)>|
                listing(rows, self@) && in_order(rows) && r@ == histogram(rows),
            self@.is_empty() ==> r@.len() == 0,
    {
        let pairs = self.pairs();
        let rows = sort_rows(pairs.as_slice());
        let r = render_rows(rows.as_slice());
        proof {
            let rv = pairs_view(rows@);
            lemma_same_rows_listing(pairs_view(pairs@), rv, self@);
            assert(listing(rv, self@) && in_order(rv) && r@ == histogram(rv));
            if self@.is_empty() && rv.len() > 0 {
                assert(self@.contains_key(rv[0].0));
            }
        }
        r
    }

    /// Gives up the table as its entries, each unit once with its count.
    pub fn into_inner(self) -> (r: Vec<(String, u32)>)
        requires
            self.wf(),
        ensures
            listing(pairs_view(r@), self@),
    {
        self.pairs()
    }
}

impl Default for Frequency {
    /// An empty table.
    fn default() -> (r: Frequency)
        ensures
            r.wf(),
            r@ == Map::<Seq<char>, nat>::empty(),
    {
        Frequency::new()
    }
}

/// Merging tables does not depend on how the merges are grouped.
pub proof fn lemma_absorb_associative(
    a: Map<Seq<char>, nat>,
    b: Map<Seq<char>, nat>,
    c: Map<Seq<char>, nat>,
)
    ensures
        absorb(absorb(a, b), c) == absorb(a, absorb(b, c)),
{
    let l = absorb(absorb(a, b), c);
    let r = absorb(a, absorb(b, c));
    assert forall|k: Seq<char>| #[trigger] l.contains_key(k) implies l[k] == r[k] by {
        assert(count_of(absorb(a, b), k) == capped(count_of(a, k) + count_of(b, k)));
        assert(count_of(absorb(b, c), k) == capped(count_of(b, k) + count_of(c, k)));
    }
    assert(l =~= r);
}

/// Merging tables does not depend on their order.
pub proof fn lemma_absorb_commutative(a: Map<Seq<char>, nat>, b: Map<Seq<char>, nat>)
    ensures
        absorb(a, b) == absorb(b, a),
{
    assert(absorb(a, b) =~= absorb(b, a));
}

/// Merging the entries of a table, as `iter` or `into_inner` list them, merges the table.
pub proof fn lemma_merge_listed(a: Map<Seq<char>, nat>, s: Seq<(Seq<char>, nat)>, b: Map<Seq<char>, nat>)
    requires
        is_table(b),
        listing(s, b),
    ensures
        absorb(a, tally(s)) == absorb(a, b),
{
    lemma_listing_tally(s, b);
}

/// Merging an empty table changes nothing, on either side.
pub proof fn lemma_absorb_empty(a: Map<Seq<char>, nat>)
    requires
        is_table(a),
    ensures
        absorb(a, Map::empty()) == a,
        absorb(Map::empty(), a) == a,
{
    assert(absorb(a, Map::empty()) =~= a);
    assert(absorb(Map::empty(), a) =~= a);
}

/// The sum of the counts of the pairs.
pub open spec fn total(s: Seq<(Seq<char>, nat)>) -> nat
    decreases s.len(),
{
    if s.len() == 0 {
        0
    } else {
        total(s.drop_last()) + s.last().1
    }
}

/// The sum, over the units of the pairs, of their multiplicities in `ms`.
spec fn occurrence_total(ms: Multiset<Seq<char>>, s: Seq<(Seq<char>, nat)>) -> nat
    decreases s.len(),
{
    if s.len() == 0 {
        0
    } else {
        occurrence_total(ms, s.drop_last()) + ms.count(s.last().0)
    }
}

/// How many of the pairs have the unit `x`.
spec fn hits(s: Seq<(Seq<char>, nat)>, x: Seq<char>) -> nat
    decreases s.len(),
{
    if s.len() == 0 {
        0
    } else {
        hits(s.drop_last(), x) + if s.last().0 == x {
            1nat
        } else {
            0nat
        }
    }
}

/// In the table counted from `units`, the count of each unit is how often it occurs there.
pub proof fn lemma_counts_are_occurrences(units: Seq<Seq<char>>)
    requires
        units.len() <= u32::MAX,
    ensures
        forall|k: Seq<char>| #[trigger] count_of(tally(ones(units)), k) == units.to_multiset().count(k),
        forall|k: Seq<char>| #[trigger] units.to_multiset().count(k) <= units.len(),
    decreases units.len(),
{
    broadcast use vstd::seq_lib::group_to_multiset_ensures;

    if units.len() == 0 {
        assert forall|k: Seq<char>| #[trigger] units.to_multiset().count(k) == 0 by {
            assert(!units.contains(k));
        }
        assert(ones(units).len() == 0);
    } else {
        let p = units.drop_last();
        let x = units.last();
        lemma_counts_are_occurrences(p);
        assert(units =~= p.push(x));
        assert(ones(units).drop_last() =~= ones(p));
        assert(ones(units).last() == (x, 1nat));
        assert(p.to_multiset().count(x) <= p.len());
        assert(units.to_multiset() == p.to_multiset().insert(x));
        let t = tally(ones(p));
        assert(tally(ones(units)) == t.insert(x, capped(count_of(t, x) + 1)));
        assert forall|k: Seq<char>| #[trigger] count_of(tally(ones(units)), k)
            == units.to_multiset().count(k) by {
            if k == x {
                assert(count_of(t, x) == p.to_multiset().count(x));
            } else {
                assert(count_of(t, k) == p.to_multiset().count(k));
            }
        }
    }
}

proof fn lemma_total_occurrences(ms: Multiset<Seq<char>>, s: Seq<(Seq<char>, nat)>)
    requires
        forall|i: int| 0 <= i < s.len() ==> (#[trigger] s[i]).1 == ms.count(s[i].0),
    ensures
        total(s) == occurrence_total(ms, s),
    decreases s.len(),
{
    if s.len() > 0 {
        let p = s.drop_last();
        assert forall|i: int| 0 <= i < p.len() implies (#[trigger] p[i]).1 == ms.count(p[i].0) by {
            assert(p[i] == s[i]);
        }
        lemma_total_occurrences(ms, p);
    }
}

proof fn lemma_occurrence_total_insert(ms: Multiset<Seq<char>>, s: Seq<(Seq<char>, nat)>, x: Seq<char>)
    ensures
        occurrence_total(ms.insert(x), s) == occurrence_total(ms, s) + hits(s, x),
    decreases s.len(),
{
    if s.len() > 0 {
        lemma_occurrence_total_insert(ms, s.drop_last(), x);
    }
}

proof fn lemma_hits_distinct(s: Seq<(Seq<char>, nat)>, x: Seq<char>, j: int)
    requires
        distinct_keys(s),
        0 <= j < s.len(),
        s[j].0 == x,
    ensures
        hits(s, x) == 1,
    decreases s.len(),
{
    let p = s.drop_last();
    if j == s.len() - 1 {
        assert forall|i: int| 0 <= i < p.len() implies (#[trigger] p[i]).0 != x by {
            assert(p[i] == s[i]);
        }
        lemma_hits_absent(p, x);
    } else {
        assert(p[j] == s[j]);
        lemma_hits_distinct(p, x, j);
    }
}

proof fn lemma_hits_absent(s: Seq<(Seq<char>, nat)>, x: Seq<char>)
    requires
        forall|i: int| 0 <= i < s.len() ==> (#[trigger] s[i]).0 != x,
    ensures
        hits(s, x) == 0,
    decreases s.len(),
{
    if s.len() > 0 {
        let p = s.drop_last();
        assert forall|i: int| 0 <= i < p.len() implies (#[trigger] p[i]).0 != x by {
            assert(p[i] == s[i]);
        }
        lemma_hits_absent(p, x);
        assert(s[s.len() - 1].0 != x);
    }
}

proof fn lemma_occurrences_cover(units: Seq<Seq<char>>, s: Seq<(Seq<char>, nat)>)
    requires
        distinct_keys(s),
        forall|u: int| 0 <= u < units.len() ==> exists|i: int| 0 <= i < s.len() && s[i].0 == #[trigger] units[u],
    ensures
        occurrence_total(units.to_multiset(), s) == units.len(),
    decreases units.len(),
{
    broadcast use vstd::seq_lib::group_to_multiset_ensures;

    if units.len() == 0 {
        assert(units.to_multiset() =~= Multiset::empty()) by {
            assert forall|k: Seq<char>| units.to_multiset().count(k) == 0 by {
                assert(!units.contains(k));
            }
        }
        lemma_occurrence_total_empty(s);
    } else {
        let p = units.drop_last();
        let x = units.last();
        assert(units =~= p.push(x));
        assert forall|u: int| 0 <= u < p.len() implies exists|i: int| 0 <= i < s.len() && s[i].0 == #[trigger] p[u] by {
            assert(p[u] == units[u]);
        }
        lemma_occurrences_cover(p, s);
        lemma_occurrence_total_insert(p.to_multiset(), s, x);
        assert(units[units.len() - 1] == x);
        let j = choose|i: int| 0 <= i < s.len() && s[i].0 == x;
        lemma_hits_distinct(s, x, j);
    }
}

proof fn lemma_occurrence_total_empty(s: Seq<(Seq<char>, nat)>)
    ensures
        occurrence_total(Multiset::empty(), s) == 0,
    decreases s.len(),
{
    if s.len() > 0 {
        lemma_occurrence_total_empty(s.drop_last());
    }
}

/// The counts of the table counted from `units` add up to the number of units.
pub proof fn lemma_counts_add_up(units: Seq<Seq<char>>, s: Seq<(Seq<char>, nat)>)
    requires
        units.len() <= u32::MAX,
        listing(s, tally(ones(units))),
    ensures
        total(s) == units.len(),
{
    broadcast use vstd::seq_lib::group_to_multiset_ensures;

    let t = tally(ones(units));
    let ms = units.to_multiset();
    lemma_counts_are_occurrences(units);
    assert forall|i: int| 0 <= i < s.len() implies (#[trigger] s[i]).1 == ms.count(s[i].0) by {
        assert(t.contains_key(s[i].0));
        assert(count_of(t, s[i].0) == ms.count(s[i].0));
    }
    lemma_total_occurrences(ms, s);
    assert forall|u: int| 0 <= u < units.len() implies exists|i: int| 0 <= i < s.len() && s[i].0 == #[trigger] units[u] by {
        assert(units.contains(units[u]));
        assert(count_of(t, units[u]) == ms.count(units[u]));
        assert(t.contains_key(units[u]));
    }
    lemma_occurrences_cover(units, s);
}

} // verus!
