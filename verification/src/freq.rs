//! Frequency maps: token-to-count tables with additive merging.

use vstd::prelude::*;
use crate::rank::{entry_le, entry_lt, entry_views, sort_entries, lemma_strict_sorted_unique};
use crate::text::str_eq;

verus! {

/// Total count that `s` assigns to token `t` (summing duplicates, so the
/// definition needs no well-formedness assumption).
pub open spec fn key_count(s: Seq<(Seq<char>, u64)>, t: Seq<char>) -> nat
    decreases s.len(),
{
    if s.len() == 0 {
        0
    } else {
        (if s[0].0 == t {
            s[0].1 as nat
        } else {
            0
        }) + key_count(s.drop_first(), t)
    }
}

/// Sum of all counts in `s`.
pub open spec fn sum_counts(s: Seq<(Seq<char>, u64)>) -> nat
    decreases s.len(),
{
    if s.len() == 0 {
        0
    } else {
        s[0].1 as nat + sum_counts(s.drop_first())
    }
}

/// No two entries share a token.
pub open spec fn distinct_keys(s: Seq<(Seq<char>, u64)>) -> bool {
    forall|i: int, j: int| 0 <= i < j < s.len() ==> s[i].0 != s[j].0
}

proof fn lemma_key_count_absent(s: Seq<(Seq<char>, u64)>, t: Seq<char>)
    requires
        forall|j: int| 0 <= j < s.len() ==> s[j].0 != t,
    ensures
        key_count(s, t) == 0,
    decreases s.len(),
{
    if s.len() != 0 {
        lemma_key_count_absent(s.drop_first(), t);
    }
}

proof fn lemma_key_count_update(s: Seq<(Seq<char>, u64)>, i: int, v: u64, t: Seq<char>)
    requires
        0 <= i < s.len(),
    ensures
        key_count(s.update(i, (s[i].0, v)), t) == if s[i].0 == t {
            key_count(s, t) - s[i].1 + v
        } else {
            key_count(s, t) as int
        },
    decreases s.len(),
{
    let s2 = s.update(i, (s[i].0, v));
    if i == 0 {
        assert(s2.drop_first() =~= s.drop_first());
    } else {
        assert(s2.drop_first() =~= s.drop_first().update(i - 1, (s.drop_first()[i - 1].0, v)));
        lemma_key_count_update(s.drop_first(), i - 1, v, t);
    }
}

proof fn lemma_sum_update(s: Seq<(Seq<char>, u64)>, i: int, v: u64)
    requires
        0 <= i < s.len(),
    ensures
        sum_counts(s.update(i, (s[i].0, v))) == sum_counts(s) - s[i].1 + v,
    decreases s.len(),
{
    let s2 = s.update(i, (s[i].0, v));
    if i == 0 {
        assert(s2.drop_first() =~= s.drop_first());
    } else {
        assert(s2.drop_first() =~= s.drop_first().update(i - 1, (s.drop_first()[i - 1].0, v)));
        lemma_sum_update(s.drop_first(), i - 1, v);
    }
}

proof fn lemma_key_count_push(s: Seq<(Seq<char>, u64)>, e: (Seq<char>, u64), t: Seq<char>)
    ensures
        key_count(s.push(e), t) == key_count(s, t) + if e.0 == t {
            e.1 as nat
        } else {
            0
        },
    decreases s.len(),
{
    if s.len() == 0 {
        assert(s.push(e).drop_first() =~= s);
    } else {
        assert(s.push(e).drop_first() =~= s.drop_first().push(e));
        lemma_key_count_push(s.drop_first(), e, t);
    }
}

proof fn lemma_sum_push(s: Seq<(Seq<char>, u64)>, e: (Seq<char>, u64))
    ensures
        sum_counts(s.push(e)) == sum_counts(s) + e.1,
    decreases s.len(),
{
    if s.len() == 0 {
        assert(s.push(e).drop_first() =~= s);
    } else {
        assert(s.push(e).drop_first() =~= s.drop_first().push(e));
        lemma_sum_push(s.drop_first(), e);
    }
}

proof fn lemma_entry_le_sum(s: Seq<(Seq<char>, u64)>, i: int)
    requires
        0 <= i < s.len(),
    ensures
        s[i].1 <= sum_counts(s),
    decreases s.len(),
{
    if i > 0 {
        lemma_entry_le_sum(s.drop_first(), i - 1);
    }
}

/// A token-to-count table.  Entries hold distinct tokens with counts of at
/// least one; an absent token has count zero.
pub struct FreqMap {
    pub(crate) entries: Vec<(String, u64)>,
    pub(crate) total: u64,
}

impl FreqMap {
    /// The entries as mathematical values, in table order.
    pub closed spec fn model(self) -> Seq<(Seq<char>, u64)> {
        self.entries@.map_values(|p: (String, u64)| (p.0@, p.1))
    }

    /// The count the map assigns to `t`; zero when `t` is absent.
    pub open spec fn count(self, t: Seq<char>) -> nat {
        key_count(self.model(), t)
    }

    /// Sum of all counts in the map.
    pub open spec fn total_count(self) -> nat {
        sum_counts(self.model())
    }

    /// Well-formedness: distinct tokens, positive counts, and a running
    /// total equal to the sum of all counts.
    pub closed spec fn wf(self) -> bool {
        &&& distinct_keys(self.model())
        &&& forall|i: int| 0 <= i < self.model().len() ==> self.model()[i].1 >= 1
        &&& self.total == sum_counts(self.model())
    }

    /// A well-formed map's grand total fits in a counter.
    pub proof fn lemma_wf_total(self)
        requires
            self.wf(),
        ensures
            self.total_count() <= u64::MAX,
    {
    }

    /// An empty map: every token has count zero.
    pub fn new() -> (r: Self)
        ensures
            r.wf(),
            forall|t: Seq<char>| r.count(t) == 0,
            r.total_count() == 0,
    {
        let r = FreqMap { entries: Vec::new(), total: 0 };
        proof {
            assert(r.model() =~= Seq::<(Seq<char>, u64)>::empty());
        }
        r
    }

    /// Adds `k` occurrences of `word`, leaving every other count as it
    /// was.
    pub fn add(&mut self, word: &str, k: u64)
        requires
            old(self).wf(),
            k >= 1,
            old(self).total_count() + k <= u64::MAX,
        ensures
            final(self).wf(),
            final(self).count(word@) == old(self).count(word@) + k,
            forall|t: Seq<char>| t != word@ ==> final(self).count(t) == old(self).count(t),
            final(self).total_count() == old(self).total_count() + k,
    {
        let ghost m0 = self.model();
        let n = self.entries.len();
        let mut i: usize = 0;
        while i < n
            invariant
                i <= n,
                n == self.entries.len(),
                self.wf(),
                self.model() == m0,
                *self == *old(self),
                self.total_count() + k <= u64::MAX,
                k >= 1,
                forall|j: int| 0 <= j < i ==> m0[j].0 != word@,
            decreases n - i,
        {
            if str_eq(self.entries[i].0.as_str(), word) {
                let c = self.entries[i].1;
                proof {
                    assert(m0[i as int].1 == c && m0[i as int].0 == word@);
                    lemma_entry_le_sum(m0, i as int);
                }
                let w = self.entries[i].0.clone();
                self.entries.set(i, (w, c + k));
                self.total = self.total + k;
                proof {
                    let m1 = self.model();
                    assert(m1 =~= m0.update(i as int, (m0[i as int].0, (c + k) as u64)));
                    assert forall|t: Seq<char>| true implies key_count(m1, t) == if t == word@ {
                        key_count(m0, t) + k
                    } else {
                        key_count(m0, t) as int
                    } by {
                        lemma_key_count_update(m0, i as int, (c + k) as u64, t);
                    }
                    lemma_sum_update(m0, i as int, (c + k) as u64);
                    assert forall|a: int, b: int| 0 <= a < b < m1.len() implies m1[a].0
                        != m1[b].0 by {
                        assert(m1[a].0 == m0[a].0 && m1[b].0 == m0[b].0);
                    }
                }
                return;
            }
            i += 1;
        }
        self.entries.push((word.to_owned(), k));
        self.total = self.total + k;
        proof {
            let m1 = self.model();
            assert(m1 =~= m0.push((word@, k)));
            lemma_key_count_absent(m0, word@);
            assert forall|t: Seq<char>| true implies key_count(m1, t) == key_count(m0, t)
                + if t == word@ {
                k as nat
            } else {
                0
            } by {
                lemma_key_count_push(m0, (word@, k), t);
            }
            lemma_sum_push(m0, (word@, k));
            assert forall|a: int, b: int| 0 <= a < b < m1.len() implies m1[a].0 != m1[b].0 by {
                if b < m1.len() - 1 {
                    assert(m1[a].0 == m0[a].0 && m1[b].0 == m0[b].0);
                } else {
                    assert(m1[a].0 == m0[a].0 && m1[b].0 == word@);
                }
            }
        }
    }

    /// The count stored for `word`.
    pub fn get(&self, word: &str) -> (r: u64)
        requires
            self.wf(),
        ensures
            r == self.count(word@),
    {
        let n = self.entries.len();
        let mut i: usize = 0;
        while i < n
            invariant
                i <= n,
                n == self.entries.len(),
                self.wf(),
                forall|j: int| 0 <= j < i ==> self.model()[j].0 != word@,
            decreases n - i,
        {
            if str_eq(self.entries[i].0.as_str(), word) {
                let ghost m = self.model();
                proof {
                    lemma_key_count_split(m, i as int, word@);
                }
                return self.entries[i].1;
            }
            i += 1;
        }
        proof {
            lemma_key_count_absent(self.model(), word@);
        }
        0
    }

    /// The sum of all counts, as stored in the running total.
    pub fn total(&self) -> (r: u64)
        requires
            self.wf(),
        ensures
            r == self.total_count(),
    {
        self.total
    }

    /// Converts the map into its deterministically ordered output form:
    /// count descending, ties broken by ascending lexicographic token
    /// order.
    pub fn into_ranked(self) -> (r: Vec<(String, u64)>)
        requires
            self.wf(),
        ensures
            ranked(entry_views(r@), self),
    {
        broadcast use vstd::seq_lib::group_to_multiset_ensures;

        let ghost m = self;
        let sorted = sort_entries(self.entries);
        proof {
            let mv = m.model();
            let rv = entry_views(sorted@);
            assert(entry_views(m.entries@) =~= mv);
            assert(rv.to_multiset() == mv.to_multiset());
            assert forall|i: int| 0 <= i < rv.len() implies m.count((#[trigger] rv[i]).0)
                == rv[i].1 && rv[i].1 >= 1 by {
                assert(rv.contains(rv[i]));
                assert(rv.to_multiset().count(rv[i]) > 0);
                assert(mv.contains(rv[i]));
                let k = choose|k: int| 0 <= k < mv.len() && mv[k] == rv[i];
                lemma_key_count_split(mv, k, rv[i].0);
            }
            assert forall|t: Seq<char>| m.count(t) > 0 implies exists|i: int|
                0 <= i < rv.len() && (#[trigger] rv[i]).0 == t by {
                lemma_key_count_pos(mv, t);
                let k = choose|k: int| 0 <= k < mv.len() && (#[trigger] mv[k]).0 == t;
                assert(mv.contains(mv[k]));
                assert(mv.to_multiset().count(mv[k]) > 0);
                assert(rv.contains(mv[k]));
                let i = choose|i: int| 0 <= i < rv.len() && rv[i] == mv[k];
                assert(rv[i].0 == t);
            }
            lemma_distinct_count_le_one(mv);
            assert forall|i: int, j: int| 0 <= i < j < rv.len() implies entry_lt(rv[i], rv[j]) by {
                let leq = |p: (Seq<char>, u64), q: (Seq<char>, u64)| entry_le(p, q);
                assert(leq(rv[i], rv[j]));
                if rv[i] == rv[j] {
                    lemma_dup_count_ge_two(rv, i, j);
                    assert(false);
                }
                if rv[i].0 == rv[j].0 {
                    assert(rv[i].1 == m.count(rv[i].0) && rv[j].1 == m.count(rv[j].0));
                    assert(rv[i] == rv[j]);
                    assert(false);
                }
            }
        }
        sorted
    }

    /// Pointwise addition of `other` into `self`: for every token the new
    /// count is the sum of the two old ones.
    pub fn merge(&mut self, other: &FreqMap)
        requires
            old(self).wf(),
            other.wf(),
            old(self).total_count() + other.total_count() <= u64::MAX,
        ensures
            final(self).wf(),
            forall|t: Seq<char>| final(self).count(t) == old(self).count(t) + other.count(t),
            final(self).total_count() == old(self).total_count() + other.total_count(),
    {
        let ghost m0 = *old(self);
        let ghost om = other.model();
        let n = other.entries.len();
        let mut i: usize = 0;
        proof {
            assert(om.skip(0) =~= om);
        }
        while i < n
            invariant
                i <= n,
                n == other.entries.len(),
                other.wf(),
                om == other.model(),
                self.wf(),
                forall|t: Seq<char>| self.count(t) + key_count(om.skip(i as int), t) == m0.count(t)
                    + key_count(om, t),
                self.total_count() + sum_counts(om.skip(i as int)) == m0.total_count()
                    + sum_counts(om),
                m0.total_count() + sum_counts(om) <= u64::MAX,
            decreases n - i,
        {
            let ghost rest = om.skip(i as int);
            proof {
                assert(rest[0] == om[i as int]);
                assert(rest.drop_first() =~= om.skip(i as int + 1));
                assert(sum_counts(rest) == om[i as int].1 + sum_counts(om.skip(i as int + 1)));
            }
            let (w, c) = (&other.entries[i].0, other.entries[i].1);
            assert(om[i as int].1 == c && om[i as int].0 == w@);
            self.add(w.as_str(), c);
            i += 1;
        }
        proof {
            assert(om.skip(n as int) =~= Seq::<(Seq<char>, u64)>::empty());
            assert forall|t: Seq<char>| final(self).count(t) == m0.count(t) + other.count(t) by {
                assert(key_count(om.skip(n as int), t) == 0);
            }
        }
    }
}

/// What it means for `s` to be the ranked form of `m`: strictly ordered
/// by count descending then token ascending, every entry carrying the
/// map's count for its token, and every counted token present.
pub open spec fn ranked(s: Seq<(Seq<char>, u64)>, m: FreqMap) -> bool {
    &&& forall|i: int, j: int| 0 <= i < j < s.len() ==> entry_lt(s[i], s[j])
    &&& forall|i: int| 0 <= i < s.len() ==> m.count((#[trigger] s[i]).0) == s[i].1 && s[i].1 >= 1
    &&& forall|t: Seq<char>| m.count(t) > 0 ==> exists|i: int|
        0 <= i < s.len() && (#[trigger] s[i]).0 == t
}

proof fn lemma_key_count_pos(s: Seq<(Seq<char>, u64)>, t: Seq<char>)
    requires
        key_count(s, t) > 0,
    ensures
        exists|k: int| 0 <= k < s.len() && (#[trigger] s[k]).0 == t,
    decreases s.len(),
{
    if s.len() != 0 && s[0].0 != t {
        lemma_key_count_pos(s.drop_first(), t);
        let k = choose|k: int| 0 <= k < s.drop_first().len() && (#[trigger] s.drop_first()[k]).0 == t;
        assert(s[k + 1].0 == t);
    }
}

proof fn lemma_distinct_count_le_one(s: Seq<(Seq<char>, u64)>)
    requires
        distinct_keys(s),
    ensures
        forall|e: (Seq<char>, u64)| s.to_multiset().count(e) <= 1,
    decreases s.len(),
{
    broadcast use vstd::seq_lib::group_to_multiset_ensures;

    if s.len() == 0 {
    } else {
        let d = s.drop_first();
        assert forall|i: int, j: int| 0 <= i < j < d.len() implies d[i].0 != d[j].0 by {
            assert(d[i] == s[i + 1] && d[j] == s[j + 1]);
        }
        lemma_distinct_count_le_one(d);
        assert(d.insert(0, s[0]) =~= s);
        vstd::seq_lib::to_multiset_insert(d, 0, s[0]);
        assert forall|e: (Seq<char>, u64)| s.to_multiset().count(e) <= 1 by {
            assert(s.to_multiset() == d.to_multiset().insert(s[0]));
            if e == s[0] {
                if d.to_multiset().count(e) > 0 {
                    assert(d.contains(e));
                    let k = choose|k: int| 0 <= k < d.len() && d[k] == e;
                    assert(s[k + 1].0 == s[0].0);
                    assert(false);
                }
            }
        }
    }
}

proof fn lemma_dup_count_ge_two(s: Seq<(Seq<char>, u64)>, i: int, j: int)
    requires
        0 <= i < j < s.len(),
        s[i] == s[j],
    ensures
        s.to_multiset().count(s[i]) >= 2,
{
    broadcast use vstd::seq_lib::group_to_multiset_ensures;

    let r = s.remove(i);
    assert(r.to_multiset() == s.to_multiset().remove(s[i]));
    assert(r[j - 1] == s[j]);
    assert(r.contains(s[i]));
    assert(r.to_multiset().count(s[i]) > 0);
}

/// Ranking is deterministic: any two ranked forms of one frequency map
/// are the same sequence, so repeated runs over identical input give
/// byte-identical output.
pub proof fn lemma_rank_deterministic(m: FreqMap, a: Seq<(Seq<char>, u64)>, b: Seq<(Seq<char>, u64)>)
    requires
        ranked(a, m),
        ranked(b, m),
    ensures
        a == b,
{
    assert forall|e: (Seq<char>, u64)| a.contains(e) implies b.contains(e) by {
        let i = choose|i: int| 0 <= i < a.len() && a[i] == e;
        assert(m.count(e.0) == e.1 && e.1 >= 1);
        let j = choose|j: int| 0 <= j < b.len() && (#[trigger] b[j]).0 == e.0;
        assert(b[j].1 == m.count(e.0));
        assert(b[j] == e);
    }
    assert forall|e: (Seq<char>, u64)| b.contains(e) implies a.contains(e) by {
        let i = choose|i: int| 0 <= i < b.len() && b[i] == e;
        assert(m.count(e.0) == e.1 && e.1 >= 1);
        let j = choose|j: int| 0 <= j < a.len() && (#[trigger] a[j]).0 == e.0;
        assert(a[j].1 == m.count(e.0));
        assert(a[j] == e);
    }
    assert(a.to_set() =~= b.to_set());
    lemma_strict_sorted_unique(a, b);
}

/// The count that folding all of `maps` together assigns to `t`.
pub open spec fn merged_count(maps: Seq<FreqMap>, t: Seq<char>) -> nat
    decreases maps.len(),
{
    if maps.len() == 0 {
        0
    } else {
        maps[0].count(t) + merged_count(maps.drop_first(), t)
    }
}

/// The sum of the totals of all of `maps`.
pub open spec fn merged_total(maps: Seq<FreqMap>) -> nat
    decreases maps.len(),
{
    if maps.len() == 0 {
        0
    } else {
        maps[0].total_count() + merged_total(maps.drop_first())
    }
}

/// Appending one more local map adds its counts to the fold.
pub proof fn lemma_merged_count_push(maps: Seq<FreqMap>, m: FreqMap, t: Seq<char>)
    ensures
        merged_count(maps.push(m), t) == merged_count(maps, t) + m.count(t),
    decreases maps.len(),
{
    if maps.len() == 0 {
        assert(maps.push(m).drop_first() =~= maps);
    } else {
        assert(maps.push(m).drop_first() =~= maps.drop_first().push(m));
        lemma_merged_count_push(maps.drop_first(), m, t);
    }
}

/// Appending one more local map adds its total to the fold.
pub proof fn lemma_merged_total_push(maps: Seq<FreqMap>, m: FreqMap)
    ensures
        merged_total(maps.push(m)) == merged_total(maps) + m.total_count(),
    decreases maps.len(),
{
    if maps.len() == 0 {
        assert(maps.push(m).drop_first() =~= maps);
    } else {
        assert(maps.push(m).drop_first() =~= maps.drop_first().push(m));
        lemma_merged_total_push(maps.drop_first(), m);
    }
}

proof fn lemma_merged_count_remove(maps: Seq<FreqMap>, i: int, t: Seq<char>)
    requires
        0 <= i < maps.len(),
    ensures
        merged_count(maps.remove(i), t) == merged_count(maps, t) - maps[i].count(t),
    decreases maps.len(),
{
    if i == 0 {
        assert(maps.remove(0) =~= maps.drop_first());
    } else {
        assert(maps.remove(i).drop_first() =~= maps.drop_first().remove(i - 1));
        lemma_merged_count_remove(maps.drop_first(), i - 1, t);
    }
}

proof fn lemma_merged_count_perm(a: Seq<FreqMap>, b: Seq<FreqMap>, t: Seq<char>)
    requires
        a.to_multiset() == b.to_multiset(),
    ensures
        merged_count(a, t) == merged_count(b, t),
    decreases a.len(),
{
    broadcast use vstd::seq_lib::group_to_multiset_ensures;

    if a.len() == 0 {
        assert(b.to_multiset().len() == 0);
    } else {
        let x = a[0];
        assert(a.to_multiset().contains(x));
        assert(b.contains(x));
        let j = choose|j: int| 0 <= j < b.len() && b[j] == x;
        assert(a.drop_first() =~= a.remove(0));
        assert(a.remove(0).to_multiset() == a.to_multiset().remove(x));
        assert(b.remove(j).to_multiset() == b.to_multiset().remove(x));
        lemma_merged_count_perm(a.drop_first(), b.remove(j), t);
        lemma_merged_count_remove(b, j, t);
    }
}

/// Merge order makes no difference: folding local maps together in any
/// permutation yields the same token set with the same per-token counts.
pub proof fn lemma_merge_order_irrelevant(a: Seq<FreqMap>, b: Seq<FreqMap>)
    requires
        a.to_multiset() == b.to_multiset(),
    ensures
        forall|t: Seq<char>| merged_count(a, t) == merged_count(b, t),
{
    assert forall|t: Seq<char>| merged_count(a, t) == merged_count(b, t) by {
        lemma_merged_count_perm(a, b, t);
    }
}

/// Folds every local map into one global map by pointwise addition.
/// Returns `None` exactly when the grand total would not fit a counter.
pub fn merge_all(maps: &Vec<FreqMap>) -> (r: Option<FreqMap>)
    requires
        forall|i: int| 0 <= i < maps@.len() ==> (#[trigger] maps@[i]).wf(),
    ensures
        match r {
            Some(g) => {
                &&& g.wf()
                &&& forall|t: Seq<char>| g.count(t) == merged_count(maps@, t)
                &&& g.total_count() == merged_total(maps@)
                &&& merged_total(maps@) <= u64::MAX
            },
            None => merged_total(maps@) > u64::MAX,
        },
{
    let mut global = FreqMap::new();
    let n = maps.len();
    let mut i: usize = 0;
    proof {
        assert(maps@.skip(0) =~= maps@);
    }
    while i < n
        invariant
            i <= n,
            n == maps@.len(),
            forall|i: int| 0 <= i < maps@.len() ==> (#[trigger] maps@[i]).wf(),
            global.wf(),
            forall|t: Seq<char>| global.count(t) + merged_count(maps@.skip(i as int), t)
                == merged_count(maps@, t),
            global.total_count() + merged_total(maps@.skip(i as int)) == merged_total(maps@),
        decreases n - i,
    {
        let ghost rest = maps@.skip(i as int);
        proof {
            assert(rest[0] == maps@[i as int]);
            assert(rest.drop_first() =~= maps@.skip(i as int + 1));
        }
        let m = &maps[i];
        let t = m.total();
        if t > u64::MAX - global.total() {
            proof {
                assert(merged_total(rest) >= m.total_count());
            }
            return None;
        }
        global.merge(m);
        i += 1;
    }
    proof {
        assert(maps@.skip(n as int) =~= Seq::<FreqMap>::empty());
    }
    Some(global)
}

/// Splitting a table at a matching entry: when all entries before `i`
/// miss `t` and entry `i` hits it, under distinct keys the count is
/// exactly that entry's.
proof fn lemma_key_count_split(s: Seq<(Seq<char>, u64)>, i: int, t: Seq<char>)
    requires
        0 <= i < s.len(),
        distinct_keys(s),
        s[i].0 == t,
    ensures
        key_count(s, t) == s[i].1,
    decreases s.len(),
{
    if i == 0 {
        assert forall|j: int| 0 <= j < s.drop_first().len() implies s.drop_first()[j].0 != t by {
            assert(s.drop_first()[j] == s[j + 1]);
        }
        lemma_key_count_absent(s.drop_first(), t);
    } else {
        assert(s[0].0 != t);
        lemma_key_count_split(s.drop_first(), i - 1, t);
    }
}

} // verus!
