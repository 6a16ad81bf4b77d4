//! Deterministic ordering of (token, count) entries: count descending,
//! then token ascending in lexicographic order.

use vstd::prelude::*;
use vstd::multiset::Multiset;
use vstd::relations::sorted_by;
use crate::text::{lex_lt, lemma_lex_lt_connected, lemma_lex_lt_asymmetric, lemma_lex_lt_transitive};

verus! {

/// Non-strict output order on entries: higher counts first, ties broken
/// by ascending lexicographic token order.
pub open spec fn entry_le(p: (Seq<char>, u64), q: (Seq<char>, u64)) -> bool {
    ||| p.1 > q.1
    ||| (p.1 == q.1 && (p.0 == q.0 || lex_lt(p.0, q.0)))
}

/// Strict output order on entries.
pub open spec fn entry_lt(p: (Seq<char>, u64), q: (Seq<char>, u64)) -> bool {
    ||| p.1 > q.1
    ||| (p.1 == q.1 && lex_lt(p.0, q.0))
}

/// The views of a vector of owned entries.
pub open spec fn entry_views(s: Seq<(String, u64)>) -> Seq<(Seq<char>, u64)> {
    s.map_values(|p: (String, u64)| (p.0@, p.1))
}

/// `entry_le` relates every pair of entries one way or the other.
pub proof fn lemma_entry_le_connected(p: (Seq<char>, u64), q: (Seq<char>, u64))
    ensures
        entry_le(p, q) || entry_le(q, p),
{
    if p.1 == q.1 {
        lemma_lex_lt_connected(p.0, q.0);
    }
}

/// `entry_le` is transitive.
pub proof fn lemma_entry_le_transitive(p: (Seq<char>, u64), q: (Seq<char>, u64), r: (Seq<char>, u64))
    requires
        entry_le(p, q),
        entry_le(q, r),
    ensures
        entry_le(p, r),
{
    if p.1 == q.1 && q.1 == r.1 && lex_lt(p.0, q.0) && lex_lt(q.0, r.0) {
        lemma_lex_lt_transitive(p.0, q.0, r.0);
    }
}

/// Compares two owned entries in the output order.
fn entry_le_exec(a: &(String, u64), b: &(String, u64)) -> (r: bool)
    ensures
        r == entry_le((a.0@, a.1), (b.0@, b.1)),
{
    if a.1 != b.1 {
        a.1 > b.1
    } else if crate::text::str_eq(a.0.as_str(), b.0.as_str()) {
        true
    } else {
        crate::text::str_lt(a.0.as_str(), b.0.as_str())
    }
}

/// Sorts entries into the output order by repeatedly extracting the
/// least remaining entry.
pub fn sort_entries(v: Vec<(String, u64)>) -> (r: Vec<(String, u64)>)
    ensures
        sorted_by(entry_views(r@), |p: (Seq<char>, u64), q: (Seq<char>, u64)| entry_le(p, q)),
        entry_views(r@).to_multiset() == entry_views(v@).to_multiset(),
{
    broadcast use vstd::seq_lib::group_to_multiset_ensures;

    let ghost leq = |p: (Seq<char>, u64), q: (Seq<char>, u64)| entry_le(p, q);
    let ghost orig = entry_views(v@);
    let mut src = v;
    let mut out: Vec<(String, u64)> = Vec::new();
    proof {
        assert(entry_views(out@) =~= Seq::<(Seq<char>, u64)>::empty());
        assert(entry_views(out@).to_multiset().add(entry_views(src@).to_multiset())
            =~= orig.to_multiset());
    }
    while src.len() > 0
        invariant
            entry_views(out@).to_multiset().add(entry_views(src@).to_multiset())
                == orig.to_multiset(),
            sorted_by(entry_views(out@), leq),
            leq == (|p: (Seq<char>, u64), q: (Seq<char>, u64)| entry_le(p, q)),
            forall|i: int, j: int|
                0 <= i < out@.len() && 0 <= j < src@.len() ==> entry_le(
                    entry_views(out@)[i],
                    entry_views(src@)[j],
                ),
        decreases src.len(),
    {
        let ghost sv = entry_views(src@);
        let n = src.len();
        let mut best: usize = 0;
        let mut k: usize = 1;
        while k < n
            invariant
                1 <= k <= n,
                best < k,
                n == src@.len(),
                sv == entry_views(src@),
                forall|j: int| 0 <= j < k ==> entry_le(sv[best as int], sv[j]),
            decreases n - k,
        {
            if entry_le_exec(&src[k], &src[best]) {
                proof {
                    assert forall|j: int| 0 <= j < k + 1 implies entry_le(sv[k as int], sv[j]) by {
                        if j < k {
                            lemma_entry_le_transitive(sv[k as int], sv[best as int], sv[j]);
                        }
                    }
                }
                best = k;
            } else {
                proof {
                    lemma_entry_le_connected(sv[k as int], sv[best as int]);
                }
            }
            k += 1;
        }
        let e = src.remove(best);
        let ghost ev = (e.0@, e.1);
        proof {
            assert(entry_views(src@) =~= sv.remove(best as int));
            assert(sv[best as int] == ev);
        }
        let ghost out0 = entry_views(out@);
        out.push(e);
        proof {
            broadcast use vstd::seq_lib::group_to_multiset_ensures;

            assert(entry_views(out@) =~= out0.push(ev));
            let outms = out0.push(ev).to_multiset();
            assert(outms == out0.to_multiset().insert(ev));
            assert(sv.remove(best as int).to_multiset() == sv.to_multiset().remove(ev));
            assert(sv.to_multiset().count(ev) > 0);
            assert(out0.to_multiset().insert(ev).add(sv.to_multiset().remove(ev))
                =~= out0.to_multiset().add(sv.to_multiset()));
            assert forall|i: int, j: int|
                0 <= i < out@.len() && 0 <= j < entry_views(src@).len() implies entry_le(
                entry_views(out@)[i],
                entry_views(src@)[j],
            ) by {
                let nsv = sv.remove(best as int);
                assert(nsv[j] == if j < best { sv[j] } else { sv[j + 1] });
                if i < out0.len() {
                    lemma_entry_le_transitive(out0[i], ev, nsv[j]);
                }
            }
            assert forall|i: int, j: int|
                0 <= i < j < out@.len() implies leq(entry_views(out@)[i], entry_views(out@)[j]) by {
                if j < out0.len() {
                    assert(leq(out0[i], out0[j]));
                }
            }
        }
    }
    proof {
        assert(entry_views(src@) =~= Seq::<(Seq<char>, u64)>::empty());
        assert(entry_views(out@).to_multiset().add(Multiset::<(Seq<char>, u64)>::empty())
            =~= entry_views(out@).to_multiset());
    }
    out
}

/// A strictly sorted sequence has no repeated entry.
proof fn lemma_strict_sorted_distinct(s: Seq<(Seq<char>, u64)>)
    ensures
        (forall|i: int, j: int| 0 <= i < j < s.len() ==> entry_lt(s[i], s[j])) ==> (forall|
            i: int,
            j: int,
        | 0 <= i < j < s.len() ==> s[i] != s[j]),
{
    if forall|i: int, j: int| 0 <= i < j < s.len() ==> entry_lt(s[i], s[j]) {
        assert forall|i: int, j: int| 0 <= i < j < s.len() implies s[i] != s[j] by {
            assert(entry_lt(s[i], s[j]));
            lemma_lex_lt_asymmetric(s[i].0, s[j].0);
        }
    }
}

/// Two strictly sorted sequences holding the same entries are identical:
/// the ranked output is determined by its entry set alone.
pub proof fn lemma_strict_sorted_unique(a: Seq<(Seq<char>, u64)>, b: Seq<(Seq<char>, u64)>)
    requires
        forall|i: int, j: int| 0 <= i < j < a.len() ==> entry_lt(a[i], a[j]),
        forall|i: int, j: int| 0 <= i < j < b.len() ==> entry_lt(b[i], b[j]),
        a.to_set() == b.to_set(),
    ensures
        a == b,
    decreases a.len(),
{
    if a.len() == 0 {
        if b.len() > 0 {
            assert(a.to_set().contains(b[0]));
        }
        assert(a =~= b);
    } else {
        assert(b.to_set().contains(a[0]));
        let k = choose|k: int| 0 <= k < b.len() && b[k] == a[0];
        assert(a.to_set().contains(b[0]));
        let l = choose|l: int| 0 <= l < a.len() && a[l] == b[0];
        if k > 0 {
            assert(entry_lt(b[0], b[k]));
            if l > 0 {
                assert(entry_lt(a[0], a[l]));
                lemma_lex_lt_asymmetric(a[0].0, b[0].0);
            }
        }
        assert(a[0] == b[0]);
        let at = a.drop_first();
        let bt = b.drop_first();
        lemma_strict_sorted_distinct(a);
        lemma_strict_sorted_distinct(b);
        assert forall|i: int, j: int| 0 <= i < j < at.len() implies entry_lt(at[i], at[j]) by {
            assert(at[i] == a[i + 1] && at[j] == a[j + 1]);
        }
        assert forall|i: int, j: int| 0 <= i < j < bt.len() implies entry_lt(bt[i], bt[j]) by {
            assert(bt[i] == b[i + 1] && bt[j] == b[j + 1]);
        }
        assert(at.to_set() =~= bt.to_set()) by {
            assert forall|e: (Seq<char>, u64)| at.contains(e) implies bt.contains(e) by {
                let i = choose|i: int| 0 <= i < at.len() && at[i] == e;
                assert(a[i + 1] == e);
                assert(a[0] != e);
                assert(b.to_set().contains(e));
                let j = choose|j: int| 0 <= j < b.len() && b[j] == e;
                assert(j != 0);
                assert(bt[j - 1] == e);
            }
            assert forall|e: (Seq<char>, u64)| bt.contains(e) implies at.contains(e) by {
                let i = choose|i: int| 0 <= i < bt.len() && bt[i] == e;
                assert(b[i + 1] == e);
                assert(b[0] != e);
                assert(a.to_set().contains(e));
                let j = choose|j: int| 0 <= j < a.len() && a[j] == e;
                assert(j != 0);
                assert(at[j - 1] == e);
            }
        }
        lemma_strict_sorted_unique(at, bt);
        assert(a.len() == b.len());
        assert forall|i: int| 0 <= i < a.len() implies a[i] == b[i] by {
            if i > 0 {
                assert(a[i] == at[i - 1]);
                assert(b[i] == bt[i - 1]);
            }
        }
        assert(a =~= b);
    }
}

} // verus!
