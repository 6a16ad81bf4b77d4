//! The whole pipeline, run sequentially: partition the texts, tally each
//! partition into a local frequency map, merge the locals, rank.  The
//! contract fixes the output so that any scheduling of the same work
//! yields the same result.

use vstd::prelude::*;
use crate::exclusion::ExclusionSet;
use crate::freq::{merge_all, merged_count, merged_total, ranked, FreqMap,
    lemma_merged_count_push, lemma_merged_total_push};
use crate::partition::{chunk_views, partition};
use crate::rank::{entry_lt, entry_views};
use crate::segment::Segmenter;
use crate::worker::{corpus_count, corpus_total, lemma_corpus_count_concat,
    lemma_corpus_total_concat, worker_counts};

verus! {

/// The texts of every chunk, as character sequences.
pub open spec fn deep_chunks(s: Seq<Vec<String>>) -> Seq<Seq<Seq<char>>> {
    s.map_values(|v: Vec<String>| v.deep_view())
}

/// Sum over chunks of the counted occurrences of `t`.
pub open spec fn chunks_count(cs: Seq<Seq<Seq<char>>>, excludes: Set<Seq<char>>, t: Seq<char>) -> nat
    decreases cs.len(),
{
    if cs.len() == 0 {
        0
    } else {
        corpus_count(cs[0], excludes, t) + chunks_count(cs.drop_first(), excludes, t)
    }
}

/// Sum over chunks of the counted-token totals.
pub open spec fn chunks_total(cs: Seq<Seq<Seq<char>>>, excludes: Set<Seq<char>>) -> nat
    decreases cs.len(),
{
    if cs.len() == 0 {
        0
    } else {
        corpus_total(cs[0], excludes) + chunks_total(cs.drop_first(), excludes)
    }
}

/// Chunked counting agrees with counting over the concatenated corpus.
proof fn lemma_chunks_flatten(cs: Seq<Seq<Seq<char>>>, excludes: Set<Seq<char>>)
    ensures
        forall|t: Seq<char>| chunks_count(cs, excludes, t) == corpus_count(
            cs.flatten(),
            excludes,
            t,
        ),
        chunks_total(cs, excludes) == corpus_total(cs.flatten(), excludes),
    decreases cs.len(),
{
    if cs.len() == 0 {
        assert(cs.flatten() =~= Seq::<Seq<char>>::empty());
    } else {
        lemma_chunks_flatten(cs.drop_first(), excludes);
        assert(cs.flatten() == cs.first() + cs.drop_first().flatten());
        assert forall|t: Seq<char>| chunks_count(cs, excludes, t) == corpus_count(
            cs.flatten(),
            excludes,
            t,
        ) by {
            lemma_corpus_count_concat(cs.first(), cs.drop_first().flatten(), excludes, t);
            assert(chunks_count(cs.drop_first(), excludes, t) == corpus_count(
                cs.drop_first().flatten(),
                excludes,
                t,
            ));
            assert(chunks_count(cs, excludes, t) == corpus_count(cs[0], excludes, t)
                + chunks_count(cs.drop_first(), excludes, t));
            assert(cs[0] == cs.first());
        }
        lemma_corpus_total_concat(cs.first(), cs.drop_first().flatten(), excludes);
    }
}

/// What it means for `s` to be the pipeline's output for a corpus:
/// strictly ordered by count descending then token ascending, every
/// entry carrying the corpus count of its token, every counted token
/// present.
pub open spec fn ranked_output(
    s: Seq<(Seq<char>, u64)>,
    texts: Seq<Seq<char>>,
    excludes: Set<Seq<char>>,
) -> bool {
    &&& forall|i: int, j: int| 0 <= i < j < s.len() ==> entry_lt(s[i], s[j])
    &&& forall|i: int| 0 <= i < s.len() ==> corpus_count(texts, excludes, (#[trigger] s[i]).0)
        == s[i].1 && s[i].1 >= 1
    &&& forall|t: Seq<char>| corpus_count(texts, excludes, t) > 0 ==> exists|i: int|
        0 <= i < s.len() && (#[trigger] s[i]).0 == t
}

/// Runs the pipeline over the given texts with the given parallelism
/// degree.  Returns `None` exactly when the corpus holds more counted
/// tokens than a counter can carry.
pub fn run_pipeline(
    seg: &Segmenter,
    excludes: &ExclusionSet,
    texts: Vec<String>,
    workers: usize,
) -> (r: Option<Vec<(String, u64)>>)
    requires
        workers >= 1,
    ensures
        match r {
            Some(out) => {
                &&& ranked_output(entry_views(out@), texts.deep_view(), excludes.as_set())
                &&& corpus_total(texts.deep_view(), excludes.as_set()) <= u64::MAX
            },
            None => corpus_total(texts.deep_view(), excludes.as_set()) > u64::MAX,
        },
{
    let ghost tv = texts.deep_view();
    let ghost ex = excludes.as_set();
    let ghost sv = texts@;
    let chunks = partition(texts, workers);
    let ghost cv = deep_chunks(chunks@);
    proof {
        assert(chunk_views(chunks@).flatten() == sv);
        assert(cv.flatten() =~= tv) by {
            lemma_deep_flatten(chunks@);
            assert(chunk_views(chunks@).flatten().map_values(|s: String| s@) =~= tv);
        }
        lemma_chunks_flatten(cv, ex);
    }
    let mut locals: Vec<FreqMap> = Vec::new();
    let n = chunks.len();
    let mut i: usize = 0;
    proof {
        assert(cv.skip(0) =~= cv);
    }
    while i < n
        invariant
            i <= n,
            n == chunks@.len(),
            cv == deep_chunks(chunks@),
            ex == excludes.as_set(),
            tv == texts.deep_view(),
            forall|t: Seq<char>| chunks_count(cv, ex, t) == corpus_count(tv, ex, t),
            chunks_total(cv, ex) == corpus_total(tv, ex),
            forall|k: int| 0 <= k < locals@.len() ==> (#[trigger] locals@[k]).wf(),
            forall|t: Seq<char>| merged_count(locals@, t) + chunks_count(cv.skip(i as int), ex, t)
                == chunks_count(cv, ex, t),
            merged_total(locals@) + chunks_total(cv.skip(i as int), ex) == chunks_total(cv, ex),
        decreases n - i,
    {
        let ghost rest = cv.skip(i as int);
        proof {
            assert(rest[0] == cv[i as int]);
            assert(cv[i as int] == chunks@[i as int].deep_view());
            assert(rest.drop_first() =~= cv.skip(i as int + 1));
        }
        match worker_counts(seg, excludes, &chunks[i]) {
            Some(m) => {
                let ghost locals0 = locals@;
                locals.push(m);
                proof {
                    assert(locals@ =~= locals0.push(m));
                    assert forall|t: Seq<char>| merged_count(locals@, t) + chunks_count(
                        cv.skip(i as int + 1),
                        ex,
                        t,
                    ) == chunks_count(cv, ex, t) by {
                        lemma_merged_count_push(locals0, m, t);
                    }
                    lemma_merged_total_push(locals0, m);
                }
            },
            None => {
                proof {
                    assert(chunks_total(rest, ex) >= corpus_total(cv[i as int], ex));
                    assert(chunks_total(cv, ex) >= chunks_total(rest, ex));
                    assert(corpus_total(tv, ex) > u64::MAX);
                }
                return None;
            },
        }
        i += 1;
    }
    proof {
        assert(cv.skip(n as int) =~= Seq::<Seq<Seq<char>>>::empty());
        assert forall|t: Seq<char>| merged_count(locals@, t) == corpus_count(tv, ex, t) by {
            assert(merged_count(locals@, t) + chunks_count(cv.skip(n as int), ex, t)
                == chunks_count(cv, ex, t));
        }
        assert(merged_total(locals@) == corpus_total(tv, ex));
    }
    match merge_all(&locals) {
        Some(g) => {
            proof {
                assert(g.total_count() == corpus_total(tv, ex));
            }
            let out = g.into_ranked();
            proof {
                let rv = entry_views(out@);
                assert(ranked(rv, g));
                assert forall|i: int| 0 <= i < rv.len() implies corpus_count(
                    tv,
                    ex,
                    (#[trigger] rv[i]).0,
                ) == rv[i].1 && rv[i].1 >= 1 by {
                    assert(g.count(rv[i].0) == rv[i].1);
                    assert(merged_count(locals@, rv[i].0) == corpus_count(tv, ex, rv[i].0));
                }
                assert forall|t: Seq<char>| corpus_count(tv, ex, t) > 0 implies exists|k: int|
                    0 <= k < rv.len() && (#[trigger] rv[k]).0 == t by {
                    assert(merged_count(locals@, t) == corpus_count(tv, ex, t));
                    assert(g.count(t) > 0);
                }
            }
            Some(out)
        },
        None => None,
    }
}

/// Flattening chunks of owned strings and taking views commutes with
/// taking views first.
proof fn lemma_deep_flatten(chunks: Seq<Vec<String>>)
    ensures
        deep_chunks(chunks).flatten() == chunk_views(chunks).flatten().map_values(
            |s: String| s@,
        ),
    decreases chunks.len(),
{
    if chunks.len() == 0 {
        assert(deep_chunks(chunks).flatten() =~= Seq::<Seq<char>>::empty());
        assert(chunk_views(chunks).flatten() =~= Seq::<String>::empty());
        assert(chunk_views(chunks).flatten().map_values(|s: String| s@) =~= Seq::<
            Seq<char>,
        >::empty());
    } else {
        lemma_deep_flatten(chunks.drop_first());
        assert(deep_chunks(chunks).drop_first() =~= deep_chunks(chunks.drop_first()));
        assert(chunk_views(chunks).drop_first() =~= chunk_views(chunks.drop_first()));
        assert(deep_chunks(chunks).flatten() == deep_chunks(chunks).first() + deep_chunks(
            chunks.drop_first(),
        ).flatten());
        assert(chunk_views(chunks).flatten() == chunk_views(chunks).first() + chunk_views(
            chunks.drop_first(),
        ).flatten());
        assert(deep_chunks(chunks).first() =~= chunks[0].deep_view());
        assert(chunk_views(chunks).first() =~= chunks[0]@);
        assert(chunks[0].deep_view() =~= chunks[0]@.map_values(|s: String| s@));
        assert((chunk_views(chunks).first() + chunk_views(chunks.drop_first()).flatten())
            .map_values(|s: String| s@) =~= chunk_views(chunks).first().map_values(|s: String| s@)
            + chunk_views(chunks.drop_first()).flatten().map_values(|s: String| s@));
        assert(deep_chunks(chunks).flatten() =~= chunk_views(chunks).flatten().map_values(
            |s: String| s@,
        ));
    }
}

} // verus!
