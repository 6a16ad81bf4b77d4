//! The worker: per-partition pipeline from texts to a local frequency
//! map, by segmenting, filtering and accumulating.

use vstd::prelude::*;
use crate::exclusion::ExclusionSet;
use crate::filter::{should_count, spec_should_count};
use crate::freq::FreqMap;
use crate::segment::{segmentation_of, Segmenter};

verus! {

/// Occurrences of token `t` among `tokens` that pass the filter.
pub open spec fn tally_count(tokens: Seq<Seq<char>>, excludes: Set<Seq<char>>, t: Seq<char>) -> nat
    decreases tokens.len(),
{
    if tokens.len() == 0 {
        0
    } else {
        (if tokens[0] == t && spec_should_count(excludes, t) {
            1nat
        } else {
            0nat
        }) + tally_count(tokens.drop_first(), excludes, t)
    }
}

/// Number of tokens of `tokens` that pass the filter.
pub open spec fn tally_total(tokens: Seq<Seq<char>>, excludes: Set<Seq<char>>) -> nat
    decreases tokens.len(),
{
    if tokens.len() == 0 {
        0
    } else {
        (if spec_should_count(excludes, tokens[0]) {
            1nat
        } else {
            0nat
        }) + tally_total(tokens.drop_first(), excludes)
    }
}

/// Counted occurrences over one text's segmentation.
pub open spec fn text_count(text: Seq<char>, excludes: Set<Seq<char>>, t: Seq<char>) -> nat {
    tally_count(segmentation_of(text), excludes, t)
}

/// Counted tokens over one text's segmentation.
pub open spec fn text_total(text: Seq<char>, excludes: Set<Seq<char>>) -> nat {
    tally_total(segmentation_of(text), excludes)
}

/// Counted occurrences of `t` over a sequence of texts.
pub open spec fn corpus_count(texts: Seq<Seq<char>>, excludes: Set<Seq<char>>, t: Seq<char>) -> nat
    decreases texts.len(),
{
    if texts.len() == 0 {
        0
    } else {
        text_count(texts[0], excludes, t) + corpus_count(texts.drop_first(), excludes, t)
    }
}

/// Counted tokens over a sequence of texts.
pub open spec fn corpus_total(texts: Seq<Seq<char>>, excludes: Set<Seq<char>>) -> nat
    decreases texts.len(),
{
    if texts.len() == 0 {
        0
    } else {
        text_total(texts[0], excludes) + corpus_total(texts.drop_first(), excludes)
    }
}

/// Counting over a concatenation of corpora splits into the two parts.
pub proof fn lemma_corpus_count_concat(a: Seq<Seq<char>>, b: Seq<Seq<char>>, excludes: Set<Seq<char>>, t: Seq<char>)
    ensures
        corpus_count(a + b, excludes, t) == corpus_count(a, excludes, t) + corpus_count(
            b,
            excludes,
            t,
        ),
    decreases a.len(),
{
    if a.len() == 0 {
        assert(a + b =~= b);
    } else {
        assert((a + b).drop_first() =~= a.drop_first() + b);
        lemma_corpus_count_concat(a.drop_first(), b, excludes, t);
    }
}

/// The counted-token total over a concatenation splits likewise.
pub proof fn lemma_corpus_total_concat(a: Seq<Seq<char>>, b: Seq<Seq<char>>, excludes: Set<Seq<char>>)
    ensures
        corpus_total(a + b, excludes) == corpus_total(a, excludes) + corpus_total(b, excludes),
    decreases a.len(),
{
    if a.len() == 0 {
        assert(a + b =~= b);
    } else {
        assert((a + b).drop_first() =~= a.drop_first() + b);
        lemma_corpus_total_concat(a.drop_first(), b, excludes);
    }
}

/// Accumulates every filtered token of `tokens` into `counts`, adding
/// one occurrence per surviving token and touching no other count.
pub fn count_tokens(counts: &mut FreqMap, excludes: &ExclusionSet, tokens: &Vec<String>)
    requires
        old(counts).wf(),
        old(counts).total_count() + tokens@.len() <= u64::MAX,
    ensures
        final(counts).wf(),
        forall|t: Seq<char>| final(counts).count(t) == old(counts).count(t) + tally_count(
            tokens.deep_view(),
            excludes.as_set(),
            t,
        ),
        final(counts).total_count() == old(counts).total_count() + tally_total(
            tokens.deep_view(),
            excludes.as_set(),
        ),
{
    let ghost tv = tokens.deep_view();
    let ghost ex = excludes.as_set();
    let ghost m0 = *old(counts);
    let n = tokens.len();
    let mut i: usize = 0;
    proof {
        assert(tv.len() == tokens@.len());
        assert(tv.skip(0) =~= tv);
    }
    while i < n
        invariant
            i <= n,
            n == tokens@.len(),
            tv == tokens.deep_view(),
            ex == excludes.as_set(),
            counts.wf(),
            forall|t: Seq<char>| counts.count(t) + tally_count(tv.skip(i as int), ex, t)
                == m0.count(t) + tally_count(tv, ex, t),
            counts.total_count() + tally_total(tv.skip(i as int), ex) == m0.total_count()
                + tally_total(tv, ex),
            counts.total_count() <= m0.total_count() + i,
            m0.total_count() + n <= u64::MAX,
        decreases n - i,
    {
        let ghost rest = tv.skip(i as int);
        proof {
            assert(rest[0] == tv[i as int]);
            assert(tv[i as int] == tokens@[i as int]@);
            assert(rest.drop_first() =~= tv.skip(i as int + 1));
        }
        let w = &tokens[i];
        if should_count(excludes, w.as_str()) {
            counts.add(w.as_str(), 1);
        }
        i += 1;
    }
    proof {
        assert(tv.skip(n as int) =~= Seq::<Seq<char>>::empty());
    }
}

/// Runs one worker over its partition, the texts already read: each text
/// is segmented, filtered and tallied into one local frequency map.
/// Returns `None` exactly when the local total would overflow a counter.
pub fn worker_counts(seg: &Segmenter, excludes: &ExclusionSet, texts: &Vec<String>) -> (r: Option<
    FreqMap,
>)
    ensures
        match r {
            Some(m) => {
                &&& m.wf()
                &&& forall|t: Seq<char>| m.count(t) == corpus_count(
                    texts.deep_view(),
                    excludes.as_set(),
                    t,
                )
                &&& m.total_count() == corpus_total(texts.deep_view(), excludes.as_set())
                &&& corpus_total(texts.deep_view(), excludes.as_set()) <= u64::MAX
            },
            None => corpus_total(texts.deep_view(), excludes.as_set()) > u64::MAX,
        },
{
    let ghost cv = texts.deep_view();
    let ghost ex = excludes.as_set();
    let mut counts = FreqMap::new();
    let n = texts.len();
    let mut i: usize = 0;
    proof {
        assert(cv.skip(0) =~= cv);
    }
    while i < n
        invariant
            i <= n,
            n == texts@.len(),
            cv == texts.deep_view(),
            ex == excludes.as_set(),
            counts.wf(),
            forall|t: Seq<char>| counts.count(t) + corpus_count(cv.skip(i as int), ex, t)
                == corpus_count(cv, ex, t),
            counts.total_count() + corpus_total(cv.skip(i as int), ex) == corpus_total(cv, ex),
        decreases n - i,
    {
        let ghost rest = cv.skip(i as int);
        proof {
            assert(rest[0] == cv[i as int]);
            assert(cv[i as int] == texts@[i as int]@);
            assert(rest.drop_first() =~= cv.skip(i as int + 1));
        }
        let tokens = seg.tokenize(texts[i].as_str());
        let mut local = FreqMap::new();
        proof {
            // a vector's length is within usize, so a fresh tally fits
            vstd::std_specs::vec::axiom_spec_len(&tokens);
            assert(tokens.deep_view().len() == tokens@.len());
        }
        count_tokens(&mut local, excludes, &tokens);
        proof {
            assert(local.total_count() == text_total(cv[i as int], ex));
            assert forall|t: Seq<char>| local.count(t) == text_count(cv[i as int], ex, t) by {}
        }
        let lt = local.total();
        let ct = counts.total();
        if lt > u64::MAX - ct {
            proof {
                assert(corpus_total(rest, ex) >= text_total(cv[i as int], ex));
                assert(corpus_total(cv, ex) > u64::MAX);
            }
            return None;
        }
        counts.merge(&local);
        i += 1;
    }
    proof {
        assert(cv.skip(n as int) =~= Seq::<Seq<char>>::empty());
        counts.lemma_wf_total();
    }
    Some(counts)
}

} // verus!
