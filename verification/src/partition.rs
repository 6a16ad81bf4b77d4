//! The partitioner: splits the ordered input list into contiguous,
//! non-overlapping chunks for parallel workers.

use vstd::prelude::*;

verus! {

/// The views of a vector of chunks.
pub open spec fn chunk_views<T>(s: Seq<Vec<T>>) -> Seq<Seq<T>> {
    s.map_values(|v: Vec<T>| v@)
}

/// Per-chunk capacity for `len` items over `workers` workers: the
/// ceiling of their quotient.
pub open spec fn chunk_capacity(len: nat, workers: nat) -> nat
    recommends
        workers >= 1,
{
    len / workers + if len % workers != 0 {
        1nat
    } else {
        0nat
    }
}

/// Splits `items` into at most `workers` contiguous chunks, in order,
/// covering every item exactly once.  Every chunk but the last holds
/// exactly the per-chunk capacity; the last holds the nonempty remainder.
pub fn partition<T>(items: Vec<T>, workers: usize) -> (r: Vec<Vec<T>>)
    requires
        workers >= 1,
    ensures
        chunk_views(r@).flatten() == items@,
        r@.len() <= workers,
        items@.len() == 0 ==> r@.len() == 0,
        items@.len() > 0 ==> r@.len() >= 1,
        forall|i: int| 0 <= i < r@.len() ==> 0 < (#[trigger] r@[i])@.len() <= chunk_capacity(
            items@.len(),
            workers as nat,
        ),
        forall|i: int| 0 <= i < r@.len() - 1 ==> (#[trigger] r@[i])@.len() == chunk_capacity(
            items@.len(),
            workers as nat,
        ),
{
    let ghost orig = items@;
    let len = items.len();
    if len == 0 {
        let r: Vec<Vec<T>> = Vec::new();
        proof {
            assert(chunk_views(r@) =~= Seq::<Seq<T>>::empty());
            assert(chunk_views(r@).flatten() =~= items@);
        }
        return r;
    }
    let q = len / workers;
    let rem = len % workers;
    proof {
        vstd::arithmetic::div_mod::lemma_fundamental_div_mod(len as int, workers as int);
        if rem != 0 {
            if workers == 1 {
                assert(len == 1 * q + rem);
            }
            assert(workers >= 2);
            assert(workers * q >= 2 * q) by (nonlinear_arith)
                requires
                    workers >= 2,
                    q >= 0,
            ;
            assert(2 * q + 1 <= len);
        }
    }
    let c = if rem != 0 {
        q + 1
    } else {
        q
    };
    assert(c == chunk_capacity(orig.len(), workers as nat));
    assert(c >= 1) by {
        if rem == 0 {
            assert(len == workers * q + 0);
            assert(q >= 1) by (nonlinear_arith)
                requires
                    workers * q >= 1,
                    workers >= 1,
                    q >= 0,
            ;
        }
    }
    let ghost cap = c as nat;
    let mut rest = items;
    let mut chunks: Vec<Vec<T>> = Vec::new();
    proof {
        assert(chunk_views(chunks@) =~= Seq::<Seq<T>>::empty());
        assert(chunk_views(chunks@).flatten() + rest@ =~= orig);
    }
    while rest.len() > c
        invariant
            c == cap >= 1,
            rest@.len() >= 1,
            chunk_views(chunks@).flatten() + rest@ == orig,
            chunks@.len() * cap + rest@.len() == orig.len(),
            forall|i: int| 0 <= i < chunks@.len() ==> (#[trigger] chunks@[i])@.len() == cap,
        decreases rest.len(),
    {
        let ghost chunks0 = chunk_views(chunks@);
        let ghost rest0 = rest@;
        let tail = rest.split_off(c);
        let head = rest;
        rest = tail;
        chunks.push(head);
        proof {
            assert(chunk_views(chunks@) =~= chunks0.push(rest0.subrange(0, cap as int)));
            chunks0.lemma_flatten_push(rest0.subrange(0, cap as int));
            assert(chunks0.push(rest0.subrange(0, cap as int)).flatten() == chunks0.flatten()
                + rest0.subrange(0, cap as int));
            assert(chunk_views(chunks@).flatten() + rest@ =~= chunks0.flatten() + rest0);
            assert((chunks0.len() + 1) * cap == chunks0.len() * cap + cap) by (nonlinear_arith);
        }
    }
    let ghost chunks0 = chunk_views(chunks@);
    let ghost rest0 = rest@;
    let ghost n0 = chunks@.len();
    chunks.push(rest);
    proof {
        assert(chunk_views(chunks@) =~= chunks0.push(rest0));
        chunks0.lemma_flatten_push(rest0);
        assert(chunks0.push(rest0).flatten() == chunks0.flatten() + rest0);
        assert(chunk_views(chunks@).flatten() =~= orig);
        assert(chunks@.len() <= workers) by {
            assert(workers * cap >= orig.len()) by (nonlinear_arith)
                requires
                    cap == orig.len() / (workers as nat) + if orig.len() % (workers as nat) != 0 {
                        1nat
                    } else {
                        0nat
                    },
                    workers >= 1,
            ;
            if n0 + 1 > workers {
                assert(n0 >= workers);
                assert(n0 * cap >= workers * cap) by (nonlinear_arith)
                    requires
                        n0 >= workers,
                        cap >= 1,
                        workers >= 1,
                ;
                assert(n0 * cap + rest0.len() == orig.len());
                assert(rest0.len() >= 1);
                assert(false);
            }
        }
    }
    chunks
}

} // verus!
