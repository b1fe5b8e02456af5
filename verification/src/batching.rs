//! Splitting an id list into consecutive fixed-size chunks: the upstream
//! detail requests go out in chunks of twenty, the store point lookups in
//! chunks of a thousand.

use vstd::prelude::*;

use crate::domain::names_view;

verus! {

/// Consecutive chunks of size `k`, in order; the last chunk holds whatever
/// remains.
pub open spec fn chunks_of(ids: Seq<Seq<u8>>, k: int) -> Seq<Seq<Seq<u8>>>
    decreases ids.len(),
{
    if k <= 0 || ids.len() == 0 {
        Seq::empty()
    } else if ids.len() <= k {
        seq![ids]
    } else {
        seq![ids.subrange(0, k)] + chunks_of(ids.subrange(k, ids.len() as int), k)
    }
}

/// The view of a chunk list.
pub open spec fn batches_view(b: Seq<Vec<Vec<u8>>>) -> Seq<Seq<Seq<u8>>> {
    b.map_values(|c: Vec<Vec<u8>>| names_view(c@))
}

/// Law: the chunks cover the whole list, every id exactly once, in order —
/// concatenating them gives the whole list back.
pub proof fn lemma_chunks_cover(ids: Seq<Seq<u8>>, k: int)
    requires
        k >= 1,
    ensures
        chunks_of(ids, k).flatten() == ids,
    decreases ids.len(),
{
    if ids.len() == 0 {
        assert(chunks_of(ids, k).flatten() =~= ids);
    } else if ids.len() <= k {
        assert(seq![ids].drop_first() =~= Seq::<Seq<Seq<u8>>>::empty());
        assert(Seq::<Seq<Seq<u8>>>::empty().flatten() =~= Seq::<Seq<u8>>::empty());
        assert(seq![ids].flatten() =~= ids);
    } else {
        let pre = ids.subrange(0, k);
        let rest = ids.subrange(k, ids.len() as int);
        lemma_chunks_cover(rest, k);
        let cs = seq![pre] + chunks_of(rest, k);
        assert(cs.drop_first() =~= chunks_of(rest, k));
        assert(cs[0] == pre);
        assert(cs.flatten() == pre + chunks_of(rest, k).flatten());
        assert(pre + rest =~= ids);
    }
}

/// Law: every chunk holds exactly `min(k, remaining)` ids — each one is the
/// next `k` ids of the list, and only the last can be shorter.
#[verifier::rlimit(50)]
pub proof fn lemma_chunks_sizes(ids: Seq<Seq<u8>>, k: int)
    requires
        k >= 1,
    ensures
        forall|j: int|
            0 <= j < chunks_of(ids, k).len() ==> (#[trigger] chunks_of(ids, k)[j]).len() == (
            if ids.len() - j * k < k {
                ids.len() - j * k
            } else {
                k
            }) && j * k < ids.len(),
    decreases ids.len(),
{
    if ids.len() == 0 {
        assert(chunks_of(ids, k).len() == 0);
    } else if ids.len() <= k {
        assert forall|j: int| 0 <= j < chunks_of(ids, k).len() implies (
        #[trigger] chunks_of(ids, k)[j]).len() == (if ids.len() - j * k < k {
            ids.len() - j * k
        } else {
            k
        }) && j * k < ids.len() by {
            assert(j == 0);
            assert(0 * k == 0);
        }
    } else {
        let rest = ids.subrange(k, ids.len() as int);
        lemma_chunks_sizes(rest, k);
        assert forall|j: int| 0 <= j < chunks_of(ids, k).len() implies (
        #[trigger] chunks_of(ids, k)[j]).len() == (if ids.len() - j * k < k {
            ids.len() - j * k
        } else {
            k
        }) && j * k < ids.len() by {
            if j == 0 {
                assert(chunks_of(ids, k)[0] == ids.subrange(0, k));
                assert(0 * k == 0);
            } else {
                assert(chunks_of(ids, k)[j] == chunks_of(rest, k)[j - 1]);
                assert((j - 1) * k == j * k - k) by (nonlinear_arith);
                assert(rest.len() - (j - 1) * k == ids.len() - j * k);
                assert(chunks_of(rest, k)[j - 1].len() == (if rest.len() - (j - 1) * k < k {
                    rest.len() - (j - 1) * k
                } else {
                    k
                }) && (j - 1) * k < rest.len());
            }
        }
    }
    assert(forall|j: int|
        0 <= j < chunks_of(ids, k).len() ==> (#[trigger] chunks_of(ids, k)[j]).len() == (
        if ids.len() - j * k < k {
            ids.len() - j * k
        } else {
            k
        }) && j * k < ids.len());
}

/// Splits `ids` into consecutive chunks of size `k`; the batch list of the
/// upstream fetch (`k` = 20) and of the store lookup (`k` = 1000).
#[verifier::loop_isolation(false)]
pub fn batch_ids(ids: &Vec<Vec<u8>>, k: usize) -> (r: Vec<Vec<Vec<u8>>>)
    requires
        k >= 1,
    ensures
        batches_view(r@) == chunks_of(names_view(ids@), k as int),
{
    let ghost full = names_view(ids@);
    let mut out: Vec<Vec<Vec<u8>>> = Vec::new();
    let mut start: usize = 0;
    proof {
        assert(full.subrange(0, full.len() as int) =~= full);
        assert(batches_view(out@) =~= Seq::<Seq<Seq<u8>>>::empty());
        assert(batches_view(out@) + chunks_of(full, k as int) =~= chunks_of(full, k as int));
    }
    while start < ids.len()
        invariant
            start <= ids@.len(),
            chunks_of(full, k as int) == batches_view(out@) + chunks_of(
                full.subrange(start as int, full.len() as int),
                k as int,
            ),
        decreases ids@.len() - start,
    {
        let top = if ids.len() - start < k {
            ids.len()
        } else {
            start + k
        };
        let mut chunk: Vec<Vec<u8>> = Vec::new();
        let mut i: usize = start;
        proof {
            assert(names_view(chunk@) =~= full.subrange(start as int, start as int));
        }
        while i < top
            invariant
                start <= i <= top <= ids@.len(),
                names_view(chunk@) == full.subrange(start as int, i as int),
            decreases top - i,
        {
            let id = crate::xml::subvec(&ids[i], 0, ids[i].len());
            proof {
                assert(id@ =~= ids@[i as int]@);
            }
            chunk.push(id);
            proof {
                assert(names_view(chunk@) =~= full.subrange(start as int, i + 1 as int));
            }
            i = i + 1;
        }
        let ghost suf = full.subrange(start as int, full.len() as int);
        let ghost pre = batches_view(out@);
        proof {
            assert(suf.len() == full.len() - start);
            if full.len() - start <= k as int {
                assert(names_view(chunk@) =~= suf);
                assert(chunks_of(suf, k as int) == seq![suf]);
                assert(pre + seq![suf] =~= pre + (seq![suf]
                    + chunks_of(full.subrange(top as int, full.len() as int), k as int)))
                    by {
                    assert(full.subrange(top as int, full.len() as int).len() == 0);
                    assert(chunks_of(full.subrange(top as int, full.len() as int), k as int)
                        =~= Seq::<Seq<Seq<u8>>>::empty());
                }
            } else {
                assert(names_view(chunk@) =~= suf.subrange(0, k as int));
                assert(suf.subrange(k as int, suf.len() as int) =~= full.subrange(
                    top as int,
                    full.len() as int,
                ));
                assert(chunks_of(suf, k as int) == seq![suf.subrange(0, k as int)] + chunks_of(
                    full.subrange(top as int, full.len() as int),
                    k as int,
                ));
            }
        }
        out.push(chunk);
        proof {
            assert(batches_view(out@) =~= pre + seq![names_view(out@[out@.len() - 1]@)]);
            assert(pre + (seq![names_view(out@[out@.len() - 1]@)] + chunks_of(
                full.subrange(top as int, full.len() as int),
                k as int,
            )) =~= (pre + seq![names_view(out@[out@.len() - 1]@)]) + chunks_of(
                full.subrange(top as int, full.len() as int),
                k as int,
            ));
        }
        start = top;
    }
    proof {
        assert(full.subrange(start as int, full.len() as int).len() == 0);
        assert(chunks_of(full.subrange(start as int, full.len() as int), k as int) =~= Seq::<
            Seq<Seq<u8>>,
        >::empty());
        assert(batches_view(out@) + Seq::<Seq<Seq<u8>>>::empty() =~= batches_view(out@));
    }
    out
}

} // verus!
