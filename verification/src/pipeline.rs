//! Orchestration pieces of the fetch-cache-parse pipeline that sit between
//! the resolver, the scheduler and the driver performing the requests: the
//! fetch plan for a candidate list, the comma-joined id list of one detail
//! request, and the merge of batch outcomes in completion order.

use vstd::prelude::*;

use crate::batching::{batch_ids, batches_view, chunks_of};
use crate::domain::{names_view, BggThing, GThing, GThingData, ThingData};
use crate::parse::things_view;
use crate::store::{datas_of, datas_view, lookup_spec, needed_spec, resolve, Store};
use crate::DETAIL_BATCH_SIZE;

verus! {

/// The ids of one detail request, comma-joined.
pub open spec fn joined(ids: Seq<Seq<u8>>) -> Seq<u8>
    decreases ids.len(),
{
    if ids.len() == 0 {
        Seq::empty()
    } else if ids.len() == 1 {
        ids[0]
    } else {
        joined(ids.drop_last()) + seq![44u8] + ids.last()
    }
}

/// Joins the ids of one chunk with commas, as the detail request's query
/// names them.
#[verifier::loop_isolation(false)]
pub fn join_ids(ids: &Vec<Vec<u8>>) -> (r: Vec<u8>)
    ensures
        r@ == joined(names_view(ids@)),
{
    let ghost idsv = names_view(ids@);
    let mut r: Vec<u8> = Vec::new();
    let mut i: usize = 0;
    proof {
        assert(idsv.subrange(0, 0).len() == 0);
        assert(r@ =~= joined(idsv.subrange(0, 0)));
    }
    while i < ids.len()
        invariant
            i <= ids@.len(),
            r@ == joined(idsv.subrange(0, i as int)),
        decreases ids@.len() - i,
    {
        proof {
            assert(idsv.subrange(0, i + 1 as int).drop_last() =~= idsv.subrange(0, i as int));
            assert(idsv.subrange(0, i + 1 as int).last() == idsv[i as int]);
            assert(idsv[i as int] == ids@[i as int]@);
        }
        if i > 0 {
            r.push(44);
        }
        let mut c = crate::xml::subvec(&ids[i], 0, ids[i].len());
        proof {
            assert(c@ =~= ids@[i as int]@);
        }
        r.append(&mut c);
        proof {
            if i == 0 {
                assert(r@ =~= joined(idsv.subrange(0, 1)));
            } else {
                assert(r@ =~= joined(idsv.subrange(0, i as int)) + seq![44u8] + idsv[i as int]);
            }
        }
        i = i + 1;
    }
    proof {
        assert(idsv.subrange(0, idsv.len() as int) =~= idsv);
    }
    r
}

pub open spec fn datas_of_things(ts: Seq<GThing>) -> Seq<GThingData> {
    ts.map_values(|t: GThing| t.data)
}

/// The view of a batch-outcome list: each finished task either brought a
/// batch of parsed Things or failed.
pub open spec fn outcomes_view(s: Seq<Option<Vec<BggThing>>>) -> Seq<Option<Seq<GThing>>> {
    s.map_values(
        |o: Option<Vec<BggThing>>|
            match o {
                Some(v) => Some(things_view(v@)),
                None => None,
            },
    )
}

/// The merged result list: the cached Things, then each successful batch's
/// Things in the order the batches finished; a failed batch contributes
/// nothing — its ids are simply absent.
pub open spec fn merged(cached: Seq<GThingData>, outcomes: Seq<Option<Seq<GThing>>>) -> Seq<
    GThingData,
>
    decreases outcomes.len(),
{
    if outcomes.len() == 0 {
        cached
    } else {
        let pre = merged(cached, outcomes.drop_last());
        match outcomes.last() {
            Some(ts) => pre + datas_of_things(ts),
            None => pre,
        }
    }
}

/// Appends each finished batch's Things to the cached results, in the
/// arbitrary order the batches completed; a failed batch is dropped, and
/// the call as a whole still succeeds with partial data.
#[verifier::loop_isolation(false)]
pub fn merge_batch_outcomes(cached: Vec<ThingData>, outcomes: &Vec<Option<Vec<BggThing>>>) -> (r:
    Vec<ThingData>)
    ensures
        datas_view(r@) == merged(datas_view(cached@), outcomes_view(outcomes@)),
{
    let ghost cv = datas_view(cached@);
    let ghost ov = outcomes_view(outcomes@);
    let mut r = cached;
    let mut b: usize = 0;
    proof {
        assert(ov.subrange(0, 0).len() == 0);
        assert(datas_view(r@) =~= merged(cv, ov.subrange(0, 0)));
    }
    while b < outcomes.len()
        invariant
            b <= outcomes@.len(),
            datas_view(r@) == merged(cv, ov.subrange(0, b as int)),
        decreases outcomes@.len() - b,
    {
        proof {
            assert(ov.subrange(0, b + 1 as int).drop_last() =~= ov.subrange(0, b as int));
            assert(ov.subrange(0, b + 1 as int).last() == ov[b as int]);
        }
        match &outcomes[b] {
            Some(ts) => {
                let ghost tsv = things_view(ts@);
                let ghost pre = datas_view(r@);
                let mut k: usize = 0;
                proof {
                    assert(datas_of_things(tsv).subrange(0, 0).len() == 0);
                    assert(datas_view(r@) =~= pre + datas_of_things(tsv).subrange(0, 0));
                }
                while k < ts.len()
                    invariant
                        k <= ts@.len(),
                        datas_view(r@) == pre + datas_of_things(tsv).subrange(0, k as int),
                    decreases ts@.len() - k,
                {
                    let d = crate::store::copy_thing_data(&ts[k].data);
                    let ghost gd = d@;
                    let ghost pre_r = r@;
                    proof {
                        assert(tsv[k as int] == ts@[k as int]@);
                        assert(datas_of_things(tsv)[k as int] == tsv[k as int].data);
                        assert(gd == datas_of_things(tsv)[k as int]);
                    }
                    r.push(d);
                    proof {
                        assert(r@ == pre_r.push(d));
                        assert forall|m: int| 0 <= m < r@.len() implies datas_view(r@)[m] == (pre
                            + datas_of_things(tsv).subrange(0, k + 1 as int))[m] by {
                            if m < pre_r.len() {
                                assert(r@[m] == pre_r[m]);
                                assert(datas_view(r@)[m] == datas_view(pre_r)[m]);
                                assert(datas_view(pre_r)[m] == (pre + datas_of_things(
                                    tsv,
                                ).subrange(0, k as int))[m]);
                            } else {
                                assert(datas_view(r@)[m] == r@[m]@);
                                assert(r@[m] == d);
                            }
                        }
                        assert(datas_view(r@).len() == pre.len() + k + 1);
                        assert(datas_view(r@) =~= pre + datas_of_things(tsv).subrange(
                            0,
                            k + 1 as int,
                        ));
                    }
                    k = k + 1;
                }
                proof {
                    assert(datas_of_things(tsv).subrange(0, tsv.len() as int) =~= datas_of_things(
                        tsv,
                    ));
                }
            },
            None => {},
        }
        b = b + 1;
    }
    proof {
        assert(ov.subrange(0, ov.len() as int) =~= ov);
    }
    r
}

/// The fetch plan for a candidate id list: the Things already stored, and
/// the ids still needed, split into upstream batches of `DETAIL_BATCH_SIZE`.
/// An id set fully present in the store yields an empty batch list: no
/// upstream call is made for it.
pub fn plan_fetch(store: &Store, ids: &Vec<Vec<u8>>) -> (r: (Vec<ThingData>, Vec<Vec<Vec<u8>>>))
    ensures
        datas_view(r.0@) == datas_of(lookup_spec(store@.things, names_view(ids@))),
        batches_view(r.1@) == chunks_of(
            needed_spec(
                datas_of(lookup_spec(store@.things, names_view(ids@))),
                names_view(ids@),
            ),
            DETAIL_BATCH_SIZE as int,
        ),
{
    let (known, needed) = resolve(store, ids);
    let batches = batch_ids(&needed, DETAIL_BATCH_SIZE);
    (known, batches)
}

} // verus!
