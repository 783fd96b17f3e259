//! From the daemon to what the loader knows: the dependencies that it notes are those that the
//! records name, all of them.

use crate::data::LoaderData;
use crate::fault::{Failure, Fault};
use crate::ids::{lemma_same_bytes, AssetUuid, LoadHandle};
use crate::laws::operations::{has_led_to, law_settle_metadata};
use crate::laws::phases::{
    at_step, is_told, loads_ask_again, metadata_is_followed, record_leads, records_are_followed,
    sums_up,
};

use crate::laws::steps::{
    has_load, has_to_ask_again, is_told_of, reads_for, record_is_followed, record_is_readable,
};
use crate::model::{Effect, LoaderModel};
use crate::responses::{AssetRecord, MetadataResponse};
use vstd::prelude::*;

verus! {

/// Whether a record is about the asset `id`.
pub open spec fn is_about(record: AssetRecord, id: AssetUuid) -> bool {
    record.id is Ok && record.id->Ok_0@ == id@
}

/// Whether `deps` are what a record names: as many as it has parts, and each with the bytes of its
/// part.
pub open spec fn are_as_named(record: AssetRecord, deps: Seq<AssetUuid>) -> bool {
    &&& record.load_deps is Ok
    &&& deps.len() == record.load_deps->Ok_0@.len()
    &&& forall|i: int|
        0 <= i < deps.len() ==> {
            &&& record.load_deps->Ok_0@[i] is Ok
            &&& (#[trigger] deps[i])@ == record.load_deps->Ok_0@[i]->Ok_0@
        }
}

/// Whether all of `records` can be read, and no load of an asset that they are about is gone.
pub open spec fn can_be_followed(m: LoaderModel, records: Seq<AssetRecord>) -> bool {
    &&& forall|i: int| 0 <= i < records.len() ==> record_is_readable(#[trigger] records[i])
    &&& forall|i: int, id: AssetUuid|
        0 <= i < records.len() && #[trigger] is_about(records[i], id) && m.handles.contains_key(id)
            ==> m.loads.contains_key(m.handles[id])
}

/// Whether `n` knows of the assets that the first `k` of `records` are about what the last of these
/// that is about each says, and of the others what `m` knows.
spec fn noted_so_far(m: LoaderModel, n: LoaderModel, records: Seq<AssetRecord>, k: int) -> bool {
    &&& n.handles == m.handles
    &&& n.loads.dom() == m.loads.dom()
    &&& forall|i: int, id: AssetUuid|
        0 <= i < k && #[trigger] is_about(records[i], id) && (forall|j: int|
            i < j < k ==> !is_about(#[trigger] records[j], id)) ==> n.metadata.contains_key(id)
            && are_as_named(records[i], n.metadata[id])
    &&& forall|id: AssetUuid|
        (forall|j: int| 0 <= j < k ==> !is_about(#[trigger] records[j], id)) ==> {
            &&& #[trigger] n.metadata.contains_key(id) <==> m.metadata.contains_key(id)
            &&& m.metadata.contains_key(id) ==> n.metadata[id] == m.metadata[id]
        }
}

proof fn lemma_one_more_noted(
    m: LoaderModel,
    a: LoaderModel,
    b: LoaderModel,
    records: Seq<AssetRecord>,
    k: int,
)
    requires
        0 <= k < records.len(),
        noted_so_far(m, a, records, k),
        record_is_readable(records[k]),
        record_is_followed(a, Ok::<LoaderModel, (LoaderModel, Failure)>(b), records[k]),
    ensures
        noted_so_far(m, b, records, k + 1),
{
    let record = records[k];
    let (id, deps) = choose|id: AssetUuid, deps: Seq<AssetUuid>|
        {
            &&& id@ == record.id->Ok_0@
            &&& #[trigger] reads_for(record, id, deps)
            &&& (a.handles.contains_key(id) ==> has_load(a, id))
            &&& is_told_of(a, b, id, deps)
        };
    assert(are_as_named(record, deps));
    assert forall|other: AssetUuid| is_about(record, other) implies other == id by {
        lemma_same_bytes(other, id);
    }
    assert(is_about(record, id));
    assert forall|i: int, x: AssetUuid|
        0 <= i < k + 1 && #[trigger] is_about(records[i], x) && (forall|j: int|
            i < j < k + 1 ==> !is_about(#[trigger] records[j], x)) implies b.metadata.contains_key(
        x,
    ) && are_as_named(records[i], b.metadata[x]) by {
        if i < k {
            assert(!is_about(records[k], x));
            assert(x != id);
            assert forall|j: int| i < j < k implies !is_about(#[trigger] records[j], x) by {}
            assert(a.metadata.contains_key(x));
        }
    }
    assert forall|x: AssetUuid|
        (forall|j: int| 0 <= j < k + 1 ==> !is_about(#[trigger] records[j], x)) implies {
        &&& #[trigger] b.metadata.contains_key(x) <==> m.metadata.contains_key(x)
        &&& m.metadata.contains_key(x) ==> b.metadata[x] == m.metadata[x]
    } by {
        assert(!is_about(records[k], x));
        assert(x != id);
        assert(a.metadata.contains_key(x) <==> m.metadata.contains_key(x));
    }
}

proof fn lemma_noted_up_to(
    m: LoaderModel,
    models: Seq<LoaderModel>,
    records: Seq<AssetRecord>,
    k: int,
)
    requires
        0 <= k < models.len() <= records.len() + 1,
        models[0] == m,
        forall|i: int| 0 <= i < models.len() - 1 ==> #[trigger] record_leads(models, records, i),
        forall|i: int| 0 <= i < records.len() ==> record_is_readable(#[trigger] records[i]),
    ensures
        noted_so_far(m, models[k], records, k),
    decreases k,
{
    if k > 0 {
        lemma_noted_up_to(m, models, records, k - 1);
        assert(record_leads(models, records, k - 1));
        assert(record_is_readable(records[k - 1]));
        lemma_one_more_noted(m, models[k - 1], models[k], records, k - 1);
    }
}

/// Records that can be followed are followed to the last.
proof fn lemma_all_noted(
    m: LoaderModel,
    models: Seq<LoaderModel>,
    done: Result<LoaderModel, (LoaderModel, Failure)>,
    records: Seq<AssetRecord>,
)
    requires
        records_are_followed(models, done, records),
        models[0] == m,
        can_be_followed(m, records),
    ensures
        done is Ok,
        noted_so_far(m, done->Ok_0, records, records.len() as int),
{
    let last = models.len() - 1;
    lemma_noted_up_to(m, models, records, last);
    if done is Err {
        let n = models.last();
        let record = records[last];
        assert(record_is_readable(record));
        let (id, deps) = choose|id: AssetUuid, deps: Seq<AssetUuid>|
            {
                &&& id@ == record.id->Ok_0@
                &&& #[trigger] reads_for(record, id, deps)
                &&& n.handles.contains_key(id)
                &&& !has_load(n, id)
            };
        assert(is_about(records[last], id));
    }
}

proof fn lemma_asking_keeps_metadata(
    m: LoaderModel,
    trail: Seq<Effect>,
    requested: Seq<(AssetUuid, LoadHandle)>,
    i: int,
)
    requires
        loads_ask_again(m, trail, requested),
        0 <= i <= trail.len(),
    ensures
        at_step(m, trail, i).metadata == m.metadata,
    decreases i,
{
    if i > 0 {
        lemma_asking_keeps_metadata(m, trail, requested, i - 1);
        assert(has_to_ask_again(
            at_step(m, trail, i - 1),
            trail[i - 1],
            requested[i - 1].1.0,
        ));
    }
}

/// What the loader knows of an asset once an answer that can be read has come is what the last
/// record about the asset says: as many dependencies as the record names, each with the bytes that
/// the record gives for it. Of assets that no record is about it knows what it knew.
pub proof fn law_dependencies_are_noted_in_full(
    data: &mut LoaderData,
    answer: &Option<MetadataResponse>,
    requested: &Vec<(AssetUuid, LoadHandle)>,
    done: Result<(), Fault>,
    id: AssetUuid,
)
    requires
        call_ensures(LoaderData::settle_metadata, (data, answer, requested), done),
        answer is Some && answer->0.assets is Ok,
        can_be_followed(old(data)@, answer->0.assets->Ok_0@),
    ensures
        ({
            let records = answer->0.assets->Ok_0@;
            &&& forall|i: int|
                0 <= i < records.len() && #[trigger] is_about(records[i], id) && (forall|j: int|
                    i < j < records.len() ==> !is_about(#[trigger] records[j], id))
                    ==> final(data)@.metadata.contains_key(id) && are_as_named(
                    records[i],
                    final(data)@.metadata[id],
                )
            &&& (forall|j: int| 0 <= j < records.len() ==> !is_about(#[trigger] records[j], id))
                ==> {
                &&& final(data)@.metadata.contains_key(id) <==> old(data)@.metadata.contains_key(id)
                &&& old(data)@.metadata.contains_key(id) ==> final(data)@.metadata[id]
                    == old(data)@.metadata[id]
            }
        }),
{
    law_settle_metadata(data, answer, requested, done);
    let m = old(data)@;
    let e = choose|e: Effect| #[trigger]
        metadata_is_followed(m, e, *answer, requested@) && has_led_to(e, final(data)@, done);
    let records = answer->0.assets->Ok_0@;
    let (told, stopped) = choose|told: LoaderModel, stopped: Option<Fault>|
        {
            &&& #[trigger] is_told(m, told, stopped, *answer)
            &&& match stopped {
                Some(fault) => {
                    &&& e.model == told
                    &&& e.calls.len() == 0
                    &&& e.retired.len() == 0
                    &&& e.fault == Some(fault)
                },
                None => exists|trail: Seq<Effect>| #[trigger]
                    sums_up(told, trail, e, requested@.len()) && loads_ask_again(
                        told,
                        trail,
                        requested@,
                    ),
            }
        };
    let (models, followed) = choose|
        models: Seq<LoaderModel>,
        followed: Result<LoaderModel, (LoaderModel, Failure)>,
    |
        {
            &&& #[trigger] records_are_followed(models, followed, records)
            &&& models[0] == m
            &&& match followed {
                Ok(n) => told == n && stopped is None,
                Err((n, Failure::Fault(fault))) => told == n && stopped == Some(fault),
                Err((n, _)) => told == n && stopped is None,
            }
        };
    lemma_all_noted(m, models, followed, records);
    let trail = choose|trail: Seq<Effect>| #[trigger]
        sums_up(told, trail, e, requested@.len()) && loads_ask_again(told, trail, requested@);
    lemma_asking_keeps_metadata(told, trail, requested@, trail.len() as int);
    assert(noted_so_far(m, told, records, records.len() as int));
    assert(final(data)@.metadata == told.metadata);
}

} // verus!
