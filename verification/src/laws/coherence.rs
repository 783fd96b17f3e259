//! What a load says of itself always fits together.

use crate::channel::HandleOp;
use crate::ids::{AssetUuid, LoadHandle};
use crate::laws::tables::after_records;
use crate::model::{engine_has, new_load, ChangeSet, LoaderModel, PendingReload, StorageCall};
use crate::ops::committable;
use crate::responses::{AssetRecord, DataResponse, MetadataResponse};
use crate::state::{AssetLoad, AssetLoadState, LoadState, LoadStatus};
use crossbeam_channel::Sender;
use std::sync::Arc;
use vstd::prelude::*;

verus! {

/// Whether what a load says of itself fits together:
/// - once the engine has been handed the asset, its type and version are known;
/// - a loaded asset has a committed version, and only a loaded asset, or one that is about to be
///   freed, has one;
/// - a committed version is not above the version last handed over, and is that version while the
///   asset is not being reloaded;
/// - only a reload of a loaded asset waits to be committed with others, and only an asset that is
///   not committed at once is loaded without being committed.
pub open spec fn coherent(load: AssetLoad) -> bool {
    &&& load.state.sub_state() == Some(AssetLoadState::LoadingAsset) || engine_has(load)
        ==> load.asset_type is Some && load.requested_version is Some
    &&& load.state is Loaded ==> load.loaded_version is Some && load.asset_type is Some
        && load.requested_version is Some
    &&& load.loaded_version is Some ==> {
        &&& load.state is Loaded || load.state is UnloadRequested
        &&& load.asset_type is Some
        &&& load.requested_version is Some
        &&& load.loaded_version->0 <= load.requested_version->0
    }
    &&& load.state == LoadState::Loaded(AssetLoadState::Loaded) ==> load.loaded_version
        == load.requested_version
    &&& !load.auto_commit ==> load.state is Loaded && load.state != LoadState::Loaded(
        AssetLoadState::Loaded,
    )
    &&& load.state.sub_state() == Some(AssetLoadState::LoadedUncommitted) ==> !load.auto_commit
    &&& load.state is LoadingAsset ==> !engine_has(load)
}

/// Whether what each load says of itself fits together.
pub open spec fn all_coherent(m: LoaderModel) -> bool {
    forall|h: u64| #[trigger] m.loads.contains_key(h) ==> coherent(m.loads[h])
}

/// A loader that has been asked for nothing is coherent.
pub proof fn law_initial_coherent(reports: Arc<Sender<HandleOp>>)
    ensures
        all_coherent(LoaderModel::initial(reports)),
{
}

/// References do not affect coherence.
pub proof fn law_references_coherent(m: LoaderModel, id: AssetUuid, h: u64)
    requires
        all_coherent(m),
    ensures
        all_coherent(m.add_ref(id)),
        all_coherent(m.remove_ref(h)),
{
}

proof fn lemma_add_refs_coherent(m: LoaderModel, ids: Seq<AssetUuid>)
    requires
        all_coherent(m),
    ensures
        all_coherent(m.add_refs(ids)),
    decreases ids.len(),
{
    if ids.len() > 0 {
        lemma_add_refs_coherent(m, ids.drop_last());
        law_references_coherent(m.add_refs(ids.drop_last()), ids.last(), 0);
    }
}

/// What referencing assets leaves of a load, if it is still the load that it was.
proof fn lemma_add_refs_state(m: LoaderModel, ids: Seq<AssetUuid>, h: u64)
    requires
        m.loads.contains_key(h),
    ensures
        m.add_refs(ids).loads.contains_key(h),
        ({
            let load = m.add_refs(ids).loads[h];
            load == (AssetLoad { refs: load.refs, ..m.loads[h] }) || load == (AssetLoad {
                refs: load.refs,
                ..new_load(load.asset_id)
            })
        }),
    decreases ids.len(),
{
    if ids.len() > 0 {
        lemma_add_refs_state(m, ids.drop_last(), h);
    }
}

proof fn lemma_release_coherent(m: LoaderModel, ids: Seq<AssetUuid>)
    requires
        all_coherent(m),
    ensures
        all_coherent(m.release(ids).model),
    decreases ids.len(),
{
    if ids.len() > 0 {
        lemma_release_coherent(m, ids.drop_last());
    }
}

/// What releasing assets leaves of a load.
pub proof fn lemma_release_state(m: LoaderModel, ids: Seq<AssetUuid>, h: u64)
    requires
        m.loads.contains_key(h),
    ensures
        m.release(ids).model.loads.contains_key(h),
        ({
            let load = m.release(ids).model.loads[h];
            load == (AssetLoad { refs: load.refs, ..m.loads[h] })
        }),
    decreases ids.len(),
{
    if ids.len() > 0 {
        lemma_release_state(m, ids.drop_last(), h);
    }
}

/// Advancing a load keeps the loader coherent.
pub proof fn law_advance_coherent(m: LoaderModel, h: u64)
    requires
        all_coherent(m),
    ensures
        all_coherent(m.advance(h).model),
{
    if m.loads.contains_key(h) {
        let load = m.loads[h];
        if load.state is RequestDependencies && m.metadata.contains_key(load.asset_id) {
            let deps = m.metadata[load.asset_id];
            lemma_add_refs_coherent(m, deps);
            lemma_add_refs_state(m, deps, h);
            assert(coherent(m.loads[h]));
        } else if load.state is UnloadRequested {
            assert(coherent(m.loads[h]));
            let freed = m.free(h).model;
            assert(all_coherent(freed));
            if m.metadata.contains_key(load.asset_id) {
                let deps = m.metadata[load.asset_id];
                lemma_release_coherent(freed, deps);
                lemma_release_state(freed, deps, h);
            }
        } else {
            assert(coherent(m.loads[h]));
        }
    }
}

/// Advancing all loads keeps the loader coherent.
pub proof fn law_advance_all_coherent(m: LoaderModel, order: Seq<u64>)
    requires
        all_coherent(m),
    ensures
        all_coherent(m.walk(order).model),
        all_coherent(m.advance_all(order).model),
    decreases order.len(),
{
    if order.len() > 0 {
        law_advance_all_coherent(m, order.drop_last());
        law_advance_coherent(m.walk(order.drop_last()).model, order.last());
    }
}

/// Following a report of the engine keeps the loader coherent.
pub proof fn law_apply_op_coherent(m: LoaderModel, op: HandleOp)
    requires
        all_coherent(m),
    ensures
        all_coherent(m.apply_op(op).model),
{
}

/// Following the reports of the engine keeps the loader coherent.
pub proof fn law_apply_ops_coherent(m: LoaderModel, ops: Seq<HandleOp>)
    requires
        all_coherent(m),
    ensures
        all_coherent(m.apply_ops(ops).model),
    decreases ops.len(),
{
    if ops.len() > 0 {
        law_apply_ops_coherent(m, ops.drop_last());
        law_apply_op_coherent(m.apply_ops(ops.drop_last()).model.polled(Some(ops.last())), ops.last());
    }
}

proof fn lemma_note_deletions_coherent(m: LoaderModel, ids: Seq<AssetUuid>)
    requires
        all_coherent(m),
    ensures
        all_coherent(m.note_deletions(ids)),
    decreases ids.len(),
{
    if ids.len() > 0 {
        lemma_note_deletions_coherent(m, ids.drop_last());
    }
}

pub proof fn lemma_note_changes_coherent(m: LoaderModel, ids: Seq<AssetUuid>)
    requires
        all_coherent(m),
    ensures
        all_coherent(m.note_changes(ids)),
    decreases ids.len(),
{
    if ids.len() > 0 {
        lemma_note_changes_coherent(m, ids.drop_last());
    }
}

/// Committing reloads keeps a coherent loader coherent, and nothing stands in its way.
pub proof fn lemma_commit_reloads_coherent(m: LoaderModel, reloads: Seq<PendingReload>)
    requires
        all_coherent(m),
    ensures
        all_coherent(m.commit_reloads(reloads).model),
        m.commit_reloads(reloads).fault is None,
    decreases reloads.len(),
{
    if reloads.len() > 0 {
        lemma_commit_reloads_coherent(m, reloads.drop_last());
        let before = m.commit_reloads(reloads.drop_last()).model;
        let reload = reloads.last();
        if before.load_of(reload.asset_id) is Some {
            let h = before.handles[reload.asset_id];
            assert(before.loads.contains_key(h));
            assert(coherent(before.loads[h]));
        }
    }
}

/// Following changes keeps the loader coherent.
pub proof fn law_process_changes_coherent(m: LoaderModel, changes: Option<ChangeSet>)
    requires
        all_coherent(m),
    ensures
        all_coherent(m.process_changes(changes).model),
{
    if m.pending_reloads.len() == 0 && changes is Some {
        let set = changes->0;
        lemma_note_changes_coherent(m, set.changed);
        lemma_note_deletions_coherent(m.note_changes(set.changed), set.deleted);
    }
    lemma_commit_reloads_coherent(m, m.pending_reloads);
}

proof fn lemma_receive_records_coherent(m: LoaderModel, records: Seq<AssetRecord>)
    requires
        all_coherent(m),
    ensures
        all_coherent(after_records(m, records)),
    decreases records.len(),
{
    if records.len() > 0 {
        lemma_receive_records_coherent(m, records.drop_last());
    }
}

proof fn lemma_ask_again_coherent(m: LoaderModel, requested: Seq<(AssetUuid, LoadHandle)>)
    requires
        all_coherent(m),
    ensures
        all_coherent(m.ask_again_all(requested).model),
    decreases requested.len(),
{
    if requested.len() > 0 {
        lemma_ask_again_coherent(m, requested.drop_last());
    }
}

/// Following the answer to a request for metadata keeps the loader coherent.
pub proof fn law_settle_metadata_coherent(
    m: LoaderModel,
    answer: Option<MetadataResponse>,
    requested: Seq<(AssetUuid, LoadHandle)>,
)
    requires
        all_coherent(m),
    ensures
        all_coherent(m.settle_metadata(answer, requested).model),
{
    lemma_ask_again_coherent(m, requested);
    if answer is Some && answer->0.assets is Ok {
        let records = (answer->0).assets->Ok_0@;
        lemma_receive_records_coherent(m, records);
        lemma_ask_again_coherent(after_records(m, records), requested);
    }
}

/// Following the answers to requests for metadata keeps the loader coherent.
pub proof fn law_settle_all_metadata_coherent(
    m: LoaderModel,
    settled: Seq<(Option<MetadataResponse>, Vec<(AssetUuid, LoadHandle)>)>,
)
    requires
        all_coherent(m),
    ensures
        all_coherent(m.settle_all_metadata(settled).model),
    decreases settled.len(),
{
    if settled.len() > 0 {
        let before = m.settle_all_metadata(settled.drop_last());
        law_settle_all_metadata_coherent(m, settled.drop_last());
        law_settle_metadata_coherent(before.model, settled.last().0, settled.last().1@);
    }
}

/// Following the answer to a request for data keeps the loader coherent.
pub proof fn law_settle_data_coherent(
    m: LoaderModel,
    answer: Option<DataResponse>,
    handle: LoadHandle,
    accepted: bool,
)
    requires
        all_coherent(m),
    ensures
        all_coherent(m.settle_data(answer, handle, accepted).model),
{
    if m.loads.contains_key(handle.0) {
        assert(coherent(m.loads[handle.0]));
    }
}

/// Following the answers to requests for data keeps the loader coherent.
pub proof fn law_settle_all_data_coherent(
    m: LoaderModel,
    settled: Seq<(Option<DataResponse>, LoadHandle)>,
    accepted: Seq<bool>,
)
    requires
        all_coherent(m),
    ensures
        all_coherent(m.settle_all_data(settled, accepted).model),
    decreases settled.len(),
{
    if settled.len() > 0 {
        let before = m.settle_all_data(settled.drop_last(), accepted);
        law_settle_all_data_coherent(m, settled.drop_last(), accepted);
        law_settle_data_coherent(
            before.model,
            settled.last().0,
            settled.last().1,
            accepted[before.calls.len() as int],
        );
    }
}

/// Requesting metadata and data keeps the loader coherent.
pub proof fn law_requesting_coherent(m: LoaderModel)
    requires
        all_coherent(m),
    ensures
        all_coherent(m.requesting_all_metadata()),
        all_coherent(m.requesting_all_data()),
{
    assert forall|h: u64| #[trigger]
        m.requesting_all_metadata().loads.contains_key(h) implies coherent(
        m.requesting_all_metadata().loads[h],
    ) by {
        assert(m.loads.contains_key(h));
    }
    assert forall|h: u64| #[trigger]
        m.requesting_all_data().loads.contains_key(h) implies coherent(
        m.requesting_all_data().loads[h],
    ) by {
        assert(m.loads.contains_key(h));
    }
}

/// A load has the status of a loaded asset exactly while its asset can be looked up.
pub proof fn law_loaded_means_available(m: LoaderModel, h: u64)
    requires
        all_coherent(m),
    ensures
        m.status(h) == LoadStatus::Loaded <==> m.asset(h) is Some,
{
    if m.loads.contains_key(h) {
        assert(coherent(m.loads[h]));
    }
}

/// A load that the engine was handed, or has loaded without committing it, can be committed, and
/// the version in use never goes down.
pub proof fn law_commit_cannot_fail(m: LoaderModel, h: u64)
    requires
        all_coherent(m),
        m.loads.contains_key(h),
        m.loads[h].state.sub_state() == Some(AssetLoadState::LoadingAsset)
            || m.loads[h].state.sub_state() == Some(AssetLoadState::LoadedUncommitted),
    ensures
        committable(m.loads[h]),
        m.commit(h).fault is None,
        m.commit(h).model.status(h) == LoadStatus::Loaded,
        m.loads[h].loaded_version is Some ==> m.loads[h].loaded_version->0
            <= m.commit(h).model.loads[h].loaded_version->0,
{
    assert(coherent(m.loads[h]));
}

/// A version that is handed to the storage is higher than the version in use.
pub proof fn law_new_version_is_higher(
    m: LoaderModel,
    answer: Option<DataResponse>,
    handle: LoadHandle,
    accepted: bool,
    i: int,
)
    requires
        all_coherent(m),
        0 <= i < m.settle_data(answer, handle, accepted).calls.len(),
    ensures
        m.settle_data(answer, handle, accepted).calls[i] matches StorageCall::Update {
            handle: h,
            version,
            ..
        } && h == handle && (m.loads[handle.0].loaded_version matches Some(v) ==> v < version),
{
    assert(coherent(m.loads[handle.0]));
}

} // verus!
