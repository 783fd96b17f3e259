//! What each step of the loader does to the one load that it is about, told by the states, fields
//! and calls themselves, and that it does nothing else.

use crate::channel::HandleOp;
use crate::fault::{Failure, Fault};
use crate::ids::{AssetUuid, LoadHandle};
use crate::laws::lookups::{one_reference_less, one_reference_more};
use crate::laws::reading::{
    first_wrong, holds_id, is_wrong_with, lemma_array_of, lemma_ids_in, reads_as,
};
use crate::model::{Effect, LoaderModel, PendingReload, ReloadProgress, StorageCall};
use crate::responses::{id_in, ids_in, AssetRecord};
use crate::state::{AssetLoad, AssetLoadState, LoadState};
use vstd::prelude::*;

verus! {

/// Whether `n` is `m` but for the load `h`, which both have.
pub open spec fn only_load_differs(m: LoaderModel, n: LoaderModel, h: u64) -> bool {
    &&& n.next_handle == m.next_handle
    &&& n.handles == m.handles
    &&& n.metadata == m.metadata
    &&& n.pending_reloads == m.pending_reloads
    &&& n.reports == m.reports
    &&& n.connected == m.connected
    &&& n.polls == m.polls
    &&& n.loads.dom() == m.loads.dom()
    &&& m.loads.contains_key(h)
    &&& forall|k: u64| k != h && #[trigger] m.loads.contains_key(k) ==> n.loads[k] == m.loads[k]
}

/// Whether `b` is `a` but for the state.
pub open spec fn only_state_differs(a: AssetLoad, b: AssetLoad) -> bool {
    &&& b.asset_id == a.asset_id
    &&& b.refs == a.refs
    &&& b.asset_type == a.asset_type
    &&& b.requested_version == a.requested_version
    &&& b.loaded_version == a.loaded_version
    &&& b.auto_commit == a.auto_commit
    &&& b.pending_reload == a.pending_reload
}

/// Whether all that happens is that the load `h` goes to the state `state`.
pub open spec fn goes_to(m: LoaderModel, e: Effect, h: u64, state: LoadState) -> bool {
    &&& only_load_differs(m, e.model, h)
    &&& only_state_differs(m.loads[h], e.model.loads[h])
    &&& e.model.loads[h].state == state
    &&& e.calls.len() == 0
    &&& e.fault is None
}

/// Whether nothing happens.
pub open spec fn nothing_happens(m: LoaderModel, e: Effect) -> bool {
    &&& e.model == m
    &&& e.calls.len() == 0
    &&& e.retired.len() == 0
    &&& e.fault is None
}

/// Whether all that happens is that the loader stops at `fault`.
pub open spec fn stops_at(m: LoaderModel, e: Effect, fault: Fault) -> bool {
    &&& e.model == m
    &&& e.calls.len() == 0
    &&& e.retired.len() == 0
    &&& e.fault == Some(fault)
}

/// Whether the engine has loaded what it was handed for a load in this state.
pub open spec fn engine_is_done(state: LoadState) -> bool {
    ||| state == LoadState::LoadingAsset(AssetLoadState::Loaded)
    ||| state == LoadState::LoadingAsset(AssetLoadState::LoadedUncommitted)
    ||| state == LoadState::Loaded(AssetLoadState::Loaded)
    ||| state == LoadState::Loaded(AssetLoadState::LoadedUncommitted)
}

/// Whether the asset `id` has a load for which the engine has loaded what it was handed.
pub open spec fn is_ready(m: LoaderModel, id: AssetUuid) -> bool {
    &&& m.handles.contains_key(id)
    &&& m.loads.contains_key(m.handles[id])
    &&& engine_is_done(m.loads[m.handles[id]].state)
}

/// Whether `models` lead from one reference to the next, one for each of `ids`, in their order.
pub open spec fn references_taken(models: Seq<LoaderModel>, ids: Seq<AssetUuid>) -> bool {
    &&& models.len() == ids.len() + 1
    &&& forall|i: int| 0 <= i < ids.len() ==> #[trigger] reference_taken(models, ids, i)
}

/// Whether the `i`th of `ids` is referenced on the way from the `i`th of `models` to the next.
pub open spec fn reference_taken(models: Seq<LoaderModel>, ids: Seq<AssetUuid>, i: int) -> bool {
    one_reference_more(models[i], models[i + 1], ids[i], models[i + 1].handles[ids[i]])
}

/// Whether `models` lead from one release to the next, one for each of `ids`, in their order.
pub open spec fn references_given_up(models: Seq<LoaderModel>, ids: Seq<AssetUuid>) -> bool {
    &&& models.len() == ids.len() + 1
    &&& forall|i: int| 0 <= i < ids.len() ==> #[trigger] reference_given_up(models, ids, i)
}

/// Whether the `i`th of `ids` is released on the way from the `i`th of `models` to the next.
pub open spec fn reference_given_up(models: Seq<LoaderModel>, ids: Seq<AssetUuid>, i: int) -> bool {
    &&& models[i].handles.contains_key(ids[i])
    &&& one_reference_less(models[i], models[i + 1], models[i].handles[ids[i]])
}

/// Referencing assets in turn takes one reference after the other.
pub proof fn lemma_references_taken(m: LoaderModel, ids: Seq<AssetUuid>) -> (models: Seq<
    LoaderModel,
>)
    ensures
        references_taken(models, ids),
        models[0] == m,
        models.last() == m.add_refs(ids),
    decreases ids.len(),
{
    if ids.len() == 0 {
        seq![m]
    } else {
        let front = ids.drop_last();
        let before = lemma_references_taken(m, front);
        let models = before.push(m.add_refs(ids));
        assert forall|i: int| 0 <= i < ids.len() implies #[trigger] reference_taken(
            models,
            ids,
            i,
        ) by {
            if i < front.len() {
                assert(reference_taken(before, front, i));
                assert(models[i] == before[i] && models[i + 1] == before[i + 1]);
                assert(ids[i] == front[i]);
            } else {
                assert(models[i] == m.add_refs(front));
                assert(ids[i] == ids.last());
            }
        }
        models
    }
}

/// What releasing assets in turn does: one release after the other, up to the first asset that was
/// never referenced.
pub proof fn lemma_references_given_up(m: LoaderModel, ids: Seq<AssetUuid>) -> (models: Seq<
    LoaderModel,
>)
    ensures
        models.len() > 0,
        models[0] == m,
        m.release(ids).model == models.last(),
        m.release(ids).calls.len() == 0,
        m.release(ids).retired.len() == 0,
        models.len() <= ids.len() + 1,
        references_given_up(models, ids.take(models.len() - 1)),
        m.release(ids).fault is None <==> models.len() == ids.len() + 1,
        m.release(ids).fault matches Some(fault) ==> fault == Fault::UnknownDependency(
            ids[models.len() - 1],
        ) && !models.last().handles.contains_key(ids[models.len() - 1]),
    decreases ids.len(),
{
    if ids.len() == 0 {
        assert(ids.take(0) =~= ids);
        seq![m]
    } else {
        let front = ids.drop_last();
        let last = ids.last();
        let before = lemma_references_given_up(m, front);
        let middle = m.release(front).model;
        let n = before.len() - 1;
        assert(front.take(n) =~= ids.take(n));
        if m.release(front).fault is Some || !middle.handles.contains_key(last) {
            assert(ids[front.len() as int] == last);
            before
        } else {
            let models = before.push(m.release(ids).model);
            let all = ids.take(models.len() - 1);
            assert(all =~= ids);
            assert(front.take(n) =~= front);
            assert forall|i: int| 0 <= i < all.len() implies #[trigger] reference_given_up(
                models,
                all,
                i,
            ) by {
                if i < front.len() {
                    assert(reference_given_up(before, front, i));
                    assert(models[i] == before[i] && models[i + 1] == before[i + 1]);
                    assert(all[i] == front[i]);
                } else {
                    assert(models[i] == middle);
                    assert(all[i] == last);
                    assert(models[i + 1].loads.dom() =~= middle.loads.dom());
                }
            }
            models
        }
    }
}

/// Whether `e` is what advancing the load `h` does while it waits for metadata or has not begun: it
/// goes on to its dependencies if its metadata is known, and otherwise asks for it.
pub open spec fn goes_on_to_metadata(m: LoaderModel, e: Effect, h: u64) -> bool {
    &&& e.retired.len() == 0
    &&& goes_to(
        m,
        e,
        h,
        if m.metadata.contains_key(m.loads[h].asset_id) {
            LoadState::RequestDependencies
        } else {
            LoadState::WaitingForMetadata
        },
    )
}

/// Whether `n` is `m` but that the load `h` has nothing to show any more.
pub open spec fn emptied(m: LoaderModel, n: LoaderModel, h: u64) -> bool {
    let a = m.loads[h];
    let b = n.loads[h];
    &&& only_load_differs(m, n, h)
    &&& b.asset_id == a.asset_id && b.state == a.state && b.refs == a.refs
    &&& b.asset_type is None && b.requested_version is None && b.loaded_version is None
    &&& b.auto_commit == a.auto_commit && b.pending_reload == a.pending_reload
}

/// Whether `e` is what advancing the load `h` does once it is to be unloaded. The storage is told
/// to free it if it was ever handed it; then the load gives up one reference to each of its
/// dependencies, and is unloading.
pub open spec fn is_unloaded(m: LoaderModel, e: Effect, h: u64) -> bool {
    let a = m.loads[h];
    let id = a.asset_id;
    &&& e.retired.len() == 0
    &&& match a.asset_type {
        Some(asset_type) => e.calls == seq![
            StorageCall::Free { asset_type, handle: LoadHandle(h) },
        ],
        None => e.calls.len() == 0,
    }
    &&& exists|models: Seq<LoaderModel>| #[trigger] unloads_over(m, e, h, models)
}

/// Whether the load `h` gives up its dependencies over `models`, one after the other.
pub open spec fn unloads_over(
    m: LoaderModel,
    e: Effect,
    h: u64,
    models: Seq<LoaderModel>,
) -> bool {
    let id = m.loads[h].asset_id;
    let first = models[0];
    let last = models.last();
    &&& models.len() > 0
    &&& if m.loads[h].asset_type is Some {
        emptied(m, first, h)
    } else {
        first == m
    }
    &&& if !m.metadata.contains_key(id) {
        // what it depends on should be known
        &&& models.len() == 1
        &&& e.model == first
        &&& e.fault == Some(Fault::MissingMetadata(id))
    } else {
        let deps = m.metadata[id];
        &&& models.len() <= deps.len() + 1
        &&& references_given_up(models, deps.take(models.len() - 1))
        &&& if models.len() == deps.len() + 1 {
            &&& e.fault is None
            &&& only_load_differs(last, e.model, h)
            &&& only_state_differs(last.loads[h], e.model.loads[h])
            &&& e.model.loads[h].state is Unloading
        } else {
            &&& !last.handles.contains_key(deps[models.len() - 1])
            &&& e.model == last
            &&& e.fault == Some(Fault::UnknownDependency(deps[models.len() - 1]))
        }
    }
}

/// Whether `e` is what advancing the load `h` does when it requests its dependencies: one reference
/// more to each of them, in their order, and the load waits for them.
pub open spec fn requests_dependencies(m: LoaderModel, e: Effect, h: u64) -> bool {
    let id = m.loads[h].asset_id;
    if !m.metadata.contains_key(id) {
        stops_at(m, e, Fault::MissingMetadata(id))
    } else {
        &&& e.calls.len() == 0
        &&& e.retired.len() == 0
        &&& e.fault is None
        &&& exists|models: Seq<LoaderModel>|
            {
                let last = models.last();
                &&& #[trigger] references_taken(models, m.metadata[id])
                &&& models[0] == m
                &&& only_load_differs(last, e.model, h)
                &&& only_state_differs(last.loads[h], e.model.loads[h])
                &&& e.model.loads[h].state is WaitingForDependencies
            }
    }
}

/// Whether `e` is what advancing the load `h` does, state by state.
pub open spec fn advances(m: LoaderModel, e: Effect, h: u64) -> bool {
    let a = m.loads[h];
    let id = a.asset_id;
    if !m.loads.contains_key(h) {
        nothing_happens(m, e)
    } else {
        match a.state {
            // what nobody refers to is unloaded, what somebody refers to begins
            LoadState::Indeterminate => if a.refs == 0 {
                e.retired.len() == 0 && goes_to(m, e, h, LoadState::UnloadRequested)
            } else {
                goes_on_to_metadata(m, e, h)
            },
            LoadState::WaitingForMetadata => goes_on_to_metadata(m, e, h),
            LoadState::RequestingMetadata => nothing_happens(m, e),
            LoadState::RequestDependencies => requests_dependencies(m, e, h),
            // the asset is fetched exactly when the engine has loaded all that it depends on
            LoadState::WaitingForDependencies => if !m.metadata.contains_key(id) {
                stops_at(m, e, Fault::MissingMetadata(id))
            } else if forall|i: int|
                0 <= i < m.metadata[id].len() ==> is_ready(m, #[trigger] m.metadata[id][i]) {
                e.retired.len() == 0 && goes_to(
                    m,
                    e,
                    h,
                    LoadState::LoadingAsset(AssetLoadState::WaitingForData),
                )
            } else {
                nothing_happens(m, e)
            },
            LoadState::LoadingAsset(_) => nothing_happens(m, e),
            LoadState::Loaded(AssetLoadState::Loaded) => if a.refs == 0 {
                e.retired.len() == 0 && goes_to(m, e, h, LoadState::UnloadRequested)
            } else if a.pending_reload {
                let b = e.model.loads[h];
                &&& only_load_differs(m, e.model, h)
                &&& b.state == LoadState::Loaded(AssetLoadState::WaitingForData)
                &&& !b.auto_commit && !b.pending_reload
                &&& b.asset_id == a.asset_id && b.refs == a.refs && b.asset_type == a.asset_type
                &&& b.requested_version == a.requested_version
                &&& b.loaded_version == a.loaded_version
                &&& e.calls.len() == 0 && e.retired.len() == 0 && e.fault is None
            } else {
                nothing_happens(m, e)
            },
            LoadState::Loaded(_) => nothing_happens(m, e),
            LoadState::UnloadRequested => is_unloaded(m, e, h),
            // the load is given up, unless somebody has come to refer to it
            LoadState::Unloading => {
                &&& goes_to(m, e, h, LoadState::Indeterminate)
                &&& if a.refs == 0 {
                    e.retired == seq![h]
                } else {
                    e.retired.len() == 0
                }
            },
        }
    }
}

/// Advancing a load takes it the one step that its state asks for, and does nothing else.
pub proof fn law_advancing_a_load(m: LoaderModel, h: u64)
    ensures
        advances(m, m.advance(h), h),
{
    let e = m.advance(h);
    if m.loads.contains_key(h) {
        let a = m.loads[h];
        let id = a.asset_id;
        match a.state {
            LoadState::RequestDependencies => {
                if m.metadata.contains_key(id) {
                    let models = lemma_references_taken(m, m.metadata[id]);
                    lemma_add_refs_keeps(m, m.metadata[id], h);
                    let last = models.last();
                    assert(e.model.loads.dom() =~= last.loads.dom());
                    assert(references_taken(models, m.metadata[id]));
                }
            },
            LoadState::WaitingForDependencies => {
                if m.metadata.contains_key(id) {
                    let deps = m.metadata[id];
                    assert forall|i: int| 0 <= i < deps.len() implies is_ready(
                        m,
                        #[trigger] deps[i],
                    ) == m.dependency_ready(deps[i]) by {}
                    assert(m.dependencies_ready(deps) == forall|i: int|
                        0 <= i < deps.len() ==> is_ready(m, #[trigger] deps[i]));
                    assert(e.model.loads.dom() =~= m.loads.dom());
                }
            },
            LoadState::UnloadRequested => {
                lemma_unloaded(m, h);
            },
            _ => {
                assert(e.model.loads.dom() =~= m.loads.dom());
            },
        }
    }
}

proof fn lemma_unloaded(m: LoaderModel, h: u64)
    requires
        m.loads.contains_key(h),
        m.loads[h].state is UnloadRequested,
    ensures
        is_unloaded(m, m.advance(h), h),
{
    let e = m.advance(h);
    let a = m.loads[h];
    let id = a.asset_id;
    let freed = m.free(h).model;
    assert(freed.loads.dom() =~= m.loads.dom());
    if m.metadata.contains_key(id) {
        let deps = m.metadata[id];
        let models = lemma_references_given_up(freed, deps);
        let last = models.last();
        crate::walk::lemma_release_keeps(freed, deps, h);
        assert(e.calls =~= m.free(h).calls);
        assert(e.retired =~= Seq::empty());
        assert(e.model.loads.dom() =~= last.loads.dom());
        assert(unloads_over(m, e, h, models));
    } else {
        let models = seq![freed];
        assert(e.calls =~= m.free(h).calls);
        assert(unloads_over(m, e, h, models));
    }
}

proof fn lemma_add_refs_keeps(m: LoaderModel, ids: Seq<AssetUuid>, h: u64)
    requires
        m.loads.contains_key(h),
    ensures
        m.add_refs(ids).loads.contains_key(h),
{
    crate::walk::lemma_add_refs_keep(m, ids, h);
}

// ----- reports of the engine

/// Whether the engine was handed a version of a load in this state, and it is not in use yet.
pub open spec fn may_be_committed(state: LoadState) -> bool {
    ||| state == LoadState::LoadingAsset(AssetLoadState::LoadingAsset)
    ||| state == LoadState::LoadingAsset(AssetLoadState::LoadedUncommitted)
    ||| state == LoadState::Loaded(AssetLoadState::LoadingAsset)
    ||| state == LoadState::Loaded(AssetLoadState::LoadedUncommitted)
}

/// Whether `e` is what committing the load `h` does: the version that was handed over last becomes
/// the one in use, and the storage is told so, with the type of the asset.
pub open spec fn is_committed(m: LoaderModel, e: Effect, h: u64) -> bool {
    let a = m.loads[h];
    let b = e.model.loads[h];
    if !may_be_committed(a.state) {
        stops_at(m, e, Fault::NotCommittable(a.state))
    } else if a.asset_type is None {
        stops_at(m, e, Fault::MissingAssetType(a.asset_id))
    } else if a.requested_version is None {
        stops_at(m, e, Fault::MissingVersion(a.asset_id))
    } else {
        &&& only_load_differs(m, e.model, h)
        &&& b.state == LoadState::Loaded(AssetLoadState::Loaded)
        &&& b.loaded_version == a.requested_version
        &&& b.requested_version == a.requested_version
        &&& b.asset_id == a.asset_id && b.refs == a.refs && b.asset_type == a.asset_type
        &&& b.auto_commit == a.auto_commit && b.pending_reload == a.pending_reload
        &&& e.calls == seq![
            StorageCall::Commit {
                asset_type: a.asset_type->0,
                handle: LoadHandle(h),
                version: a.requested_version->0,
            },
        ]
        &&& e.retired.len() == 0
        &&& e.fault is None
    }
}

/// Whether `e` is what the report `op` does.
pub open spec fn is_reported(m: LoaderModel, e: Effect, op: HandleOp) -> bool {
    match op {
        HandleOp::LoadError(handle, reason) => stops_at(m, e, Fault::LoadFailed(handle, reason)),
        HandleOp::LoadDrop(handle) => stops_at(m, e, Fault::LoadDropped(handle)),
        HandleOp::LoadComplete(handle) => {
            let h = handle.0;
            let a = m.loads[h];
            if !m.loads.contains_key(h) {
                stops_at(m, e, Fault::CompletedUnknownLoad(handle))
            } else if a.auto_commit {
                is_committed(m, e, h)
            } else {
                // one of several assets that are reloaded together waits for the others
                match a.state {
                    LoadState::LoadingAsset(_) => e.retired.len() == 0 && goes_to(
                        m,
                        e,
                        h,
                        LoadState::LoadingAsset(AssetLoadState::LoadedUncommitted),
                    ),
                    LoadState::Loaded(_) => e.retired.len() == 0 && goes_to(
                        m,
                        e,
                        h,
                        LoadState::Loaded(AssetLoadState::LoadedUncommitted),
                    ),
                    _ => stops_at(m, e, Fault::NotLoading(a.state)),
                }
            }
        },
    }
}

/// Committing a load puts the version that was handed over last into use, and does nothing else.
pub proof fn law_committing_a_load(m: LoaderModel, h: u64)
    requires
        m.loads.contains_key(h),
    ensures
        is_committed(m, m.commit(h), h),
{
    assert(m.commit(h).model.loads.dom() =~= m.loads.dom());
}

/// A report of the engine does what it says, and nothing else.
pub proof fn law_following_a_report(m: LoaderModel, op: HandleOp)
    ensures
        is_reported(m, m.apply_op(op), op),
{
    assert(m.apply_op(op).model.loads.dom() =~= m.loads.dom());
    if op is LoadComplete && m.loads.contains_key(op->LoadComplete_0.0) {
        law_committing_a_load(m, op->LoadComplete_0.0);
    }
}

// ----- hot reload

/// Whether the asset `id` has a load.
pub open spec fn has_load(m: LoaderModel, id: AssetUuid) -> bool {
    m.handles.contains_key(id) && m.loads.contains_key(m.handles[id])
}

/// Whether `n` is `m` with the change of the asset `id` noted: if a version of it was handed to the
/// engine, a reload from that version on is pending, behind those that were pending before.
pub open spec fn change_is_noted(m: LoaderModel, n: LoaderModel, id: AssetUuid) -> bool {
    let h = m.handles[id];
    let a = m.loads[h];
    let b = n.loads[h];
    if has_load(m, id) && a.requested_version is Some {
        &&& only_load_differs(m, LoaderModel { pending_reloads: m.pending_reloads, ..n }, h)
        &&& b.pending_reload
        &&& b.asset_id == a.asset_id && b.state == a.state && b.refs == a.refs
        &&& b.asset_type == a.asset_type && b.requested_version == a.requested_version
        &&& b.loaded_version == a.loaded_version && b.auto_commit == a.auto_commit
        &&& n.pending_reloads.len() == m.pending_reloads.len() + 1
        &&& n.pending_reloads.drop_last() == m.pending_reloads
        &&& n.pending_reloads.last().asset_id == id
        &&& n.pending_reloads.last().version_before == a.requested_version->0
    } else {
        n == m
    }
}

/// Whether `n` is `m` with the deletion of the asset `id` noted: if it is loaded, it is to be
/// unloaded.
pub open spec fn deletion_is_noted(m: LoaderModel, n: LoaderModel, id: AssetUuid) -> bool {
    let h = m.handles[id];
    if has_load(m, id) && m.loads[h].state == LoadState::Loaded(AssetLoadState::Loaded) {
        &&& only_load_differs(m, n, h)
        &&& only_state_differs(m.loads[h], n.loads[h])
        &&& n.loads[h].state is UnloadRequested
    } else {
        n == m
    }
}

/// A change is noted.
pub proof fn law_noting_a_change(m: LoaderModel, id: AssetUuid)
    ensures
        change_is_noted(m, m.note_change(id), id),
{
    assert(m.note_change(id).loads.dom() =~= m.loads.dom());
    if has_load(m, id) && m.loads[m.handles[id]].requested_version is Some {
        assert(m.note_change(id).pending_reloads.drop_last() =~= m.pending_reloads);
    }
}

/// A deletion is noted.
pub proof fn law_noting_a_deletion(m: LoaderModel, id: AssetUuid)
    ensures
        deletion_is_noted(m, m.note_deletion(id), id),
{
    assert(m.note_deletion(id).loads.dom() =~= m.loads.dom());
}

/// Whether a pending reload is finished: its asset has no load any more, or the engine has loaded
/// what it was handed for it, and that is a later version than the one that was in use.
pub open spec fn reload_is_finished(m: LoaderModel, reload: PendingReload) -> bool {
    let load = m.loads[m.handles[reload.asset_id]];
    ||| !has_load(m, reload.asset_id)
    ||| engine_is_done(load.state) && load.requested_version is Some && load.requested_version->0
        > reload.version_before
}

/// Whether a pending reload cannot be judged: the engine has loaded something for it, and no
/// version is known of that.
pub open spec fn reload_has_no_version(m: LoaderModel, reload: PendingReload) -> bool {
    let load = m.loads[m.handles[reload.asset_id]];
    has_load(m, reload.asset_id) && engine_is_done(load.state) && load.requested_version is None
}

/// A pending reload is finished exactly if its asset has no load any more, or the engine has loaded
/// a later version of it than the one that was in use, whatever else is true of the load.
pub proof fn law_when_a_reload_is_finished(m: LoaderModel, reload: PendingReload)
    ensures
        m.progress(reload) is Finished <==> reload_is_finished(m, reload),
        m.progress(reload) matches ReloadProgress::NoVersion(id) ==> id == reload.asset_id,
        m.progress(reload) is NoVersion <==> reload_has_no_version(m, reload),
{
}

/// Whether `e` is what committing a finished reload does: if the new version waits to be put into
/// use, it is put into use, and later versions of the asset are put into use at once again.
pub open spec fn reload_is_committed(m: LoaderModel, e: Effect, reload: PendingReload) -> bool {
    let h = m.handles[reload.asset_id];
    let a = m.loads[h];
    let b = e.model.loads[h];
    if has_load(m, reload.asset_id) && (a.state == LoadState::Loaded(
        AssetLoadState::LoadedUncommitted,
    ) || a.state == LoadState::LoadingAsset(AssetLoadState::LoadedUncommitted)) {
        if a.asset_type is None {
            stops_at(m, e, Fault::MissingAssetType(a.asset_id))
        } else if a.requested_version is None {
            stops_at(m, e, Fault::MissingVersion(a.asset_id))
        } else {
            &&& only_load_differs(m, e.model, h)
            &&& b.state == LoadState::Loaded(AssetLoadState::Loaded)
            &&& b.auto_commit
            &&& b.loaded_version == a.requested_version
            &&& b.requested_version == a.requested_version
            &&& b.asset_id == a.asset_id && b.refs == a.refs && b.asset_type == a.asset_type
            &&& b.pending_reload == a.pending_reload
            &&& e.calls == seq![
                StorageCall::Commit {
                    asset_type: a.asset_type->0,
                    handle: LoadHandle(h),
                    version: a.requested_version->0,
                },
            ]
            &&& e.retired.len() == 0
            &&& e.fault is None
        }
    } else {
        nothing_happens(m, e)
    }
}

/// A finished reload is committed.
pub proof fn law_committing_a_reload(m: LoaderModel, reload: PendingReload)
    ensures
        reload_is_committed(m, m.commit_reload(reload), reload),
{
    let e = m.commit_reload(reload);
    assert(e.model.loads.dom() =~= m.loads.dom());
    if has_load(m, reload.asset_id) {
        let h = m.handles[reload.asset_id];
        assert(e.calls =~= m.commit(h).calls || e.calls =~= Seq::empty());
        assert(e.retired =~= Seq::empty());
    }
}

// ----- answers with metadata

/// Whether a record can be read: the asset that it is about, and each of its dependencies.
pub open spec fn record_is_readable(record: AssetRecord) -> bool {
    &&& holds_id(record.id)
    &&& record.load_deps is Ok
    &&& forall|i: int|
        0 <= i < record.load_deps->Ok_0@.len() ==> holds_id(
            #[trigger] record.load_deps->Ok_0@[i],
        )
}

/// Whether `failure` is what is wrong with a record that cannot be read.
pub open spec fn is_wrong_with_record(record: AssetRecord, failure: Failure) -> bool {
    if !holds_id(record.id) {
        is_wrong_with(record.id, failure)
    } else if record.load_deps is Err {
        failure is Malformed
    } else {
        first_wrong(record.load_deps->Ok_0@, failure)
    }
}

/// Whether `n` is `m` with `deps` for the dependencies of the asset `id`, and with the load of the
/// asset going on to them if it waits for that.
pub open spec fn is_told_of(
    m: LoaderModel,
    n: LoaderModel,
    id: AssetUuid,
    deps: Seq<AssetUuid>,
) -> bool {
    let h = m.handles[id];
    &&& n.metadata == m.metadata.insert(id, deps)
    &&& n.next_handle == m.next_handle && n.handles == m.handles
    &&& n.pending_reloads == m.pending_reloads && n.reports == m.reports
    &&& n.connected == m.connected && n.polls == m.polls
    &&& n.loads.dom() == m.loads.dom()
    &&& forall|k: u64| #[trigger]
        m.loads.contains_key(k) && !(has_load(m, id) && k == h) ==> n.loads[k] == m.loads[k]
    &&& has_load(m, id) ==> {
        &&& only_state_differs(m.loads[h], n.loads[h])
        &&& n.loads[h].state == if m.loads[h].state is RequestingMetadata {
            LoadState::RequestDependencies
        } else {
            m.loads[h].state
        }
    }
}

/// Whether `done` is what a record does: what it says of the asset is noted, and its load goes on.
pub open spec fn record_is_followed(
    m: LoaderModel,
    done: Result<LoaderModel, (LoaderModel, Failure)>,
    record: AssetRecord,
) -> bool {
    if !record_is_readable(record) {
        &&& done matches Err((n, failure))
        &&& n == m
        &&& is_wrong_with_record(record, failure)
    } else {
        exists|id: AssetUuid, deps: Seq<AssetUuid>|
            {
                &&& id@ == record.id->Ok_0@
                &&& #[trigger] reads_for(record, id, deps)
                &&& match done {
                    Ok(n) => (m.handles.contains_key(id) ==> has_load(m, id)) && is_told_of(
                        m,
                        n,
                        id,
                        deps,
                    ),
                    Err((n, failure)) => {
                        // the load of the asset is gone
                        &&& m.handles.contains_key(id) && !has_load(m, id)
                        &&& is_told_of(m, n, id, deps)
                        &&& failure == Failure::Fault(
                            Fault::MetadataForUnknownLoad(LoadHandle(m.handles[id])),
                        )
                    },
                }
            }
    }
}

/// Whether a record says `deps` of the asset `id`.
pub open spec fn reads_for(record: AssetRecord, id: AssetUuid, deps: Seq<AssetUuid>) -> bool {
    id@ == record.id->Ok_0@ && reads_as(record.load_deps->Ok_0@, deps)
}

/// A record is followed as it stands.
pub proof fn law_following_a_record(m: LoaderModel, record: AssetRecord)
    ensures
        record_is_followed(m, m.receive_record(record), record),
{
    let done = m.receive_record(record);
    if record.load_deps is Ok {
        lemma_ids_in(record.load_deps->Ok_0@);
    }
    if record_is_readable(record) {
        lemma_array_of(record.id->Ok_0@);
        let id = id_in(record.id)->Ok_0;
        let deps = ids_in(record.load_deps->Ok_0@)->Ok_0;
        assert(reads_for(record, id, deps));
        let n = match done {
            Ok(n) => n,
            Err((n, _)) => n,
        };
        assert(n.loads.dom() =~= m.loads.dom());
        assert(is_told_of(m, n, id, deps));
    }
}

/// Whether `e` is what a request that the load `h` was part of, and that has come to an end, does
/// to it: if it still waits for the answer, it has to ask again.
pub open spec fn has_to_ask_again(m: LoaderModel, e: Effect, h: u64) -> bool {
    if !m.loads.contains_key(h) {
        stops_at(m, e, Fault::MetadataForUnknownLoad(LoadHandle(h)))
    } else if m.loads[h].state is RequestingMetadata {
        e.retired.len() == 0 && goes_to(m, e, h, LoadState::WaitingForMetadata)
    } else {
        nothing_happens(m, e)
    }
}

/// A load that still waits when its request has come to an end has to ask again.
pub proof fn law_asking_again(m: LoaderModel, h: u64)
    ensures
        has_to_ask_again(m, m.ask_again(h), h),
{
    assert(m.ask_again(h).model.loads.dom() =~= m.loads.dom());
}

} // verus!
