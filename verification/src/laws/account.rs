//! What the storage is told over time: every commit is of the version that was last handed over.

use crate::channel::HandleOp;
use crate::ids::{AssetTypeId, AssetUuid, LoadHandle};
use crate::laws::coherence::{
    all_coherent, coherent, law_advance_coherent, law_apply_ops_coherent,
    law_process_changes_coherent, law_settle_all_data_coherent, lemma_commit_reloads_coherent,
    lemma_note_changes_coherent, lemma_release_state,
};
use crate::laws::flight::{handles_of, lemma_contains_add, lemma_divided, listed, settled_handles};
use crate::laws::pass::{lemma_add_refs_elsewhere, lemma_advance_elsewhere};
use crate::laws::references::{law_add_refs_agree, tables_agree};
use crate::laws::reload::{law_reloads_are_atomic, lemma_progress_of_all};
use crate::laws::round::sound;
use crate::laws::tables::{
    after_records, dependency_count, dependency_total, law_advance_agrees, law_apply_ops_agree,
    law_process_changes_agrees, lemma_walk_agrees,
};
use crate::metadata::lemma_contains_push;
use crate::model::{is_order_of, lists_exactly, ChangeSet, LoaderModel, PendingReload, StorageCall};
use crate::requests::{settlements, unsettled, ResponsePromise};
use crate::responses::{AssetRecord, DataResponse, MetadataResponse};
use crate::rpc_loader::{cycle, reported};
use crate::state::{AssetLoad, AssetLoadState, LoadState};
use crate::walk::lemma_release_silent;
use crossbeam_channel::Sender;
use std::sync::Arc;
use vstd::prelude::*;

verus! {

/// What the calls on a storage say of one load: the type and version that it was handed last,
/// unless it did not take them or they were committed or freed since, and the version that was
/// committed last, unless it was freed since.
pub struct Standing {
    pub handed: Option<(AssetTypeId, u32)>,
    pub committed: Option<u32>,
}

/// The load that a call is about.
pub open spec fn subject(call: StorageCall) -> u64 {
    match call {
        StorageCall::Update { handle, .. } => handle.0,
        StorageCall::Commit { handle, .. } => handle.0,
        StorageCall::Free { handle, .. } => handle.0,
    }
}

/// How the load that a call is about stands after the call.
pub open spec fn after_call(before: Standing, call: StorageCall) -> Standing {
    match call {
        StorageCall::Update { asset_type, version, accepted, .. } => Standing {
            handed: if accepted {
                Some((asset_type, version))
            } else {
                None
            },
            ..before
        },
        StorageCall::Commit { version, .. } => Standing {
            handed: None,
            committed: Some(version),
        },
        StorageCall::Free { .. } => Standing { handed: None, committed: None },
    }
}

/// How the load `h` stands after `calls`.
pub open spec fn standing(calls: Seq<StorageCall>, h: u64) -> Standing
    decreases calls.len(),
{
    if calls.len() == 0 {
        Standing { handed: None, committed: None }
    } else if subject(calls.last()) == h {
        after_call(standing(calls.drop_last(), h), calls.last())
    } else {
        standing(calls.drop_last(), h)
    }
}

/// Whether a call may be made on a load that stands as `before`: a commit has to be of the type and
/// version handed over last, and a version handed over has to be one more than the version
/// committed last, or the first.
pub open spec fn allowed(before: Standing, call: StorageCall) -> bool {
    match call {
        StorageCall::Update { version, .. } => version == (match before.committed {
            Some(committed) => committed + 1,
            None => 1,
        }),
        StorageCall::Commit { asset_type, version, .. } => before.handed == Some(
            (asset_type, version),
        ),
        StorageCall::Free { .. } => true,
    }
}

/// Whether each of `calls` may be made after those before it.
pub open spec fn in_order(calls: Seq<StorageCall>) -> bool {
    forall|i: int|
        0 <= i < calls.len() ==> allowed(
            standing(calls.take(i), subject(#[trigger] calls[i])),
            calls[i],
        )
}

/// Whether a load has a version that the engine was handed and that is not committed.
pub open spec fn newer(load: AssetLoad) -> bool {
    load.requested_version is Some && load.requested_version != load.loaded_version
}

/// Whether a reload of the asset `id` is pending from `version` on.
pub open spec fn has_reload(reloads: Seq<PendingReload>, id: AssetUuid, version: u32) -> bool {
    exists|i: int|
        0 <= i < reloads.len() && (#[trigger] reloads[i]).asset_id == id && version
            <= reloads[i].version_before
}

/// Whether a load is in keeping with how it stands with the storage and with the pending reloads.
pub open spec fn fits(load: AssetLoad, st: Standing, reloads: Seq<PendingReload>) -> bool {
    &&& st.committed == load.loaded_version
    &&& newer(load) ==> st.handed == Some((load.asset_type->0, load.requested_version->0))
    &&& load.requested_version is Some ==> load.asset_type is Some && load.requested_version->0 >= 1
    &&& match load.state.sub_state() {
        Some(AssetLoadState::LoadingAsset) => newer(load),
        Some(AssetLoadState::WaitingForData) => !newer(load),
        Some(AssetLoadState::RequestingData) => !newer(load),
        Some(_) => true,
        None => !newer(load) && (load.state is UnloadRequested || load.requested_version is None),
    }
    &&& load.state is Loaded && load.state != LoadState::Loaded(AssetLoadState::Loaded)
        ==> !load.auto_commit
    &&& load.pending_reload ==> load.auto_commit && has_reload(
        reloads,
        load.asset_id,
        match load.requested_version {
            Some(version) => version,
            None => 0,
        },
    )
    &&& !load.auto_commit ==> has_reload(reloads, load.asset_id, load.loaded_version->0)
}

/// Whether a loader is in keeping with the calls that it has made on the storage.
pub open spec fn accounted(m: LoaderModel, calls: Seq<StorageCall>) -> bool {
    &&& in_order(calls)
    &&& forall|k: u64| #[trigger]
        m.loads.contains_key(k) ==> fits(m.loads[k], standing(calls, k), m.pending_reloads)
    &&& forall|k: u64| !(#[trigger] m.loads.contains_key(k)) ==> standing(calls, k).committed is None
    &&& forall|i: int|
        0 <= i < m.pending_reloads.len() ==> (#[trigger] m.pending_reloads[i]).version_before >= 1
}

/// Whether a request for the data of the load `k` may be under way.
pub open spec fn may_be_answered(m: LoaderModel, k: u64) -> bool {
    &&& m.loads.contains_key(k)
    &&& m.loads[k].state.sub_state() == Some(AssetLoadState::RequestingData)
        || m.loads[k].state.sub_state() == Some(AssetLoadState::LoadedUncommitted)
    &&& !newer(m.loads[k])
}

/// Whether the requests for data that may be under way in `m` may be so in `n`.
pub open spec fn answers_kept(m: LoaderModel, n: LoaderModel) -> bool {
    forall|k: u64| #[trigger] may_be_answered(m, k) ==> may_be_answered(n, k)
}

/// How loads stand after one more call.
proof fn lemma_one_more_call(calls: Seq<StorageCall>, call: StorageCall)
    ensures
        forall|k: u64| #[trigger]
            standing(calls.push(call), k) == (if subject(call) == k {
                after_call(standing(calls, k), call)
            } else {
                standing(calls, k)
            }),
        in_order(calls) && allowed(standing(calls, subject(call)), call) ==> in_order(
            calls.push(call),
        ),
{
    let more = calls.push(call);
    assert(more.drop_last() =~= calls);
    if in_order(calls) && allowed(standing(calls, subject(call)), call) {
        assert forall|i: int| 0 <= i < more.len() implies allowed(
            standing(more.take(i), subject(#[trigger] more[i])),
            more[i],
        ) by {
            if i < calls.len() {
                assert(more.take(i) =~= calls.take(i));
                assert(more[i] == calls[i]);
            } else {
                assert(more.take(i) =~= calls);
            }
        }
    }
}

/// A loader that has been asked for nothing and has made no calls is in keeping with them.
pub proof fn law_initial_account(reports: Arc<Sender<HandleOp>>)
    ensures
        accounted(LoaderModel::initial(reports), Seq::empty()),
{
}

proof fn lemma_add_refs_accounted(m: LoaderModel, ids: Seq<AssetUuid>, calls: Seq<StorageCall>)
    requires
        tables_agree(m),
        m.next_handle + ids.len() <= u64::MAX,
        accounted(m, calls),
    ensures
        accounted(m.add_refs(ids), calls),
        answers_kept(m, m.add_refs(ids)),
    decreases ids.len(),
{
    if ids.len() > 0 {
        let front = ids.drop_last();
        lemma_add_refs_accounted(m, front, calls);
        law_add_refs_agree(m, front);
        let before = m.add_refs(front);
        assert(!before.loads.contains_key(before.next_handle)) by {
            if before.loads.contains_key(before.next_handle) {
                assert(before.handles.contains_key(before.loads[before.next_handle].asset_id));
            }
        }
        let n = m.add_refs(ids);
        assert forall|k: u64| #[trigger] n.loads.contains_key(k) implies fits(
            n.loads[k],
            standing(calls, k),
            n.pending_reloads,
        ) by {
            if before.loads.contains_key(k) {
                assert(fits(before.loads[k], standing(calls, k), before.pending_reloads));
            } else {
                assert(standing(calls, k).committed is None);
            }
        }
        assert forall|k: u64| !(#[trigger] n.loads.contains_key(k)) implies standing(
            calls,
            k,
        ).committed is None by {
            assert(!before.loads.contains_key(k));
        }
        assert forall|k: u64| #[trigger] may_be_answered(m, k) implies may_be_answered(n, k) by {
            assert(may_be_answered(before, k));
        }
    }
}

proof fn lemma_remove_ref_accounted(m: LoaderModel, h: u64, calls: Seq<StorageCall>)
    requires
        accounted(m, calls),
    ensures
        accounted(m.remove_ref(h), calls),
        answers_kept(m, m.remove_ref(h)),
{
    let n = m.remove_ref(h);
    assert forall|k: u64| #[trigger] n.loads.contains_key(k) implies fits(
        n.loads[k],
        standing(calls, k),
        n.pending_reloads,
    ) by {
        assert(m.loads.contains_key(k));
    }
    assert forall|k: u64| !(#[trigger] n.loads.contains_key(k)) implies standing(
        calls,
        k,
    ).committed is None by {
        assert(!m.loads.contains_key(k));
    }
}

proof fn lemma_release_accounted(m: LoaderModel, ids: Seq<AssetUuid>, calls: Seq<StorageCall>)
    requires
        accounted(m, calls),
    ensures
        accounted(m.release(ids).model, calls),
        answers_kept(m, m.release(ids).model),
    decreases ids.len(),
{
    if ids.len() > 0 {
        let front = ids.drop_last();
        lemma_release_accounted(m, front, calls);
        let before = m.release(front).model;
        if before.handle(ids.last()) is Some {
            lemma_remove_ref_accounted(before, before.handles[ids.last()], calls);
        }
        assert forall|k: u64| #[trigger] may_be_answered(m, k) implies may_be_answered(
            m.release(ids).model,
            k,
        ) by {
            assert(may_be_answered(before, k));
        }
    }
}

/// Adding and removing references makes no call on the storage, and keeps a loader in keeping with
/// the calls that were made, as long as handles are left.
pub proof fn law_references_account(
    m: LoaderModel,
    id: AssetUuid,
    h: u64,
    calls: Seq<StorageCall>,
)
    requires
        tables_agree(m),
        m.next_handle < u64::MAX,
        accounted(m, calls),
    ensures
        accounted(m.add_ref(id), calls),
        accounted(m.remove_ref(h), calls),
        answers_kept(m, m.add_ref(id)),
        answers_kept(m, m.remove_ref(h)),
{
    assert(m.add_refs(seq![id]) == m.add_ref(id)) by {
        reveal_with_fuel(LoaderModel::add_refs, 2);
        assert(seq![id].drop_last() =~= Seq::empty());
    }
    lemma_add_refs_accounted(m, seq![id], calls);
    lemma_remove_ref_accounted(m, h, calls);
}

/// Changing the load `h`, without a call on the storage.
proof fn lemma_load_changed(
    m: LoaderModel,
    h: u64,
    load: AssetLoad,
    calls: Seq<StorageCall>,
)
    requires
        accounted(m, calls),
        m.loads.contains_key(h),
        fits(load, standing(calls, h), m.pending_reloads),
        may_be_answered(m, h) ==> may_be_answered(m.with_load(h, load), h),
    ensures
        accounted(m.with_load(h, load), calls),
        answers_kept(m, m.with_load(h, load)),
{
    let n = m.with_load(h, load);
    assert forall|k: u64| #[trigger] n.loads.contains_key(k) implies fits(
        n.loads[k],
        standing(calls, k),
        n.pending_reloads,
    ) by {
        assert(m.loads.contains_key(k));
    }
    assert forall|k: u64| !(#[trigger] n.loads.contains_key(k)) implies standing(
        calls,
        k,
    ).committed is None by {
        assert(!m.loads.contains_key(k));
    }
}

/// Changing the load `h`, with a call on the storage.
proof fn lemma_load_called(
    m: LoaderModel,
    h: u64,
    load: AssetLoad,
    calls: Seq<StorageCall>,
    call: StorageCall,
)
    requires
        accounted(m, calls),
        m.loads.contains_key(h),
        subject(call) == h,
        allowed(standing(calls, h), call),
        fits(load, after_call(standing(calls, h), call), m.pending_reloads),
    ensures
        accounted(m.with_load(h, load), calls.push(call)),
        forall|k: u64|
            k != h && #[trigger] may_be_answered(m, k) ==> may_be_answered(m.with_load(h, load), k),
{
    let n = m.with_load(h, load);
    lemma_one_more_call(calls, call);
    assert forall|k: u64| #[trigger] n.loads.contains_key(k) implies fits(
        n.loads[k],
        standing(calls.push(call), k),
        n.pending_reloads,
    ) by {
        assert(m.loads.contains_key(k));
    }
    assert forall|k: u64| !(#[trigger] n.loads.contains_key(k)) implies standing(
        calls.push(call),
        k,
    ).committed is None by {
        assert(!m.loads.contains_key(k));
    }
}

/// Advancing a load keeps a loader in keeping with the calls on the storage.
proof fn lemma_advance_accounted(m: LoaderModel, h: u64, calls: Seq<StorageCall>)
    requires
        sound(m),
        m.next_handle + dependency_count(m, h) <= u64::MAX,
        accounted(m, calls),
    ensures
        accounted(m.advance(h).model, calls + m.advance(h).calls),
        answers_kept(m, m.advance(h).model),
        forall|k: u64| #[trigger]
            m.advance(h).retired.contains(k) ==> k == h && m.advance(h).model.loads.contains_key(k)
                && m.advance(h).model.loads[k].state is Indeterminate,
{
    let e = m.advance(h);
    assert(calls + Seq::<StorageCall>::empty() =~= calls);
    if m.loads.contains_key(h) {
        let load = m.loads[h];
        let deps = m.metadata[load.asset_id];
        assert(fits(load, standing(calls, h), m.pending_reloads));
        assert(coherent(load));
        if load.state is RequestDependencies {
            if m.metadata.contains_key(load.asset_id) {
                let r = m.add_refs(deps);
                lemma_add_refs_accounted(m, deps, calls);
                lemma_add_refs_elsewhere(m, deps, h);
                lemma_add_refs_reloads(m, deps);
                assert(fits(r.loads[h], standing(calls, h), m.pending_reloads));
                lemma_load_changed(
                    r,
                    h,
                    AssetLoad { state: LoadState::WaitingForDependencies, ..r.loads[h] },
                    calls,
                );
                assert forall|k: u64| #[trigger] may_be_answered(m, k) implies may_be_answered(
                    e.model,
                    k,
                ) by {
                    assert(may_be_answered(r, k));
                }
            }
        } else if load.state is UnloadRequested {
            let freed = m.free(h);
            if load.asset_type is Some {
                let call = StorageCall::Free {
                    asset_type: load.asset_type->0,
                    handle: LoadHandle(h),
                };
                assert(has_reload(m.pending_reloads, load.asset_id, 0) || !load.pending_reload);
                lemma_load_called(m, h, freed.model.loads[h], calls, call);
                assert(calls + freed.calls =~= calls.push(call));
            }
            assert(accounted(freed.model, calls + freed.calls));
            if m.metadata.contains_key(load.asset_id) {
                let released = freed.model.release(deps);
                lemma_release_accounted(freed.model, deps, calls + freed.calls);
                lemma_release_state(freed.model, deps, h);
                lemma_release_silent(freed.model, deps);
                lemma_release_reloads(freed.model, deps);
                assert(fits(
                    released.model.loads[h],
                    standing(calls + freed.calls, h),
                    m.pending_reloads,
                ));
                lemma_load_changed(
                    released.model,
                    h,
                    AssetLoad { state: LoadState::Unloading, ..released.model.loads[h] },
                    calls + freed.calls,
                );
                assert(freed.calls + released.calls =~= freed.calls);
                assert(freed.calls + Seq::<StorageCall>::empty() =~= freed.calls);
                assert(e.calls =~= freed.calls);
                assert(e.retired =~= Seq::empty());
                assert forall|k: u64| #[trigger] may_be_answered(m, k) implies may_be_answered(
                    e.model,
                    k,
                ) by {
                    assert(may_be_answered(freed.model, k));
                    assert(may_be_answered(released.model, k));
                }
            } else {
                assert(e.calls =~= freed.calls);
                assert(e.retired =~= Seq::empty());
                assert forall|k: u64| #[trigger] may_be_answered(m, k) implies may_be_answered(
                    e.model,
                    k,
                ) by {
                    assert(may_be_answered(freed.model, k));
                }
            }
        } else if e.model != m {
            assert(e.model == m.with_load(h, e.model.loads[h]));
            lemma_load_changed(m, h, e.model.loads[h], calls);
        }
    }
}

proof fn lemma_add_refs_reloads(m: LoaderModel, ids: Seq<AssetUuid>)
    ensures
        m.add_refs(ids).pending_reloads == m.pending_reloads,
    decreases ids.len(),
{
    if ids.len() > 0 {
        lemma_add_refs_reloads(m, ids.drop_last());
    }
}

proof fn lemma_release_reloads(m: LoaderModel, ids: Seq<AssetUuid>)
    ensures
        m.release(ids).model.pending_reloads == m.pending_reloads,
    decreases ids.len(),
{
    if ids.len() > 0 {
        lemma_release_reloads(m, ids.drop_last());
    }
}

proof fn lemma_walk_accounted(m: LoaderModel, order: Seq<u64>, calls: Seq<StorageCall>)
    requires
        sound(m),
        order.no_duplicates(),
        forall|i: int| 0 <= i < order.len() ==> m.loads.contains_key(#[trigger] order[i]),
        m.next_handle + dependency_total(m, order) <= u64::MAX,
        accounted(m, calls),
    ensures
        sound(m.walk(order).model),
        accounted(m.walk(order).model, calls + m.walk(order).calls),
        answers_kept(m, m.walk(order).model),
        forall|k: u64| #[trigger]
            m.walk(order).retired.contains(k) ==> order.contains(k) && m.walk(
                order,
            ).model.loads.contains_key(k) && m.walk(order).model.loads[k].state is Indeterminate,
    decreases order.len(),
{
    if order.len() == 0 {
        assert(calls + Seq::<StorageCall>::empty() =~= calls);
    } else {
        let front = order.drop_last();
        let h = order.last();
        assert forall|i: int| 0 <= i < front.len() implies m.loads.contains_key(
            #[trigger] front[i],
        ) by {
            assert(front[i] == order[i]);
        }
        assert(front.no_duplicates());
        lemma_walk_accounted(m, front, calls);
        lemma_walk_agrees(m, front);
        let before = m.walk(front);
        let next = before.model.advance(h);
        assert(m.loads.contains_key(order[order.len() - 1]));
        assert(dependency_count(before.model, h) == dependency_count(m, h));
        law_advance_agrees(before.model, h);
        law_advance_coherent(before.model, h);
        lemma_advance_accounted(before.model, h, calls + before.calls);
        assert(calls + before.calls + next.calls =~= calls + (before.calls + next.calls));
        let e = m.walk(order);
        assert forall|k: u64| #[trigger] may_be_answered(m, k) implies may_be_answered(
            e.model,
            k,
        ) by {
            assert(may_be_answered(before.model, k));
        }
        assert(front.push(h) =~= order);
        assert forall|k: u64| #[trigger] e.retired.contains(k) implies order.contains(k)
            && e.model.loads.contains_key(k) && e.model.loads[k].state is Indeterminate by {
            lemma_contains_push(front, h, k);
            if before.fault is None {
                lemma_contains_add(before.retired, next.retired, k);
                if !next.retired.contains(k) {
                    assert(before.retired.contains(k));
                    assert(front.contains(k));
                    let j = choose|j: int| 0 <= j < front.len() && front[j] == k;
                    assert(order[j] == k);
                    assert(order[order.len() - 1] == h);
                    lemma_advance_elsewhere(before.model, h, k);
                }
            } else {
                assert(before.retired.contains(k));
            }
        }
    }
}

/// Advancing all loads keeps a loader in keeping with the calls on the storage, as long as handles
/// are left.
proof fn lemma_advance_all_accounted(m: LoaderModel, order: Seq<u64>, calls: Seq<StorageCall>)
    requires
        sound(m),
        is_order_of(order, m),
        m.next_handle + dependency_total(m, order) <= u64::MAX,
        accounted(m, calls),
    ensures
        accounted(m.advance_all(order).model, calls + m.advance_all(order).calls),
        answers_kept(m, m.advance_all(order).model),
{
    assert forall|i: int| 0 <= i < order.len() implies m.loads.contains_key(
        #[trigger] order[i],
    ) by {
        assert(order.contains(order[i]));
    }
    lemma_walk_accounted(m, order, calls);
    let walked = m.walk(order);
    let e = m.advance_all(order);
    assert(e.calls =~= walked.calls);
    if walked.fault is None {
        let gone = walked.retired.to_set();
        assert forall|k: u64| #[trigger] e.model.loads.contains_key(k) implies fits(
            e.model.loads[k],
            standing(calls + e.calls, k),
            e.model.pending_reloads,
        ) by {
            assert(walked.model.loads.contains_key(k));
        }
        assert forall|k: u64| !(#[trigger] e.model.loads.contains_key(k)) implies standing(
            calls + e.calls,
            k,
        ).committed is None by {
            if walked.model.loads.contains_key(k) {
                assert(gone.contains(k));
                assert(walked.retired.contains(k));
                assert(fits(
                    walked.model.loads[k],
                    standing(calls + e.calls, k),
                    walked.model.pending_reloads,
                ));
                assert(coherent(walked.model.loads[k]));
            }
        }
        assert forall|k: u64| #[trigger] may_be_answered(m, k) implies may_be_answered(
            e.model,
            k,
        ) by {
            assert(may_be_answered(walked.model, k));
            if gone.contains(k) {
                assert(walked.retired.contains(k));
            }
        }
    }
}

/// Following a report of the engine keeps a loader in keeping with the calls on the storage.
proof fn lemma_apply_op_accounted(m: LoaderModel, op: HandleOp, calls: Seq<StorageCall>)
    requires
        all_coherent(m),
        accounted(m, calls),
    ensures
        accounted(m.apply_op(op).model, calls + m.apply_op(op).calls),
        answers_kept(m, m.apply_op(op).model),
{
    let e = m.apply_op(op);
    assert(calls + Seq::<StorageCall>::empty() =~= calls);
    if op is LoadComplete && e.fault is None {
        let h = op->LoadComplete_0.0;
        let load = m.loads[h];
        assert(m.loads.contains_key(h));
        assert(fits(load, standing(calls, h), m.pending_reloads));
        assert(coherent(load));
        if load.auto_commit {
            let call = e.calls[0];
            assert(calls + e.calls =~= calls.push(call));
            lemma_load_called(m, h, e.model.loads[h], calls, call);
        } else {
            lemma_load_changed(m, h, e.model.loads[h], calls);
        }
    }
}

proof fn lemma_apply_ops_accounted(m: LoaderModel, ops: Seq<HandleOp>, calls: Seq<StorageCall>)
    requires
        all_coherent(m),
        accounted(m, calls),
    ensures
        accounted(m.apply_ops(ops).model, calls + m.apply_ops(ops).calls),
        answers_kept(m, m.apply_ops(ops).model),
    decreases ops.len(),
{
    if ops.len() == 0 {
        assert(calls + Seq::<StorageCall>::empty() =~= calls);
    } else {
        let front = ops.drop_last();
        lemma_apply_ops_accounted(m, front, calls);
        law_apply_ops_coherent(m, front);
        let before = m.apply_ops(front);
        let asked = before.model.polled(Some(ops.last()));
        let next = asked.apply_op(ops.last());
        assert(accounted(asked, calls + before.calls));
        lemma_apply_op_accounted(asked, ops.last(), calls + before.calls);
        assert(calls + before.calls + next.calls =~= calls + (before.calls + next.calls));
        assert forall|k: u64| #[trigger] may_be_answered(m, k) implies may_be_answered(
            m.apply_ops(ops).model,
            k,
        ) by {
            assert(may_be_answered(before.model, k));
            assert(may_be_answered(asked, k));
        }
    }
}

proof fn lemma_follow_ops_accounted(m: LoaderModel, ops: Seq<HandleOp>, calls: Seq<StorageCall>)
    requires
        all_coherent(m),
        accounted(m, calls),
    ensures
        accounted(m.follow_ops(ops).model, calls + m.follow_ops(ops).calls),
        answers_kept(m, m.follow_ops(ops).model),
{
    lemma_apply_ops_accounted(m, ops, calls);
    let e = m.follow_ops(ops);
    let applied = m.apply_ops(ops);
    assert(e.calls =~= applied.calls);
    assert forall|k: u64| #[trigger] may_be_answered(m, k) implies may_be_answered(e.model, k) by {
        assert(may_be_answered(applied.model, k));
    }
}

/// Noting changes while nothing is being reloaded keeps a loader in keeping with the calls on the
/// storage.
proof fn lemma_note_changes_accounted(
    m: LoaderModel,
    ids: Seq<AssetUuid>,
    calls: Seq<StorageCall>,
)
    requires
        tables_agree(m),
        all_coherent(m),
        accounted(m, calls),
        m.pending_reloads.len() == 0,
    ensures
        accounted(m.note_changes(ids), calls),
        answers_kept(m, m.note_changes(ids)),
        forall|k: u64| #[trigger]
            m.note_changes(ids).loads.contains_key(k) ==> m.note_changes(ids).loads[k].auto_commit,
        m.note_changes(ids).handles == m.handles,
        forall|k: u64| #[trigger]
            m.note_changes(ids).loads.contains_key(k) ==> m.loads.contains_key(k)
                && m.note_changes(ids).loads[k].asset_id == m.loads[k].asset_id,
    decreases ids.len(),
{
    if ids.len() == 0 {
        assert forall|k: u64| #[trigger] m.loads.contains_key(k) implies m.loads[k].auto_commit by {
            assert(fits(m.loads[k], standing(calls, k), m.pending_reloads));
        }
    } else {
        let front = ids.drop_last();
        let id = ids.last();
        lemma_note_changes_accounted(m, front, calls);
        let before = m.note_changes(front);
        let n = m.note_changes(ids);
        if before.load_of(id) is Some && before.load_of(id)->0.requested_version is Some {
            let h = before.handles[id];
            let version = before.loads[h].requested_version->0;
            let more = n.pending_reloads;
            assert(before.loads.contains_key(h));
            assert(before.loads[h].asset_id == id) by {
                assert(m.loads.contains_key(h));
                assert(m.handles.contains_key(m.loads[h].asset_id));
                if m.loads[h].asset_id != id {
                    assert(m.handles.contains_key(id));
                }
            }
            assert(fits(before.loads[h], standing(calls, h), before.pending_reloads));
            assert(more[more.len() - 1] == PendingReload { asset_id: id, version_before: version });
            assert(has_reload(more, id, version));
            assert forall|k: u64| #[trigger] n.loads.contains_key(k) implies fits(
                n.loads[k],
                standing(calls, k),
                more,
            ) by {
                assert(before.loads.contains_key(k));
                assert(fits(before.loads[k], standing(calls, k), before.pending_reloads));
                if k != h && before.loads[k].pending_reload {
                    let v = match before.loads[k].requested_version {
                        Some(version) => version,
                        None => 0,
                    };
                    lemma_reload_stays(
                        before.pending_reloads,
                        more.last(),
                        before.loads[k].asset_id,
                        v,
                    );
                }
            }
            assert forall|k: u64| !(#[trigger] n.loads.contains_key(k)) implies standing(
                calls,
                k,
            ).committed is None by {
                assert(!before.loads.contains_key(k));
            }
        }
        assert forall|k: u64| #[trigger] may_be_answered(m, k) implies may_be_answered(n, k) by {
            assert(may_be_answered(before, k));
        }
    }
}

/// A pending reload stays pending when there is one more.
proof fn lemma_reload_stays(
    reloads: Seq<PendingReload>,
    one: PendingReload,
    id: AssetUuid,
    version: u32,
)
    requires
        has_reload(reloads, id, version),
    ensures
        has_reload(reloads.push(one), id, version),
{
    let i = choose|i: int|
        0 <= i < reloads.len() && (#[trigger] reloads[i]).asset_id == id && version
            <= reloads[i].version_before;
    assert(reloads.push(one)[i] == reloads[i]);
}

proof fn lemma_note_deletions_accounted(
    m: LoaderModel,
    ids: Seq<AssetUuid>,
    calls: Seq<StorageCall>,
)
    requires
        all_coherent(m),
        accounted(m, calls),
    ensures
        accounted(m.note_deletions(ids), calls),
        answers_kept(m, m.note_deletions(ids)),
        all_coherent(m.note_deletions(ids)),
    decreases ids.len(),
{
    if ids.len() > 0 {
        let front = ids.drop_last();
        let id = ids.last();
        lemma_note_deletions_accounted(m, front, calls);
        let before = m.note_deletions(front);
        let n = m.note_deletions(ids);
        if before.load_of(id) is Some && before.load_of(id)->0.state == LoadState::Loaded(
            AssetLoadState::Loaded,
        ) {
            let h = before.handles[id];
            assert(before.loads.contains_key(h));
            assert(coherent(before.loads[h]));
            lemma_load_changed(before, h, n.loads[h], calls);
        }
        assert forall|k: u64| #[trigger] may_be_answered(m, k) implies may_be_answered(n, k) by {
            assert(may_be_answered(before, k));
        }
    }
}

/// Committing finished reloads keeps a loader in keeping with the calls on the storage, and leaves
/// those loads to be committed at once that the reloads are about.
proof fn lemma_commit_reloads_accounted(
    m: LoaderModel,
    reloads: Seq<PendingReload>,
    calls: Seq<StorageCall>,
)
    requires
        sound(m),
        accounted(m, calls),
        forall|i: int|
            0 <= i < m.pending_reloads.len() ==> m.progress(
                #[trigger] m.pending_reloads[i],
            ) is Finished,
        forall|i: int|
            0 <= i < reloads.len() ==> m.progress(#[trigger] reloads[i]) is Finished,
    ensures
        ({
            let e = m.commit_reloads(reloads);
            &&& accounted(e.model, calls + e.calls)
            &&& answers_kept(m, e.model)
            &&& e.model.pending_reloads == m.pending_reloads
            &&& e.model.handles == m.handles
            &&& e.model.loads.dom() == m.loads.dom()
            &&& forall|k: u64| #[trigger]
                m.loads.contains_key(k) ==> {
                    let a = m.loads[k];
                    let b = e.model.loads[k];
                    &&& b.asset_id == a.asset_id
                    &&& b.requested_version == a.requested_version
                    &&& b.pending_reload == a.pending_reload
                    &&& b == a || b.auto_commit
                    &&& (exists|i: int|
                        0 <= i < reloads.len() && (#[trigger] reloads[i]).asset_id == a.asset_id)
                        ==> b.auto_commit
                }
        }),
    decreases reloads.len(),
{
    let e = m.commit_reloads(reloads);
    if reloads.len() == 0 {
        assert(calls + Seq::<StorageCall>::empty() =~= calls);
    } else {
        let front = reloads.drop_last();
        let last = reloads.last();
        assert(reloads[reloads.len() - 1] == last);
        assert forall|i: int| 0 <= i < front.len() implies m.progress(
            #[trigger] front[i],
        ) is Finished by {
            assert(front[i] == reloads[i]);
        }
        lemma_commit_reloads_accounted(m, front, calls);
        lemma_commit_reloads_coherent(m, front);
        let before = m.commit_reloads(front);
        let next = before.model.commit_reload(last);
        let h = m.handles[last.asset_id];
        let calls1 = calls + before.calls;
        assert(calls1 + next.calls =~= calls + (before.calls + next.calls));
        if before.model.load_of(last.asset_id) is Some {
            assert(before.model.loads.contains_key(h));
            assert(m.loads.contains_key(h));
            assert(m.loads[h].asset_id == last.asset_id) by {
                assert(m.handles.contains_key(m.loads[h].asset_id));
                if m.loads[h].asset_id != last.asset_id {
                    assert(m.handles.contains_key(last.asset_id));
                }
            }
            let load = before.model.loads[h];
            assert(fits(load, standing(calls1, h), m.pending_reloads));
            assert(coherent(load));
            assert(m.progress(last) is Finished);
            if load.state.sub_state() == Some(AssetLoadState::LoadedUncommitted) {
                assert(!load.auto_commit);
                assert(load == m.loads[h]);
                let i = choose|i: int|
                    0 <= i < m.pending_reloads.len() && (#[trigger] m.pending_reloads[i]).asset_id
                        == load.asset_id && load.loaded_version->0
                        <= m.pending_reloads[i].version_before;
                assert(m.progress(m.pending_reloads[i]) is Finished);
                assert(newer(load));
                let call = next.calls[0];
                assert(next.calls =~= seq![call]);
                assert(calls1 + next.calls =~= calls1.push(call));
                assert(next.model == before.model.with_load(h, next.model.loads[h])) by {
                    assert(next.model.loads =~= before.model.loads.insert(h, next.model.loads[h]));
                }
                lemma_load_called(before.model, h, next.model.loads[h], calls1, call);
            } else {
                assert(calls1 + next.calls =~= calls1);
            }
        } else {
            assert(calls1 + next.calls =~= calls1);
        }
        assert(e.model.loads.dom() =~= m.loads.dom());
        assert forall|k: u64| #[trigger] may_be_answered(m, k) implies may_be_answered(
            e.model,
            k,
        ) by {
            assert(may_be_answered(before.model, k));
        }
        assert forall|k: u64| #[trigger] m.loads.contains_key(k) implies {
            let a = m.loads[k];
            let b = e.model.loads[k];
            &&& b.asset_id == a.asset_id
            &&& b.requested_version == a.requested_version
            &&& b.pending_reload == a.pending_reload
            &&& b == a || b.auto_commit
            &&& (exists|i: int|
                0 <= i < reloads.len() && (#[trigger] reloads[i]).asset_id == a.asset_id)
                ==> b.auto_commit
        } by {
            let a = m.loads[k];
            let b = e.model.loads[k];
            if exists|i: int|
                0 <= i < reloads.len() && (#[trigger] reloads[i]).asset_id == a.asset_id {
                let i = choose|i: int|
                    0 <= i < reloads.len() && (#[trigger] reloads[i]).asset_id == a.asset_id;
                if i < front.len() {
                    assert(front[i].asset_id == a.asset_id);
                } else {
                    assert(m.handles.contains_key(a.asset_id));
                    assert(k == h);
                    assert(before.model.load_of(last.asset_id) is Some);
                    assert(m.progress(last) is Finished);
                    assert(coherent(before.model.loads[k]));
                    assert(fits(before.model.loads[k], standing(calls1, k), m.pending_reloads));
                }
            }
        }
    }
}

/// Following changes keeps a loader in keeping with the calls on the storage.
proof fn lemma_process_changes_accounted(
    m: LoaderModel,
    changes: Option<ChangeSet>,
    calls: Seq<StorageCall>,
)
    requires
        sound(m),
        accounted(m, calls),
    ensures
        accounted(m.process_changes(changes).model, calls + m.process_changes(changes).calls),
        answers_kept(m, m.process_changes(changes).model),
{
    let e = m.process_changes(changes);
    assert(calls + Seq::<StorageCall>::empty() =~= calls);
    if m.pending_reloads.len() == 0 {
        if changes is Some {
            let set = changes->0;
            let noted = m.note_changes(set.changed);
            lemma_note_changes_accounted(m, set.changed, calls);
            lemma_note_changes_coherent(m, set.changed);
            lemma_note_deletions_accounted(noted, set.deleted, calls);
            assert forall|k: u64| #[trigger] may_be_answered(m, k) implies may_be_answered(
                e.model,
                k,
            ) by {
                assert(may_be_answered(noted, k));
            }
        }
    } else {
        law_reloads_are_atomic(m);
        lemma_progress_of_all(m, m.pending_reloads);
        if m.progress_of_all(m.pending_reloads) is Finished {
            let c = m.commit_reloads(m.pending_reloads);
            lemma_commit_reloads_accounted(m, m.pending_reloads, calls);
            lemma_commit_reloads_coherent(m, m.pending_reloads);
            assert(e.calls =~= c.calls);
            assert forall|k: u64| #[trigger] e.model.loads.contains_key(k) implies fits(
                e.model.loads[k],
                standing(calls + e.calls, k),
                e.model.pending_reloads,
            ) by {
                let load = e.model.loads[k];
                assert(m.loads.contains_key(k));
                assert(c.model.loads.contains_key(k));
                assert(fits(load, standing(calls + e.calls, k), m.pending_reloads));
                assert(m.handles.contains_key(load.asset_id));
                assert(coherent(m.loads[k]));
                if !load.auto_commit {
                    let i = choose|i: int|
                        0 <= i < m.pending_reloads.len() && (
                        #[trigger] m.pending_reloads[i]).asset_id == load.asset_id;
                    assert(m.pending_reloads[i].asset_id == m.loads[k].asset_id);
                }
                if load.pending_reload {
                    let v = match load.requested_version {
                        Some(version) => version,
                        None => 0,
                    };
                    let i = choose|i: int|
                        0 <= i < m.pending_reloads.len() && (
                        #[trigger] m.pending_reloads[i]).asset_id == load.asset_id && v
                            <= m.pending_reloads[i].version_before;
                    assert(m.progress(m.pending_reloads[i]) is Finished);
                }
            }
            assert forall|k: u64| !(#[trigger] e.model.loads.contains_key(k)) implies standing(
                calls + e.calls,
                k,
            ).committed is None by {
                assert(!c.model.loads.contains_key(k));
            }
            assert forall|k: u64| #[trigger] may_be_answered(m, k) implies may_be_answered(
                e.model,
                k,
            ) by {
                assert(may_be_answered(c.model, k));
            }
        }
    }
}

/// Whether `n` comes from `m` by changing where loads stand that are neither loading nor loaded nor
/// about to be freed, and what is known of assets.
pub open spec fn calm(m: LoaderModel, n: LoaderModel) -> bool {
    &&& n.loads.dom() == m.loads.dom()
    &&& n.pending_reloads == m.pending_reloads
    &&& forall|k: u64| #[trigger]
        m.loads.contains_key(k) ==> n.loads[k] == m.loads[k] || {
            &&& n.loads[k] == (AssetLoad { state: n.loads[k].state, ..m.loads[k] })
            &&& m.loads[k].state is RequestingMetadata || m.loads[k].state is WaitingForMetadata
            &&& n.loads[k].state.sub_state() is None && !(n.loads[k].state is UnloadRequested)
        }
}

proof fn lemma_calm_accounted(m: LoaderModel, n: LoaderModel, calls: Seq<StorageCall>)
    requires
        accounted(m, calls),
        calm(m, n),
    ensures
        accounted(n, calls),
        answers_kept(m, n),
{
    assert forall|k: u64| #[trigger] n.loads.contains_key(k) implies fits(
        n.loads[k],
        standing(calls, k),
        n.pending_reloads,
    ) by {
        assert(m.loads.contains_key(k));
        assert(fits(m.loads[k], standing(calls, k), m.pending_reloads));
    }
    assert forall|k: u64| !(#[trigger] n.loads.contains_key(k)) implies standing(
        calls,
        k,
    ).committed is None by {
        assert(!m.loads.contains_key(k));
    }
    assert forall|k: u64| #[trigger] may_be_answered(m, k) implies may_be_answered(n, k) by {
        assert(m.loads.contains_key(k));
    }
}

proof fn lemma_records_accounted(
    m: LoaderModel,
    records: Seq<AssetRecord>,
    calls: Seq<StorageCall>,
)
    requires
        accounted(m, calls),
    ensures
        accounted(after_records(m, records), calls),
        answers_kept(m, after_records(m, records)),
    decreases records.len(),
{
    if records.len() > 0 {
        let before = after_records(m, records.drop_last());
        let n = after_records(m, records);
        lemma_records_accounted(m, records.drop_last(), calls);
        assert(n.loads.dom() =~= before.loads.dom());
        lemma_calm_accounted(before, n, calls);
        assert forall|k: u64| #[trigger] may_be_answered(m, k) implies may_be_answered(n, k) by {
            assert(may_be_answered(before, k));
        }
    }
}

proof fn lemma_ask_again_accounted(
    m: LoaderModel,
    requested: Seq<(AssetUuid, LoadHandle)>,
    calls: Seq<StorageCall>,
)
    requires
        accounted(m, calls),
    ensures
        accounted(m.ask_again_all(requested).model, calls),
        answers_kept(m, m.ask_again_all(requested).model),
        m.ask_again_all(requested).calls == Seq::<StorageCall>::empty(),
    decreases requested.len(),
{
    if requested.len() > 0 {
        let front = requested.drop_last();
        let before = m.ask_again_all(front).model;
        let n = m.ask_again_all(requested).model;
        lemma_ask_again_accounted(m, front, calls);
        assert(n.loads.dom() =~= before.loads.dom());
        lemma_calm_accounted(before, n, calls);
        assert forall|k: u64| #[trigger] may_be_answered(m, k) implies may_be_answered(n, k) by {
            assert(may_be_answered(before, k));
        }
    }
}

proof fn lemma_settle_all_metadata_accounted(
    m: LoaderModel,
    settled: Seq<(Option<MetadataResponse>, Vec<(AssetUuid, LoadHandle)>)>,
    calls: Seq<StorageCall>,
)
    requires
        accounted(m, calls),
    ensures
        accounted(m.settle_all_metadata(settled).model, calls),
        answers_kept(m, m.settle_all_metadata(settled).model),
        m.settle_all_metadata(settled).calls == Seq::<StorageCall>::empty(),
    decreases settled.len(),
{
    if settled.len() > 0 {
        let front = settled.drop_last();
        let last = settled.last();
        lemma_settle_all_metadata_accounted(m, front, calls);
        let before = m.settle_all_metadata(front).model;
        lemma_ask_again_accounted(before, last.1@, calls);
        let e = before.settle_metadata(last.0, last.1@);
        if last.0 is Some && (last.0->0).assets is Ok {
            let records = (last.0->0).assets->Ok_0@;
            lemma_records_accounted(before, records, calls);
            lemma_ask_again_accounted(after_records(before, records), last.1@, calls);
            assert forall|k: u64| #[trigger] may_be_answered(before, k) implies may_be_answered(
                e.model,
                k,
            ) by {
                assert(may_be_answered(after_records(before, records), k));
            }
        }
        assert forall|k: u64| #[trigger] may_be_answered(m, k) implies may_be_answered(
            m.settle_all_metadata(settled).model,
            k,
        ) by {
            assert(may_be_answered(before, k));
        }
    }
}

/// Following the answer to a request for data that may be under way keeps a loader in keeping with
/// the calls on the storage.
proof fn lemma_settle_data_accounted(
    m: LoaderModel,
    answer: Option<DataResponse>,
    handle: LoadHandle,
    accepted: bool,
    calls: Seq<StorageCall>,
)
    requires
        all_coherent(m),
        accounted(m, calls),
        may_be_answered(m, handle.0),
    ensures
        accounted(
            m.settle_data(answer, handle, accepted).model,
            calls + m.settle_data(answer, handle, accepted).calls,
        ),
        forall|k: u64|
            k != handle.0 && #[trigger] may_be_answered(m, k) ==> may_be_answered(
                m.settle_data(answer, handle, accepted).model,
                k,
            ),
{
    let h = handle.0;
    let e = m.settle_data(answer, handle, accepted);
    let load = m.loads[h];
    assert(fits(load, standing(calls, h), m.pending_reloads));
    assert(coherent(load));
    assert(calls + Seq::<StorageCall>::empty() =~= calls);
    if e.calls.len() == 0 {
        assert(calls + e.calls =~= calls);
        if e.fault is None {
            let n = m.retry_data(h).model;
            assert(e.model == n);
            assert(fits(n.loads[h], standing(calls, h), m.pending_reloads));
            lemma_other_load_changed(m, h, n.loads[h], calls);
        }
    } else {
        let call = e.calls[0];
        assert(e.calls =~= seq![call]);
        assert(calls + e.calls =~= calls.push(call));
        assert(e.model == m.with_load(h, e.model.loads[h]));
        if load.pending_reload && accepted {
            lemma_reload_from_one(m.pending_reloads, load.asset_id);
        }
        lemma_load_called(m, h, e.model.loads[h], calls, call);
    }
}

/// A reload that is pending is pending from the first version on.
proof fn lemma_reload_from_one(reloads: Seq<PendingReload>, id: AssetUuid)
    requires
        has_reload(reloads, id, 0),
        forall|i: int| 0 <= i < reloads.len() ==> (#[trigger] reloads[i]).version_before >= 1,
    ensures
        has_reload(reloads, id, 1),
{
    let i = choose|i: int|
        0 <= i < reloads.len() && (#[trigger] reloads[i]).asset_id == id && 0
            <= reloads[i].version_before;
    assert(reloads[i].version_before >= 1);
}

/// Changing the load `h`, without a call on the storage, whatever is under way for it.
proof fn lemma_other_load_changed(
    m: LoaderModel,
    h: u64,
    load: AssetLoad,
    calls: Seq<StorageCall>,
)
    requires
        accounted(m, calls),
        m.loads.contains_key(h),
        fits(load, standing(calls, h), m.pending_reloads),
    ensures
        accounted(m.with_load(h, load), calls),
        forall|k: u64|
            k != h && #[trigger] may_be_answered(m, k) ==> may_be_answered(m.with_load(h, load), k),
{
    let n = m.with_load(h, load);
    assert forall|k: u64| #[trigger] n.loads.contains_key(k) implies fits(
        n.loads[k],
        standing(calls, k),
        n.pending_reloads,
    ) by {
        assert(m.loads.contains_key(k));
    }
    assert forall|k: u64| !(#[trigger] n.loads.contains_key(k)) implies standing(
        calls,
        k,
    ).committed is None by {
        assert(!m.loads.contains_key(k));
    }
}

proof fn lemma_settle_all_data_accounted(
    m: LoaderModel,
    settled: Seq<(Option<DataResponse>, LoadHandle)>,
    accepted: Seq<bool>,
    calls: Seq<StorageCall>,
)
    requires
        all_coherent(m),
        accounted(m, calls),
        settled_handles(settled).no_duplicates(),
        forall|i: int| 0 <= i < settled.len() ==> may_be_answered(m, (#[trigger] settled[i]).1.0),
    ensures
        accounted(
            m.settle_all_data(settled, accepted).model,
            calls + m.settle_all_data(settled, accepted).calls,
        ),
        forall|k: u64| #[trigger]
            may_be_answered(m, k) && !settled_handles(settled).contains(LoadHandle(k))
                ==> may_be_answered(m.settle_all_data(settled, accepted).model, k),
    decreases settled.len(),
{
    if settled.len() == 0 {
        assert(calls + Seq::<StorageCall>::empty() =~= calls);
    } else {
        let front = settled.drop_last();
        let last = settled.last();
        assert(settled_handles(front) =~= settled_handles(settled).drop_last());
        assert(settled_handles(settled) =~= settled_handles(front).push(last.1));
        assert forall|i: int| 0 <= i < front.len() implies may_be_answered(
            m,
            (#[trigger] front[i]).1.0,
        ) by {
            assert(front[i] == settled[i]);
        }
        lemma_settle_all_data_accounted(m, front, accepted, calls);
        law_settle_all_data_coherent(m, front, accepted);
        let before = m.settle_all_data(front, accepted);
        assert(settled[settled.len() - 1] == last);
        assert(settled_handles(settled)[settled.len() - 1] == last.1);
        assert(!settled_handles(front).contains(last.1)) by {
            if settled_handles(front).contains(last.1) {
                let j = choose|j: int|
                    0 <= j < settled_handles(front).len() && settled_handles(front)[j] == last.1;
                assert(settled_handles(settled)[j] == last.1);
            }
        }
        assert(LoadHandle(last.1.0) == last.1);
        assert(may_be_answered(m, last.1.0));
        assert(may_be_answered(before.model, last.1.0));
        let taken = accepted[before.calls.len() as int];
        lemma_settle_data_accounted(before.model, last.0, last.1, taken, calls + before.calls);
        let next = before.model.settle_data(last.0, last.1, taken);
        assert(calls + before.calls + next.calls =~= calls + (before.calls + next.calls));
        assert forall|k: u64| #[trigger]
            may_be_answered(m, k) && !settled_handles(settled).contains(
                LoadHandle(k),
            ) implies may_be_answered(m.settle_all_data(settled, accepted).model, k) by {
            lemma_contains_push(settled_handles(front), last.1, LoadHandle(k));
            assert(may_be_answered(before.model, k));
        }
    }
}

proof fn lemma_requesting_accounted(m: LoaderModel, calls: Seq<StorageCall>)
    requires
        accounted(m, calls),
    ensures
        accounted(m.requesting_all_metadata(), calls),
        answers_kept(m, m.requesting_all_metadata()),
        accounted(m.requesting_all_data(), calls),
        answers_kept(m, m.requesting_all_data()),
        forall|k: u64| #[trigger]
            m.needs_data(k) ==> may_be_answered(m.requesting_all_data(), k),
{
    let a = m.requesting_all_metadata();
    assert(a.loads.dom() =~= m.loads.dom());
    lemma_calm_accounted(m, a, calls);
    let b = m.requesting_all_data();
    assert forall|k: u64| #[trigger] b.loads.contains_key(k) implies fits(
        b.loads[k],
        standing(calls, k),
        b.pending_reloads,
    ) by {
        assert(m.loads.contains_key(k));
        assert(fits(m.loads[k], standing(calls, k), m.pending_reloads));
    }
    assert forall|k: u64| !(#[trigger] b.loads.contains_key(k)) implies standing(
        calls,
        k,
    ).committed is None by {
        assert(!m.loads.contains_key(k));
    }
    assert forall|k: u64| #[trigger] m.needs_data(k) implies may_be_answered(b, k) by {
        assert(fits(m.loads[k], standing(calls, k), m.pending_reloads));
    }
}

/// Whether `handles` are, each once, loads for which a request for data may be under way.
pub open spec fn answerable(m: LoaderModel, handles: Seq<LoadHandle>) -> bool {
    &&& handles.no_duplicates()
    &&& forall|i: int| 0 <= i < handles.len() ==> may_be_answered(m, (#[trigger] handles[i]).0)
}

/// Requests that may be under way may still be so where nothing that may be answered is lost.
pub proof fn lemma_answerable_kept(m: LoaderModel, n: LoaderModel, handles: Seq<LoadHandle>)
    requires
        answerable(m, handles),
        answers_kept(m, n),
    ensures
        answerable(n, handles),
{
}

/// The part of a round in which changes and the engine's reports are followed.
proof fn lemma_reported_accounted(
    m: LoaderModel,
    changes: Option<ChangeSet>,
    ops: Seq<HandleOp>,
    calls: Seq<StorageCall>,
    handles: Seq<LoadHandle>,
)
    requires
        sound(m),
        accounted(m, calls),
        answerable(m, handles),
    ensures
        ({
            let e = reported(m, changes, ops);
            &&& sound(e.model)
            &&& accounted(e.model, calls + e.calls)
            &&& answerable(e.model, handles)
        }),
{
    let a = m.process_changes(changes);
    lemma_process_changes_accounted(m, changes, calls);
    lemma_answerable_kept(m, a.model, handles);
    lemma_reported_sound(m, changes, ops);
    if a.fault is None {
        let b = a.model.follow_ops(ops);
        let calls1 = calls + a.calls;
        law_process_changes_agrees(m, changes);
        law_process_changes_coherent(m, changes);
        lemma_follow_ops_accounted(a.model, ops, calls1);
        lemma_answerable_kept(a.model, b.model, handles);
        assert(calls1 + b.calls =~= calls + (a.calls + b.calls));
    }
}

proof fn lemma_reported_sound(m: LoaderModel, changes: Option<ChangeSet>, ops: Seq<HandleOp>)
    requires
        sound(m),
    ensures
        sound(reported(m, changes, ops).model),
{
    let a = m.process_changes(changes);
    law_process_changes_agrees(m, changes);
    law_process_changes_coherent(m, changes);
    law_apply_ops_agree(a.model, ops);
    law_apply_ops_coherent(a.model, ops);
}

/// The part of a round in which changes and the engine's reports are followed and the loads are
/// advanced keeps a loader in keeping with the calls on the storage, as long as handles are left:
/// what it commits is what it handed over last.
pub proof fn law_cycle_account(
    m: LoaderModel,
    changes: Option<ChangeSet>,
    ops: Seq<HandleOp>,
    order: Seq<u64>,
    calls: Seq<StorageCall>,
    handles: Seq<LoadHandle>,
)
    requires
        sound(m),
        accounted(m, calls),
        answerable(m, handles),
        ({
            let n = reported(m, changes, ops);
            n.fault is None ==> is_order_of(order, n.model) && n.model.next_handle
                + dependency_total(n.model, order) <= u64::MAX
        }),
    ensures
        ({
            let e = cycle(m, changes, ops, order);
            &&& accounted(e.model, calls + e.calls)
            &&& answerable(e.model, handles)
        }),
{
    let n = reported(m, changes, ops);
    lemma_reported_accounted(m, changes, ops, calls, handles);
    if n.fault is None {
        let c = n.model.advance_all(order);
        let calls1 = calls + n.calls;
        lemma_advance_all_accounted(n.model, order, calls1);
        lemma_answerable_kept(n.model, c.model, handles);
        assert(calls1 + c.calls =~= calls + (n.calls + c.calls));
    }
}

/// The part of a round in which answers with metadata are followed and metadata is requested makes
/// no call on the storage, and keeps a loader in keeping with the calls that were made.
pub proof fn law_metadata_account(
    m: LoaderModel,
    settled: Seq<(Option<MetadataResponse>, Vec<(AssetUuid, LoadHandle)>)>,
    calls: Seq<StorageCall>,
    handles: Seq<LoadHandle>,
)
    requires
        accounted(m, calls),
        answerable(m, handles),
    ensures
        ({
            let e = m.settle_all_metadata(settled);
            &&& e.calls.len() == 0
            &&& accounted(e.model, calls)
            &&& accounted(e.model.requesting_all_metadata(), calls)
            &&& answerable(e.model, handles)
            &&& answerable(e.model.requesting_all_metadata(), handles)
        }),
{
    lemma_settle_all_metadata_accounted(m, settled, calls);
    let n = m.settle_all_metadata(settled).model;
    lemma_answerable_kept(m, n, handles);
    lemma_requesting_accounted(n, calls);
    lemma_answerable_kept(n, n.requesting_all_metadata(), handles);
}

/// The part of a round in which answers with data are followed and data is requested keeps a loader
/// in keeping with the calls on the storage: each version that it hands over is one more than the
/// version committed last, or the first.
pub proof fn law_data_account<P>(
    m: LoaderModel,
    requests: Seq<ResponsePromise<P, DataResponse, LoadHandle>>,
    accepted: Seq<bool>,
    calls: Seq<StorageCall>,
)
    requires
        sound(m),
        accounted(m, calls),
        answerable(m, handles_of(requests)),
    ensures
        ({
            let e = m.settle_all_data(settlements(requests), accepted);
            &&& accounted(e.model, calls + e.calls)
            &&& accounted(e.model.requesting_all_data(), calls + e.calls)
            &&& answerable(e.model, handles_of(unsettled(requests)))
            &&& forall|list: Seq<(AssetUuid, LoadHandle)>|
                #![trigger listed(list)]
                lists_exactly(list, e.model, |h: u64| e.model.needs_data(h)) ==> answerable(
                    e.model.requesting_all_data(),
                    handles_of(unsettled(requests)) + listed(list),
                )
        }),
{
    let settled = settlements(requests);
    let left = handles_of(unsettled(requests));
    lemma_divided(requests, 0);
    assert forall|i: int| 0 <= i < settled.len() implies may_be_answered(
        m,
        (#[trigger] settled[i]).1.0,
    ) by {
        assert(settled_handles(settled)[i] == settled[i].1);
        assert(settled_handles(settled).contains(settled[i].1));
        assert(handles_of(requests).contains(settled[i].1));
    }
    lemma_settle_all_data_accounted(m, settled, accepted, calls);
    let e = m.settle_all_data(settled, accepted);
    assert forall|i: int| 0 <= i < left.len() implies may_be_answered(
        e.model,
        (#[trigger] left[i]).0,
    ) by {
        assert(left.contains(left[i]));
        assert(handles_of(requests).contains(left[i]));
        assert(LoadHandle(left[i].0) == left[i]);
        assert(may_be_answered(m, left[i].0));
    }
    lemma_requesting_accounted(e.model, calls + e.calls);
    let n = e.model.requesting_all_data();
    assert forall|list: Seq<(AssetUuid, LoadHandle)>|
        #![trigger listed(list)]
        lists_exactly(list, e.model, |h: u64| e.model.needs_data(h)) implies answerable(
        n,
        left + listed(list),
    ) by {
        let new = listed(list);
        let all = left + new;
        assert forall|j: int| 0 <= j < new.len() implies e.model.needs_data(
            (#[trigger] new[j]).0,
        ) by {
            assert(list.contains((list[j].0, list[j].1)));
        }
        assert forall|i: int| 0 <= i < all.len() implies may_be_answered(
            n,
            (#[trigger] all[i]).0,
        ) by {
            if i < left.len() {
                assert(all[i] == left[i]);
                assert(may_be_answered(e.model, left[i].0));
            } else {
                assert(all[i] == new[i - left.len()]);
            }
        }
        assert forall|i: int, j: int|
            0 <= i < all.len() && 0 <= j < all.len() && i != j implies all[i] != all[j] by {
            let (a, b) = if i < j {
                (i, j)
            } else {
                (j, i)
            };
            if all[a] == all[b] {
                if b < left.len() {
                    assert(left[a] == left[b]);
                } else if a >= left.len() {
                    let x = a - left.len();
                    let y = b - left.len();
                    assert(new[x] == new[y]);
                    assert(list.contains((list[x].0, list[x].1)));
                    assert(list.contains((list[y].0, list[y].1)));
                    assert(list[x] == list[y]);
                } else {
                    assert(may_be_answered(e.model, left[a].0));
                    assert(e.model.needs_data(new[b - left.len()].0));
                }
            }
        }
    }
}

proof fn lemma_handed_when(calls: Seq<StorageCall>, h: u64) -> (j: int)
    requires
        standing(calls, h).handed is Some,
    ensures
        0 <= j < calls.len(),
        calls[j] matches StorageCall::Update { asset_type, handle, version, accepted, .. }
            && accepted && handle.0 == h && standing(calls, h).handed == Some((asset_type, version)),
        forall|l: int| j < l < calls.len() ==> subject(#[trigger] calls[l]) != h,
    decreases calls.len(),
{
    let front = calls.drop_last();
    if subject(calls.last()) == h {
        calls.len() - 1
    } else {
        let j = lemma_handed_when(front, h);
        assert(front[j] == calls[j]);
        assert forall|l: int| j < l < calls.len() implies subject(#[trigger] calls[l]) != h by {
            if l < front.len() {
                assert(front[l] == calls[l]);
            }
        }
        j
    }
}

/// Every commit is of the type and version that the storage was handed last for that load and took,
/// with no other call for that load in between. So no version is committed twice.
pub proof fn law_commit_is_of_last_update(calls: Seq<StorageCall>, i: int)
    requires
        in_order(calls),
        0 <= i < calls.len(),
        calls[i] is Commit,
    ensures
        exists|j: int|
            {
                &&& 0 <= j < i
                &&& #[trigger] calls[j] matches StorageCall::Update {
                    asset_type,
                    handle,
                    version,
                    accepted,
                    ..
                }
                &&& accepted
                &&& calls[i] == (StorageCall::Commit { asset_type, handle, version })
                &&& forall|l: int| j < l < i ==> subject(#[trigger] calls[l]) != handle.0
            },
{
    let before = calls.take(i);
    let j = lemma_handed_when(before, subject(calls[i]));
    assert(before[j] == calls[j]);
    assert forall|l: int| j < l < i implies subject(#[trigger] calls[l]) != subject(calls[i]) by {
        assert(before[l] == calls[l]);
    }
}

/// Whether of `calls` the one at `j` is the last commit for the load `h`, not freed since.
pub open spec fn last_commit(calls: Seq<StorageCall>, h: u64, j: int) -> bool {
    &&& 0 <= j < calls.len()
    &&& calls[j] is Commit
    &&& subject(calls[j]) == h
    &&& forall|l: int|
        j < l < calls.len() && subject(#[trigger] calls[l]) == h ==> calls[l] is Update
}

/// The version that a load stands with as committed is that of the last commit, not freed since.
proof fn lemma_committed_when(calls: Seq<StorageCall>, h: u64)
    ensures
        match standing(calls, h).committed {
            Some(version) => exists|j: int| #[trigger]
                last_commit(calls, h, j) && calls[j]->Commit_version == version,
            None => forall|j: int| !(#[trigger] last_commit(calls, h, j)),
        },
    decreases calls.len(),
{
    if calls.len() > 0 {
        let front = calls.drop_last();
        let last = calls.len() - 1;
        lemma_committed_when(front, h);
        assert(calls[last] == calls.last());
        assert forall|j: int| 0 <= j < last && (subject(calls[last]) == h ==> calls[last] is Update)
            implies #[trigger] last_commit(calls, h, j) == last_commit(front, h, j) by {
            if last_commit(calls, h, j) {
                assert forall|l: int| j < l < front.len() && subject(#[trigger] front[l]) == h implies
                    front[l] is Update by {
                    assert(front[l] == calls[l]);
                }
            }
            if last_commit(front, h, j) {
                assert forall|l: int| j < l < calls.len() && subject(#[trigger] calls[l]) == h implies
                    calls[l] is Update by {
                    if l < last {
                        assert(front[l] == calls[l]);
                    }
                }
            }
        }
        if subject(calls[last]) == h && calls[last] is Commit {
            assert(last_commit(calls, h, last));
        } else if subject(calls[last]) == h && calls[last] is Free {
            assert forall|j: int| !(#[trigger] last_commit(calls, h, j)) by {
                if last_commit(calls, h, j) {
                    assert(j < last);
                }
            }
        } else {
            match standing(front, h).committed {
                Some(version) => {
                    let j = choose|j: int| #[trigger]
                        last_commit(front, h, j) && front[j]->Commit_version == version;
                    assert(last_commit(calls, h, j));
                },
                None => {
                    assert forall|j: int| !(#[trigger] last_commit(calls, h, j)) by {
                        if last_commit(calls, h, j) {
                            assert(j < last);
                            assert(last_commit(front, h, j));
                        }
                    }
                },
            }
        }
    }
}

/// Every version that the storage is handed is one more than the version committed last for that
/// load since it was freed last, or the first if none was.
pub proof fn law_update_is_of_next_version(calls: Seq<StorageCall>, i: int)
    requires
        in_order(calls),
        0 <= i < calls.len(),
        calls[i] is Update,
    ensures
        ({
            let h = subject(calls[i]);
            let version = calls[i]->Update_version;
            ||| version == 1 && forall|j: int| !(#[trigger] last_commit(calls.take(i), h, j))
            ||| exists|j: int| #[trigger]
                last_commit(calls.take(i), h, j) && version == calls[j]->Commit_version + 1
        }),
{
    let before = calls.take(i);
    lemma_committed_when(before, subject(calls[i]));
    assert(allowed(standing(before, subject(calls[i])), calls[i]));
    if standing(before, subject(calls[i])).committed is Some {
        let version = standing(before, subject(calls[i])).committed->0;
        let j = choose|j: int| #[trigger]
            last_commit(before, subject(calls[i]), j) && before[j]->Commit_version == version;
        assert(before[j] == calls[j]);
        assert(last_commit(calls.take(i), subject(calls[i]), j));
    }
}

} // verus!
