//! Hot reload: the assets of a set of changes become visible together.

use crate::channel::HandleOp;
use crate::ids::{AssetUuid, LoadHandle};
use crate::laws::coherence::{all_coherent, coherent, lemma_commit_reloads_coherent};
use crate::metadata::lemma_contains_push;
use crate::model::{quiet, LoaderModel, PendingReload, StorageCall};
use crate::state::{AssetLoad, AssetLoadState, LoadState, LoadStatus};
use vstd::prelude::*;

verus! {

/// Whether the load `h` is that of an asset in `reloads`.
pub open spec fn is_reloaded(m: LoaderModel, reloads: Seq<PendingReload>, h: u64) -> bool {
    exists|i: int|
        0 <= i < reloads.len() && m.handle((#[trigger] reloads[i]).asset_id) == Some(h)
}

/// Whether the load `h` is that of an asset in `reloads` and waits to be committed.
pub open spec fn awaits_commit(m: LoaderModel, reloads: Seq<PendingReload>, h: u64) -> bool {
    &&& m.loads.contains_key(h)
    &&& is_reloaded(m, reloads, h)
    &&& m.loads[h].state.sub_state() == Some(AssetLoadState::LoadedUncommitted)
}

/// A load whose version last handed over is in use.
pub open spec fn committed(load: AssetLoad) -> AssetLoad {
    AssetLoad {
        state: LoadState::Loaded(AssetLoadState::Loaded),
        loaded_version: load.requested_version,
        auto_commit: true,
        ..load
    }
}

/// The call that puts the version of `load` that was last handed over into use.
pub open spec fn commit_call(load: AssetLoad, h: u64) -> StorageCall {
    StorageCall::Commit {
        asset_type: load.asset_type->0,
        handle: LoadHandle(h),
        version: load.requested_version->0,
    }
}

/// All reloads are finished exactly when each is.
pub proof fn lemma_progress_of_all(m: LoaderModel, reloads: Seq<PendingReload>)
    ensures
        m.progress_of_all(reloads) is Finished <==> (forall|i: int|
            0 <= i < reloads.len() ==> m.progress(#[trigger] reloads[i]) is Finished),
        all_coherent(m) ==> !(m.progress_of_all(reloads) is NoVersion),
    decreases reloads.len(),
{
    if reloads.len() > 0 {
        let front = reloads.drop_last();
        lemma_progress_of_all(m, front);
        assert forall|i: int| 0 <= i < front.len() implies front[i] == reloads[i] by {}
        let last = reloads.last();
        assert(reloads[reloads.len() - 1] == last);
        if m.progress_of_all(reloads) is Finished {
            assert forall|i: int| 0 <= i < reloads.len() implies m.progress(
                #[trigger] reloads[i],
            ) is Finished by {
                if i < front.len() {
                    assert(m.progress(front[i]) is Finished);
                }
            }
        }
        if forall|i: int| 0 <= i < reloads.len() ==> m.progress(#[trigger] reloads[i]) is Finished {
            assert forall|i: int| 0 <= i < front.len() implies m.progress(
                #[trigger] front[i],
            ) is Finished by {
                assert(m.progress(reloads[i]) is Finished);
            }
        }
        if all_coherent(m) && m.load_of(last.asset_id) is Some {
            assert(m.loads.contains_key(m.handles[last.asset_id]));
        }
    }
}

/// Committing reloads commits exactly the loads that wait for it, with one call each.
proof fn lemma_commit_reloads(m: LoaderModel, reloads: Seq<PendingReload>)
    requires
        all_coherent(m),
    ensures
        ({
            let e = m.commit_reloads(reloads);
            &&& e.model.handles == m.handles
            &&& e.model.loads.dom() == m.loads.dom()
            &&& forall|h: u64| #[trigger]
                m.loads.contains_key(h) ==> e.model.loads[h] == (if awaits_commit(m, reloads, h) {
                    committed(m.loads[h])
                } else {
                    m.loads[h]
                })
            &&& e.calls.no_duplicates()
            &&& forall|call: StorageCall| #[trigger]
                e.calls.contains(call) <==> exists|h: u64| #[trigger]
                    awaits_commit(m, reloads, h) && call == commit_call(m.loads[h], h)
        }),
    decreases reloads.len(),
{
    let e = m.commit_reloads(reloads);
    if reloads.len() == 0 {
        assert forall|call: StorageCall| #[trigger] e.calls.contains(call) <==> exists|h: u64|
            #[trigger] awaits_commit(m, reloads, h) && call == commit_call(m.loads[h], h) by {}
    } else {
        let front = reloads.drop_last();
        let last = reloads.last();
        lemma_commit_reloads(m, front);
        lemma_commit_reloads_coherent(m, front);
        let before = m.commit_reloads(front);
        assert(front.push(last) =~= reloads);
        assert forall|h: u64| is_reloaded(m, reloads, h) == (is_reloaded(m, front, h) || m.handle(
            last.asset_id,
        ) == Some(h)) by {
            if is_reloaded(m, reloads, h) {
                let i = choose|i: int|
                    0 <= i < reloads.len() && m.handle((#[trigger] reloads[i]).asset_id) == Some(h);
                if i < front.len() {
                    assert(front[i] == reloads[i]);
                }
            }
            if is_reloaded(m, front, h) {
                let i = choose|i: int|
                    0 <= i < front.len() && m.handle((#[trigger] front[i]).asset_id) == Some(h);
                assert(reloads[i] == front[i]);
            }
            assert(reloads[reloads.len() - 1] == last);
        }
        let h0 = m.handles[last.asset_id];
        let acts = before.model.load_of(last.asset_id) is Some && before.model.loads[h0].state
            .sub_state() == Some(AssetLoadState::LoadedUncommitted);
        if acts {
            assert(before.model.loads.contains_key(h0));
            assert(m.loads.contains_key(h0));
            assert(coherent(before.model.loads[h0]));
            assert(!awaits_commit(m, front, h0));
            assert(before.model.loads[h0] == m.loads[h0]);
            assert(awaits_commit(m, reloads, h0));
            let call0 = commit_call(m.loads[h0], h0);
            assert(e.calls =~= before.calls.push(call0));
            assert(!before.calls.contains(call0)) by {
                if before.calls.contains(call0) {
                    let h = choose|h: u64| #[trigger]
                        awaits_commit(m, front, h) && call0 == commit_call(m.loads[h], h);
                    assert(h == h0);
                }
            }
            assert forall|call: StorageCall| #[trigger] e.calls.contains(call) <==> exists|h: u64|
                #[trigger] awaits_commit(m, reloads, h) && call == commit_call(m.loads[h], h) by {
                lemma_contains_push(before.calls, call0, call);
                if before.calls.contains(call) {
                    let h = choose|h: u64| #[trigger]
                        awaits_commit(m, front, h) && call == commit_call(m.loads[h], h);
                    assert(awaits_commit(m, reloads, h));
                }
                if exists|h: u64| #[trigger]
                    awaits_commit(m, reloads, h) && call == commit_call(m.loads[h], h) {
                    let h = choose|h: u64| #[trigger]
                        awaits_commit(m, reloads, h) && call == commit_call(m.loads[h], h);
                    if h != h0 {
                        assert(awaits_commit(m, front, h));
                    }
                }
            }
        } else {
            assert(e.calls =~= before.calls);
            assert forall|h: u64| awaits_commit(m, reloads, h) == awaits_commit(m, front, h) by {
                if m.handle(last.asset_id) == Some(h) && m.loads.contains_key(h) {
                    assert(before.model.loads.contains_key(h));
                }
            }
            assert forall|call: StorageCall| #[trigger] e.calls.contains(call) <==> exists|h: u64|
                #[trigger] awaits_commit(m, reloads, h) && call == commit_call(m.loads[h], h) by {
                if before.calls.contains(call) {
                    let h = choose|h: u64| #[trigger]
                        awaits_commit(m, front, h) && call == commit_call(m.loads[h], h);
                    assert(awaits_commit(m, reloads, h));
                }
                if exists|h: u64| #[trigger]
                    awaits_commit(m, reloads, h) && call == commit_call(m.loads[h], h) {
                    let h = choose|h: u64| #[trigger]
                        awaits_commit(m, reloads, h) && call == commit_call(m.loads[h], h);
                    assert(awaits_commit(m, front, h));
                }
            }
        }
        assert(e.model.loads.dom() =~= m.loads.dom());
    }
}

/// The assets of a set of changes become visible together. While one of the pending reloads is not
/// finished, nothing is committed. Once all are finished, every reloaded asset that waits to be
/// committed is committed, with one call each, the set of pending reloads becomes empty, and no
/// other load changes. Nothing can stand in the way.
pub proof fn law_reloads_are_atomic(m: LoaderModel)
    requires
        all_coherent(m),
    ensures
        m.finish_reloads().fault is None,
        (exists|i: int|
            0 <= i < m.pending_reloads.len() && !(m.progress(
                #[trigger] m.pending_reloads[i],
            ) is Finished)) ==> m.finish_reloads() == quiet(m),
        (forall|i: int|
            0 <= i < m.pending_reloads.len() ==> m.progress(
                #[trigger] m.pending_reloads[i],
            ) is Finished) ==> {
            let e = m.finish_reloads();
            &&& e.model.pending_reloads.len() == 0
            &&& e.model.handles == m.handles
            &&& e.model.loads.dom() == m.loads.dom()
            &&& forall|h: u64| #[trigger]
                m.loads.contains_key(h) ==> e.model.loads[h] == (if awaits_commit(
                    m,
                    m.pending_reloads,
                    h,
                ) {
                    committed(m.loads[h])
                } else {
                    m.loads[h]
                })
            &&& e.calls.no_duplicates()
            &&& forall|call: StorageCall| #[trigger]
                e.calls.contains(call) <==> exists|h: u64| #[trigger]
                    awaits_commit(m, m.pending_reloads, h) && call == commit_call(m.loads[h], h)
        },
{
    lemma_progress_of_all(m, m.pending_reloads);
    lemma_commit_reloads(m, m.pending_reloads);
    lemma_commit_reloads_coherent(m, m.pending_reloads);
    assert(m.commit_reloads(m.pending_reloads).calls + Seq::<StorageCall>::empty()
        =~= m.commit_reloads(m.pending_reloads).calls);
}

/// While an asset is being reloaded, the version in use stays in use: the asset keeps its status,
/// and a report that the engine has loaded the new version commits nothing.
pub proof fn law_reload_is_invisible(m: LoaderModel, h: u64)
    requires
        all_coherent(m),
        m.loads.contains_key(h),
        !m.loads[h].auto_commit,
    ensures
        m.status(h) == LoadStatus::Loaded,
        ({
            let e = m.apply_op(HandleOp::LoadComplete(LoadHandle(h)));
            &&& e.fault is None
            &&& e.calls.len() == 0
            &&& e.model.loads[h].loaded_version == m.loads[h].loaded_version
            &&& e.model.status(h) == LoadStatus::Loaded
        }),
{
    assert(coherent(m.loads[h]));
}

/// A loaded asset that has changed begins its reload with the version in use still in use, and its
/// next version is not committed by itself.
pub proof fn law_reload_begins(m: LoaderModel, h: u64)
    requires
        all_coherent(m),
        m.loads.contains_key(h),
        m.loads[h].state == LoadState::Loaded(AssetLoadState::Loaded),
        m.loads[h].refs > 0,
        m.loads[h].pending_reload,
    ensures
        ({
            let n = m.advance(h).model;
            &&& n.needs_data(h)
            &&& !n.loads[h].auto_commit
            &&& !n.loads[h].pending_reload
            &&& n.loads[h].loaded_version == m.loads[h].loaded_version
            &&& n.status(h) == LoadStatus::Loaded
        }),
{
    assert(coherent(m.loads[h]));
}

/// The version of an asset that was last handed to the engine.
pub open spec fn version_of(m: LoaderModel, id: AssetUuid) -> Option<u32> {
    match m.load_of(id) {
        Some(load) => load.requested_version,
        None => None,
    }
}

/// Exactly the changed assets that the engine was handed are to be reloaded, each with the version
/// that it had, and nothing else about the loads changes.
pub proof fn law_changes_are_noted(m: LoaderModel, ids: Seq<AssetUuid>)
    ensures
        ({
            let n = m.note_changes(ids);
            &&& n.handles == m.handles
            &&& n.loads.dom() == m.loads.dom()
            &&& forall|id: AssetUuid| #[trigger] version_of(n, id) == version_of(m, id)
            &&& forall|reload: PendingReload| #[trigger]
                n.pending_reloads.contains(reload) <==> m.pending_reloads.contains(reload) || (
                ids.contains(reload.asset_id) && version_of(m, reload.asset_id) == Some(
                    reload.version_before,
                ))
            &&& forall|h: u64| #[trigger]
                m.loads.contains_key(h) ==> n.loads[h] == (AssetLoad {
                    pending_reload: m.loads[h].pending_reload || exists|id: AssetUuid| #[trigger]
                        ids.contains(id) && m.handle(id) == Some(h) && version_of(m, id) is Some,
                    ..m.loads[h]
                })
        }),
    decreases ids.len(),
{
    if ids.len() > 0 {
        let front = ids.drop_last();
        let last = ids.last();
        law_changes_are_noted(m, front);
        let before = m.note_changes(front);
        let n = m.note_changes(ids);
        assert(front.push(last) =~= ids);
        assert forall|id: AssetUuid| #[trigger] ids.contains(id) == (front.contains(id) || id
            == last) by {
            lemma_contains_push(front, last, id);
        }
        assert(version_of(before, last) == version_of(m, last));
        assert(n.loads.dom() =~= m.loads.dom());
        assert forall|reload: PendingReload| #[trigger]
            n.pending_reloads.contains(reload) <==> m.pending_reloads.contains(reload) || (
            ids.contains(reload.asset_id) && version_of(m, reload.asset_id) == Some(
                reload.version_before,
            )) by {
            assert(before.pending_reloads.contains(reload) <==> m.pending_reloads.contains(reload)
                || (front.contains(reload.asset_id) && version_of(m, reload.asset_id) == Some(
                reload.version_before,
            )));
            if version_of(m, last) is Some {
                let added = PendingReload {
                    asset_id: last,
                    version_before: version_of(m, last)->0,
                };
                lemma_contains_push(before.pending_reloads, added, reload);
            }
        }
        assert forall|h: u64| #[trigger] m.loads.contains_key(h) implies n.loads[h] == (AssetLoad {
            pending_reload: m.loads[h].pending_reload || exists|id: AssetUuid| #[trigger]
                ids.contains(id) && m.handle(id) == Some(h) && version_of(m, id) is Some,
            ..m.loads[h]
        }) by {
            if exists|id: AssetUuid| #[trigger]
                front.contains(id) && m.handle(id) == Some(h) && version_of(m, id) is Some {
                let id = choose|id: AssetUuid| #[trigger]
                    front.contains(id) && m.handle(id) == Some(h) && version_of(m, id) is Some;
                assert(ids.contains(id));
            }
            assert(ids.contains(last));
            if exists|id: AssetUuid| #[trigger]
                ids.contains(id) && m.handle(id) == Some(h) && version_of(m, id) is Some {
                let id = choose|id: AssetUuid| #[trigger]
                    ids.contains(id) && m.handle(id) == Some(h) && version_of(m, id) is Some;
                if id != last {
                    assert(front.contains(id));
                }
            }
        }
    }
}

/// Whether the load `h` is loaded and its asset is one of `ids`.
pub open spec fn is_loaded_one_of(m: LoaderModel, ids: Seq<AssetUuid>, h: u64) -> bool {
    &&& m.loads[h].state == LoadState::Loaded(AssetLoadState::Loaded)
    &&& exists|id: AssetUuid| #[trigger] ids.contains(id) && m.handle(id) == Some(h)
}

/// Exactly the loaded assets that are gone are to be unloaded, and nothing else about the loads
/// changes: the next pass frees them, referenced or not.
pub proof fn law_deletions_are_noted(m: LoaderModel, ids: Seq<AssetUuid>)
    ensures
        ({
            let n = m.note_deletions(ids);
            &&& n.handles == m.handles
            &&& n.pending_reloads == m.pending_reloads
            &&& n.loads.dom() == m.loads.dom()
            &&& forall|h: u64| #[trigger]
                m.loads.contains_key(h) ==> n.loads[h] == (if is_loaded_one_of(m, ids, h) {
                    AssetLoad { state: LoadState::UnloadRequested, ..m.loads[h] }
                } else {
                    m.loads[h]
                })
        }),
    decreases ids.len(),
{
    if ids.len() > 0 {
        let front = ids.drop_last();
        let last = ids.last();
        law_deletions_are_noted(m, front);
        let before = m.note_deletions(front);
        let n = m.note_deletions(ids);
        assert(front.push(last) =~= ids);
        assert(n.loads.dom() =~= m.loads.dom());
        assert forall|id: AssetUuid| #[trigger] ids.contains(id) == (front.contains(id) || id
            == last) by {
            lemma_contains_push(front, last, id);
        }
        assert forall|h: u64| #[trigger] m.loads.contains_key(h) implies n.loads[h] == (
        if is_loaded_one_of(m, ids, h) {
            AssetLoad { state: LoadState::UnloadRequested, ..m.loads[h] }
        } else {
            m.loads[h]
        }) by {
            assert(ids.contains(last));
            if is_loaded_one_of(m, front, h) {
                let id = choose|id: AssetUuid| #[trigger]
                    front.contains(id) && m.handle(id) == Some(h);
                assert(ids.contains(id));
            }
            if is_loaded_one_of(m, ids, h) && m.handle(last) != Some(h) {
                let id = choose|id: AssetUuid| #[trigger]
                    ids.contains(id) && m.handle(id) == Some(h);
                assert(front.contains(id));
            }
        }
    }
}

} // verus!
