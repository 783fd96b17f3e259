//! The life of a load, from the first reference to the last.

use crate::channel::HandleOp;
use crate::ids::{AssetUuid, LoadHandle};
use crate::model::{update_plan, LoaderModel, StorageCall};
use crate::responses::{Artifact, DataResponse};
use crate::state::{AssetLoad, AssetLoadState, LoadState, LoadStatus};
use vstd::prelude::*;

verus! {

/// What referencing assets that have handles already leaves of a loader.
proof fn lemma_add_known_refs(m: LoaderModel, ids: Seq<AssetUuid>)
    requires
        forall|i: int| 0 <= i < ids.len() ==> m.handles.contains_key(#[trigger] ids[i]),
    ensures
        m.add_refs(ids).handles == m.handles,
        m.add_refs(ids).metadata == m.metadata,
        m.add_refs(ids).loads.dom() == m.loads.dom(),
        forall|h: u64| #[trigger]
            m.loads.contains_key(h) ==> m.add_refs(ids).loads[h] == (AssetLoad {
                refs: m.add_refs(ids).loads[h].refs,
                ..m.loads[h]
            }),
        forall|h: u64|
            #![trigger m.add_refs(ids).loads[h]]
            m.loads.contains_key(h) && (forall|i: int|
                0 <= i < ids.len() ==> m.handle(#[trigger] ids[i]) != Some(h))
                ==> m.add_refs(ids).loads[h] == m.loads[h],
    decreases ids.len(),
{
    if ids.len() > 0 {
        let front = ids.drop_last();
        assert forall|i: int| 0 <= i < front.len() implies front[i] == ids[i] by {}
        assert forall|i: int| 0 <= i < front.len() implies m.handles.contains_key(
            #[trigger] front[i],
        ) by {
            assert(front[i] == ids[i]);
        }
        lemma_add_known_refs(m, front);
        assert(ids[ids.len() - 1] == ids.last());
        assert(m.add_refs(ids).loads.dom() =~= m.loads.dom());
        assert forall|h: u64|
            #![trigger m.add_refs(ids).loads[h]]
            m.loads.contains_key(h) && (forall|i: int|
                0 <= i < ids.len() ==> m.handle(
                    #[trigger] ids[i],
                ) != Some(h)) implies m.add_refs(ids).loads[h] == m.loads[h] by {
            assert forall|i: int| 0 <= i < front.len() implies m.handle(#[trigger] front[i])
                != Some(h) by {
                assert(front[i] == ids[i]);
            }
            assert(m.add_refs(front).loads[h] == m.loads[h]);
        }
    }
}

/// What releasing assets that have handles leaves of a loader.
proof fn lemma_release_known(m: LoaderModel, ids: Seq<AssetUuid>)
    requires
        forall|i: int| 0 <= i < ids.len() ==> m.handles.contains_key(#[trigger] ids[i]),
    ensures
        m.release(ids).fault is None,
        m.release(ids).calls == Seq::<StorageCall>::empty(),
        m.release(ids).retired == Seq::<u64>::empty(),
        m.release(ids).model.handles == m.handles,
        m.release(ids).model.loads.dom() == m.loads.dom(),
        forall|h: u64|
            #![trigger m.release(ids).model.loads[h]]
            m.loads.contains_key(h) && (forall|i: int|
                0 <= i < ids.len() ==> m.handle(#[trigger] ids[i]) != Some(h)) ==> m.release(
                ids,
            ).model.loads[h] == m.loads[h],
    decreases ids.len(),
{
    if ids.len() > 0 {
        let front = ids.drop_last();
        assert forall|i: int| 0 <= i < front.len() implies m.handles.contains_key(
            #[trigger] front[i],
        ) by {
            assert(front[i] == ids[i]);
        }
        lemma_release_known(m, front);
        assert(ids[ids.len() - 1] == ids.last());
        assert(m.release(ids).model.loads.dom() =~= m.loads.dom());
        assert forall|h: u64|
            #![trigger m.release(ids).model.loads[h]]
            m.loads.contains_key(h) && (forall|i: int|
                0 <= i < ids.len() ==> m.handle(#[trigger] ids[i]) != Some(h)) implies m.release(
            ids,
        ).model.loads[h] == m.loads[h] by {
            assert forall|i: int| 0 <= i < front.len() implies m.handle(#[trigger] front[i])
                != Some(h) by {
                assert(front[i] == ids[i]);
            }
            assert(m.release(front).model.loads[h] == m.loads[h]);
        }
    }
}

/// An asset is fetched only after its dependencies: a load whose asset is neither loading nor
/// loaded gets there only by being advanced while it waits for its dependencies, and only if the
/// engine has loaded every one of them.
pub proof fn law_dependencies_come_first(m: LoaderModel, h: u64, k: u64)
    requires
        m.loads.contains_key(k) ==> m.loads[k].state.sub_state() is None,
        m.advance(h).model.loads.contains_key(k),
        m.advance(h).model.loads[k].state.sub_state() is Some,
    ensures
        k == h,
        m.loads.contains_key(h),
        m.loads[h].state is WaitingForDependencies,
        m.metadata.contains_key(m.loads[h].asset_id),
        m.dependencies_ready(m.metadata[m.loads[h].asset_id]),
        m.advance(h).model.needs_data(h),
{
    if m.loads.contains_key(h) {
        let load = m.loads[h];
        if load.state is RequestDependencies && m.metadata.contains_key(load.asset_id) {
            lemma_add_refs_no_sub_state(m, m.metadata[load.asset_id], k);
        }
        if load.state is UnloadRequested && m.metadata.contains_key(load.asset_id) {
            lemma_release_no_sub_state(m.free(h).model, m.metadata[load.asset_id], k);
        }
    }
}

proof fn lemma_add_refs_no_sub_state(m: LoaderModel, ids: Seq<AssetUuid>, k: u64)
    requires
        m.loads.contains_key(k) ==> m.loads[k].state.sub_state() is None,
    ensures
        m.add_refs(ids).loads.contains_key(k) ==> m.add_refs(ids).loads[k].state.sub_state() is None,
    decreases ids.len(),
{
    if ids.len() > 0 {
        lemma_add_refs_no_sub_state(m, ids.drop_last(), k);
    }
}

proof fn lemma_release_no_sub_state(m: LoaderModel, ids: Seq<AssetUuid>, k: u64)
    requires
        m.loads.contains_key(k) ==> m.loads[k].state.sub_state() is None,
    ensures
        m.release(ids).model.loads.contains_key(k)
            ==> m.release(ids).model.loads[k].state.sub_state() is None,
    decreases ids.len(),
{
    if ids.len() > 0 {
        lemma_release_no_sub_state(m, ids.drop_last(), k);
    }
}

/// A referenced asset whose metadata is known and whose dependencies the engine has loaded needs
/// three advances to ask for its data. None of them touches the storage.
pub proof fn law_ready_asset_asks_for_data(m: LoaderModel, h: u64)
    requires
        m.loads.contains_key(h),
        m.loads[h].state is Indeterminate,
        m.loads[h].refs > 0,
        m.metadata.contains_key(m.loads[h].asset_id),
        m.dependencies_ready(m.metadata[m.loads[h].asset_id]),
    ensures
        ({
            let a = m.advance(h);
            let b = a.model.advance(h);
            let c = b.model.advance(h);
            &&& a.fault is None && b.fault is None && c.fault is None
            &&& a.calls.len() == 0 && b.calls.len() == 0 && c.calls.len() == 0
            &&& a.model.status(h) == LoadStatus::Loading
            &&& b.model.status(h) == LoadStatus::Loading
            &&& c.model.status(h) == LoadStatus::Loading
            &&& c.model.needs_data(h)
        }),
{
    let deps = m.metadata[m.loads[h].asset_id];
    let a = m.advance(h).model;
    assert(a == m.with_state(h, LoadState::RequestDependencies));
    assert forall|i: int| 0 <= i < deps.len() implies a.handles.contains_key(
        #[trigger] deps[i],
    ) && a.handle(deps[i]) != Some(h) by {
        assert(m.dependency_ready(deps[i]));
    }
    lemma_add_known_refs(a, deps);
    let b = a.advance(h).model;
    assert(a.add_refs(deps).loads[h] == a.loads[h]);
    assert(b.loads[h].state is WaitingForDependencies);
    assert forall|i: int| 0 <= i < deps.len() implies b.dependency_ready(#[trigger] deps[i]) by {
        assert(m.dependency_ready(deps[i]));
        let d = m.handles[deps[i]];
        assert(a.loads.contains_key(d));
    }
    assert(b.dependencies_ready(deps));
}

/// An asset that asks for its data and gets it becomes available: the storage is handed the next
/// version, takes it, and once the engine reports that it has loaded it, that version is committed.
pub proof fn law_data_makes_asset_available(
    m: LoaderModel,
    h: u64,
    artifact: Artifact,
    response: DataResponse,
)
    requires
        m.loads.contains_key(h),
        m.loads[h].state == LoadState::LoadingAsset(AssetLoadState::WaitingForData),
        m.loads[h].auto_commit,
        m.loads[h].loaded_version is None,
        response.artifacts matches Ok(list) && list@.len() > 0 && list@[0] == artifact,
        update_plan(m.requesting_all_data().loads[h], artifact) is Ok,
    ensures
        ({
            let asked = m.requesting_all_data();
            let plan = update_plan(asked.loads[h], artifact)->Ok_0;
            let a = asked.settle_data(Some(response), LoadHandle(h), true);
            let b = a.model.apply_op(HandleOp::LoadComplete(LoadHandle(h)));
            &&& a.fault is None && b.fault is None
            &&& a.calls == seq![asked.offer_of(plan, LoadHandle(h), true)]
            &&& b.calls == seq![
                StorageCall::Commit {
                    asset_type: plan.asset_type,
                    handle: LoadHandle(h),
                    version: plan.version,
                },
            ]
            &&& a.model.status(h) == LoadStatus::Loading
            &&& b.model.status(h) == LoadStatus::Loaded
            &&& b.model.asset(h) == Some((plan.asset_type, LoadHandle(h)))
            &&& b.model.loads[h].loaded_version == Some(plan.version)
        }),
{
    let asked = m.requesting_all_data();
    assert(m.needs_data(h));
    let a = asked.settle_data(Some(response), LoadHandle(h), true);
    let plan = update_plan(asked.loads[h], artifact)->Ok_0;
    assert(a.calls =~= seq![asked.offer_of(plan, LoadHandle(h), true)]);
}

/// A loaded asset that has lost its last reference is freed and given up within three advances: the
/// storage is told to free it, once, its references to its dependencies are given up, and after
/// that the load is not requested any more.
pub proof fn law_unreferenced_asset_is_freed(m: LoaderModel, h: u64)
    requires
        m.loads.contains_key(h),
        m.loads[h].state == LoadState::Loaded(AssetLoadState::Loaded),
        m.loads[h].refs == 0,
        m.loads[h].asset_type is Some,
        m.metadata.contains_key(m.loads[h].asset_id),
        forall|i: int|
            0 <= i < m.metadata[m.loads[h].asset_id].len() ==> m.handles.contains_key(
                #[trigger] m.metadata[m.loads[h].asset_id][i],
            ) && m.handles[m.metadata[m.loads[h].asset_id][i]] != h,
    ensures
        ({
            let a = m.advance(h);
            let b = a.model.advance(h);
            let c = b.model.advance(h);
            &&& a.fault is None && b.fault is None && c.fault is None
            &&& a.calls.len() == 0 && c.calls.len() == 0
            &&& b.calls == seq![
                StorageCall::Free { asset_type: m.loads[h].asset_type->0, handle: LoadHandle(h) },
            ]
            &&& a.model.status(h) == LoadStatus::Unloading
            &&& b.model.status(h) == LoadStatus::Unloading
            &&& a.model.asset(h) is None && b.model.asset(h) is None
            &&& a.retired.len() == 0 && b.retired.len() == 0
            &&& c.retired == seq![h]
            &&& c.model.without(c.retired).status(h) == LoadStatus::NotRequested
            &&& forall|k: u64|
                k != h && m.loads.contains_key(k) ==> #[trigger] b.model.loads[k] == m.release(
                    m.metadata[m.loads[h].asset_id],
                ).model.loads[k]
        }),
{
    let deps = m.metadata[m.loads[h].asset_id];
    let a = m.advance(h).model;
    let freed = a.free(h).model;
    assert forall|i: int| 0 <= i < deps.len() implies freed.handles.contains_key(
        #[trigger] deps[i],
    ) by {
        assert(m.handles.contains_key(deps[i]));
    }
    lemma_release_known(freed, deps);
    lemma_release_known(m, deps);
    assert forall|i: int| 0 <= i < deps.len() implies freed.handle(#[trigger] deps[i])
        != Some(h) by {
        assert(m.handles.contains_key(deps[i]));
    }
    assert(freed.release(deps).model.loads[h] == freed.loads[h]);
    let b = a.advance(h);
    assert(b.calls =~= seq![
        StorageCall::Free { asset_type: m.loads[h].asset_type->0, handle: LoadHandle(h) },
    ]);
    assert(freed.loads.dom() =~= m.loads.dom());
    lemma_release_elsewhere(m, freed, deps, h);
    let c = b.model.advance(h);
    assert(c.retired.to_set().contains(h)) by {
        assert(c.retired[0] == h);
    }
}

/// Releasing assets treats the loads other than `h` alike, whatever the load `h` is.
proof fn lemma_release_elsewhere(m: LoaderModel, n: LoaderModel, ids: Seq<AssetUuid>, h: u64)
    requires
        m.loads.contains_key(h),
        n.handles == m.handles,
        n.loads.dom() == m.loads.dom(),
        forall|k: u64| k != h && m.loads.contains_key(k) ==> #[trigger] n.loads[k] == m.loads[k],
    ensures
        n.release(ids).fault == m.release(ids).fault,
        n.release(ids).model.handles == m.release(ids).model.handles,
        n.release(ids).model.loads.dom() == m.release(ids).model.loads.dom(),
        m.release(ids).model.loads.dom() == m.loads.dom(),
        forall|k: u64|
            k != h && m.loads.contains_key(k) ==> #[trigger] n.release(ids).model.loads[k]
                == m.release(ids).model.loads[k],
    decreases ids.len(),
{
    if ids.len() > 0 {
        let front = ids.drop_last();
        lemma_release_elsewhere(m, n, front, h);
        assert(n.release(ids).model.loads.dom() =~= m.release(ids).model.loads.dom());
        assert(m.release(ids).model.loads.dom() =~= m.loads.dom());
        assert forall|k: u64|
            k != h && m.loads.contains_key(k) implies #[trigger] n.release(ids).model.loads[k]
            == m.release(ids).model.loads[k] by {
            assert(n.release(front).model.loads[k] == m.release(front).model.loads[k]);
        }
    }
}

} // verus!
