//! The tables of the loader stay in agreement, and what an asset's handle is, it remains.

use crate::channel::HandleOp;
use crate::ids::{AssetUuid, LoadHandle};
use crate::laws::references::{law_add_refs_agree, tables_agree};
use crate::model::{is_order_of, ChangeSet, LoaderModel, PendingReload};
use crate::responses::{AssetRecord, DataResponse, MetadataResponse};
use crate::rpc_loader::reported;
use crate::state::LoadStatus;
use crossbeam_channel::Sender;
use std::sync::Arc;
use vstd::prelude::*;

verus! {

/// Whether `n` comes from `m` without new assets: the same assets have the same handles, and the
/// loads of `n` are loads of `m`, of the same assets.
pub open spec fn same_assets(m: LoaderModel, n: LoaderModel) -> bool {
    &&& n.next_handle == m.next_handle
    &&& n.handles == m.handles
    &&& forall|h: u64| #[trigger]
        n.loads.contains_key(h) ==> m.loads.contains_key(h) && n.loads[h].asset_id
            == m.loads[h].asset_id
}

/// Whether `n` has all loads of `m`, of the same assets, and the same metadata.
pub open spec fn grown(m: LoaderModel, n: LoaderModel) -> bool {
    &&& n.metadata == m.metadata
    &&& forall|h: u64| #[trigger]
        m.loads.contains_key(h) ==> n.loads.contains_key(h) && n.loads[h].asset_id
            == m.loads[h].asset_id
}

/// Whether every asset that has a handle in `m` has the same handle in `n`.
pub open spec fn handles_kept(m: LoaderModel, n: LoaderModel) -> bool {
    forall|id: AssetUuid| #[trigger] m.handles.contains_key(id) ==> n.handle(id) == m.handle(id)
}

/// How many dependencies the load `h` has.
pub open spec fn dependency_count(m: LoaderModel, h: u64) -> nat {
    if m.loads.contains_key(h) && m.metadata.contains_key(m.loads[h].asset_id) {
        m.metadata[m.loads[h].asset_id].len()
    } else {
        0
    }
}

/// How many dependencies the loads `order` have.
pub open spec fn dependency_total(m: LoaderModel, order: Seq<u64>) -> nat
    decreases order.len(),
{
    if order.len() == 0 {
        0
    } else {
        dependency_total(m, order.drop_last()) + dependency_count(m, order.last())
    }
}

/// A loader that has been asked for nothing has its tables in agreement.
pub proof fn law_initial_tables_agree(reports: Arc<Sender<HandleOp>>)
    ensures
        tables_agree(LoaderModel::initial(reports)),
{
}

/// Without new assets the tables stay in agreement.
proof fn lemma_same_assets_agree(m: LoaderModel, n: LoaderModel)
    requires
        tables_agree(m),
        same_assets(m, n),
    ensures
        tables_agree(n),
        handles_kept(m, n),
{
}

/// Releasing assets makes no new assets and removes no loads.
pub proof fn lemma_release_same(m: LoaderModel, ids: Seq<AssetUuid>)
    ensures
        same_assets(m, m.release(ids).model),
        grown(m, m.release(ids).model),
    decreases ids.len(),
{
    if ids.len() > 0 {
        lemma_release_same(m, ids.drop_last());
    }
}

/// Referencing assets removes no loads, as long as handles are left.
proof fn lemma_add_refs_grown(m: LoaderModel, ids: Seq<AssetUuid>)
    requires
        tables_agree(m),
        m.next_handle + ids.len() <= u64::MAX,
    ensures
        grown(m, m.add_refs(ids)),
    decreases ids.len(),
{
    if ids.len() > 0 {
        let front = ids.drop_last();
        lemma_add_refs_grown(m, front);
        law_add_refs_agree(m, front);
    }
}

/// Removing a reference keeps the tables in agreement.
pub proof fn law_remove_ref_agrees(m: LoaderModel, h: u64)
    requires
        tables_agree(m),
    ensures
        tables_agree(m.remove_ref(h)),
        handles_kept(m, m.remove_ref(h)),
{
    lemma_same_assets_agree(m, m.remove_ref(h));
}

/// Advancing a load keeps the tables in agreement, as long as handles are left.
pub proof fn law_advance_agrees(m: LoaderModel, h: u64)
    requires
        tables_agree(m),
        m.next_handle + dependency_count(m, h) <= u64::MAX,
    ensures
        tables_agree(m.advance(h).model),
        handles_kept(m, m.advance(h).model),
        grown(m, m.advance(h).model),
        m.advance(h).model.next_handle <= m.next_handle + dependency_count(m, h),
{
    let n = m.advance(h).model;
    if m.loads.contains_key(h) {
        let load = m.loads[h];
        if load.state is RequestDependencies && m.metadata.contains_key(load.asset_id) {
            let deps = m.metadata[load.asset_id];
            let r = m.add_refs(deps);
            law_add_refs_agree(m, deps);
            lemma_add_refs_grown(m, deps);
            assert(r.loads.contains_key(h));
            lemma_same_assets_agree(r, n);
        } else {
            if load.state is UnloadRequested {
                let freed = m.free(h).model;
                assert(same_assets(m, freed) && grown(m, freed));
                if m.metadata.contains_key(load.asset_id) {
                    lemma_release_same(freed, m.metadata[load.asset_id]);
                }
                assert(same_assets(freed, n));
                assert(same_assets(m, n));
            }
            lemma_same_assets_agree(m, n);
        }
    }
}

/// Advancing loads keeps the tables in agreement, as long as handles are left.
pub proof fn lemma_walk_agrees(m: LoaderModel, order: Seq<u64>)
    requires
        tables_agree(m),
        forall|i: int| 0 <= i < order.len() ==> m.loads.contains_key(#[trigger] order[i]),
        m.next_handle + dependency_total(m, order) <= u64::MAX,
    ensures
        tables_agree(m.walk(order).model),
        handles_kept(m, m.walk(order).model),
        grown(m, m.walk(order).model),
        m.walk(order).model.next_handle <= m.next_handle + dependency_total(m, order),
    decreases order.len(),
{
    if order.len() > 0 {
        let front = order.drop_last();
        assert forall|i: int| 0 <= i < front.len() implies m.loads.contains_key(
            #[trigger] front[i],
        ) by {
            assert(front[i] == order[i]);
        }
        lemma_walk_agrees(m, front);
        let before = m.walk(front);
        let h = order.last();
        assert(m.loads.contains_key(order[order.len() - 1]));
        assert(dependency_count(before.model, h) == dependency_count(m, h));
        law_advance_agrees(before.model, h);
    }
}

/// Advancing all loads keeps the tables in agreement, as long as handles are left, and no asset
/// loses its handle, even where its load is given up.
pub proof fn law_advance_all_agrees(m: LoaderModel, order: Seq<u64>)
    requires
        tables_agree(m),
        is_order_of(order, m),
        m.next_handle + dependency_total(m, order) <= u64::MAX,
    ensures
        tables_agree(m.advance_all(order).model),
        handles_kept(m, m.advance_all(order).model),
{
    assert forall|i: int| 0 <= i < order.len() implies m.loads.contains_key(
        #[trigger] order[i],
    ) by {
        assert(order.contains(order[i]));
    }
    lemma_walk_agrees(m, order);
    let walked = m.walk(order);
    lemma_same_assets_agree(walked.model, m.advance_all(order).model);
}

/// Following a report of the engine makes no new assets.
pub proof fn law_apply_op_agrees(m: LoaderModel, op: HandleOp)
    requires
        tables_agree(m),
    ensures
        tables_agree(m.apply_op(op).model),
        handles_kept(m, m.apply_op(op).model),
{
    lemma_same_assets_agree(m, m.apply_op(op).model);
}

/// Following the reports of the engine keeps the tables in agreement.
pub proof fn law_apply_ops_agree(m: LoaderModel, ops: Seq<HandleOp>)
    requires
        tables_agree(m),
    ensures
        tables_agree(m.apply_ops(ops).model),
        handles_kept(m, m.apply_ops(ops).model),
    decreases ops.len(),
{
    if ops.len() > 0 {
        law_apply_ops_agree(m, ops.drop_last());
        let before = m.apply_ops(ops.drop_last()).model;
        law_apply_op_agrees(before.polled(Some(ops.last())), ops.last());
    }
}

/// Noting changes makes no new assets.
proof fn lemma_note_changes_same(m: LoaderModel, ids: Seq<AssetUuid>)
    ensures
        same_assets(m, m.note_changes(ids)),
    decreases ids.len(),
{
    if ids.len() > 0 {
        lemma_note_changes_same(m, ids.drop_last());
    }
}

/// Noting deletions makes no new assets.
proof fn lemma_note_deletions_same(m: LoaderModel, ids: Seq<AssetUuid>)
    ensures
        same_assets(m, m.note_deletions(ids)),
    decreases ids.len(),
{
    if ids.len() > 0 {
        lemma_note_deletions_same(m, ids.drop_last());
    }
}

/// Committing reloads makes no new assets.
proof fn lemma_commit_reloads_same(m: LoaderModel, reloads: Seq<PendingReload>)
    ensures
        same_assets(m, m.commit_reloads(reloads).model),
    decreases reloads.len(),
{
    if reloads.len() > 0 {
        lemma_commit_reloads_same(m, reloads.drop_last());
    }
}

/// Following changes keeps the tables in agreement.
pub proof fn law_process_changes_agrees(m: LoaderModel, changes: Option<ChangeSet>)
    requires
        tables_agree(m),
    ensures
        tables_agree(m.process_changes(changes).model),
        handles_kept(m, m.process_changes(changes).model),
{
    if m.pending_reloads.len() == 0 && changes is Some {
        let set = changes->0;
        lemma_note_changes_same(m, set.changed);
        lemma_note_deletions_same(m.note_changes(set.changed), set.deleted);
    }
    lemma_commit_reloads_same(m, m.pending_reloads);
    lemma_same_assets_agree(m, m.process_changes(changes).model);
}

/// Following the reports of the engine makes no new assets.
proof fn lemma_apply_ops_same(m: LoaderModel, ops: Seq<HandleOp>)
    ensures
        same_assets(m, m.apply_ops(ops).model),
    decreases ops.len(),
{
    if ops.len() > 0 {
        lemma_apply_ops_same(m, ops.drop_last());
    }
}

/// Following changes and the reports of the engine makes no new assets.
pub proof fn lemma_reported_same(m: LoaderModel, changes: Option<ChangeSet>, ops: Seq<HandleOp>)
    ensures
        same_assets(m, reported(m, changes, ops).model),
{
    if m.pending_reloads.len() == 0 && changes is Some {
        let set = changes->0;
        lemma_note_changes_same(m, set.changed);
        lemma_note_deletions_same(m.note_changes(set.changed), set.deleted);
    }
    lemma_commit_reloads_same(m, m.pending_reloads);
    lemma_apply_ops_same(m.process_changes(changes).model, ops);
}

/// What is left of a loader that has taken in records.
pub open spec fn after_records(m: LoaderModel, records: Seq<AssetRecord>) -> LoaderModel {
    match m.receive_records(records) {
        Ok(n) => n,
        Err((n, _)) => n,
    }
}

/// Taking in records makes no new assets.
proof fn lemma_receive_records_same(m: LoaderModel, records: Seq<AssetRecord>)
    ensures
        same_assets(m, after_records(m, records)),
    decreases records.len(),
{
    if records.len() > 0 {
        lemma_receive_records_same(m, records.drop_last());
    }
}

/// Asking again makes no new assets.
proof fn lemma_ask_again_same(m: LoaderModel, requested: Seq<(AssetUuid, LoadHandle)>)
    ensures
        same_assets(m, m.ask_again_all(requested).model),
    decreases requested.len(),
{
    if requested.len() > 0 {
        lemma_ask_again_same(m, requested.drop_last());
    }
}

/// Following the answer to a request for metadata keeps the tables in agreement.
pub proof fn law_settle_metadata_agrees(
    m: LoaderModel,
    answer: Option<MetadataResponse>,
    requested: Seq<(AssetUuid, LoadHandle)>,
)
    requires
        tables_agree(m),
    ensures
        tables_agree(m.settle_metadata(answer, requested).model),
        handles_kept(m, m.settle_metadata(answer, requested).model),
{
    lemma_ask_again_same(m, requested);
    if answer is Some && answer->0.assets is Ok {
        let records = (answer->0).assets->Ok_0@;
        let n = after_records(m, records);
        lemma_receive_records_same(m, records);
        lemma_ask_again_same(n, requested);
    }
    lemma_same_assets_agree(m, m.settle_metadata(answer, requested).model);
}

/// Following the answer to a request for data keeps the tables in agreement.
pub proof fn law_settle_data_agrees(
    m: LoaderModel,
    answer: Option<DataResponse>,
    handle: LoadHandle,
    accepted: bool,
)
    requires
        tables_agree(m),
    ensures
        tables_agree(m.settle_data(answer, handle, accepted).model),
        handles_kept(m, m.settle_data(answer, handle, accepted).model),
{
    lemma_same_assets_agree(m, m.settle_data(answer, handle, accepted).model);
}

/// Following the answers to requests for metadata keeps the tables in agreement.
pub proof fn law_settle_all_metadata_agrees(
    m: LoaderModel,
    settled: Seq<(Option<MetadataResponse>, Vec<(AssetUuid, LoadHandle)>)>,
)
    requires
        tables_agree(m),
    ensures
        tables_agree(m.settle_all_metadata(settled).model),
        handles_kept(m, m.settle_all_metadata(settled).model),
    decreases settled.len(),
{
    if settled.len() > 0 {
        let before = m.settle_all_metadata(settled.drop_last());
        law_settle_all_metadata_agrees(m, settled.drop_last());
        law_settle_metadata_agrees(before.model, settled.last().0, settled.last().1@);
    }
}

/// Following the answers to requests for data keeps the tables in agreement.
pub proof fn law_settle_all_data_agrees(
    m: LoaderModel,
    settled: Seq<(Option<DataResponse>, LoadHandle)>,
    accepted: Seq<bool>,
)
    requires
        tables_agree(m),
    ensures
        tables_agree(m.settle_all_data(settled, accepted).model),
        handles_kept(m, m.settle_all_data(settled, accepted).model),
    decreases settled.len(),
{
    if settled.len() > 0 {
        let before = m.settle_all_data(settled.drop_last(), accepted);
        law_settle_all_data_agrees(m, settled.drop_last(), accepted);
        law_settle_data_agrees(
            before.model,
            settled.last().0,
            settled.last().1,
            accepted[before.calls.len() as int],
        );
    }
}

/// Requesting metadata and data keeps the tables in agreement.
pub proof fn law_requesting_agrees(m: LoaderModel)
    requires
        tables_agree(m),
    ensures
        tables_agree(m.requesting_all_metadata()),
        handles_kept(m, m.requesting_all_metadata()),
        tables_agree(m.requesting_all_data()),
        handles_kept(m, m.requesting_all_data()),
{
    lemma_same_assets_agree(m, m.requesting_all_metadata());
    lemma_same_assets_agree(m, m.requesting_all_data());
}

/// An asset whose load was given up keeps its handle, and referencing it again does not bring the
/// load back: the handle stays that of a load that is not requested.
pub proof fn law_retired_asset_stays_retired(m: LoaderModel, id: AssetUuid)
    requires
        m.handles.contains_key(id),
        !m.loads.contains_key(m.handles[id]),
    ensures
        m.handle_for(id) == m.handles[id],
        m.add_ref(id) == m,
        m.add_ref(id).status(m.handle_for(id)) == LoadStatus::NotRequested,
{
}

} // verus!
