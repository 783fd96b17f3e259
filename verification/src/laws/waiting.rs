//! No load waits for metadata in vain.

use crate::channel::HandleOp;
use crate::ids::{AssetUuid, LoadHandle};
use crate::laws::flight::{awaits_data, same_flight};
use crate::laws::requests::law_unsettled_requests_stay;
use crate::laws::tables::after_records;
use crate::metadata::lemma_contains_push;
use crate::model::{lists_exactly, ChangeSet, LoaderModel, PendingReload};
use crate::requests::{settlements, settlements_from, unsettled, ResponsePromise};
use crate::responses::{AssetRecord, DataResponse, MetadataResponse};
use vstd::prelude::*;

verus! {

/// A request for metadata.
pub type MetadataRequest<M> = ResponsePromise<M, MetadataResponse, Vec<(AssetUuid, LoadHandle)>>;

/// Whether metadata is being requested for the load `h`.
pub open spec fn awaits_metadata(m: LoaderModel, h: u64) -> bool {
    m.loads.contains_key(h) && m.loads[h].state is RequestingMetadata
}

/// Whether the load `h` is among `requested`.
pub open spec fn names(requested: Seq<(AssetUuid, LoadHandle)>, h: u64) -> bool {
    exists|j: int| 0 <= j < requested.len() && (#[trigger] requested[j]).1.0 == h
}

/// Whether each load that metadata is being requested for is named by a request under way.
pub open spec fn covered<M>(m: LoaderModel, requests: Seq<MetadataRequest<M>>) -> bool {
    forall|h: u64| #[trigger]
        awaits_metadata(m, h) ==> exists|i: int|
            0 <= i < requests.len() && names((#[trigger] requests[i]).user_data@, h)
}

/// Taking in records makes no load wait for metadata, and does not affect which data is under way.
proof fn lemma_receive_records_waiting(m: LoaderModel, records: Seq<AssetRecord>)
    ensures
        forall|h: u64| #[trigger]
            awaits_metadata(after_records(m, records), h) ==> awaits_metadata(m, h),
        same_flight(m, after_records(m, records)),
    decreases records.len(),
{
    if records.len() > 0 {
        let front = records.drop_last();
        lemma_receive_records_waiting(m, front);
        let before = after_records(m, front);
        assert forall|h: u64| #[trigger]
            awaits_metadata(after_records(m, records), h) implies awaits_metadata(m, h) by {
            assert(awaits_metadata(before, h) ==> awaits_metadata(m, h));
        }
        assert forall|h: u64| #[trigger]
            awaits_data(after_records(m, records), h) == awaits_data(m, h) by {
            assert(awaits_data(before, h) == awaits_data(m, h));
        }
    }
}

/// Asking again ends the wait of the loads that have to ask again, and of no other.
proof fn lemma_ask_again_waiting(m: LoaderModel, requested: Seq<(AssetUuid, LoadHandle)>)
    ensures
        same_flight(m, m.ask_again_all(requested).model),
        m.ask_again_all(requested).fault is None ==> forall|h: u64| #[trigger]
            awaits_metadata(m.ask_again_all(requested).model, h) <==> awaits_metadata(m, h)
                && !names(requested, h),
    decreases requested.len(),
{
    if requested.len() > 0 {
        let front = requested.drop_last();
        let last = requested.last();
        lemma_ask_again_waiting(m, front);
        let before = m.ask_again_all(front);
        let e = m.ask_again_all(requested);
        assert forall|h: u64| #[trigger] awaits_data(e.model, h) == awaits_data(m, h) by {
            assert(awaits_data(before.model, h) == awaits_data(m, h));
        }
        if e.fault is None {
            assert forall|h: u64| #[trigger] awaits_metadata(e.model, h) <==> awaits_metadata(m, h)
                && !names(requested, h) by {
                assert(awaits_metadata(before.model, h) <==> awaits_metadata(m, h) && !names(
                    front,
                    h,
                ));
                assert(requested[requested.len() - 1] == last);
                if names(requested, h) {
                    let j = choose|j: int|
                        0 <= j < requested.len() && (#[trigger] requested[j]).1.0 == h;
                    if j < front.len() {
                        assert(front[j] == requested[j]);
                    }
                }
                if names(front, h) {
                    let j = choose|j: int| 0 <= j < front.len() && (#[trigger] front[j]).1.0 == h;
                    assert(requested[j] == front[j]);
                }
            }
        }
    }
}

/// The answer to a request for metadata, or its failure, ends the wait of all loads that it names:
/// they go on with what they got or ask again. No load begins to wait, and which data is under way
/// is not affected.
pub proof fn law_answer_ends_waiting(
    m: LoaderModel,
    answer: Option<MetadataResponse>,
    requested: Seq<(AssetUuid, LoadHandle)>,
)
    ensures
        ({
            let e = m.settle_metadata(answer, requested);
            &&& same_flight(m, e.model)
            &&& e.fault is None ==> forall|h: u64| #[trigger]
                awaits_metadata(e.model, h) ==> awaits_metadata(m, h) && !names(requested, h)
        }),
{
    let e = m.settle_metadata(answer, requested);
    lemma_ask_again_waiting(m, requested);
    if answer is Some && answer->0.assets is Ok {
        let records = (answer->0).assets->Ok_0@;
        let n = after_records(m, records);
        lemma_receive_records_waiting(m, records);
        lemma_ask_again_waiting(n, requested);
        assert forall|h: u64| #[trigger] awaits_data(e.model, h) == awaits_data(m, h) by {
            assert(awaits_data(n, h) == awaits_data(m, h));
        }
        if e.fault is None {
            assert forall|h: u64| #[trigger] awaits_metadata(e.model, h) implies awaits_metadata(
                m,
                h,
            ) && !names(requested, h) by {
                assert(awaits_metadata(n, h) && !names(requested, h));
            }
        }
    }
}

proof fn lemma_settle_all_metadata_waiting(
    m: LoaderModel,
    settled: Seq<(Option<MetadataResponse>, Vec<(AssetUuid, LoadHandle)>)>,
)
    ensures
        ({
            let e = m.settle_all_metadata(settled);
            &&& same_flight(m, e.model)
            &&& e.fault is None ==> forall|h: u64, i: int|
                #![trigger awaits_metadata(e.model, h), settled[i]]
                awaits_metadata(e.model, h) && 0 <= i < settled.len() ==> !names(settled[i].1@, h)
            &&& e.fault is None ==> forall|h: u64| #[trigger]
                awaits_metadata(e.model, h) ==> awaits_metadata(m, h)
        }),
    decreases settled.len(),
{
    if settled.len() > 0 {
        let front = settled.drop_last();
        let last = settled.last();
        lemma_settle_all_metadata_waiting(m, front);
        let before = m.settle_all_metadata(front);
        let e = m.settle_all_metadata(settled);
        law_answer_ends_waiting(before.model, last.0, last.1@);
        assert forall|h: u64| #[trigger] awaits_data(e.model, h) == awaits_data(m, h) by {
            assert(awaits_data(before.model, h) == awaits_data(m, h));
        }
        if e.fault is None {
            assert forall|h: u64, i: int|
                #![trigger awaits_metadata(e.model, h), settled[i]]
                awaits_metadata(e.model, h) && 0 <= i < settled.len() implies !names(
                settled[i].1@,
                h,
            ) by {
                assert(awaits_metadata(before.model, h));
                if i < front.len() {
                    assert(front[i] == settled[i]);
                }
            }
            assert forall|h: u64| #[trigger] awaits_metadata(e.model, h) implies awaits_metadata(
                m,
                h,
            ) by {
                assert(awaits_metadata(before.model, h));
            }
        }
    }
}

proof fn lemma_settlement_listed<P, T, U>(
    requests: Seq<ResponsePromise<P, T, U>>,
    i: int,
    j: int,
)
    requires
        0 <= j <= i < requests.len(),
        requests[i].is_settled(),
    ensures
        settlements_from(requests, j).contains(requests[i].settlement()),
    decreases requests.len() - j,
{
    let later = settlements_from(requests, j + 1);
    if i == j {
        lemma_contains_push(later, requests[j].settlement(), requests[i].settlement());
    } else {
        lemma_settlement_listed(requests, i, j + 1);
        lemma_contains_push(later, requests[j].settlement(), requests[i].settlement());
    }
}

/// No load waits for metadata in vain: if each load that waits is named by a request under way,
/// then the same holds after the answers have been followed and, over a connection, a request has
/// been made for the loads that need metadata.
pub proof fn law_no_load_waits_in_vain<M>(
    m: LoaderModel,
    requests: Seq<MetadataRequest<M>>,
    request: Option<MetadataRequest<M>>,
)
    requires
        covered(m, requests),
        ({
            let e = m.settle_all_metadata(settlements(requests));
            &&& e.fault is None
            &&& request matches Some(made) ==> lists_exactly(
                made.user_data@,
                e.model,
                |h: u64| e.model.needs_metadata(h),
            )
        }),
    ensures
        ({
            let e = m.settle_all_metadata(settlements(requests));
            &&& covered(e.model, unsettled(requests))
            &&& request matches Some(made) ==> covered(
                e.model.requesting_all_metadata(),
                unsettled(requests).push(made),
            )
        }),
{
    let settled = settlements(requests);
    let left = unsettled(requests);
    let e = m.settle_all_metadata(settled);
    lemma_settle_all_metadata_waiting(m, settled);
    assert forall|h: u64| #[trigger] awaits_metadata(e.model, h) implies exists|i: int|
        0 <= i < left.len() && names((#[trigger] left[i]).user_data@, h) by {
        assert(awaits_metadata(m, h));
        let i = choose|i: int|
            0 <= i < requests.len() && names((#[trigger] requests[i]).user_data@, h);
        let r = requests[i];
        if r.is_settled() {
            lemma_settlement_listed(requests, i, 0);
            let k = choose|k: int| 0 <= k < settled.len() && settled[k] == r.settlement();
            assert(!names(settled[k].1@, h));
        } else {
            law_unsettled_requests_stay(requests);
            vstd::seq_lib::to_multiset_contains(requests, r);
            vstd::seq_lib::to_multiset_contains(left, r);
            assert(requests.contains(r));
            assert(left.contains(r));
            let k = choose|k: int| 0 <= k < left.len() && left[k] == r;
            assert(names(left[k].user_data@, h));
        }
    }
    if request is Some {
        let made = request->0;
        let n = e.model.requesting_all_metadata();
        let all = left.push(made);
        assert forall|h: u64| #[trigger] awaits_metadata(n, h) implies exists|i: int|
            0 <= i < all.len() && names((#[trigger] all[i]).user_data@, h) by {
            if awaits_metadata(e.model, h) {
                let i = choose|i: int|
                    0 <= i < left.len() && names((#[trigger] left[i]).user_data@, h);
                assert(all[i] == left[i]);
            } else {
                assert(e.model.needs_metadata(h));
                let entry = (e.model.loads[h].asset_id, LoadHandle(h));
                let list = made.user_data@;
                assert(list.contains(entry));
                let j = choose|j: int| 0 <= j < list.len() && list[j] == entry;
                assert(list[j].1.0 == h);
                assert(names(list, h));
                assert(all[left.len() as int] == made);
            }
        }
    }
}

/// Whether no load begins to wait for metadata between `m` and `n`.
pub open spec fn no_wait_begins(m: LoaderModel, n: LoaderModel) -> bool {
    forall|h: u64| #[trigger] awaits_metadata(n, h) ==> awaits_metadata(m, h)
}

proof fn lemma_add_refs_begin_no_wait(m: LoaderModel, ids: Seq<AssetUuid>)
    ensures
        no_wait_begins(m, m.add_refs(ids)),
    decreases ids.len(),
{
    if ids.len() > 0 {
        let before = m.add_refs(ids.drop_last());
        lemma_add_refs_begin_no_wait(m, ids.drop_last());
        assert forall|h: u64| #[trigger] awaits_metadata(m.add_refs(ids), h) implies awaits_metadata(
            m,
            h,
        ) by {
            assert(awaits_metadata(before, h));
        }
    }
}

proof fn lemma_release_begins_no_wait(m: LoaderModel, ids: Seq<AssetUuid>)
    ensures
        no_wait_begins(m, m.release(ids).model),
    decreases ids.len(),
{
    if ids.len() > 0 {
        let before = m.release(ids.drop_last()).model;
        lemma_release_begins_no_wait(m, ids.drop_last());
        assert forall|h: u64| #[trigger]
            awaits_metadata(m.release(ids).model, h) implies awaits_metadata(m, h) by {
            assert(awaits_metadata(before, h));
        }
    }
}

/// Only requesting metadata makes a load wait for it: references, advancing loads, following the
/// engine's reports, changes, and answers with data do not.
pub proof fn law_only_requests_begin_a_wait(
    m: LoaderModel,
    id: AssetUuid,
    h: u64,
    order: Seq<u64>,
    ops: Seq<HandleOp>,
    changes: Option<ChangeSet>,
    settled: Seq<(Option<DataResponse>, LoadHandle)>,
    accepted: Seq<bool>,
)
    ensures
        no_wait_begins(m, m.add_ref(id)),
        no_wait_begins(m, m.remove_ref(h)),
        no_wait_begins(m, m.advance_all(order).model),
        no_wait_begins(m, m.follow_ops(ops).model),
        no_wait_begins(m, m.process_changes(changes).model),
        no_wait_begins(m, m.settle_all_data(settled, accepted).model),
        no_wait_begins(m, m.requesting_all_data()),
{
    lemma_walk_begins_no_wait(m, order);
    let walked = m.walk(order).model;
    assert forall|k: u64| #[trigger]
        awaits_metadata(m.advance_all(order).model, k) implies awaits_metadata(m, k) by {
        assert(awaits_metadata(walked, k));
    }
    lemma_apply_ops_begin_no_wait(m, ops);
    assert forall|k: u64| #[trigger] awaits_metadata(m.follow_ops(ops).model, k) implies
        awaits_metadata(m, k) by {
        assert(awaits_metadata(m.apply_ops(ops).model, k));
    }
    if changes is Some {
        let set = changes->0;
        lemma_note_changes_begin_no_wait(m, set.changed);
        lemma_note_deletions_begin_no_wait(m.note_changes(set.changed), set.deleted);
    }
    lemma_commit_reloads_begin_no_wait(m, m.pending_reloads);
    let committed = m.commit_reloads(m.pending_reloads).model;
    assert forall|k: u64| #[trigger]
        awaits_metadata(m.process_changes(changes).model, k) implies awaits_metadata(m, k) by {
        if m.pending_reloads.len() > 0 {
            assert(awaits_metadata(committed, k) ==> awaits_metadata(m, k));
        } else if changes is Some {
            assert(awaits_metadata(m.note_changes(changes->0.changed), k));
        }
    }
    lemma_settle_all_data_begins_no_wait(m, settled, accepted);
}

proof fn lemma_advance_begins_no_wait(m: LoaderModel, h: u64)
    ensures
        no_wait_begins(m, m.advance(h).model),
{
    let n = m.advance(h).model;
    if m.loads.contains_key(h) {
        let load = m.loads[h];
        if load.state is RequestDependencies && m.metadata.contains_key(load.asset_id) {
            let deps = m.metadata[load.asset_id];
            lemma_add_refs_begin_no_wait(m, deps);
            assert forall|k: u64| #[trigger] awaits_metadata(n, k) implies awaits_metadata(m, k) by {
                assert(awaits_metadata(m.add_refs(deps), k));
            }
        } else if load.state is UnloadRequested && m.metadata.contains_key(load.asset_id) {
            let deps = m.metadata[load.asset_id];
            let freed = m.free(h).model;
            lemma_release_begins_no_wait(freed, deps);
            assert forall|k: u64| #[trigger] awaits_metadata(n, k) implies awaits_metadata(m, k) by {
                assert(awaits_metadata(freed.release(deps).model, k));
                assert(awaits_metadata(freed, k));
            }
        }
    }
}

proof fn lemma_walk_begins_no_wait(m: LoaderModel, order: Seq<u64>)
    ensures
        no_wait_begins(m, m.walk(order).model),
    decreases order.len(),
{
    if order.len() > 0 {
        let before = m.walk(order.drop_last()).model;
        lemma_walk_begins_no_wait(m, order.drop_last());
        lemma_advance_begins_no_wait(before, order.last());
        assert forall|k: u64| #[trigger] awaits_metadata(m.walk(order).model, k) implies
            awaits_metadata(m, k) by {
            assert(awaits_metadata(before, k));
        }
    }
}

proof fn lemma_apply_ops_begin_no_wait(m: LoaderModel, ops: Seq<HandleOp>)
    ensures
        no_wait_begins(m, m.apply_ops(ops).model),
    decreases ops.len(),
{
    if ops.len() > 0 {
        let before = m.apply_ops(ops.drop_last()).model;
        lemma_apply_ops_begin_no_wait(m, ops.drop_last());
        assert forall|k: u64| #[trigger] awaits_metadata(m.apply_ops(ops).model, k) implies
            awaits_metadata(m, k) by {
            assert(awaits_metadata(before, k));
        }
    }
}

proof fn lemma_note_changes_begin_no_wait(m: LoaderModel, ids: Seq<AssetUuid>)
    ensures
        no_wait_begins(m, m.note_changes(ids)),
    decreases ids.len(),
{
    if ids.len() > 0 {
        let before = m.note_changes(ids.drop_last());
        lemma_note_changes_begin_no_wait(m, ids.drop_last());
        assert forall|k: u64| #[trigger] awaits_metadata(m.note_changes(ids), k) implies
            awaits_metadata(m, k) by {
            assert(awaits_metadata(before, k));
        }
    }
}

proof fn lemma_note_deletions_begin_no_wait(m: LoaderModel, ids: Seq<AssetUuid>)
    ensures
        no_wait_begins(m, m.note_deletions(ids)),
    decreases ids.len(),
{
    if ids.len() > 0 {
        let before = m.note_deletions(ids.drop_last());
        lemma_note_deletions_begin_no_wait(m, ids.drop_last());
        assert forall|k: u64| #[trigger] awaits_metadata(m.note_deletions(ids), k) implies
            awaits_metadata(m, k) by {
            assert(awaits_metadata(before, k));
        }
    }
}

proof fn lemma_commit_reloads_begin_no_wait(m: LoaderModel, reloads: Seq<PendingReload>)
    ensures
        no_wait_begins(m, m.commit_reloads(reloads).model),
    decreases reloads.len(),
{
    if reloads.len() > 0 {
        let before = m.commit_reloads(reloads.drop_last()).model;
        lemma_commit_reloads_begin_no_wait(m, reloads.drop_last());
        assert forall|k: u64| #[trigger] awaits_metadata(m.commit_reloads(reloads).model, k) implies
            awaits_metadata(m, k) by {
            assert(awaits_metadata(before, k));
        }
    }
}

proof fn lemma_settle_all_data_begins_no_wait(
    m: LoaderModel,
    settled: Seq<(Option<DataResponse>, LoadHandle)>,
    accepted: Seq<bool>,
)
    ensures
        no_wait_begins(m, m.settle_all_data(settled, accepted).model),
    decreases settled.len(),
{
    if settled.len() > 0 {
        let before = m.settle_all_data(settled.drop_last(), accepted).model;
        lemma_settle_all_data_begins_no_wait(m, settled.drop_last(), accepted);
        assert forall|k: u64| #[trigger]
            awaits_metadata(m.settle_all_data(settled, accepted).model, k) implies awaits_metadata(
            m,
            k,
        ) by {
            assert(awaits_metadata(before, k));
        }
    }
}

/// Requesting metadata does not affect which data is under way.
pub proof fn law_requesting_metadata_keeps_flight(m: LoaderModel)
    ensures
        same_flight(m, m.requesting_all_metadata()),
{
}

} // verus!
