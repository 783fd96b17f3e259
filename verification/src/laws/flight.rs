//! Requests that are under way and loads that wait for an answer belong together.

use crate::channel::HandleOp;
use crate::fault::Fault;
use crate::ids::{AssetUuid, LoadHandle};
use crate::laws::references::{law_add_refs_agree, tables_agree};
use crate::laws::tables::{dependency_count, dependency_total, grown, law_advance_agrees};
use crate::metadata::lemma_contains_push;
use crate::model::{is_order_of, lists_exactly, ChangeSet, LoaderModel, PendingReload};
use crate::requests::{settlements, settlements_from, unsettled, unsettled_from, ResponsePromise};
use crate::responses::DataResponse;
use crate::state::AssetLoadState;
use crate::walk::lemma_release_silent;
use crossbeam_channel::Sender;
use std::sync::Arc;
use vstd::prelude::*;

verus! {

/// Whether data is being requested for the load `h`.
pub open spec fn awaits_data(m: LoaderModel, h: u64) -> bool {
    m.loads.contains_key(h) && m.loads[h].state.sub_state() == Some(AssetLoadState::RequestingData)
}

/// Whether `handles` are, each once, the loads that data is being requested for.
pub open spec fn in_flight(m: LoaderModel, handles: Seq<LoadHandle>) -> bool {
    &&& handles.no_duplicates()
    &&& forall|handle: LoadHandle| #[trigger] handles.contains(handle) <==> awaits_data(m, handle.0)
}

/// Whether data is being requested for the same loads in `m` and in `n`.
pub open spec fn same_flight(m: LoaderModel, n: LoaderModel) -> bool {
    forall|h: u64| #[trigger] awaits_data(n, h) == awaits_data(m, h)
}

/// The loads that `requests` are about.
pub open spec fn handles_of<P, T>(requests: Seq<ResponsePromise<P, T, LoadHandle>>) -> Seq<
    LoadHandle,
> {
    requests.map_values(|r: ResponsePromise<P, T, LoadHandle>| r.user_data)
}

/// The loads in a list of loads with their assets.
pub open spec fn listed(list: Seq<(AssetUuid, LoadHandle)>) -> Seq<LoadHandle> {
    list.map_values(|entry: (AssetUuid, LoadHandle)| entry.1)
}

/// A loader that has been asked for nothing waits for no data.
pub proof fn law_initial_flight(reports: Arc<Sender<HandleOp>>)
    ensures
        in_flight(LoaderModel::initial(reports), Seq::empty()),
{
}

proof fn lemma_add_refs_flight(m: LoaderModel, ids: Seq<AssetUuid>)
    requires
        tables_agree(m),
        m.next_handle + ids.len() <= u64::MAX,
    ensures
        same_flight(m, m.add_refs(ids)),
        forall|h: u64| #[trigger]
            m.loads.contains_key(h) ==> m.add_refs(ids).loads.contains_key(h) && m.add_refs(
                ids,
            ).loads[h].state == m.loads[h].state,
    decreases ids.len(),
{
    if ids.len() > 0 {
        let front = ids.drop_last();
        lemma_add_refs_flight(m, front);
        law_add_refs_agree(m, front);
        let before = m.add_refs(front);
        assert(!before.loads.contains_key(before.next_handle)) by {
            if before.loads.contains_key(before.next_handle) {
                assert(before.handles.contains_key(
                    before.loads[before.next_handle].asset_id,
                ));
            }
        }
        assert forall|h: u64| #[trigger] awaits_data(m.add_refs(ids), h) == awaits_data(m, h) by {
            assert(awaits_data(before, h) == awaits_data(m, h));
        }
    }
}

proof fn lemma_release_flight(m: LoaderModel, ids: Seq<AssetUuid>)
    ensures
        same_flight(m, m.release(ids).model),
        forall|h: u64| #[trigger]
            m.loads.contains_key(h) ==> m.release(ids).model.loads.contains_key(h) && m.release(
                ids,
            ).model.loads[h].state == m.loads[h].state,
    decreases ids.len(),
{
    if ids.len() > 0 {
        let front = ids.drop_last();
        lemma_release_flight(m, front);
        let before = m.release(front).model;
        assert forall|h: u64| #[trigger]
            awaits_data(m.release(ids).model, h) == awaits_data(m, h) by {
            assert(awaits_data(before, h) == awaits_data(m, h));
        }
    }
}

/// References do not affect which data is under way, as long as handles are left.
pub proof fn law_references_keep_flight(m: LoaderModel, id: AssetUuid, h: u64)
    requires
        tables_agree(m),
        m.next_handle < u64::MAX,
    ensures
        same_flight(m, m.add_ref(id)),
        same_flight(m, m.remove_ref(h)),
{
    assert(m.add_refs(seq![id]) == m.add_ref(id)) by {
        reveal_with_fuel(LoaderModel::add_refs, 2);
        assert(seq![id].drop_last() =~= Seq::empty());
    }
    lemma_add_refs_flight(m, seq![id]);
}

/// Advancing a load does not affect which data is under way, as long as handles are left.
pub proof fn law_advance_keeps_flight(m: LoaderModel, h: u64)
    requires
        tables_agree(m),
        m.next_handle + dependency_count(m, h) <= u64::MAX,
    ensures
        same_flight(m, m.advance(h).model),
        forall|k: u64| #[trigger]
            m.advance(h).retired.contains(k) ==> !awaits_data(m.advance(h).model, k),
{
    if m.loads.contains_key(h) {
        let load = m.loads[h];
        if load.state is RequestDependencies && m.metadata.contains_key(load.asset_id) {
            let deps = m.metadata[load.asset_id];
            lemma_add_refs_flight(m, deps);
            assert forall|k: u64| #[trigger]
                awaits_data(m.advance(h).model, k) == awaits_data(m, k) by {
                assert(awaits_data(m.add_refs(deps), k) == awaits_data(m, k));
            }
        }
        if load.state is UnloadRequested && m.metadata.contains_key(load.asset_id) {
            let deps = m.metadata[load.asset_id];
            let freed = m.free(h).model;
            lemma_release_flight(freed, deps);
            lemma_release_silent(freed, deps);
            assert(m.advance(h).retired =~= Seq::empty());
            assert forall|k: u64| #[trigger]
                awaits_data(m.advance(h).model, k) == awaits_data(m, k) by {
                assert(awaits_data(freed, k) == awaits_data(m, k));
                assert(awaits_data(freed.release(deps).model, k) == awaits_data(freed, k));
            }
        }
        if load.state is UnloadRequested && !m.metadata.contains_key(load.asset_id) {
            assert(m.advance(h).retired =~= Seq::empty());
        }
        if load.state is Unloading {
            assert forall|k: u64| #[trigger]
                m.advance(h).retired.contains(k) implies !awaits_data(m.advance(h).model, k) by {
                assert(k == h);
            }
        }
    }
}

proof fn lemma_walk_keeps_flight(m: LoaderModel, order: Seq<u64>)
    requires
        tables_agree(m),
        forall|i: int| 0 <= i < order.len() ==> m.loads.contains_key(#[trigger] order[i]),
        m.next_handle + dependency_total(m, order) <= u64::MAX,
    ensures
        same_flight(m, m.walk(order).model),
        tables_agree(m.walk(order).model),
        grown(m, m.walk(order).model),
        m.walk(order).model.next_handle <= m.next_handle + dependency_total(m, order),
        forall|k: u64| #[trigger] m.walk(order).retired.contains(k) ==> !awaits_data(m, k),
    decreases order.len(),
{
    if order.len() > 0 {
        let front = order.drop_last();
        assert forall|i: int| 0 <= i < front.len() implies m.loads.contains_key(
            #[trigger] front[i],
        ) by {
            assert(front[i] == order[i]);
        }
        lemma_walk_keeps_flight(m, front);
        let before = m.walk(front);
        let h = order.last();
        assert(m.loads.contains_key(order[order.len() - 1]));
        assert(dependency_count(before.model, h) == dependency_count(m, h));
        law_advance_agrees(before.model, h);
        law_advance_keeps_flight(before.model, h);
        let next = before.model.advance(h);
        assert forall|k: u64| #[trigger]
            awaits_data(m.walk(order).model, k) == awaits_data(m, k) by {
            assert(awaits_data(before.model, k) == awaits_data(m, k));
            assert(awaits_data(next.model, k) == awaits_data(before.model, k));
        }
        assert forall|k: u64| #[trigger] m.walk(order).retired.contains(k) implies !awaits_data(
            m,
            k,
        ) by {
            if before.fault is None {
                let all = before.retired + next.retired;
                let i = choose|i: int| 0 <= i < all.len() && all[i] == k;
                if i < before.retired.len() {
                    assert(before.retired[i] == k);
                    assert(before.retired.contains(k));
                } else {
                    assert(next.retired[i - before.retired.len()] == k);
                    assert(next.retired.contains(k));
                    assert(awaits_data(next.model, k) == awaits_data(before.model, k));
                    assert(awaits_data(before.model, k) == awaits_data(m, k));
                }
            }
        }
    } else {
        assert forall|k: u64| #[trigger] m.walk(order).retired.contains(k) implies !awaits_data(
            m,
            k,
        ) by {}
    }
}

/// Advancing all loads does not affect which data is under way, as long as handles are left: no
/// load is given up while data is being requested for it.
pub proof fn law_advance_all_keeps_flight(m: LoaderModel, order: Seq<u64>)
    requires
        tables_agree(m),
        is_order_of(order, m),
        m.next_handle + dependency_total(m, order) <= u64::MAX,
    ensures
        same_flight(m, m.advance_all(order).model),
{
    assert forall|i: int| 0 <= i < order.len() implies m.loads.contains_key(
        #[trigger] order[i],
    ) by {
        assert(order.contains(order[i]));
    }
    lemma_walk_keeps_flight(m, order);
    let walked = m.walk(order);
    assert forall|k: u64| #[trigger] awaits_data(m.advance_all(order).model, k) == awaits_data(
        m,
        k,
    ) by {
        assert(awaits_data(walked.model, k) == awaits_data(m, k));
        if walked.fault is None && walked.retired.to_set().contains(k) {
            assert(walked.retired.contains(k));
        }
    }
}

/// Following a report of the engine does not affect which data is under way, unless the engine
/// reports to have loaded an asset that it was not handed.
pub proof fn law_apply_op_keeps_flight(m: LoaderModel, op: HandleOp)
    requires
        op matches HandleOp::LoadComplete(handle) ==> !awaits_data(m, handle.0),
    ensures
        same_flight(m, m.apply_op(op).model),
{
}

proof fn lemma_note_changes_flight(m: LoaderModel, ids: Seq<AssetUuid>)
    ensures
        same_flight(m, m.note_changes(ids)),
    decreases ids.len(),
{
    if ids.len() > 0 {
        lemma_note_changes_flight(m, ids.drop_last());
        let before = m.note_changes(ids.drop_last());
        assert forall|h: u64| #[trigger] awaits_data(m.note_changes(ids), h) == awaits_data(m, h) by {
            assert(awaits_data(before, h) == awaits_data(m, h));
        }
    }
}

proof fn lemma_note_deletions_flight(m: LoaderModel, ids: Seq<AssetUuid>)
    ensures
        same_flight(m, m.note_deletions(ids)),
    decreases ids.len(),
{
    if ids.len() > 0 {
        lemma_note_deletions_flight(m, ids.drop_last());
        let before = m.note_deletions(ids.drop_last());
        assert forall|h: u64| #[trigger]
            awaits_data(m.note_deletions(ids), h) == awaits_data(m, h) by {
            assert(awaits_data(before, h) == awaits_data(m, h));
        }
    }
}

proof fn lemma_commit_reloads_flight(m: LoaderModel, reloads: Seq<PendingReload>)
    ensures
        same_flight(m, m.commit_reloads(reloads).model),
    decreases reloads.len(),
{
    if reloads.len() > 0 {
        lemma_commit_reloads_flight(m, reloads.drop_last());
        let before = m.commit_reloads(reloads.drop_last()).model;
        assert forall|h: u64| #[trigger]
            awaits_data(m.commit_reloads(reloads).model, h) == awaits_data(m, h) by {
            assert(awaits_data(before, h) == awaits_data(m, h));
        }
    }
}

/// Following changes does not affect which data is under way.
pub proof fn law_process_changes_keeps_flight(m: LoaderModel, changes: Option<ChangeSet>)
    ensures
        same_flight(m, m.process_changes(changes).model),
{
    if changes is Some {
        let set = changes->0;
        lemma_note_changes_flight(m, set.changed);
        lemma_note_deletions_flight(m.note_changes(set.changed), set.deleted);
    }
    lemma_commit_reloads_flight(m, m.pending_reloads);
    let committed = m.commit_reloads(m.pending_reloads).model;
    assert forall|h: u64| #[trigger]
        awaits_data(m.process_changes(changes).model, h) == awaits_data(m, h) by {
        assert(awaits_data(committed, h) == awaits_data(m, h));
        if changes is Some {
            let noted = m.note_changes(changes->0.changed);
            assert(awaits_data(noted, h) == awaits_data(m, h));
            assert(awaits_data(noted.note_deletions(changes->0.deleted), h) == awaits_data(noted, h));
        }
    }
}

/// The loads in the settlements of requests.
pub open spec fn settled_handles<T>(settled: Seq<(Option<T>, LoadHandle)>) -> Seq<LoadHandle> {
    settled.map_values(|s: (Option<T>, LoadHandle)| s.1)
}

/// Requests about different loads are divided into those that are settled and those that are not.
pub proof fn lemma_divided<P, T>(requests: Seq<ResponsePromise<P, T, LoadHandle>>, i: int)
    requires
        0 <= i <= requests.len(),
        handles_of(requests).no_duplicates(),
    ensures
        ({
            let left = unsettled_from(requests, i);
            let settled = settlements_from(requests, i);
            &&& i <= left.len()
            &&& forall|j: int| 0 <= j < i ==> left[j] == requests[j]
            &&& handles_of(left).no_duplicates()
            &&& settled_handles(settled).no_duplicates()
            &&& forall|j: int| 0 <= j < i ==> !settled_handles(settled).contains(
                #[trigger] requests[j].user_data,
            )
            &&& forall|handle: LoadHandle|
                #![trigger handles_of(left).contains(handle)]
                #![trigger settled_handles(settled).contains(handle)]
                {
                    &&& handles_of(requests).contains(handle) <==> handles_of(left).contains(handle)
                        || settled_handles(settled).contains(handle)
                    &&& !(handles_of(left).contains(handle) && settled_handles(settled).contains(
                        handle,
                    ))
                }
        }),
    decreases requests.len() - i,
{
    let left = unsettled_from(requests, i);
    let settled = settlements_from(requests, i);
    if i < requests.len() {
        lemma_divided(requests, i + 1);
        let left1 = unsettled_from(requests, i + 1);
        let settled1 = settlements_from(requests, i + 1);
        let own = requests[i].user_data;
        assert(handles_of(requests)[i] == own);
        if requests[i].is_settled() {
            assert(settled_handles(settled) =~= settled_handles(settled1).push(own));
            assert(!settled_handles(settled1).contains(own));
            assert(handles_of(left1)[i] == own);
            assert(handles_of(left) =~= handles_of(left1).update(
                i,
                handles_of(left1).last(),
            ).drop_last());
            lemma_swapped_out(handles_of(left1), i);
            assert forall|j: int| 0 <= j < i implies !settled_handles(settled).contains(
                #[trigger] requests[j].user_data,
            ) by {
                lemma_contains_push(settled_handles(settled1), own, requests[j].user_data);
                assert(handles_of(requests)[j] == requests[j].user_data);
            }
            assert forall|handle: LoadHandle|
                #![trigger handles_of(left).contains(handle)]
                #![trigger settled_handles(settled).contains(handle)]
                {
                    &&& handles_of(requests).contains(handle) <==> handles_of(left).contains(handle)
                        || settled_handles(settled).contains(handle)
                    &&& !(handles_of(left).contains(handle) && settled_handles(settled).contains(
                        handle,
                    ))
                } by {
                lemma_contains_push(settled_handles(settled1), own, handle);
                assert(handles_of(left).contains(handle) <==> handles_of(left1).contains(handle)
                    && handle != own);
                assert(handles_of(left1).contains(own));
                assert(handles_of(requests).contains(handle) <==> handles_of(left1).contains(handle)
                    || settled_handles(settled1).contains(handle));
            }
        }
    } else {
        assert(settled_handles(settled) =~= Seq::empty());
    }
}

/// Taking out an element of a sequence without duplicates, the last one taking its place.
proof fn lemma_swapped_out<A>(s: Seq<A>, i: int)
    requires
        0 <= i < s.len(),
        s.no_duplicates(),
    ensures
        ({
            let t = s.update(i, s.last()).drop_last();
            &&& t.no_duplicates()
            &&& forall|x: A| #[trigger] t.contains(x) <==> s.contains(x) && x != s[i]
        }),
{
    let t = s.update(i, s.last()).drop_last();
    assert forall|x: A| #[trigger] t.contains(x) <==> s.contains(x) && x != s[i] by {
        if t.contains(x) {
            let j = choose|j: int| 0 <= j < t.len() && t[j] == x;
            if j == i {
                assert(s[s.len() - 1] == x);
            } else {
                assert(s[j] == x);
            }
        }
        if s.contains(x) && x != s[i] {
            let j = choose|j: int| 0 <= j < s.len() && s[j] == x;
            if j == s.len() - 1 {
                assert(t[i] == x);
            } else {
                assert(t[j] == x);
            }
        }
    }
}

/// Whether a fault lies in what an answer says, and not in the load that it is for.
pub open spec fn is_about_content(fault: Fault) -> bool {
    fault is IdLength || fault is AssetTypeChanged || fault is VersionOverflow
}

/// The answer to a data request ends the wait of its load and of no other, and nothing but what the
/// answer says can stop the loader.
pub proof fn law_answer_ends_the_wait(
    m: LoaderModel,
    answer: Option<DataResponse>,
    handle: LoadHandle,
    accepted: bool,
)
    requires
        awaits_data(m, handle.0),
    ensures
        ({
            let e = m.settle_data(answer, handle, accepted);
            &&& e.fault matches Some(fault) ==> is_about_content(fault) && e.model == m
            &&& e.fault is None ==> !awaits_data(e.model, handle.0)
            &&& forall|k: u64|
                k != handle.0 ==> #[trigger] awaits_data(e.model, k) == awaits_data(m, k)
        }),
{
}

proof fn lemma_settle_all_data_flight(
    m: LoaderModel,
    settled: Seq<(Option<DataResponse>, LoadHandle)>,
    accepted: Seq<bool>,
)
    requires
        settled_handles(settled).no_duplicates(),
        forall|i: int| 0 <= i < settled.len() ==> awaits_data(m, (#[trigger] settled[i]).1.0),
    ensures
        ({
            let e = m.settle_all_data(settled, accepted);
            &&& e.fault matches Some(fault) ==> is_about_content(fault)
            &&& e.fault is None ==> forall|k: u64| #[trigger]
                awaits_data(e.model, k) <==> awaits_data(m, k) && !settled_handles(
                    settled,
                ).contains(LoadHandle(k))
        }),
    decreases settled.len(),
{
    if settled.len() > 0 {
        let front = settled.drop_last();
        let last = settled.last();
        assert(settled_handles(front) =~= settled_handles(settled).drop_last());
        assert forall|i: int| 0 <= i < front.len() implies awaits_data(
            m,
            (#[trigger] front[i]).1.0,
        ) by {
            assert(front[i] == settled[i]);
        }
        lemma_settle_all_data_flight(m, front, accepted);
        let before = m.settle_all_data(front, accepted);
        if before.fault is None {
            assert(settled_handles(settled) =~= settled_handles(front).push(last.1));
            assert(settled[settled.len() - 1] == last);
            assert(settled_handles(settled)[settled.len() - 1] == last.1);
            assert(!settled_handles(front).contains(last.1)) by {
                if settled_handles(front).contains(last.1) {
                    let j = choose|j: int|
                        0 <= j < settled_handles(front).len() && settled_handles(front)[j]
                            == last.1;
                    assert(settled_handles(settled)[j] == last.1);
                }
            }
            assert(awaits_data(before.model, last.1.0)) by {
                assert(LoadHandle(last.1.0) == last.1);
            }
            let answer = accepted[before.calls.len() as int];
            law_answer_ends_the_wait(before.model, last.0, last.1, answer);
            let e = m.settle_all_data(settled, accepted);
            if e.fault is None {
                assert forall|k: u64| #[trigger]
                    awaits_data(e.model, k) <==> awaits_data(m, k) && !settled_handles(
                        settled,
                    ).contains(LoadHandle(k)) by {
                    lemma_contains_push(settled_handles(front), last.1, LoadHandle(k));
                    assert(awaits_data(before.model, k) <==> awaits_data(m, k) && !settled_handles(
                        front,
                    ).contains(LoadHandle(k)));
                }
            }
        }
    } else {
        assert(settled_handles(settled) =~= Seq::empty());
    }
}

/// A data request and a load that waits for data always belong together: if each load that waits
/// has one request under way, and each request such a load, then the same holds after the answers
/// have been followed and, over a connection, data has been requested for the loads that need it.
/// Nothing but what an answer says can stop the loader on the way.
pub proof fn law_requests_match_loads<P>(
    m: LoaderModel,
    requests: Seq<ResponsePromise<P, DataResponse, LoadHandle>>,
    accepted: Seq<bool>,
    list: Option<Seq<(AssetUuid, LoadHandle)>>,
)
    requires
        in_flight(m, handles_of(requests)),
        ({
            let e = m.settle_all_data(settlements(requests), accepted);
            list matches Some(made) ==> lists_exactly(
                made,
                e.model,
                |h: u64| e.model.needs_data(h),
            )
        }),
    ensures
        ({
            let e = m.settle_all_data(settlements(requests), accepted);
            &&& e.fault matches Some(fault) ==> is_about_content(fault)
            &&& e.fault is None ==> in_flight(e.model, handles_of(unsettled(requests)))
            &&& e.fault is None && list is Some ==> in_flight(
                e.model.requesting_all_data(),
                handles_of(unsettled(requests)) + listed(list->0),
            )
        }),
{
    let settled = settlements(requests);
    let left = handles_of(unsettled(requests));
    lemma_divided(requests, 0);
    assert forall|i: int| 0 <= i < settled.len() implies awaits_data(
        m,
        (#[trigger] settled[i]).1.0,
    ) by {
        assert(settled_handles(settled)[i] == settled[i].1);
        assert(settled_handles(settled).contains(settled[i].1));
    }
    lemma_settle_all_data_flight(m, settled, accepted);
    let e = m.settle_all_data(settled, accepted);
    if e.fault is None {
        assert forall|handle: LoadHandle| #[trigger] left.contains(handle) <==> awaits_data(
            e.model,
            handle.0,
        ) by {
            assert(LoadHandle(handle.0) == handle);
            assert(handles_of(requests).contains(handle) <==> awaits_data(m, handle.0));
        }
        if list is Some {
            let made = list->0;
            let n = e.model.requesting_all_data();
            let new = listed(made);
            assert forall|handle: LoadHandle| #[trigger]
                new.contains(handle) <==> e.model.needs_data(handle.0) by {
                if new.contains(handle) {
                    let j = choose|j: int| 0 <= j < new.len() && new[j] == handle;
                    assert(made[j] == (made[j].0, handle));
                    assert(made.contains((made[j].0, handle)));
                }
                if e.model.needs_data(handle.0) {
                    let entry = (e.model.loads[handle.0].asset_id, handle);
                    assert(made.contains(entry));
                    let j = choose|j: int| 0 <= j < made.len() && made[j] == entry;
                    assert(new[j] == handle);
                }
            }
            assert(new.no_duplicates()) by {
                assert forall|i: int, j: int|
                    0 <= i < new.len() && 0 <= j < new.len() && i != j implies new[i] != new[j] by {
                    if new[i] == new[j] {
                        assert(made.contains((made[i].0, made[i].1)));
                        assert(made.contains((made[j].0, made[j].1)));
                        assert(made[i] == made[j]);
                    }
                }
            }
            let all = left + new;
            assert forall|handle: LoadHandle| #[trigger] all.contains(handle) <==> awaits_data(
                n,
                handle.0,
            ) by {
                lemma_contains_add(left, new, handle);
                assert(left.contains(handle) <==> awaits_data(e.model, handle.0));
                assert(new.contains(handle) <==> e.model.needs_data(handle.0));
            }
            assert(all.no_duplicates()) by {
                assert forall|i: int, j: int|
                    0 <= i < all.len() && 0 <= j < all.len() && i != j implies all[i] != all[j] by {
                    let (a, b) = if i < j {
                        (i, j)
                    } else {
                        (j, i)
                    };
                    if a < left.len() && b >= left.len() && all[a] == all[b] {
                        assert(left[a] == all[a]);
                        assert(new[b - left.len()] == all[b]);
                        assert(left.contains(all[a]));
                        assert(new.contains(all[a]));
                    }
                }
            }
        }
    }
}

/// What two sequences contain together.
pub proof fn lemma_contains_add<A>(s: Seq<A>, t: Seq<A>, x: A)
    ensures
        (s + t).contains(x) == (s.contains(x) || t.contains(x)),
{
    if s.contains(x) {
        let i = choose|i: int| 0 <= i < s.len() && s[i] == x;
        assert((s + t)[i] == x);
    }
    if t.contains(x) {
        let i = choose|i: int| 0 <= i < t.len() && t[i] == x;
        assert((s + t)[s.len() + i] == x);
    }
    if (s + t).contains(x) {
        let i = choose|i: int| 0 <= i < (s + t).len() && (s + t)[i] == x;
        if i < s.len() {
            assert(s[i] == x);
        } else {
            assert(t[i - s.len()] == x);
        }
    }
}

} // verus!
