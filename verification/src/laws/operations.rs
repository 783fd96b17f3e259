//! What the loader's own operations do, step by step, to the loader and to the storage.

use crate::assets::last_answer;
use crate::changes::{changes_in, AssetChanges};
use crate::channel::HandleOp;
use crate::data::LoaderData;
use crate::fault::Fault;
use crate::ids::{AssetUuid, LoadHandle};
use crate::laws::delivery::{answer_is_followed, law_following_an_answer_with_data};
use crate::laws::phases::{
    all_data_followed, all_metadata_followed, changes_noted, data_requested, deletions_noted,
    follows_changes, follows_reports, goes_on_with_reloads, law_following_an_answer_with_metadata,
    law_following_answers_with_data, law_following_answers_with_metadata, law_following_changes,
    law_following_reports, law_going_on_with_reloads, law_noting_changes, law_noting_deletions,
    law_passing_over_loads, law_requesting, lemma_listed_loads, metadata_is_followed,
    metadata_requested, names_each_load_once, names_loads_in, passes_over, states_change, sums_up,
    waiting_for_data, waiting_for_metadata, was_taken, ToldOf,
};
use crate::laws::steps::{advances, is_reported, law_advancing_a_load, law_following_a_report};
use crate::model::{answers, is_order_of, ChangeSet, Effect, LoaderModel, StorageCall};
use crate::ops::commit_asset;
use crate::responses::{DataResponse, MetadataResponse};
use crate::state::{AssetLoad, AssetLoadState, LoadState};
use crate::storage::{AssetStorage, TracedStorage};
use vstd::prelude::*;

verus! {

/// Whether `e` leads to `after`, and `done` says whether the loader can go on.
pub open spec fn has_led_to(e: Effect, after: LoaderModel, done: Result<(), Fault>) -> bool {
    &&& after == e.model
    &&& match done {
        Ok(()) => e.fault is None,
        Err(fault) => e.fault == Some(fault),
    }
}

/// Whether `e` is what has happened: it leads to `after`, the calls it makes are those that were
/// added to `calls`, and `done` says whether the loader can go on.
pub open spec fn has_happened(
    e: Effect,
    calls: Seq<StorageCall>,
    after: LoaderModel,
    calls_after: Seq<StorageCall>,
    done: Result<(), Fault>,
) -> bool {
    has_led_to(e, after, done) && calls_after == calls + e.calls
}

// ----- passing over the loads

/// A load is advanced by one step.
pub proof fn law_advance<S: AssetStorage + ?Sized>(
    data: &mut LoaderData,
    handle: u64,
    storage: &mut TracedStorage<S>,
    retire: Result<bool, Fault>,
)
    requires
        call_ensures(LoaderData::advance::<S>, (data, handle, storage), retire),
    ensures
        final(storage).inner() == old(storage).inner(),
        exists|e: Effect|
            {
                &&& #[trigger] advances(old(data)@, e, handle)
                &&& final(data)@ == e.model
                &&& final(storage).calls() == old(storage).calls() + e.calls
                &&& match retire {
                    Ok(gives_up) => e.fault is None && e.retired == if gives_up {
                        seq![handle]
                    } else {
                        Seq::empty()
                    },
                    Err(fault) => e.fault == Some(fault),
                }
            },
{
    law_advancing_a_load(old(data)@, handle);
    let e = old(data)@.advance(handle);
    assert(advances(old(data)@, e, handle));
}

/// The loads are advanced in the order given.
pub proof fn law_advance_all<S: AssetStorage + ?Sized>(
    data: &mut LoaderData,
    order: &Vec<u64>,
    storage: &mut TracedStorage<S>,
    done: Result<(), Fault>,
)
    requires
        call_ensures(LoaderData::advance_all::<S>, (data, order, storage), done),
    ensures
        final(storage).inner() == old(storage).inner(),
        exists|e: Effect| #[trigger]
            passes_over(old(data)@, e, order@) && has_happened(
                e,
                old(storage).calls(),
                final(data)@,
                final(storage).calls(),
                done,
            ),
{
    law_passing_over_loads(old(data)@, order@);
    let e = old(data)@.advance_all(order@);
    assert(passes_over(old(data)@, e, order@));
}

/// Each load is advanced once, in some order.
pub proof fn law_process_load_states<S: AssetStorage + ?Sized>(
    data: &mut LoaderData,
    storage: &mut TracedStorage<S>,
    done: Result<(), Fault>,
)
    requires
        call_ensures(LoaderData::process_load_states::<S>, (data, storage), done),
    ensures
        final(storage).inner() == old(storage).inner(),
        exists|order: Seq<u64>, e: Effect| #[trigger]
            passes_over(old(data)@, e, order) && names_each_load_once(old(data)@, order)
                && has_happened(
                e,
                old(storage).calls(),
                final(data)@,
                final(storage).calls(),
                done,
            ),
{
    let m = old(data)@;
    let order = choose|order: Seq<u64>|
        {
            &&& is_order_of(order, m)
            &&& final(data)@ == (#[trigger] m.advance_all(order)).model
            &&& final(storage).calls() == old(storage).calls() + m.advance_all(order).calls
            &&& done == m.advance_all(order).outcome()
        };
    law_passing_over_loads(m, order);
    lemma_names_each_load(m, order);
    assert(passes_over(m, m.advance_all(order), order));
}

/// An order of the loads names each of them once.
pub proof fn lemma_names_each_load(m: LoaderModel, order: Seq<u64>)
    requires
        is_order_of(order, m),
    ensures
        names_each_load_once(m, order),
{
    assert forall|i: int| 0 <= i < order.len() implies m.loads.contains_key(
        #[trigger] order[i],
    ) by {
        assert(order.contains(order[i]));
    }
    assert forall|h: u64| #[trigger] m.loads.contains_key(h) implies exists|i: int|
        0 <= i < order.len() && order[i] == h by {
        assert(order.contains(h));
    }
}

// ----- reports of the engine

/// A report of the engine is followed.
pub proof fn law_process_load_op<S: AssetStorage + ?Sized>(
    data: &mut LoaderData,
    op: HandleOp,
    storage: &mut TracedStorage<S>,
    done: Result<(), Fault>,
)
    requires
        call_ensures(LoaderData::process_load_op::<S>, (data, op, storage), done),
    ensures
        final(storage).inner() == old(storage).inner(),
        exists|e: Effect| #[trigger]
            is_reported(old(data)@, e, op) && has_happened(
                e,
                old(storage).calls(),
                final(data)@,
                final(storage).calls(),
                done,
            ),
{
    law_following_a_report(old(data)@, op);
    let e = old(data)@.apply_op(op);
    assert(is_reported(old(data)@, e, op));
}

/// The reports of the engine are followed, whatever comes.
pub proof fn law_process_load_ops<S: AssetStorage + ?Sized>(
    data: &mut LoaderData,
    storage: &mut TracedStorage<S>,
    done: Result<(), Fault>,
)
    requires
        call_ensures(LoaderData::process_load_ops::<S>, (data, storage), done),
    ensures
        final(storage).inner() == old(storage).inner(),
        exists|ops: Seq<HandleOp>, e: Effect| #[trigger]
            follows_reports(old(data)@, e, ops) && has_happened(
                e,
                old(storage).calls(),
                final(data)@,
                final(storage).calls(),
                done,
            ),
{
    let m = old(data)@;
    let ops = choose|ops: Seq<HandleOp>|
        {
            let effect = #[trigger] m.follow_ops(ops);
            &&& final(data)@ == effect.model
            &&& final(storage).calls() == old(storage).calls() + effect.calls
            &&& done == effect.outcome()
        };
    law_following_reports(m, ops);
    assert(follows_reports(m, m.follow_ops(ops), ops));
}

/// Committing a load tells the storage of the version that was requested, and notes that it is in
/// use.
pub proof fn law_commit_asset<S: AssetStorage + ?Sized>(
    handle: LoadHandle,
    load: &mut AssetLoad,
    storage: &mut TracedStorage<S>,
)
    requires
        call_ensures(commit_asset::<S>, (handle, load, storage), ()),
        old(load).asset_type is Some,
        old(load).requested_version is Some,
    ensures
        final(storage).inner() == old(storage).inner(),
        final(storage).calls().len() == old(storage).calls().len() + 1,
        forall|i: int|
            0 <= i < old(storage).calls().len() ==> #[trigger] final(storage).calls()[i]
                == old(storage).calls()[i],
        final(storage).calls().last() == (StorageCall::Commit {
            asset_type: old(load).asset_type->0,
            handle,
            version: old(load).requested_version->0,
        }),
        final(load).state == LoadState::Loaded(AssetLoadState::Loaded),
        final(load).loaded_version == old(load).requested_version,
        final(load).requested_version == old(load).requested_version,
        final(load).asset_id == old(load).asset_id,
        final(load).asset_type == old(load).asset_type,
        final(load).refs == old(load).refs,
        final(load).auto_commit == old(load).auto_commit,
        final(load).pending_reload == old(load).pending_reload,
{
}

// ----- changes

/// Changed assets are noted, each in turn.
pub proof fn law_note_changes(data: &mut LoaderData, changed: &Vec<AssetUuid>)
    requires
        call_ensures(LoaderData::note_changes, (data, changed), ()),
    ensures
        exists|models: Seq<LoaderModel>| #[trigger]
            changes_noted(models, changed@) && models[0] == old(data)@
                && models.last() == final(data)@,
{
    let models = law_noting_changes(old(data)@, changed@);
    assert(changes_noted(models, changed@));
}

/// Deleted assets are noted, each in turn.
pub proof fn law_note_deletions(data: &mut LoaderData, deleted: &Vec<AssetUuid>)
    requires
        call_ensures(LoaderData::note_deletions, (data, deleted), ()),
    ensures
        exists|models: Seq<LoaderModel>| #[trigger]
            deletions_noted(models, deleted@) && models[0] == old(data)@
                && models.last() == final(data)@,
{
    let models = law_noting_deletions(old(data)@, deleted@);
    assert(deletions_noted(models, deleted@));
}

/// Pending reloads are gone on with.
pub proof fn law_finish_reloads<S: AssetStorage + ?Sized>(
    data: &mut LoaderData,
    storage: &mut TracedStorage<S>,
    done: Result<(), Fault>,
)
    requires
        call_ensures(LoaderData::finish_reloads::<S>, (data, storage), done),
    ensures
        final(storage).inner() == old(storage).inner(),
        exists|e: Effect| #[trigger]
            goes_on_with_reloads(old(data)@, e) && has_happened(
                e,
                old(storage).calls(),
                final(data)@,
                final(storage).calls(),
                done,
            ),
{
    law_going_on_with_reloads(old(data)@);
    let e = old(data)@.finish_reloads();
    assert(goes_on_with_reloads(old(data)@, e));
}

/// The changed and the deleted assets, as the daemon has named them.
pub open spec fn named_in(changes: Option<AssetChanges>) -> Option<ChangeSet> {
    if changes is Some {
        Some(ChangeSet { changed: changes->0.changed@, deleted: changes->0.deleted@ })
    } else {
        None
    }
}

/// The daemon's word on changed and deleted assets is followed.
pub proof fn law_process_asset_changes<S: AssetStorage + ?Sized>(
    data: &mut LoaderData,
    changes: &Option<AssetChanges>,
    storage: &mut TracedStorage<S>,
    done: Result<(), Fault>,
)
    requires
        call_ensures(LoaderData::process_asset_changes::<S>, (data, changes, storage), done),
    ensures
        final(storage).inner() == old(storage).inner(),
        exists|e: Effect| #[trigger]
            follows_changes(old(data)@, e, named_in(*changes)) && has_happened(
                e,
                old(storage).calls(),
                final(data)@,
                final(storage).calls(),
                done,
            ),
{
    assert(changes_in(*changes) == named_in(*changes));
    law_following_changes(old(data)@, named_in(*changes));
    let e = old(data)@.process_changes(named_in(*changes));
    assert(follows_changes(old(data)@, e, named_in(*changes)));
}

// ----- metadata

/// The answer to a request for metadata is followed.
pub proof fn law_settle_metadata(
    data: &mut LoaderData,
    answer: &Option<MetadataResponse>,
    requested: &Vec<(AssetUuid, LoadHandle)>,
    done: Result<(), Fault>,
)
    requires
        call_ensures(LoaderData::settle_metadata, (data, answer, requested), done),
    ensures
        exists|e: Effect| #[trigger]
            metadata_is_followed(old(data)@, e, *answer, requested@) && has_led_to(
                e,
                final(data)@,
                done,
            ),
{
    law_following_an_answer_with_metadata(old(data)@, *answer, requested@);
    let e = old(data)@.settle_metadata(*answer, requested@);
    assert(metadata_is_followed(old(data)@, e, *answer, requested@));
}

/// Whether `e` is what the answers `settled` with metadata do, each followed in turn.
pub open spec fn answers_with_metadata_followed(
    m: LoaderModel,
    e: Effect,
    settled: Seq<ToldOf>,
) -> bool {
    exists|trail: Seq<Effect>| #[trigger]
        sums_up(m, trail, e, settled.len()) && all_metadata_followed(m, trail, settled)
}

/// The answers to requests for metadata are followed, each in turn.
pub proof fn law_settle_all_metadata(
    data: &mut LoaderData,
    settled: &Vec<ToldOf>,
    done: Result<(), Fault>,
)
    requires
        call_ensures(LoaderData::settle_all_metadata, (data, settled), done),
    ensures
        exists|e: Effect| #[trigger]
            answers_with_metadata_followed(old(data)@, e, settled@) && has_led_to(
                e,
                final(data)@,
                done,
            ),
{
    let trail = law_following_answers_with_metadata(old(data)@, settled@);
    let e = old(data)@.settle_all_metadata(settled@);
    assert(answers_with_metadata_followed(old(data)@, e, settled@));
}

/// The metadata of each load that waits for it is requested, and of no other.
pub proof fn law_request_metadata(data: &mut LoaderData, requested: Vec<(AssetUuid, LoadHandle)>)
    requires
        call_ensures(LoaderData::request_metadata, (data,), requested),
    ensures
        names_loads_in(old(data)@, requested@, waiting_for_metadata()),
        states_change(old(data)@, final(data)@, metadata_requested()),
{
    let m = old(data)@;
    law_requesting(m);
    lemma_listed_loads(m, requested@, |h: u64| m.needs_metadata(h), waiting_for_metadata());
}

// ----- data

/// The answer to a request for data is followed.
pub proof fn law_settle_data<S: AssetStorage + ?Sized>(
    data: &mut LoaderData,
    answer: &Option<DataResponse>,
    handle: LoadHandle,
    storage: &mut TracedStorage<S>,
    done: Result<(), Fault>,
)
    requires
        call_ensures(LoaderData::settle_data::<S>, (data, answer, handle, storage), done),
    ensures
        final(storage).inner() == old(storage).inner(),
        exists|e: Effect| #[trigger]
            answer_is_followed(old(data)@, e, *answer, handle, was_taken(e)) && has_happened(
                e,
                old(storage).calls(),
                final(data)@,
                final(storage).calls(),
                done,
            ),
{
    let m = old(data)@;
    let accepted = last_answer(final(storage).calls());
    let e = m.settle_data(*answer, handle, accepted);
    law_following_an_answer_with_data(m, *answer, handle, accepted);
    assert(answer_is_followed(m, e, *answer, handle, was_taken(e)));
}

/// Whether `e` is what the answers `settled` with data do, each followed in turn.
pub open spec fn answers_with_data_followed(
    m: LoaderModel,
    e: Effect,
    settled: Seq<(Option<DataResponse>, LoadHandle)>,
) -> bool {
    exists|trail: Seq<Effect>| #[trigger]
        sums_up(m, trail, e, settled.len()) && all_data_followed(m, trail, settled)
}

/// The answers to requests for data are followed, each in turn.
pub proof fn law_settle_all_data<S: AssetStorage + ?Sized>(
    data: &mut LoaderData,
    settled: &Vec<(Option<DataResponse>, LoadHandle)>,
    storage: &mut TracedStorage<S>,
    done: Result<(), Fault>,
)
    requires
        call_ensures(LoaderData::settle_all_data::<S>, (data, settled, storage), done),
    ensures
        final(storage).inner() == old(storage).inner(),
        exists|e: Effect| #[trigger]
            answers_with_data_followed(old(data)@, e, settled@) && has_happened(
                e,
                old(storage).calls(),
                final(data)@,
                final(storage).calls(),
                done,
            ),
{
    let m = old(data)@;
    let accepted = answers(final(storage).calls().skip(old(storage).calls().len() as int));
    let trail = law_following_answers_with_data(m, settled@, accepted);
    let e = m.settle_all_data(settled@, accepted);
    assert(answers_with_data_followed(m, e, settled@));
}

/// The data of each load that waits for it is requested, and of no other.
pub proof fn law_request_data(data: &mut LoaderData, requested: Vec<(AssetUuid, LoadHandle)>)
    requires
        call_ensures(LoaderData::request_data, (data,), requested),
    ensures
        names_loads_in(old(data)@, requested@, waiting_for_data()),
        states_change(old(data)@, final(data)@, data_requested()),
{
    let m = old(data)@;
    law_requesting(m);
    lemma_listed_loads(m, requested@, |h: u64| m.needs_data(h), waiting_for_data());
}

// ----- requests in a given order

/// Whether `order` names `h` before the place `n`.
pub open spec fn named_before(order: Seq<u64>, h: u64, n: int) -> bool {
    exists|i: int| 0 <= i < n && i < order.len() && order[i] == h
}

/// Whether `list` names those loads of `order` whose state is one of `states`, each once, with its
/// asset, in the order in which `order` names them first.
pub open spec fn names_in_order(
    m: LoaderModel,
    list: Seq<(AssetUuid, LoadHandle)>,
    order: Seq<u64>,
    states: Set<LoadState>,
) -> bool {
    &&& forall|i: int, j: int| 0 <= i < j < list.len() ==> #[trigger] list[i] != #[trigger] list[j]
    &&& forall|i: int|
        0 <= i < list.len() ==> {
            let (id, handle) = #[trigger] list[i];
            &&& named_before(order, handle.0, order.len() as int)
            &&& m.loads.contains_key(handle.0)
            &&& states.contains(m.loads[handle.0].state)
            &&& m.loads[handle.0].asset_id == id
        }
    &&& forall|k: int|
        0 <= k < order.len() && m.loads.contains_key(#[trigger] order[k]) && states.contains(
            m.loads[order[k]].state,
        ) ==> list.contains((m.loads[order[k]].asset_id, LoadHandle(order[k])))
    &&& forall|i: int, j: int, k: int|
        0 <= i < j < list.len() && 0 <= k < order.len() && (#[trigger] list[j]).1.0
            == #[trigger] order[k] ==> named_before(order, (#[trigger] list[i]).1.0, k)
}

/// What naming one more load in the order does.
proof fn lemma_one_more_named(
    m: LoaderModel,
    list: Seq<(AssetUuid, LoadHandle)>,
    order: Seq<u64>,
    states: Set<LoadState>,
) -> (longer: Seq<(AssetUuid, LoadHandle)>)
    requires
        order.len() > 0,
        names_in_order(m, list, order.drop_last(), states),
    ensures
        names_in_order(m, longer, order, states),
        longer == if m.loads.contains_key(order.last()) && states.contains(
            m.loads[order.last()].state,
        ) && !order.drop_last().contains(order.last()) {
            list.push((m.loads[order.last()].asset_id, LoadHandle(order.last())))
        } else {
            list
        },
{
    let front = order.drop_last();
    let h = order.last();
    let wanted = m.loads.contains_key(h) && states.contains(m.loads[h].state);
    let entry = (m.loads[h].asset_id, LoadHandle(h));
    let longer = if wanted && !front.contains(h) {
        list.push(entry)
    } else {
        list
    };
    assert forall|i: int| 0 <= i < list.len() implies named_before(
        order,
        (#[trigger] list[i]).1.0,
        front.len() as int,
    ) by {
        let k = choose|k: int| 0 <= k < front.len() && front[k] == list[i].1.0;
        assert(order[k] == front[k]);
    }
    assert forall|i: int, j: int| 0 <= i < j < longer.len() implies #[trigger] longer[i]
        != #[trigger] longer[j] by {
        if j == list.len() {
            let k = choose|k: int| 0 <= k < front.len() && front[k] == list[i].1.0;
            assert(front.contains(list[i].1.0));
        }
    }
    assert forall|i: int| 0 <= i < longer.len() implies {
        let (id, handle) = #[trigger] longer[i];
        &&& named_before(order, handle.0, order.len() as int)
        &&& m.loads.contains_key(handle.0)
        &&& states.contains(m.loads[handle.0].state)
        &&& m.loads[handle.0].asset_id == id
    } by {
        if i < list.len() {
            assert(longer[i] == list[i]);
        } else {
            assert(order[order.len() - 1] == h);
        }
    }
    assert forall|k: int|
        0 <= k < order.len() && m.loads.contains_key(#[trigger] order[k]) && states.contains(
            m.loads[order[k]].state,
        ) implies longer.contains((m.loads[order[k]].asset_id, LoadHandle(order[k]))) by {
        let e = (m.loads[order[k]].asset_id, LoadHandle(order[k]));
        if longer.len() > list.len() && k == front.len() {
            assert(longer[list.len() as int] == e);
        } else {
            let f = if k < front.len() {
                k
            } else {
                choose|f: int| 0 <= f < front.len() && front[f] == h
            };
            assert(front[f] == order[k]);
            assert(list.contains(e));
            let i = choose|i: int| 0 <= i < list.len() && list[i] == e;
            assert(longer[i] == e);
        }
    }
    assert forall|i: int, j: int, k: int|
        0 <= i < j < longer.len() && 0 <= k < order.len() && (#[trigger] longer[j]).1.0
            == #[trigger] order[k] implies named_before(order, (#[trigger] longer[i]).1.0, k) by {
        assert(longer[i] == list[i]);
        if k == front.len() {
        } else if j < list.len() {
            assert(longer[j] == list[j] && front[k] == order[k]);
            let f = choose|f: int| 0 <= f < k && f < front.len() && front[f] == list[i].1.0;
            assert(order[f] == front[f]);
        } else {
            assert(front[k] == h);
            assert(front.contains(h));
        }
    }
    longer
}

proof fn lemma_metadata_named(m: LoaderModel, order: Seq<u64>)
    ensures
        names_in_order(m, m.metadata_requests(order), order, waiting_for_metadata()),
    decreases order.len(),
{
    if order.len() > 0 {
        lemma_metadata_named(m, order.drop_last());
        let longer = lemma_one_more_named(
            m,
            m.metadata_requests(order.drop_last()),
            order,
            waiting_for_metadata(),
        );
        assert(longer == m.metadata_requests(order));
    }
}

proof fn lemma_data_named(m: LoaderModel, order: Seq<u64>)
    ensures
        names_in_order(m, m.data_requests(order), order, waiting_for_data()),
    decreases order.len(),
{
    if order.len() > 0 {
        lemma_data_named(m, order.drop_last());
        let longer = lemma_one_more_named(
            m,
            m.data_requests(order.drop_last()),
            order,
            waiting_for_data(),
        );
        assert(longer == m.data_requests(order));
    }
}

/// Whether `n` is `m` with each load of `order` in the state that `next` gives for its state, and
/// nothing else changed.
pub open spec fn states_change_of(
    m: LoaderModel,
    n: LoaderModel,
    order: Seq<u64>,
    next: spec_fn(LoadState) -> LoadState,
) -> bool {
    &&& n.next_handle == m.next_handle
    &&& n.handles == m.handles
    &&& n.metadata == m.metadata
    &&& n.pending_reloads == m.pending_reloads
    &&& n.reports == m.reports
    &&& n.connected == m.connected
    &&& n.polls == m.polls
    &&& n.loads.dom() == m.loads.dom()
    &&& forall|h: u64| #[trigger]
        m.loads.contains_key(h) ==> n.loads[h] == (AssetLoad {
            state: if order.contains(h) {
                next(m.loads[h].state)
            } else {
                m.loads[h].state
            },
            ..m.loads[h]
        })
}

/// The metadata of those given loads that wait for it is requested, of each once.
pub proof fn law_request_metadata_of(
    data: &mut LoaderData,
    order: &Vec<u64>,
    requested: Vec<(AssetUuid, LoadHandle)>,
)
    requires
        call_ensures(LoaderData::request_metadata_of, (data, order), requested),
    ensures
        names_in_order(old(data)@, requested@, order@, waiting_for_metadata()),
        states_change_of(old(data)@, final(data)@, order@, metadata_requested()),
{
    lemma_metadata_named(old(data)@, order@);
    assert(final(data)@.loads.dom() =~= old(data)@.loads.dom());
}

/// The data of those given loads that wait for it is requested, of each once.
pub proof fn law_request_data_of(
    data: &mut LoaderData,
    order: &Vec<u64>,
    requested: Vec<(AssetUuid, LoadHandle)>,
)
    requires
        call_ensures(LoaderData::request_data_of, (data, order), requested),
    ensures
        names_in_order(old(data)@, requested@, order@, waiting_for_data()),
        states_change_of(old(data)@, final(data)@, order@, data_requested()),
{
    lemma_data_named(old(data)@, order@);
    assert(final(data)@.loads.dom() =~= old(data)@.loads.dom());
}

} // verus!
