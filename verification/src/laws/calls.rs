//! What callers of the loader see over time: rounds are what calls of the loader make of them.

use crate::changes::changes_in;
use crate::channel::HandleOp;
use crate::fault::Fault;
use crate::ids::{AssetUuid, LoadHandle};
use crate::laws::account::{
    accounted, answerable, in_order, last_commit, law_commit_is_of_last_update, law_cycle_account,
    law_data_account, law_metadata_account, law_update_is_of_next_version, may_be_answered,
    subject,
};
use crate::laws::flight::{handles_of, listed};
use crate::laws::round::{law_answers_sound, law_cycle_sound, sound};
use crate::laws::rounds::{
    is_run, law_initial_steady, law_references_steady, law_round_steady, steady, DataRequest, Play,
    Round,
};
use crate::laws::tables::{dependency_count, dependency_total, lemma_reported_same, same_assets};
use crate::laws::unloading::lemma_reported_metadata;
use crate::model::{answers, is_order_of, lists_exactly, ChangeSet, LoaderModel, StorageCall};
use crate::requests::{settlements, unsettled};
use crate::rpc_loader::{
    after_cycle, after_data, after_metadata, cycle, ended_before, processed, reported, RpcAction,
    RpcEvent, RpcLoader,
};
use vstd::prelude::*;

verus! {

/// A call of [`RpcLoader::process`]: the loader and the calls on the storage before and after it,
/// what had happened outside, and what is to be done next.
pub struct ProcessCall<D, M> {
    pub before: RpcLoader<D, M>,
    pub calls: Seq<StorageCall>,
    pub event: RpcEvent<D, M>,
    pub after: RpcLoader<D, M>,
    pub calls_after: Seq<StorageCall>,
    pub next: Result<RpcAction, Fault>,
}

impl<D, M> ProcessCall<D, M> {
    /// Whether this is what [`RpcLoader::process`] does.
    pub open spec fn is_true(self) -> bool {
        processed(self.before, self.calls, self.event, self.after, self.calls_after, self.next)
    }

    /// Whether the call `then` reports that what this one asked for was done, and nothing but that.
    pub open spec fn leads_to(self, then: ProcessCall<D, M>) -> bool {
        &&& then.calls == self.calls_after
        &&& match (self.next, then.event) {
            (Ok(RpcAction::Poll { .. }), RpcEvent::Polled) => then.before == self.after,
            (Ok(RpcAction::CheckChanges), RpcEvent::ChangesChecked(_)) => then.before == self.after,
            (Ok(RpcAction::PollMetadata), RpcEvent::MetadataPolled(_)) => metadata_polled(
                self.after,
                then.before,
            ),
            (
                Ok(RpcAction::RequestMetadata(loads)),
                RpcEvent::MetadataRequested(request),
            ) => then.before == self.after && request.user_data == loads,
            (Ok(RpcAction::PollData), RpcEvent::DataPolled(_)) => data_polled(
                self.after,
                then.before,
            ),
            (Ok(RpcAction::RequestData(loads)), RpcEvent::DataRequested(requests)) => then.before
                == self.after && handles_of(requests@) == listed(loads@),
            _ => false,
        }
    }
}

/// Whether polling the requests for metadata is all that lies between `a` and `b`.
pub open spec fn metadata_polled<D, M>(a: RpcLoader<D, M>, b: RpcLoader<D, M>) -> bool {
    let before = a.requests.pending_metadata_requests@;
    let after = b.requests.pending_metadata_requests@;
    &&& b.data == a.data
    &&& b.requests.pending_data_requests == a.requests.pending_data_requests
    &&& after.len() == before.len()
    &&& forall|i: int|
        0 <= i < before.len() ==> (#[trigger] after[i]).user_data == before[i].user_data
}

/// Whether polling the requests for data is all that lies between `a` and `b`.
pub open spec fn data_polled<D, M>(a: RpcLoader<D, M>, b: RpcLoader<D, M>) -> bool {
    &&& b.data == a.data
    &&& b.requests.pending_metadata_requests == a.requests.pending_metadata_requests
    &&& handles_of(b.requests.pending_data_requests@) == handles_of(
        a.requests.pending_data_requests@,
    )
}

/// Whether `calls` are the calls of [`RpcLoader::process`] in a round, from its beginning to some
/// point.
pub open spec fn begun_round<D, M>(calls: Seq<ProcessCall<D, M>>) -> bool {
    &&& calls.len() > 0
    &&& calls[0].event is Begun
    &&& forall|i: int| 0 <= i < calls.len() ==> #[trigger] in_turn(calls, i)
}

/// Whether `calls` are the calls of [`RpcLoader::process`] in a round, from its beginning to its
/// end.
pub open spec fn whole_round<D, M>(calls: Seq<ProcessCall<D, M>>) -> bool {
    begun_round(calls) && calls.last().next == Ok::<RpcAction, Fault>(RpcAction::Finish)
}

/// Whether the `i`th of `calls` is a call of [`RpcLoader::process`] that leads to the next, if
/// there is a next.
pub open spec fn in_turn<D, M>(calls: Seq<ProcessCall<D, M>>, i: int) -> bool {
    calls[i].is_true() && (i < calls.len() - 1 ==> calls[i].leads_to(calls[i + 1]))
}

/// A loader between rounds, with the calls that were made on the storage.
pub open spec fn play<D, M>(loader: RpcLoader<D, M>, calls: Seq<StorageCall>) -> Play<D, M> {
    Play {
        model: loader.data@,
        metadata: loader.requests.pending_metadata_requests@,
        data: loader.requests.pending_data_requests@,
        calls,
    }
}

/// What the daemon says of changed assets in a round.
pub open spec fn changes_said<D, M>(calls: Seq<ProcessCall<D, M>>) -> Option<ChangeSet> {
    match calls[2].event {
        RpcEvent::ChangesChecked(changes) => changes_in(changes),
        _ => None,
    }
}

/// Which call of a round follows the answers with metadata.
pub open spec fn metadata_call<D, M>(calls: Seq<ProcessCall<D, M>>) -> int {
    if calls[2].event is ChangesChecked {
        3
    } else {
        2
    }
}

/// Which call of a round follows the answers with data.
pub open spec fn data_call<D, M>(calls: Seq<ProcessCall<D, M>>) -> int {
    if calls[metadata_call(calls) + 1].event is MetadataRequested {
        metadata_call(calls) + 2
    } else {
        metadata_call(calls) + 1
    }
}

/// Whether there is a connection when requests have been polled.
pub open spec fn connected_at<D, M>(event: RpcEvent<D, M>) -> bool {
    match event {
        RpcEvent::MetadataPolled(connection) => connection is Connected,
        RpcEvent::DataPolled(connection) => connection is Connected,
        _ => false,
    }
}

/// What happens around the loader in a round with the calls `calls`, if the engine reports `ops`
/// and the loads are advanced in the order `order`.
pub open spec fn round_of<D, M>(
    calls: Seq<ProcessCall<D, M>>,
    ops: Seq<HandleOp>,
    order: Seq<u64>,
) -> Round<D, M> {
    let told = calls[metadata_call(calls)];
    let fed = calls[data_call(calls)];
    Round {
        changes: changes_said(calls),
        ops,
        order,
        metadata: told.before.requests.pending_metadata_requests@,
        metadata_connected: connected_at(told.event),
        metadata_request: match calls[metadata_call(calls) + 1].event {
            RpcEvent::MetadataRequested(request) => Some(request),
            _ => None,
        },
        data: fed.before.requests.pending_data_requests@,
        accepted: answers(fed.calls_after.skip(fed.calls.len() as int)),
        data_connected: connected_at(fed.event),
        data_requests: match calls.last().event {
            RpcEvent::DataRequested(requests) => requests@,
            _ => Seq::empty(),
        },
    }
}

/// Whether handles are left for all that the loads may depend on.
pub open spec fn handles_left(m: LoaderModel) -> bool {
    forall|order: Seq<u64>|
        order.no_duplicates() && (forall|i: int|
            0 <= i < order.len() ==> m.loads.contains_key(#[trigger] order[i])) ==> m.next_handle
            + #[trigger] dependency_total(m, order) <= u64::MAX
}

/// Without new assets and new metadata there are no more dependencies than before.
proof fn lemma_no_more_dependencies(m: LoaderModel, n: LoaderModel, order: Seq<u64>)
    requires
        same_assets(m, n),
        n.metadata == m.metadata,
    ensures
        dependency_total(n, order) <= dependency_total(m, order),
    decreases order.len(),
{
    if order.len() > 0 {
        lemma_no_more_dependencies(m, n, order.drop_last());
        assert(dependency_count(n, order.last()) <= dependency_count(m, order.last()));
    }
}

/// The part of a round in which changes and reports are followed and the loads are advanced.
proof fn lemma_cycle_part(
    before: LoaderModel,
    calls: Seq<StorageCall>,
    changes: Option<ChangeSet>,
    after: LoaderModel,
    calls_after: Seq<StorageCall>,
) -> (found: (Seq<HandleOp>, Seq<u64>))
    requires
        handles_left(before),
        after_cycle(before, calls, changes, after, calls_after, Ok(())),
    ensures
        ({
            let (ops, order) = found;
            let e = cycle(before, changes, ops, order);
            let n = reported(before, changes, ops).model;
            &&& e.fault is None
            &&& e.model == after
            &&& calls_after == calls + e.calls
            &&& is_order_of(order, n)
            &&& n.next_handle + dependency_total(n, order) <= u64::MAX
        }),
{
    let (ops, order) = choose|ops: Seq<HandleOp>, order: Seq<u64>|
        {
            let effect = #[trigger] cycle(before, changes, ops, order);
            let advanced = reported(before, changes, ops);
            &&& advanced.fault is None ==> is_order_of(order, advanced.model)
            &&& after == effect.model
            &&& calls_after == calls + effect.calls
            &&& Ok::<(), Fault>(()) == effect.outcome()
        };
    let n = reported(before, changes, ops).model;
    lemma_reported_same(before, changes, ops);
    lemma_reported_metadata(before, changes, ops);
    lemma_no_more_dependencies(before, n, order);
    assert forall|i: int| 0 <= i < order.len() implies before.loads.contains_key(
        #[trigger] order[i],
    ) by {
        assert(order.contains(order[i]));
    }
    (ops, order)
}

/// The calls of a round up to the one that follows the answers with metadata.
proof fn lemma_first_calls<D, M>(calls: Seq<ProcessCall<D, M>>)
    requires
        whole_round(calls),
    ensures
        ({
            let p = metadata_call(calls);
            let cycled = calls[p - 1];
            let first = calls[0];
            &&& p < calls.len()
            &&& calls[p].event is MetadataPolled
            &&& calls[p].calls == cycled.calls_after
            &&& after_cycle(
                first.before.data@,
                first.calls,
                changes_said(calls),
                calls[p].before.data@,
                cycled.calls_after,
                Ok(()),
            )
            &&& metadata_polled(first.before, RpcLoader { data: first.before.data, ..calls[p].before })
        }),
{
    assert(in_turn(calls, 0));
    assert(in_turn(calls, 1));
    assert(in_turn(calls, 2));
}

/// The call of a round that follows the answers with metadata, and the one in which metadata is
/// requested.
proof fn lemma_metadata_calls<D, M>(calls: Seq<ProcessCall<D, M>>) -> (list: Seq<
    (AssetUuid, LoadHandle),
>)
    requires
        whole_round(calls),
    ensures
        ({
            let p = metadata_call(calls);
            let q = data_call(calls);
            let told = calls[p];
            let fed = calls[q];
            let settled = told.before.data@.settle_all_metadata(
                settlements(told.before.requests.pending_metadata_requests@),
            );
            let request = calls[p + 1].event;
            &&& q < calls.len()
            &&& fed.event is DataPolled
            &&& fed.calls == told.calls
            &&& settled.fault is None
            &&& if connected_at(told.event) {
                &&& fed.before.data@ == settled.model.requesting_all_metadata()
                &&& lists_exactly(list, settled.model, |h: u64| settled.model.needs_metadata(h))
            } else {
                fed.before.data@ == settled.model && list.len() == 0
            }
            &&& request is MetadataRequested <==> list.len() > 0
            &&& request is MetadataRequested ==> request->MetadataRequested_0.user_data@ == list
            &&& fed.before.requests.pending_metadata_requests@ == match request {
                RpcEvent::MetadataRequested(request) => unsettled(
                    told.before.requests.pending_metadata_requests@,
                ).push(request),
                _ => unsettled(told.before.requests.pending_metadata_requests@),
            }
            &&& handles_of(fed.before.requests.pending_data_requests@) == handles_of(
                told.before.requests.pending_data_requests@,
            )
        }),
{
    lemma_first_calls(calls);
    let p = metadata_call(calls);
    let told = calls[p];
    assert(in_turn(calls, p));
    let settled = told.before.data@.settle_all_metadata(
        settlements(told.before.requests.pending_metadata_requests@),
    );
    let requested = choose|requested: Result<Vec<(AssetUuid, LoadHandle)>, Fault>|
        {
            &&& #[trigger] after_metadata(
                settled,
                told.event->MetadataPolled_0,
                told.after.data@,
                requested,
            )
            &&& told.next == match requested {
                Ok(list) => Ok::<RpcAction, Fault>(
                    if list@.len() > 0 {
                        RpcAction::RequestMetadata(list)
                    } else {
                        RpcAction::PollData
                    },
                ),
                Err(fault) => Err(fault),
            }
        };
    assert(requested is Ok);
    assert(p < calls.len() - 1);
    if calls[p + 1].event is MetadataRequested {
        assert(in_turn(calls, p + 1));
    }
    requested->Ok_0@
}

/// The call of a round that follows the answers with data, and the one in which data is requested.
proof fn lemma_data_calls<D, M>(calls: Seq<ProcessCall<D, M>>) -> (list: Seq<
    (AssetUuid, LoadHandle),
>)
    requires
        whole_round(calls),
    ensures
        ({
            let fed = calls[data_call(calls)];
            let settled = fed.before.data@.settle_all_data(
                settlements(fed.before.requests.pending_data_requests@),
                answers(fed.calls_after.skip(fed.calls.len() as int)),
            );
            let last = calls.last();
            let requests = match last.event {
                RpcEvent::DataRequested(requests) => requests@,
                _ => Seq::empty(),
            };
            &&& settled.fault is None
            &&& if connected_at(fed.event) {
                &&& last.after.data@ == settled.model.requesting_all_data()
                &&& lists_exactly(list, settled.model, |h: u64| settled.model.needs_data(h))
            } else {
                last.after.data@ == settled.model && list.len() == 0
            }
            &&& handles_of(requests) == listed(list)
            &&& last.calls_after == fed.calls + settled.calls
            &&& last.after.requests.pending_data_requests@ == unsettled(
                fed.before.requests.pending_data_requests@,
            ) + requests
            &&& last.after.requests.pending_metadata_requests@
                == fed.before.requests.pending_metadata_requests@
        }),
{
    let before = lemma_metadata_calls(calls);
    let q = data_call(calls);
    let fed = calls[q];
    assert(in_turn(calls, q));
    let settled = fed.before.data@.settle_all_data(
        settlements(fed.before.requests.pending_data_requests@),
        answers(fed.calls_after.skip(fed.calls.len() as int)),
    );
    let requested = choose|requested: Result<Vec<(AssetUuid, LoadHandle)>, Fault>|
        {
            &&& #[trigger] after_data(
                settled,
                fed.event->DataPolled_0,
                fed.after.data@,
                requested,
            )
            &&& fed.next == match requested {
                Ok(list) => Ok::<RpcAction, Fault>(
                    if list@.len() > 0 {
                        RpcAction::RequestData(list)
                    } else {
                        RpcAction::Finish
                    },
                ),
                Err(fault) => Err(fault),
            }
        };
    assert(requested is Ok);
    let list = requested->Ok_0@;
    if q < calls.len() - 1 {
        assert(in_turn(calls, q + 1));
        assert(calls[q + 1] == calls.last());
    } else {
        assert(calls.last() == fed);
        let none = Seq::<DataRequest<D>>::empty();
        assert(unsettled(fed.before.requests.pending_data_requests@) + none =~= unsettled(
            fed.before.requests.pending_data_requests@,
        ));
        assert(handles_of(none) =~= listed(list));
    }
    list
}

/// A round of calls of [`RpcLoader::process`] is a [`Round`]: what happens around the loader in it
/// is what the calls say, and what becomes of the loader and of the storage is what the round says.
/// So what the laws say of rounds holds of calls.
pub proof fn law_calls_make_a_round<D, M>(calls: Seq<ProcessCall<D, M>>) -> (found: (
    Seq<HandleOp>,
    Seq<u64>,
))
    requires
        whole_round(calls),
        handles_left(calls[0].before.data@),
    ensures
        ({
            let s = play(calls[0].before, calls[0].calls);
            let r = round_of(calls, found.0, found.1);
            &&& r.fits(s)
            &&& r.after(s) == play(calls.last().after, calls.last().calls_after)
        }),
{
    let s = play(calls[0].before, calls[0].calls);
    lemma_first_calls(calls);
    let metadata = lemma_metadata_calls(calls);
    let data = lemma_data_calls(calls);
    let told = calls[metadata_call(calls)];
    let fed = calls[data_call(calls)];
    let (ops, order) = lemma_cycle_part(
        s.model,
        s.calls,
        changes_said(calls),
        told.before.data@,
        told.calls,
    );
    let r = round_of(calls, ops, order);
    assert(r.cycled(s).model == told.before.data@);
    assert(r.asked(s) == fed.before.data@);
    if metadata.len() == 0 && r.metadata_connected {
        let needed = |h: u64| r.told(s).model.needs_metadata(h);
        lemma_empty_list(metadata, r.told(s).model, needed);
        assert forall|h: u64| !(#[trigger] r.told(s).model.needs_metadata(h)) by {
            assert(!needed(h));
        }
    }
    assert(handles_of(r.data) == handles_of(s.data));
    if r.data_connected {
        assert(listed(data) == handles_of(r.data_requests));
    } else {
        assert(handles_of(r.data_requests).len() == 0);
    }
    assert(r.fits(s));
    assert(r.after(s).calls =~= calls.last().calls_after);
    (ops, order)
}

/// A list of nothing lists what nothing needs.
proof fn lemma_empty_list(
    list: Seq<(AssetUuid, LoadHandle)>,
    m: LoaderModel,
    needed: spec_fn(u64) -> bool,
)
    requires
        lists_exactly(list, m, needed),
        list.len() == 0,
    ensures
        forall|h: u64| !(#[trigger] needed(h)),
{
    assert forall|h: u64| !(#[trigger] needed(h)) by {
        assert(!list.contains((m.loads[h].asset_id, LoadHandle(h))));
    }
}

/// A call that a caller makes on the loader, if it changes something.
pub enum LoaderCall<D, M> {
    /// Adds a reference to an asset.
    AddRef(AssetUuid),
    /// Removes a reference from a load.
    RemoveRef(LoadHandle),
    /// Plays a round.
    Process(Seq<ProcessCall<D, M>>),
}

/// Whether `after` is what `call` makes of `before`, with the calls `told` on the storage.
pub open spec fn carried_out<D, M>(
    before: RpcLoader<D, M>,
    call: LoaderCall<D, M>,
    after: RpcLoader<D, M>,
    told: Seq<StorageCall>,
) -> bool {
    match call {
        LoaderCall::AddRef(id) => {
            &&& after.data@ == before.data@.add_ref(id)
            &&& after.requests == before.requests
            &&& told.len() == 0
        },
        LoaderCall::RemoveRef(load) => {
            &&& after.data@ == before.data@.remove_ref(load.0)
            &&& after.requests == before.requests
            &&& told.len() == 0
        },
        LoaderCall::Process(calls) => {
            &&& whole_round(calls)
            &&& calls[0].before == before
            &&& calls[0].calls.len() == 0
            &&& calls.last().after == after
            &&& calls.last().calls_after == told
        },
    }
}

/// What callers do with a loader over time: the calls, the loader before and after each of them,
/// and what each of them tells the storage.
pub struct History<D, M> {
    pub loaders: Seq<RpcLoader<D, M>>,
    pub calls: Seq<LoaderCall<D, M>>,
    pub told: Seq<Seq<StorageCall>>,
}

impl<D, M> History<D, M> {
    /// Whether this can happen, as long as handles are left.
    pub open spec fn is_true(self) -> bool {
        &&& self.loaders.len() == self.calls.len() + 1
        &&& self.told.len() == self.calls.len()
        &&& forall|i: int| 0 <= i < self.calls.len() ==> #[trigger] self.goes_on(i)
    }

    /// Whether the `i`th call does what it does.
    pub open spec fn goes_on(self, i: int) -> bool {
        &&& carried_out(self.loaders[i], self.calls[i], self.loaders[i + 1], self.told[i])
        &&& self.loaders[i].data@.next_handle < u64::MAX
        &&& handles_left(self.loaders[i].data@)
    }

    /// Whether it begins with a loader that has been asked for nothing.
    pub open spec fn is_whole(self) -> bool {
        let first = self.loaders[0];
        &&& self.is_true()
        &&& first.data@ == LoaderModel::initial(first.data@.reports)
        &&& first.requests.pending_data_requests@.len() == 0
        &&& first.requests.pending_metadata_requests@.len() == 0
    }

    /// All that the storage is told in the first `n` calls.
    pub open spec fn account(self, n: nat) -> Seq<StorageCall>
        decreases n,
    {
        if n == 0 {
            Seq::empty()
        } else {
            self.account((n - 1) as nat) + self.told[n - 1]
        }
    }

    /// The loader after `n` calls, with all that the storage was told.
    pub open spec fn state(self, n: nat) -> Play<D, M> {
        play(self.loaders[n as int], self.account(n))
    }
}

/// What was told the storage before a round does not affect the round.
proof fn lemma_account_aside<D, M>(s: Play<D, M>, r: Round<D, M>, calls: Seq<StorageCall>)
    requires
        r.fits(s),
        s.calls.len() == 0,
    ensures
        r.fits(Play { calls, ..s }),
        r.after(Play { calls, ..s }) == (Play { calls: calls + r.after(s).calls, ..r.after(s) }),
{
    let t = Play { calls, ..s };
    assert(r.cycled(t) == r.cycled(s));
    assert(r.told(t) == r.told(s));
    assert(r.asked(t) == r.asked(s));
    assert(r.fed(t) == r.fed(s));
    assert(r.end(t) == r.end(s));
    assert(r.after(t).calls =~= calls + r.after(s).calls);
}

/// A round that a caller plays is a [`Round`], whatever was told the storage before.
pub proof fn law_process_plays_a_round<D, M>(history: History<D, M>, i: int) -> (r: Round<D, M>)
    requires
        history.is_true(),
        0 <= i < history.calls.len(),
        history.calls[i] is Process,
    ensures
        r == round_of(history.calls[i]->Process_0, r.ops, r.order),
        r.fits(history.state(i as nat)),
        history.state((i + 1) as nat) == r.after(history.state(i as nat)),
{
    let calls = history.calls[i]->Process_0;
    assert(history.goes_on(i));
    let (ops, order) = law_calls_make_a_round(calls);
    let r = round_of(calls, ops, order);
    let s = play(calls[0].before, calls[0].calls);
    lemma_account_aside(s, r, history.account(i as nat));
    assert(history.state(i as nat) == (Play { calls: history.account(i as nat), ..s }));
    r
}

/// Whatever callers do, all is in order with the loader between their calls.
pub proof fn law_history_steady<D, M>(history: History<D, M>, n: nat)
    requires
        history.is_whole(),
        n <= history.calls.len(),
    ensures
        steady(history.state(n)),
    decreases n,
{
    if n == 0 {
        let first = history.loaders[0];
        law_initial_steady::<D, M>(first.data@.reports);
        assert(first.requests.pending_data_requests@ =~= Seq::empty());
        assert(first.requests.pending_metadata_requests@ =~= Seq::empty());
    } else {
        let i = n - 1;
        law_history_steady(history, i as nat);
        assert(history.goes_on(i));
        let s = history.state(i as nat);
        match history.calls[i] {
            LoaderCall::AddRef(id) => {
                law_references_steady(s, id, 0);
                assert(history.account(n) =~= history.account(i as nat));
            },
            LoaderCall::RemoveRef(load) => {
                law_references_steady(s, arbitrary(), load.0);
                assert(history.account(n) =~= history.account(i as nat));
            },
            LoaderCall::Process(_) => {
                let r = law_process_plays_a_round(history, i);
                law_round_steady(s, r);
            },
        }
    }
}

/// Whatever callers do, the storage is told everything in order: each version that is handed over
/// is one more than the version committed last, or the first where none was or the load was freed
/// since; and each commit is of the type and version that was handed over last for that load and
/// taken, with no other call for that load in between, so that no version is committed twice.
pub proof fn law_storage_is_told_in_order<D, M>(history: History<D, M>, n: nat, i: int)
    requires
        history.is_whole(),
        n <= history.calls.len(),
        0 <= i < history.account(n).len(),
    ensures
        ({
            let told = history.account(n);
            &&& in_order(told)
            &&& told[i] is Update ==> {
                let h = subject(told[i]);
                let version = told[i]->Update_version;
                ||| version == 1 && forall|j: int| !(#[trigger] last_commit(told.take(i), h, j))
                ||| exists|j: int| #[trigger]
                    last_commit(told.take(i), h, j) && version == told[j]->Commit_version + 1
            }
            &&& told[i] is Commit ==> exists|j: int|
                {
                    &&& 0 <= j < i
                    &&& #[trigger] told[j] matches StorageCall::Update {
                        asset_type,
                        handle,
                        version,
                        accepted,
                        ..
                    }
                    &&& accepted
                    &&& told[i] == (StorageCall::Commit { asset_type, handle, version })
                    &&& forall|l: int| j < l < i ==> subject(#[trigger] told[l]) != handle.0
                }
        }),
{
    law_history_steady(history, n);
    if history.account(n)[i] is Commit {
        law_commit_is_of_last_update(history.account(n), i);
    }
    if history.account(n)[i] is Update {
        law_update_is_of_next_version(history.account(n), i);
    }
}

/// Rounds that a caller plays one after the other, from the call `from` to before the call `to`,
/// are a run. So what the laws say of runs holds of calls.
pub proof fn law_processing_is_a_run<D, M>(history: History<D, M>, from: nat, to: nat) -> (run: (
    Seq<Play<D, M>>,
    Seq<Round<D, M>>,
))
    requires
        history.is_true(),
        from <= to <= history.calls.len(),
        forall|i: int| from <= i < to ==> (#[trigger] history.calls[i]) is Process,
    ensures
        ({
            let (states, rounds) = run;
            &&& is_run(states, rounds)
            &&& rounds.len() == to - from
            &&& forall|i: int| 0 <= i <= to - from ==> #[trigger] states[i] == history.state(
                (from + i) as nat,
            )
            &&& forall|i: int|
                0 <= i < to - from ==> #[trigger] rounds[i] == round_of(
                    history.calls[from + i]->Process_0,
                    rounds[i].ops,
                    rounds[i].order,
                )
        }),
    decreases to - from,
{
    if from == to {
        (seq![history.state(from)], Seq::empty())
    } else {
        let last = (to - 1) as nat;
        let (states, rounds) = law_processing_is_a_run(history, from, last);
        let r = law_process_plays_a_round(history, last as int);
        let more = states.push(history.state(to));
        let all = rounds.push(r);
        assert forall|i: int| #![trigger all[i]] 0 <= i < all.len() implies all[i].fits(more[i])
            && more[i + 1] == all[i].after(more[i]) by {
            if i < rounds.len() {
                assert(all[i] == rounds[i]);
                assert(more[i] == states[i] && more[i + 1] == states[i + 1]);
            } else {
                assert(more[i] == states[i]);
                assert(states[i] == history.state((from + i) as nat));
            }
        }
        (more, all)
    }
}

/// Whether a loader within a round is in keeping with the calls on the storage: it is sound, and
/// each request for data is about a load that may be answered.
pub open spec fn in_keeping<D, M>(loader: RpcLoader<D, M>, calls: Seq<StorageCall>) -> bool {
    &&& sound(loader.data@)
    &&& accounted(loader.data@, calls)
    &&& answerable(loader.data@, handles_of(loader.requests.pending_data_requests@))
}

/// Whether the loads that data is to be requested for are loads that may be answered then.
spec fn may_be_requested<D, M>(loader: RpcLoader<D, M>, next: Result<RpcAction, Fault>) -> bool {
    next matches Ok(RpcAction::RequestData(loads)) ==> answerable(
        loader.data@,
        handles_of(loader.requests.pending_data_requests@) + listed(loads@),
    )
}

/// The part of a round in which changes and reports are followed and the loads are advanced,
/// whether it comes to its end or a fault stops it.
proof fn lemma_cycle_in_keeping(
    before: LoaderModel,
    calls: Seq<StorageCall>,
    changes: Option<ChangeSet>,
    after: LoaderModel,
    calls_after: Seq<StorageCall>,
    done: Result<(), Fault>,
    told: Seq<StorageCall>,
    handles: Seq<LoadHandle>,
)
    requires
        handles_left(before),
        after_cycle(before, calls, changes, after, calls_after, done),
        sound(before),
        accounted(before, told + calls),
        answerable(before, handles),
    ensures
        sound(after),
        accounted(after, told + calls_after),
        answerable(after, handles),
{
    let (ops, order) = choose|ops: Seq<HandleOp>, order: Seq<u64>|
        {
            let effect = #[trigger] cycle(before, changes, ops, order);
            let advanced = reported(before, changes, ops);
            &&& advanced.fault is None ==> is_order_of(order, advanced.model)
            &&& after == effect.model
            &&& calls_after == calls + effect.calls
            &&& done == effect.outcome()
        };
    let e = cycle(before, changes, ops, order);
    let n = reported(before, changes, ops);
    lemma_reported_same(before, changes, ops);
    lemma_reported_metadata(before, changes, ops);
    lemma_no_more_dependencies(before, n.model, order);
    if n.fault is None {
        assert forall|i: int| 0 <= i < order.len() implies before.loads.contains_key(
            #[trigger] order[i],
        ) by {
            assert(order.contains(order[i]));
        }
    }
    law_cycle_sound(before, changes, ops, order);
    law_cycle_account(before, changes, ops, order, told + calls, handles);
    assert(told + calls + e.calls =~= told + calls_after);
}

/// The part of a round in which answers with data are followed, whether it comes to its end or a
/// fault stops it.
proof fn lemma_data_in_keeping<D, M>(call: ProcessCall<D, M>, told: Seq<StorageCall>)
    requires
        call.is_true(),
        call.event is DataPolled,
        in_keeping(call.before, told + call.calls),
    ensures
        in_keeping(call.after, told + call.calls_after),
        may_be_requested(call.after, call.next),
{
    let m = call.before.data@;
    let requests = call.before.requests.pending_data_requests@;
    let accepted = answers(call.calls_after.skip(call.calls.len() as int));
    let settled = m.settle_all_data(settlements(requests), accepted);
    law_answers_sound(m, Seq::empty(), settlements(requests), accepted);
    law_data_account(m, requests, accepted, told + call.calls);
    assert(told + call.calls + settled.calls =~= told + call.calls_after);
    let requested = choose|requested: Result<Vec<(AssetUuid, LoadHandle)>, Fault>|
        {
            &&& #[trigger] after_data(
                settled,
                call.event->DataPolled_0,
                call.after.data@,
                requested,
            )
            &&& call.next == match requested {
                Ok(list) => Ok::<RpcAction, Fault>(
                    if list@.len() > 0 {
                        RpcAction::RequestData(list)
                    } else {
                        RpcAction::Finish
                    },
                ),
                Err(fault) => Err(fault),
            }
        };
    let left = handles_of(unsettled(requests));
    if requested is Ok && call.event->DataPolled_0 is Connected {
        let list = requested->Ok_0@;
        assert(answerable(call.after.data@, left + listed(list)));
        assert forall|i: int| 0 <= i < left.len() implies may_be_answered(
            call.after.data@,
            (#[trigger] left[i]).0,
        ) by {
            assert((left + listed(list))[i] == left[i]);
        }
    }
}

/// A call of [`RpcLoader::process`] leaves the loader in keeping with the calls on the storage.
proof fn lemma_call_in_keeping<D, M>(call: ProcessCall<D, M>, told: Seq<StorageCall>)
    requires
        call.is_true(),
        in_keeping(call.before, told + call.calls),
        call.event is Polled || call.event is ChangesChecked ==> handles_left(call.before.data@),
        call.event matches RpcEvent::DataRequested(requests) ==> answerable(
            call.before.data@,
            handles_of(call.before.requests.pending_data_requests@) + handles_of(requests@),
        ),
    ensures
        in_keeping(call.after, told + call.calls_after),
        may_be_requested(call.after, call.next),
{
    let m = call.before.data@;
    let handles = handles_of(call.before.requests.pending_data_requests@);
    match call.event {
        RpcEvent::Begun(_) => {},
        RpcEvent::Polled => {
            if m.pending_reloads.len() > 0 {
                lemma_cycle_in_keeping(
                    m,
                    call.calls,
                    None,
                    call.after.data@,
                    call.calls_after,
                    ended_before(call.next)->0,
                    told,
                    handles,
                );
            }
        },
        RpcEvent::ChangesChecked(changes) => {
            lemma_cycle_in_keeping(
                m,
                call.calls,
                changes_in(changes),
                call.after.data@,
                call.calls_after,
                ended_before(call.next)->0,
                told,
                handles,
            );
        },
        RpcEvent::MetadataPolled(_) => {
            let settled = settlements(call.before.requests.pending_metadata_requests@);
            law_answers_sound(m, settled, Seq::empty(), Seq::empty());
            law_metadata_account(m, settled, told + call.calls, handles);
        },
        RpcEvent::MetadataRequested(_) => {},
        RpcEvent::DataPolled(_) => {
            lemma_data_in_keeping(call, told);
        },
        RpcEvent::DataRequested(requests) => {
            let before = call.before.requests.pending_data_requests@;
            assert(handles_of(before + requests@) =~= handles_of(before) + handles_of(requests@));
        },
    }
}

/// Within a round the loader stays in keeping with the calls on the storage.
proof fn lemma_round_in_keeping<D, M>(
    calls: Seq<ProcessCall<D, M>>,
    told: Seq<StorageCall>,
    n: int,
)
    requires
        begun_round(calls),
        in_keeping(calls[0].before, told + calls[0].calls),
        handles_left(calls[0].before.data@),
        0 <= n < calls.len(),
    ensures
        in_keeping(calls[n].after, told + calls[n].calls_after),
        may_be_requested(calls[n].after, calls[n].next),
        calls[n].next matches Ok(RpcAction::Poll { .. }) ==> calls[n].after.data
            == calls[0].before.data,
        calls[n].next == Ok::<RpcAction, Fault>(RpcAction::CheckChanges) ==> calls[n].after.data
            == calls[0].before.data,
    decreases n,
{
    assert(in_turn(calls, n));
    if n > 0 {
        lemma_round_in_keeping(calls, told, n - 1);
        assert(in_turn(calls, n - 1));
    }
    lemma_call_in_keeping(calls[n], told);
}

/// Whatever callers do, the storage is told everything in order in the round that is being played,
/// too, as far as that has come, even if a fault stops it.
pub proof fn law_unfinished_round_is_in_order<D, M>(
    history: History<D, M>,
    calls: Seq<ProcessCall<D, M>>,
)
    requires
        history.is_whole(),
        begun_round(calls),
        calls[0].before == history.loaders.last(),
        calls[0].calls.len() == 0,
        handles_left(calls[0].before.data@),
    ensures
        in_order(history.account(history.calls.len()) + calls.last().calls_after),
{
    let told = history.account(history.calls.len());
    law_history_steady(history, history.calls.len());
    assert(told + calls[0].calls =~= told);
    lemma_round_in_keeping(calls, told, calls.len() - 1);
}

} // verus!
