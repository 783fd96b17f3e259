//! What each call of the loader in a round does, from what has happened outside to what is to be
//! done there next.

use crate::changes::{changes_in, AssetChanges};
use crate::channel::HandleOp;
use crate::fault::Fault;
use crate::ids::{AssetUuid, LoadHandle};
use crate::laws::calls::{begun_round, carried_out, in_turn, LoaderCall, ProcessCall};
use crate::laws::operations::{
    answers_with_data_followed, answers_with_metadata_followed, has_happened, lemma_names_each_load,
    named_in,
};
use crate::laws::phases::{
    data_requested, follows_changes, follows_reports, law_following_answers_with_data,
    law_following_answers_with_metadata, law_following_changes, law_following_reports,
    law_passing_over_loads, law_requesting, lemma_listed_loads, metadata_requested,
    names_each_load_once, names_loads_in, passes_over, states_change, waiting_for_data,
    waiting_for_metadata,
};
use crate::laws::requests::{are_divided, lemma_divided};
use crate::model::{answers, is_order_of, ChangeSet, Effect, LoaderModel, StorageCall};
use crate::requests::{settlements, unsettled};
use crate::responses::{DataResponse, MetadataResponse};
use crate::rpc_loader::{
    after_cycle, after_data, after_metadata, cycle, ended_before, reported, ConnectionState,
    RpcAction, RpcEvent, RpcLoader,
};
use crate::storage::{AssetStorage, TracedStorage};
use vstd::prelude::*;

verus! {

// ----- changes, reports and a pass over the loads

/// Whether `changed`, `followed` and `passed` are what is done with the daemon's word on changes,
/// with the reports `ops` of the engine, and on a pass over the loads in the order `order`, each as
/// far as it comes to it.
pub open spec fn in_three_parts(
    m: LoaderModel,
    changes: Option<ChangeSet>,
    ops: Seq<HandleOp>,
    order: Seq<u64>,
    changed: Effect,
    followed: Effect,
    passed: Effect,
) -> bool {
    &&& follows_changes(m, changed, changes)
    &&& changed.fault is None ==> follows_reports(changed.model, followed, ops)
    &&& changed.fault is None && followed.fault is None ==> {
        &&& names_each_load_once(followed.model, order)
        &&& passes_over(followed.model, passed, order)
    }
}

/// Whether the loader follows the daemon's word on changes, then the engine's reports, and then
/// advances each load once, up to the first of these that stops it.
pub open spec fn goes_through(
    m: LoaderModel,
    calls: Seq<StorageCall>,
    changes: Option<ChangeSet>,
    after: LoaderModel,
    calls_after: Seq<StorageCall>,
    done: Result<(), Fault>,
) -> bool {
    exists|
        ops: Seq<HandleOp>,
        order: Seq<u64>,
        changed: Effect,
        followed: Effect,
        passed: Effect,
    | #[trigger]
        in_three_parts(m, changes, ops, order, changed, followed, passed) && {
            let (last, so_far) = if changed.fault is Some {
                (changed, calls)
            } else if followed.fault is Some {
                (followed, calls + changed.calls)
            } else {
                (passed, calls + changed.calls + followed.calls)
            };
            has_happened(last, so_far, after, calls_after, done)
        }
}

/// What three things do one after the other, each of them if those before it have not stopped the
/// loader.
proof fn lemma_sum_of_three(
    changed: Effect,
    followed: Effect,
    passed: Effect,
    calls: Seq<StorageCall>,
    after: LoaderModel,
    calls_after: Seq<StorageCall>,
    done: Result<(), Fault>,
)
    requires
        ({
            let e = changed.followed_by(followed).followed_by(passed);
            &&& after == e.model
            &&& calls_after == calls + e.calls
            &&& done == e.outcome()
        }),
    ensures
        ({
            let (last, so_far) = if changed.fault is Some {
                (changed, calls)
            } else if followed.fault is Some {
                (followed, calls + changed.calls)
            } else {
                (passed, calls + changed.calls + followed.calls)
            };
            has_happened(last, so_far, after, calls_after, done)
        }),
{
    if changed.fault is None && followed.fault is None {
        assert(calls + (changed.calls + followed.calls + passed.calls) =~= calls + changed.calls
            + followed.calls + passed.calls);
    } else if changed.fault is None {
        assert(calls + (changed.calls + followed.calls) =~= calls + changed.calls
            + followed.calls);
    }
}

proof fn lemma_three_parts(
    m: LoaderModel,
    changes: Option<ChangeSet>,
    ops: Seq<HandleOp>,
    order: Seq<u64>,
    changed: Effect,
    followed: Effect,
    passed: Effect,
)
    requires
        changed == m.process_changes(changes),
        followed == changed.model.follow_ops(ops),
        passed == followed.model.advance_all(order),
        changed.fault is None && followed.fault is None ==> is_order_of(order, followed.model),
    ensures
        in_three_parts(m, changes, ops, order, changed, followed, passed),
{
    law_following_changes(m, changes);
    law_following_reports(changed.model, ops);
    law_passing_over_loads(followed.model, order);
    if changed.fault is None && followed.fault is None {
        lemma_names_each_load(followed.model, order);
    }
}

proof fn lemma_goes_through(
    m: LoaderModel,
    calls: Seq<StorageCall>,
    changes: Option<ChangeSet>,
    after: LoaderModel,
    calls_after: Seq<StorageCall>,
    done: Result<(), Fault>,
)
    requires
        after_cycle(m, calls, changes, after, calls_after, done),
    ensures
        goes_through(m, calls, changes, after, calls_after, done),
{
    let (ops, order) = choose|ops: Seq<HandleOp>, order: Seq<u64>|
        {
            let effect = #[trigger] cycle(m, changes, ops, order);
            let advanced = reported(m, changes, ops);
            &&& advanced.fault is None ==> is_order_of(order, advanced.model)
            &&& after == effect.model
            &&& calls_after == calls + effect.calls
            &&& done == effect.outcome()
        };
    let changed = m.process_changes(changes);
    let followed = changed.model.follow_ops(ops);
    let all = changed.followed_by(followed);
    assert(all == reported(m, changes, ops));
    let passed = if changed.fault is None {
        followed.model.advance_all(order)
    } else {
        changed.model.advance_all(order)
    };
    assert(cycle(m, changes, ops, order) == all.followed_by(passed));
    lemma_sum_of_three(changed, followed, passed, calls, after, calls_after, done);
    let last = followed.model.advance_all(order);
    lemma_three_parts(m, changes, ops, order, changed, followed, last);
    assert(in_three_parts(m, changes, ops, order, changed, followed, passed));
}

// ----- requests

/// Whether `requested` is the metadata that is requested once `told` has happened, over a
/// connection in the state `connection`, and `after` is what becomes of the loader.
pub open spec fn requests_metadata(
    told: Effect,
    connection: ConnectionState,
    after: LoaderModel,
    requested: Result<Vec<(AssetUuid, LoadHandle)>, Fault>,
) -> bool {
    match requested {
        Err(fault) => told.fault == Some(fault) && after == told.model,
        Ok(list) => {
            &&& told.fault is None
            &&& if connection is Connected {
                &&& names_loads_in(told.model, list@, waiting_for_metadata())
                &&& states_change(told.model, after, metadata_requested())
            } else {
                list@.len() == 0 && after == told.model
            }
        },
    }
}

/// Whether `requested` is the data that is requested once `fed` has happened, over a connection in
/// the state `connection`, and `after` is what becomes of the loader.
pub open spec fn requests_data(
    fed: Effect,
    connection: ConnectionState,
    after: LoaderModel,
    requested: Result<Vec<(AssetUuid, LoadHandle)>, Fault>,
) -> bool {
    match requested {
        Err(fault) => fed.fault == Some(fault) && after == fed.model,
        Ok(list) => {
            &&& fed.fault is None
            &&& if connection is Connected {
                &&& names_loads_in(fed.model, list@, waiting_for_data())
                &&& states_change(fed.model, after, data_requested())
            } else {
                list@.len() == 0 && after == fed.model
            }
        },
    }
}

proof fn lemma_requests_metadata(
    told: Effect,
    connection: ConnectionState,
    after: LoaderModel,
    requested: Result<Vec<(AssetUuid, LoadHandle)>, Fault>,
)
    requires
        after_metadata(told, connection, after, requested),
    ensures
        requests_metadata(told, connection, after, requested),
{
    if connection is Connected && requested is Ok {
        let m = told.model;
        law_requesting(m);
        lemma_listed_loads(
            m,
            requested->Ok_0@,
            |h: u64| m.needs_metadata(h),
            waiting_for_metadata(),
        );
    }
}

proof fn lemma_requests_data(
    fed: Effect,
    connection: ConnectionState,
    after: LoaderModel,
    requested: Result<Vec<(AssetUuid, LoadHandle)>, Fault>,
)
    requires
        after_data(fed, connection, after, requested),
    ensures
        requests_data(fed, connection, after, requested),
{
    if connection is Connected && requested is Ok {
        let m = fed.model;
        law_requesting(m);
        lemma_listed_loads(m, requested->Ok_0@, |h: u64| m.needs_data(h), waiting_for_data());
    }
}

/// Whether the answers with metadata that have come are followed and `requested` is requested then:
/// the requests that are answered or have failed are taken out, and no others, and what came of
/// each is followed.
pub open spec fn metadata_goes_on<D, M>(
    before: RpcLoader<D, M>,
    connection: ConnectionState,
    after: RpcLoader<D, M>,
    requested: Result<Vec<(AssetUuid, LoadHandle)>, Fault>,
) -> bool {
    exists|
        settled: Seq<(Option<MetadataResponse>, Vec<(AssetUuid, LoadHandle)>)>,
        told: Effect,
    |
        {
            &&& are_divided(
                before.requests.pending_metadata_requests@,
                after.requests.pending_metadata_requests@,
                settled,
            )
            &&& #[trigger] answers_with_metadata_followed(before.data@, told, settled)
            &&& requests_metadata(told, connection, after.data@, requested)
        }
}

/// Whether the answers with data that have come are followed and `requested` is requested then: the
/// requests that are answered or have failed are taken out, and no others, and what came of each is
/// followed.
pub open spec fn data_goes_on<D, M>(
    before: RpcLoader<D, M>,
    calls: Seq<StorageCall>,
    connection: ConnectionState,
    after: RpcLoader<D, M>,
    calls_after: Seq<StorageCall>,
    requested: Result<Vec<(AssetUuid, LoadHandle)>, Fault>,
) -> bool {
    exists|settled: Seq<(Option<DataResponse>, LoadHandle)>, fed: Effect|
        {
            &&& are_divided(
                before.requests.pending_data_requests@,
                after.requests.pending_data_requests@,
                settled,
            )
            &&& #[trigger] answers_with_data_followed(before.data@, fed, settled)
            &&& calls_after == calls + fed.calls
            &&& requests_data(fed, connection, after.data@, requested)
        }
}

// ----- the operations of the loader

/// A round follows changes and reports and passes over the loads.
pub proof fn law_process_cycle<D, M, S: AssetStorage + ?Sized>(
    loader: &mut RpcLoader<D, M>,
    changes: &Option<AssetChanges>,
    storage: &mut TracedStorage<S>,
    done: Result<(), Fault>,
)
    requires
        call_ensures(RpcLoader::<D, M>::process_cycle::<S>, (loader, changes, storage), done),
    ensures
        final(storage).inner() == old(storage).inner(),
        final(loader).requests == old(loader).requests,
        final(loader).connect_string == old(loader).connect_string,
        goes_through(
            old(loader).data@,
            old(storage).calls(),
            named_in(*changes),
            final(loader).data@,
            final(storage).calls(),
            done,
        ),
{
    assert(changes_in(*changes) == named_in(*changes));
    lemma_goes_through(
        old(loader).data@,
        old(storage).calls(),
        named_in(*changes),
        final(loader).data@,
        final(storage).calls(),
        done,
    );
}

/// A round follows the answers with metadata, and requests what is still wanted.
pub proof fn law_process_metadata_requests<D, M>(
    loader: &mut RpcLoader<D, M>,
    connection: ConnectionState,
    requested: Result<Vec<(AssetUuid, LoadHandle)>, Fault>,
)
    requires
        call_ensures(
            RpcLoader::<D, M>::process_metadata_requests,
            (loader, connection),
            requested,
        ),
    ensures
        final(loader).connect_string == old(loader).connect_string,
        final(loader).requests.pending_data_requests == old(loader).requests.pending_data_requests,
        metadata_goes_on(*old(loader), connection, *final(loader), requested),
{
    lemma_metadata_goes_on(*old(loader), connection, *final(loader), requested);
}

proof fn lemma_metadata_goes_on<D, M>(
    before: RpcLoader<D, M>,
    connection: ConnectionState,
    after: RpcLoader<D, M>,
    requested: Result<Vec<(AssetUuid, LoadHandle)>, Fault>,
)
    requires
        after.requests.pending_metadata_requests@ == unsettled(
            before.requests.pending_metadata_requests@,
        ),
        after_metadata(
            before.data@.settle_all_metadata(
                settlements(before.requests.pending_metadata_requests@),
            ),
            connection,
            after.data@,
            requested,
        ),
    ensures
        metadata_goes_on(before, connection, after, requested),
{
    let settled = settlements(before.requests.pending_metadata_requests@);
    let told = before.data@.settle_all_metadata(settled);
    lemma_divided(before.requests.pending_metadata_requests@);
    let trail = law_following_answers_with_metadata(before.data@, settled);
    lemma_requests_metadata(told, connection, after.data@, requested);
    assert(answers_with_metadata_followed(before.data@, told, settled));
}

/// A round follows the answers with data, and requests what is still wanted.
pub proof fn law_process_data_requests<D, M, S: AssetStorage + ?Sized>(
    loader: &mut RpcLoader<D, M>,
    connection: ConnectionState,
    storage: &mut TracedStorage<S>,
    requested: Result<Vec<(AssetUuid, LoadHandle)>, Fault>,
)
    requires
        call_ensures(
            RpcLoader::<D, M>::process_data_requests::<S>,
            (loader, connection, storage),
            requested,
        ),
    ensures
        final(storage).inner() == old(storage).inner(),
        final(loader).connect_string == old(loader).connect_string,
        final(loader).requests.pending_metadata_requests
            == old(loader).requests.pending_metadata_requests,
        data_goes_on(
            *old(loader),
            old(storage).calls(),
            connection,
            *final(loader),
            final(storage).calls(),
            requested,
        ),
{
    lemma_data_goes_on(
        *old(loader),
        old(storage).calls(),
        connection,
        *final(loader),
        final(storage).calls(),
        requested,
    );
}

proof fn lemma_data_goes_on<D, M>(
    before: RpcLoader<D, M>,
    calls: Seq<StorageCall>,
    connection: ConnectionState,
    after: RpcLoader<D, M>,
    calls_after: Seq<StorageCall>,
    requested: Result<Vec<(AssetUuid, LoadHandle)>, Fault>,
)
    requires
        after.requests.pending_data_requests@ == unsettled(before.requests.pending_data_requests@),
        ({
            let fed = before.data@.settle_all_data(
                settlements(before.requests.pending_data_requests@),
                answers(calls_after.skip(calls.len() as int)),
            );
            &&& calls_after == calls + fed.calls
            &&& after_data(fed, connection, after.data@, requested)
        }),
    ensures
        data_goes_on(before, calls, connection, after, calls_after, requested),
{
    let settled = settlements(before.requests.pending_data_requests@);
    let accepted = answers(calls_after.skip(calls.len() as int));
    let fed = before.data@.settle_all_data(settled, accepted);
    lemma_divided(before.requests.pending_data_requests@);
    let trail = law_following_answers_with_data(before.data@, settled, accepted);
    lemma_requests_data(fed, connection, after.data@, requested);
    assert(answers_with_data_followed(before.data@, fed, settled));
}

// ----- the calls in a round

/// Whether the loader polls the requests for metadata next, or stops, as `done` says.
pub open spec fn polls_metadata(next: Result<RpcAction, Fault>, done: Result<(), Fault>) -> bool {
    match done {
        Ok(()) => next is Ok && next->Ok_0 is PollMetadata,
        Err(fault) => next is Err && next->Err_0 == fault,
    }
}

/// What a call of [`RpcLoader::process`] does with what has happened, told by what it finds, what
/// it leaves and what is to be done next.
pub open spec fn does_its_part<D, M>(c: ProcessCall<D, M>) -> bool {
    let (a, b) = (c.before, c.after);
    &&& b.connect_string == a.connect_string
    &&& match c.event {
        // connects if there is no connection or it was lost, and only then
        RpcEvent::Begun(connection) => {
            &&& b == a && c.calls_after == c.calls
            &&& c.next is Ok && c.next->Ok_0 is Poll
            &&& match connection {
                ConnectionState::Unconnected | ConnectionState::Error => c.next->Ok_0->connect,
                ConnectionState::Connecting | ConnectionState::Connected => !c.next->Ok_0->connect,
            }
        },
        // asks for changes unless reloads are pending
        RpcEvent::Polled => if a.data@.pending_reloads.len() == 0 {
            &&& b == a && c.calls_after == c.calls
            &&& c.next is Ok && c.next->Ok_0 is CheckChanges
        } else {
            &&& b.requests == a.requests
            &&& exists|done: Result<(), Fault>| #[trigger]
                polls_metadata(c.next, done) && goes_through(
                    a.data@,
                    c.calls,
                    None,
                    b.data@,
                    c.calls_after,
                    done,
                )
        },
        RpcEvent::ChangesChecked(changes) => {
            &&& b.requests == a.requests
            &&& exists|done: Result<(), Fault>| #[trigger]
                polls_metadata(c.next, done) && goes_through(
                    a.data@,
                    c.calls,
                    named_in(changes),
                    b.data@,
                    c.calls_after,
                    done,
                )
        },
        RpcEvent::MetadataPolled(connection) => {
            &&& c.calls_after == c.calls
            &&& b.requests.pending_data_requests == a.requests.pending_data_requests
            &&& exists|requested: Result<Vec<(AssetUuid, LoadHandle)>, Fault>|
                {
                    &&& #[trigger] metadata_goes_on(a, connection, b, requested)
                    &&& match requested {
                        Ok(list) => c.next is Ok && if list@.len() == 0 {
                            c.next->Ok_0 is PollData
                        } else {
                            c.next->Ok_0 == RpcAction::RequestMetadata(list)
                        },
                        Err(fault) => c.next is Err && c.next->Err_0 == fault,
                    }
                }
        },
        RpcEvent::MetadataRequested(request) => {
            &&& c.calls_after == c.calls
            &&& b.data == a.data
            &&& b.requests.pending_data_requests == a.requests.pending_data_requests
            &&& b.requests.pending_metadata_requests@
                == a.requests.pending_metadata_requests@.push(request)
            &&& c.next is Ok && c.next->Ok_0 is PollData
        },
        RpcEvent::DataPolled(connection) => {
            &&& b.requests.pending_metadata_requests == a.requests.pending_metadata_requests
            &&& exists|requested: Result<Vec<(AssetUuid, LoadHandle)>, Fault>|
                {
                    &&& #[trigger] data_goes_on(
                        a,
                        c.calls,
                        connection,
                        b,
                        c.calls_after,
                        requested,
                    )
                    &&& match requested {
                        Ok(list) => c.next is Ok && if list@.len() == 0 {
                            c.next->Ok_0 is Finish
                        } else {
                            c.next->Ok_0 == RpcAction::RequestData(list)
                        },
                        Err(fault) => c.next is Err && c.next->Err_0 == fault,
                    }
                }
        },
        RpcEvent::DataRequested(requests) => {
            &&& c.calls_after == c.calls
            &&& b.data == a.data
            &&& b.requests.pending_metadata_requests == a.requests.pending_metadata_requests
            &&& b.requests.pending_data_requests@ == a.requests.pending_data_requests@ + requests@
            &&& c.next is Ok && c.next->Ok_0 is Finish
        },
    }
}

/// Each call in a round does its part.
pub proof fn law_each_call_does_its_part<D, M>(c: ProcessCall<D, M>)
    requires
        c.is_true(),
    ensures
        does_its_part(c),
{
    let (a, b) = (c.before, c.after);
    match c.event {
        RpcEvent::Polled => {
            if a.data@.pending_reloads.len() > 0 {
                let done = lemma_how_it_ended(c, None);
                assert(polls_metadata(c.next, done));
            }
        },
        RpcEvent::ChangesChecked(changes) => {
            assert(changes_in(changes) == named_in(changes));
            let done = lemma_how_it_ended(c, named_in(changes));
            assert(polls_metadata(c.next, done));
        },
        RpcEvent::MetadataPolled(connection) => {
            let requested = choose|requested: Result<Vec<(AssetUuid, LoadHandle)>, Fault>|
                {
                    &&& #[trigger] after_metadata(
                        a.data@.settle_all_metadata(
                            settlements(a.requests.pending_metadata_requests@),
                        ),
                        connection,
                        b.data@,
                        requested,
                    )
                    &&& c.next == match requested {
                        Ok(list) => Ok::<RpcAction, Fault>(
                            if list@.len() > 0 {
                                RpcAction::RequestMetadata(list)
                            } else {
                                RpcAction::PollData
                            },
                        ),
                        Err(fault) => Err(fault),
                    }
                };
            lemma_metadata_goes_on(a, connection, b, requested);
            assert(metadata_goes_on(a, connection, b, requested));
        },
        RpcEvent::DataPolled(connection) => {
            let fed = a.data@.settle_all_data(
                settlements(a.requests.pending_data_requests@),
                answers(c.calls_after.skip(c.calls.len() as int)),
            );
            let requested = choose|requested: Result<Vec<(AssetUuid, LoadHandle)>, Fault>|
                {
                    &&& #[trigger] after_data(fed, connection, b.data@, requested)
                    &&& c.next == match requested {
                        Ok(list) => Ok::<RpcAction, Fault>(
                            if list@.len() > 0 {
                                RpcAction::RequestData(list)
                            } else {
                                RpcAction::Finish
                            },
                        ),
                        Err(fault) => Err(fault),
                    }
                };
            lemma_data_goes_on(a, c.calls, connection, b, c.calls_after, requested);
            assert(data_goes_on(a, c.calls, connection, b, c.calls_after, requested));
        },
        _ => {},
    }
}

/// How the part of a round has ended that a call of the loader went through.
proof fn lemma_how_it_ended<D, M>(
    c: ProcessCall<D, M>,
    changes: Option<ChangeSet>,
) -> (done: Result<(), Fault>)
    requires
        ended_before(c.next) is Some,
        after_cycle(
            c.before.data@,
            c.calls,
            changes,
            c.after.data@,
            c.calls_after,
            ended_before(c.next)->0,
        ),
    ensures
        polls_metadata(c.next, done),
        goes_through(c.before.data@, c.calls, changes, c.after.data@, c.calls_after, done),
{
    let done = ended_before(c.next)->0;
    lemma_goes_through(c.before.data@, c.calls, changes, c.after.data@, c.calls_after, done);
    done
}

/// [`RpcLoader::process`] does its part, whatever has happened.
pub proof fn law_process<D, M, S: AssetStorage + ?Sized>(
    loader: &mut RpcLoader<D, M>,
    event: RpcEvent<D, M>,
    storage: &mut TracedStorage<S>,
    next: Result<RpcAction, Fault>,
)
    requires
        call_ensures(RpcLoader::<D, M>::process::<S>, (loader, event, storage), next),
    ensures
        final(storage).inner() == old(storage).inner(),
        does_its_part(
            ProcessCall {
                before: *old(loader),
                calls: old(storage).calls(),
                event,
                after: *final(loader),
                calls_after: final(storage).calls(),
                next,
            },
        ),
{
    law_each_call_does_its_part(
        ProcessCall {
            before: *old(loader),
            calls: old(storage).calls(),
            event,
            after: *final(loader),
            calls_after: final(storage).calls(),
            next,
        },
    );
}

/// What [`RpcLoader::process`] does is a [`ProcessCall`], so that what the laws say of rounds and
/// of histories they say of it.
pub proof fn law_process_makes_a_call<D, M, S: AssetStorage + ?Sized>(
    loader: &mut RpcLoader<D, M>,
    event: RpcEvent<D, M>,
    storage: &mut TracedStorage<S>,
    next: Result<RpcAction, Fault>,
)
    requires
        call_ensures(RpcLoader::<D, M>::process::<S>, (loader, event, storage), next),
    ensures
        (ProcessCall {
            before: *old(loader),
            calls: old(storage).calls(),
            event,
            after: *final(loader),
            calls_after: final(storage).calls(),
            next,
        }).is_true(),
{
}

/// Adding a reference is a step of a history, in which the storage is told nothing.
pub proof fn law_adding_a_reference_is_a_step<D, M>(
    loader: &mut RpcLoader<D, M>,
    id: AssetUuid,
    handle: LoadHandle,
)
    requires
        call_ensures(RpcLoader::<D, M>::add_ref, (loader, id), handle),
    ensures
        carried_out(*old(loader), LoaderCall::AddRef(id), *final(loader), Seq::empty()),
{
}

/// Removing a reference is a step of a history, in which the storage is told nothing.
pub proof fn law_removing_a_reference_is_a_step<D, M>(
    loader: &mut RpcLoader<D, M>,
    load: LoadHandle,
)
    requires
        call_ensures(RpcLoader::<D, M>::remove_ref, (loader, load), ()),
    ensures
        carried_out(*old(loader), LoaderCall::RemoveRef(load), *final(loader), Seq::empty()),
{
}

// ----- the connection

/// The first call of a round asks to connect exactly if the round begins with no connection or with
/// one that was lost, and so never while a connection is there or is being made. No other call of
/// the round asks for it.
pub proof fn law_rounds_connect_when_needed<D, M>(calls: Seq<ProcessCall<D, M>>, i: int)
    requires
        begun_round(calls),
        0 <= i < calls.len(),
    ensures
        i == 0 ==> {
            &&& calls[i].event matches RpcEvent::Begun(connection)
            &&& calls[i].next matches Ok(RpcAction::Poll { connect })
            &&& connection is Unconnected || connection is Error ==> connect
            &&& connection is Connected || connection is Connecting ==> !connect
        },
        i > 0 ==> !(calls[i].next is Ok && calls[i].next->Ok_0 is Poll),
{
    assert(in_turn(calls, i));
    law_each_call_does_its_part(calls[i]);
    if i > 0 {
        assert(in_turn(calls, i - 1));
    }
}

/// [`RpcLoader::process`] asks to connect exactly if a round begins with no connection or with one
/// that was lost.
pub proof fn law_process_connects_when_needed<D, M, S: AssetStorage + ?Sized>(
    loader: &mut RpcLoader<D, M>,
    event: RpcEvent<D, M>,
    storage: &mut TracedStorage<S>,
    next: Result<RpcAction, Fault>,
)
    requires
        call_ensures(RpcLoader::<D, M>::process::<S>, (loader, event, storage), next),
    ensures
        next == Ok::<RpcAction, Fault>(RpcAction::Poll { connect: true }) <==> {
            ||| event == RpcEvent::<D, M>::Begun(ConnectionState::Unconnected)
            ||| event == RpcEvent::<D, M>::Begun(ConnectionState::Error)
        },
        next == Ok::<RpcAction, Fault>(RpcAction::Poll { connect: false }) <==> {
            ||| event == RpcEvent::<D, M>::Begun(ConnectionState::Connected)
            ||| event == RpcEvent::<D, M>::Begun(ConnectionState::Connecting)
        },
        event is Begun ==> *final(loader) == *old(loader) && final(storage).calls()
            == old(storage).calls(),
{
    law_process(loader, event, storage, next);
}

// ----- when the loader may be called

/// The loader may be asked anything, at any time.
pub proof fn law_the_loader_may_always_be_asked<D, M>(
    loader: &RpcLoader<D, M>,
    id: AssetUuid,
    load: LoadHandle,
)
    ensures
        call_requires(RpcLoader::<D, M>::get_load, (loader, id)),
        call_requires(RpcLoader::<D, M>::get_load_info, (loader, load)),
        call_requires(RpcLoader::<D, M>::get_load_status, (loader, load)),
        call_requires(RpcLoader::<D, M>::get_asset, (loader, load)),
{
}

/// The loader may be called at any time, whatever has happened.
pub proof fn law_the_loader_may_always_be_called<D, M, S: AssetStorage + ?Sized>(
    loader: &mut RpcLoader<D, M>,
    id: AssetUuid,
    load: LoadHandle,
    event: RpcEvent<D, M>,
    storage: &mut TracedStorage<S>,
)
    ensures
        call_requires(RpcLoader::<D, M>::add_ref, (loader, id)),
        call_requires(RpcLoader::<D, M>::remove_ref, (loader, load)),
        call_requires(RpcLoader::<D, M>::process::<S>, (loader, event, storage)),
{
}

} // verus!
