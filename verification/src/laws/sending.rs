//! What the storage is handed, over whole calls and histories: it is what the daemon has sent for
//! that load, byte for byte, and nothing else.

use crate::channel::HandleOp;
use crate::fault::Fault;
use crate::ids::{AssetUuid, LoadHandle};
use crate::laws::calls::{begun_round, in_turn, History, LoaderCall, ProcessCall};
use crate::laws::delivery::{answer_is_followed, brings_nothing, is_usable};
use crate::laws::operations::{answers_with_data_followed, has_happened, named_in};
use crate::laws::phases::{
    all_data_followed, at_step, calls_of, follows_changes, follows_reports, having_asked,
    loads_advance, passes_over, reloads_committed, reports_followed, sums_up, was_taken,
    without_loads,
};
use crate::laws::process::{
    data_goes_on, does_its_part, goes_through, in_three_parts, law_each_call_does_its_part,
    polls_metadata, requests_data,
};
use crate::laws::requests::{
    are_divided, comes_from, has_source, lemma_divided, lemma_settlements_come_from, outcome_of,
};
use crate::laws::steps::{advances, is_reported, reload_is_committed};
use crate::model::{ChangeSet, Effect, LoaderModel, StorageCall};
use crate::requests::{settlements, settlements_from, ResponsePromise};
use crate::responses::{Artifact, DataResponse};
use crate::rpc_loader::RpcEvent;
use vstd::prelude::*;

verus! {

/// A request for the data of a load.
pub type SentRequest<D> = ResponsePromise<D, DataResponse, LoadHandle>;

/// Whether the daemon has answered `request` with at least one artifact.
pub open spec fn brings_an_artifact<D>(request: SentRequest<D>) -> bool {
    &&& request.response is Ready
    &&& request.response->Ready_0.artifacts is Ok
    &&& request.response->Ready_0.artifacts->Ok_0@.len() > 0
}

/// The first artifact that the daemon has answered `request` with.
pub open spec fn first_artifact<D>(request: SentRequest<D>) -> Artifact {
    request.response->Ready_0.artifacts->Ok_0@[0]
}

/// Whether `call` hands the storage what the daemon has answered `request` with: it is about the
/// load that the request was about, its type is the type of the first artifact of the answer, and
/// its data are the bytes of that artifact, as many and each the same.
pub open spec fn is_what_was_sent<D>(request: SentRequest<D>, call: StorageCall) -> bool {
    let first = first_artifact(request);
    &&& brings_an_artifact(request)
    &&& call is Update
    &&& call->Update_handle == request.user_data
    &&& first.data is Ok
    &&& first.data->Ok_0.type_uuid is Ok
    &&& first.data->Ok_0.type_uuid->Ok_0@ == call->Update_asset_type@
    &&& first.data->Ok_0.data is Ok
    &&& first.data->Ok_0.data->Ok_0@.len() == call->data.len()
    &&& forall|i: int|
        0 <= i < call->data.len() ==> #[trigger] call->data[i] == first.data->Ok_0.data->Ok_0@[i]
}

/// Whether one of `requests` is where the data that `call` hands the storage comes from.
pub open spec fn was_sent<D>(requests: Seq<SentRequest<D>>, call: StorageCall) -> bool {
    exists|j: int| 0 <= j < requests.len() && is_what_was_sent(#[trigger] requests[j], call)
}

// ----- where a call comes from

/// A call of a trail is a call of one of its steps.
proof fn lemma_call_of_a_step(trail: Seq<Effect>, n: nat, k: int) -> (t: int)
    requires
        n <= trail.len(),
        0 <= k < calls_of(trail, n).len(),
    ensures
        0 <= t < n,
        trail[t].calls.contains(calls_of(trail, n)[k]),
    decreases n,
{
    let before = calls_of(trail, (n - 1) as nat);
    if k < before.len() {
        lemma_call_of_a_step(trail, (n - 1) as nat, k)
    } else {
        assert(trail[n - 1].calls[k - before.len()] == calls_of(trail, n)[k]);
        n - 1
    }
}

/// The calls of a step are calls of its trail.
proof fn lemma_step_of_a_trail(trail: Seq<Effect>, n: nat, t: int, q: int) -> (k: int)
    requires
        n <= trail.len(),
        0 <= t < n,
        0 <= q < trail[t].calls.len(),
    ensures
        0 <= k < calls_of(trail, n).len(),
        calls_of(trail, n)[k] == trail[t].calls[q],
    decreases n,
{
    let before = calls_of(trail, (n - 1) as nat);
    if t == n - 1 {
        before.len() + q
    } else {
        lemma_step_of_a_trail(trail, (n - 1) as nat, t, q)
    }
}

/// Whether nothing is handed over by `calls`.
pub open spec fn hands_nothing_over(calls: Seq<StorageCall>) -> bool {
    forall|k: int| 0 <= k < calls.len() ==> !(#[trigger] calls[k] is Update)
}

proof fn lemma_no_step_hands_over(trail: Seq<Effect>, n: nat)
    requires
        n <= trail.len(),
        forall|t: int| 0 <= t < n ==> hands_nothing_over((#[trigger] trail[t]).calls),
    ensures
        hands_nothing_over(calls_of(trail, n)),
{
    assert forall|k: int| 0 <= k < calls_of(trail, n).len() implies !(
    #[trigger] calls_of(trail, n)[k] is Update) by {
        let t = lemma_call_of_a_step(trail, n, k);
        let q = choose|q: int|
            0 <= q < trail[t].calls.len() && trail[t].calls[q] == calls_of(trail, n)[k];
        assert(hands_nothing_over(trail[t].calls));
        assert(!(trail[t].calls[q] is Update));
    }
}

proof fn lemma_changes_hand_nothing_over(m: LoaderModel, e: Effect, changes: Option<ChangeSet>)
    requires
        follows_changes(m, e, changes),
    ensures
        hands_nothing_over(e.calls),
{
    if m.pending_reloads.len() > 0 && e.calls.len() > 0 {
        let reloads = m.pending_reloads;
        let (trail, committed) = choose|trail: Seq<Effect>, committed: Effect|
            {
                &&& #[trigger] sums_up(m, trail, committed, reloads.len())
                &&& reloads_committed(m, trail, reloads)
                &&& e.calls == committed.calls
                &&& e.fault == committed.fault
                &&& e.model == if committed.fault is None {
                    LoaderModel { pending_reloads: Seq::empty(), ..committed.model }
                } else {
                    committed.model
                }
            };
        assert forall|t: int| 0 <= t < trail.len() implies hands_nothing_over(
            (#[trigger] trail[t]).calls,
        ) by {
            assert(reload_is_committed(at_step(m, trail, t), trail[t], reloads[t]));
        }
        lemma_no_step_hands_over(trail, trail.len());
    }
}

proof fn lemma_reports_hand_nothing_over(m: LoaderModel, e: Effect, ops: Seq<HandleOp>)
    requires
        follows_reports(m, e, ops),
    ensures
        hands_nothing_over(e.calls),
{
    let (trail, followed) = choose|trail: Seq<Effect>, followed: Effect|
        {
            &&& #[trigger] sums_up(m, trail, followed, ops.len())
            &&& reports_followed(m, trail, ops)
            &&& e.calls == followed.calls
            &&& e.fault == followed.fault
            &&& e.model == if followed.fault is None && ops.len() < u64::MAX {
                having_asked(followed.model, None)
            } else {
                followed.model
            }
        };
    assert forall|t: int| 0 <= t < trail.len() implies hands_nothing_over(
        (#[trigger] trail[t]).calls,
    ) by {
        assert(is_reported(
            having_asked(at_step(m, trail, t), Some(ops[t])),
            trail[t],
            ops[t],
        ));
    }
    lemma_no_step_hands_over(trail, trail.len());
}

proof fn lemma_pass_hands_nothing_over(m: LoaderModel, e: Effect, order: Seq<u64>)
    requires
        passes_over(m, e, order),
    ensures
        hands_nothing_over(e.calls),
{
    let (trail, walked) = choose|trail: Seq<Effect>, walked: Effect|
        {
            &&& #[trigger] sums_up(m, trail, walked, order.len())
            &&& loads_advance(m, trail, order)
            &&& e.calls == walked.calls
            &&& e.fault == walked.fault
            &&& if walked.fault is None {
                without_loads(walked.model, e.model, walked.retired)
            } else {
                e.model == walked.model
            }
        };
    assert forall|t: int| 0 <= t < trail.len() implies hands_nothing_over(
        (#[trigger] trail[t]).calls,
    ) by {
        assert(advances(at_step(m, trail, t), trail[t], order[t]));
    }
    lemma_no_step_hands_over(trail, trail.len());
}

proof fn lemma_no_part_hands_over(
    m: LoaderModel,
    changes: Option<ChangeSet>,
    ops: Seq<HandleOp>,
    order: Seq<u64>,
    changed: Effect,
    followed: Effect,
    passed: Effect,
)
    requires
        in_three_parts(m, changes, ops, order, changed, followed, passed),
    ensures
        hands_nothing_over(changed.calls),
        changed.fault is None ==> hands_nothing_over(followed.calls),
        changed.fault is None && followed.fault is None ==> hands_nothing_over(passed.calls),
{
    lemma_changes_hand_nothing_over(m, changed, changes);
    if changed.fault is None {
        lemma_reports_hand_nothing_over(changed.model, followed, ops);
        if followed.fault is None {
            lemma_pass_hands_nothing_over(followed.model, passed, order);
        }
    }
}

/// Whether `after` is `calls` and then calls that hand nothing over.
spec fn goes_on_without_handing(calls: Seq<StorageCall>, after: Seq<StorageCall>) -> bool {
    &&& calls.len() <= after.len()
    &&& forall|k: int| calls.len() <= k < after.len() ==> !(#[trigger] after[k] is Update)
}

proof fn lemma_more_without_handing(
    calls: Seq<StorageCall>,
    after: Seq<StorageCall>,
    more: Seq<StorageCall>,
)
    requires
        goes_on_without_handing(calls, after),
        hands_nothing_over(more),
    ensures
        goes_on_without_handing(calls, after + more),
{
    assert forall|k: int| calls.len() <= k < (after + more).len() implies !(
    #[trigger] (after + more)[k] is Update) by {
        if k < after.len() {
            assert((after + more)[k] == after[k]);
        } else {
            assert((after + more)[k] == more[k - after.len()]);
        }
    }
}

proof fn lemma_going_through_hands_nothing_over(
    m: LoaderModel,
    calls: Seq<StorageCall>,
    changes: Option<ChangeSet>,
    after: LoaderModel,
    calls_after: Seq<StorageCall>,
    done: Result<(), Fault>,
)
    requires
        goes_through(m, calls, changes, after, calls_after, done),
    ensures
        goes_on_without_handing(calls, calls_after),
{
    let (ops, order, changed, followed, passed) = choose|
        ops: Seq<HandleOp>,
        order: Seq<u64>,
        changed: Effect,
        followed: Effect,
        passed: Effect,
    | #[trigger]
        in_three_parts(m, changes, ops, order, changed, followed, passed) && {
            let (last, so_far) = if changed.fault is Some {
                (changed, calls)
            } else if followed.fault is Some {
                (followed, calls + changed.calls)
            } else {
                (passed, calls + changed.calls + followed.calls)
            };
            has_happened(last, so_far, after, calls_after, done)
        };
    lemma_no_part_hands_over(m, changes, ops, order, changed, followed, passed);
    lemma_more_without_handing(calls, calls, changed.calls);
    if changed.fault is None {
        lemma_more_without_handing(calls, calls + changed.calls, followed.calls);
        if followed.fault is None {
            lemma_more_without_handing(
                calls,
                calls + changed.calls + followed.calls,
                passed.calls,
            );
        }
    }
}

// ----- the laws

/// Each call that hands the storage something in a step of a round hands it what the daemon has
/// answered a request with that was under way: for the load that the request was about, of the type
/// and with the bytes of the first artifact of the answer.
pub proof fn law_updates_are_what_was_sent<D, M>(c: ProcessCall<D, M>, k: int)
    requires
        c.is_true(),
        c.calls.len() <= k < c.calls_after.len(),
        c.calls_after[k] is Update,
    ensures
        c.event is DataPolled,
        was_sent(c.before.requests.pending_data_requests@, c.calls_after[k]),
{
    law_each_call_does_its_part(c);
    if c.event is DataPolled {
        lemma_updates_come_from_requests(c, k);
    } else {
        lemma_nothing_else_hands_over(c);
    }
}

proof fn lemma_nothing_else_hands_over<D, M>(c: ProcessCall<D, M>)
    requires
        does_its_part(c),
        !(c.event is DataPolled),
    ensures
        goes_on_without_handing(c.calls, c.calls_after),
{
    let m = c.before.data@;
    let (n, after) = (c.after.data@, c.calls_after);
    match c.event {
        RpcEvent::Polled => {
            if m.pending_reloads.len() > 0 {
                let done = choose|done: Result<(), Fault>| #[trigger]
                    polls_metadata(c.next, done) && goes_through(m, c.calls, None, n, after, done);
                lemma_going_through_hands_nothing_over(m, c.calls, None, n, after, done);
            }
        },
        RpcEvent::ChangesChecked(changes) => {
            let set = named_in(changes);
            let done = choose|done: Result<(), Fault>| #[trigger]
                polls_metadata(c.next, done) && goes_through(m, c.calls, set, n, after, done);
            lemma_going_through_hands_nothing_over(m, c.calls, set, n, after, done);
        },
        _ => {},
    }
}

proof fn lemma_updates_come_from_requests<D, M>(c: ProcessCall<D, M>, k: int)
    requires
        does_its_part(c),
        c.event is DataPolled,
        c.calls.len() <= k < c.calls_after.len(),
        c.calls_after[k] is Update,
    ensures
        was_sent(c.before.requests.pending_data_requests@, c.calls_after[k]),
{
    let m = c.before.data@;
    let call = c.calls_after[k];
    let n = c.calls.len() as int;
    let requests = c.before.requests.pending_data_requests@;
    let (settled, fed, trail) = lemma_data_trail(c);
    let t = lemma_call_of_a_step(trail, trail.len(), k - n);
    assert(calls_of(trail, trail.len())[k - n] == call);
    lemma_settlements_come_from(requests, 0);
    assert(has_source(requests, 0, settlements_from(requests, 0)[t]));
    let j = choose|j: int| #[trigger] comes_from(requests, j, settled[t]) && 0 <= j;
    lemma_call_is_what_was_sent(
        at_step(m, trail, t),
        trail[t],
        settled[t].0,
        settled[t].1,
        was_taken(trail[t]),
        requests[j],
        call,
    );
    assert(is_what_was_sent(requests[j], call));
}

/// What the answer to a request hands over is what was sent.
proof fn lemma_call_is_what_was_sent<D>(
    m: LoaderModel,
    e: Effect,
    answer: Option<DataResponse>,
    handle: LoadHandle,
    accepted: bool,
    request: SentRequest<D>,
    call: StorageCall,
)
    requires
        answer_is_followed(m, e, answer, handle, accepted),
        e.calls.contains(call),
        !(request.response is NotReady),
        (answer, handle) == outcome_of(request),
    ensures
        is_what_was_sent(request, call),
{
    let q = choose|q: int| 0 <= q < e.calls.len() && e.calls[q] == call;
    assert(m.loads.contains_key(handle.0) && !brings_nothing(answer));
    assert(q == 0);
}

/// What is done with the answers in a step of a round that follows answers with data.
proof fn lemma_data_trail<D, M>(c: ProcessCall<D, M>) -> (found: (
    Seq<(Option<DataResponse>, LoadHandle)>,
    Effect,
    Seq<Effect>,
))
    requires
        does_its_part(c),
        c.event is DataPolled,
    ensures
        ({
            let (settled, fed, trail) = found;
            &&& settled == settlements(c.before.requests.pending_data_requests@)
            &&& sums_up(c.before.data@, trail, fed, settled.len())
            &&& all_data_followed(c.before.data@, trail, settled)
            &&& c.calls_after == c.calls + calls_of(trail, trail.len())
            &&& fed.fault is Some <==> c.next is Err
        }),
{
    let connection = c.event->DataPolled_0;
    let (a, b) = (c.before, c.after);
    let requests = a.requests.pending_data_requests@;
    let requested = choose|requested: Result<Vec<(AssetUuid, LoadHandle)>, Fault>|
        {
            &&& #[trigger] data_goes_on(a, c.calls, connection, b, c.calls_after, requested)
            &&& requested is Err <==> c.next is Err
        };
    let (settled, fed) = choose|settled: Seq<(Option<DataResponse>, LoadHandle)>, fed: Effect|
        {
            &&& are_divided(requests, b.requests.pending_data_requests@, settled)
            &&& #[trigger] answers_with_data_followed(a.data@, fed, settled)
            &&& c.calls_after == c.calls + fed.calls
            &&& requests_data(fed, connection, b.data@, requested)
        };
    let trail = choose|trail: Seq<Effect>| #[trigger]
        sums_up(a.data@, trail, fed, settled.len()) && all_data_followed(a.data@, trail, settled);
    lemma_divided(requests);
    (settled, fed, trail)
}

/// What the daemon has sent reaches the storage: the answer to a request for the data of a load
/// that waits for it, if it can be used and no other request for that load has come to an end, is
/// handed to the storage, as the next version.
pub proof fn law_what_was_sent_reaches_the_storage<D, M>(c: ProcessCall<D, M>, j: int)
    requires
        c.is_true(),
        c.event is DataPolled,
        c.next is Ok,
        0 <= j < c.before.requests.pending_data_requests@.len(),
        brings_an_artifact(c.before.requests.pending_data_requests@[j]),
        ({
            let requests = c.before.requests.pending_data_requests@;
            let handle = requests[j].user_data;
            &&& c.before.data@.loads.contains_key(handle.0)
            &&& is_usable(c.before.data@.loads[handle.0], first_artifact(requests[j]))
            &&& forall|i: int|
                0 <= i < requests.len() && i != j && !(
                (#[trigger] requests[i]).response is NotReady) ==> requests[i].user_data != handle
        }),
    ensures
        ({
            let request = c.before.requests.pending_data_requests@[j];
            exists|k: int| #[trigger]
                is_handed_over(c, k) && is_what_was_sent(request, c.calls_after[k])
                    && c.calls_after[k]->Update_version
                    == match c.before.data@.loads[request.user_data.0].requested_version {
                    Some(version) => version + 1,
                    None => 1,
                }
        }),
{
    law_each_call_does_its_part(c);
    let m = c.before.data@;
    let requests = c.before.requests.pending_data_requests@;
    let handle = requests[j].user_data;
    let (settled, fed, trail) = lemma_data_trail(c);
    lemma_settlements_come_from(requests, 0);
    let outcome = outcome_of(requests[j]);
    assert(settled.contains(outcome));
    let t0 = choose|t: int| 0 <= t < settled.len() && settled[t] == outcome;
    // the first one about this load
    let t = lemma_first_about(settled, handle, t0);
    assert(has_source(requests, 0, settlements_from(requests, 0)[t]));
    let i = choose|i: int| #[trigger] comes_from(requests, i, settled[t]) && 0 <= i;
    assert(i == j);
    lemma_others_leave_it(m, trail, settled, handle, t);
    assert(answer_is_followed(
        at_step(m, trail, t),
        trail[t],
        settled[t].0,
        settled[t].1,
        was_taken(trail[t]),
    ));
    let k = lemma_step_of_a_trail(trail, trail.len(), t, 0);
    let call = trail[t].calls[0];
    assert(c.calls_after[c.calls.len() + k] == call);
    lemma_call_is_what_was_sent(
        at_step(m, trail, t),
        trail[t],
        settled[t].0,
        settled[t].1,
        was_taken(trail[t]),
        requests[j],
        call,
    );
    assert(is_handed_over(c, c.calls.len() + k));
}

/// Whether the call number `k` is one that a step of a round has made on the storage.
pub open spec fn is_handed_over<D, M>(c: ProcessCall<D, M>, k: int) -> bool {
    c.calls.len() <= k < c.calls_after.len()
}

proof fn lemma_first_about(
    settled: Seq<(Option<DataResponse>, LoadHandle)>,
    handle: LoadHandle,
    t: int,
) -> (first: int)
    requires
        0 <= t < settled.len(),
        settled[t].1 == handle,
    ensures
        0 <= first < settled.len(),
        settled[first].1 == handle,
        forall|i: int| 0 <= i < first ==> (#[trigger] settled[i]).1 != handle,
    decreases t,
{
    if exists|i: int| 0 <= i < t && (#[trigger] settled[i]).1 == handle {
        let i = choose|i: int| 0 <= i < t && (#[trigger] settled[i]).1 == handle;
        lemma_first_about(settled, handle, i)
    } else {
        t
    }
}

/// Answers about other loads leave a load as it is.
proof fn lemma_others_leave_it(
    m: LoaderModel,
    trail: Seq<Effect>,
    settled: Seq<(Option<DataResponse>, LoadHandle)>,
    handle: LoadHandle,
    t: int,
)
    requires
        all_data_followed(m, trail, settled),
        0 <= t <= trail.len() <= settled.len(),
        m.loads.contains_key(handle.0),
        forall|i: int| 0 <= i < t ==> (#[trigger] settled[i]).1 != handle,
    ensures
        at_step(m, trail, t).loads.contains_key(handle.0),
        at_step(m, trail, t).loads[handle.0] == m.loads[handle.0],
    decreases t,
{
    if t > 0 {
        lemma_others_leave_it(m, trail, settled, handle, t - 1);
        let before = at_step(m, trail, t - 1);
        assert(answer_is_followed(
            before,
            trail[t - 1],
            settled[t - 1].0,
            settled[t - 1].1,
            was_taken(trail[t - 1]),
        ));
        assert(settled[t - 1].1.0 != handle.0);
        assert(before.loads.contains_key(handle.0));
    }
}

// ----- over time

/// A step of a round takes back nothing that the storage was told.
proof fn lemma_nothing_is_taken_back<D, M>(c: ProcessCall<D, M>)
    requires
        does_its_part(c),
    ensures
        c.calls.len() <= c.calls_after.len(),
        forall|k: int| 0 <= k < c.calls.len() ==> #[trigger] c.calls_after[k] == c.calls[k],
{
    let m = c.before.data@;
    let (n, after) = (c.after.data@, c.calls_after);
    match c.event {
        RpcEvent::Polled => {
            if m.pending_reloads.len() > 0 {
                let done = choose|done: Result<(), Fault>| #[trigger]
                    polls_metadata(c.next, done) && goes_through(m, c.calls, None, n, after, done);
                lemma_going_through_takes_nothing_back(m, c.calls, None, n, after, done);
            }
        },
        RpcEvent::ChangesChecked(changes) => {
            let set = named_in(changes);
            let done = choose|done: Result<(), Fault>| #[trigger]
                polls_metadata(c.next, done) && goes_through(m, c.calls, set, n, after, done);
            lemma_going_through_takes_nothing_back(m, c.calls, set, n, after, done);
        },
        RpcEvent::DataPolled(_) => {
            let (settled, fed, trail) = lemma_data_trail(c);
        },
        _ => {},
    }
}

proof fn lemma_going_through_takes_nothing_back(
    m: LoaderModel,
    calls: Seq<StorageCall>,
    changes: Option<ChangeSet>,
    after: LoaderModel,
    calls_after: Seq<StorageCall>,
    done: Result<(), Fault>,
)
    requires
        goes_through(m, calls, changes, after, calls_after, done),
    ensures
        calls.len() <= calls_after.len(),
        forall|k: int| 0 <= k < calls.len() ==> #[trigger] calls_after[k] == calls[k],
{
}

/// Whether `call` hands the storage what the daemon has answered a request with, as found in the
/// step number `l` of a round.
pub open spec fn was_sent_in<D, M>(
    round: Seq<ProcessCall<D, M>>,
    l: int,
    call: StorageCall,
) -> bool {
    &&& 0 <= l < round.len()
    &&& round[l].event is DataPolled
    &&& was_sent(round[l].before.requests.pending_data_requests@, call)
}

/// What the storage is handed in a round is what the daemon has sent.
pub proof fn law_a_round_hands_over_what_was_sent<D, M>(
    round: Seq<ProcessCall<D, M>>,
    p: int,
    k: int,
) -> (l: int)
    requires
        begun_round(round),
        0 <= p < round.len(),
        round[0].calls.len() <= k < round[p].calls_after.len(),
        round[p].calls_after[k] is Update,
    ensures
        l <= p,
        was_sent_in(round, l, round[p].calls_after[k]),
    decreases p,
{
    assert(in_turn(round, p));
    law_each_call_does_its_part(round[p]);
    lemma_nothing_is_taken_back(round[p]);
    if k >= round[p].calls.len() {
        law_updates_are_what_was_sent(round[p], k);
        p
    } else {
        assert(p > 0);
        assert(in_turn(round, p - 1));
        assert(round[p - 1].calls_after == round[p].calls);
        law_a_round_hands_over_what_was_sent(round, p - 1, k)
    }
}

/// Whether `call` hands the storage what the daemon has answered a request with, as found in a
/// round that `step` plays.
pub open spec fn was_sent_by<D, M>(step: LoaderCall<D, M>, call: StorageCall) -> bool {
    &&& step is Process
    &&& exists|l: int| #[trigger] was_sent_in(step->Process_0, l, call)
}

/// Whatever callers do, all that the storage is ever handed is what the daemon has sent: each call
/// that hands it something is made in a round that has found the answer to a request for that load,
/// and hands over the type and the bytes of the first artifact of that answer.
pub proof fn law_all_that_is_handed_over_was_sent<D, M>(
    history: History<D, M>,
    n: nat,
    k: int,
) -> (i: int)
    requires
        history.is_true(),
        n <= history.calls.len(),
        0 <= k < history.account(n).len(),
        history.account(n)[k] is Update,
    ensures
        0 <= i < n,
        was_sent_by(history.calls[i], history.account(n)[k]),
    decreases n,
{
    let before = history.account((n - 1) as nat);
    if k < before.len() {
        law_all_that_is_handed_over_was_sent(history, (n - 1) as nat, k)
    } else {
        let i = n - 1;
        assert(history.goes_on(i));
        let told = history.told[i];
        let call = told[k - before.len()];
        assert(call == history.account(n)[k]);
        let round = history.calls[i]->Process_0;
        let l = law_a_round_hands_over_what_was_sent(round, round.len() - 1, k - before.len());
        assert(was_sent_in(round, l, call));
        i
    }
}

} // verus!
