//! Hot reload to its end: once the engine has loaded the new version of each asset of a set, the
//! next round puts all of them into use.

use crate::channel::HandleOp;
use crate::data::LoaderData;
use crate::fault::Fault;
use crate::ids::{AssetUuid, LoadHandle};
use crate::laws::calls::ProcessCall;
use crate::laws::operations::{has_happened, law_finish_reloads};
use crate::laws::phases::{
    at_step, calls_of, follows_changes, follows_reports, goes_on_with_reloads, having_asked,
    loads_advance, passes_over, reloads_committed, reports_followed, sums_up, without_loads,
};
use crate::laws::process::{
    goes_through, in_three_parts, law_each_call_does_its_part, polls_metadata,
};
use crate::laws::steps::{
    advances, has_load, is_reported, only_load_differs, only_state_differs, reference_given_up,
    reference_taken, references_given_up, references_taken, reload_is_committed,
    reload_is_finished, unloads_over,
};
use crate::model::{Effect, LoaderModel, PendingReload, StorageCall};
use crate::state::{AssetLoad, AssetLoadState, LoadState};
use crate::storage::{AssetStorage, TracedStorage};
use vstd::prelude::*;

verus! {

/// Whether the engine has loaded a version of this load that waits to be put into use.
pub open spec fn awaits_use(load: AssetLoad) -> bool {
    ||| load.state == LoadState::Loaded(AssetLoadState::LoadedUncommitted)
    ||| load.state == LoadState::LoadingAsset(AssetLoadState::LoadedUncommitted)
}

/// The call that puts the version of `load` that was handed over last into use.
pub open spec fn puts_into_use(load: AssetLoad, h: u64) -> StorageCall {
    StorageCall::Commit {
        asset_type: load.asset_type->0,
        handle: LoadHandle(h),
        version: load.requested_version->0,
    }
}

/// Whether `b` is `a` with the version that was handed over last in use.
pub open spec fn is_in_use(a: AssetLoad, b: AssetLoad) -> bool {
    &&& b.state == LoadState::Loaded(AssetLoadState::Loaded)
    &&& b.loaded_version == a.requested_version
    &&& b.requested_version == a.requested_version
    &&& b.asset_id == a.asset_id
    &&& b.refs == a.refs
    &&& b.asset_type == a.asset_type
    &&& b.auto_commit
    &&& b.pending_reload == a.pending_reload
}

/// Whether the reloads of `m` are all finished: each reloaded asset has no load any more, or the
/// engine has loaded a later version of it, and its type is known. How many refer to it is of no
/// account.
pub open spec fn all_is_loaded(m: LoaderModel) -> bool {
    forall|i: int|
        0 <= i < m.pending_reloads.len() ==> is_loaded_anew(m, #[trigger] m.pending_reloads[i])
}

/// Whether a reloaded asset has no load any more, or the engine has loaded a later version of it.
pub open spec fn is_loaded_anew(m: LoaderModel, reload: PendingReload) -> bool {
    m.handles.contains_key(reload.asset_id) && m.loads.contains_key(m.handles[reload.asset_id])
        ==> {
        let load = m.loads[m.handles[reload.asset_id]];
        &&& {
            ||| load.state == LoadState::Loaded(AssetLoadState::LoadedUncommitted)
            ||| load.state == LoadState::Loaded(AssetLoadState::Loaded)
            ||| load.state == LoadState::LoadingAsset(AssetLoadState::LoadedUncommitted)
            ||| load.state == LoadState::LoadingAsset(AssetLoadState::Loaded)
        }
        &&& load.requested_version is Some
        &&& load.requested_version->0 > reload.version_before
        &&& load.asset_type is Some
    }
}

/// Whether each load of `m` is in `n` what it was, or is in use and `calls` says so.
spec fn used_so_far(m: LoaderModel, n: LoaderModel, calls: Seq<StorageCall>) -> bool {
    &&& n.handles == m.handles
    &&& n.loads.dom() == m.loads.dom()
    &&& n.pending_reloads == m.pending_reloads
    &&& forall|h: u64| #[trigger]
        m.loads.contains_key(h) ==> {
            ||| n.loads[h] == m.loads[h]
            ||| is_in_use(m.loads[h], n.loads[h]) && calls.contains(puts_into_use(m.loads[h], h))
        }
}

/// Whether the reloaded assets of the first `k` of `reloads` do not wait to be put into use.
spec fn none_awaits(n: LoaderModel, reloads: Seq<PendingReload>, k: int) -> bool {
    forall|i: int|
        0 <= i < k && has_load(n, (#[trigger] reloads[i]).asset_id) ==> !awaits_use(
            n.loads[n.handles[reloads[i].asset_id]],
        )
}

proof fn lemma_one_more_in_use(
    m: LoaderModel,
    before: LoaderModel,
    calls: Seq<StorageCall>,
    e: Effect,
    reload: PendingReload,
)
    requires
        used_so_far(m, before, calls),
        reload_is_committed(before, e, reload),
        is_loaded_anew(m, reload),
    ensures
        used_so_far(m, e.model, calls + e.calls),
        e.fault is None,
        has_load(e.model, reload.asset_id) ==> !awaits_use(
            e.model.loads[m.handles[reload.asset_id]],
        ),
        forall|h: u64| #[trigger]
            m.loads.contains_key(h) && !awaits_use(before.loads[h]) ==> !awaits_use(
                e.model.loads[h],
            ),
{
    let after = e.model;
    let h = m.handles[reload.asset_id];
    let all = calls + e.calls;
    if has_load(before, reload.asset_id) && awaits_use(before.loads[h]) {
        assert(m.loads.contains_key(h));
        assert(before.loads[h] == m.loads[h]);
        assert(all[calls.len() as int] == puts_into_use(m.loads[h], h));
        assert(after.loads.dom() == m.loads.dom());
        assert forall|g: u64| #[trigger] m.loads.contains_key(g) implies {
            ||| after.loads[g] == m.loads[g]
            ||| is_in_use(m.loads[g], after.loads[g]) && all.contains(puts_into_use(m.loads[g], g))
        } by {
            if g != h {
                assert(before.loads.contains_key(g));
                assert(after.loads[g] == before.loads[g]);
                lemma_still_there(calls, e.calls, puts_into_use(m.loads[g], g));
            }
        }
        assert forall|g: u64| #[trigger]
            m.loads.contains_key(g) && !awaits_use(before.loads[g]) implies !awaits_use(
            after.loads[g],
        ) by {
            assert(before.loads.contains_key(g));
        }
    } else {
        assert(all =~= calls);
    }
}

proof fn lemma_still_there(calls: Seq<StorageCall>, more: Seq<StorageCall>, call: StorageCall)
    ensures
        calls.contains(call) ==> (calls + more).contains(call),
{
    if calls.contains(call) {
        let i = choose|i: int| 0 <= i < calls.len() && calls[i] == call;
        assert((calls + more)[i] == call);
    }
}

proof fn lemma_used_so_far(
    m: LoaderModel,
    trail: Seq<Effect>,
    reloads: Seq<PendingReload>,
    k: nat,
)
    requires
        k <= trail.len() <= reloads.len(),
        reloads_committed(m, trail, reloads),
        forall|i: int| 0 <= i < reloads.len() ==> is_loaded_anew(m, #[trigger] reloads[i]),
    ensures
        used_so_far(m, at_step(m, trail, k as int), calls_of(trail, k)),
        none_awaits(at_step(m, trail, k as int), reloads, k as int),
        forall|i: int| 0 <= i < k ==> (#[trigger] trail[i]).fault is None,
    decreases k,
{
    if k > 0 {
        let j = (k - 1) as nat;
        lemma_used_so_far(m, trail, reloads, j);
        let before = at_step(m, trail, j as int);
        let e = trail[j as int];
        let after = e.model;
        assert(is_loaded_anew(m, reloads[j as int]));
        lemma_one_more_in_use(m, before, calls_of(trail, j), e, reloads[j as int]);
        assert forall|i: int|
            0 <= i < k && has_load(after, (#[trigger] reloads[i]).asset_id) implies !awaits_use(
            after.loads[after.handles[reloads[i].asset_id]],
        ) by {
            if i < j {
                assert(has_load(before, reloads[i].asset_id));
                assert(m.loads.contains_key(m.handles[reloads[i].asset_id]));
            }
        }
        assert(at_step(m, trail, k as int) == after);
    }
}

/// Whether `after` and the calls `made` are what it takes to put the reloaded assets of `m` into
/// use: each of them that waits for it is in use, and the storage has been told so; no other load
/// has changed; and no reload is pending any more.
pub open spec fn all_in_use(m: LoaderModel, after: LoaderModel, made: Seq<StorageCall>) -> bool {
    &&& after.pending_reloads.len() == 0
    &&& after.handles == m.handles
    &&& after.loads.dom() == m.loads.dom()
    &&& forall|i: int|
        0 <= i < m.pending_reloads.len() && has_load(m, (#[trigger] m.pending_reloads[i]).asset_id)
            ==> {
            let h = m.handles[m.pending_reloads[i].asset_id];
            awaits_use(m.loads[h]) ==> {
                &&& is_in_use(m.loads[h], after.loads[h])
                &&& made.contains(puts_into_use(m.loads[h], h))
            }
        }
    &&& forall|h: u64| #[trigger]
        m.loads.contains_key(h) ==> after.loads[h] == m.loads[h] || is_in_use(
            m.loads[h],
            after.loads[h],
        )
}

/// Once all reloads are finished, going on with them puts all into use.
proof fn lemma_all_in_use(m: LoaderModel, e: Effect)
    requires
        goes_on_with_reloads(m, e),
        all_is_loaded(m),
    ensures
        e.fault is None,
        all_in_use(m, e.model, e.calls),
{
    let reloads = m.pending_reloads;
    assert forall|i: int| 0 <= i < reloads.len() implies reload_is_finished(
        m,
        #[trigger] reloads[i],
    ) by {
        assert(is_loaded_anew(m, reloads[i]));
    }
    let (trail, committed) = choose|trail: Seq<Effect>, committed: Effect|
        {
            &&& #[trigger] sums_up(m, trail, committed, reloads.len())
            &&& reloads_committed(m, trail, reloads)
            &&& e.calls == committed.calls
            &&& e.fault == committed.fault
            &&& e.model == if committed.fault is None {
                LoaderModel { pending_reloads: Seq::empty(), ..committed.model }
            } else {
                committed.model
            }
        };
    lemma_used_so_far(m, trail, reloads, trail.len());
    assert(committed.fault is None);
    assert(trail.len() == reloads.len());
    let n = committed.model;
    assert forall|i: int|
        0 <= i < reloads.len() && has_load(m, (#[trigger] reloads[i]).asset_id) implies {
        let h = m.handles[reloads[i].asset_id];
        awaits_use(m.loads[h]) ==> {
            &&& is_in_use(m.loads[h], e.model.loads[h])
            &&& e.calls.contains(puts_into_use(m.loads[h], h))
        }
    } by {
        let h = m.handles[reloads[i].asset_id];
        assert(m.loads.contains_key(h));
        assert(has_load(n, reloads[i].asset_id));
    }
}

// ----- what the rest of a round leaves alone

proof fn lemma_advancing_keeps_reloads(m: LoaderModel, e: Effect, h: u64)
    requires
        advances(m, e, h),
    ensures
        e.model.pending_reloads == m.pending_reloads,
{
    if m.loads.contains_key(h) {
        let id = m.loads[h].asset_id;
        match m.loads[h].state {
            LoadState::RequestDependencies => {
                if m.metadata.contains_key(id) {
                    let models = choose|models: Seq<LoaderModel>|
                        {
                            let last = models.last();
                            &&& #[trigger] references_taken(models, m.metadata[id])
                            &&& models[0] == m
                            &&& only_load_differs(last, e.model, h)
                            &&& only_state_differs(
                                last.loads[h],
                                e.model.loads[h],
                            )
                            &&& e.model.loads[h].state is WaitingForDependencies
                        };
                    lemma_taking_keeps_reloads(models, m.metadata[id], models.len() - 1);
                }
            },
            LoadState::UnloadRequested => {
                let models = choose|models: Seq<LoaderModel>| #[trigger]
                    unloads_over(m, e, h, models);
                if m.metadata.contains_key(id) {
                    lemma_giving_up_keeps_reloads(
                        models,
                        m.metadata[id].take(models.len() - 1),
                        models.len() - 1,
                    );
                }
            },
            _ => {},
        }
    }
}

proof fn lemma_taking_keeps_reloads(models: Seq<LoaderModel>, ids: Seq<AssetUuid>, i: int)
    requires
        references_taken(models, ids),
        0 <= i < models.len(),
    ensures
        models[i].pending_reloads == models[0].pending_reloads,
    decreases i,
{
    if i > 0 {
        lemma_taking_keeps_reloads(models, ids, i - 1);
        assert(reference_taken(models, ids, i - 1));
    }
}

proof fn lemma_giving_up_keeps_reloads(models: Seq<LoaderModel>, ids: Seq<AssetUuid>, i: int)
    requires
        references_given_up(models, ids),
        0 <= i < models.len(),
    ensures
        models[i].pending_reloads == models[0].pending_reloads,
    decreases i,
{
    if i > 0 {
        lemma_giving_up_keeps_reloads(models, ids, i - 1);
        assert(reference_given_up(models, ids, i - 1));
    }
}

proof fn lemma_pass_keeps_reloads_to(m: LoaderModel, trail: Seq<Effect>, order: Seq<u64>, i: int)
    requires
        loads_advance(m, trail, order),
        0 <= i <= trail.len(),
    ensures
        at_step(m, trail, i).pending_reloads == m.pending_reloads,
    decreases i,
{
    if i > 0 {
        lemma_pass_keeps_reloads_to(m, trail, order, i - 1);
        lemma_advancing_keeps_reloads(at_step(m, trail, i - 1), trail[i - 1], order[i - 1]);
    }
}

proof fn lemma_pass_keeps_reloads(m: LoaderModel, e: Effect, order: Seq<u64>)
    requires
        passes_over(m, e, order),
    ensures
        e.model.pending_reloads == m.pending_reloads,
{
    let (trail, walked) = choose|trail: Seq<Effect>, walked: Effect|
        {
            &&& #[trigger] sums_up(m, trail, walked, order.len())
            &&& loads_advance(m, trail, order)
            &&& e.calls == walked.calls
            &&& e.fault == walked.fault
            &&& if walked.fault is None {
                without_loads(walked.model, e.model, walked.retired)
            } else {
                e.model == walked.model
            }
        };
    lemma_pass_keeps_reloads_to(m, trail, order, trail.len() as int);
}

proof fn lemma_reports_keep_reloads_to(
    m: LoaderModel,
    trail: Seq<Effect>,
    ops: Seq<HandleOp>,
    i: int,
)
    requires
        reports_followed(m, trail, ops),
        0 <= i <= trail.len(),
    ensures
        at_step(m, trail, i).pending_reloads == m.pending_reloads,
    decreases i,
{
    if i > 0 {
        lemma_reports_keep_reloads_to(m, trail, ops, i - 1);
        assert(is_reported(
            having_asked(at_step(m, trail, i - 1), Some(ops[i - 1])),
            trail[i - 1],
            ops[i - 1],
        ));
    }
}

proof fn lemma_reports_keep_reloads(m: LoaderModel, e: Effect, ops: Seq<HandleOp>)
    requires
        follows_reports(m, e, ops),
    ensures
        e.model.pending_reloads == m.pending_reloads,
{
    let (trail, followed) = choose|trail: Seq<Effect>, followed: Effect|
        {
            &&& #[trigger] sums_up(m, trail, followed, ops.len())
            &&& reports_followed(m, trail, ops)
            &&& e.calls == followed.calls
            &&& e.fault == followed.fault
            &&& e.model == if followed.fault is None && ops.len() < u64::MAX {
                having_asked(followed.model, None)
            } else {
                followed.model
            }
        };
    lemma_reports_keep_reloads_to(m, trail, ops, trail.len() as int);
}

// ----- the laws

/// Once the engine has loaded the new version of each asset of a set of reloads, all of them are
/// put into use, and none is pending any more, however many refer to them.
pub proof fn law_loaded_reloads_are_put_into_use<S: AssetStorage + ?Sized>(
    data: &mut LoaderData,
    storage: &mut TracedStorage<S>,
    done: Result<(), Fault>,
)
    requires
        call_ensures(LoaderData::finish_reloads::<S>, (data, storage), done),
        all_is_loaded(old(data)@),
    ensures
        done is Ok,
        final(storage).calls().len() >= old(storage).calls().len(),
        final(storage).calls().take(old(storage).calls().len() as int) == old(storage).calls(),
        all_in_use(
            old(data)@,
            final(data)@,
            final(storage).calls().skip(old(storage).calls().len() as int),
        ),
{
    law_finish_reloads(data, storage, done);
    let e = choose|e: Effect| #[trigger]
        goes_on_with_reloads(old(data)@, e) && has_happened(
            e,
            old(storage).calls(),
            final(data)@,
            final(storage).calls(),
            done,
        );
    lemma_all_in_use(old(data)@, e);
    let n = old(storage).calls().len() as int;
    assert(final(storage).calls().skip(n) =~= e.calls);
    assert(final(storage).calls().take(n) =~= old(storage).calls());
}

/// While the new version of an asset of a set of reloads is not loaded, none of the set is put into
/// use and all stay pending.
pub proof fn law_reloads_wait_for_each_other<S: AssetStorage + ?Sized>(
    data: &mut LoaderData,
    storage: &mut TracedStorage<S>,
    done: Result<(), Fault>,
    i: int,
)
    requires
        call_ensures(LoaderData::finish_reloads::<S>, (data, storage), done),
        0 <= i < old(data)@.pending_reloads.len(),
        !reload_is_finished(old(data)@, old(data)@.pending_reloads[i]),
    ensures
        final(data)@ == old(data)@,
        final(storage).calls() == old(storage).calls(),
{
    law_finish_reloads(data, storage, done);
    let e = choose|e: Effect| #[trigger]
        goes_on_with_reloads(old(data)@, e) && has_happened(
            e,
            old(storage).calls(),
            final(data)@,
            final(storage).calls(),
            done,
        );
    assert(old(storage).calls() + e.calls =~= old(storage).calls());
}

/// A round that finds all reloads loaded leaves none pending and tells the storage to use each new
/// version, however many refer to the assets, whatever else happens in the round.
pub proof fn law_next_round_puts_reloads_into_use<D, M>(c: ProcessCall<D, M>, i: int)
    requires
        c.is_true(),
        c.event is Polled,
        all_is_loaded(c.before.data@),
        0 <= i < c.before.data@.pending_reloads.len(),
    ensures
        c.after.data@.pending_reloads.len() == 0,
        ({
            let m = c.before.data@;
            let id = m.pending_reloads[i].asset_id;
            let load = m.loads[m.handles[id]];
            has_load(m, id) && awaits_use(load) ==> exists|k: int|
                c.calls.len() <= k < c.calls_after.len() && #[trigger] c.calls_after[k]
                    == puts_into_use(load, m.handles[id])
        }),
{
    law_each_call_does_its_part(c);
    let m = c.before.data@;
    let done = choose|done: Result<(), Fault>| #[trigger]
        polls_metadata(c.next, done) && goes_through(
            m,
            c.calls,
            None,
            c.after.data@,
            c.calls_after,
            done,
        );
    let (ops, order, changed, followed, passed) = choose|
        ops: Seq<HandleOp>,
        order: Seq<u64>,
        changed: Effect,
        followed: Effect,
        passed: Effect,
    | #[trigger]
        in_three_parts(m, None, ops, order, changed, followed, passed) && {
            let (last, so_far) = if changed.fault is Some {
                (changed, c.calls)
            } else if followed.fault is Some {
                (followed, c.calls + changed.calls)
            } else {
                (passed, c.calls + changed.calls + followed.calls)
            };
            has_happened(last, so_far, c.after.data@, c.calls_after, done)
        };
    assert(follows_changes(m, changed, None));
    lemma_all_in_use(m, changed);
    lemma_reports_keep_reloads(changed.model, followed, ops);
    if followed.fault is None {
        lemma_pass_keeps_reloads(followed.model, passed, order);
    }
    let id = m.pending_reloads[i].asset_id;
    let h = m.handles[id];
    if has_load(m, id) && awaits_use(m.loads[h]) {
        let call = puts_into_use(m.loads[h], h);
        let j = choose|j: int| 0 <= j < changed.calls.len() && changed.calls[j] == call;
        assert(c.calls_after[c.calls.len() + j] == call);
    }
}

} // verus!
