//! Following the engine's reports: all of them, in the order in which they come.

use crate::channel::HandleOp;
use crate::fault::Fault;
use crate::ids::LoadHandle;
use crate::laws::reload::commit_call;
use crate::metadata::lemma_contains_push;
use crate::model::{LoaderModel, StorageCall};
use crate::ops::committable;
use crate::state::{AssetLoad, AssetLoadState, LoadState};
use vstd::prelude::*;

verus! {

/// The answers of a channel that gives `ops` when it is asked.
pub open spec fn given(ops: Seq<HandleOp>) -> Seq<Option<HandleOp>> {
    ops.map_values(|op: HandleOp| Some(op))
}

/// The reports that are followed are those that came when the loader asked, in that order, and
/// unless one of them stops it, the loader asks until nothing comes, or as often as 64 bits can
/// count.
pub proof fn law_reports_are_asked_for(m: LoaderModel, ops: Seq<HandleOp>)
    ensures
        m.follow_ops(ops).fault is None && ops.len() < u64::MAX ==> m.follow_ops(ops).model.polls
            == m.polls + given(ops).push(None),
        m.follow_ops(ops).fault is None && ops.len() >= u64::MAX ==> m.follow_ops(ops).model.polls
            == m.polls + given(ops),
        m.follow_ops(ops).fault is Some ==> exists|n: int|
            0 < n <= ops.len() && m.follow_ops(ops).model.polls == m.polls + given(
                #[trigger] ops.take(n),
            ),
{
    lemma_applied_polls(m, ops);
    let e = m.apply_ops(ops);
    if e.fault is None {
        assert(m.polls + given(ops).push(None) =~= (m.polls + given(ops)).push(None));
    }
}

proof fn lemma_applied_polls(m: LoaderModel, ops: Seq<HandleOp>)
    ensures
        m.apply_ops(ops).fault is None ==> m.apply_ops(ops).model.polls == m.polls + given(ops),
        m.apply_ops(ops).fault is Some ==> exists|n: int|
            0 < n <= ops.len() && m.apply_ops(ops).model.polls == m.polls + given(
                #[trigger] ops.take(n),
            ),
    decreases ops.len(),
{
    if ops.len() == 0 {
        assert(given(ops) =~= Seq::empty());
        assert(m.polls + given(ops) =~= m.polls);
    } else {
        let front = ops.drop_last();
        let last = ops.last();
        lemma_applied_polls(m, front);
        let before = m.apply_ops(front);
        if before.fault is None {
            assert(given(ops) =~= given(front).push(Some(last)));
            assert(m.polls + given(ops) =~= (m.polls + given(front)).push(Some(last)));
            assert(ops.take(ops.len() as int) =~= ops);
        } else {
            let n = choose|n: int|
                0 < n <= front.len() && before.model.polls == m.polls + given(
                    #[trigger] front.take(n),
                );
            assert(front.take(n) =~= ops.take(n));
        }
    }
}

/// Why a report stops the loader whatever it is about: the engine failed, dropped its operation, or
/// loaded something that has no load.
pub open spec fn bad_news(m: LoaderModel, op: HandleOp) -> Option<Fault> {
    match op {
        HandleOp::LoadError(handle, reason) => Some(Fault::LoadFailed(handle, reason)),
        HandleOp::LoadDrop(handle) => Some(Fault::LoadDropped(handle)),
        HandleOp::LoadComplete(handle) => if m.loads.contains_key(handle.0) {
            None
        } else {
            Some(Fault::CompletedUnknownLoad(handle))
        },
    }
}

/// A report of failure stops the loader: nothing that is reported behind it is followed or even
/// asked for, and the storage is told no more than what the reports before it led to.
pub proof fn law_bad_news_stops(m: LoaderModel, ops: Seq<HandleOp>, i: int)
    requires
        0 <= i < ops.len(),
        m.apply_ops(ops.take(i)).fault is None,
        bad_news(m.apply_ops(ops.take(i)).model, ops[i]) is Some,
    ensures
        ({
            let before = m.apply_ops(ops.take(i));
            let e = m.follow_ops(ops);
            &&& e.fault == bad_news(before.model, ops[i])
            &&& e.model == before.model.polled(Some(ops[i]))
            &&& e.calls == before.calls
        }),
{
    lemma_stopped(m, ops, i);
}

proof fn lemma_stopped(m: LoaderModel, ops: Seq<HandleOp>, i: int)
    requires
        0 <= i < ops.len(),
        m.apply_ops(ops.take(i)).fault is None,
        bad_news(m.apply_ops(ops.take(i)).model, ops[i]) is Some,
    ensures
        ({
            let before = m.apply_ops(ops.take(i));
            let e = m.apply_ops(ops);
            &&& e.fault == bad_news(before.model, ops[i])
            &&& e.model == before.model.polled(Some(ops[i]))
            &&& e.calls == before.calls
        }),
    decreases ops.len(),
{
    let front = ops.drop_last();
    if i == ops.len() - 1 {
        assert(front =~= ops.take(i));
        let before = m.apply_ops(ops.take(i));
        assert(before.calls + Seq::<StorageCall>::empty() =~= before.calls);
    } else {
        assert(front.take(i) =~= ops.take(i));
        assert(front[i] == ops[i]);
        lemma_stopped(m, front, i);
    }
}

/// Whether `ops` report, of different loads, that the engine has loaded what it was handed.
pub open spec fn completions(m: LoaderModel, ops: Seq<HandleOp>) -> bool {
    &&& ops.no_duplicates()
    &&& forall|i: int|
        0 <= i < ops.len() ==> (#[trigger] ops[i] matches HandleOp::LoadComplete(handle)
            && m.loads.contains_key(handle.0) && m.loads[handle.0].state.sub_state() == Some(
            AssetLoadState::LoadingAsset,
        ) && committable(m.loads[handle.0]))
}

/// What becomes of a load that the engine has loaded: it is committed, or waits for that if it is
/// not committed at once.
pub open spec fn completed(load: AssetLoad) -> AssetLoad {
    if load.auto_commit {
        AssetLoad {
            loaded_version: load.requested_version,
            state: LoadState::Loaded(AssetLoadState::Loaded),
            ..load
        }
    } else {
        AssetLoad {
            state: load.state.with_sub_state(AssetLoadState::LoadedUncommitted),
            ..load
        }
    }
}

/// The commits that `ops` lead to, in their order.
pub open spec fn commits(m: LoaderModel, ops: Seq<HandleOp>) -> Seq<StorageCall>
    decreases ops.len(),
{
    if ops.len() == 0 {
        Seq::empty()
    } else {
        let before = commits(m, ops.drop_last());
        match ops.last() {
            HandleOp::LoadComplete(handle) => if m.loads[handle.0].auto_commit {
                before.push(commit_call(m.loads[handle.0], handle.0))
            } else {
                before
            },
            _ => before,
        }
    }
}

/// When the engine reports of different loads that it has loaded what it was handed, all reports
/// are followed: each such load is committed, in the order of the reports and with one call each,
/// unless it is not committed at once, and then it waits for that with the version in use unchanged
/// and no call. No other load changes.
pub proof fn law_completions_are_followed(m: LoaderModel, ops: Seq<HandleOp>)
    requires
        completions(m, ops),
    ensures
        ({
            let e = m.follow_ops(ops);
            &&& e.fault is None
            &&& e.calls == commits(m, ops)
            &&& e.model.loads.dom() == m.loads.dom()
            &&& forall|h: u64| #[trigger]
                m.loads.contains_key(h) ==> e.model.loads[h] == (if ops.contains(
                    HandleOp::LoadComplete(LoadHandle(h)),
                ) {
                    completed(m.loads[h])
                } else {
                    m.loads[h]
                })
        }),
{
    lemma_completions(m, ops);
    assert(m.follow_ops(ops).calls =~= commits(m, ops));
}

proof fn lemma_completions(m: LoaderModel, ops: Seq<HandleOp>)
    requires
        completions(m, ops),
    ensures
        ({
            let e = m.apply_ops(ops);
            &&& e.fault is None
            &&& e.calls == commits(m, ops)
            &&& e.model.loads.dom() == m.loads.dom()
            &&& forall|h: u64| #[trigger]
                m.loads.contains_key(h) ==> e.model.loads[h] == (if ops.contains(
                    HandleOp::LoadComplete(LoadHandle(h)),
                ) {
                    completed(m.loads[h])
                } else {
                    m.loads[h]
                })
        }),
    decreases ops.len(),
{
    if ops.len() > 0 {
        let front = ops.drop_last();
        let last = ops.last();
        assert(ops[ops.len() - 1] == last);
        assert(completions(m, front)) by {
            assert forall|i: int| 0 <= i < front.len() implies (
            #[trigger] front[i] matches HandleOp::LoadComplete(handle) && m.loads.contains_key(
                handle.0,
            ) && m.loads[handle.0].state.sub_state() == Some(AssetLoadState::LoadingAsset)
                && committable(m.loads[handle.0])) by {
                assert(front[i] == ops[i]);
            }
        }
        lemma_completions(m, front);
        let before = m.apply_ops(front);
        let handle = last->LoadComplete_0;
        let k = handle.0;
        assert(m.loads.contains_key(k));
        assert(LoadHandle(k) == handle);
        assert(!front.contains(last)) by {
            if front.contains(last) {
                let j = choose|j: int| 0 <= j < front.len() && front[j] == last;
                assert(ops[j] == ops[ops.len() - 1]);
            }
        }
        assert(before.model.loads[k] == m.loads[k]);
        assert(front.push(last) =~= ops);
        let e = m.apply_ops(ops);
        assert(e.model.loads.dom() =~= m.loads.dom());
        assert(e.calls =~= commits(m, ops));
        assert forall|h: u64| #[trigger] m.loads.contains_key(h) implies e.model.loads[h] == (
        if ops.contains(HandleOp::LoadComplete(LoadHandle(h))) {
            completed(m.loads[h])
        } else {
            m.loads[h]
        }) by {
            lemma_contains_push(front, last, HandleOp::LoadComplete(LoadHandle(h)));
        }
    }
}

} // verus!
