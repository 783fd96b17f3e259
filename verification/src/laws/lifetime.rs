//! From the first reference to an asset to the last: it is loaded, and all that it depends on with
//! it, and when the reference is removed, all of it goes again.

use crate::channel::HandleOp;
use crate::ids::{AssetUuid, LoadHandle};
use crate::laws::calls::{changes_said, law_processing_is_a_run, round_of, History, LoaderCall};
use crate::laws::holding::{law_first_reference, law_lone_reference_keeps_a_tree};
use crate::laws::loading::{
    closed_under, helpful, helpful_rounds, law_patient_run, law_referenced_assets_are_loaded,
    lemma_answers_fit, lemma_later, lemma_patient_reports, lemma_state_until_turn, patient,
    patient_run, rooted, tree_loaded, wanted,
};
use crate::laws::references::tables_agree;
use crate::laws::rounds::{is_run, law_run_steady, steady, Play, Round};
use crate::laws::tables::{dependency_total, law_apply_ops_agree, law_process_changes_agrees};
use crate::laws::unloading::{
    changes_avoid, depends_as, frees, law_abandoned_assets_go, lemma_apply_ops_alone,
    lemma_commit_reloads_alone, lemma_frees_add, lemma_settle_all_data_alone, ranked,
};
use crate::model::LoaderModel;
use crate::requests::settlements;
use crate::rpc_loader::reported;
use crate::state::LoadStatus;
use crate::walk::lemma_release_silent;
use vstd::prelude::*;

verus! {

/// Advancing a load frees no other load, and frees that one only if it is asked to be unloaded.
proof fn lemma_step_frees(m: LoaderModel, k: u64, h: u64)
    requires
        k != h || !m.loads.contains_key(k) || !(m.loads[k].state is UnloadRequested),
    ensures
        frees(m.advance(k).calls, h) == 0,
{
    let e = m.advance(k);
    if m.loads.contains_key(k) && m.loads[k].state is UnloadRequested {
        let freed = m.free(k);
        lemma_release_silent(freed.model, m.metadata[m.loads[k].asset_id]);
        assert(e.calls =~= freed.calls);
        reveal_with_fuel(frees, 2);
        if freed.calls.len() > 0 {
            assert(freed.calls.drop_last() =~= Seq::empty());
        }
    } else {
        assert(e.calls =~= Seq::empty());
    }
}

/// A pass frees only loads that are asked to be unloaded when it begins.
proof fn lemma_walk_spares(m: LoaderModel, order: Seq<u64>, h: u64)
    requires
        tables_agree(m),
        order.no_duplicates(),
        forall|i: int| 0 <= i < order.len() ==> m.loads.contains_key(#[trigger] order[i]),
        m.next_handle + dependency_total(m, order) <= u64::MAX,
        m.loads.contains_key(h) ==> !(m.loads[h].state is UnloadRequested),
    ensures
        frees(m.walk(order).calls, h) == 0,
    decreases order.len(),
{
    if order.len() > 0 {
        let front = order.drop_last();
        let k = order.last();
        assert(order[order.len() - 1] == k);
        assert forall|i: int| 0 <= i < front.len() implies m.loads.contains_key(
            #[trigger] front[i],
        ) by {
            assert(front[i] == order[i]);
        }
        assert(!front.contains(k)) by {
            if front.contains(k) {
                let j = choose|j: int| 0 <= j < front.len() && front[j] == k;
                assert(order[j] == order[order.len() - 1]);
            }
        }
        lemma_walk_spares(m, front, h);
        lemma_state_until_turn(m, front, k);
        let before = m.walk(front);
        let next = before.model.advance(k);
        lemma_step_frees(before.model, k, h);
        lemma_frees_add(before.calls, next.calls, h);
    }
}

/// A round frees no load that is not asked to be unloaded when the loads are advanced.
pub proof fn law_round_frees_what_is_unloaded<D, M>(s: Play<D, M>, r: Round<D, M>, h: u64)
    requires
        steady(s),
        r.fits(s),
        ({
            let n = reported(s.model, r.changes, r.ops).model;
            n.loads.contains_key(h) ==> !(n.loads[h].state is UnloadRequested)
        }),
    ensures
        frees(r.after(s).calls, h) == frees(s.calls, h),
{
    let m = s.model;
    let a = m.process_changes(r.changes);
    let n = reported(m, r.changes, r.ops);
    assert(a.fault is None && a.model.apply_ops(r.ops).fault is None);
    lemma_commit_reloads_alone(m, m.pending_reloads);
    lemma_apply_ops_alone(a.model, r.ops);
    law_process_changes_agrees(m, r.changes);
    law_apply_ops_agree(a.model, r.ops);
    assert(tables_agree(n.model));
    let applied = a.model.apply_ops(r.ops);
    assert(frees(m.commit_reloads(m.pending_reloads).calls, h) == 0);
    assert(frees(a.calls, h) == 0) by {
        assert(a.calls =~= Seq::empty() || a.calls =~= m.commit_reloads(m.pending_reloads).calls);
    }
    assert(frees(applied.calls, h) == 0);
    assert(n.calls =~= a.calls + applied.calls);
    lemma_frees_add(a.calls, applied.calls, h);
    assert forall|i: int| 0 <= i < r.order.len() implies n.model.loads.contains_key(
        #[trigger] r.order[i],
    ) by {
        assert(r.order.contains(r.order[i]));
    }
    lemma_walk_spares(n.model, r.order, h);
    let walked = n.model.walk(r.order);
    assert(n.model.advance_all(r.order).calls =~= walked.calls);
    assert(r.cycled(s).calls =~= n.calls + walked.calls);
    lemma_frees_add(n.calls, walked.calls, h);
    lemma_answers_fit(s, r);
    lemma_settle_all_data_alone(r.asked(s), settlements(r.data), r.accepted);
    assert(frees(r.fed(s).calls, h) == 0);
    lemma_frees_add(s.calls, r.cycled(s).calls, h);
    lemma_frees_add(s.calls + r.cycled(s).calls, r.fed(s).calls, h);
}

/// What is wanted is not freed: over a run in which nobody stands in the way of the assets of a
/// tree, none of them that was referenced to begin with is freed.
pub proof fn law_wanted_assets_are_not_freed<D, M>(
    states: Seq<Play<D, M>>,
    rounds: Seq<Round<D, M>>,
    tree: Seq<AssetUuid>,
    deps: Map<AssetUuid, Seq<AssetUuid>>,
    i: int,
    x: AssetUuid,
)
    requires
        patient_run(states, rounds, tree, deps),
        0 <= i <= rounds.len(),
        tree.contains(x),
        states[0].model.handles.contains_key(x),
    ensures
        frees(states[i].calls, states[0].model.handles[x]) == frees(
            states[0].calls,
            states[0].model.handles[x],
        ),
    decreases i,
{
    if i > 0 {
        let h = states[0].model.handles[x];
        let s = states[i - 1];
        let r = rounds[i - 1];
        law_wanted_assets_are_not_freed(states, rounds, tree, deps, i - 1, x);
        law_run_steady(states, rounds, i - 1);
        law_patient_run(states, rounds, tree, deps, i - 1);
        lemma_later(states, rounds, tree, deps, 0, i - 1, x);
        assert(s.model.handle(x) == Some(h));
        assert(reported(s.model, r.changes, r.ops).fault is None);
        lemma_patient_reports(s.model, r.changes, r.ops, tree, deps);
        let n = reported(s.model, r.changes, r.ops).model;
        assert(n.load_of(x) is Some && wanted(n.load_of(x)->0));
        law_round_frees_what_is_unloaded(s, r, h);
    }
}

/// A reference to an asset of a new loader, from first to last: once everybody has done their part
/// for twelve rounds for each rank of what it depends on, wherever these lie in the rounds that are
/// played, it is loaded, and so is all that it depends on; and when the reference is removed then,
/// all of it has gone three rounds for each rank later, and the storage was told once to free the
/// asset.
///
/// `states` and `rounds` are the rounds after the reference was added, `later_states` and
/// `later_rounds` those after it was removed.
pub proof fn law_reference_comes_and_goes<D, M>(
    states: Seq<Play<D, M>>,
    rounds: Seq<Round<D, M>>,
    later_states: Seq<Play<D, M>>,
    later_rounds: Seq<Round<D, M>>,
    tree: Seq<AssetUuid>,
    deps: Map<AssetUuid, Seq<AssetUuid>>,
    rank: spec_fn(AssetUuid) -> nat,
    root: AssetUuid,
    top: nat,
)
    requires
        is_run(states, rounds),
        states[0].model == LoaderModel::initial(states[0].model.reports).add_ref(root),
        states[0].metadata.len() == 0,
        states[0].data.len() == 0,
        states[0].calls.len() == 0,
        closed_under(tree, deps),
        ranked(tree, deps, rank),
        rooted(tree, deps, root),
        tree.no_duplicates(),
        forall|x: AssetUuid| #[trigger] tree.contains(x) ==> rank(x) <= top,
        forall|j: int|
            #![trigger rounds[j]]
            0 <= j < rounds.len() ==> patient(states[j], rounds[j], tree, deps),
        helpful_rounds(states, rounds, tree, deps, rounds.len()) >= 12 * (top + 1),
        forall|j: int| 0 <= j < states.len() ==> depends_as((#[trigger] states[j]).model, tree, deps),
        states.last().model.next_handle < u64::MAX,
        is_run(later_states, later_rounds),
        later_states[0] == (Play {
            model: states.last().model.remove_ref(states[0].model.handles[root]),
            ..states.last()
        }),
        forall|j: int|
            0 <= j < later_states.len() ==> depends_as(
                (#[trigger] later_states[j]).model,
                tree,
                deps,
            ),
        forall|j: int|
            0 <= j < later_rounds.len() ==> changes_avoid(
                (#[trigger] later_rounds[j]).changes,
                tree,
            ),
        later_rounds.len() >= 3 * (top + 1),
    ensures
        ({
            let h = states[0].model.handles[root];
            let end = later_states[3 * (top + 1) as int];
            &&& states.last().model.status(h) == LoadStatus::Loaded
            &&& tree_loaded(states.last().model, tree)
            &&& end.model.status(h) == LoadStatus::NotRequested
            &&& forall|x: AssetUuid| #[trigger] tree.contains(x) ==> end.model.load_of(x) is None
            &&& frees(end.calls, h) == 1
        }),
{
    let first = states[0];
    let h = first.model.handles[root];
    let reports = first.model.reports;
    law_first_reference::<D, M>(LoaderModel::initial(reports).reports, tree, deps, root);
    assert(first == (Play::<D, M> {
        model: LoaderModel::initial(reports).add_ref(root),
        metadata: Seq::empty(),
        data: Seq::empty(),
        calls: Seq::empty(),
    })) by {
        assert(first.metadata =~= Seq::empty());
        assert(first.data =~= Seq::empty());
        assert(first.calls =~= Seq::empty());
    }
    assert(patient_run(states, rounds, tree, deps));
    law_referenced_assets_are_loaded(states, rounds, tree, deps, rank, root, top);
    law_lone_reference_keeps_a_tree(states, rounds, tree, deps, rank, root, top);
    law_wanted_assets_are_not_freed(states, rounds, tree, deps, rounds.len() as int, root);
    law_abandoned_assets_go(later_states, later_rounds, tree, deps, rank, top);
    let left = later_states[0].model;
    assert(tree.contains(root));
    assert(states.last().model.handle(root) == Some(h));
    assert(states.last().model.handles.contains_key(root));
    assert(left.load_of(root) is Some);
    assert(left.handles[root] == h);
    assert(!(left.load_of(root)->0.state is Unloading));
}

/// Whether nobody stands in the way of the assets of `tree` in the round that the `i`th call plays.
pub open spec fn patient_call<D, M>(
    history: History<D, M>,
    i: int,
    tree: Seq<AssetUuid>,
    deps: Map<AssetUuid, Seq<AssetUuid>>,
) -> bool {
    &&& history.calls[i] matches LoaderCall::Process(calls)
    &&& forall|ops: Seq<HandleOp>, order: Seq<u64>|
        {
            let r = #[trigger] round_of(calls, ops, order);
            let s = history.state(i as nat);
            r.fits(s) && history.state((i + 1) as nat) == r.after(s) ==> patient(s, r, tree, deps)
        }
}

/// Whether everybody does their part for the assets of `tree` in the round that the `i`th call
/// plays.
pub open spec fn helpful_call<D, M>(
    history: History<D, M>,
    i: int,
    tree: Seq<AssetUuid>,
    deps: Map<AssetUuid, Seq<AssetUuid>>,
) -> bool {
    &&& history.calls[i] matches LoaderCall::Process(calls)
    &&& forall|ops: Seq<HandleOp>, order: Seq<u64>|
        {
            let r = #[trigger] round_of(calls, ops, order);
            let s = history.state(i as nat);
            r.fits(s) && history.state((i + 1) as nat) == r.after(s) ==> helpful(s, r, tree, deps)
        }
}

/// In how many of the calls from `from` to before `to` everybody does their part for the assets of
/// `tree`.
pub open spec fn helpful_calls<D, M>(
    history: History<D, M>,
    from: int,
    to: int,
    tree: Seq<AssetUuid>,
    deps: Map<AssetUuid, Seq<AssetUuid>>,
) -> nat
    decreases to - from,
{
    if to <= from {
        0
    } else {
        helpful_calls(history, from, to - 1, tree, deps) + if helpful_call(
            history,
            to - 1,
            tree,
            deps,
        ) {
            1nat
        } else {
            0
        }
    }
}

/// Whether `states` and `rounds` are what the calls of a history make of them from the call `from`
/// on.
spec fn tells_of<D, M>(
    states: Seq<Play<D, M>>,
    rounds: Seq<Round<D, M>>,
    history: History<D, M>,
    from: nat,
) -> bool {
    &&& is_run(states, rounds)
    &&& from + rounds.len() <= history.calls.len()
    &&& forall|i: int|
        0 <= i <= rounds.len() ==> #[trigger] states[i] == history.state((from + i) as nat)
    &&& forall|i: int|
        0 <= i < rounds.len() ==> history.calls[from + i] is Process && #[trigger] rounds[i]
            == round_of(history.calls[from + i]->Process_0, rounds[i].ops, rounds[i].order)
}

/// Where everybody does their part in calls, they do so in the rounds that the calls play.
proof fn lemma_helpful_calls<D, M>(
    states: Seq<Play<D, M>>,
    rounds: Seq<Round<D, M>>,
    history: History<D, M>,
    from: nat,
    tree: Seq<AssetUuid>,
    deps: Map<AssetUuid, Seq<AssetUuid>>,
    n: nat,
)
    requires
        tells_of(states, rounds, history, from),
        n <= rounds.len(),
    ensures
        helpful_rounds(states, rounds, tree, deps, n) >= helpful_calls(
            history,
            from as int,
            (from + n) as int,
            tree,
            deps,
        ),
    decreases n,
{
    if n > 0 {
        let k = n - 1;
        lemma_helpful_calls(states, rounds, history, from, tree, deps, k as nat);
        if helpful_call(history, from + k, tree, deps) {
            let r = rounds[k];
            assert(r == round_of(history.calls[from + k]->Process_0, r.ops, r.order));
            assert(states[k] == history.state((from + k) as nat));
            assert(states[k + 1] == history.state((from + k + 1) as nat));
            assert(helpful(states[k], r, tree, deps));
        }
    }
}

/// A caller's reference to an asset, from first to last. The caller of a new loader adds a
/// reference to `root`, has rounds played, removes the reference with the call `gone`, and has more
/// rounds played. However long connecting, the daemon's answers and the engine's reports take: as
/// soon as everybody has done their part for `root` and what it depends on in twelve rounds for
/// each rank of that, wherever these lie, `root` and all that it depends on is loaded. Three rounds
/// for each rank after the reference was removed, nothing of that has a load any more, and the
/// storage was told once to free `root`.
pub proof fn law_callers_reference_comes_and_goes<D, M>(
    history: History<D, M>,
    gone: nat,
    tree: Seq<AssetUuid>,
    deps: Map<AssetUuid, Seq<AssetUuid>>,
    rank: spec_fn(AssetUuid) -> nat,
    root: AssetUuid,
    top: nat,
)
    requires
        history.is_whole(),
        1 <= gone < history.calls.len(),
        history.calls[0] == LoaderCall::<D, M>::AddRef(root),
        history.calls[gone as int] == LoaderCall::<D, M>::RemoveRef(
            LoadHandle(history.loaders[1].data@.handles[root]),
        ),
        forall|i: int| gone < i < history.calls.len() ==> (#[trigger] history.calls[i]) is Process,
        closed_under(tree, deps),
        ranked(tree, deps, rank),
        rooted(tree, deps, root),
        tree.no_duplicates(),
        forall|x: AssetUuid| #[trigger] tree.contains(x) ==> rank(x) <= top,
        forall|i: int| 1 <= i < gone ==> #[trigger] patient_call(history, i, tree, deps),
        helpful_calls(history, 1, gone as int, tree, deps) >= 12 * (top + 1),
        forall|i: nat|
            1 <= i <= history.calls.len() ==> depends_as(
                (#[trigger] history.state(i)).model,
                tree,
                deps,
            ),
        forall|i: int|
            gone < i < history.calls.len() ==> changes_avoid(
                changes_said((#[trigger] history.calls[i])->Process_0),
                tree,
            ),
        history.calls.len() > gone + 3 * (top + 1),
    ensures
        ({
            let h = history.loaders[1].data@.handles[root];
            let loaded = history.state(gone).model;
            let n = (gone + 1 + 3 * (top + 1)) as nat;
            let end = history.state(n).model;
            &&& loaded.status(h) == LoadStatus::Loaded
            &&& tree_loaded(loaded, tree)
            &&& end.status(h) == LoadStatus::NotRequested
            &&& forall|x: AssetUuid| #[trigger] tree.contains(x) ==> end.load_of(x) is None
            &&& frees(history.account(n), h) == 1
        }),
{
    let h = history.loaders[1].data@.handles[root];
    let total = history.calls.len();
    assert(history.goes_on(0) && history.goes_on(gone as int));
    assert forall|i: int| 1 <= i < gone implies (#[trigger] history.calls[i]) is Process by {
        assert(patient_call(history, i, tree, deps));
    }
    let (states, rounds) = law_processing_is_a_run(history, 1, gone);
    let (later_states, later_rounds) = law_processing_is_a_run(history, gone + 1, total);
    assert(tells_of(states, rounds, history, 1));
    lemma_helpful_calls(states, rounds, history, 1, tree, deps, rounds.len());
    assert forall|j: int| #![trigger rounds[j]] 0 <= j < rounds.len() implies patient(
        states[j],
        rounds[j],
        tree,
        deps,
    ) by {
        let r = rounds[j];
        assert(r == round_of(history.calls[1 + j]->Process_0, r.ops, r.order));
        assert(patient_call(history, 1 + j, tree, deps));
        assert(states[j] == history.state((1 + j) as nat));
        assert(states[j + 1] == history.state((1 + j + 1) as nat));
    }
    assert forall|j: int| 0 <= j < states.len() implies depends_as(
        (#[trigger] states[j]).model,
        tree,
        deps,
    ) by {
        assert(states[j] == history.state((1 + j) as nat));
    }
    assert forall|j: int| 0 <= j < later_states.len() implies depends_as(
        (#[trigger] later_states[j]).model,
        tree,
        deps,
    ) by {
        assert(later_states[j] == history.state((gone + 1 + j) as nat));
    }
    assert forall|j: int| 0 <= j < later_rounds.len() implies changes_avoid(
        (#[trigger] later_rounds[j]).changes,
        tree,
    ) by {
        let r = later_rounds[j];
        assert(r == round_of(history.calls[gone + 1 + j]->Process_0, r.ops, r.order));
    }
    assert(states[0] == history.state(1));
    assert(states.last() == history.state(gone));
    assert(later_states[0] == history.state((gone + 1) as nat));
    assert(history.account(1) =~= Seq::empty()) by {
        assert(history.account(0) =~= Seq::empty());
    }
    assert(history.account((gone + 1) as nat) =~= history.account(gone));
    assert(later_states[3 * (top + 1) as int] == history.state(
        (gone + 1 + 3 * (top + 1)) as nat,
    ));
    law_reference_comes_and_goes(
        states,
        rounds,
        later_states,
        later_rounds,
        tree,
        deps,
        rank,
        root,
        top,
    );
}

} // verus!
