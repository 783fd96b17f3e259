//! How the references to an asset move: over passes, over rounds, and over all that callers do.

use crate::channel::HandleOp;
use crate::ids::{AssetUuid, LoadHandle};
use crate::laws::calls::{law_history_steady, law_process_plays_a_round, History, LoaderCall};
use crate::laws::flight::lemma_contains_add;
use crate::laws::loading::{
    lemma_retires_itself, lemma_state_until_turn, records_in, referenced_by, Told,
};
use crate::laws::references::{
    law_add_refs_agree, lemma_add_refs_count, lemma_no_occurrence, lemma_release_counts,
    occurrences, refs_of, tables_agree,
};
use crate::laws::rounds::{steady, Play, Round};
use crate::laws::tables::{
    after_records, dependency_count, dependency_total, law_advance_all_agrees, law_apply_ops_agree,
    law_process_changes_agrees, lemma_release_same, lemma_walk_agrees,
};
use crate::laws::unloading::lemma_reported_metadata;
use crate::metadata::lemma_contains_push;
use crate::model::{is_order_of, ChangeSet, LoaderModel, PendingReload};
use crate::requests::settlements;
use crate::responses::{AssetRecord, DataResponse};
use crate::rpc_loader::reported;
use crate::walk::lemma_add_refs_keep;
use vstd::prelude::*;

verus! {

/// The assets that advancing the load `k` takes references from.
pub open spec fn released_by(m: LoaderModel, k: u64) -> Seq<AssetUuid> {
    if m.loads[k].state is UnloadRequested && m.metadata.contains_key(m.loads[k].asset_id) {
        m.metadata[m.loads[k].asset_id]
    } else {
        Seq::empty()
    }
}

/// How many references to the asset `id` a pass over the loads `order` adds.
pub open spec fn added(m: LoaderModel, order: Seq<u64>, id: AssetUuid) -> nat
    decreases order.len(),
{
    if order.len() == 0 {
        0
    } else {
        added(m, order.drop_last(), id) + occurrences(referenced_by(m, order.last()), id)
    }
}

/// How many references to the asset `id` a pass over the loads `order` takes back.
pub open spec fn released(m: LoaderModel, order: Seq<u64>, id: AssetUuid) -> nat
    decreases order.len(),
{
    if order.len() == 0 {
        0
    } else {
        released(m, order.drop_last(), id) + occurrences(released_by(m, order.last()), id)
    }
}

/// What advancing the load `k` does to the references to an asset.
proof fn lemma_step_moves(n: LoaderModel, k: u64, id: AssetUuid)
    requires
        tables_agree(n),
        n.loads.contains_key(k),
        n.next_handle + dependency_count(n, k) <= u64::MAX,
        n.advance(k).fault is None,
        n.handles.contains_key(id) ==> n.load_of(id) is Some,
        occurrences(released_by(n, k), id) <= refs_of(n, id),
        refs_of(n, id) + occurrences(referenced_by(n, k), id) <= usize::MAX,
    ensures
        ({
            let e = n.advance(k).model;
            &&& e.handles.contains_key(id) ==> e.load_of(id) is Some
            &&& e.handles.contains_key(id) <==> n.handles.contains_key(id) || occurrences(
                referenced_by(n, k),
                id,
            ) > 0
            &&& refs_of(e, id) == refs_of(n, id) + occurrences(referenced_by(n, k), id)
                - occurrences(released_by(n, k), id)
        }),
{
    let e = n.advance(k).model;
    let load = n.loads[k];
    let y = load.asset_id;
    assert(n.handles.contains_key(y) && n.handles[y] == k);
    if load.state is RequestDependencies {
        let ids = referenced_by(n, k);
        let r = n.add_refs(ids);
        lemma_add_refs_count(n, ids, id);
        law_add_refs_agree(n, ids);
        lemma_add_refs_keep(n, ids, k);
        assert(occurrences(released_by(n, k), id) == 0);
        assert(e == r.with_state(k, e.loads[k].state));
        assert(refs_of(e, id) == refs_of(r, id));
    } else if load.state is UnloadRequested {
        let ids = n.metadata[y];
        let freed = n.free(k).model;
        assert(tables_agree(freed)) by {
            assert forall|j: u64| #[trigger] freed.loads.contains_key(j) implies
                freed.handles.contains_key(freed.loads[j].asset_id)
                && freed.handles[freed.loads[j].asset_id] == j by {
                assert(n.loads.contains_key(j));
            }
        }
        lemma_release_same(freed, ids);
        assert(occurrences(referenced_by(n, k), id) == 0);
        assert(refs_of(freed, id) == refs_of(n, id));
        let r = freed.release(ids);
        if n.handles.contains_key(id) {
            assert(freed.load_of(id) is Some);
            lemma_release_counts(freed, ids, id);
        }
        assert(e == r.model.with_state(k, e.loads[k].state));
        assert(refs_of(e, id) == refs_of(r.model, id));
    } else {
        assert(occurrences(referenced_by(n, k), id) == 0);
        assert(occurrences(released_by(n, k), id) == 0);
    }
}

/// What a pass does to the references to an asset, up to the removal of the loads that are given
/// up.
proof fn lemma_walk_moves_references(m: LoaderModel, order: Seq<u64>, id: AssetUuid)
    requires
        tables_agree(m),
        order.no_duplicates(),
        forall|i: int| 0 <= i < order.len() ==> m.loads.contains_key(#[trigger] order[i]),
        m.next_handle + dependency_total(m, order) <= u64::MAX,
        m.walk(order).fault is None,
        m.handles.contains_key(id) ==> m.load_of(id) is Some,
        released(m, order, id) <= refs_of(m, id),
        refs_of(m, id) + added(m, order, id) <= usize::MAX,
    ensures
        ({
            let n = m.walk(order).model;
            &&& n.handles.contains_key(id) ==> n.load_of(id) is Some
            &&& n.handles.contains_key(id) <==> m.handles.contains_key(id) || added(m, order, id)
                > 0
            &&& refs_of(n, id) == refs_of(m, id) + added(m, order, id) - released(m, order, id)
            &&& forall|h: u64| #[trigger]
                m.walk(order).retired.contains(h) ==> m.loads.contains_key(h)
                    && m.loads[h].state is Unloading
        }),
    decreases order.len(),
{
    if order.len() > 0 {
        let front = order.drop_last();
        let k = order.last();
        assert(order[order.len() - 1] == k);
        assert forall|i: int| 0 <= i < front.len() implies m.loads.contains_key(
            #[trigger] front[i],
        ) by {
            assert(front[i] == order[i]);
        }
        assert(!front.contains(k)) by {
            if front.contains(k) {
                let j = choose|j: int| 0 <= j < front.len() && front[j] == k;
                assert(order[j] == order[order.len() - 1]);
            }
        }
        lemma_walk_moves_references(m, front, id);
        lemma_walk_agrees(m, front);
        lemma_state_until_turn(m, front, k);
        let before = m.walk(front);
        let n = before.model;
        assert(dependency_count(n, k) == dependency_count(m, k));
        assert(referenced_by(n, k) == referenced_by(m, k));
        assert(released_by(n, k) == released_by(m, k));
        lemma_step_moves(n, k, id);
        assert forall|h: u64| #[trigger] m.walk(order).retired.contains(h) implies
            m.loads.contains_key(h) && m.loads[h].state is Unloading by {
            lemma_contains_add(before.retired, n.advance(k).retired, h);
            lemma_retires_itself(n, k);
        }
    }
}

/// How a pass over the loads moves the references to an asset: each load that requests its
/// dependencies adds one for each time that it lists the asset, and each load that is unloaded
/// takes one back for each time. An asset that was never referenced gets a load that way; and a
/// load is lost only if it was being unloaded, and its asset had been released before.
pub proof fn law_pass_moves_references(m: LoaderModel, order: Seq<u64>, id: AssetUuid)
    requires
        tables_agree(m),
        is_order_of(order, m),
        m.next_handle + dependency_total(m, order) <= u64::MAX,
        m.advance_all(order).fault is None,
        m.handles.contains_key(id) ==> m.load_of(id) is Some,
        released(m, order, id) <= refs_of(m, id),
        refs_of(m, id) + added(m, order, id) <= usize::MAX,
    ensures
        ({
            let n = m.advance_all(order).model;
            &&& n.handles.contains_key(id) <==> m.handles.contains_key(id) || added(m, order, id)
                > 0
            &&& n.load_of(id) is Some ==> refs_of(n, id) == refs_of(m, id) + added(m, order, id)
                - released(m, order, id)
            &&& n.load_of(id) is None && n.handles.contains_key(id) ==> m.load_of(id) is Some
                && m.load_of(id)->0.state is Unloading
        }),
{
    assert forall|i: int| 0 <= i < order.len() implies m.loads.contains_key(
        #[trigger] order[i],
    ) by {
        assert(order.contains(order[i]));
    }
    lemma_walk_moves_references(m, order, id);
    lemma_walk_agrees(m, order);
    let walked = m.walk(order);
    let w = walked.model;
    let n = m.advance_all(order).model;
    if w.handles.contains_key(id) {
        let h = w.handles[id];
        assert(walked.retired.to_set().contains(h) <==> walked.retired.contains(h));
        if walked.retired.contains(h) {
            let y = m.loads[h].asset_id;
            assert(m.handles.contains_key(y));
            assert(w.handle(y) == m.handle(y));
            if y != id {
                assert(w.handles.contains_key(y) && w.handles[y] != w.handles[id]);
            }
        }
    }
}

/// Whether of the loads `order` only `h` moves references to the asset `id` in a pass.
pub open spec fn alone(m: LoaderModel, order: Seq<u64>, h: u64, id: AssetUuid) -> bool {
    forall|i: int|
        0 <= i < order.len() && order[i] != h ==> !referenced_by(m, #[trigger] order[i]).contains(id)
            && !released_by(m, order[i]).contains(id)
}

/// What a pass moves where only one load moves references to an asset.
proof fn lemma_alone(m: LoaderModel, order: Seq<u64>, h: u64, id: AssetUuid)
    requires
        order.no_duplicates(),
        alone(m, order, h, id),
    ensures
        added(m, order, id) == if order.contains(h) {
            occurrences(referenced_by(m, h), id)
        } else {
            0
        },
        released(m, order, id) == if order.contains(h) {
            occurrences(released_by(m, h), id)
        } else {
            0
        },
    decreases order.len(),
{
    if order.len() > 0 {
        let front = order.drop_last();
        let k = order.last();
        assert(order[order.len() - 1] == k);
        assert forall|i: int| 0 <= i < front.len() && front[i] != h implies !referenced_by(
            m,
            #[trigger] front[i],
        ).contains(id) && !released_by(m, front[i]).contains(id) by {
            assert(front[i] == order[i]);
        }
        lemma_alone(m, front, h, id);
        assert(front.push(k) =~= order);
        lemma_contains_push(front, k, h);
        if k == h {
            assert(!front.contains(h)) by {
                if front.contains(h) {
                    let j = choose|j: int| 0 <= j < front.len() && front[j] == h;
                    assert(order[j] == order[order.len() - 1]);
                }
            }
        } else {
            lemma_no_occurrence(referenced_by(m, k), id);
            lemma_no_occurrence(released_by(m, k), id);
        }
    }
}

/// The references that a load takes on its dependencies come back, over whole passes: if one pass
/// finds the load `h` about to request its dependencies and a later one finds it about to be
/// unloaded, with the same dependencies, and nothing else has moved the references to one of these
/// since, that one has as many references after the later pass as before the earlier, or none if
/// the earlier brought its load into being, unless it has no load any more.
pub proof fn law_references_come_back_over_passes(
    first: LoaderModel,
    order: Seq<u64>,
    then: LoaderModel,
    later_order: Seq<u64>,
    h: u64,
    dependency: AssetUuid,
)
    requires
        tables_agree(first),
        is_order_of(order, first),
        first.next_handle + dependency_total(first, order) <= u64::MAX,
        first.advance_all(order).fault is None,
        tables_agree(then),
        is_order_of(later_order, then),
        then.next_handle + dependency_total(then, later_order) <= u64::MAX,
        then.advance_all(later_order).fault is None,
        first.loads.contains_key(h),
        first.loads[h].state is RequestDependencies,
        then.loads.contains_key(h),
        then.loads[h].state is UnloadRequested,
        then.loads[h].asset_id == first.loads[h].asset_id,
        first.metadata.contains_key(first.loads[h].asset_id),
        then.metadata.contains_key(first.loads[h].asset_id),
        first.metadata[first.loads[h].asset_id] == then.metadata[first.loads[h].asset_id],
        alone(first, order, h, dependency),
        alone(then, later_order, h, dependency),
        first.handles.contains_key(dependency) ==> first.load_of(dependency) is Some,
        then.load_of(dependency) is Some,
        refs_of(first, dependency) + occurrences(
            first.metadata[first.loads[h].asset_id],
            dependency,
        ) <= usize::MAX,
        first.advance_all(order).model.load_of(dependency) is Some,
        refs_of(then, dependency) == refs_of(first.advance_all(order).model, dependency),
    ensures
        then.advance_all(later_order).model.load_of(dependency) matches Some(load) ==> load.refs
            == refs_of(first, dependency),
{
    assert(order.contains(h) && later_order.contains(h));
    lemma_alone(first, order, h, dependency);
    lemma_alone(then, later_order, h, dependency);
    lemma_no_occurrence(released_by(first, h), dependency);
    lemma_no_occurrence(referenced_by(then, h), dependency);
    law_pass_moves_references(first, order, dependency);
    law_pass_moves_references(then, later_order, dependency);
}

/// Whether `n` has the same loads as `m`, with the same handles and as many references.
pub open spec fn same_refs(m: LoaderModel, n: LoaderModel) -> bool {
    &&& n.handles == m.handles
    &&& n.loads.dom() == m.loads.dom()
    &&& forall|h: u64| #[trigger] m.loads.contains_key(h) ==> n.loads[h].refs == m.loads[h].refs
}

proof fn lemma_note_refs(m: LoaderModel, ids: Seq<AssetUuid>)
    ensures
        same_refs(m, m.note_changes(ids)),
        same_refs(m, m.note_deletions(ids)),
    decreases ids.len(),
{
    if ids.len() > 0 {
        lemma_note_refs(m, ids.drop_last());
        assert(m.note_changes(ids).loads.dom() =~= m.loads.dom());
        assert(m.note_deletions(ids).loads.dom() =~= m.loads.dom());
    }
}

proof fn lemma_commit_reloads_refs(m: LoaderModel, reloads: Seq<PendingReload>)
    ensures
        same_refs(m, m.commit_reloads(reloads).model),
    decreases reloads.len(),
{
    if reloads.len() > 0 {
        lemma_commit_reloads_refs(m, reloads.drop_last());
        assert(m.commit_reloads(reloads).model.loads.dom() =~= m.loads.dom());
    }
}

proof fn lemma_apply_ops_refs(m: LoaderModel, ops: Seq<HandleOp>)
    ensures
        same_refs(m, m.apply_ops(ops).model),
    decreases ops.len(),
{
    if ops.len() > 0 {
        lemma_apply_ops_refs(m, ops.drop_last());
        assert(m.apply_ops(ops).model.loads.dom() =~= m.loads.dom());
    }
}

/// Changes and reports move no references.
proof fn lemma_reported_refs(m: LoaderModel, changes: Option<ChangeSet>, ops: Seq<HandleOp>)
    ensures
        same_refs(m, reported(m, changes, ops).model),
{
    lemma_commit_reloads_refs(m, m.pending_reloads);
    if changes is Some {
        let set = changes->0;
        lemma_note_refs(m, set.changed);
        lemma_note_refs(m.note_changes(set.changed), set.deleted);
    }
    let a = m.process_changes(changes).model;
    assert(same_refs(m, a));
    lemma_apply_ops_refs(a, ops);
}

proof fn lemma_ask_again_refs(m: LoaderModel, requested: Seq<(AssetUuid, LoadHandle)>)
    ensures
        same_refs(m, m.ask_again_all(requested).model),
    decreases requested.len(),
{
    if requested.len() > 0 {
        lemma_ask_again_refs(m, requested.drop_last());
        assert(m.ask_again_all(requested).model.loads.dom() =~= m.loads.dom());
    }
}

proof fn lemma_records_refs(m: LoaderModel, records: Seq<AssetRecord>)
    ensures
        same_refs(m, after_records(m, records)),
    decreases records.len(),
{
    if records.len() > 0 {
        lemma_records_refs(m, records.drop_last());
        assert(after_records(m, records).loads.dom() =~= m.loads.dom());
    }
}

/// Answers with metadata move no references.
proof fn lemma_told_refs(m: LoaderModel, settled: Seq<Told>)
    ensures
        same_refs(m, m.settle_all_metadata(settled).model),
    decreases settled.len(),
{
    if settled.len() > 0 {
        let last = settled.last();
        lemma_told_refs(m, settled.drop_last());
        let before = m.settle_all_metadata(settled.drop_last()).model;
        let records = records_in(last.0);
        lemma_ask_again_refs(before, last.1@);
        lemma_records_refs(before, records);
        lemma_ask_again_refs(after_records(before, records), last.1@);
        assert(same_refs(before, before.settle_metadata(last.0, last.1@).model));
    }
}

/// Answers with data move no references.
proof fn lemma_fed_refs(
    m: LoaderModel,
    settled: Seq<(Option<DataResponse>, LoadHandle)>,
    accepted: Seq<bool>,
)
    ensures
        same_refs(m, m.settle_all_data(settled, accepted).model),
    decreases settled.len(),
{
    if settled.len() > 0 {
        lemma_fed_refs(m, settled.drop_last(), accepted);
        assert(m.settle_all_data(settled, accepted).model.loads.dom() =~= m.loads.dom());
    }
}

/// Whether no asset is known to depend on the asset `id`.
pub open spec fn unlisted(m: LoaderModel, id: AssetUuid) -> bool {
    forall|x: AssetUuid| #[trigger] m.metadata.contains_key(x) ==> !m.metadata[x].contains(id)
}

/// A round moves no references to an asset that no other depends on: it has as many after the round
/// as before, unless its load was given up.
pub proof fn law_round_keeps_references<D, M>(s: Play<D, M>, r: Round<D, M>, id: AssetUuid)
    requires
        steady(s),
        r.fits(s),
        unlisted(s.model, id),
        s.model.handles.contains_key(id) ==> s.model.load_of(id) is Some,
    ensures
        r.after(s).model.handle(id) == s.model.handle(id),
        r.after(s).model.load_of(id) is Some ==> refs_of(r.after(s).model, id) == refs_of(
            s.model,
            id,
        ),
{
    let m = s.model;
    let n = reported(m, r.changes, r.ops).model;
    let c = r.cycled(s).model;
    let t = r.after(s).model;
    assert(n.advance_all(r.order).fault is None);
    assert(c == n.advance_all(r.order).model);
    lemma_reported_refs(m, r.changes, r.ops);
    lemma_reported_metadata(m, r.changes, r.ops);
    law_process_changes_agrees(m, r.changes);
    law_apply_ops_agree(m.process_changes(r.changes).model, r.ops);
    assert(tables_agree(n));
    assert forall|i: int| 0 <= i < r.order.len() implies !referenced_by(
        n,
        #[trigger] r.order[i],
    ).contains(id) && !released_by(n, r.order[i]).contains(id) by {}
    lemma_nobody(n, r.order, id);
    law_pass_moves_references(n, r.order, id);
    law_advance_all_agrees(n, r.order);
    assert(c.handle(id) == m.handle(id));
    let told = settlements(r.metadata);
    lemma_told_refs(c, told);
    let e = r.asked(s);
    assert(e.loads.dom() =~= c.loads.dom());
    assert(same_refs(c, e));
    lemma_fed_refs(e, settlements(r.data), r.accepted);
    assert(t.loads.dom() =~= c.loads.dom());
    assert(same_refs(c, t));
}

/// What a pass moves where no load moves references to an asset: none.
proof fn lemma_nobody(m: LoaderModel, order: Seq<u64>, id: AssetUuid)
    requires
        forall|i: int|
            0 <= i < order.len() ==> !referenced_by(m, #[trigger] order[i]).contains(id)
                && !released_by(m, order[i]).contains(id),
    ensures
        added(m, order, id) == 0,
        released(m, order, id) == 0,
    decreases order.len(),
{
    if order.len() > 0 {
        let front = order.drop_last();
        assert(order[order.len() - 1] == order.last());
        assert forall|i: int| 0 <= i < front.len() implies !referenced_by(
            m,
            #[trigger] front[i],
        ).contains(id) && !released_by(m, front[i]).contains(id) by {
            assert(front[i] == order[i]);
        }
        lemma_nobody(m, front, id);
        lemma_no_occurrence(referenced_by(m, order.last()), id);
        lemma_no_occurrence(released_by(m, order.last()), id);
    }
}

/// How many more references to the asset `id` callers have added than removed in the first `n`
/// calls.
pub open spec fn count<D, M>(history: History<D, M>, n: nat, id: AssetUuid) -> int
    decreases n,
{
    if n == 0 {
        0
    } else {
        let before = (n - 1) as nat;
        count(history, before, id) + match history.calls[before as int] {
            LoaderCall::AddRef(other) => if other == id {
                1int
            } else {
                0
            },
            LoaderCall::RemoveRef(load) => if history.loaders[before as int].data@.handle(id)
                == Some(load.0) {
                -1
            } else {
                0
            },
            LoaderCall::Process(_) => 0,
        }
    }
}

/// A load has as many references as callers have added and not removed, however many rounds were
/// played in between, as long as no other asset depends on its asset, its load is not given up, and
/// the references can be counted.
pub proof fn law_references_are_counted_over_time<D, M>(
    history: History<D, M>,
    n: nat,
    id: AssetUuid,
)
    requires
        history.is_whole(),
        n <= history.calls.len(),
        forall|i: nat|
            i <= n ==> {
                let m = (#[trigger] history.state(i)).model;
                &&& unlisted(m, id)
                &&& m.handles.contains_key(id) ==> m.load_of(id) is Some
                &&& 0 <= count(history, i, id) <= usize::MAX
            },
    ensures
        ({
            let m = history.state(n).model;
            &&& refs_of(m, id) == count(history, n, id)
            &&& m.load_of(id) matches Some(load) ==> load.asset_id == id && load.refs == count(
                history,
                n,
                id,
            )
        }),
    decreases n,
{
    law_history_steady(history, n);
    let t = history.state(n).model;
    if n > 0 {
        let i = (n - 1) as nat;
        law_references_are_counted_over_time(history, i, id);
        law_history_steady(history, i);
        let s = history.state(i);
        let m = s.model;
        assert(history.goes_on(i as int));
        match history.calls[i as int] {
            LoaderCall::AddRef(other) => {
                if other != id && m.handles.contains_key(id) {
                    assert(m.known(other).handles[id] == m.handles[id]);
                    if m.handles.contains_key(other) {
                        assert(m.handles[other] != m.handles[id]);
                    }
                }
                assert(refs_of(t, id) == refs_of(m, id) + if other == id {
                    1int
                } else {
                    0
                });
            },
            LoaderCall::RemoveRef(load) => {
                assert(t.handles == m.handles);
            },
            LoaderCall::Process(_) => {
                let r = law_process_plays_a_round(history, i as int);
                law_round_keeps_references(s, r, id);
            },
        }
    }
    if t.load_of(id) is Some {
        let h = t.handles[id];
        let y = t.loads[h].asset_id;
        assert(t.handles.contains_key(y) && t.handles[y] == h);
        assert(t.handles.contains_key(id));
    }
}

} // verus!
