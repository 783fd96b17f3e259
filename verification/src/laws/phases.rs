//! What the parts of a round do: one step after the other, each of them as it stands, none left out
//! and none twice, up to the first that stops the loader.

use crate::channel::HandleOp;
use crate::fault::{Failure, Fault};
use crate::ids::{AssetUuid, LoadHandle};
use crate::laws::delivery::{answer_is_followed, law_following_an_answer_with_data};
use crate::laws::steps::{
    advances, change_is_noted, deletion_is_noted, has_to_ask_again, is_reported,
    law_advancing_a_load, law_asking_again, law_committing_a_reload, law_following_a_record,
    law_following_a_report, law_noting_a_change, law_noting_a_deletion,
    law_when_a_reload_is_finished, record_is_followed, reload_has_no_version, reload_is_committed,
    reload_is_finished,
};
use crate::model::{lists_exactly, ChangeSet, Effect, LoaderModel, PendingReload, StorageCall};
use crate::responses::{AssetRecord, DataResponse, MetadataResponse};
use crate::state::{AssetLoad, AssetLoadState, LoadState};
use vstd::prelude::*;

verus! {

/// The loader before the step number `i` of a trail that begins at `m`.
pub open spec fn at_step(m: LoaderModel, trail: Seq<Effect>, i: int) -> LoaderModel {
    if i <= 0 {
        m
    } else {
        trail[i - 1].model
    }
}

/// The calls of the first `n` steps of a trail, one after the other.
pub open spec fn calls_of(trail: Seq<Effect>, n: nat) -> Seq<StorageCall>
    decreases n,
{
    if n == 0 {
        Seq::empty()
    } else {
        calls_of(trail, (n - 1) as nat) + trail[n - 1].calls
    }
}

/// The loads that the first `n` steps of a trail give up.
pub open spec fn retired_in(trail: Seq<Effect>, n: nat) -> Seq<u64>
    decreases n,
{
    if n == 0 {
        Seq::empty()
    } else {
        retired_in(trail, (n - 1) as nat) + trail[n - 1].retired
    }
}

/// Whether `e` is what `n` steps make of `m`, if `trail` is what each of them does: all of them, or
/// those up to the first that stops the loader.
pub open spec fn sums_up(m: LoaderModel, trail: Seq<Effect>, e: Effect, n: nat) -> bool {
    &&& trail.len() <= n
    &&& forall|i: int| 0 <= i < trail.len() - 1 ==> (#[trigger] trail[i]).fault is None
    &&& trail.len() < n ==> trail.len() > 0 && trail.last().fault is Some
    &&& e.model == at_step(m, trail, trail.len() as int)
    &&& e.calls == calls_of(trail, trail.len())
    &&& e.retired == retired_in(trail, trail.len())
    &&& e.fault == if trail.len() > 0 {
        trail.last().fault
    } else {
        None
    }
}

/// What the first steps of a trail say does not depend on what follows.
proof fn lemma_trail_front(trail: Seq<Effect>, next: Effect, n: nat)
    requires
        n <= trail.len(),
    ensures
        calls_of(trail.push(next), n) == calls_of(trail, n),
        retired_in(trail.push(next), n) == retired_in(trail, n),
    decreases n,
{
    if n > 0 {
        lemma_trail_front(trail, next, (n - 1) as nat);
        assert(trail.push(next)[n - 1] == trail[n - 1]);
    }
}

/// One more step.
proof fn lemma_one_more_step(
    m: LoaderModel,
    trail: Seq<Effect>,
    e: Effect,
    n: nat,
    next: Effect,
) -> (longer: Seq<Effect>)
    requires
        sums_up(m, trail, e, n),
    ensures
        sums_up(m, longer, e.followed_by(next), n + 1),
        longer == if e.fault is None {
            trail.push(next)
        } else {
            trail
        },
        e.fault is None ==> trail.len() == n,
{
    if e.fault is None {
        let longer = trail.push(next);
        lemma_trail_front(trail, next, trail.len());
        assert(calls_of(longer, longer.len()) =~= e.calls + next.calls);
        assert(retired_in(longer, longer.len()) =~= e.retired + next.retired);
        assert forall|i: int| 0 <= i < longer.len() - 1 implies (
        #[trigger] longer[i]).fault is None by {
            assert(longer[i] == trail[i]);
        }
        longer
    } else {
        trail
    }
}

proof fn lemma_no_step(m: LoaderModel, e: Effect)
    requires
        e.model == m,
        e.calls.len() == 0,
        e.retired.len() == 0,
        e.fault is None,
    ensures
        sums_up(m, Seq::empty(), e, 0),
{
    assert(e.calls =~= Seq::empty());
    assert(e.retired =~= Seq::empty());
}

/// What each step of a trail does, each step of a longer one does too.
proof fn lemma_steps_go_on(
    m: LoaderModel,
    trail: Seq<Effect>,
    e: Effect,
    n: nat,
    next: Effect,
    step: spec_fn(LoaderModel, Effect, int) -> bool,
)
    requires
        sums_up(m, trail, e, n),
        forall|i: int| 0 <= i < trail.len() ==> step(at_step(m, trail, i), #[trigger] trail[i], i),
        e.fault is None ==> step(e.model, next, n as int),
    ensures
        ({
            let longer = if e.fault is None {
                trail.push(next)
            } else {
                trail
            };
            forall|i: int|
                0 <= i < longer.len() ==> step(at_step(m, longer, i), #[trigger] longer[i], i)
        }),
{
    if e.fault is None {
        let longer = trail.push(next);
        assert forall|i: int| 0 <= i < longer.len() implies step(
            at_step(m, longer, i),
            #[trigger] longer[i],
            i,
        ) by {
            if i < trail.len() {
                assert(longer[i] == trail[i]);
                assert(at_step(m, longer, i) == at_step(m, trail, i));
            }
        }
    }
}

// ----- advancing the loads

/// Whether the loads `order` are advanced on `trail`, one after the other.
pub open spec fn loads_advance(m: LoaderModel, trail: Seq<Effect>, order: Seq<u64>) -> bool {
    forall|i: int|
        0 <= i < trail.len() ==> advances(at_step(m, trail, i), #[trigger] trail[i], order[i])
}

proof fn lemma_walk_trail(m: LoaderModel, order: Seq<u64>) -> (trail: Seq<Effect>)
    ensures
        sums_up(m, trail, m.walk(order), order.len()),
        loads_advance(m, trail, order),
    decreases order.len(),
{
    if order.len() == 0 {
        lemma_no_step(m, m.walk(order));
        Seq::empty()
    } else {
        let front = order.drop_last();
        let before = lemma_walk_trail(m, front);
        let e = m.walk(front);
        let next = e.model.advance(order.last());
        law_advancing_a_load(e.model, order.last());
        let trail = lemma_one_more_step(m, before, e, front.len(), next);
        let step = |b: LoaderModel, s: Effect, i: int| advances(b, s, order[i]);
        lemma_steps_go_on(m, before, e, front.len(), next, step);
        trail
    }
}

/// Whether `order` names each load of `m` once, and nothing else.
pub open spec fn names_each_load_once(m: LoaderModel, order: Seq<u64>) -> bool {
    &&& forall|i: int, j: int|
        0 <= i < j < order.len() ==> #[trigger] order[i] != #[trigger] order[j]
    &&& forall|i: int| 0 <= i < order.len() ==> m.loads.contains_key(#[trigger] order[i])
    &&& forall|h: u64| #[trigger]
        m.loads.contains_key(h) ==> exists|i: int| 0 <= i < order.len() && order[i] == h
}

/// Whether `n` is `m` without the loads `retired`.
pub open spec fn without_loads(m: LoaderModel, n: LoaderModel, retired: Seq<u64>) -> bool {
    &&& n.next_handle == m.next_handle
    &&& n.handles == m.handles
    &&& n.metadata == m.metadata
    &&& n.pending_reloads == m.pending_reloads
    &&& n.reports == m.reports
    &&& n.connected == m.connected
    &&& n.polls == m.polls
    &&& forall|h: u64| #[trigger]
        n.loads.contains_key(h) <==> m.loads.contains_key(h) && !retired.contains(h)
    &&& forall|h: u64| #[trigger] n.loads.contains_key(h) ==> n.loads[h] == m.loads[h]
}

/// Whether `e` is what a pass over the loads `order` does: each of them is advanced once, and those
/// that are given up on the way are removed at the end.
pub open spec fn passes_over(m: LoaderModel, e: Effect, order: Seq<u64>) -> bool {
    exists|trail: Seq<Effect>, walked: Effect|
        {
            &&& #[trigger] sums_up(m, trail, walked, order.len())
            &&& loads_advance(m, trail, order)
            &&& e.calls == walked.calls
            &&& e.fault == walked.fault
            &&& if walked.fault is None {
                without_loads(walked.model, e.model, walked.retired)
            } else {
                e.model == walked.model
            }
        }
}

/// A pass advances each load once and removes those that are given up.
pub proof fn law_passing_over_loads(m: LoaderModel, order: Seq<u64>)
    ensures
        passes_over(m, m.advance_all(order), order),
{
    let trail = lemma_walk_trail(m, order);
    let walked = m.walk(order);
    let e = m.advance_all(order);
    assert(e.calls =~= walked.calls);
    if walked.fault is None {
        assert forall|h: u64| #[trigger]
            e.model.loads.contains_key(h) <==> walked.model.loads.contains_key(h)
                && !walked.retired.contains(h) by {
            assert(walked.retired.to_set().contains(h) <==> walked.retired.contains(h));
        }
    }
    assert(sums_up(m, trail, walked, order.len()));
}

// ----- reports

/// `m` once it has asked for a report and got `answer`.
pub open spec fn having_asked(m: LoaderModel, answer: Option<HandleOp>) -> LoaderModel {
    LoaderModel { polls: m.polls.push(answer), ..m }
}

/// Whether the reports `ops` are asked for and followed on `trail`, one after the other.
pub open spec fn reports_followed(m: LoaderModel, trail: Seq<Effect>, ops: Seq<HandleOp>) -> bool {
    forall|i: int|
        0 <= i < trail.len() ==> is_reported(
            having_asked(at_step(m, trail, i), Some(ops[i])),
            #[trigger] trail[i],
            ops[i],
        )
}

proof fn lemma_reports_trail(m: LoaderModel, ops: Seq<HandleOp>) -> (trail: Seq<Effect>)
    ensures
        sums_up(m, trail, m.apply_ops(ops), ops.len()),
        reports_followed(m, trail, ops),
    decreases ops.len(),
{
    if ops.len() == 0 {
        lemma_no_step(m, m.apply_ops(ops));
        Seq::empty()
    } else {
        let front = ops.drop_last();
        let before = lemma_reports_trail(m, front);
        let e = m.apply_ops(front);
        let asked = e.model.polled(Some(ops.last()));
        let next = asked.apply_op(ops.last());
        law_following_a_report(asked, ops.last());
        let trail = lemma_one_more_step(m, before, e, front.len(), next);
        let step = |b: LoaderModel, s: Effect, i: int|
            is_reported(having_asked(b, Some(ops[i])), s, ops[i]);
        lemma_steps_go_on(m, before, e, front.len(), next, step);
        trail
    }
}

/// Whether `e` is what following the reports of the engine does, if `ops` are those that come: each
/// is followed in turn, and unless one of them stops the loader, it asks until nothing comes, or
/// until it has asked as often as 64 bits can count.
pub open spec fn follows_reports(m: LoaderModel, e: Effect, ops: Seq<HandleOp>) -> bool {
    exists|trail: Seq<Effect>, followed: Effect|
        {
            &&& #[trigger] sums_up(m, trail, followed, ops.len())
            &&& reports_followed(m, trail, ops)
            &&& e.calls == followed.calls
            &&& e.fault == followed.fault
            &&& e.model == if followed.fault is None && ops.len() < u64::MAX {
                having_asked(followed.model, None)
            } else {
                followed.model
            }
        }
}

/// The reports of the engine are followed, each in turn.
pub proof fn law_following_reports(m: LoaderModel, ops: Seq<HandleOp>)
    ensures
        follows_reports(m, m.follow_ops(ops), ops),
{
    let trail = lemma_reports_trail(m, ops);
    let followed = m.apply_ops(ops);
    assert(m.follow_ops(ops).calls =~= followed.calls);
    assert(sums_up(m, trail, followed, ops.len()));
}

// ----- changes and reloads

/// Whether `models` lead from one of the changed assets `ids` to the next.
pub open spec fn changes_noted(models: Seq<LoaderModel>, ids: Seq<AssetUuid>) -> bool {
    &&& models.len() == ids.len() + 1
    &&& forall|i: int| 0 <= i < ids.len() ==> #[trigger] change_noted_at(models, ids, i)
}

/// Whether the change of the asset number `i` is noted between one model and the next.
pub open spec fn change_noted_at(models: Seq<LoaderModel>, ids: Seq<AssetUuid>, i: int) -> bool {
    change_is_noted(models[i], models[i + 1], ids[i])
}

/// Whether `models` lead from one of the deleted assets `ids` to the next.
pub open spec fn deletions_noted(models: Seq<LoaderModel>, ids: Seq<AssetUuid>) -> bool {
    &&& models.len() == ids.len() + 1
    &&& forall|i: int| 0 <= i < ids.len() ==> #[trigger] deletion_noted_at(models, ids, i)
}

/// Whether the deletion of the asset number `i` is noted between one model and the next.
pub open spec fn deletion_noted_at(models: Seq<LoaderModel>, ids: Seq<AssetUuid>, i: int) -> bool {
    deletion_is_noted(models[i], models[i + 1], ids[i])
}

/// Each changed asset is noted, in turn.
pub proof fn law_noting_changes(m: LoaderModel, ids: Seq<AssetUuid>) -> (models: Seq<LoaderModel>)
    ensures
        changes_noted(models, ids),
        models[0] == m,
        models.last() == m.note_changes(ids),
    decreases ids.len(),
{
    if ids.len() == 0 {
        seq![m]
    } else {
        let front = ids.drop_last();
        let before = law_noting_changes(m, front);
        let models = before.push(m.note_changes(ids));
        law_noting_a_change(m.note_changes(front), ids.last());
        assert forall|i: int| 0 <= i < ids.len() implies #[trigger] change_noted_at(
            models,
            ids,
            i,
        ) by {
            if i < front.len() {
                assert(change_noted_at(before, front, i));
                assert(models[i] == before[i] && models[i + 1] == before[i + 1]);
            } else {
                assert(models[i] == m.note_changes(front));
            }
        }
        models
    }
}

/// Each deleted asset is noted, in turn.
pub proof fn law_noting_deletions(m: LoaderModel, ids: Seq<AssetUuid>) -> (models: Seq<
    LoaderModel,
>)
    ensures
        deletions_noted(models, ids),
        models[0] == m,
        models.last() == m.note_deletions(ids),
    decreases ids.len(),
{
    if ids.len() == 0 {
        seq![m]
    } else {
        let front = ids.drop_last();
        let before = law_noting_deletions(m, front);
        let models = before.push(m.note_deletions(ids));
        law_noting_a_deletion(m.note_deletions(front), ids.last());
        assert forall|i: int| 0 <= i < ids.len() implies #[trigger] deletion_noted_at(
            models,
            ids,
            i,
        ) by {
            if i < front.len() {
                assert(deletion_noted_at(before, front, i));
                assert(models[i] == before[i] && models[i + 1] == before[i + 1]);
            } else {
                assert(models[i] == m.note_deletions(front));
            }
        }
        models
    }
}

/// Whether the finished reloads `reloads` are committed on `trail`, one after the other.
pub open spec fn reloads_committed(
    m: LoaderModel,
    trail: Seq<Effect>,
    reloads: Seq<PendingReload>,
) -> bool {
    forall|i: int|
        0 <= i < trail.len() ==> reload_is_committed(
            at_step(m, trail, i),
            #[trigger] trail[i],
            reloads[i],
        )
}

proof fn lemma_commits_trail(m: LoaderModel, reloads: Seq<PendingReload>) -> (trail: Seq<Effect>)
    ensures
        sums_up(m, trail, m.commit_reloads(reloads), reloads.len()),
        reloads_committed(m, trail, reloads),
    decreases reloads.len(),
{
    if reloads.len() == 0 {
        lemma_no_step(m, m.commit_reloads(reloads));
        Seq::empty()
    } else {
        let front = reloads.drop_last();
        let before = lemma_commits_trail(m, front);
        let e = m.commit_reloads(front);
        let next = e.model.commit_reload(reloads.last());
        law_committing_a_reload(e.model, reloads.last());
        let trail = lemma_one_more_step(m, before, e, front.len(), next);
        let step = |b: LoaderModel, s: Effect, i: int| reload_is_committed(b, s, reloads[i]);
        lemma_steps_go_on(m, before, e, front.len(), next, step);
        trail
    }
}

/// Whether the reload number `i` is the first of `reloads` that is not finished.
pub open spec fn first_unfinished(m: LoaderModel, reloads: Seq<PendingReload>, i: int) -> bool {
    &&& 0 <= i < reloads.len()
    &&& !reload_is_finished(m, reloads[i])
    &&& forall|j: int| 0 <= j < i ==> reload_is_finished(m, #[trigger] reloads[j])
}

/// How far several reloads have come is how far the first has come that is not finished.
proof fn lemma_progress(m: LoaderModel, reloads: Seq<PendingReload>)
    ensures
        m.progress_of_all(reloads) is Finished <==> forall|i: int|
            0 <= i < reloads.len() ==> reload_is_finished(m, #[trigger] reloads[i]),
        !(m.progress_of_all(reloads) is Finished) ==> exists|i: int| #[trigger]
            first_unfinished(m, reloads, i) && m.progress_of_all(reloads) == m.progress(reloads[i]),
    decreases reloads.len(),
{
    if reloads.len() > 0 {
        let front = reloads.drop_last();
        let last = reloads.len() - 1;
        lemma_progress(m, front);
        law_when_a_reload_is_finished(m, reloads.last());
        assert(reloads[last] == reloads.last());
        assert forall|i: int| 0 <= i < last implies reload_is_finished(m, #[trigger] reloads[i])
            == reload_is_finished(m, front[i]) by {
            assert(front[i] == reloads[i]);
        }
        if m.progress_of_all(front) is Finished {
            assert forall|i: int| 0 <= i < last implies reload_is_finished(
                m,
                #[trigger] reloads[i],
            ) by {
                assert(reload_is_finished(m, front[i]));
            }
            if !(m.progress(reloads.last()) is Finished) {
                assert(first_unfinished(m, reloads, last));
            }
        } else {
            let i = choose|i: int| #[trigger]
                first_unfinished(m, front, i) && m.progress_of_all(front) == m.progress(front[i]);
            assert(front[i] == reloads[i]);
            assert forall|j: int| 0 <= j < i implies reload_is_finished(
                m,
                #[trigger] reloads[j],
            ) by {
                assert(front[j] == reloads[j]);
            }
            assert(first_unfinished(m, reloads, i));
        }
    }
}

/// Whether `e` is what going on with the pending reloads does. As soon as all of them are finished,
/// all are committed, in their order, and none is pending any more. Until then nothing happens,
/// unless the first that is not finished cannot be judged.
pub open spec fn goes_on_with_reloads(m: LoaderModel, e: Effect) -> bool {
    let reloads = m.pending_reloads;
    if forall|i: int| 0 <= i < reloads.len() ==> reload_is_finished(m, #[trigger] reloads[i]) {
        exists|trail: Seq<Effect>, committed: Effect|
            {
                &&& #[trigger] sums_up(m, trail, committed, reloads.len())
                &&& reloads_committed(m, trail, reloads)
                &&& e.calls == committed.calls
                &&& e.fault == committed.fault
                &&& e.model == if committed.fault is None {
                    LoaderModel { pending_reloads: Seq::empty(), ..committed.model }
                } else {
                    committed.model
                }
            }
    } else {
        &&& e.model == m
        &&& e.calls.len() == 0
        &&& exists|i: int| #[trigger]
            first_unfinished(m, reloads, i) && e.fault == if reload_has_no_version(m, reloads[i]) {
                Some(Fault::MissingVersion(reloads[i].asset_id))
            } else {
                None
            }
    }
}

/// Pending reloads are committed together as soon as all are finished.
pub proof fn law_going_on_with_reloads(m: LoaderModel)
    ensures
        goes_on_with_reloads(m, m.finish_reloads()),
{
    let reloads = m.pending_reloads;
    let e = m.finish_reloads();
    lemma_progress(m, reloads);
    if m.progress_of_all(reloads) is Finished {
        let trail = lemma_commits_trail(m, reloads);
        let committed = m.commit_reloads(reloads);
        assert(e.calls =~= committed.calls);
        assert(sums_up(m, trail, committed, reloads.len()));
    } else {
        let i = choose|i: int| #[trigger]
            first_unfinished(m, reloads, i) && m.progress_of_all(reloads) == m.progress(
                reloads[i],
            );
        law_when_a_reload_is_finished(m, reloads[i]);
        assert(first_unfinished(m, reloads, i));
    }
}

/// Whether `e` is what following the daemon's word on changed and deleted assets does: while
/// reloads are pending, it goes on with these; otherwise each changed asset is noted, and then each
/// deleted one.
pub open spec fn follows_changes(m: LoaderModel, e: Effect, changes: Option<ChangeSet>) -> bool {
    if m.pending_reloads.len() > 0 {
        goes_on_with_reloads(m, e)
    } else {
        &&& e.calls.len() == 0
        &&& e.fault is None
        &&& match changes {
            None => e.model == m,
            Some(set) => exists|models: Seq<LoaderModel>, more: Seq<LoaderModel>|
                {
                    &&& #[trigger] changes_noted(models, set.changed)
                    &&& models[0] == m
                    &&& #[trigger] deletions_noted(more, set.deleted)
                    &&& more[0] == models.last()
                    &&& e.model == more.last()
                },
        }
    }
}

/// The daemon's word on changed and deleted assets is followed.
pub proof fn law_following_changes(m: LoaderModel, changes: Option<ChangeSet>)
    ensures
        follows_changes(m, m.process_changes(changes), changes),
{
    if m.pending_reloads.len() > 0 {
        law_going_on_with_reloads(m);
    } else if changes is Some {
        let set = changes->0;
        let models = law_noting_changes(m, set.changed);
        let more = law_noting_deletions(m.note_changes(set.changed), set.deleted);
        assert(changes_noted(models, set.changed) && deletions_noted(more, set.deleted));
    }
}

// ----- answers with metadata

/// Whether `models` lead from one of `records` to the next, each followed as it stands.
pub open spec fn records_lead(models: Seq<LoaderModel>, records: Seq<AssetRecord>) -> bool {
    forall|i: int| 0 <= i < models.len() - 1 ==> #[trigger] record_leads(models, records, i)
}

/// Whether the record number `i` leads from one model to the next.
pub open spec fn record_leads(
    models: Seq<LoaderModel>,
    records: Seq<AssetRecord>,
    i: int,
) -> bool {
    record_is_followed(
        models[i],
        Ok::<LoaderModel, (LoaderModel, Failure)>(models[i + 1]),
        records[i],
    )
}

/// Whether `done` is what following `records` does over `models`: each in turn, up to the first
/// that cannot be followed.
pub open spec fn records_are_followed(
    models: Seq<LoaderModel>,
    done: Result<LoaderModel, (LoaderModel, Failure)>,
    records: Seq<AssetRecord>,
) -> bool {
    &&& models.len() > 0
    &&& models.len() <= records.len() + 1
    &&& records_lead(models, records)
    &&& match done {
        Ok(n) => models.len() == records.len() + 1 && n == models.last(),
        Err(_) => models.len() <= records.len() && record_is_followed(
            models.last(),
            done,
            records[models.len() - 1],
        ),
    }
}

/// Records are followed one after the other.
pub proof fn law_following_records(m: LoaderModel, records: Seq<AssetRecord>) -> (models: Seq<
    LoaderModel,
>)
    ensures
        models[0] == m,
        records_are_followed(models, m.receive_records(records), records),
    decreases records.len(),
{
    if records.len() == 0 {
        seq![m]
    } else {
        let front = records.drop_last();
        let before = law_following_records(m, front);
        let last = records.last();
        assert forall|i: int| 0 <= i < before.len() - 1 implies #[trigger] record_leads(
            before,
            records,
            i,
        ) by {
            assert(record_leads(before, front, i));
            assert(front[i] == records[i]);
        }
        match m.receive_records(front) {
            Err(_) => {
                assert(front[before.len() - 1] == records[before.len() - 1]);
                before
            },
            Ok(n) => {
                law_following_a_record(n, last);
                match n.receive_record(last) {
                    Err(_) => before,
                    Ok(next) => {
                        let models = before.push(next);
                        assert forall|i: int| 0 <= i < models.len() - 1 implies #[trigger]
                            record_leads(models, records, i) by {
                            if i < before.len() - 1 {
                                assert(record_leads(before, records, i));
                                assert(models[i] == before[i] && models[i + 1] == before[i + 1]);
                            } else {
                                assert(models[i] == n);
                            }
                        }
                        models
                    },
                }
            },
        }
    }
}

/// Whether the loads `requested` have to ask again on `trail`, one after the other, those that
/// still wait.
pub open spec fn loads_ask_again(
    m: LoaderModel,
    trail: Seq<Effect>,
    requested: Seq<(AssetUuid, LoadHandle)>,
) -> bool {
    forall|i: int|
        0 <= i < trail.len() ==> has_to_ask_again(
            at_step(m, trail, i),
            #[trigger] trail[i],
            requested[i].1.0,
        )
}

proof fn lemma_ask_again_trail(
    m: LoaderModel,
    requested: Seq<(AssetUuid, LoadHandle)>,
) -> (trail: Seq<Effect>)
    ensures
        sums_up(m, trail, m.ask_again_all(requested), requested.len()),
        loads_ask_again(m, trail, requested),
    decreases requested.len(),
{
    if requested.len() == 0 {
        lemma_no_step(m, m.ask_again_all(requested));
        Seq::empty()
    } else {
        let front = requested.drop_last();
        let before = lemma_ask_again_trail(m, front);
        let e = m.ask_again_all(front);
        let next = e.model.ask_again(requested.last().1.0);
        law_asking_again(e.model, requested.last().1.0);
        let trail = lemma_one_more_step(m, before, e, front.len(), next);
        let step = |b: LoaderModel, s: Effect, i: int| has_to_ask_again(b, s, requested[i].1.0);
        lemma_steps_go_on(m, before, e, front.len(), next, step);
        trail
    }
}

/// Whether `told` is what is left of `m` when the records in `answer` have been followed, readable
/// or not, and `stopped` says what stops the loader, if anything does.
pub open spec fn is_told(
    m: LoaderModel,
    told: LoaderModel,
    stopped: Option<Fault>,
    answer: Option<MetadataResponse>,
) -> bool {
    if answer is Some && answer->0.assets is Ok {
        let records = answer->0.assets->Ok_0@;
        exists|models: Seq<LoaderModel>, done: Result<LoaderModel, (LoaderModel, Failure)>|
            {
                &&& #[trigger] records_are_followed(models, done, records)
                &&& models[0] == m
                &&& match done {
                    Ok(n) => told == n && stopped is None,
                    Err((n, Failure::Fault(fault))) => told == n && stopped == Some(fault),
                    Err((n, _)) => told == n && stopped is None,
                }
            }
    } else {
        told == m && stopped is None
    }
}

/// Whether `e` is what the answer to a request for the metadata of `requested` does: what it says
/// is noted, as far as it can be read, and those of `requested` that still wait have to ask again.
pub open spec fn metadata_is_followed(
    m: LoaderModel,
    e: Effect,
    answer: Option<MetadataResponse>,
    requested: Seq<(AssetUuid, LoadHandle)>,
) -> bool {
    exists|told: LoaderModel, stopped: Option<Fault>|
        {
            &&& #[trigger] is_told(m, told, stopped, answer)
            &&& match stopped {
                Some(fault) => {
                    &&& e.model == told
                    &&& e.calls.len() == 0
                    &&& e.retired.len() == 0
                    &&& e.fault == Some(fault)
                },
                None => exists|trail: Seq<Effect>| #[trigger]
                    sums_up(told, trail, e, requested.len()) && loads_ask_again(
                        told,
                        trail,
                        requested,
                    ),
            }
        }
}

/// An answer with metadata is followed.
pub proof fn law_following_an_answer_with_metadata(
    m: LoaderModel,
    answer: Option<MetadataResponse>,
    requested: Seq<(AssetUuid, LoadHandle)>,
)
    ensures
        metadata_is_followed(m, m.settle_metadata(answer, requested), answer, requested),
{
    let e = m.settle_metadata(answer, requested);
    if answer is Some && answer->0.assets is Ok {
        let records = answer->0.assets->Ok_0@;
        let models = law_following_records(m, records);
        let done = m.receive_records(records);
        assert(records_are_followed(models, done, records));
        match done {
            Ok(n) => {
                assert(is_told(m, n, None, answer));
                let trail = lemma_ask_again_trail(n, requested);
                assert(sums_up(n, trail, e, requested.len()));
            },
            Err((n, Failure::Fault(fault))) => {
                assert(is_told(m, n, Some(fault), answer));
            },
            Err((n, _)) => {
                assert(is_told(m, n, None, answer));
                let trail = lemma_ask_again_trail(n, requested);
                assert(sums_up(n, trail, e, requested.len()));
            },
        }
    } else {
        assert(is_told(m, m, None, answer));
        let trail = lemma_ask_again_trail(m, requested);
        assert(sums_up(m, trail, e, requested.len()));
    }
}

/// What came of a request for metadata, and what was requested.
pub type ToldOf = (Option<MetadataResponse>, Vec<(AssetUuid, LoadHandle)>);

/// Whether the answers `settled` are followed on `trail`, one after the other.
pub open spec fn all_metadata_followed(
    m: LoaderModel,
    trail: Seq<Effect>,
    settled: Seq<ToldOf>,
) -> bool {
    forall|i: int|
        0 <= i < trail.len() ==> metadata_is_followed(
            at_step(m, trail, i),
            #[trigger] trail[i],
            settled[i].0,
            settled[i].1@,
        )
}

/// Answers with metadata are followed one after the other.
pub proof fn law_following_answers_with_metadata(m: LoaderModel, settled: Seq<ToldOf>) -> (trail:
    Seq<Effect>)
    ensures
        sums_up(m, trail, m.settle_all_metadata(settled), settled.len()),
        all_metadata_followed(m, trail, settled),
    decreases settled.len(),
{
    if settled.len() == 0 {
        lemma_no_step(m, m.settle_all_metadata(settled));
        Seq::empty()
    } else {
        let front = settled.drop_last();
        let before = law_following_answers_with_metadata(m, front);
        let e = m.settle_all_metadata(front);
        let last = settled.last();
        let next = e.model.settle_metadata(last.0, last.1@);
        law_following_an_answer_with_metadata(e.model, last.0, last.1@);
        let trail = lemma_one_more_step(m, before, e, front.len(), next);
        let step = |b: LoaderModel, s: Effect, i: int|
            metadata_is_followed(b, s, settled[i].0, settled[i].1@);
        lemma_steps_go_on(m, before, e, front.len(), next, step);
        trail
    }
}

/// Whether `list` names each load of `m` whose state is one of `states` once, with its asset, and
/// nothing else.
pub open spec fn names_loads_in(
    m: LoaderModel,
    list: Seq<(AssetUuid, LoadHandle)>,
    states: Set<LoadState>,
) -> bool {
    &&& forall|i: int, j: int| 0 <= i < j < list.len() ==> #[trigger] list[i] != #[trigger] list[j]
    &&& forall|i: int|
        0 <= i < list.len() ==> {
            let (id, handle) = #[trigger] list[i];
            &&& m.loads.contains_key(handle.0)
            &&& states.contains(m.loads[handle.0].state)
            &&& m.loads[handle.0].asset_id == id
        }
    &&& forall|h: u64| #[trigger]
        m.loads.contains_key(h) && states.contains(m.loads[h].state) ==> exists|i: int|
            0 <= i < list.len() && list[i] == (m.loads[h].asset_id, LoadHandle(h))
}

/// Whether `n` is `m` with each load in the state that `next` gives for its state, and nothing else
/// changed.
pub open spec fn states_change(
    m: LoaderModel,
    n: LoaderModel,
    next: spec_fn(LoadState) -> LoadState,
) -> bool {
    &&& n.next_handle == m.next_handle
    &&& n.handles == m.handles
    &&& n.metadata == m.metadata
    &&& n.pending_reloads == m.pending_reloads
    &&& n.reports == m.reports
    &&& n.connected == m.connected
    &&& n.polls == m.polls
    &&& n.loads.dom() == m.loads.dom()
    &&& forall|h: u64| #[trigger]
        m.loads.contains_key(h) ==> n.loads[h] == (AssetLoad {
            state: next(m.loads[h].state),
            ..m.loads[h]
        })
}

/// The states in which metadata has to be requested.
pub open spec fn waiting_for_metadata() -> Set<LoadState> {
    set![LoadState::WaitingForMetadata]
}

/// The states in which data has to be requested.
pub open spec fn waiting_for_data() -> Set<LoadState> {
    set![
        LoadState::LoadingAsset(AssetLoadState::WaitingForData),
        LoadState::Loaded(AssetLoadState::WaitingForData),
    ]
}

/// The state of a load once metadata is requested.
pub open spec fn metadata_requested() -> spec_fn(LoadState) -> LoadState {
    |state: LoadState|
        if state is WaitingForMetadata {
            LoadState::RequestingMetadata
        } else {
            state
        }
}

/// The state of a load once data is requested.
pub open spec fn data_requested() -> spec_fn(LoadState) -> LoadState {
    |state: LoadState|
        if state == LoadState::LoadingAsset(AssetLoadState::WaitingForData) {
            LoadState::LoadingAsset(AssetLoadState::RequestingData)
        } else if state == LoadState::Loaded(AssetLoadState::WaitingForData) {
            LoadState::Loaded(AssetLoadState::RequestingData)
        } else {
            state
        }
}

/// Requesting metadata and data marks the loads that wait for it, and no others.
pub proof fn law_requesting(m: LoaderModel)
    ensures
        states_change(m, m.requesting_all_metadata(), metadata_requested()),
        states_change(m, m.requesting_all_data(), data_requested()),
{
    assert(m.requesting_all_metadata().loads.dom() =~= m.loads.dom());
    assert(m.requesting_all_data().loads.dom() =~= m.loads.dom());
}

/// What is listed is what waits.
pub proof fn lemma_listed_loads(
    m: LoaderModel,
    list: Seq<(AssetUuid, LoadHandle)>,
    needed: spec_fn(u64) -> bool,
    states: Set<LoadState>,
)
    requires
        lists_exactly(list, m, needed),
        forall|h: u64| #[trigger]
            needed(h) <==> m.loads.contains_key(h) && states.contains(m.loads[h].state),
    ensures
        names_loads_in(m, list, states),
{
    assert forall|i: int| 0 <= i < list.len() implies {
        let (id, handle) = #[trigger] list[i];
        &&& m.loads.contains_key(handle.0)
        &&& states.contains(m.loads[handle.0].state)
        &&& m.loads[handle.0].asset_id == id
    } by {
        let (id, handle) = list[i];
        assert(list.contains((id, handle)));
        assert(needed(handle.0));
    }
    assert forall|h: u64| #[trigger]
        m.loads.contains_key(h) && states.contains(m.loads[h].state) implies exists|i: int|
        0 <= i < list.len() && list[i] == (m.loads[h].asset_id, LoadHandle(h)) by {
        assert(needed(LoadHandle(h).0));
        assert(list.contains((m.loads[h].asset_id, LoadHandle(h))));
    }
}

// ----- answers with data

/// Whether the storage took what a step handed it.
pub open spec fn was_taken(step: Effect) -> bool {
    step.calls.len() > 0 && step.calls[0] is Update && step.calls[0]->accepted
}

/// Whether the answers `settled` are followed on `trail`, one after the other.
pub open spec fn all_data_followed(
    m: LoaderModel,
    trail: Seq<Effect>,
    settled: Seq<(Option<DataResponse>, LoadHandle)>,
) -> bool {
    forall|i: int|
        0 <= i < trail.len() ==> answer_is_followed(
            at_step(m, trail, i),
            #[trigger] trail[i],
            settled[i].0,
            settled[i].1,
            was_taken(trail[i]),
        )
}

/// Answers with data are followed one after the other.
pub proof fn law_following_answers_with_data(
    m: LoaderModel,
    settled: Seq<(Option<DataResponse>, LoadHandle)>,
    accepted: Seq<bool>,
) -> (trail: Seq<Effect>)
    ensures
        sums_up(m, trail, m.settle_all_data(settled, accepted), settled.len()),
        all_data_followed(m, trail, settled),
    decreases settled.len(),
{
    if settled.len() == 0 {
        lemma_no_step(m, m.settle_all_data(settled, accepted));
        Seq::empty()
    } else {
        let front = settled.drop_last();
        let before = law_following_answers_with_data(m, front, accepted);
        let e = m.settle_all_data(front, accepted);
        let last = settled.last();
        let taken = accepted[e.calls.len() as int];
        let next = e.model.settle_data(last.0, last.1, taken);
        law_following_an_answer_with_data(e.model, last.0, last.1, taken);
        assert(answer_is_followed(e.model, next, last.0, last.1, was_taken(next)));
        let trail = lemma_one_more_step(m, before, e, front.len(), next);
        let step = |b: LoaderModel, s: Effect, i: int|
            answer_is_followed(b, s, settled[i].0, settled[i].1, was_taken(s));
        lemma_steps_go_on(m, before, e, front.len(), next, step);
        trail
    }
}

} // verus!
