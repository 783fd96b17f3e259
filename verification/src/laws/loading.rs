//! Loading over rounds: what is referenced becomes loaded, after all that it depends on.

use crate::channel::HandleOp;
use crate::fault::Failure;
use crate::ids::{AssetUuid, LoadHandle};
use crate::laws::account::{law_cycle_account, law_metadata_account, may_be_answered};
use crate::laws::coherence::coherent;
use crate::laws::flight::{handles_of, lemma_contains_add, lemma_divided, settled_handles};
use crate::laws::pass::lemma_walk_elsewhere;
use crate::laws::references::{
    law_add_refs_agree, lemma_add_refs_count, occurrences, tables_agree,
};
use crate::laws::round::{law_answers_sound, law_cycle_sound};
use crate::laws::rounds::{is_run, law_round_steady, law_run_steady, steady, Play, Round};
use crate::laws::tables::{
    after_records, dependency_count, dependency_total, law_apply_ops_agree,
    law_process_changes_agrees, law_settle_all_metadata_agrees, lemma_walk_agrees,
};
use crate::laws::unloading::{
    avoids, changes_avoid, lemma_note_changes_agrees, lemma_note_outside, lemma_release_outside,
    lemma_reported_metadata, ranked, same_on,
};
use crate::laws::waiting::names;
use crate::metadata::lemma_contains_push;
use crate::model::{is_order_of, new_load, ChangeSet, LoaderModel, PendingReload, StorageCall};
use crate::requests::settlements;
use crate::responses::{id_in, ids_in, AssetRecord, DataResponse, MetadataResponse};
use crate::rpc_loader::reported;
use crate::state::{AssetLoad, AssetLoadState, LoadState, LoadStatus};
use crate::walk::{lemma_add_refs_keep, lemma_release_silent};
use vstd::prelude::*;

verus! {

/// How far a load has come on its way to being loaded for the first time.
pub open spec fn place(load: AssetLoad) -> nat {
    match load.state {
        LoadState::Indeterminate => 0,
        LoadState::WaitingForMetadata => 1,
        LoadState::RequestingMetadata => 2,
        LoadState::RequestDependencies => 3,
        LoadState::WaitingForDependencies => 4,
        LoadState::LoadingAsset(AssetLoadState::WaitingForData) => 5,
        LoadState::LoadingAsset(AssetLoadState::RequestingData) => 6,
        LoadState::LoadingAsset(AssetLoadState::LoadingAsset) => 7,
        LoadState::Loaded(AssetLoadState::Loaded) => 8,
        _ => 9,
    }
}

/// Whether a load is referenced and on its way to being loaded for the first time, or loaded.
pub open spec fn wanted(load: AssetLoad) -> bool {
    &&& place(load) <= 8
    &&& load.refs > 0
    &&& load.auto_commit
    &&& !load.pending_reload
}

/// Whether the assets of `tree` are known as they are: each of them that was ever referenced has a
/// load that is wanted, what is known of their dependencies is `deps`, and a load that has
/// requested its dependencies has them.
pub open spec fn on_the_way(
    m: LoaderModel,
    tree: Seq<AssetUuid>,
    deps: Map<AssetUuid, Seq<AssetUuid>>,
) -> bool {
    forall|x: AssetUuid| #[trigger]
        tree.contains(x) ==> {
            &&& m.metadata.contains_key(x) ==> m.metadata[x] == deps[x]
            &&& m.handles.contains_key(x) ==> m.load_of(x) is Some && wanted(m.load_of(x)->0)
            &&& m.handles.contains_key(x) && place(m.load_of(x)->0) >= 4 ==> known_to(m, deps[x])
        }
}

/// Whether each of `ids` was referenced.
pub open spec fn known_to(m: LoaderModel, ids: Seq<AssetUuid>) -> bool {
    forall|i: int| 0 <= i < ids.len() ==> m.handles.contains_key(#[trigger] ids[i])
}

/// Whether the asset `x` is loaded.
pub open spec fn is_loaded(m: LoaderModel, x: AssetUuid) -> bool {
    m.load_of(x) matches Some(load) && load.state == LoadState::Loaded(AssetLoadState::Loaded)
}

/// Whether each of `ids` is loaded.
pub open spec fn all_loaded(m: LoaderModel, ids: Seq<AssetUuid>) -> bool {
    forall|i: int| 0 <= i < ids.len() ==> is_loaded(m, #[trigger] ids[i])
}

/// Whether no load that is about to be freed depends on an asset of `tree`.
pub open spec fn held_on_to(m: LoaderModel, tree: Seq<AssetUuid>) -> bool {
    forall|h: u64| #[trigger]
        m.loads.contains_key(h) && m.loads[h].state is UnloadRequested && m.metadata.contains_key(
            m.loads[h].asset_id,
        ) ==> avoids(m.metadata[m.loads[h].asset_id], tree)
}

/// Whether the references of the assets of `tree` can be counted, with `more` of them.
pub open spec fn countable(m: LoaderModel, tree: Seq<AssetUuid>, more: nat) -> bool {
    &&& more <= usize::MAX
    &&& forall|x: AssetUuid| #[trigger]
        tree.contains(x) && m.load_of(x) is Some ==> m.load_of(x)->0.refs + more <= usize::MAX
}

/// An asset occurs no more often than there are assets.
proof fn lemma_occurrences_bound(ids: Seq<AssetUuid>, id: AssetUuid)
    ensures
        occurrences(ids, id) <= ids.len(),
    decreases ids.len(),
{
    if ids.len() > 0 {
        lemma_occurrences_bound(ids.drop_last(), id);
    }
}

/// The assets that advancing the load `k` adds references to.
pub open spec fn referenced_by(m: LoaderModel, k: u64) -> Seq<AssetUuid> {
    if m.loads[k].state is RequestDependencies && m.metadata.contains_key(m.loads[k].asset_id) {
        m.metadata[m.loads[k].asset_id]
    } else {
        Seq::empty()
    }
}

/// The load of `x`, or a new one, with as many more references as `x` occurs in `ids`.
pub open spec fn with_more_refs(m: LoaderModel, ids: Seq<AssetUuid>, x: AssetUuid) -> AssetLoad {
    let load = match m.load_of(x) {
        Some(load) => load,
        None => new_load(x),
    };
    AssetLoad { refs: (load.refs + occurrences(ids, x)) as usize, ..load }
}

/// What advancing a load does to the loads of `tree`: no more than adding references, except that
/// the load that is advanced takes its step.
#[verifier::rlimit(40)]
pub proof fn lemma_step_on_tree(m: LoaderModel, k: u64, tree: Seq<AssetUuid>)
    requires
        tables_agree(m),
        m.loads.contains_key(k),
        m.next_handle + dependency_count(m, k) <= u64::MAX,
        m.advance(k).fault is None,
        countable(m, tree, dependency_count(m, k)),
        forall|x: AssetUuid| #[trigger]
            tree.contains(x) && m.handles.contains_key(x) ==> m.load_of(x) is Some,
        m.loads[k].state is UnloadRequested ==> !tree.contains(m.loads[k].asset_id) && (
        m.metadata.contains_key(m.loads[k].asset_id) ==> avoids(
            m.metadata[m.loads[k].asset_id],
            tree,
        )),
    ensures
        ({
            let e = m.advance(k);
            let y = m.loads[k].asset_id;
            let ids = referenced_by(m, k);
            &&& forall|x: AssetUuid| #[trigger]
                tree.contains(x) ==> {
                    &&& occurrences(ids, x) <= dependency_count(m, k)
                    &&& m.handles.contains_key(x) ==> e.model.handle(x) == m.handle(x)
                    &&& m.load_of(x) is None && occurrences(ids, x) == 0 ==> e.model.handle(x)
                        == m.handle(x) && e.model.load_of(x) is None
                    &&& (m.load_of(x) is Some || occurrences(ids, x) > 0) && x != y
                        ==> e.model.load_of(x) == Some(with_more_refs(m, ids, x))
                    &&& m.load_of(x) is None && e.model.handles.contains_key(x)
                        ==> e.model.handles[x] >= m.next_handle
                }
            &&& m.loads[k].state is RequestDependencies ==> m.metadata.contains_key(y) && known_to(
                e.model,
                m.metadata[y],
            )
            &&& tree.contains(y) && !m.loads[k].pending_reload ==> e.model.loads[k] == (AssetLoad {
                state: e.model.loads[k].state,
                refs: (m.loads[k].refs + occurrences(ids, y)) as usize,
                ..m.loads[k]
            })
            &&& e.model.next_handle >= m.next_handle
        }),
{
    let e = m.advance(k);
    let load = m.loads[k];
    let y = load.asset_id;
    let ids = referenced_by(m, k);
    assert(m.handles.contains_key(y) && m.handles[y] == k);
    assert forall|x: AssetUuid| #[trigger] tree.contains(x) && x != y && m.handles.contains_key(
        x,
    ) implies m.handles[x] != k by {}
    assert forall|x: AssetUuid| #[trigger] tree.contains(x) implies occurrences(ids, x)
        <= dependency_count(m, k) by {
        lemma_occurrences_bound(ids, x);
    }
    if load.state is RequestDependencies {
        let r = m.add_refs(ids);
        law_add_refs_agree(m, ids);
        lemma_add_refs_keep(m, ids, k);
        assert forall|x: AssetUuid| #[trigger] tree.contains(x) implies {
            &&& m.handles.contains_key(x) ==> e.model.handle(x) == m.handle(x)
            &&& m.load_of(x) is None && occurrences(ids, x) == 0 ==> e.model.handle(x) == m.handle(
                x,
            ) && e.model.load_of(x) is None
            &&& (m.load_of(x) is Some || occurrences(ids, x) > 0) && x != y
                ==> e.model.load_of(x) == Some(with_more_refs(m, ids, x))
            &&& m.load_of(x) is None && e.model.handles.contains_key(x) ==> e.model.handles[x]
                >= m.next_handle
            &&& x == y ==> r.loads[k] == with_more_refs(m, ids, x)
        } by {
            lemma_occurrences_bound(ids, x);
            lemma_add_refs_count(m, ids, x);
            if m.load_of(x) is None {
                lemma_new_handle(m, ids, x);
                if r.handles.contains_key(x) {
                    assert(k < m.next_handle);
                }
            } else if x != y {
                assert(r.handle(x) == m.handle(x));
            }
        }
        assert(known_to(e.model, ids));
        lemma_handles_go_up(m, ids);
    } else if load.state is UnloadRequested {
        let freed = m.free(k);
        assert(tables_agree(freed.model)) by {
            assert forall|j: u64| #[trigger] freed.model.loads.contains_key(j) implies
                freed.model.handles.contains_key(freed.model.loads[j].asset_id)
                && freed.model.handles[freed.model.loads[j].asset_id] == j by {
                assert(m.loads.contains_key(j));
            }
        }
        assert(m.metadata.contains_key(y));
        lemma_release_outside(freed.model, m.metadata[y], tree);
        lemma_release_handles(freed.model, m.metadata[y]);
        let released = freed.model.release(m.metadata[y]);
        assert forall|x: AssetUuid| #[trigger] tree.contains(x) implies {
            &&& e.model.handle(x) == m.handle(x)
            &&& e.model.load_of(x) == m.load_of(x)
        } by {
            assert(x != y);
            assert(released.model.load_of(x) == freed.model.load_of(x));
        }
    } else {
        assert(e.model.handles == m.handles);
    }
}

/// Handles are given out in ascending order.
proof fn lemma_handles_go_up(m: LoaderModel, ids: Seq<AssetUuid>)
    requires
        tables_agree(m),
        m.next_handle + ids.len() <= u64::MAX,
    ensures
        m.add_refs(ids).next_handle >= m.next_handle,
    decreases ids.len(),
{
    if ids.len() > 0 {
        lemma_handles_go_up(m, ids.drop_last());
        law_add_refs_agree(m, ids.drop_last());
    }
}

/// Releasing assets gives out no handles.
proof fn lemma_release_handles(m: LoaderModel, ids: Seq<AssetUuid>)
    ensures
        m.release(ids).model.next_handle == m.next_handle,
    decreases ids.len(),
{
    if ids.len() > 0 {
        lemma_release_handles(m, ids.drop_last());
    }
}

/// A handle that is given out on the way is a new one.
proof fn lemma_new_handle(m: LoaderModel, ids: Seq<AssetUuid>, x: AssetUuid)
    requires
        tables_agree(m),
        m.next_handle + ids.len() <= u64::MAX,
        !m.handles.contains_key(x),
    ensures
        m.add_refs(ids).handles.contains_key(x) ==> m.add_refs(ids).handles[x] >= m.next_handle,
    decreases ids.len(),
{
    if ids.len() > 0 {
        lemma_new_handle(m, ids.drop_last(), x);
        lemma_handles_go_up(m, ids.drop_last());
        law_add_refs_agree(m, ids.drop_last());
    }
}

/// What has become of the state `a` of a load of a tree when it was advanced: `b`.
pub open spec fn stepped(a: LoadState, b: LoadState, known: bool, ready: bool) -> bool {
    match a {
        LoadState::Indeterminate | LoadState::WaitingForMetadata => b == (if known {
            LoadState::RequestDependencies
        } else {
            LoadState::WaitingForMetadata
        }),
        LoadState::RequestDependencies => b is WaitingForDependencies,
        LoadState::WaitingForDependencies => {
            ||| b == LoadState::LoadingAsset(AssetLoadState::WaitingForData)
            ||| b == a && !ready
        },
        _ => b == a,
    }
}

/// What has become of the asset `x` of a tree on the way through a pass that began with `m`, when
/// the loads `done` have been advanced.
pub open spec fn progressed(
    m: LoaderModel,
    n: LoaderModel,
    done: Seq<u64>,
    deps: Map<AssetUuid, Seq<AssetUuid>>,
    x: AssetUuid,
) -> bool {
    let more = dependency_total(m, done);
    if m.handles.contains_key(x) {
        let h = m.handles[x];
        let a = m.loads[h];
        let b = n.loads[h];
        &&& n.handle(x) == m.handle(x)
        &&& n.loads.contains_key(h)
        &&& a.refs <= b.refs <= a.refs + more
        &&& b == (AssetLoad { refs: b.refs, state: b.state, ..a })
        &&& if done.contains(h) {
            &&& stepped(
                a.state,
                b.state,
                m.metadata.contains_key(x),
                all_loaded(m, deps[x]),
            )
            &&& a.state is RequestDependencies ==> known_to(n, deps[x])
        } else {
            b.state == a.state
        }
    } else if n.handles.contains_key(x) {
        let h = n.handles[x];
        &&& h >= m.next_handle
        &&& n.loads.contains_key(h)
        &&& n.loads[h] == (AssetLoad { refs: n.loads[h].refs, ..new_load(x) })
        &&& 0 < n.loads[h].refs <= more
    } else {
        true
    }
}

/// A pass over the loads, as far as the loads of `tree` go.
pub proof fn lemma_walk_progresses(
    m: LoaderModel,
    order: Seq<u64>,
    tree: Seq<AssetUuid>,
    deps: Map<AssetUuid, Seq<AssetUuid>>,
)
    requires
        tables_agree(m),
        order.no_duplicates(),
        forall|i: int| 0 <= i < order.len() ==> m.loads.contains_key(#[trigger] order[i]),
        m.next_handle + dependency_total(m, order) <= u64::MAX,
        m.walk(order).fault is None,
        on_the_way(m, tree, deps),
        held_on_to(m, tree),
        countable(m, tree, dependency_total(m, order)),
        forall|x: AssetUuid| #[trigger] tree.contains(x) ==> forall|i: int|
            0 <= i < deps[x].len() ==> tree.contains(#[trigger] deps[x][i]),
    ensures
        forall|x: AssetUuid| #[trigger]
            tree.contains(x) ==> progressed(m, m.walk(order).model, order, deps, x),
        forall|x: AssetUuid| #[trigger]
            tree.contains(x) && m.handles.contains_key(x) ==> !m.walk(order).retired.contains(
                m.handles[x],
            ),
        forall|h: u64| #[trigger] m.walk(order).retired.contains(h) ==> order.contains(h),
        forall|x: AssetUuid| #[trigger]
            m.handles.contains_key(x) ==> m.walk(order).model.handles.contains_key(x),
        m.walk(order).model.next_handle >= m.next_handle,
    decreases order.len(),
{
    if order.len() > 0 {
        let front = order.drop_last();
        let k = order.last();
        assert(order[order.len() - 1] == k);
        assert forall|i: int| 0 <= i < front.len() implies m.loads.contains_key(
            #[trigger] front[i],
        ) by {
            assert(front[i] == order[i]);
        }
        lemma_walk_progresses(m, front, tree, deps);
        lemma_walk_agrees(m, front);
        lemma_walk_agrees(m, order);
        let before = m.walk(front);
        let n = before.model;
        let next = n.advance(k);
        let e = m.walk(order);
        let more = dependency_total(m, front);
        assert(m.loads.contains_key(k));
        assert(dependency_count(n, k) == dependency_count(m, k));
        assert(front.push(k) =~= order);
        assert(!front.contains(k)) by {
            if front.contains(k) {
                let j = choose|j: int| 0 <= j < front.len() && front[j] == k;
                assert(order[j] == order[order.len() - 1]);
            }
        }
        let y = m.loads[k].asset_id;
        assert(n.loads[k].asset_id == y);
        assert(m.handles.contains_key(y) && m.handles[y] == k);
        assert(k < m.next_handle);
        lemma_state_until_turn(m, front, k);
        assert forall|x: AssetUuid| #[trigger] tree.contains(x) && n.handles.contains_key(
            x,
        ) implies n.load_of(x) is Some && n.load_of(x)->0.refs + dependency_count(m, k)
            <= usize::MAX by {
            assert(progressed(m, n, front, deps, x));
            if m.handles.contains_key(x) {
                assert(m.load_of(x) is Some);
            }
        }
        assert(countable(n, tree, dependency_count(n, k)));
        if tree.contains(y) {
            assert(progressed(m, n, front, deps, y));
            assert(wanted(m.load_of(y)->0));
        }
        lemma_step_on_tree(n, k, tree);
        let ids = referenced_by(n, k);
        assert forall|x: AssetUuid| #[trigger] tree.contains(x) implies progressed(
            m,
            e.model,
            order,
            deps,
            x,
        ) by {
            assert(progressed(m, n, front, deps, x));
            if m.handles.contains_key(x) {
                let h = m.handles[x];
                lemma_contains_push(front, k, h);
                assert(n.load_of(x) is Some);
                if x == y {
                    let a = m.loads[k];
                    let b = n.loads[k];
                    assert(wanted(a));
                    assert(b.state == a.state);
                    assert(e.model == next.model);
                    assert(n.metadata == m.metadata);
                    let c = e.model.loads[k];
                    assert(c == (AssetLoad { refs: c.refs, state: c.state, ..a }));
                    assert(a.refs <= c.refs <= a.refs + dependency_total(m, order));
                    if a.state is RequestDependencies {
                        assert(known_to(e.model, deps[x]));
                    }
                    if a.state is WaitingForDependencies {
                        assert(known_to(m, deps[x]));
                        if all_loaded(m, deps[x]) {
                            assert(n.metadata[y] == deps[y]);
                            assert forall|i: int| 0 <= i < deps[x].len() implies n.dependency_ready(
                                #[trigger] deps[x][i],
                            ) by {
                                let d = deps[x][i];
                                assert(tree.contains(d));
                                assert(is_loaded(m, d));
                                assert(progressed(m, n, front, deps, d));
                            }
                        }
                    }
                    assert(stepped(
                        a.state,
                        c.state,
                        m.metadata.contains_key(x),
                        all_loaded(m, deps[x]),
                    ));
                } else {
                    assert(h != k);
                    assert(e.model.load_of(x) == Some(with_more_refs(n, ids, x)));
                    if front.contains(h) && m.loads[h].state is RequestDependencies {
                        assert forall|i: int| 0 <= i < deps[x].len() implies e.model.handles.contains_key(
                            #[trigger] deps[x][i],
                        ) by {
                            assert(n.handles.contains_key(deps[x][i]));
                            assert(tree.contains(deps[x][i]));
                        }
                    }
                }
            } else if n.handles.contains_key(x) {
                assert(n.handles[x] != k);
                assert(x != y);
                assert(progressed(m, e.model, order, deps, x));
            } else {
                assert(progressed(m, e.model, order, deps, x));
            }
        }
        assert forall|x: AssetUuid| #[trigger]
            tree.contains(x) && m.handles.contains_key(x) implies !e.retired.contains(
            m.handles[x],
        ) by {
            lemma_contains_add(before.retired, next.retired, m.handles[x]);
            lemma_retires_itself(n, k);
            if next.retired.contains(m.handles[x]) {
                assert(m.handles[x] == k);
                if x != y {
                    assert(m.handles[x] != m.handles[y]);
                }
                assert(wanted(m.load_of(x)->0));
                assert(progressed(m, n, front, deps, x));
            }
        }
        assert forall|h: u64| #[trigger] e.retired.contains(h) implies order.contains(h) by {
            lemma_contains_add(before.retired, next.retired, h);
            lemma_retires_itself(n, k);
            lemma_contains_push(front, k, h);
        }
        assert forall|x: AssetUuid| #[trigger]
            m.handles.contains_key(x) implies e.model.handles.contains_key(x) by {
            assert(e.model.handle(x) == m.handle(x));
        }
    }
}

/// Advancing a load gives up no other load.
pub proof fn lemma_retires_itself(m: LoaderModel, k: u64)
    ensures
        forall|h: u64| #[trigger]
            m.advance(k).retired.contains(h) ==> h == k && m.loads.contains_key(k)
                && m.loads[k].state is Unloading,
{
    if m.loads.contains_key(k) && m.loads[k].state is UnloadRequested {
        let freed = m.free(k);
        lemma_release_silent(freed.model, m.metadata[m.loads[k].asset_id]);
        assert(m.advance(k).retired =~= Seq::empty());
    }
}

/// A load is where it was until it has its turn.
pub proof fn lemma_state_until_turn(m: LoaderModel, front: Seq<u64>, k: u64)
    requires
        tables_agree(m),
        forall|i: int| 0 <= i < front.len() ==> m.loads.contains_key(#[trigger] front[i]),
        m.next_handle + dependency_total(m, front) <= u64::MAX,
        m.loads.contains_key(k),
        !front.contains(k),
    ensures
        m.walk(front).model.loads.contains_key(k),
        m.walk(front).model.loads[k].state == m.loads[k].state,
        m.walk(front).model.loads[k].asset_id == m.loads[k].asset_id,
{
    lemma_walk_elsewhere(m, front, k);
}

/// What committing reloads does to loads that do not wait to be committed: nothing.
proof fn lemma_commit_reloads_spares(m: LoaderModel, reloads: Seq<PendingReload>)
    ensures
        m.commit_reloads(reloads).model.handles == m.handles,
        m.commit_reloads(reloads).model.loads.dom() == m.loads.dom(),
        forall|h: u64| #[trigger]
            m.loads.contains_key(h) && m.loads[h].state.sub_state() != Some(
                AssetLoadState::LoadedUncommitted,
            ) ==> m.commit_reloads(reloads).model.loads[h] == m.loads[h],
    decreases reloads.len(),
{
    if reloads.len() > 0 {
        let before = m.commit_reloads(reloads.drop_last()).model;
        let n = m.commit_reloads(reloads).model;
        lemma_commit_reloads_spares(m, reloads.drop_last());
        assert(n.loads.dom() =~= m.loads.dom());
        assert forall|h: u64| #[trigger]
            m.loads.contains_key(h) && m.loads[h].state.sub_state() != Some(
                AssetLoadState::LoadedUncommitted,
            ) implies n.loads[h] == m.loads[h] by {
            assert(before.loads[h] == m.loads[h]);
        }
    }
}

/// Following changes of other assets does not affect the loads of a tree that is on the way.
proof fn lemma_changes_spare(
    m: LoaderModel,
    changes: Option<ChangeSet>,
    tree: Seq<AssetUuid>,
    deps: Map<AssetUuid, Seq<AssetUuid>>,
)
    requires
        tables_agree(m),
        on_the_way(m, tree, deps),
        changes_avoid(changes, tree),
    ensures
        same_on(m, m.process_changes(changes).model, tree),
        m.process_changes(changes).model.handles == m.handles,
{
    lemma_commit_reloads_spares(m, m.pending_reloads);
    let c = m.commit_reloads(m.pending_reloads).model;
    if m.pending_reloads.len() > 0 {
        assert forall|x: AssetUuid| #[trigger] tree.contains(x) implies m.process_changes(
            changes,
        ).model.load_of(x) == m.load_of(x) by {
            if m.handles.contains_key(x) {
                assert(m.load_of(x) is Some && wanted(m.load_of(x)->0));
                assert(m.loads.contains_key(m.handles[x]));
                assert(c.loads[m.handles[x]] == m.loads[m.handles[x]]);
            }
        }
    } else if changes is Some {
        let set = changes->0;
        let noted = m.note_changes(set.changed);
        lemma_note_outside(m, set.changed, tree);
        lemma_note_changes_agrees(m, set.changed);
        lemma_note_outside(noted, set.deleted, tree);
        assert forall|x: AssetUuid| #[trigger] tree.contains(x) implies noted.note_deletions(
            set.deleted,
        ).load_of(x) == m.load_of(x) by {
            assert(noted.load_of(x) == m.load_of(x));
        }
    }
}

/// What the reports of the engine make of a load that is wanted: if the engine was handed its asset
/// and reports to have loaded it, it is loaded, and otherwise nothing happens to it.
proof fn lemma_reports_on(m: LoaderModel, ops: Seq<HandleOp>, h: u64)
    requires
        m.apply_ops(ops).fault is None,
        m.loads.contains_key(h),
        wanted(m.loads[h]),
    ensures
        ({
            let n = m.apply_ops(ops).model;
            let a = m.loads[h];
            let b = n.loads[h];
            &&& n.handles == m.handles
            &&& n.loads.dom() == m.loads.dom()
            &&& b == (AssetLoad { state: b.state, loaded_version: b.loaded_version, ..a })
            &&& if place(a) == 7 {
                &&& place(b) == 7 || place(b) == 8
                &&& ops.contains(HandleOp::LoadComplete(LoadHandle(h))) ==> place(b) == 8
            } else {
                b == a
            }
        }),
    decreases ops.len(),
{
    if ops.len() > 0 {
        let front = ops.drop_last();
        let last = ops.last();
        lemma_reports_on(m, front, h);
        assert(front.push(last) =~= ops);
        lemma_contains_push(front, last, HandleOp::LoadComplete(LoadHandle(h)));
        let before = m.apply_ops(front).model;
        let n = m.apply_ops(ops).model;
        assert(n.loads.dom() =~= m.loads.dom());
    }
}

/// The records in an answer to a request for metadata.
pub open spec fn records_in(answer: Option<MetadataResponse>) -> Seq<AssetRecord> {
    match answer {
        Some(response) => match response.assets {
            Ok(records) => records@,
            Err(_) => Seq::empty(),
        },
        None => Seq::empty(),
    }
}

/// Whether a record says `deps` of an asset of `tree`, if it is about one and can be read.
pub open spec fn true_to(
    record: AssetRecord,
    tree: Seq<AssetUuid>,
    deps: Map<AssetUuid, Seq<AssetUuid>>,
) -> bool {
    match (id_in(record.id), record.load_deps) {
        (Ok(id), Ok(parts)) => tree.contains(id) && ids_in(parts@) is Ok ==> ids_in(parts@)->Ok_0
            == deps[id],
        _ => true,
    }
}

/// Whether an answer to a request for metadata says `deps` of the assets of `tree`, as far as it is
/// about them and can be read.
pub open spec fn agrees(
    answer: Option<MetadataResponse>,
    tree: Seq<AssetUuid>,
    deps: Map<AssetUuid, Seq<AssetUuid>>,
) -> bool {
    forall|l: int|
        0 <= l < records_in(answer).len() ==> true_to(#[trigger] records_in(answer)[l], tree, deps)
}

/// Whether an answer to a request for metadata can be read, and says `deps` of the assets of
/// `tree`.
pub open spec fn tells(
    answer: Option<MetadataResponse>,
    tree: Seq<AssetUuid>,
    deps: Map<AssetUuid, Seq<AssetUuid>>,
) -> bool {
    &&& answer matches Some(response) && response.assets is Ok
    &&& forall|l: int|
        0 <= l < records_in(answer).len() ==> readable(#[trigger] records_in(answer)[l], tree, deps)
}

/// Whether a record can be read, and says `deps` of the assets of `tree`.
pub open spec fn readable(
    record: AssetRecord,
    tree: Seq<AssetUuid>,
    deps: Map<AssetUuid, Seq<AssetUuid>>,
) -> bool {
    &&& id_in(record.id) is Ok
    &&& record.load_deps matches Ok(parts) && ids_in(parts@) is Ok && (tree.contains(
        id_in(record.id)->Ok_0,
    ) ==> ids_in(parts@)->Ok_0 == deps[id_in(record.id)->Ok_0])
}

/// Whether `records` have one of the asset `x`.
pub open spec fn tell_of(records: Seq<AssetRecord>, x: AssetUuid) -> bool {
    exists|l: int| 0 <= l < records.len() && id_in((#[trigger] records[l]).id) == Ok::<
        AssetUuid,
        Failure,
    >(x)
}

/// Whether what is known of the dependencies of the assets of `tree` is `deps`.
pub open spec fn knows(
    m: LoaderModel,
    tree: Seq<AssetUuid>,
    deps: Map<AssetUuid, Seq<AssetUuid>>,
) -> bool {
    forall|x: AssetUuid| #[trigger]
        tree.contains(x) && m.metadata.contains_key(x) ==> m.metadata[x] == deps[x]
}

/// What may have become of the state `a` of a load when answers with metadata were followed: `b`.
/// If it waits for metadata it goes on to its dependencies, which it does for certain if it is
/// `told`.
pub open spec fn told_of(a: LoadState, b: LoadState, told: bool) -> bool {
    if a is RequestingMetadata {
        b is RequestDependencies || b == a && !told
    } else {
        b == a
    }
}

/// What records do to the load of an asset of `tree`.
proof fn lemma_records_on(
    m: LoaderModel,
    records: Seq<AssetRecord>,
    tree: Seq<AssetUuid>,
    deps: Map<AssetUuid, Seq<AssetUuid>>,
    x: AssetUuid,
)
    requires
        tables_agree(m),
        tree.contains(x),
        m.handles.contains_key(x) ==> m.load_of(x) is Some,
        knows(m, tree, deps),
        forall|l: int| 0 <= l < records.len() ==> true_to(#[trigger] records[l], tree, deps),
    ensures
        ({
            let n = after_records(m, records);
            let h = m.handles[x];
            &&& n.handles == m.handles
            &&& n.loads.dom() == m.loads.dom()
            &&& knows(n, tree, deps)
            &&& m.handles.contains_key(x) ==> n.loads[h] == (AssetLoad {
                state: n.loads[h].state,
                ..m.loads[h]
            }) && told_of(
                m.loads[h].state,
                n.loads[h].state,
                m.receive_records(records) is Ok && tell_of(records, x),
            )
        }),
    decreases records.len(),
{
    if records.len() > 0 {
        let front = records.drop_last();
        let last = records.last();
        assert(records[records.len() - 1] == last);
        assert forall|l: int| 0 <= l < front.len() implies true_to(
            #[trigger] front[l],
            tree,
            deps,
        ) by {
            assert(front[l] == records[l]);
        }
        lemma_records_on(m, front, tree, deps, x);
        let before = after_records(m, front);
        let n = after_records(m, records);
        assert(true_to(last, tree, deps));
        assert(n.loads.dom() =~= m.loads.dom());
        if m.receive_records(records) is Ok && tell_of(records, x) {
            let l = choose|l: int|
                0 <= l < records.len() && id_in((#[trigger] records[l]).id) == Ok::<
                    AssetUuid,
                    Failure,
                >(x);
            if l < front.len() {
                assert(front[l] == records[l]);
                assert(tell_of(front, x));
            }
        }
        if m.receive_records(front) is Ok && id_in(last.id) is Ok {
            let id = id_in(last.id)->Ok_0;
            if m.handles.contains_key(x) && m.handles.contains_key(id) && id != x {
                assert(m.handles[x] != m.handles[id]);
            }
        }
    }
}

/// Asking again affects only loads that wait for metadata and are among those that have to ask.
proof fn lemma_ask_again_on(m: LoaderModel, requested: Seq<(AssetUuid, LoadHandle)>, h: u64)
    requires
        m.loads.contains_key(h),
        m.loads[h].state is RequestingMetadata ==> !names(requested, h),
    ensures
        m.ask_again_all(requested).model.loads.contains_key(h),
        m.ask_again_all(requested).model.loads[h] == m.loads[h],
    decreases requested.len(),
{
    if requested.len() > 0 {
        let front = requested.drop_last();
        let last = requested.last();
        assert(requested[requested.len() - 1] == last);
        if m.loads[h].state is RequestingMetadata {
            assert(last.1.0 != h);
            assert(!names(front, h)) by {
                if names(front, h) {
                    let j = choose|j: int| 0 <= j < front.len() && (#[trigger] front[j]).1.0 == h;
                    assert(requested[j] == front[j]);
                }
            }
        }
        lemma_ask_again_on(m, front, h);
    }
}

proof fn lemma_ask_again_frame(m: LoaderModel, requested: Seq<(AssetUuid, LoadHandle)>)
    ensures
        m.ask_again_all(requested).model.handles == m.handles,
        m.ask_again_all(requested).model.metadata == m.metadata,
        m.ask_again_all(requested).model.loads.dom() == m.loads.dom(),
    decreases requested.len(),
{
    if requested.len() > 0 {
        lemma_ask_again_frame(m, requested.drop_last());
        assert(m.ask_again_all(requested).model.loads.dom() =~= m.loads.dom());
    }
}

/// A request for metadata and what came of it.
pub type Told = (Option<MetadataResponse>, Vec<(AssetUuid, LoadHandle)>);

/// Whether one of the answers can be read, and tells of the asset `x`.
pub open spec fn some_tells_of(
    settled: Seq<Told>,
    tree: Seq<AssetUuid>,
    deps: Map<AssetUuid, Seq<AssetUuid>>,
    x: AssetUuid,
) -> bool {
    exists|j: int|
        0 <= j < settled.len() && tells((#[trigger] settled[j]).0, tree, deps) && tell_of(
            records_in(settled[j].0),
            x,
        )
}

/// Whether each answer to a request that names the load `h`, that of the asset `x`, can be read and
/// tells of `x`.
pub open spec fn all_tell_of(
    settled: Seq<Told>,
    tree: Seq<AssetUuid>,
    deps: Map<AssetUuid, Seq<AssetUuid>>,
    x: AssetUuid,
    h: u64,
) -> bool {
    forall|j: int|
        0 <= j < settled.len() && names((#[trigger] settled[j]).1@, h) ==> tells(
            settled[j].0,
            tree,
            deps,
        ) && tell_of(records_in(settled[j].0), x)
}

/// What answers with metadata do to the load of an asset of `tree`.
proof fn lemma_told_on(
    m: LoaderModel,
    settled: Seq<Told>,
    tree: Seq<AssetUuid>,
    deps: Map<AssetUuid, Seq<AssetUuid>>,
    x: AssetUuid,
)
    requires
        tables_agree(m),
        tree.contains(x),
        m.handles.contains_key(x) ==> m.load_of(x) is Some,
        knows(m, tree, deps),
        m.settle_all_metadata(settled).fault is None,
        forall|j: int| 0 <= j < settled.len() ==> agrees((#[trigger] settled[j]).0, tree, deps),
        m.handles.contains_key(x) ==> all_tell_of(settled, tree, deps, x, m.handles[x]),
    ensures
        ({
            let n = m.settle_all_metadata(settled).model;
            let h = m.handles[x];
            &&& tables_agree(n)
            &&& n.handles == m.handles
            &&& knows(n, tree, deps)
            &&& m.handles.contains_key(x) ==> n.loads.contains_key(h) && n.loads[h] == (AssetLoad {
                state: n.loads[h].state,
                ..m.loads[h]
            }) && told_of(
                m.loads[h].state,
                n.loads[h].state,
                some_tells_of(settled, tree, deps, x),
            )
        }),
    decreases settled.len(),
{
    if settled.len() > 0 {
        let front = settled.drop_last();
        let last = settled.last();
        let records = records_in(last.0);
        assert(settled[settled.len() - 1] == last);
        assert forall|j: int| 0 <= j < front.len() implies agrees(
            (#[trigger] front[j]).0,
            tree,
            deps,
        ) && (m.handles.contains_key(x) && names(front[j].1@, m.handles[x]) ==> tells(
            front[j].0,
            tree,
            deps,
        ) && tell_of(records_in(front[j].0), x)) by {
            assert(front[j] == settled[j]);
        }
        lemma_told_on(m, front, tree, deps, x);
        let before = m.settle_all_metadata(front).model;
        law_settle_all_metadata_agrees(m, settled);
        assert(agrees(last.0, tree, deps));
        lemma_records_on(before, records, tree, deps, x);
        let told = after_records(before, records);
        if tells(last.0, tree, deps) {
            lemma_readable_is_followed(before, records, tree, deps);
            assert(before.receive_records(records) is Ok);
        }
        lemma_ask_again_frame(told, last.1@);
        assert(m.settle_all_metadata(settled).model == told.ask_again_all(last.1@).model);
        if m.handles.contains_key(x) {
            let h = m.handles[x];
            lemma_ask_again_on(told, last.1@, h);
        }
        if some_tells_of(settled, tree, deps, x) {
            let j = choose|j: int|
                0 <= j < settled.len() && tells((#[trigger] settled[j]).0, tree, deps) && tell_of(
                    records_in(settled[j].0),
                    x,
                );
            if j < front.len() {
                assert(front[j] == settled[j]);
                assert(some_tells_of(front, tree, deps, x));
            }
        }
    }
}

/// Only a fault keeps records that can be read from being followed.
proof fn lemma_readable_is_followed(
    m: LoaderModel,
    records: Seq<AssetRecord>,
    tree: Seq<AssetUuid>,
    deps: Map<AssetUuid, Seq<AssetUuid>>,
)
    requires
        forall|l: int| 0 <= l < records.len() ==> readable(#[trigger] records[l], tree, deps),
    ensures
        m.receive_records(records) matches Err(stopped) ==> stopped.1 is Fault,
    decreases records.len(),
{
    if records.len() > 0 {
        let front = records.drop_last();
        assert forall|l: int| 0 <= l < front.len() implies readable(
            #[trigger] front[l],
            tree,
            deps,
        ) by {
            assert(front[l] == records[l]);
        }
        lemma_readable_is_followed(m, front, tree, deps);
        assert(readable(records[records.len() - 1], tree, deps));
    }
}

/// Whether an answer to a request for data brings an asset that can be read.
pub open spec fn brings(answer: Option<DataResponse>) -> bool {
    &&& answer matches Some(response)
    &&& response.artifacts matches Ok(list)
    &&& list@.len() > 0
    &&& list@[0].data matches Ok(asset)
    &&& id_in(asset.type_uuid) is Ok
    &&& asset.data is Ok
}

/// Whether one of the answers is for the load `h`.
pub open spec fn answered(settled: Seq<(Option<DataResponse>, LoadHandle)>, h: u64) -> bool {
    exists|i: int| 0 <= i < settled.len() && (#[trigger] settled[i]).1.0 == h
}

/// Whether the storage takes what it is handed for the load `h` in `calls`.
pub open spec fn taken_for(calls: Seq<StorageCall>, h: u64) -> bool {
    forall|i: int|
        0 <= i < calls.len() && (#[trigger] calls[i]) is Update && calls[i]->Update_handle.0 == h
            ==> calls[i]->accepted
}

/// Whether each answer for the load `h` brings an asset that can be read.
pub open spec fn all_bring(settled: Seq<(Option<DataResponse>, LoadHandle)>, h: u64) -> bool {
    forall|i: int| 0 <= i < settled.len() && (#[trigger] settled[i]).1.0 == h ==> brings(settled[i].0)
}

/// What answers with data do to a load that is wanted, if the storage takes what it is handed for
/// it: a load that is answered has its asset handed to the engine.
proof fn lemma_fed_on(
    m: LoaderModel,
    settled: Seq<(Option<DataResponse>, LoadHandle)>,
    accepted: Seq<bool>,
    h: u64,
)
    requires
        m.settle_all_data(settled, accepted).fault is None,
        m.loads.contains_key(h),
        wanted(m.loads[h]),
        m.loads[h].state is LoadingAsset ==> m.loads[h].loaded_version is None,
        answered(settled, h) ==> place(m.loads[h]) == 6,
        all_bring(settled, h),
        taken_for(m.settle_all_data(settled, accepted).calls, h),
    ensures
        ({
            let n = m.settle_all_data(settled, accepted).model;
            let a = m.loads[h];
            let b = n.loads[h];
            &&& n.handles == m.handles
            &&& n.metadata == m.metadata
            &&& n.loads.contains_key(h)
            &&& b == (AssetLoad {
                state: b.state,
                requested_version: b.requested_version,
                asset_type: b.asset_type,
                ..a
            })
            &&& if answered(settled, h) {
                place(b) == 7
            } else {
                b == a
            }
        }),
    decreases settled.len(),
{
    if settled.len() > 0 {
        let front = settled.drop_last();
        let last = settled.last();
        assert(settled[settled.len() - 1] == last);
        assert(answered(settled, h) == (answered(front, h) || last.1.0 == h)) by {
            if answered(settled, h) {
                let i = choose|i: int| 0 <= i < settled.len() && (#[trigger] settled[i]).1.0 == h;
                if i < front.len() {
                    assert(front[i] == settled[i]);
                }
            }
            if answered(front, h) {
                let i = choose|i: int| 0 <= i < front.len() && (#[trigger] front[i]).1.0 == h;
                assert(settled[i] == front[i]);
            }
        }
        assert forall|i: int|
            0 <= i < front.len() && (#[trigger] front[i]).1.0 == h implies brings(front[i].0) by {
            assert(front[i] == settled[i]);
        }
        let before = m.settle_all_data(front, accepted);
        let k = before.calls.len() as int;
        let next = before.model.settle_data(last.0, last.1, accepted[k]);
        let calls = m.settle_all_data(settled, accepted).calls;
        assert(calls == before.calls + next.calls);
        assert forall|i: int|
            0 <= i < before.calls.len() && (#[trigger] before.calls[i]) is Update
                && before.calls[i]->Update_handle.0 == h implies before.calls[i]->accepted by {
            assert(calls[i] == before.calls[i]);
        }
        lemma_fed_on(m, front, accepted, h);
        if last.1.0 == h {
            assert(brings(last.0));
            assert(next.calls.len() > 0);
            assert(calls[k] == next.calls[0]);
            assert(accepted[k]);
        }
    }
}

/// Whether the assets of `tree` are left alone in a round:
/// - the daemon does not say that they have changed, and no load that is about to be freed depends
///   on them;
/// - what the daemon says of their dependencies, as far as that can be read, is `deps`;
/// - their references can be counted.
///
/// Requests for them may fail, and the storage may refuse them.
pub open spec fn undisturbed<D, M>(
    s: Play<D, M>,
    r: Round<D, M>,
    tree: Seq<AssetUuid>,
    deps: Map<AssetUuid, Seq<AssetUuid>>,
) -> bool {
    let before = reported(s.model, r.changes, r.ops).model;
    let told = settlements(r.metadata);
    &&& changes_avoid(r.changes, tree)
    &&& held_on_to(before, tree)
    &&& countable(before, tree, dependency_total(before, r.order))
    &&& forall|j: int| 0 <= j < told.len() ==> agrees((#[trigger] told[j]).0, tree, deps)
}

/// Whether nobody stands in the way of the assets of `tree` in a round: they are left alone, what
/// the daemon answers to requests for them, if it answers in this round, can be read and is
/// complete, and the storage takes what it is handed of them.
///
/// There need not be a connection, and neither the daemon nor the engine need say anything at all.
pub open spec fn patient<D, M>(
    s: Play<D, M>,
    r: Round<D, M>,
    tree: Seq<AssetUuid>,
    deps: Map<AssetUuid, Seq<AssetUuid>>,
) -> bool {
    let cycled = r.cycled(s).model;
    let told = settlements(r.metadata);
    let fed = settlements(r.data);
    &&& undisturbed(s, r, tree, deps)
    &&& forall|x: AssetUuid| #[trigger]
        tree.contains(x) && cycled.load_of(x) is Some ==> {
            &&& all_tell_of(told, tree, deps, x, cycled.handles[x])
            &&& all_bring(fed, cycled.handles[x])
            &&& taken_for(r.fed(s).calls, cycled.handles[x])
        }
}

/// Whether the asset `x` gets what it waits for in a round, if it waits for something outside of
/// the loader: a connection to request metadata or data over, an answer to such a request, or the
/// engine's report that it is loaded.
pub open spec fn serves<D, M>(
    s: Play<D, M>,
    r: Round<D, M>,
    tree: Seq<AssetUuid>,
    deps: Map<AssetUuid, Seq<AssetUuid>>,
    x: AssetUuid,
) -> bool {
    match s.model.load_of(x) {
        None => true,
        Some(load) => match load.state {
            LoadState::WaitingForMetadata => r.metadata_connected,
            LoadState::RequestingMetadata => some_tells_of(settlements(r.metadata), tree, deps, x),
            LoadState::LoadingAsset(AssetLoadState::WaitingForData) => r.data_connected,
            LoadState::LoadingAsset(AssetLoadState::RequestingData) => answered(
                settlements(r.data),
                s.model.handles[x],
            ),
            LoadState::LoadingAsset(AssetLoadState::LoadingAsset) => r.ops.contains(
                HandleOp::LoadComplete(LoadHandle(s.model.handles[x])),
            ),
            _ => true,
        },
    }
}

/// Whether everybody does their part for the assets of `tree` in a round: nobody stands in the way,
/// and each of the assets gets what it waits for.
pub open spec fn helpful<D, M>(
    s: Play<D, M>,
    r: Round<D, M>,
    tree: Seq<AssetUuid>,
    deps: Map<AssetUuid, Seq<AssetUuid>>,
) -> bool {
    &&& patient(s, r, tree, deps)
    &&& forall|x: AssetUuid| #[trigger] tree.contains(x) ==> serves(s, r, tree, deps, x)
}

/// What may have become of the state `a` of a load when answers with metadata were followed,
/// readable or not: `b`.
spec fn told_or_not(a: LoadState, b: LoadState) -> bool {
    b == a || a is RequestingMetadata && (b is RequestDependencies || b is WaitingForMetadata)
}

/// What asking again does to a load, whether it has to or not.
proof fn lemma_ask_again_or_not(m: LoaderModel, requested: Seq<(AssetUuid, LoadHandle)>, h: u64)
    requires
        m.loads.contains_key(h),
    ensures
        ({
            let n = m.ask_again_all(requested).model;
            &&& n.loads.contains_key(h)
            &&& n.loads[h] == (AssetLoad { state: n.loads[h].state, ..m.loads[h] })
            &&& told_or_not(m.loads[h].state, n.loads[h].state)
        }),
    decreases requested.len(),
{
    if requested.len() > 0 {
        lemma_ask_again_or_not(m, requested.drop_last(), h);
    }
}

/// What answers with metadata, readable or not, do to the load of an asset of `tree`.
proof fn lemma_told_or_not_on(
    m: LoaderModel,
    settled: Seq<Told>,
    tree: Seq<AssetUuid>,
    deps: Map<AssetUuid, Seq<AssetUuid>>,
    x: AssetUuid,
)
    requires
        tables_agree(m),
        tree.contains(x),
        m.handles.contains_key(x) ==> m.load_of(x) is Some,
        knows(m, tree, deps),
        m.settle_all_metadata(settled).fault is None,
        forall|j: int| 0 <= j < settled.len() ==> agrees((#[trigger] settled[j]).0, tree, deps),
    ensures
        ({
            let n = m.settle_all_metadata(settled).model;
            let h = m.handles[x];
            &&& tables_agree(n)
            &&& n.handles == m.handles
            &&& knows(n, tree, deps)
            &&& m.handles.contains_key(x) ==> n.loads.contains_key(h) && n.loads[h] == (AssetLoad {
                state: n.loads[h].state,
                ..m.loads[h]
            }) && told_or_not(m.loads[h].state, n.loads[h].state)
        }),
    decreases settled.len(),
{
    if settled.len() > 0 {
        let front = settled.drop_last();
        let last = settled.last();
        let records = records_in(last.0);
        assert(settled[settled.len() - 1] == last);
        assert forall|j: int| 0 <= j < front.len() implies agrees(
            (#[trigger] front[j]).0,
            tree,
            deps,
        ) by {
            assert(front[j] == settled[j]);
        }
        lemma_told_or_not_on(m, front, tree, deps, x);
        let before = m.settle_all_metadata(front).model;
        law_settle_all_metadata_agrees(m, settled);
        assert(agrees(last.0, tree, deps));
        lemma_records_on(before, records, tree, deps, x);
        let told = after_records(before, records);
        lemma_ask_again_frame(told, last.1@);
        assert(m.settle_all_metadata(settled).model == told.ask_again_all(last.1@).model);
        if m.handles.contains_key(x) {
            lemma_ask_again_or_not(told, last.1@, m.handles[x]);
        }
    }
}

/// What answers with data, readable or not, do to a load that is wanted.
proof fn lemma_fed_or_not_on(
    m: LoaderModel,
    settled: Seq<(Option<DataResponse>, LoadHandle)>,
    accepted: Seq<bool>,
    h: u64,
)
    requires
        m.settle_all_data(settled, accepted).fault is None,
        m.loads.contains_key(h),
        wanted(m.loads[h]),
        m.loads[h].state is LoadingAsset ==> m.loads[h].loaded_version is None,
        answered(settled, h) ==> place(m.loads[h]) == 6,
    ensures
        ({
            let n = m.settle_all_data(settled, accepted).model;
            let a = m.loads[h];
            let b = n.loads[h];
            &&& n.loads.contains_key(h)
            &&& b == (AssetLoad {
                state: b.state,
                requested_version: b.requested_version,
                asset_type: b.asset_type,
                ..a
            })
            &&& place(b) == place(a) || place(a) == 6 && (place(b) == 5 || place(b) == 7)
        }),
    decreases settled.len(),
{
    if settled.len() > 0 {
        let front = settled.drop_last();
        let last = settled.last();
        assert(settled[settled.len() - 1] == last);
        if answered(front, h) {
            let i = choose|i: int| 0 <= i < front.len() && (#[trigger] front[i]).1.0 == h;
            assert(settled[i] == front[i]);
        }
        lemma_fed_or_not_on(m, front, accepted, h);
        if last.1.0 == h {
            assert(answered(settled, h));
        }
    }
}

/// Whether `tree` holds, with each asset, all that it depends on.
pub open spec fn closed_under(tree: Seq<AssetUuid>, deps: Map<AssetUuid, Seq<AssetUuid>>) -> bool {
    forall|x: AssetUuid| #[trigger]
        tree.contains(x) ==> forall|i: int|
            0 <= i < deps[x].len() ==> tree.contains(#[trigger] deps[x][i])
}

/// Whether the asset `x` of a tree has kept its handle and is as far as it was, or further.
pub open spec fn kept_going(m: LoaderModel, n: LoaderModel, x: AssetUuid) -> bool {
    m.handles.contains_key(x) ==> n.handle(x) == m.handle(x) && place_in(n, x) >= place_in(m, x)
}

/// Whether the asset `x` of a tree has come further, unless it is loaded or waits for its
/// dependencies.
pub open spec fn came_further(
    m: LoaderModel,
    n: LoaderModel,
    deps: Map<AssetUuid, Seq<AssetUuid>>,
    x: AssetUuid,
) -> bool {
    &&& kept_going(m, n, x)
    &&& m.handles.contains_key(x) ==> {
        let a = place_in(m, x);
        let b = place_in(n, x);
        &&& a < 8 && a != 4 ==> b >= a + 1
        &&& a == 4 && all_loaded(m, deps[x]) ==> b >= 5
    }
}

/// How far the asset `x` has come.
pub open spec fn place_in(m: LoaderModel, x: AssetUuid) -> nat {
    place(m.load_of(x)->0)
}

/// What becomes of the place `a` when changes and reports are followed: `b`.
pub open spec fn after_reports(a: nat, b: nat, complete: bool) -> bool {
    if a == 7 {
        b == 8 || b == 7 && !complete
    } else {
        b == a
    }
}

/// What becomes of the place `a` when answers are followed and requests are made: `b`.
pub open spec fn after_answers(
    a: nat,
    b: nat,
    metadata_connected: bool,
    told: bool,
    data_connected: bool,
    fed: bool,
) -> bool {
    ||| b == a + 1 && (a == 1 || a == 2 || a == 5 || a == 6)
    ||| b == a && !(a == 1 && metadata_connected) && !(a == 2 && told) && !(a == 5
        && data_connected) && !(a == 6 && fed)
}

/// What changes and reports do for the assets of a tree: those that the engine was handed and
/// reports to have loaded are loaded.
pub proof fn lemma_patient_reports(
    m: LoaderModel,
    changes: Option<ChangeSet>,
    ops: Seq<HandleOp>,
    tree: Seq<AssetUuid>,
    deps: Map<AssetUuid, Seq<AssetUuid>>,
)
    requires
        tables_agree(m),
        on_the_way(m, tree, deps),
        changes_avoid(changes, tree),
        reported(m, changes, ops).fault is None,
    ensures
        ({
            let n = reported(m, changes, ops).model;
            &&& tables_agree(n)
            &&& n.handles == m.handles
            &&& n.metadata == m.metadata
            &&& on_the_way(n, tree, deps)
            &&& forall|x: AssetUuid| #[trigger]
                tree.contains(x) && m.handles.contains_key(x) ==> after_reports(
                    place_in(m, x),
                    place_in(n, x),
                    ops.contains(HandleOp::LoadComplete(LoadHandle(m.handles[x]))),
                ) && n.load_of(x)->0.refs == m.load_of(x)->0.refs
        }),
{
    let a = m.process_changes(changes);
    lemma_changes_spare(m, changes, tree, deps);
    law_process_changes_agrees(m, changes);
    let n = reported(m, changes, ops).model;
    assert(a.fault is None && a.model.apply_ops(ops).fault is None);
    law_apply_ops_agree(a.model, ops);
    lemma_reported_metadata(m, changes, ops);
    lemma_reports_frame(a.model, ops);
    assert forall|x: AssetUuid| #[trigger] tree.contains(x) && m.handles.contains_key(x) implies {
        &&& n.load_of(x) is Some
        &&& wanted(n.load_of(x)->0)
        &&& n.load_of(x)->0.refs == m.load_of(x)->0.refs
        &&& after_reports(
            place_in(m, x),
            place_in(n, x),
            ops.contains(HandleOp::LoadComplete(LoadHandle(m.handles[x]))),
        )
    } by {
        let h = m.handles[x];
        assert(a.model.load_of(x) == m.load_of(x));
        assert(m.load_of(x) is Some && wanted(m.load_of(x)->0));
        assert(a.model.loads.contains_key(h));
        lemma_reports_on(a.model, ops, h);
    }
    assert forall|x: AssetUuid| #[trigger] tree.contains(x) implies {
        &&& n.metadata.contains_key(x) ==> n.metadata[x] == deps[x]
        &&& n.handles.contains_key(x) ==> n.load_of(x) is Some && wanted(n.load_of(x)->0)
        &&& n.handles.contains_key(x) && place(n.load_of(x)->0) >= 4 ==> known_to(n, deps[x])
    } by {
        if m.handles.contains_key(x) {
            assert(wanted(m.load_of(x)->0));
            assert(place_in(n, x) >= 4 ==> place_in(m, x) >= 4);
        }
    }
}

/// What a pass over the loads does for the assets of a tree: each takes a step, unless it waits.
pub proof fn lemma_patient_pass(
    n: LoaderModel,
    order: Seq<u64>,
    tree: Seq<AssetUuid>,
    deps: Map<AssetUuid, Seq<AssetUuid>>,
)
    requires
        tables_agree(n),
        is_order_of(order, n),
        n.next_handle + dependency_total(n, order) <= u64::MAX,
        n.advance_all(order).fault is None,
        on_the_way(n, tree, deps),
        held_on_to(n, tree),
        countable(n, tree, dependency_total(n, order)),
        closed_under(tree, deps),
    ensures
        ({
            let c = n.advance_all(order).model;
            &&& c.metadata == n.metadata
            &&& c.handles == n.walk(order).model.handles
            &&& forall|x: AssetUuid| #[trigger]
                n.handles.contains_key(x) ==> c.handles.contains_key(x)
            &&& forall|x: AssetUuid| #[trigger]
                tree.contains(x) && c.handles.contains_key(x) ==> {
                    &&& c.load_of(x) is Some
                    &&& c.load_of(x) == n.walk(order).model.load_of(x)
                    &&& wanted(c.load_of(x)->0)
                    &&& n.handles.contains_key(x) ==> c.handle(x) == n.handle(x) && stepped(
                        n.load_of(x)->0.state,
                        c.load_of(x)->0.state,
                        n.metadata.contains_key(x),
                        all_loaded(n, deps[x]),
                    ) && (n.load_of(x)->0.state is RequestDependencies ==> known_to(c, deps[x]))
                    &&& !n.handles.contains_key(x) ==> place(c.load_of(x)->0) == 0
                }
        }),
{
    assert forall|i: int| 0 <= i < order.len() implies n.loads.contains_key(
        #[trigger] order[i],
    ) by {
        assert(order.contains(order[i]));
    }
    let walked = n.walk(order);
    lemma_walk_progresses(n, order, tree, deps);
    lemma_walk_agrees(n, order);
    let c = n.advance_all(order).model;
    assert forall|x: AssetUuid| #[trigger] tree.contains(x) && c.handles.contains_key(x) implies {
        &&& c.load_of(x) is Some
        &&& c.load_of(x) == walked.model.load_of(x)
        &&& wanted(c.load_of(x)->0)
        &&& n.handles.contains_key(x) ==> c.handle(x) == n.handle(x) && stepped(
            n.load_of(x)->0.state,
            c.load_of(x)->0.state,
            n.metadata.contains_key(x),
            all_loaded(n, deps[x]),
        ) && (n.load_of(x)->0.state is RequestDependencies ==> known_to(c, deps[x]))
        &&& !n.handles.contains_key(x) ==> place(c.load_of(x)->0) == 0
    } by {
        assert(progressed(n, walked.model, order, deps, x));
        let h = c.handles[x];
        assert(walked.retired.to_set().contains(h) <==> walked.retired.contains(h));
        if n.handles.contains_key(x) {
            assert(n.load_of(x) is Some && wanted(n.load_of(x)->0));
            assert(n.loads.contains_key(h));
            assert(order.contains(h));
        } else {
            if walked.retired.contains(h) {
                assert(order.contains(h));
                assert(n.loads.contains_key(h));
                assert(n.handles.contains_key(n.loads[h].asset_id));
                assert(h < n.next_handle);
            }
        }
    }
}

/// What answers and requests do for the assets of a tree: each that is answered, or that a request
/// is made for, takes a step.
pub proof fn lemma_patient_answers<D, M>(
    s: Play<D, M>,
    r: Round<D, M>,
    tree: Seq<AssetUuid>,
    deps: Map<AssetUuid, Seq<AssetUuid>>,
)
    requires
        steady(s),
        r.fits(s),
        patient(s, r, tree, deps),
        knows(r.cycled(s).model, tree, deps),
        forall|x: AssetUuid| #[trigger]
            tree.contains(x) && r.cycled(s).model.handles.contains_key(x) ==> r.cycled(
                s,
            ).model.load_of(x) is Some && wanted(r.cycled(s).model.load_of(x)->0),
    ensures
        ({
            let c = r.cycled(s).model;
            let end = r.after(s).model;
            &&& end.handles == c.handles
            &&& knows(end, tree, deps)
            &&& forall|x: AssetUuid| #[trigger]
                tree.contains(x) && c.handles.contains_key(x) ==> {
                    &&& end.load_of(x) is Some
                    &&& wanted(end.load_of(x)->0)
                    &&& end.load_of(x)->0.refs == c.load_of(x)->0.refs
                    &&& after_answers(
                        place_in(c, x),
                        place_in(end, x),
                        r.metadata_connected,
                        some_tells_of(settlements(r.metadata), tree, deps, x),
                        r.data_connected,
                        answered(settlements(r.data), c.handles[x]),
                    )
                }
        }),
{
    let told = settlements(r.metadata);
    let fed = settlements(r.data);
    let c = r.cycled(s).model;
    let d = r.told(s).model;
    let e = r.asked(s);
    let f = r.fed(s).model;
    let end = r.after(s).model;
    law_cycle_sound(s.model, r.changes, r.ops, r.order);
    law_answers_sound(c, told, Seq::empty(), Seq::empty());
    lemma_answers_fit(s, r);
    lemma_told_frame(c, told);
    lemma_fed_frame(e, fed, r.accepted);
    assert forall|x: AssetUuid| #[trigger] tree.contains(x) implies {
        &&& d.metadata.contains_key(x) ==> d.metadata[x] == deps[x]
        &&& c.handles.contains_key(x) ==> {
            &&& e.load_of(x) is Some
            &&& wanted(e.load_of(x)->0)
            &&& e.load_of(x)->0.refs == c.load_of(x)->0.refs
            &&& after_answers(
                place_in(c, x),
                place_in(e, x),
                r.metadata_connected,
                some_tells_of(told, tree, deps, x),
                false,
                false,
            )
            &&& place_in(e, x) >= 5 ==> place_in(c, x) == place_in(e, x)
        }
    } by {
        lemma_told_on(c, told, tree, deps, x);
    }
    assert forall|x: AssetUuid| #[trigger] tree.contains(x) && c.handles.contains_key(x) implies {
        &&& end.load_of(x) is Some
        &&& wanted(end.load_of(x)->0)
        &&& end.load_of(x)->0.refs == e.load_of(x)->0.refs
        &&& if place_in(e, x) < 5 {
            place_in(end, x) == place_in(e, x)
        } else {
            after_answers(
                place_in(e, x),
                place_in(end, x),
                false,
                false,
                r.data_connected,
                answered(fed, c.handles[x]),
            )
        }
    } by {
        let h = c.handles[x];
        assert(e.load_of(x) is Some && wanted(e.load_of(x)->0));
        assert(e.loads.contains_key(h));
        assert(coherent(e.loads[h]));
        if answered(fed, h) {
            let i = choose|i: int| 0 <= i < fed.len() && (#[trigger] fed[i]).1.0 == h;
            assert(may_be_answered(e, fed[i].1.0));
        }
        lemma_fed_on(e, fed, r.accepted, h);
    }
}

/// The loads that are answered with data in a round are loads that may be answered.
pub proof fn lemma_answers_fit<D, M>(s: Play<D, M>, r: Round<D, M>)
    requires
        steady(s),
        r.fits(s),
    ensures
        forall|i: int|
            0 <= i < settlements(r.data).len() ==> may_be_answered(
                r.asked(s),
                (#[trigger] settlements(r.data)[i]).1.0,
            ),
{
    let c = r.cycled(s).model;
    let fed = settlements(r.data);
    let handles = handles_of(s.data);
    law_cycle_account(s.model, r.changes, r.ops, r.order, s.calls, handles);
    law_metadata_account(c, settlements(r.metadata), s.calls + r.cycled(s).calls, handles);
    lemma_divided(r.data, 0);
    assert forall|i: int| 0 <= i < fed.len() implies may_be_answered(
        r.asked(s),
        (#[trigger] fed[i]).1.0,
    ) by {
        assert(settled_handles(fed)[i] == fed[i].1);
        assert(settled_handles(fed).contains(fed[i].1));
        assert(handles.contains(fed[i].1));
    }
}

/// A round in which nobody stands in the way of the assets of a tree takes none of them back,
/// whether there is a connection or not, and whether the daemon and the engine say something or
/// not. Each that gets what it waits for takes a step, unless it waits for its dependencies.
pub proof fn law_patient_round<D, M>(
    s: Play<D, M>,
    r: Round<D, M>,
    tree: Seq<AssetUuid>,
    deps: Map<AssetUuid, Seq<AssetUuid>>,
)
    requires
        steady(s),
        r.fits(s),
        patient(s, r, tree, deps),
        on_the_way(s.model, tree, deps),
        closed_under(tree, deps),
    ensures
        on_the_way(r.after(s).model, tree, deps),
        forall|x: AssetUuid| #[trigger]
            tree.contains(x) ==> kept_going(s.model, r.after(s).model, x) && (serves(
                s,
                r,
                tree,
                deps,
                x,
            ) ==> came_further(s.model, r.after(s).model, deps, x)),
{
    let t = r.after(s).model;
    let m = s.model;
    let n = reported(m, r.changes, r.ops).model;
    let c = r.cycled(s).model;
    assert(reported(m, r.changes, r.ops).fault is None);
    assert(n.advance_all(r.order).fault is None);
    assert(c == n.advance_all(r.order).model);
    lemma_patient_reports(m, r.changes, r.ops, tree, deps);
    lemma_patient_pass(n, r.order, tree, deps);
    assert(knows(c, tree, deps)) by {
        assert forall|x: AssetUuid| #[trigger]
            tree.contains(x) && c.metadata.contains_key(x) implies c.metadata[x] == deps[x] by {
            assert(m.metadata.contains_key(x));
        }
    }
    lemma_patient_answers(s, r, tree, deps);
    assert forall|x: AssetUuid| #[trigger] tree.contains(x) implies kept_going(m, t, x) && (serves(
        s,
        r,
        tree,
        deps,
        x,
    ) ==> came_further(m, t, deps, x)) && {
        &&& t.metadata.contains_key(x) ==> t.metadata[x] == deps[x]
        &&& t.handles.contains_key(x) ==> t.load_of(x) is Some && wanted(t.load_of(x)->0)
        &&& t.handles.contains_key(x) && place(t.load_of(x)->0) >= 4 ==> known_to(t, deps[x])
    } by {
        lemma_one_came_further(s, r, n, tree, deps, x);
    }
}

/// Setbacks do not take the assets of a tree off the way: after a round in which they are left
/// alone each of them that was ever referenced is still on its way to being loaded, or loaded, even
/// if requests for them fail or the storage refuses them. They are asked for again.
pub proof fn law_undisturbed_round<D, M>(
    s: Play<D, M>,
    r: Round<D, M>,
    tree: Seq<AssetUuid>,
    deps: Map<AssetUuid, Seq<AssetUuid>>,
)
    requires
        steady(s),
        r.fits(s),
        undisturbed(s, r, tree, deps),
        on_the_way(s.model, tree, deps),
        closed_under(tree, deps),
    ensures
        on_the_way(r.after(s).model, tree, deps),
        forall|x: AssetUuid| #[trigger]
            tree.contains(x) && s.model.handles.contains_key(x) ==> r.after(s).model.handle(x)
                == s.model.handle(x),
{
    let told = settlements(r.metadata);
    let fed = settlements(r.data);
    let m = s.model;
    let n = reported(m, r.changes, r.ops).model;
    let c = r.cycled(s).model;
    let d = r.told(s).model;
    let e = r.asked(s);
    let t = r.after(s).model;
    assert(reported(m, r.changes, r.ops).fault is None);
    assert(n.advance_all(r.order).fault is None);
    assert(c == n.advance_all(r.order).model);
    lemma_patient_reports(m, r.changes, r.ops, tree, deps);
    lemma_patient_pass(n, r.order, tree, deps);
    assert(knows(c, tree, deps)) by {
        assert forall|x: AssetUuid| #[trigger]
            tree.contains(x) && c.metadata.contains_key(x) implies c.metadata[x] == deps[x] by {
            assert(m.metadata.contains_key(x));
        }
    }
    law_cycle_sound(m, r.changes, r.ops, r.order);
    law_answers_sound(c, told, Seq::empty(), Seq::empty());
    lemma_answers_fit(s, r);
    lemma_told_frame(c, told);
    lemma_fed_frame(e, fed, r.accepted);
    assert forall|x: AssetUuid| #[trigger] tree.contains(x) implies {
        &&& t.metadata.contains_key(x) ==> t.metadata[x] == deps[x]
        &&& c.handles.contains_key(x) ==> t.load_of(x) is Some && wanted(t.load_of(x)->0) && (
        place_in(t, x) >= 4 ==> place_in(c, x) >= 4)
    } by {
        lemma_told_or_not_on(c, told, tree, deps, x);
        if c.handles.contains_key(x) {
            let h = c.handles[x];
            assert(c.load_of(x) is Some && wanted(c.load_of(x)->0));
            assert(e.loads.contains_key(h) && wanted(e.loads[h]));
            assert(coherent(e.loads[h]));
            if answered(fed, h) {
                let i = choose|i: int| 0 <= i < fed.len() && (#[trigger] fed[i]).1.0 == h;
                assert(may_be_answered(e, fed[i].1.0));
            }
            lemma_fed_or_not_on(e, fed, r.accepted, h);
        }
    }
    assert forall|x: AssetUuid| #[trigger] tree.contains(x) && t.handles.contains_key(x)
        && place(t.load_of(x)->0) >= 4 implies known_to(t, deps[x]) by {
        assert(place_in(c, x) >= 4);
        if n.handles.contains_key(x) {
            assert(wanted(n.load_of(x)->0));
            if place_in(n, x) >= 4 {
                assert(known_to(n, deps[x]));
                assert forall|i: int| 0 <= i < deps[x].len() implies t.handles.contains_key(
                    #[trigger] deps[x][i],
                ) by {
                    assert(n.handles.contains_key(deps[x][i]));
                }
            }
        }
    }
}

/// What the parts of a round make of the asset `x` of a tree, taken together.
proof fn lemma_one_came_further<D, M>(
    s: Play<D, M>,
    r: Round<D, M>,
    n: LoaderModel,
    tree: Seq<AssetUuid>,
    deps: Map<AssetUuid, Seq<AssetUuid>>,
    x: AssetUuid,
)
    requires
        tree.contains(x),
        closed_under(tree, deps),
        on_the_way(s.model, tree, deps),
        on_the_way(n, tree, deps),
        n.handles == s.model.handles,
        r.after(s).model.handles == r.cycled(s).model.handles,
        knows(r.after(s).model, tree, deps),
        forall|z: AssetUuid| #[trigger]
            n.handles.contains_key(z) ==> r.cycled(s).model.handles.contains_key(z),
        forall|z: AssetUuid| #[trigger]
            tree.contains(z) && s.model.handles.contains_key(z) ==> after_reports(
                place_in(s.model, z),
                place_in(n, z),
                r.ops.contains(HandleOp::LoadComplete(LoadHandle(s.model.handles[z]))),
            ),
        r.cycled(s).model.handles.contains_key(x) ==> {
            let c = r.cycled(s).model;
            let t = r.after(s).model;
            &&& n.handles.contains_key(x) ==> c.handle(x) == n.handle(x) && stepped(
                n.load_of(x)->0.state,
                c.load_of(x)->0.state,
                n.metadata.contains_key(x),
                all_loaded(n, deps[x]),
            ) && (n.load_of(x)->0.state is RequestDependencies ==> known_to(c, deps[x]))
            &&& !n.handles.contains_key(x) ==> place(c.load_of(x)->0) == 0
            &&& t.load_of(x) is Some
            &&& wanted(t.load_of(x)->0)
            &&& after_answers(
                place_in(c, x),
                place_in(t, x),
                r.metadata_connected,
                some_tells_of(settlements(r.metadata), tree, deps, x),
                r.data_connected,
                answered(settlements(r.data), c.handles[x]),
            )
        },
    ensures
        ({
            let t = r.after(s).model;
            &&& kept_going(s.model, t, x)
            &&& serves(s, r, tree, deps, x) ==> came_further(s.model, t, deps, x)
            &&& t.metadata.contains_key(x) ==> t.metadata[x] == deps[x]
            &&& t.handles.contains_key(x) ==> t.load_of(x) is Some && wanted(t.load_of(x)->0)
            &&& t.handles.contains_key(x) && place(t.load_of(x)->0) >= 4 ==> known_to(t, deps[x])
        }),
{
    let m = s.model;
    let c = r.cycled(s).model;
    let t = r.after(s).model;
    if m.handles.contains_key(x) {
        assert(c.handles.contains_key(x));
        assert(wanted(m.load_of(x)->0));
        assert(wanted(n.load_of(x)->0));
        if place(n.load_of(x)->0) >= 4 {
            assert(known_to(n, deps[x]));
            assert forall|i: int| 0 <= i < deps[x].len() implies t.handles.contains_key(
                #[trigger] deps[x][i],
            ) by {
                assert(n.handles.contains_key(deps[x][i]));
            }
        }
        if place(m.load_of(x)->0) == 4 && all_loaded(m, deps[x]) {
            assert forall|i: int| 0 <= i < deps[x].len() implies is_loaded(
                n,
                #[trigger] deps[x][i],
            ) by {
                let z = deps[x][i];
                assert(tree.contains(z));
                assert(is_loaded(m, z));
                assert(m.handles.contains_key(z));
                assert(place(n.load_of(z)->0) == 8);
            }
        }
    }
}

/// Reports bring no loads and no handles.
proof fn lemma_reports_frame(m: LoaderModel, ops: Seq<HandleOp>)
    ensures
        m.apply_ops(ops).model.handles == m.handles,
    decreases ops.len(),
{
    if ops.len() > 0 {
        lemma_reports_frame(m, ops.drop_last());
    }
}

/// Answers with metadata bring no loads and no handles.
proof fn lemma_told_frame(m: LoaderModel, settled: Seq<Told>)
    ensures
        m.settle_all_metadata(settled).model.handles == m.handles,
    decreases settled.len(),
{
    if settled.len() > 0 {
        let last = settled.last();
        lemma_told_frame(m, settled.drop_last());
        let before = m.settle_all_metadata(settled.drop_last()).model;
        lemma_ask_again_frame(before, last.1@);
        lemma_records_frame(before, records_in(last.0));
        lemma_ask_again_frame(after_records(before, records_in(last.0)), last.1@);
    }
}

proof fn lemma_records_frame(m: LoaderModel, records: Seq<AssetRecord>)
    ensures
        after_records(m, records).handles == m.handles,
    decreases records.len(),
{
    if records.len() > 0 {
        lemma_records_frame(m, records.drop_last());
    }
}

/// Answers with data bring no handles and say nothing of dependencies.
proof fn lemma_fed_frame(
    m: LoaderModel,
    settled: Seq<(Option<DataResponse>, LoadHandle)>,
    accepted: Seq<bool>,
)
    ensures
        m.settle_all_data(settled, accepted).model.handles == m.handles,
        m.settle_all_data(settled, accepted).model.metadata == m.metadata,
    decreases settled.len(),
{
    if settled.len() > 0 {
        lemma_fed_frame(m, settled.drop_last(), accepted);
    }
}

/// Whether `tree` is `root` and what it depends on: each other asset of it is a dependency of one
/// of it.
pub open spec fn rooted(
    tree: Seq<AssetUuid>,
    deps: Map<AssetUuid, Seq<AssetUuid>>,
    root: AssetUuid,
) -> bool {
    &&& tree.contains(root)
    &&& forall|x: AssetUuid| #[trigger]
        tree.contains(x) && x != root ==> exists|y: AssetUuid| #[trigger]
            tree.contains(y) && deps[y].contains(x)
}

/// Whether `states` and `rounds` are a run that begins with all in order and the assets of `tree`
/// on the way, and in which nobody stands in their way.
pub open spec fn patient_run<D, M>(
    states: Seq<Play<D, M>>,
    rounds: Seq<Round<D, M>>,
    tree: Seq<AssetUuid>,
    deps: Map<AssetUuid, Seq<AssetUuid>>,
) -> bool {
    &&& is_run(states, rounds)
    &&& steady(states[0])
    &&& on_the_way(states[0].model, tree, deps)
    &&& closed_under(tree, deps)
    &&& forall|j: int|
        #![trigger rounds[j]]
        0 <= j < rounds.len() ==> patient(states[j], rounds[j], tree, deps)
}

/// The assets of a tree stay on the way in a run in which nobody stands in theirs.
pub proof fn law_patient_run<D, M>(
    states: Seq<Play<D, M>>,
    rounds: Seq<Round<D, M>>,
    tree: Seq<AssetUuid>,
    deps: Map<AssetUuid, Seq<AssetUuid>>,
    i: int,
)
    requires
        patient_run(states, rounds, tree, deps),
        0 <= i <= rounds.len(),
    ensures
        on_the_way(states[i].model, tree, deps),
    decreases i,
{
    if i > 0 {
        law_patient_run(states, rounds, tree, deps, i - 1);
        let r = rounds[i - 1];
        law_run_steady(states, rounds, i - 1);
        law_patient_round(states[i - 1], r, tree, deps);
    }
}

/// Later an asset of a tree is as far as it was, or further.
pub proof fn lemma_later<D, M>(
    states: Seq<Play<D, M>>,
    rounds: Seq<Round<D, M>>,
    tree: Seq<AssetUuid>,
    deps: Map<AssetUuid, Seq<AssetUuid>>,
    i: int,
    j: int,
    x: AssetUuid,
)
    requires
        patient_run(states, rounds, tree, deps),
        0 <= i <= j <= rounds.len(),
        tree.contains(x),
    ensures
        kept_going(states[i].model, states[j].model, x),
    decreases j - i,
{
    if i < j {
        lemma_later(states, rounds, tree, deps, i, j - 1, x);
        let r = rounds[j - 1];
        law_run_steady(states, rounds, j - 1);
        law_patient_run(states, rounds, tree, deps, j - 1);
        law_patient_round(states[j - 1], r, tree, deps);
    }
}

/// Whether each asset of `tree` gets what it waits for in one of the rounds from `i` to before `j`,
/// not necessarily all in the same.
pub open spec fn served_within<D, M>(
    states: Seq<Play<D, M>>,
    rounds: Seq<Round<D, M>>,
    tree: Seq<AssetUuid>,
    deps: Map<AssetUuid, Seq<AssetUuid>>,
    i: int,
    j: int,
) -> bool {
    forall|x: AssetUuid| #[trigger]
        tree.contains(x) ==> exists|k: int|
            i <= k < j && serves(states[k], #[trigger] rounds[k], tree, deps, x)
}

/// Over rounds in which each asset of a tree gets what it waits for at some time, each takes a
/// step, unless it waits for its dependencies.
proof fn lemma_served<D, M>(
    states: Seq<Play<D, M>>,
    rounds: Seq<Round<D, M>>,
    tree: Seq<AssetUuid>,
    deps: Map<AssetUuid, Seq<AssetUuid>>,
    i: int,
    j: int,
    x: AssetUuid,
)
    requires
        patient_run(states, rounds, tree, deps),
        0 <= i <= j <= rounds.len(),
        served_within(states, rounds, tree, deps, i, j),
        tree.contains(x),
    ensures
        came_further(states[i].model, states[j].model, deps, x),
{
    let k = choose|k: int| i <= k < j && serves(states[k], #[trigger] rounds[k], tree, deps, x);
    let r = rounds[k];
    law_run_steady(states, rounds, k);
    law_patient_run(states, rounds, tree, deps, i);
    law_patient_run(states, rounds, tree, deps, k);
    law_patient_round(states[k], r, tree, deps);
    lemma_later(states, rounds, tree, deps, i, k, x);
    lemma_later(states, rounds, tree, deps, k + 1, j, x);
    let m = states[i].model;
    let n = states[k].model;
    assert(came_further(n, states[k + 1].model, deps, x));
    if m.handles.contains_key(x) && all_loaded(m, deps[x]) {
        assert forall|l: int| 0 <= l < deps[x].len() implies is_loaded(n, #[trigger] deps[x][l]) by {
            let z = deps[x][l];
            assert(tree.contains(z));
            assert(is_loaded(m, z));
            lemma_later(states, rounds, tree, deps, i, k, z);
            assert(n.load_of(z) is Some && wanted(n.load_of(z)->0));
        }
    }
}

/// Whether the assets of `tree` are on the way in each of `models`, and come further from each to
/// the next.
spec fn advancing(
    models: Seq<LoaderModel>,
    tree: Seq<AssetUuid>,
    deps: Map<AssetUuid, Seq<AssetUuid>>,
) -> bool {
    &&& closed_under(tree, deps)
    &&& forall|i: int| 0 <= i < models.len() ==> on_the_way(#[trigger] models[i], tree, deps)
    &&& forall|i: int, x: AssetUuid|
        0 <= i < models.len() - 1 && tree.contains(x) ==> #[trigger] takes_step(models, deps, i, x)
}

/// Whether the asset `x` comes further from the `i`th of `models` to the next.
spec fn takes_step(
    models: Seq<LoaderModel>,
    deps: Map<AssetUuid, Seq<AssetUuid>>,
    i: int,
    x: AssetUuid,
) -> bool {
    came_further(models[i], models[i + 1], deps, x)
}

/// How far an asset of a tree is after some steps.
proof fn lemma_steps(
    models: Seq<LoaderModel>,
    tree: Seq<AssetUuid>,
    deps: Map<AssetUuid, Seq<AssetUuid>>,
    i: int,
    j: int,
    x: AssetUuid,
)
    requires
        advancing(models, tree, deps),
        0 <= i <= j < models.len(),
        tree.contains(x),
        models[i].handles.contains_key(x),
    ensures
        kept_going(models[i], models[j], x),
        i + 4 <= j ==> place_in(models[j], x) >= 4,
        j - i <= 4 ==> place_in(models[j], x) >= j - i,
    decreases j - i,
{
    if i < j {
        lemma_steps(models, tree, deps, i, j - 1, x);
        assert(takes_step(models, deps, j - 1, x));
    }
}

/// From the top down to rank `low`, each asset of a tree is referenced after four steps for each
/// rank.
proof fn lemma_all_referenced(
    models: Seq<LoaderModel>,
    tree: Seq<AssetUuid>,
    deps: Map<AssetUuid, Seq<AssetUuid>>,
    rank: spec_fn(AssetUuid) -> nat,
    root: AssetUuid,
    top: nat,
    low: int,
)
    requires
        advancing(models, tree, deps),
        ranked(tree, deps, rank),
        rooted(tree, deps, root),
        models[0].handles.contains_key(root),
        forall|x: AssetUuid| #[trigger] tree.contains(x) ==> rank(x) <= top,
        0 <= low <= top + 1,
        4 * (top + 1 - low) < models.len(),
    ensures
        forall|x: AssetUuid| #[trigger]
            tree.contains(x) && rank(x) >= low ==> models[4 * (top + 1 - low)].handles.contains_key(x),
    decreases top + 1 - low,
{
    if low <= top {
        let t = 4 * (top + 1 - (low + 1));
        assert(t + 4 == 4 * (top + 1 - low));
        lemma_all_referenced(models, tree, deps, rank, root, top, low + 1);
        assert forall|x: AssetUuid| #[trigger] tree.contains(x) && rank(x) >= low implies models[t
            + 4].handles.contains_key(x) by {
            if x == root {
                lemma_steps(models, tree, deps, 0, t + 4, x);
            } else {
                let y = choose|y: AssetUuid| #[trigger] tree.contains(y) && deps[y].contains(x);
                let l = choose|l: int| 0 <= l < deps[y].len() && deps[y][l] == x;
                assert(rank(deps[y][l]) < rank(y));
                assert(models[t].handles.contains_key(y));
                lemma_steps(models, tree, deps, t, t + 4, y);
                assert(on_the_way(models[t + 4], tree, deps));
                assert(models[t + 4].handles.contains_key(y));
                assert(known_to(models[t + 4], deps[y]));
            }
        }
    }
}

/// An asset of a tree whose dependencies are loaded is loaded after eight steps.
proof fn lemma_one_is_loaded(
    models: Seq<LoaderModel>,
    tree: Seq<AssetUuid>,
    deps: Map<AssetUuid, Seq<AssetUuid>>,
    i: int,
    j: int,
    x: AssetUuid,
)
    requires
        advancing(models, tree, deps),
        0 <= i <= j < models.len(),
        tree.contains(x),
        models[i].handles.contains_key(x),
        forall|l: int|
            0 <= l < deps[x].len() ==> models[i].handles.contains_key(#[trigger] deps[x][l])
                && place_in(models[i], deps[x][l]) == 8,
    ensures
        models[j].handles.contains_key(x),
        place_in(models[j], x) <= 8,
        place_in(models[j], x) >= j - i || place_in(models[j], x) == 8,
    decreases j - i,
{
    assert(on_the_way(models[j], tree, deps));
    if i < j {
        lemma_one_is_loaded(models, tree, deps, i, j - 1, x);
        let m = models[j - 1];
        assert(on_the_way(m, tree, deps));
        assert(takes_step(models, deps, j - 1, x));
        assert(all_loaded(m, deps[x])) by {
            assert forall|l: int| 0 <= l < deps[x].len() implies is_loaded(
                m,
                #[trigger] deps[x][l],
            ) by {
                let z = deps[x][l];
                assert(tree.contains(z));
                lemma_steps(models, tree, deps, i, j - 1, z);
                assert(m.load_of(z) is Some && wanted(m.load_of(z)->0));
            }
        }
    }
    assert(wanted(models[j].load_of(x)->0));
}

/// From the bottom up to below rank `high`, each asset of a tree that is referenced is loaded after
/// eight steps for each rank.
proof fn lemma_all_are_loaded(
    models: Seq<LoaderModel>,
    tree: Seq<AssetUuid>,
    deps: Map<AssetUuid, Seq<AssetUuid>>,
    rank: spec_fn(AssetUuid) -> nat,
    t: int,
    high: int,
)
    requires
        advancing(models, tree, deps),
        ranked(tree, deps, rank),
        0 <= t,
        0 <= high,
        t + 8 * high < models.len(),
        forall|x: AssetUuid| #[trigger] tree.contains(x) ==> models[t].handles.contains_key(x),
    ensures
        forall|x: AssetUuid| #[trigger]
            tree.contains(x) ==> models[t + 8 * high].handles.contains_key(x),
        forall|x: AssetUuid| #[trigger]
            tree.contains(x) && rank(x) < high ==> place_in(models[t + 8 * high], x) == 8,
    decreases high,
{
    let now = t + 8 * high;
    assert forall|x: AssetUuid| #[trigger] tree.contains(x) implies models[
        now].handles.contains_key(x) by {
        lemma_steps(models, tree, deps, t, now, x);
    }
    if high > 0 {
        let before = t + 8 * (high - 1);
        lemma_all_are_loaded(models, tree, deps, rank, t, high - 1);
        assert forall|x: AssetUuid| #[trigger] tree.contains(x) && rank(x) < high implies place_in(
            models[now],
            x,
        ) == 8 by {
            assert forall|l: int| 0 <= l < deps[x].len() implies models[
                before].handles.contains_key(#[trigger] deps[x][l]) && place_in(
                models[before],
                deps[x][l],
            ) == 8 by {
                assert(tree.contains(deps[x][l]));
                assert(rank(deps[x][l]) < rank(x));
            }
            assert(models[before].handles.contains_key(x));
            lemma_one_is_loaded(models, tree, deps, before, now, x);
        }
    }
}

/// Whether each asset of `tree` is loaded and available.
pub open spec fn tree_loaded(m: LoaderModel, tree: Seq<AssetUuid>) -> bool {
    forall|x: AssetUuid| #[trigger]
        tree.contains(x) ==> {
            &&& m.handles.contains_key(x)
            &&& m.status(m.handles[x]) == LoadStatus::Loaded
            &&& m.asset(m.handles[x]) is Some
        }
}

/// Whether `times` part the rounds of a run so that from each time to the next each asset of `tree`
/// gets what it waits for.
pub open spec fn parted<D, M>(
    states: Seq<Play<D, M>>,
    rounds: Seq<Round<D, M>>,
    tree: Seq<AssetUuid>,
    deps: Map<AssetUuid, Seq<AssetUuid>>,
    times: Seq<int>,
) -> bool {
    &&& forall|i: int| 0 <= i < times.len() ==> 0 <= #[trigger] times[i] <= rounds.len()
    &&& forall|i: int|
        0 <= i < times.len() - 1 ==> #[trigger] served_from(states, rounds, tree, deps, times, i)
}

/// Whether each asset of `tree` gets what it waits for from the `i`th of `times` to the next.
pub open spec fn served_from<D, M>(
    states: Seq<Play<D, M>>,
    rounds: Seq<Round<D, M>>,
    tree: Seq<AssetUuid>,
    deps: Map<AssetUuid, Seq<AssetUuid>>,
    times: Seq<int>,
    i: int,
) -> bool {
    times[i] <= times[i + 1] && served_within(states, rounds, tree, deps, times[i], times[i + 1])
}

/// From each of the times that part a run to the next, the assets of a tree come further.
proof fn lemma_parted_run_advances<D, M>(
    states: Seq<Play<D, M>>,
    rounds: Seq<Round<D, M>>,
    tree: Seq<AssetUuid>,
    deps: Map<AssetUuid, Seq<AssetUuid>>,
    times: Seq<int>,
)
    requires
        patient_run(states, rounds, tree, deps),
        parted(states, rounds, tree, deps, times),
    ensures
        advancing(Seq::new(times.len(), |i: int| states[times[i]].model), tree, deps),
{
    let models = Seq::new(times.len(), |i: int| states[times[i]].model);
    assert forall|i: int| 0 <= i < models.len() implies on_the_way(
        #[trigger] models[i],
        tree,
        deps,
    ) by {
        law_patient_run(states, rounds, tree, deps, times[i]);
    }
    assert forall|i: int, x: AssetUuid|
        0 <= i < models.len() - 1 && tree.contains(x) implies #[trigger] takes_step(
        models,
        deps,
        i,
        x,
    ) by {
        assert(served_from(states, rounds, tree, deps, times, i));
        assert(0 <= times[i] <= rounds.len() && 0 <= times[i + 1] <= rounds.len());
        lemma_served(states, rounds, tree, deps, times[i], times[i + 1], x);
    }
}

/// What is referenced becomes loaded, and all that it depends on with it, however long each answer
/// and each report takes: `root` and all of `tree` are loaded and available once each of these
/// assets has got what it waited for twelve times for each rank of their dependencies, and stay so,
/// as long as nobody stands in their way, whatever other loads there are and whatever happens to
/// those.
///
/// To begin with, `root` is referenced, and each asset of `tree` that was ever referenced has a
/// load that is on its way to being loaded for the first time, or loaded: an asset whose load was
/// given up stays so.
pub proof fn law_served_assets_are_loaded<D, M>(
    states: Seq<Play<D, M>>,
    rounds: Seq<Round<D, M>>,
    tree: Seq<AssetUuid>,
    deps: Map<AssetUuid, Seq<AssetUuid>>,
    rank: spec_fn(AssetUuid) -> nat,
    root: AssetUuid,
    top: nat,
    times: Seq<int>,
    now: int,
)
    requires
        patient_run(states, rounds, tree, deps),
        ranked(tree, deps, rank),
        rooted(tree, deps, root),
        states[0].model.handles.contains_key(root),
        forall|x: AssetUuid| #[trigger] tree.contains(x) ==> rank(x) <= top,
        parted(states, rounds, tree, deps, times),
        times.len() > 12 * (top + 1),
        times[12 * (top + 1) as int] <= now <= rounds.len(),
    ensures
        states[now].model.handle(root) == states[0].model.handle(root),
        tree_loaded(states[now].model, tree),
{
    let models = Seq::new(times.len(), |i: int| states[times[i]].model);
    let t: int = 4 * (top + 1) as int;
    let n: int = 12 * (top + 1) as int;
    lemma_parted_run_advances(states, rounds, tree, deps, times);
    lemma_later(states, rounds, tree, deps, 0, times[0], root);
    lemma_all_referenced(models, tree, deps, rank, root, top, 0);
    assert forall|x: AssetUuid| #[trigger] tree.contains(x) implies models[
        t].handles.contains_key(x) by {
        assert(rank(x) >= 0);
    }
    lemma_all_are_loaded(models, tree, deps, rank, t, top as int + 1);
    assert(t + 8 * (top + 1) == n);
    lemma_later(states, rounds, tree, deps, 0, now, root);
    law_run_steady(states, rounds, now);
    law_patient_run(states, rounds, tree, deps, now);
    let end = states[now].model;
    assert forall|x: AssetUuid| #[trigger] tree.contains(x) implies {
        &&& end.handles.contains_key(x)
        &&& end.status(end.handles[x]) == LoadStatus::Loaded
        &&& end.asset(end.handles[x]) is Some
    } by {
        assert(models[n] == states[times[n]].model);
        assert(models[n].handles.contains_key(x) && place_in(models[n], x) == 8);
        lemma_later(states, rounds, tree, deps, times[n], now, x);
        assert(end.load_of(x) is Some && wanted(end.load_of(x)->0));
        assert(place_in(end, x) == 8);
        assert(coherent(end.loads[end.handles[x]]));
    }
}

/// In how many of the first `n` rounds of a run everybody does their part for the assets of `tree`.
pub open spec fn helpful_rounds<D, M>(
    states: Seq<Play<D, M>>,
    rounds: Seq<Round<D, M>>,
    tree: Seq<AssetUuid>,
    deps: Map<AssetUuid, Seq<AssetUuid>>,
    n: nat,
) -> nat
    decreases n,
{
    if n == 0 {
        0
    } else {
        let before = (n - 1) as nat;
        helpful_rounds(states, rounds, tree, deps, before) + if helpful(
            states[before as int],
            rounds[before as int],
            tree,
            deps,
        ) {
            1nat
        } else {
            0
        }
    }
}

/// Rounds in which everybody does their part part a run.
proof fn lemma_helpful_rounds_part<D, M>(
    states: Seq<Play<D, M>>,
    rounds: Seq<Round<D, M>>,
    tree: Seq<AssetUuid>,
    deps: Map<AssetUuid, Seq<AssetUuid>>,
    n: nat,
) -> (times: Seq<int>)
    requires
        n <= rounds.len(),
    ensures
        parted(states, rounds, tree, deps, times),
        times.len() == helpful_rounds(states, rounds, tree, deps, n) + 1,
        forall|i: int| 0 <= i < times.len() ==> 0 <= #[trigger] times[i] <= n,
    decreases n,
{
    if n == 0 {
        seq![0int]
    } else {
        let k = n - 1;
        let earlier = lemma_helpful_rounds_part(states, rounds, tree, deps, k as nat);
        if helpful(states[k], rounds[k], tree, deps) {
            let times = earlier.push(n as int);
            assert forall|i: int| 0 <= i < times.len() - 1 implies #[trigger] served_from(
                states,
                rounds,
                tree,
                deps,
                times,
                i,
            ) by {
                if i < earlier.len() - 1 {
                    assert(served_from(states, rounds, tree, deps, earlier, i));
                    assert(times[i] == earlier[i] && times[i + 1] == earlier[i + 1]);
                } else {
                    assert(times[i] == earlier[i]);
                    assert forall|x: AssetUuid| #[trigger] tree.contains(x) implies exists|q: int|
                        times[i] <= q < times[i + 1] && serves(
                            states[q],
                            #[trigger] rounds[q],
                            tree,
                            deps,
                            x,
                        ) by {
                        assert(serves(states[k], rounds[k], tree, deps, x));
                    }
                }
            }
            assert forall|i: int| 0 <= i < times.len() implies 0 <= #[trigger] times[i] <= n by {
                if i < earlier.len() {
                    assert(times[i] == earlier[i]);
                }
            }
            times
        } else {
            earlier
        }
    }
}

/// What is referenced becomes loaded, and all that it depends on with it: `root` and all of `tree`
/// are loaded and available after a run in which everybody does their part for these assets in
/// twelve rounds for each rank of their dependencies, wherever these rounds lie, and nobody stands
/// in their way in the others.
pub proof fn law_referenced_assets_are_loaded<D, M>(
    states: Seq<Play<D, M>>,
    rounds: Seq<Round<D, M>>,
    tree: Seq<AssetUuid>,
    deps: Map<AssetUuid, Seq<AssetUuid>>,
    rank: spec_fn(AssetUuid) -> nat,
    root: AssetUuid,
    top: nat,
)
    requires
        patient_run(states, rounds, tree, deps),
        ranked(tree, deps, rank),
        rooted(tree, deps, root),
        states[0].model.handles.contains_key(root),
        forall|x: AssetUuid| #[trigger] tree.contains(x) ==> rank(x) <= top,
        helpful_rounds(states, rounds, tree, deps, rounds.len()) >= 12 * (top + 1),
    ensures
        states.last().model.handle(root) == states[0].model.handle(root),
        tree_loaded(states.last().model, tree),
{
    let times = lemma_helpful_rounds_part(states, rounds, tree, deps, rounds.len());
    law_served_assets_are_loaded(
        states,
        rounds,
        tree,
        deps,
        rank,
        root,
        top,
        times,
        rounds.len() as int,
    );
}

/// Whether `states` are those that a loader goes through in `rounds`, which never end.
pub open spec fn endless_run<D, M>(
    states: spec_fn(nat) -> Play<D, M>,
    rounds: spec_fn(nat) -> Round<D, M>,
) -> bool {
    forall|i: nat|
        #![trigger rounds(i)]
        rounds(i).fits(states(i)) && states(i + 1) == rounds(i).after(states(i))
}

/// Whether the asset `x` gets what it waits for in a round from `i` on.
pub open spec fn served_after<D, M>(
    states: spec_fn(nat) -> Play<D, M>,
    rounds: spec_fn(nat) -> Round<D, M>,
    tree: Seq<AssetUuid>,
    deps: Map<AssetUuid, Seq<AssetUuid>>,
    i: nat,
    x: AssetUuid,
) -> bool {
    exists|k: nat| i <= k && serves(states(k), #[trigger] rounds(k), tree, deps, x)
}

/// Whether the asset `x` gets what it waits for in one of the rounds from `i` to before `j`.
spec fn served_between<D, M>(
    states: spec_fn(nat) -> Play<D, M>,
    rounds: spec_fn(nat) -> Round<D, M>,
    tree: Seq<AssetUuid>,
    deps: Map<AssetUuid, Seq<AssetUuid>>,
    i: nat,
    j: nat,
    x: AssetUuid,
) -> bool {
    exists|k: nat| i <= k < j && serves(states(k), #[trigger] rounds(k), tree, deps, x)
}

/// Where each asset of a tree gets what it waits for again and again, there is a time by which the
/// first `n` of them have got it.
proof fn lemma_all_served<D, M>(
    states: spec_fn(nat) -> Play<D, M>,
    rounds: spec_fn(nat) -> Round<D, M>,
    tree: Seq<AssetUuid>,
    deps: Map<AssetUuid, Seq<AssetUuid>>,
    i: nat,
    n: nat,
) -> (j: nat)
    requires
        n <= tree.len(),
        forall|x: AssetUuid, i: nat|
            tree.contains(x) ==> #[trigger] served_after(states, rounds, tree, deps, i, x),
    ensures
        i <= j,
        forall|l: int|
            0 <= l < n ==> served_between(states, rounds, tree, deps, i, j, #[trigger] tree[l]),
    decreases n,
{
    if n == 0 {
        i
    } else {
        let before = lemma_all_served(states, rounds, tree, deps, i, (n - 1) as nat);
        let x = tree[n - 1];
        assert(tree.contains(x));
        assert(served_after(states, rounds, tree, deps, i, x));
        let k = choose|k: nat| i <= k && serves(states(k), #[trigger] rounds(k), tree, deps, x);
        let j = if k + 1 > before {
            k + 1
        } else {
            before
        };
        assert forall|l: int| 0 <= l < n implies served_between(
            states,
            rounds,
            tree,
            deps,
            i,
            j,
            #[trigger] tree[l],
        ) by {
            if l < n - 1 {
                assert(served_between(states, rounds, tree, deps, i, before, tree[l]));
            }
        }
        j
    }
}

/// The first states of an endless run.
spec fn first_states<D, M>(states: spec_fn(nat) -> Play<D, M>, n: nat) -> Seq<Play<D, M>> {
    Seq::new(n + 1, |i: int| states(i as nat))
}

/// The first rounds of an endless run.
spec fn first_rounds<D, M>(rounds: spec_fn(nat) -> Round<D, M>, n: nat) -> Seq<Round<D, M>> {
    Seq::new(n, |i: int| rounds(i as nat))
}

/// Where each asset of a tree gets what it waits for again and again, it gets it as often as one
/// likes.
proof fn lemma_parts<D, M>(
    states: spec_fn(nat) -> Play<D, M>,
    rounds: spec_fn(nat) -> Round<D, M>,
    tree: Seq<AssetUuid>,
    deps: Map<AssetUuid, Seq<AssetUuid>>,
    n: nat,
) -> (found: (nat, Seq<int>))
    requires
        forall|x: AssetUuid, i: nat|
            tree.contains(x) ==> #[trigger] served_after(states, rounds, tree, deps, i, x),
    ensures
        found.1.len() == n + 1,
        parted(
            first_states(states, found.0),
            first_rounds(rounds, found.0),
            tree,
            deps,
            found.1,
        ),
        found.1.last() == found.0,
    decreases n,
{
    if n == 0 {
        (0, seq![0int])
    } else {
        let (now, earlier) = lemma_parts(states, rounds, tree, deps, (n - 1) as nat);
        let end = lemma_all_served(states, rounds, tree, deps, now, tree.len());
        let times = earlier.push(end as int);
        let s = first_states(states, end);
        let r = first_rounds(rounds, end);
        let s0 = first_states(states, now);
        let r0 = first_rounds(rounds, now);
        assert forall|i: int| 0 <= i < times.len() implies 0 <= #[trigger] times[i] <= r.len() by {
            if i < earlier.len() {
                assert(times[i] == earlier[i]);
                assert(0 <= earlier[i] <= r0.len());
            }
        }
        assert forall|i: int| 0 <= i < times.len() - 1 implies #[trigger] served_from(
            s,
            r,
            tree,
            deps,
            times,
            i,
        ) by {
            assert(times[i] == earlier[i]);
            if i < earlier.len() - 1 {
                assert(served_from(s0, r0, tree, deps, earlier, i));
                assert(times[i + 1] == earlier[i + 1]);
                assert(0 <= earlier[i] && earlier[i + 1] <= r0.len());
                assert forall|x: AssetUuid| #[trigger] tree.contains(x) implies exists|k: int|
                    times[i] <= k < times[i + 1] && serves(
                        s[k],
                        #[trigger] r[k],
                        tree,
                        deps,
                        x,
                    ) by {
                    let k = choose|k: int|
                        times[i] <= k < times[i + 1] && serves(
                            s0[k],
                            #[trigger] r0[k],
                            tree,
                            deps,
                            x,
                        );
                    assert(s[k] == s0[k] && r[k] == r0[k]);
                }
            } else {
                assert(times[i] == now && times[i + 1] == end);
                assert forall|x: AssetUuid| #[trigger] tree.contains(x) implies exists|k: int|
                    times[i] <= k < times[i + 1] && serves(
                        s[k],
                        #[trigger] r[k],
                        tree,
                        deps,
                        x,
                    ) by {
                    let l = choose|l: int| 0 <= l < tree.len() && tree[l] == x;
                    assert(served_between(states, rounds, tree, deps, now, end, tree[l]));
                    let k = choose|k: nat|
                        now <= k < end && serves(states(k), #[trigger] rounds(k), tree, deps, x);
                    assert(s[k as int] == states(k) && r[k as int] == rounds(k));
                }
            }
        }
        (end, times)
    }
}

/// Where nobody stands in the way of the assets of a tree from the beginning, they are loaded in
/// the end.
proof fn lemma_loaded_in_the_end<D, M>(
    states: spec_fn(nat) -> Play<D, M>,
    rounds: spec_fn(nat) -> Round<D, M>,
    tree: Seq<AssetUuid>,
    deps: Map<AssetUuid, Seq<AssetUuid>>,
    rank: spec_fn(AssetUuid) -> nat,
    root: AssetUuid,
    top: nat,
) -> (n: nat)
    requires
        endless_run(states, rounds),
        steady(states(0)),
        on_the_way(states(0).model, tree, deps),
        closed_under(tree, deps),
        ranked(tree, deps, rank),
        rooted(tree, deps, root),
        states(0).model.handles.contains_key(root),
        forall|x: AssetUuid| #[trigger] tree.contains(x) ==> rank(x) <= top,
        forall|i: nat| patient(states(i), #[trigger] rounds(i), tree, deps),
        forall|x: AssetUuid, i: nat|
            tree.contains(x) ==> #[trigger] served_after(states, rounds, tree, deps, i, x),
    ensures
        forall|i: nat| n <= i ==> tree_loaded((#[trigger] states(i)).model, tree),
{
    let goal = 12 * (top + 1);
    let (n, times) = lemma_parts(states, rounds, tree, deps, goal as nat);
    assert forall|i: nat| n <= i implies tree_loaded((#[trigger] states(i)).model, tree) by {
        let s = first_states(states, i);
        let r = first_rounds(rounds, i);
        let s0 = first_states(states, n);
        let r0 = first_rounds(rounds, n);
        assert forall|j: int| #![trigger r[j]] 0 <= j < r.len() implies r[j].fits(s[j]) && s[j + 1]
            == r[j].after(s[j]) && patient(s[j], r[j], tree, deps) by {
            assert(r[j] == rounds(j as nat));
        }
        assert(parted(s, r, tree, deps, times)) by {
            assert forall|j: int| 0 <= j < times.len() implies 0 <= #[trigger] times[j]
                <= r.len() by {
                assert(0 <= times[j] <= r0.len());
            }
            assert forall|j: int| 0 <= j < times.len() - 1 implies #[trigger] served_from(
                s,
                r,
                tree,
                deps,
                times,
                j,
            ) by {
                assert(served_from(s0, r0, tree, deps, times, j));
                assert(0 <= times[j] && times[j + 1] <= r0.len());
                assert forall|x: AssetUuid| #[trigger] tree.contains(x) implies exists|k: int|
                    times[j] <= k < times[j + 1] && serves(
                        s[k],
                        #[trigger] r[k],
                        tree,
                        deps,
                        x,
                    ) by {
                    let k = choose|k: int|
                        times[j] <= k < times[j + 1] && serves(
                            s0[k],
                            #[trigger] r0[k],
                            tree,
                            deps,
                            x,
                        );
                    assert(s[k] == s0[k] && r[k] == r0[k]);
                }
            }
        }
        assert(times.last() == times[goal as int]);
        law_served_assets_are_loaded(s, r, tree, deps, rank, root, top, times, i as int);
        assert(s[i as int] == states(i));
    }
    n
}

/// The assets of a tree stay on the way over rounds in which they are left alone.
proof fn lemma_undisturbed_run<D, M>(
    states: spec_fn(nat) -> Play<D, M>,
    rounds: spec_fn(nat) -> Round<D, M>,
    tree: Seq<AssetUuid>,
    deps: Map<AssetUuid, Seq<AssetUuid>>,
    n: nat,
)
    requires
        endless_run(states, rounds),
        steady(states(0)),
        on_the_way(states(0).model, tree, deps),
        closed_under(tree, deps),
        forall|i: nat| undisturbed(states(i), #[trigger] rounds(i), tree, deps),
    ensures
        steady(states(n)),
        on_the_way(states(n).model, tree, deps),
        forall|x: AssetUuid| #[trigger]
            tree.contains(x) && states(0).model.handles.contains_key(x) ==> states(n).model.handle(
                x,
            ) == states(0).model.handle(x),
    decreases n,
{
    if n > 0 {
        let i = (n - 1) as nat;
        lemma_undisturbed_run(states, rounds, tree, deps, i);
        let r = rounds(i);
        law_round_steady(states(i), r);
        law_undisturbed_round(states(i), r, tree, deps);
        assert(states(n) == r.after(states(i)));
    }
}

/// What is left of an endless run after its first rounds is an endless run.
proof fn lemma_run_goes_on<D, M>(
    states: spec_fn(nat) -> Play<D, M>,
    rounds: spec_fn(nat) -> Round<D, M>,
    tree: Seq<AssetUuid>,
    deps: Map<AssetUuid, Seq<AssetUuid>>,
    n: nat,
)
    requires
        endless_run(states, rounds),
        forall|i: nat| n <= i ==> patient(states(i), #[trigger] rounds(i), tree, deps),
    ensures
        endless_run(|i: nat| states(i + n), |i: nat| rounds(i + n)),
        ({
            let later_states = |i: nat| states(i + n);
            let later_rounds = |i: nat| rounds(i + n);
            forall|i: nat| patient(later_states(i), #[trigger] later_rounds(i), tree, deps)
        }),
{
    let later_states = |i: nat| states(i + n);
    let later_rounds = |i: nat| rounds(i + n);
    assert forall|i: nat| #![trigger later_rounds(i)] later_rounds(i).fits(later_states(i))
        && later_states(i + 1) == later_rounds(i).after(later_states(i)) by {
        assert(later_rounds(i) == rounds(i + n));
        assert(i + 1 + n == i + n + 1);
    }
    assert forall|i: nat| patient(later_states(i), #[trigger] later_rounds(i), tree, deps) by {
        assert(later_rounds(i) == rounds(i + n));
    }
}

/// What an asset gets again and again, it gets again and again after the first rounds.
proof fn lemma_service_goes_on<D, M>(
    states: spec_fn(nat) -> Play<D, M>,
    rounds: spec_fn(nat) -> Round<D, M>,
    tree: Seq<AssetUuid>,
    deps: Map<AssetUuid, Seq<AssetUuid>>,
    n: nat,
)
    requires
        forall|x: AssetUuid, i: nat|
            tree.contains(x) ==> #[trigger] served_after(states, rounds, tree, deps, i, x),
    ensures
        ({
            let later_states = |i: nat| states(i + n);
            let later_rounds = |i: nat| rounds(i + n);
            forall|x: AssetUuid, i: nat|
                tree.contains(x) ==> #[trigger] served_after(
                    later_states,
                    later_rounds,
                    tree,
                    deps,
                    i,
                    x,
                )
        }),
{
    let later_states = |i: nat| states(i + n);
    let later_rounds = |i: nat| rounds(i + n);
    assert forall|x: AssetUuid, i: nat| tree.contains(x) implies #[trigger] served_after(
        later_states,
        later_rounds,
        tree,
        deps,
        i,
        x,
    ) by {
        assert(served_after(states, rounds, tree, deps, i + n, x));
        let k = choose|k: nat|
            i + n <= k && serves(states(k), #[trigger] rounds(k), tree, deps, x);
        let j = (k - n) as nat;
        assert(later_rounds(j) == rounds(k) && later_states(j) == states(k));
    }
}

/// What is referenced becomes loaded in the end, and all that it depends on with it, and stays so,
/// if rounds are played over and over, these assets are left alone, and from the round `calm` on
/// nobody stands in their way and each of them gets what it waits for again and again: a
/// connection, an answer, the engine's report. Before that, requests may fail, and the storage may
/// refuse what it is handed.
pub proof fn law_assets_are_loaded_in_the_end<D, M>(
    states: spec_fn(nat) -> Play<D, M>,
    rounds: spec_fn(nat) -> Round<D, M>,
    tree: Seq<AssetUuid>,
    deps: Map<AssetUuid, Seq<AssetUuid>>,
    rank: spec_fn(AssetUuid) -> nat,
    root: AssetUuid,
    top: nat,
    calm: nat,
) -> (n: nat)
    requires
        endless_run(states, rounds),
        steady(states(0)),
        on_the_way(states(0).model, tree, deps),
        closed_under(tree, deps),
        ranked(tree, deps, rank),
        rooted(tree, deps, root),
        states(0).model.handles.contains_key(root),
        forall|x: AssetUuid| #[trigger] tree.contains(x) ==> rank(x) <= top,
        forall|i: nat| undisturbed(states(i), #[trigger] rounds(i), tree, deps),
        forall|i: nat| calm <= i ==> patient(states(i), #[trigger] rounds(i), tree, deps),
        forall|x: AssetUuid, i: nat|
            tree.contains(x) ==> #[trigger] served_after(states, rounds, tree, deps, i, x),
    ensures
        forall|i: nat| n <= i ==> tree_loaded((#[trigger] states(i)).model, tree),
{
    let later_states = |i: nat| states(i + calm);
    let later_rounds = |i: nat| rounds(i + calm);
    lemma_undisturbed_run(states, rounds, tree, deps, calm);
    assert(tree.contains(root));
    lemma_run_goes_on(states, rounds, tree, deps, calm);
    lemma_service_goes_on(states, rounds, tree, deps, calm);
    let n = lemma_loaded_in_the_end(later_states, later_rounds, tree, deps, rank, root, top);
    assert forall|i: nat| n + calm <= i implies tree_loaded((#[trigger] states(i)).model, tree) by {
        assert(later_states((i - calm) as nat) == states(i));
    }
    n + calm
}

} // verus!
