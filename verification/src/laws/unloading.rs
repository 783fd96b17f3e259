//! Unloading over rounds: what nobody refers to is given up, and all that it depended on with it.

use crate::channel::HandleOp;
use crate::ids::{AssetUuid, LoadHandle};
use crate::laws::account::{law_cycle_account, law_metadata_account, may_be_answered};
use crate::laws::coherence::{law_process_changes_coherent, lemma_release_state};
use crate::laws::flight::{handles_of, lemma_contains_add, lemma_divided, settled_handles};
use crate::laws::references::{
    law_add_refs_agree, lemma_no_occurrence, lemma_release_counts, occurrences, tables_agree,
};
use crate::laws::round::law_cycle_sound;
use crate::laws::rounds::{is_run, law_round_steady, steady, Play, Round};
use crate::laws::tables::{
    after_records, dependency_count, dependency_total, law_apply_ops_agree,
    law_process_changes_agrees, lemma_walk_agrees,
};
use crate::metadata::lemma_contains_push;
use crate::model::{ChangeSet, LoaderModel, PendingReload, StorageCall};
use crate::requests::settlements;
use crate::responses::{AssetRecord, DataResponse, MetadataResponse};
use crate::rpc_loader::reported;
use crate::state::{AssetLoad, AssetLoadState, LoadState, LoadStatus};
use crate::walk::lemma_release_silent;
use vstd::prelude::*;

verus! {

/// How often the storage is told to free the load `h`.
pub open spec fn frees(calls: Seq<StorageCall>, h: u64) -> nat
    decreases calls.len(),
{
    if calls.len() == 0 {
        0
    } else {
        frees(calls.drop_last(), h) + if calls.last() matches StorageCall::Free { handle, .. }
            && handle.0 == h {
            1nat
        } else {
            0
        }
    }
}

/// How often the storage is told to free a load in calls and further calls.
pub proof fn lemma_frees_add(a: Seq<StorageCall>, b: Seq<StorageCall>, h: u64)
    ensures
        frees(a + b, h) == frees(a, h) + frees(b, h),
    decreases b.len(),
{
    if b.len() == 0 {
        assert(a + b =~= a);
    } else {
        assert((a + b).drop_last() =~= a + b.drop_last());
        assert((a + b).last() == b.last());
        lemma_frees_add(a, b.drop_last(), h);
    }
}

/// Whether the load of `x` holds references to its dependencies.
pub open spec fn holds(m: LoaderModel, x: AssetUuid) -> bool {
    match m.load_of(x) {
        Some(load) => load.state is Loaded || load.state is UnloadRequested,
        None => false,
    }
}

/// How many references the loads of `tree` hold to the asset `id`, if `deps` are their
/// dependencies.
pub open spec fn held(
    m: LoaderModel,
    tree: Seq<AssetUuid>,
    deps: Map<AssetUuid, Seq<AssetUuid>>,
    id: AssetUuid,
) -> nat
    decreases tree.len(),
{
    if tree.len() == 0 {
        0
    } else {
        held(m, tree.drop_last(), deps, id) + if holds(m, tree.last()) {
            occurrences(deps[tree.last()], id)
        } else {
            0
        }
    }
}

/// Whether the load of an asset is loaded, or on its way out, with `count` references.
pub open spec fn going(load: AssetLoad, count: nat) -> bool {
    &&& load.state == LoadState::Loaded(AssetLoadState::Loaded) || load.state is UnloadRequested
        || load.state is Unloading
    &&& !load.pending_reload
    &&& load.auto_commit
    &&& load.state != LoadState::Loaded(AssetLoadState::Loaded) ==> load.refs == 0
    &&& !(load.state is Unloading) ==> load.asset_type is Some
    &&& load.refs == count
}

/// Whether the loads of `tree` are loaded, or on their way out, and nobody refers to them but loads
/// of `tree` that depend on them.
pub open spec fn abandoned(
    m: LoaderModel,
    tree: Seq<AssetUuid>,
    deps: Map<AssetUuid, Seq<AssetUuid>>,
) -> bool {
    forall|x: AssetUuid| #[trigger]
        tree.contains(x) && m.load_of(x) is Some ==> going(m.load_of(x)->0, held(m, tree, deps, x))
}

/// Whether what a loader knows of dependencies fits `deps`, and nothing outside of `tree` depends
/// on an asset of `tree`.
pub open spec fn depends_as(
    m: LoaderModel,
    tree: Seq<AssetUuid>,
    deps: Map<AssetUuid, Seq<AssetUuid>>,
) -> bool {
    forall|x: AssetUuid| #[trigger]
        m.metadata.contains_key(x) ==> if tree.contains(x) {
            m.metadata[x] == deps[x]
        } else {
            forall|i: int| 0 <= i < m.metadata[x].len() ==> !tree.contains(#[trigger] m.metadata[x][i])
        }
}

/// Whether no asset of `tree` depends on itself, directly or not: each has a rank above those that
/// it depends on.
pub open spec fn ranked(
    tree: Seq<AssetUuid>,
    deps: Map<AssetUuid, Seq<AssetUuid>>,
    rank: spec_fn(AssetUuid) -> nat,
) -> bool {
    forall|x: AssetUuid, i: int|
        #![trigger deps[x][i]]
        tree.contains(x) && 0 <= i < deps[x].len() && tree.contains(deps[x][i]) ==> rank(deps[x][i])
            < rank(x)
}

/// Whether the loads of `tree` are the same in `m` and in `n`.
pub open spec fn same_on(m: LoaderModel, n: LoaderModel, tree: Seq<AssetUuid>) -> bool {
    forall|x: AssetUuid| #[trigger]
        tree.contains(x) ==> n.handle(x) == m.handle(x) && n.load_of(x) == m.load_of(x)
}

/// What is held depends on the loads of `tree` only.
proof fn lemma_held_same(
    m: LoaderModel,
    n: LoaderModel,
    tree: Seq<AssetUuid>,
    deps: Map<AssetUuid, Seq<AssetUuid>>,
    id: AssetUuid,
)
    requires
        forall|i: int| 0 <= i < tree.len() ==> holds(n, #[trigger] tree[i]) == holds(m, tree[i]),
    ensures
        held(n, tree, deps, id) == held(m, tree, deps, id),
    decreases tree.len(),
{
    if tree.len() > 0 {
        let front = tree.drop_last();
        assert forall|i: int| 0 <= i < front.len() implies holds(n, #[trigger] front[i]) == holds(
            m,
            front[i],
        ) by {
            assert(front[i] == tree[i]);
        }
        lemma_held_same(m, n, front, deps, id);
        assert(tree[tree.len() - 1] == tree.last());
    }
}

/// What is held when the load of `y` holds nothing any more.
proof fn lemma_held_dropped(
    m: LoaderModel,
    n: LoaderModel,
    tree: Seq<AssetUuid>,
    deps: Map<AssetUuid, Seq<AssetUuid>>,
    y: AssetUuid,
    id: AssetUuid,
)
    requires
        tree.no_duplicates(),
        tree.contains(y),
        holds(m, y),
        !holds(n, y),
        forall|i: int|
            0 <= i < tree.len() && tree[i] != y ==> holds(n, #[trigger] tree[i]) == holds(m, tree[i]),
    ensures
        held(m, tree, deps, id) == held(n, tree, deps, id) + occurrences(deps[y], id),
    decreases tree.len(),
{
    let front = tree.drop_last();
    assert(tree[tree.len() - 1] == tree.last());
    assert forall|i: int| 0 <= i < front.len() && front[i] != y implies holds(n, #[trigger] front[i])
        == holds(m, front[i]) by {
        assert(front[i] == tree[i]);
    }
    if tree.last() == y {
        assert forall|i: int| 0 <= i < front.len() implies holds(n, #[trigger] front[i]) == holds(
            m,
            front[i],
        ) by {
            assert(front[i] == tree[i]);
            assert(tree[i] != tree[tree.len() - 1]);
        }
        lemma_held_same(m, n, front, deps, id);
    } else {
        let j = choose|j: int| 0 <= j < tree.len() && tree[j] == y;
        assert(front[j] == y);
        lemma_held_dropped(m, n, front, deps, y, id);
    }
}

/// Nothing is held of an asset that no load that holds anything depends on.
proof fn lemma_held_none(
    m: LoaderModel,
    tree: Seq<AssetUuid>,
    deps: Map<AssetUuid, Seq<AssetUuid>>,
    id: AssetUuid,
)
    requires
        forall|i: int|
            0 <= i < tree.len() && holds(m, #[trigger] tree[i]) ==> !deps[tree[i]].contains(id),
    ensures
        held(m, tree, deps, id) == 0,
    decreases tree.len(),
{
    if tree.len() > 0 {
        let front = tree.drop_last();
        assert(tree[tree.len() - 1] == tree.last());
        assert forall|i: int| 0 <= i < front.len() && holds(m, #[trigger] front[i]) implies !deps[
            front[i]].contains(id) by {
            assert(front[i] == tree[i]);
        }
        lemma_held_none(m, front, deps, id);
        if holds(m, tree.last()) {
            lemma_no_occurrence(deps[tree.last()], id);
        }
    }
}

/// Referencing assets outside of `tree` does not affect the loads of `tree`.
proof fn lemma_add_refs_outside(m: LoaderModel, ids: Seq<AssetUuid>, tree: Seq<AssetUuid>)
    requires
        tables_agree(m),
        m.next_handle + ids.len() <= u64::MAX,
        forall|i: int| 0 <= i < ids.len() ==> !tree.contains(#[trigger] ids[i]),
    ensures
        same_on(m, m.add_refs(ids), tree),
    decreases ids.len(),
{
    if ids.len() > 0 {
        let front = ids.drop_last();
        let last = ids.last();
        assert(ids[ids.len() - 1] == last);
        assert forall|i: int| 0 <= i < front.len() implies !tree.contains(#[trigger] front[i]) by {
            assert(front[i] == ids[i]);
        }
        lemma_add_refs_outside(m, front, tree);
        law_add_refs_agree(m, front);
        let before = m.add_refs(front);
        let n = m.add_refs(ids);
        assert forall|x: AssetUuid| #[trigger] tree.contains(x) implies n.handle(x) == m.handle(x)
            && n.load_of(x) == m.load_of(x) by {
            assert(x != last);
            if before.handles.contains_key(x) {
                assert(before.handles[x] < before.next_handle);
                if before.handles.contains_key(last) {
                    assert(before.handles[x] != before.handles[last]);
                }
            }
        }
    }
}

/// Releasing assets outside of `tree` does not affect the loads of `tree`.
pub proof fn lemma_release_outside(m: LoaderModel, ids: Seq<AssetUuid>, tree: Seq<AssetUuid>)
    requires
        tables_agree(m),
        forall|i: int| 0 <= i < ids.len() ==> !tree.contains(#[trigger] ids[i]),
    ensures
        same_on(m, m.release(ids).model, tree),
        m.release(ids).model.handles == m.handles,
    decreases ids.len(),
{
    if ids.len() > 0 {
        let front = ids.drop_last();
        let last = ids.last();
        assert(ids[ids.len() - 1] == last);
        assert forall|i: int| 0 <= i < front.len() implies !tree.contains(#[trigger] front[i]) by {
            assert(front[i] == ids[i]);
        }
        lemma_release_outside(m, front, tree);
        let before = m.release(front).model;
        let n = m.release(ids).model;
        assert forall|x: AssetUuid| #[trigger] tree.contains(x) implies n.handle(x) == m.handle(x)
            && n.load_of(x) == m.load_of(x) by {
            assert(x != last);
            if m.handles.contains_key(x) && m.handles.contains_key(last) {
                assert(m.handles[x] != m.handles[last]);
            }
        }
    }
}

/// Advancing a load outside of `tree` does not affect the loads of `tree`.
proof fn lemma_advance_outside(
    m: LoaderModel,
    k: u64,
    tree: Seq<AssetUuid>,
    deps: Map<AssetUuid, Seq<AssetUuid>>,
)
    requires
        tables_agree(m),
        m.next_handle + dependency_count(m, k) <= u64::MAX,
        m.loads.contains_key(k),
        !tree.contains(m.loads[k].asset_id),
        depends_as(m, tree, deps),
    ensures
        same_on(m, m.advance(k).model, tree),
        forall|h: u64| h != k ==> #[trigger] frees(m.advance(k).calls, h) == 0,
        forall|h: u64| #[trigger] m.advance(k).retired.contains(h) ==> h == k,
{
    let e = m.advance(k);
    let load = m.loads[k];
    let id = load.asset_id;
    assert(m.handles.contains_key(id) && m.handles[id] == k);
    assert forall|x: AssetUuid| #[trigger] tree.contains(x) && m.handles.contains_key(x) implies
        m.handles[x] != k by {
        assert(x != id);
    }
    reveal_with_fuel(frees, 2);
    if load.state is RequestDependencies && m.metadata.contains_key(id) {
        lemma_add_refs_outside(m, m.metadata[id], tree);
        let r = m.add_refs(m.metadata[id]);
        law_add_refs_agree(m, m.metadata[id]);
        assert forall|x: AssetUuid| #[trigger] tree.contains(x) implies e.model.handle(x)
            == m.handle(x) && e.model.load_of(x) == m.load_of(x) by {
            assert(r.handle(x) == m.handle(x) && r.load_of(x) == m.load_of(x));
        }
    } else if load.state is UnloadRequested {
        let freed = m.free(k);
        assert(freed.calls.len() <= 1);
        assert(tables_agree(freed.model)) by {
            assert forall|j: u64| #[trigger] freed.model.loads.contains_key(j) implies
                freed.model.handles.contains_key(freed.model.loads[j].asset_id)
                && freed.model.handles[freed.model.loads[j].asset_id] == j by {
                assert(m.loads.contains_key(j));
            }
        }
        assert(same_on(m, freed.model, tree));
        if m.metadata.contains_key(id) {
            let deps_of = m.metadata[id];
            let released = freed.model.release(deps_of);
            lemma_release_outside(freed.model, deps_of, tree);
            lemma_release_silent(freed.model, deps_of);
            assert(e.calls =~= freed.calls);
            assert(e.retired =~= Seq::empty());
            assert forall|x: AssetUuid| #[trigger] tree.contains(x) implies e.model.handle(x)
                == m.handle(x) && e.model.load_of(x) == m.load_of(x) by {
                assert(released.model.load_of(x) == freed.model.load_of(x));
                assert(freed.model.load_of(x) == m.load_of(x));
            }
        } else {
            assert(e.calls =~= freed.calls);
            assert(e.retired =~= Seq::empty());
        }
        assert forall|h: u64| h != k implies #[trigger] frees(e.calls, h) == 0 by {
            if e.calls.len() == 1 {
                assert(e.calls.drop_last() =~= Seq::empty());
            }
        }
    }
}

/// What has become of the loads of `tree` on the way through a pass that began with `m`, when the
/// loads `done` have been advanced.
pub open spec fn underway(
    m: LoaderModel,
    n: LoaderModel,
    done: Seq<u64>,
    retired: Seq<u64>,
    calls: Seq<StorageCall>,
    tree: Seq<AssetUuid>,
    deps: Map<AssetUuid, Seq<AssetUuid>>,
) -> bool {
    &&& n.metadata == m.metadata
    &&& forall|x: AssetUuid| #[trigger]
        tree.contains(x) ==> {
            &&& n.handle(x) == m.handle(x)
            &&& n.load_of(x) is Some <==> m.load_of(x) is Some
            &&& m.load_of(x) is Some ==> moved(
                m.load_of(x)->0,
                n.load_of(x)->0,
                done.contains(m.handles[x]),
                retired.contains(m.handles[x]),
                frees(calls, m.handles[x]),
            ) && n.load_of(x)->0.refs == held(n, tree, deps, x)
        }
}

/// What has become of a load `a` of a tree: it is `b`, has been given up or not, and the storage
/// was told to free it so often.
pub open spec fn moved(a: AssetLoad, b: AssetLoad, done: bool, retired: bool, freed: nat) -> bool {
    &&& b.refs <= a.refs
    &&& if !done {
        b == (AssetLoad { refs: b.refs, ..a }) && !retired && freed == 0
    } else {
        match a.state {
            LoadState::UnloadRequested => {
                &&& b.state is Unloading
                &&& !b.pending_reload && b.auto_commit
                &&& !retired && freed == 1
            },
            LoadState::Unloading => b.state is Indeterminate && retired && freed == 0,
            _ => {
                &&& !retired && freed == 0
                &&& b == (AssetLoad { refs: b.refs, state: b.state, ..a })
                &&& if b.state is UnloadRequested {
                    b.refs == 0
                } else {
                    b.state == a.state && a.refs > 0
                }
            },
        }
    }
}

/// A pass over the loads, as far as the loads of `tree` go.
proof fn lemma_walk_moves(
    m: LoaderModel,
    order: Seq<u64>,
    tree: Seq<AssetUuid>,
    deps: Map<AssetUuid, Seq<AssetUuid>>,
    rank: spec_fn(AssetUuid) -> nat,
)
    requires
        tables_agree(m),
        order.no_duplicates(),
        forall|i: int| 0 <= i < order.len() ==> m.loads.contains_key(#[trigger] order[i]),
        m.next_handle + dependency_total(m, order) <= u64::MAX,
        m.walk(order).fault is None,
        tree.no_duplicates(),
        abandoned(m, tree, deps),
        depends_as(m, tree, deps),
        ranked(tree, deps, rank),
    ensures
        underway(
            m,
            m.walk(order).model,
            order,
            m.walk(order).retired,
            m.walk(order).calls,
            tree,
            deps,
        ),
    decreases order.len(),
{
    lemma_walk_agrees(m, order);
    if order.len() > 0 {
        let front = order.drop_last();
        let k = order.last();
        assert(order[order.len() - 1] == k);
        assert forall|i: int| 0 <= i < front.len() implies m.loads.contains_key(
            #[trigger] front[i],
        ) by {
            assert(front[i] == order[i]);
        }
        lemma_walk_moves(m, front, tree, deps, rank);
        lemma_walk_agrees(m, front);
        let before = m.walk(front);
        let next = before.model.advance(k);
        let e = m.walk(order);
        assert(m.loads.contains_key(k));
        assert(dependency_count(before.model, k) == dependency_count(m, k));
        assert(front.push(k) =~= order);
        assert(!front.contains(k)) by {
            if front.contains(k) {
                let j = choose|j: int| 0 <= j < front.len() && front[j] == k;
                assert(order[j] == order[order.len() - 1]);
            }
        }
        let y = m.loads[k].asset_id;
        assert(before.model.loads[k].asset_id == y);
        assert(m.handles.contains_key(y) && m.handles[y] == k);
        if tree.contains(y) {
            assert(before.model.handle(y) == m.handle(y));
            lemma_member_advances(m, before.model, k, tree, deps, rank);
        } else {
            lemma_advance_outside(before.model, k, tree, deps);
        }
        assert forall|x: AssetUuid| #[trigger] tree.contains(x) implies {
            &&& e.model.handle(x) == m.handle(x)
            &&& e.model.load_of(x) is Some <==> m.load_of(x) is Some
            &&& m.load_of(x) is Some ==> moved(
                m.load_of(x)->0,
                e.model.load_of(x)->0,
                order.contains(m.handles[x]),
                e.retired.contains(m.handles[x]),
                frees(e.calls, m.handles[x]),
            ) && e.model.load_of(x)->0.refs == held(e.model, tree, deps, x)
        } by {
            let h = m.handles[x];
            assert(before.model.handle(x) == m.handle(x));
            if m.load_of(x) is Some {
                assert(m.handles.contains_key(x));
                lemma_contains_push(front, k, h);
                lemma_contains_add(before.retired, next.retired, h);
                lemma_frees_add(before.calls, next.calls, h);
                if tree.contains(y) {
                } else {
                    assert(x != y);
                    assert(h != k);
                    assert(next.model.load_of(x) == before.model.load_of(x));
                    assert forall|i: int| 0 <= i < tree.len() implies holds(
                        next.model,
                        #[trigger] tree[i],
                    ) == holds(before.model, tree[i]) by {
                        assert(tree.contains(tree[i]));
                    }
                    lemma_held_same(before.model, next.model, tree, deps, x);
                }
            } else if !tree.contains(y) {
                assert(next.model.load_of(x) == before.model.load_of(x));
            }
        }
    } else {
        assert(m.walk(order).model == m);
    }
}

/// What advancing a load of `tree` does to the loads of `tree`, on the way through a pass.
proof fn lemma_member_advances(
    m: LoaderModel,
    n: LoaderModel,
    k: u64,
    tree: Seq<AssetUuid>,
    deps: Map<AssetUuid, Seq<AssetUuid>>,
    rank: spec_fn(AssetUuid) -> nat,
)
    requires
        tables_agree(m),
        tables_agree(n),
        n.metadata == m.metadata,
        m.loads.contains_key(k),
        n.loads.contains_key(k),
        n.loads[k] == (AssetLoad { refs: n.loads[k].refs, ..m.loads[k] }),
        n.loads[k].refs <= m.loads[k].refs,
        tree.contains(m.loads[k].asset_id),
        tree.no_duplicates(),
        abandoned(m, tree, deps),
        depends_as(m, tree, deps),
        ranked(tree, deps, rank),
        n.advance(k).fault is None,
        forall|x: AssetUuid| #[trigger]
            tree.contains(x) ==> n.handle(x) == m.handle(x) && (n.load_of(x) is Some ==> n.load_of(
                x,
            )->0.refs == held(n, tree, deps, x)),
    ensures
        ({
            let e = n.advance(k);
            &&& forall|x: AssetUuid| #[trigger]
                tree.contains(x) ==> {
                    &&& e.model.handle(x) == n.handle(x)
                    &&& e.model.load_of(x) is Some <==> n.load_of(x) is Some
                    &&& n.load_of(x) is Some ==> e.model.load_of(x)->0.refs <= n.load_of(x)->0.refs
                        && e.model.load_of(x)->0.refs == held(e.model, tree, deps, x)
                    &&& n.load_of(x) is Some && x != m.loads[k].asset_id ==> e.model.load_of(x)->0
                        == (AssetLoad { refs: e.model.load_of(x)->0.refs, ..n.load_of(x)->0 })
                }
            &&& moved(m.loads[k], e.model.loads[k], true, e.retired.contains(k), frees(e.calls, k))
            &&& forall|h: u64| h != k ==> #[trigger] frees(e.calls, h) == 0
            &&& forall|h: u64| #[trigger] e.retired.contains(h) ==> h == k
        }),
{
    let e = n.advance(k);
    let a = m.loads[k];
    let b = n.loads[k];
    let y = a.asset_id;
    assert(m.handles.contains_key(y) && m.handles[y] == k);
    assert(m.load_of(y) == Some(a));
    assert(n.handle(y) == m.handle(y));
    assert(going(a, held(m, tree, deps, y)));
    reveal_with_fuel(frees, 2);
    assert forall|x: AssetUuid| #[trigger] tree.contains(x) && x != y implies n.handle(x) != Some(
        k,
    ) by {
        assert(n.handle(x) == m.handle(x));
        if m.handles.contains_key(x) {
            assert(m.handles[x] != m.handles[y]);
        }
    }
    if a.state is UnloadRequested {
        let freed = n.free(k);
        let ids = deps[y];
        assert(n.metadata.contains_key(y));
        assert(m.metadata.contains_key(y));
        assert(m.metadata[y] == ids);
        let released = freed.model.release(ids);
        assert(tables_agree(freed.model)) by {
            assert forall|j: u64| #[trigger] freed.model.loads.contains_key(j) implies
                freed.model.handles.contains_key(freed.model.loads[j].asset_id)
                && freed.model.handles[freed.model.loads[j].asset_id] == j by {
                assert(n.loads.contains_key(j));
            }
        }
        lemma_release_silent(freed.model, ids);
        lemma_release_state(freed.model, ids, k);
        assert(!ids.contains(y)) by {
            if ids.contains(y) {
                let i = choose|i: int| 0 <= i < ids.len() && ids[i] == y;
                assert(deps[y][i] == y);
                assert(rank(deps[y][i]) < rank(y));
            }
        }
        assert(holds(n, y));
        assert(released.fault is None);
        assert(e.calls =~= freed.calls);
        assert(e.retired =~= Seq::empty());
        assert(freed.calls.drop_last() =~= Seq::empty());
        assert(e.model == released.model.with_state(k, LoadState::Unloading));
        assert(released.model.handles == n.handles) by {
            lemma_no_occurrence(ids, y);
            lemma_release_counts(freed.model, ids, y);
        }
        assert(!holds(e.model, y));
        assert forall|x: AssetUuid| #[trigger] tree.contains(x) && x != y implies {
            &&& e.model.handle(x) == n.handle(x)
            &&& e.model.load_of(x) is Some <==> n.load_of(x) is Some
            &&& n.load_of(x) is Some ==> n.load_of(x)->0.refs >= occurrences(ids, x)
                && e.model.load_of(x)->0 == (AssetLoad {
                refs: (n.load_of(x)->0.refs - occurrences(ids, x)) as usize,
                ..n.load_of(x)->0
            })
        } by {
            assert(freed.model.load_of(x) == n.load_of(x));
            if n.load_of(x) is Some {
                lemma_held_at_least(n, tree, deps, y, x);
                lemma_release_counts(freed.model, ids, x);
            } else if n.handles.contains_key(x) {
                let hx = n.handles[x];
                lemma_release_makes_none(freed.model, ids, hx);
            }
        }
        assert forall|i: int| 0 <= i < tree.len() && tree[i] != y implies holds(
            e.model,
            #[trigger] tree[i],
        ) == holds(n, tree[i]) by {
            assert(tree.contains(tree[i]));
        }
        assert forall|x: AssetUuid| #[trigger] tree.contains(x) implies {
            &&& e.model.handle(x) == n.handle(x)
            &&& e.model.load_of(x) is Some <==> n.load_of(x) is Some
            &&& n.load_of(x) is Some ==> e.model.load_of(x)->0.refs <= n.load_of(x)->0.refs
                && e.model.load_of(x)->0.refs == held(e.model, tree, deps, x)
            &&& n.load_of(x) is Some && x != y ==> e.model.load_of(x)->0 == (AssetLoad {
                refs: e.model.load_of(x)->0.refs,
                ..n.load_of(x)->0
            })
        } by {
            lemma_held_dropped(n, e.model, tree, deps, y, x);
            if x == y {
                lemma_no_occurrence(ids, y);
                lemma_release_counts(freed.model, ids, y);
            }
        }
    } else {
        assert(e.model.handles == n.handles);
        assert(e.model == n || e.model == n.with_load(k, e.model.loads[k]));
        assert(e.calls =~= Seq::empty());
        assert forall|i: int| 0 <= i < tree.len() implies holds(e.model, #[trigger] tree[i])
            == holds(n, tree[i]) by {
            assert(tree.contains(tree[i]));
        }
        assert forall|x: AssetUuid| #[trigger] tree.contains(x) implies {
            &&& e.model.handle(x) == n.handle(x)
            &&& e.model.load_of(x) is Some <==> n.load_of(x) is Some
            &&& n.load_of(x) is Some ==> e.model.load_of(x)->0.refs <= n.load_of(x)->0.refs
                && e.model.load_of(x)->0.refs == held(e.model, tree, deps, x)
            &&& n.load_of(x) is Some && x != y ==> e.model.load_of(x)->0 == (AssetLoad {
                refs: e.model.load_of(x)->0.refs,
                ..n.load_of(x)->0
            })
        } by {
            lemma_held_same(n, e.model, tree, deps, x);
        }
        if a.state is Unloading {
            assert(e.retired[0] == k);
            assert(e.retired.contains(k));
        }
    }
}

/// A load that holds references to an asset holds no more than all do together.
proof fn lemma_held_at_least(
    m: LoaderModel,
    tree: Seq<AssetUuid>,
    deps: Map<AssetUuid, Seq<AssetUuid>>,
    y: AssetUuid,
    id: AssetUuid,
)
    requires
        tree.contains(y),
        holds(m, y),
    ensures
        held(m, tree, deps, id) >= occurrences(deps[y], id),
    decreases tree.len(),
{
    let front = tree.drop_last();
    if tree.last() != y {
        let j = choose|j: int| 0 <= j < tree.len() && tree[j] == y;
        assert(front[j] == y);
        lemma_held_at_least(m, front, deps, y, id);
    }
}

/// Releasing assets makes no loads.
proof fn lemma_release_makes_none(m: LoaderModel, ids: Seq<AssetUuid>, h: u64)
    requires
        !m.loads.contains_key(h),
    ensures
        !m.release(ids).model.loads.contains_key(h),
    decreases ids.len(),
{
    if ids.len() > 0 {
        lemma_release_makes_none(m, ids.drop_last(), h);
    }
}

/// Whether a load is loaded, or on its way out, and waits for nothing.
pub open spec fn resting(load: AssetLoad) -> bool {
    &&& load.state == LoadState::Loaded(AssetLoadState::Loaded) || load.state is UnloadRequested
        || load.state is Unloading
    &&& load.auto_commit
}

/// Whether between `m` and `n` no load comes or goes, and loads that rest are left alone.
pub open spec fn leaves_alone(m: LoaderModel, n: LoaderModel) -> bool {
    &&& n.handles == m.handles
    &&& n.loads.dom() == m.loads.dom()
    &&& forall|h: u64| #[trigger]
        m.loads.contains_key(h) && resting(m.loads[h]) ==> n.loads[h] == m.loads[h]
}

/// What leaves loads that rest alone leaves the loads of an abandoned tree alone.
proof fn lemma_left_alone(
    m: LoaderModel,
    n: LoaderModel,
    tree: Seq<AssetUuid>,
    deps: Map<AssetUuid, Seq<AssetUuid>>,
)
    requires
        abandoned(m, tree, deps),
        leaves_alone(m, n),
    ensures
        same_on(m, n, tree),
{
    assert forall|x: AssetUuid| #[trigger] tree.contains(x) implies n.handle(x) == m.handle(x)
        && n.load_of(x) == m.load_of(x) by {
        if m.load_of(x) is Some {
            assert(m.loads.contains_key(m.handles[x]));
        }
    }
}

/// A tree is abandoned where its loads are the same.
proof fn lemma_same_abandoned(
    m: LoaderModel,
    n: LoaderModel,
    tree: Seq<AssetUuid>,
    deps: Map<AssetUuid, Seq<AssetUuid>>,
)
    requires
        abandoned(m, tree, deps),
        same_on(m, n, tree),
    ensures
        abandoned(n, tree, deps),
{
    assert forall|i: int| 0 <= i < tree.len() implies holds(n, #[trigger] tree[i]) == holds(
        m,
        tree[i],
    ) by {
        assert(tree.contains(tree[i]));
    }
    assert forall|x: AssetUuid| #[trigger]
        tree.contains(x) && n.load_of(x) is Some implies going(
        n.load_of(x)->0,
        held(n, tree, deps, x),
    ) by {
        lemma_held_same(m, n, tree, deps, x);
    }
}

/// Whether none of `ids` is in `tree`.
pub open spec fn avoids(ids: Seq<AssetUuid>, tree: Seq<AssetUuid>) -> bool {
    forall|i: int| 0 <= i < ids.len() ==> !tree.contains(#[trigger] ids[i])
}

/// Whether what has become of assets is not about `tree`.
pub open spec fn changes_avoid(changes: Option<ChangeSet>, tree: Seq<AssetUuid>) -> bool {
    changes matches Some(set) ==> avoids(set.changed, tree) && avoids(set.deleted, tree)
}

/// Noting what has become of assets outside of `tree` does not affect the loads of `tree`.
pub proof fn lemma_note_outside(m: LoaderModel, ids: Seq<AssetUuid>, tree: Seq<AssetUuid>)
    requires
        tables_agree(m),
        avoids(ids, tree),
    ensures
        same_on(m, m.note_changes(ids), tree),
        m.note_changes(ids).handles == m.handles,
        same_on(m, m.note_deletions(ids), tree),
        m.note_deletions(ids).handles == m.handles,
    decreases ids.len(),
{
    if ids.len() > 0 {
        let front = ids.drop_last();
        let last = ids.last();
        assert(ids[ids.len() - 1] == last);
        assert(avoids(front, tree)) by {
            assert forall|i: int| 0 <= i < front.len() implies !tree.contains(
                #[trigger] front[i],
            ) by {
                assert(front[i] == ids[i]);
            }
        }
        lemma_note_outside(m, front, tree);
        assert forall|x: AssetUuid| #[trigger] tree.contains(x) implies m.note_changes(ids).handle(
            x,
        ) == m.handle(x) && m.note_changes(ids).load_of(x) == m.load_of(x) && m.note_deletions(
            ids,
        ).load_of(x) == m.load_of(x) by {
            assert(x != last);
            assert(m.note_changes(front).load_of(x) == m.load_of(x));
            assert(m.note_deletions(front).load_of(x) == m.load_of(x));
            if m.handles.contains_key(x) && m.handles.contains_key(last) {
                assert(m.handles[x] != m.handles[last]);
            }
        }
    }
}

pub proof fn lemma_commit_reloads_alone(m: LoaderModel, reloads: Seq<PendingReload>)
    ensures
        leaves_alone(m, m.commit_reloads(reloads).model),
        forall|h: u64| #[trigger] frees(m.commit_reloads(reloads).calls, h) == 0,
    decreases reloads.len(),
{
    if reloads.len() > 0 {
        let front = reloads.drop_last();
        lemma_commit_reloads_alone(m, front);
        let before = m.commit_reloads(front);
        let next = before.model.commit_reload(reloads.last());
        let n = m.commit_reloads(reloads).model;
        assert(n.loads.dom() =~= m.loads.dom());
        assert forall|h: u64| #[trigger]
            m.loads.contains_key(h) && resting(m.loads[h]) implies n.loads[h] == m.loads[h] by {
            assert(before.model.loads[h] == m.loads[h]);
        }
        assert forall|h: u64| #[trigger]
            frees(m.commit_reloads(reloads).calls, h) == 0 by {
            assert(frees(before.calls, h) == 0);
            lemma_no_free(next.calls, h);
            lemma_frees_add(before.calls, next.calls, h);
        }
    }
}

/// Where there is no call to free a load, it is not freed.
proof fn lemma_no_free(calls: Seq<StorageCall>, h: u64)
    requires
        forall|i: int| 0 <= i < calls.len() ==> !(#[trigger] calls[i] is Free),
    ensures
        frees(calls, h) == 0,
    decreases calls.len(),
{
    if calls.len() > 0 {
        let front = calls.drop_last();
        assert forall|i: int| 0 <= i < front.len() implies !(#[trigger] front[i] is Free) by {
            assert(front[i] == calls[i]);
        }
        assert(calls[calls.len() - 1] == calls.last());
        lemma_no_free(front, h);
    }
}

pub proof fn lemma_apply_ops_alone(m: LoaderModel, ops: Seq<HandleOp>)
    requires
        m.apply_ops(ops).fault is None,
    ensures
        leaves_alone(m, m.apply_ops(ops).model),
        forall|h: u64| #[trigger] frees(m.apply_ops(ops).calls, h) == 0,
    decreases ops.len(),
{
    if ops.len() > 0 {
        let front = ops.drop_last();
        lemma_apply_ops_alone(m, front);
        let before = m.apply_ops(front);
        let next = before.model.polled(Some(ops.last())).apply_op(ops.last());
        let n = m.apply_ops(ops).model;
        assert(n.loads.dom() =~= m.loads.dom());
        assert forall|h: u64| #[trigger]
            m.loads.contains_key(h) && resting(m.loads[h]) implies n.loads[h] == m.loads[h] by {
            assert(before.model.loads[h] == m.loads[h]);
        }
        assert forall|h: u64| #[trigger] frees(m.apply_ops(ops).calls, h) == 0 by {
            assert(frees(before.calls, h) == 0);
            lemma_no_free(next.calls, h);
            lemma_frees_add(before.calls, next.calls, h);
        }
    }
}

proof fn lemma_records_alone(m: LoaderModel, records: Seq<AssetRecord>)
    ensures
        leaves_alone(m, after_records(m, records)),
    decreases records.len(),
{
    if records.len() > 0 {
        let before = after_records(m, records.drop_last());
        let n = after_records(m, records);
        lemma_records_alone(m, records.drop_last());
        assert(n.loads.dom() =~= m.loads.dom());
        assert forall|h: u64| #[trigger]
            m.loads.contains_key(h) && resting(m.loads[h]) implies n.loads[h] == m.loads[h] by {
            assert(before.loads[h] == m.loads[h]);
        }
    }
}

proof fn lemma_ask_again_alone(m: LoaderModel, requested: Seq<(AssetUuid, LoadHandle)>)
    ensures
        leaves_alone(m, m.ask_again_all(requested).model),
    decreases requested.len(),
{
    if requested.len() > 0 {
        let before = m.ask_again_all(requested.drop_last()).model;
        let n = m.ask_again_all(requested).model;
        lemma_ask_again_alone(m, requested.drop_last());
        assert(n.loads.dom() =~= m.loads.dom());
        assert forall|h: u64| #[trigger]
            m.loads.contains_key(h) && resting(m.loads[h]) implies n.loads[h] == m.loads[h] by {
            assert(before.loads[h] == m.loads[h]);
        }
    }
}

/// Leaving loads that rest alone twice leaves them alone.
proof fn lemma_alone_twice(a: LoaderModel, b: LoaderModel, c: LoaderModel)
    requires
        leaves_alone(a, b),
        leaves_alone(b, c),
    ensures
        leaves_alone(a, c),
{
    assert forall|h: u64| #[trigger]
        a.loads.contains_key(h) && resting(a.loads[h]) implies c.loads[h] == a.loads[h] by {
        assert(b.loads.contains_key(h));
    }
}

proof fn lemma_settle_all_metadata_alone(
    m: LoaderModel,
    settled: Seq<(Option<MetadataResponse>, Vec<(AssetUuid, LoadHandle)>)>,
)
    ensures
        leaves_alone(m, m.settle_all_metadata(settled).model),
    decreases settled.len(),
{
    if settled.len() > 0 {
        let last = settled.last();
        lemma_settle_all_metadata_alone(m, settled.drop_last());
        let before = m.settle_all_metadata(settled.drop_last()).model;
        lemma_ask_again_alone(before, last.1@);
        let n = before.settle_metadata(last.0, last.1@).model;
        if last.0 is Some && (last.0->0).assets is Ok {
            let records = (last.0->0).assets->Ok_0@;
            lemma_records_alone(before, records);
            let told = after_records(before, records);
            lemma_ask_again_alone(told, last.1@);
            lemma_alone_twice(before, told, told.ask_again_all(last.1@).model);
        }
        lemma_alone_twice(m, before, n);
    }
}

pub proof fn lemma_settle_all_data_alone(
    m: LoaderModel,
    settled: Seq<(Option<DataResponse>, LoadHandle)>,
    accepted: Seq<bool>,
)
    requires
        forall|i: int|
            0 <= i < settled.len() ==> may_be_answered(m, (#[trigger] settled[i]).1.0),
    ensures
        leaves_alone(m, m.settle_all_data(settled, accepted).model),
        forall|h: u64| #[trigger] frees(m.settle_all_data(settled, accepted).calls, h) == 0,
    decreases settled.len(),
{
    if settled.len() > 0 {
        let front = settled.drop_last();
        let last = settled.last();
        assert(settled[settled.len() - 1] == last);
        assert forall|i: int| 0 <= i < front.len() implies may_be_answered(
            m,
            (#[trigger] front[i]).1.0,
        ) by {
            assert(front[i] == settled[i]);
        }
        lemma_settle_all_data_alone(m, front, accepted);
        let before = m.settle_all_data(front, accepted);
        let taken = accepted[before.calls.len() as int];
        let next = before.model.settle_data(last.0, last.1, taken);
        let e = m.settle_all_data(settled, accepted);
        assert(may_be_answered(m, last.1.0));
        assert(e.model.loads.dom() =~= m.loads.dom());
        assert forall|h: u64| #[trigger]
            m.loads.contains_key(h) && resting(m.loads[h]) implies e.model.loads[h] == m.loads[h] by {
            assert(before.model.loads[h] == m.loads[h]);
            assert(h != last.1.0);
        }
        assert forall|h: u64| #[trigger] frees(e.calls, h) == 0 by {
            assert(frees(before.calls, h) == 0);
            lemma_no_free(next.calls, h);
            lemma_frees_add(before.calls, next.calls, h);
        }
    }
}

/// How far the load of `x` is on its way out: not at all, about to be freed, freed, gone.
pub open spec fn stage(m: LoaderModel, x: AssetUuid) -> nat {
    match m.load_of(x) {
        None => 3,
        Some(load) => if load.state is Loaded {
            0
        } else if load.state is UnloadRequested {
            1
        } else {
            2
        },
    }
}

/// What a round does to the loads of an abandoned tree: none goes back, each that is on its way out
/// takes a step, each that has no references begins, and those that were about to be freed are
/// freed.
proof fn lemma_round_unloads<D, M>(
    s: Play<D, M>,
    r: Round<D, M>,
    tree: Seq<AssetUuid>,
    deps: Map<AssetUuid, Seq<AssetUuid>>,
    rank: spec_fn(AssetUuid) -> nat,
)
    requires
        steady(s),
        r.fits(s),
        tree.no_duplicates(),
        abandoned(s.model, tree, deps),
        depends_as(s.model, tree, deps),
        ranked(tree, deps, rank),
        changes_avoid(r.changes, tree),
    ensures
        ({
            let t = r.after(s);
            &&& abandoned(t.model, tree, deps)
            &&& forall|x: AssetUuid| #[trigger]
                tree.contains(x) ==> {
                    let before = stage(s.model, x);
                    let after = stage(t.model, x);
                    &&& t.model.handle(x) == s.model.handle(x)
                    &&& after >= before
                    &&& before >= 1 ==> after >= before + 1 || after == 3
                    &&& before == 0 && s.model.load_of(x)->0.refs == 0 ==> after >= 1
                    &&& after <= before + 1
                    &&& s.model.handles.contains_key(x) ==> frees(t.calls, s.model.handles[x])
                        == frees(s.calls, s.model.handles[x]) + if before == 1 {
                        1nat
                    } else {
                        0
                    }
                }
        }),
{
    let t = r.after(s);
    let m = s.model;
    // changes
    let a = m.process_changes(r.changes);
    assert(same_on(m, a.model, tree) && a.model.handles == m.handles && forall|h: u64| #[trigger]
        frees(a.calls, h) == 0) by {
        lemma_commit_reloads_alone(m, m.pending_reloads);
        let c = m.commit_reloads(m.pending_reloads);
        lemma_left_alone(m, c.model, tree, deps);
        assert(c.calls + Seq::<StorageCall>::empty() =~= c.calls);
        if r.changes is Some {
            let set = r.changes->0;
            let noted = m.note_changes(set.changed);
            lemma_note_outside(m, set.changed, tree);
            lemma_note_changes_agrees(m, set.changed);
            lemma_note_outside(noted, set.deleted, tree);
            assert forall|x: AssetUuid| #[trigger] tree.contains(x) implies noted.note_deletions(
                set.deleted,
            ).load_of(x) == m.load_of(x) by {
                assert(noted.load_of(x) == m.load_of(x));
            }
        }
        if m.pending_reloads.len() > 0 {
            assert forall|x: AssetUuid| #[trigger] tree.contains(x) implies a.model.handle(x)
                == m.handle(x) && a.model.load_of(x) == m.load_of(x) by {
                assert(c.model.load_of(x) == m.load_of(x));
            }
            assert forall|h: u64| #[trigger] frees(a.calls, h) == 0 by {
                assert(frees(c.calls, h) == 0);
            }
        }
    }
    law_process_changes_agrees(m, r.changes);
    law_process_changes_coherent(m, r.changes);
    lemma_same_abandoned(m, a.model, tree, deps);
    // reports
    let applied = a.model.apply_ops(r.ops);
    let b = a.model.follow_ops(r.ops);
    let n = reported(m, r.changes, r.ops);
    assert(n.fault is None);
    assert(applied.fault is None);
    lemma_apply_ops_alone(a.model, r.ops);
    assert(leaves_alone(a.model, b.model));
    assert(b.calls =~= applied.calls);
    lemma_left_alone(a.model, b.model, tree, deps);
    lemma_same_abandoned(a.model, b.model, tree, deps);
    law_apply_ops_agree(a.model, r.ops);
    assert(n.model == b.model);
    lemma_reported_metadata(m, r.changes, r.ops);
    assert(depends_as(n.model, tree, deps));
    // the loads are advanced
    assert forall|i: int| 0 <= i < r.order.len() implies n.model.loads.contains_key(
        #[trigger] r.order[i],
    ) by {
        assert(r.order.contains(r.order[i]));
    }
    let walked = n.model.walk(r.order);
    let c = n.model.advance_all(r.order);
    lemma_walk_moves(n.model, r.order, tree, deps, rank);
    lemma_walk_agrees(n.model, r.order);
    assert(c.calls =~= walked.calls);
    assert(r.cycled(s).model == c.model);
    assert forall|x: AssetUuid| #[trigger] tree.contains(x) implies {
        let before = stage(m, x);
        let after = stage(c.model, x);
        &&& c.model.handle(x) == m.handle(x)
        &&& holds(c.model, x) == holds(walked.model, x)
        &&& c.model.load_of(x) is Some ==> c.model.load_of(x) == walked.model.load_of(x)
        &&& after >= before && after <= before + 1
        &&& before >= 1 ==> after >= before + 1 || after == 3
        &&& before == 0 && m.load_of(x)->0.refs == 0 ==> after >= 1
        &&& m.handles.contains_key(x) ==> frees(walked.calls, m.handles[x]) == if before == 1 {
            1nat
        } else {
            0
        }
    } by {
        assert(a.model.load_of(x) == m.load_of(x));
        assert(n.model.load_of(x) == a.model.load_of(x));
        assert(walked.model.handle(x) == n.model.handle(x));
        if m.load_of(x) is Some {
            let h = m.handles[x];
            assert(n.model.loads.contains_key(h));
            assert(r.order.contains(h));
            assert(going(n.model.load_of(x)->0, held(n.model, tree, deps, x)));
            assert(walked.retired.to_set().contains(h) <==> walked.retired.contains(h));
        } else if m.handles.contains_key(x) {
            let h = m.handles[x];
            lemma_walk_frees_loads(n.model, r.order, h);
        }
    }
    assert(abandoned(c.model, tree, deps)) by {
        assert forall|i: int| 0 <= i < tree.len() implies holds(c.model, #[trigger] tree[i])
            == holds(walked.model, tree[i]) by {
            assert(tree.contains(tree[i]));
        }
        assert forall|x: AssetUuid| #[trigger]
            tree.contains(x) && c.model.load_of(x) is Some implies going(
            c.model.load_of(x)->0,
            held(c.model, tree, deps, x),
        ) by {
            lemma_held_same(walked.model, c.model, tree, deps, x);
            let h = m.handles[x];
            assert(a.model.load_of(x) == m.load_of(x));
            assert(n.model.load_of(x) == a.model.load_of(x));
            assert(walked.model.load_of(x) is Some);
            assert(n.model.loads.contains_key(h));
            assert(r.order.contains(h));
            assert(going(n.model.load_of(x)->0, held(n.model, tree, deps, x)));
            assert(walked.retired.to_set().contains(h) <==> walked.retired.contains(h));
        }
    }
    // answers with metadata
    let told = r.told(s);
    lemma_settle_all_metadata_alone(c.model, settlements(r.metadata));
    let asked = r.asked(s);
    assert(asked.loads.dom() =~= told.model.loads.dom());
    assert(leaves_alone(told.model, asked));
    lemma_alone_twice(c.model, told.model, asked);
    // answers with data
    let settled = settlements(r.data);
    let handles = handles_of(s.data);
    law_cycle_sound(m, r.changes, r.ops, r.order);
    law_cycle_account(m, r.changes, r.ops, r.order, s.calls, handles);
    law_metadata_account(c.model, settlements(r.metadata), s.calls + r.cycled(s).calls, handles);
    lemma_divided(r.data, 0);
    assert forall|i: int| 0 <= i < settled.len() implies may_be_answered(
        asked,
        (#[trigger] settled[i]).1.0,
    ) by {
        assert(settled_handles(settled)[i] == settled[i].1);
        assert(settled_handles(settled).contains(settled[i].1));
        assert(handles.contains(settled[i].1));
    }
    lemma_settle_all_data_alone(asked, settled, r.accepted);
    let fed = r.fed(s);
    assert(t.model.loads.dom() =~= fed.model.loads.dom());
    assert(leaves_alone(fed.model, t.model));
    lemma_alone_twice(asked, fed.model, t.model);
    lemma_alone_twice(c.model, asked, t.model);
    lemma_left_alone(c.model, t.model, tree, deps);
    lemma_same_abandoned(c.model, t.model, tree, deps);
    assert forall|x: AssetUuid| #[trigger] tree.contains(x) implies {
        let before = stage(m, x);
        let after = stage(t.model, x);
        &&& t.model.handle(x) == m.handle(x)
        &&& after >= before
        &&& before >= 1 ==> after >= before + 1 || after == 3
        &&& before == 0 && m.load_of(x)->0.refs == 0 ==> after >= 1
        &&& after <= before + 1
        &&& m.handles.contains_key(x) ==> frees(t.calls, m.handles[x]) == frees(
            s.calls,
            m.handles[x],
        ) + if before == 1 {
            1nat
        } else {
            0
        }
    } by {
        assert(t.model.load_of(x) == c.model.load_of(x));
        let h = m.handles[x];
        let e = r.cycled(s);
        assert(e.calls =~= a.calls + b.calls + c.calls);
        lemma_frees_add(a.calls, b.calls, h);
        lemma_frees_add(a.calls + b.calls, c.calls, h);
        lemma_frees_add(s.calls, e.calls, h);
        lemma_frees_add(s.calls + e.calls, fed.calls, h);
        assert(frees(a.calls, h) == 0);
        assert(frees(applied.calls, h) == 0);
        assert(frees(fed.calls, h) == 0);
    }
}

/// Noting changes keeps the tables in agreement.
pub proof fn lemma_note_changes_agrees(m: LoaderModel, ids: Seq<AssetUuid>)
    requires
        tables_agree(m),
    ensures
        tables_agree(m.note_changes(ids)),
    decreases ids.len(),
{
    if ids.len() > 0 {
        lemma_note_changes_agrees(m, ids.drop_last());
        let before = m.note_changes(ids.drop_last());
        let n = m.note_changes(ids);
        assert forall|h: u64| #[trigger] n.loads.contains_key(h) implies n.handles.contains_key(
            n.loads[h].asset_id,
        ) && n.handles[n.loads[h].asset_id] == h by {
            assert(before.loads.contains_key(h));
        }
    }
}

/// Changes and reports do not affect what is known of dependencies.
pub proof fn lemma_reported_metadata(m: LoaderModel, changes: Option<ChangeSet>, ops: Seq<HandleOp>)
    ensures
        reported(m, changes, ops).model.metadata == m.metadata,
{
    lemma_commit_reloads_metadata(m, m.pending_reloads);
    if changes is Some {
        let set = changes->0;
        lemma_note_metadata(m, set.changed);
        lemma_note_metadata(m.note_changes(set.changed), set.deleted);
    }
    lemma_apply_ops_metadata(m.process_changes(changes).model, ops);
}

proof fn lemma_commit_reloads_metadata(m: LoaderModel, reloads: Seq<PendingReload>)
    ensures
        m.commit_reloads(reloads).model.metadata == m.metadata,
    decreases reloads.len(),
{
    if reloads.len() > 0 {
        lemma_commit_reloads_metadata(m, reloads.drop_last());
    }
}

proof fn lemma_note_metadata(m: LoaderModel, ids: Seq<AssetUuid>)
    ensures
        m.note_changes(ids).metadata == m.metadata,
        m.note_deletions(ids).metadata == m.metadata,
    decreases ids.len(),
{
    if ids.len() > 0 {
        lemma_note_metadata(m, ids.drop_last());
    }
}

proof fn lemma_apply_ops_metadata(m: LoaderModel, ops: Seq<HandleOp>)
    ensures
        m.apply_ops(ops).model.metadata == m.metadata,
    decreases ops.len(),
{
    if ops.len() > 0 {
        lemma_apply_ops_metadata(m, ops.drop_last());
    }
}

/// A pass frees only loads that it advances.
pub proof fn lemma_walk_frees_loads(m: LoaderModel, order: Seq<u64>, h: u64)
    requires
        !order.contains(h),
    ensures
        frees(m.walk(order).calls, h) == 0,
    decreases order.len(),
{
    if order.len() > 0 {
        let front = order.drop_last();
        let k = order.last();
        assert(front.push(k) =~= order);
        lemma_contains_push(front, k, h);
        lemma_walk_frees_loads(m, front, h);
        let before = m.walk(front);
        let next = before.model.advance(k);
        lemma_frees_add(before.calls, next.calls, h);
        if before.model.loads.contains_key(k) && before.model.loads[k].state is UnloadRequested {
            let freed = before.model.free(k);
            let id = before.model.loads[k].asset_id;
            lemma_release_silent(freed.model, before.model.metadata[id]);
            assert(next.calls =~= freed.calls);
            reveal_with_fuel(frees, 2);
            if freed.calls.len() > 0 {
                assert(freed.calls.drop_last() =~= Seq::empty());
            }
        } else {
            assert(next.calls =~= Seq::empty());
        }
    }
}

/// What rounds make of an abandoned tree.
proof fn lemma_run_unloads<D, M>(
    states: Seq<Play<D, M>>,
    rounds: Seq<Round<D, M>>,
    i: int,
    tree: Seq<AssetUuid>,
    deps: Map<AssetUuid, Seq<AssetUuid>>,
    rank: spec_fn(AssetUuid) -> nat,
)
    requires
        is_run(states, rounds),
        steady(states[0]),
        0 <= i <= rounds.len(),
        tree.no_duplicates(),
        abandoned(states[0].model, tree, deps),
        ranked(tree, deps, rank),
        forall|j: int| 0 <= j < states.len() ==> depends_as((#[trigger] states[j]).model, tree, deps),
        forall|j: int|
            0 <= j < rounds.len() ==> changes_avoid((#[trigger] rounds[j]).changes, tree),
    ensures
        steady(states[i]),
        abandoned(states[i].model, tree, deps),
        forall|x: AssetUuid| #[trigger]
            tree.contains(x) ==> {
                let first = stage(states[0].model, x);
                let now = stage(states[i].model, x);
                &&& states[i].model.handle(x) == states[0].model.handle(x)
                &&& now >= first
                &&& states[0].model.handles.contains_key(x) ==> frees(
                    states[i].calls,
                    states[0].model.handles[x],
                ) == frees(states[0].calls, states[0].model.handles[x]) + if first <= 1 && now >= 2 {
                    1nat
                } else {
                    0
                }
            },
    decreases i,
{
    if i > 0 {
        lemma_run_unloads(states, rounds, i - 1, tree, deps, rank);
        let r = rounds[i - 1];
        let s = states[i - 1];
        assert(states[i] == r.after(s));
        law_round_steady(s, r);
        lemma_round_unloads(s, r, tree, deps, rank);
        assert forall|x: AssetUuid| #[trigger] tree.contains(x) implies {
            let first = stage(states[0].model, x);
            let now = stage(states[i].model, x);
            &&& states[i].model.handle(x) == states[0].model.handle(x)
            &&& now >= first
            &&& states[0].model.handles.contains_key(x) ==> frees(
                states[i].calls,
                states[0].model.handles[x],
            ) == frees(states[0].calls, states[0].model.handles[x]) + if first <= 1 && now >= 2 {
                1nat
            } else {
                0
            }
        } by {
            assert(s.model.handle(x) == states[0].model.handle(x));
            assert(stage(s.model, x) >= stage(states[0].model, x));
        }
    }
}

/// Once the assets of `tree` of rank `bound` and above are gone, those one rank below are gone
/// three rounds later.
proof fn lemma_rank_goes<D, M>(
    states: Seq<Play<D, M>>,
    rounds: Seq<Round<D, M>>,
    i: int,
    tree: Seq<AssetUuid>,
    deps: Map<AssetUuid, Seq<AssetUuid>>,
    rank: spec_fn(AssetUuid) -> nat,
    bound: int,
)
    requires
        is_run(states, rounds),
        steady(states[0]),
        0 <= i,
        i + 3 <= rounds.len(),
        tree.no_duplicates(),
        abandoned(states[0].model, tree, deps),
        ranked(tree, deps, rank),
        forall|j: int| 0 <= j < states.len() ==> depends_as((#[trigger] states[j]).model, tree, deps),
        forall|j: int|
            0 <= j < rounds.len() ==> changes_avoid((#[trigger] rounds[j]).changes, tree),
        forall|x: AssetUuid| #[trigger]
            tree.contains(x) && rank(x) >= bound ==> states[i].model.load_of(x) is None,
    ensures
        forall|x: AssetUuid| #[trigger]
            tree.contains(x) && rank(x) >= bound - 1 ==> states[i + 3].model.load_of(x) is None,
{
    lemma_run_unloads(states, rounds, i, tree, deps, rank);
    lemma_run_unloads(states, rounds, i + 1, tree, deps, rank);
    lemma_run_unloads(states, rounds, i + 2, tree, deps, rank);
    let m = states[i].model;
    assert(states[i + 1] == rounds[i].after(states[i]));
    assert(states[i + 2] == rounds[i + 1].after(states[i + 1]));
    assert(states[i + 3] == rounds[i + 2].after(states[i + 2]));
    lemma_round_unloads(states[i], rounds[i], tree, deps, rank);
    lemma_round_unloads(states[i + 1], rounds[i + 1], tree, deps, rank);
    lemma_round_unloads(states[i + 2], rounds[i + 2], tree, deps, rank);
    assert forall|x: AssetUuid| #[trigger] tree.contains(x) && rank(x) >= bound - 1 implies states[i
        + 3].model.load_of(x) is None by {
        if m.load_of(x) is Some {
            assert forall|j: int| 0 <= j < tree.len() && holds(m, #[trigger] tree[j]) implies !deps[
                tree[j]].contains(x) by {
                let y = tree[j];
                assert(tree.contains(y));
                if deps[y].contains(x) {
                    let l = choose|l: int| 0 <= l < deps[y].len() && deps[y][l] == x;
                    assert(rank(deps[y][l]) < rank(y));
                }
            }
            lemma_held_none(m, tree, deps, x);
            assert(going(m.load_of(x)->0, held(m, tree, deps, x)));
        }
        assert(stage(states[i + 1].model, x) >= 1);
        assert(stage(states[i + 2].model, x) >= 2);
        assert(stage(states[i + 3].model, x) == 3);
        if states[i + 3].model.load_of(x) is Some {
            assert(stage(states[i + 3].model, x) <= 2);
        }
    }
}

/// What nobody refers to is given up, and all that it depended on with it. Given assets that are
/// loaded, or on their way out, and that nobody refers to but others of them that depend on them,
/// none of them is left after three rounds for each rank, whatever other loads there are and
/// whatever happens to those: each of them is not requested any more, and the storage was told to
/// free it, once.
///
/// For one asset that nothing else depends on, and that has lost its last reference, that is three
/// rounds. The daemon's word on what depends on what must not change on the way, and the assets
/// must not be reported as changed.
pub proof fn law_abandoned_assets_go<D, M>(
    states: Seq<Play<D, M>>,
    rounds: Seq<Round<D, M>>,
    tree: Seq<AssetUuid>,
    deps: Map<AssetUuid, Seq<AssetUuid>>,
    rank: spec_fn(AssetUuid) -> nat,
    top: nat,
)
    requires
        is_run(states, rounds),
        steady(states[0]),
        tree.no_duplicates(),
        abandoned(states[0].model, tree, deps),
        ranked(tree, deps, rank),
        forall|x: AssetUuid| #[trigger] tree.contains(x) ==> rank(x) <= top,
        forall|j: int| 0 <= j < states.len() ==> depends_as((#[trigger] states[j]).model, tree, deps),
        forall|j: int|
            0 <= j < rounds.len() ==> changes_avoid((#[trigger] rounds[j]).changes, tree),
        rounds.len() >= 3 * (top + 1),
    ensures
        ({
            let first = states[0];
            let end = states[3 * (top + 1) as int];
            forall|x: AssetUuid| #[trigger]
                tree.contains(x) ==> {
                    &&& end.model.load_of(x) is None
                    &&& first.model.load_of(x) is Some ==> {
                        let h = first.model.handles[x];
                        &&& end.model.status(h) == LoadStatus::NotRequested
                        &&& end.model.handle(x) == Some(h)
                        &&& !(first.model.load_of(x)->0.state is Unloading) ==> frees(end.calls, h)
                            == frees(first.calls, h) + 1
                    }
                }
        }),
{
    lemma_ranks_go(states, rounds, tree, deps, rank, top, 0);
    lemma_run_unloads(states, rounds, 3 * (top + 1) as int, tree, deps, rank);
    let first = states[0];
    let end = states[3 * (top + 1) as int];
    assert forall|x: AssetUuid| #[trigger] tree.contains(x) implies {
        &&& end.model.load_of(x) is None
        &&& first.model.load_of(x) is Some ==> {
            let h = first.model.handles[x];
            &&& end.model.status(h) == LoadStatus::NotRequested
            &&& end.model.handle(x) == Some(h)
            &&& !(first.model.load_of(x)->0.state is Unloading) ==> frees(end.calls, h) == frees(
                first.calls,
                h,
            ) + 1
        }
    } by {
        assert(rank(x) >= 0);
        assert(end.model.load_of(x) is None);
        assert(end.model.handle(x) == first.model.handle(x));
        if first.model.load_of(x) is Some {
            assert(going(first.model.load_of(x)->0, held(first.model, tree, deps, x)));
        }
    }
}

/// Rank by rank, from the top down to `low`.
proof fn lemma_ranks_go<D, M>(
    states: Seq<Play<D, M>>,
    rounds: Seq<Round<D, M>>,
    tree: Seq<AssetUuid>,
    deps: Map<AssetUuid, Seq<AssetUuid>>,
    rank: spec_fn(AssetUuid) -> nat,
    top: nat,
    low: int,
)
    requires
        is_run(states, rounds),
        steady(states[0]),
        0 <= low <= top + 1,
        tree.no_duplicates(),
        abandoned(states[0].model, tree, deps),
        ranked(tree, deps, rank),
        forall|x: AssetUuid| #[trigger] tree.contains(x) ==> rank(x) <= top,
        forall|j: int| 0 <= j < states.len() ==> depends_as((#[trigger] states[j]).model, tree, deps),
        forall|j: int|
            0 <= j < rounds.len() ==> changes_avoid((#[trigger] rounds[j]).changes, tree),
        rounds.len() >= 3 * (top + 1),
    ensures
        forall|x: AssetUuid| #[trigger]
            tree.contains(x) && rank(x) >= low ==> states[3 * (top + 1 - low)].model.load_of(
                x,
            ) is None,
    decreases top + 1 - low,
{
    if low <= top {
        lemma_ranks_go(states, rounds, tree, deps, rank, top, low + 1);
        let i = 3 * (top + 1 - (low + 1));
        assert(i + 3 == 3 * (top + 1 - low));
        lemma_rank_goes(states, rounds, i, tree, deps, rank, low + 1);
    }
}

} // verus!
