//! Who refers to the assets of a tree while it is loaded: its loads and the caller, and nobody
//! else.

use crate::channel::HandleOp;
use crate::ids::AssetUuid;
use crate::laws::coherence::coherent;
use crate::laws::loading::{
    closed_under, countable, held_on_to, helpful_rounds, is_loaded, knows, law_patient_run,
    law_referenced_assets_are_loaded, lemma_patient_answers, lemma_patient_pass,
    lemma_patient_reports, lemma_state_until_turn, lemma_step_on_tree, lemma_walk_progresses,
    on_the_way, patient, patient_run, place, progressed, referenced_by, rooted, wanted,
};
use crate::laws::references::{lemma_no_occurrence, occurrences, refs_of, tables_agree};
use crate::laws::round::law_cycle_sound;
use crate::laws::rounds::{
    law_initial_steady, law_references_steady, law_run_steady, steady, Play, Round,
};
use crate::laws::tables::{dependency_count, dependency_total, lemma_walk_agrees};
use crate::laws::unloading::{abandoned, depends_as, going, held, holds, ranked};
use crate::model::LoaderModel;
use crate::rpc_loader::reported;
use crate::state::LoadStatus;
use crossbeam_channel::Sender;
use std::sync::Arc;
use vstd::prelude::*;

verus! {

/// Whether the load of `x` has requested its dependencies.
pub open spec fn has_requested(m: LoaderModel, x: AssetUuid) -> bool {
    m.load_of(x) matches Some(load) && 4 <= place(load) <= 8
}

/// How many references the loads of `tree` have taken on the asset `id`, if `deps` are their
/// dependencies.
pub open spec fn taken(
    m: LoaderModel,
    tree: Seq<AssetUuid>,
    deps: Map<AssetUuid, Seq<AssetUuid>>,
    id: AssetUuid,
) -> nat
    decreases tree.len(),
{
    if tree.len() == 0 {
        0
    } else {
        taken(m, tree.drop_last(), deps, id) + if has_requested(m, tree.last()) {
            occurrences(deps[tree.last()], id)
        } else {
            0
        }
    }
}

/// Whether the assets of `tree` have the references that the loads of `tree` have taken, and `own`
/// on top of that.
pub open spec fn counted(
    m: LoaderModel,
    tree: Seq<AssetUuid>,
    deps: Map<AssetUuid, Seq<AssetUuid>>,
    own: spec_fn(AssetUuid) -> nat,
) -> bool {
    forall|x: AssetUuid| #[trigger]
        tree.contains(x) ==> refs_of(m, x) == own(x) + taken(m, tree, deps, x)
}

/// What is taken depends on which loads have requested their dependencies.
proof fn lemma_taken_same(
    m: LoaderModel,
    n: LoaderModel,
    tree: Seq<AssetUuid>,
    deps: Map<AssetUuid, Seq<AssetUuid>>,
    id: AssetUuid,
)
    requires
        forall|i: int|
            0 <= i < tree.len() ==> has_requested(n, #[trigger] tree[i]) == has_requested(
                m,
                tree[i],
            ),
    ensures
        taken(n, tree, deps, id) == taken(m, tree, deps, id),
    decreases tree.len(),
{
    if tree.len() > 0 {
        let front = tree.drop_last();
        assert forall|i: int| 0 <= i < front.len() implies has_requested(n, #[trigger] front[i])
            == has_requested(m, front[i]) by {
            assert(front[i] == tree[i]);
        }
        lemma_taken_same(m, n, front, deps, id);
        assert(tree[tree.len() - 1] == tree.last());
    }
}

/// What is taken when the load of `y` requests its dependencies.
proof fn lemma_taken_more(
    m: LoaderModel,
    n: LoaderModel,
    tree: Seq<AssetUuid>,
    deps: Map<AssetUuid, Seq<AssetUuid>>,
    y: AssetUuid,
    id: AssetUuid,
)
    requires
        tree.no_duplicates(),
        tree.contains(y),
        !has_requested(m, y),
        has_requested(n, y),
        forall|i: int|
            0 <= i < tree.len() && tree[i] != y ==> has_requested(n, #[trigger] tree[i])
                == has_requested(m, tree[i]),
    ensures
        taken(n, tree, deps, id) == taken(m, tree, deps, id) + occurrences(deps[y], id),
    decreases tree.len(),
{
    let front = tree.drop_last();
    assert(tree[tree.len() - 1] == tree.last());
    assert forall|i: int| 0 <= i < front.len() && front[i] != y implies has_requested(
        n,
        #[trigger] front[i],
    ) == has_requested(m, front[i]) by {
        assert(front[i] == tree[i]);
    }
    if tree.last() == y {
        assert forall|i: int| 0 <= i < front.len() implies has_requested(n, #[trigger] front[i])
            == has_requested(m, front[i]) by {
            assert(front[i] == tree[i]);
            assert(tree[i] != tree[tree.len() - 1]);
        }
        lemma_taken_same(m, n, front, deps, id);
    } else {
        let j = choose|j: int| 0 <= j < tree.len() && tree[j] == y;
        assert(front[j] == y);
        lemma_taken_more(m, n, front, deps, y, id);
    }
}

/// Where the assets of a tree have as many references as before, and the same loads have requested
/// their dependencies, the references are those that they were.
proof fn lemma_counted_same(
    m: LoaderModel,
    n: LoaderModel,
    tree: Seq<AssetUuid>,
    deps: Map<AssetUuid, Seq<AssetUuid>>,
    own: spec_fn(AssetUuid) -> nat,
)
    requires
        counted(m, tree, deps, own),
        forall|x: AssetUuid| #[trigger]
            tree.contains(x) ==> refs_of(n, x) == refs_of(m, x) && has_requested(n, x)
                == has_requested(m, x),
    ensures
        counted(n, tree, deps, own),
{
    assert forall|i: int| 0 <= i < tree.len() implies has_requested(n, #[trigger] tree[i])
        == has_requested(m, tree[i]) by {
        assert(tree.contains(tree[i]));
    }
    assert forall|x: AssetUuid| #[trigger] tree.contains(x) implies refs_of(n, x) == own(x) + taken(
        n,
        tree,
        deps,
        x,
    ) by {
        lemma_taken_same(m, n, tree, deps, x);
    }
}

/// A pass over the loads keeps count of the references to the assets of a tree.
proof fn lemma_walk_counts(
    m: LoaderModel,
    order: Seq<u64>,
    tree: Seq<AssetUuid>,
    deps: Map<AssetUuid, Seq<AssetUuid>>,
    own: spec_fn(AssetUuid) -> nat,
)
    requires
        tables_agree(m),
        order.no_duplicates(),
        forall|i: int| 0 <= i < order.len() ==> m.loads.contains_key(#[trigger] order[i]),
        m.next_handle + dependency_total(m, order) <= u64::MAX,
        m.walk(order).fault is None,
        on_the_way(m, tree, deps),
        held_on_to(m, tree),
        countable(m, tree, dependency_total(m, order)),
        closed_under(tree, deps),
        depends_as(m, tree, deps),
        tree.no_duplicates(),
        counted(m, tree, deps, own),
    ensures
        counted(m.walk(order).model, tree, deps, own),
    decreases order.len(),
{
    if order.len() > 0 {
        let front = order.drop_last();
        let k = order.last();
        assert(order[order.len() - 1] == k);
        assert forall|i: int| 0 <= i < front.len() implies m.loads.contains_key(
            #[trigger] front[i],
        ) by {
            assert(front[i] == order[i]);
        }
        lemma_walk_counts(m, front, tree, deps, own);
        lemma_walk_progresses(m, front, tree, deps);
        lemma_walk_agrees(m, front);
        let n = m.walk(front).model;
        let e = n.advance(k);
        assert(m.walk(order).model == e.model);
        assert(m.loads.contains_key(k));
        assert(dependency_count(n, k) == dependency_count(m, k));
        assert(!front.contains(k)) by {
            if front.contains(k) {
                let j = choose|j: int| 0 <= j < front.len() && front[j] == k;
                assert(order[j] == order[order.len() - 1]);
            }
        }
        let y = m.loads[k].asset_id;
        assert(n.loads[k].asset_id == y);
        assert(m.handles.contains_key(y) && m.handles[y] == k);
        lemma_state_until_turn(m, front, k);
        assert forall|x: AssetUuid| #[trigger] tree.contains(x) && n.handles.contains_key(
            x,
        ) implies n.load_of(x) is Some && n.load_of(x)->0.refs + dependency_count(m, k)
            <= usize::MAX && 0 <= place(n.load_of(x)->0) <= 8 by {
            assert(progressed(m, n, front, deps, x));
            if m.handles.contains_key(x) {
                assert(m.load_of(x) is Some && wanted(m.load_of(x)->0));
            }
        }
        assert(countable(n, tree, dependency_count(n, k)));
        if tree.contains(y) {
            assert(progressed(m, n, front, deps, y));
            assert(wanted(m.load_of(y)->0));
        }
        lemma_step_on_tree(n, k, tree);
        let ids = referenced_by(n, k);
        assert(n.handles.contains_key(y) && n.handles[y] == k);
        assert forall|x: AssetUuid| #[trigger] tree.contains(x) implies refs_of(e.model, x)
            == refs_of(n, x) + occurrences(ids, x) && (x != y ==> has_requested(e.model, x)
            == has_requested(n, x)) by {
            assert(progressed(m, n, front, deps, x));
            if x == y {
                assert(e.model.handle(y) == n.handle(y));
                assert(wanted(m.load_of(y)->0));
                assert(e.model.loads.contains_key(k));
            }
        }
        if tree.contains(y) && n.loads[k].state is RequestDependencies {
            assert(ids == deps[y]);
            assert forall|i: int| 0 <= i < tree.len() && tree[i] != y implies has_requested(
                e.model,
                #[trigger] tree[i],
            ) == has_requested(n, tree[i]) by {
                assert(tree.contains(tree[i]));
            }
            assert(has_requested(e.model, y) && !has_requested(n, y));
            assert forall|x: AssetUuid| #[trigger] tree.contains(x) implies refs_of(e.model, x)
                == own(x) + taken(e.model, tree, deps, x) by {
                lemma_taken_more(n, e.model, tree, deps, y, x);
            }
        } else {
            assert forall|x: AssetUuid| #[trigger] tree.contains(x) implies refs_of(e.model, x)
                == refs_of(n, x) && has_requested(e.model, x) == has_requested(n, x) by {
                if n.loads[k].state is RequestDependencies {
                    assert(m.metadata.contains_key(y));
                    assert(!ids.contains(x)) by {
                        if ids.contains(x) {
                            let i = choose|i: int| 0 <= i < ids.len() && ids[i] == x;
                            assert(!tree.contains(m.metadata[y][i]));
                        }
                    }
                    lemma_no_occurrence(ids, x);
                } else {
                    assert(!ids.contains(x));
                    lemma_no_occurrence(ids, x);
                }
                if x == y {
                    assert(wanted(m.load_of(y)->0));
                }
            }
            lemma_counted_same(n, e.model, tree, deps, own);
        }
    }
}

/// A round in which nobody stands in their way keeps count of the references to the assets of a
/// tree.
proof fn lemma_round_counts<D, M>(
    s: Play<D, M>,
    r: Round<D, M>,
    tree: Seq<AssetUuid>,
    deps: Map<AssetUuid, Seq<AssetUuid>>,
    own: spec_fn(AssetUuid) -> nat,
)
    requires
        steady(s),
        r.fits(s),
        patient(s, r, tree, deps),
        on_the_way(s.model, tree, deps),
        closed_under(tree, deps),
        depends_as(s.model, tree, deps),
        tree.no_duplicates(),
        counted(s.model, tree, deps, own),
    ensures
        counted(r.after(s).model, tree, deps, own),
{
    let t = r.after(s).model;
    let m = s.model;
    let n = reported(m, r.changes, r.ops).model;
    let c = r.cycled(s).model;
    assert(reported(m, r.changes, r.ops).fault is None);
    assert(n.advance_all(r.order).fault is None);
    assert(c == n.advance_all(r.order).model);
    lemma_patient_reports(m, r.changes, r.ops, tree, deps);
    assert forall|x: AssetUuid| #[trigger] tree.contains(x) implies refs_of(n, x) == refs_of(m, x)
        && has_requested(n, x) == has_requested(m, x) by {
        if m.handles.contains_key(x) {
            assert(m.load_of(x) is Some && wanted(m.load_of(x)->0));
            assert(n.load_of(x) is Some && wanted(n.load_of(x)->0));
        }
    }
    lemma_counted_same(m, n, tree, deps, own);
    assert(depends_as(n, tree, deps));
    assert forall|i: int| 0 <= i < r.order.len() implies n.loads.contains_key(
        #[trigger] r.order[i],
    ) by {
        assert(r.order.contains(r.order[i]));
    }
    lemma_walk_counts(n, r.order, tree, deps, own);
    lemma_patient_pass(n, r.order, tree, deps);
    let walked = n.walk(r.order).model;
    assert forall|x: AssetUuid| #[trigger] tree.contains(x) implies refs_of(c, x) == refs_of(
        walked,
        x,
    ) && has_requested(c, x) == has_requested(walked, x) by {}
    lemma_counted_same(walked, c, tree, deps, own);
    law_cycle_sound(m, r.changes, r.ops, r.order);
    assert(knows(c, tree, deps)) by {
        assert forall|x: AssetUuid| #[trigger]
            tree.contains(x) && c.metadata.contains_key(x) implies c.metadata[x] == deps[x] by {
            assert(m.metadata.contains_key(x));
        }
    }
    lemma_patient_answers(s, r, tree, deps);
    assert forall|x: AssetUuid| #[trigger] tree.contains(x) implies refs_of(t, x) == refs_of(c, x)
        && has_requested(t, x) == has_requested(c, x) by {
        if c.handles.contains_key(x) {
            assert(c.load_of(x) is Some && wanted(c.load_of(x)->0));
        }
    }
    lemma_counted_same(c, t, tree, deps, own);
}

proof fn lemma_run_counts<D, M>(
    states: Seq<Play<D, M>>,
    rounds: Seq<Round<D, M>>,
    tree: Seq<AssetUuid>,
    deps: Map<AssetUuid, Seq<AssetUuid>>,
    own: spec_fn(AssetUuid) -> nat,
    i: int,
)
    requires
        patient_run(states, rounds, tree, deps),
        forall|j: int| 0 <= j < states.len() ==> depends_as((#[trigger] states[j]).model, tree, deps),
        tree.no_duplicates(),
        counted(states[0].model, tree, deps, own),
        0 <= i <= rounds.len(),
    ensures
        counted(states[i].model, tree, deps, own),
    decreases i,
{
    if i > 0 {
        lemma_run_counts(states, rounds, tree, deps, own, i - 1);
        law_run_steady(states, rounds, i - 1);
        law_patient_run(states, rounds, tree, deps, i - 1);
        let r = rounds[i - 1];
        lemma_round_counts(states[i - 1], r, tree, deps, own);
    }
}

/// What is held and what was taken are the same where all of a tree is loaded.
proof fn lemma_held_is_taken(
    m: LoaderModel,
    n: LoaderModel,
    tree: Seq<AssetUuid>,
    deps: Map<AssetUuid, Seq<AssetUuid>>,
    id: AssetUuid,
)
    requires
        forall|i: int|
            0 <= i < tree.len() ==> is_loaded(m, #[trigger] tree[i]) && is_loaded(n, tree[i]),
    ensures
        held(n, tree, deps, id) == taken(m, tree, deps, id),
    decreases tree.len(),
{
    if tree.len() > 0 {
        let front = tree.drop_last();
        assert forall|i: int| 0 <= i < front.len() implies is_loaded(m, #[trigger] front[i])
            && is_loaded(n, front[i]) by {
            assert(front[i] == tree[i]);
        }
        lemma_held_is_taken(m, n, front, deps, id);
        assert(tree[tree.len() - 1] == tree.last());
        assert(is_loaded(m, tree.last()) && is_loaded(n, tree.last()));
        assert(has_requested(m, tree.last()));
        assert(holds(n, tree.last()));
    }
}

/// The caller's references to an asset are all that keeps it and what it depends on: if a tree of
/// assets that nothing else depends on is loaded, and the caller's one reference to `root` is all
/// that there is to begin with, then removing that reference leaves the tree to go, `root` first
/// and with it, rank by rank, all that it depends on.
pub proof fn law_lone_reference_keeps_a_tree<D, M>(
    states: Seq<Play<D, M>>,
    rounds: Seq<Round<D, M>>,
    tree: Seq<AssetUuid>,
    deps: Map<AssetUuid, Seq<AssetUuid>>,
    rank: spec_fn(AssetUuid) -> nat,
    root: AssetUuid,
    top: nat,
)
    requires
        patient_run(states, rounds, tree, deps),
        ranked(tree, deps, rank),
        rooted(tree, deps, root),
        states[0].model.handles.contains_key(root),
        forall|x: AssetUuid| #[trigger] tree.contains(x) ==> rank(x) <= top,
        helpful_rounds(states, rounds, tree, deps, rounds.len()) >= 12 * (top + 1),
        tree.no_duplicates(),
        forall|j: int| 0 <= j < states.len() ==> depends_as((#[trigger] states[j]).model, tree, deps),
        counted(
            states[0].model,
            tree,
            deps,
            |x: AssetUuid|
                if x == root {
                    1nat
                } else {
                    0
                },
        ),
        states.last().model.next_handle < u64::MAX,
    ensures
        ({
            let end = states.last();
            let h = states[0].model.handles[root];
            let left = Play { model: end.model.remove_ref(h), ..end };
            &&& end.model.status(h) == LoadStatus::Loaded
            &&& steady(left)
            &&& abandoned(left.model, tree, deps)
            &&& depends_as(left.model, tree, deps)
        }),
{
    let n: int = rounds.len() as int;
    let own = |x: AssetUuid|
        if x == root {
            1nat
        } else {
            0
        };
    law_referenced_assets_are_loaded(states, rounds, tree, deps, rank, root, top);
    lemma_run_counts(states, rounds, tree, deps, own, n);
    law_run_steady(states, rounds, n);
    law_patient_run(states, rounds, tree, deps, n);
    let end = states[n];
    let m = end.model;
    let h = states[0].model.handles[root];
    let left = m.remove_ref(h);
    assert(m.handle(root) == Some(h));
    law_references_steady(end, root, h);
    assert forall|x: AssetUuid| #[trigger] tree.contains(x) implies is_loaded(m, x) && is_loaded(
        left,
        x,
    ) && left.handle(x) == m.handle(x) && wanted(m.load_of(x)->0) by {
        assert(m.load_of(x) is Some && wanted(m.load_of(x)->0));
        assert(coherent(m.loads[m.handles[x]]));
    }
    assert forall|i: int| 0 <= i < tree.len() implies is_loaded(m, #[trigger] tree[i])
        && is_loaded(left, tree[i]) by {
        assert(tree.contains(tree[i]));
    }
    assert forall|x: AssetUuid| #[trigger]
        tree.contains(x) && left.load_of(x) is Some implies going(
        left.load_of(x)->0,
        held(left, tree, deps, x),
    ) by {
        lemma_held_is_taken(m, left, tree, deps, x);
        assert(refs_of(m, x) == own(x) + taken(m, tree, deps, x));
        assert(coherent(m.loads[m.handles[x]]));
        assert(wanted(m.load_of(x)->0));
        if x != root {
            assert(m.handles.contains_key(x) && m.handles.contains_key(root));
            assert(m.handles[x] != m.handles[root]);
        }
    }
}

/// Nothing is taken where no load has requested its dependencies.
proof fn lemma_taken_none(
    m: LoaderModel,
    tree: Seq<AssetUuid>,
    deps: Map<AssetUuid, Seq<AssetUuid>>,
    id: AssetUuid,
)
    requires
        forall|x: AssetUuid| !(#[trigger] has_requested(m, x)),
    ensures
        taken(m, tree, deps, id) == 0,
    decreases tree.len(),
{
    if tree.len() > 0 {
        lemma_taken_none(m, tree.drop_last(), deps, id);
        assert(!has_requested(m, tree.last()));
    }
}

/// So it is when a caller's first call on a new loader references `root`: all is in order, whatever
/// `tree` and `deps` are the assets of it are on the way as far as they are known, and the caller's
/// is the one reference there is.
pub proof fn law_first_reference<D, M>(
    reports: Arc<Sender<HandleOp>>,
    tree: Seq<AssetUuid>,
    deps: Map<AssetUuid, Seq<AssetUuid>>,
    root: AssetUuid,
)
    ensures
        ({
            let s = Play::<D, M> {
                model: LoaderModel::initial(reports).add_ref(root),
                metadata: Seq::empty(),
                data: Seq::empty(),
                calls: Seq::empty(),
            };
            &&& steady(s)
            &&& s.model.handles.contains_key(root)
            &&& on_the_way(s.model, tree, deps)
            &&& depends_as(s.model, tree, deps)
            &&& counted(
                s.model,
                tree,
                deps,
                |x: AssetUuid|
                    if x == root {
                        1nat
                    } else {
                        0
                    },
            )
        }),
{
    let first = Play::<D, M> {
        model: LoaderModel::initial(reports),
        metadata: Seq::empty(),
        data: Seq::empty(),
        calls: Seq::empty(),
    };
    law_initial_steady::<D, M>(reports);
    law_references_steady(first, root, 0);
    let m = first.model.add_ref(root);
    assert forall|x: AssetUuid| !(#[trigger] has_requested(m, x)) by {}
    assert forall|x: AssetUuid| #[trigger] tree.contains(x) implies taken(m, tree, deps, x) == 0 by {
        lemma_taken_none(m, tree, deps, x);
    }
}

} // verus!
