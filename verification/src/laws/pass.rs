//! A pass over the loads: each load takes one step.

use crate::ids::AssetUuid;
use crate::laws::coherence::lemma_release_state;
use crate::laws::flight::lemma_contains_add;
use crate::laws::references::{law_add_refs_agree, tables_agree};
use crate::laws::tables::{dependency_count, dependency_total, lemma_walk_agrees};
use crate::model::{is_order_of, LoaderModel};
use crate::state::AssetLoad;
use crate::walk::lemma_release_silent;
use vstd::prelude::*;

verus! {

/// Whether `b` is `a`, apart from the number of references.
pub open spec fn same_but_refs(a: AssetLoad, b: AssetLoad) -> bool {
    b == AssetLoad { refs: b.refs, ..a }
}

/// Referencing assets changes no more of a load than the number of its references, as long as
/// handles are left.
pub proof fn lemma_add_refs_elsewhere(m: LoaderModel, ids: Seq<AssetUuid>, h: u64)
    requires
        tables_agree(m),
        m.next_handle + ids.len() <= u64::MAX,
        m.loads.contains_key(h),
    ensures
        m.add_refs(ids).loads.contains_key(h),
        same_but_refs(m.loads[h], m.add_refs(ids).loads[h]),
    decreases ids.len(),
{
    if ids.len() > 0 {
        let front = ids.drop_last();
        lemma_add_refs_elsewhere(m, front, h);
        law_add_refs_agree(m, front);
    }
}

/// Advancing a load changes no more of another load than the number of its references, as long as
/// handles are left, and gives up no other load.
pub proof fn lemma_advance_elsewhere(m: LoaderModel, k: u64, h: u64)
    requires
        tables_agree(m),
        m.next_handle + dependency_count(m, k) <= u64::MAX,
        m.loads.contains_key(h),
        k != h,
    ensures
        m.advance(k).model.loads.contains_key(h),
        same_but_refs(m.loads[h], m.advance(k).model.loads[h]),
        !m.advance(k).retired.contains(h),
{
    if m.loads.contains_key(k) {
        let load = m.loads[k];
        if m.metadata.contains_key(load.asset_id) {
            let deps = m.metadata[load.asset_id];
            if load.state is RequestDependencies {
                lemma_add_refs_elsewhere(m, deps, h);
            }
            if load.state is UnloadRequested {
                lemma_release_state(m.free(k).model, deps, h);
                lemma_release_silent(m.free(k).model, deps);
            }
        }
    }
}

/// Advancing loads other than `h` changes no more of `h` than the number of its references, as long
/// as handles are left, and does not give `h` up.
pub proof fn lemma_walk_elsewhere(m: LoaderModel, order: Seq<u64>, h: u64)
    requires
        tables_agree(m),
        forall|i: int| 0 <= i < order.len() ==> m.loads.contains_key(#[trigger] order[i]),
        m.next_handle + dependency_total(m, order) <= u64::MAX,
        m.loads.contains_key(h),
        !order.contains(h),
    ensures
        m.walk(order).model.loads.contains_key(h),
        same_but_refs(m.loads[h], m.walk(order).model.loads[h]),
        !m.walk(order).retired.contains(h),
    decreases order.len(),
{
    if order.len() > 0 {
        let front = order.drop_last();
        let last = order.last();
        assert(order[order.len() - 1] == last);
        assert forall|i: int| 0 <= i < front.len() implies m.loads.contains_key(
            #[trigger] front[i],
        ) && front[i] != h by {
            assert(front[i] == order[i]);
            assert(order.contains(order[i]));
        }
        assert(order.contains(last));
        lemma_walk_elsewhere(m, front, h);
        lemma_walk_agrees(m, front);
        let before = m.walk(front);
        assert(dependency_count(before.model, last) == dependency_count(m, last));
        lemma_advance_elsewhere(before.model, last, h);
        lemma_contains_add(before.retired, before.model.advance(last).retired, h);
    }
}

/// Whether the load `h` has its turn in a pass when the loader is `n`: until then nothing but the
/// number of its references changes, and from then on nothing else either.
pub open spec fn has_turn(m: LoaderModel, n: LoaderModel, end: LoaderModel, h: u64) -> bool {
    &&& n.metadata == m.metadata
    &&& n.loads.contains_key(h)
    &&& same_but_refs(m.loads[h], n.loads[h])
    &&& end.loads.contains_key(h)
    &&& same_but_refs(n.advance(h).model.loads[h], end.loads[h])
}

/// When a load has its turn.
proof fn lemma_turn(m: LoaderModel, order: Seq<u64>, h: u64) -> (i: int)
    requires
        tables_agree(m),
        order.no_duplicates(),
        forall|i: int| 0 <= i < order.len() ==> m.loads.contains_key(#[trigger] order[i]),
        m.next_handle + dependency_total(m, order) <= u64::MAX,
        m.walk(order).fault is None,
        order.contains(h),
    ensures
        0 <= i < order.len(),
        order[i] == h,
        m.walk(order.take(i)).fault is None,
        m.walk(order.take(i)).model.advance(h).fault is None,
        has_turn(m, m.walk(order.take(i)).model, m.walk(order).model, h),
        m.walk(order).retired.contains(h) <==> m.walk(order.take(i)).model.advance(
            h,
        ).retired.contains(h),
    decreases order.len(),
{
    let front = order.drop_last();
    let last = order.last();
    assert(order[order.len() - 1] == last);
    assert forall|i: int| 0 <= i < front.len() implies m.loads.contains_key(#[trigger] front[i]) by {
        assert(front[i] == order[i]);
    }
    let before = m.walk(front);
    lemma_walk_agrees(m, front);
    assert(m.loads.contains_key(last));
    assert(dependency_count(before.model, last) == dependency_count(m, last));
    lemma_contains_add(before.retired, before.model.advance(last).retired, h);
    if last == h {
        let i = order.len() - 1;
        assert(order.take(i) =~= front);
        assert(!front.contains(h)) by {
            if front.contains(h) {
                let j = choose|j: int| 0 <= j < front.len() && front[j] == h;
                assert(order[j] == order[i]);
            }
        }
        lemma_walk_elsewhere(m, front, h);
        lemma_advance_keeps_itself(before.model, h);
        i
    } else {
        let j = choose|j: int| 0 <= j < order.len() && order[j] == h;
        assert(front[j] == h);
        let i = lemma_turn(m, front, h);
        assert(front.take(i) =~= order.take(i));
        lemma_advance_elsewhere(before.model, last, h);
        i
    }
}

/// Advancing a load does not remove it.
proof fn lemma_advance_keeps_itself(m: LoaderModel, h: u64)
    requires
        m.loads.contains_key(h),
    ensures
        m.advance(h).model.loads.contains_key(h),
{
    let load = m.loads[h];
    if load.state is UnloadRequested && m.metadata.contains_key(load.asset_id) {
        lemma_release_state(m.free(h).model, m.metadata[load.asset_id], h);
    }
}

/// In a pass over the loads each load takes one step, in whatever order the loads come: it is
/// advanced once, and apart from that a pass changes nothing of it but the number of its
/// references. A load is removed exactly if its own step gives it up.
pub proof fn law_one_step_per_pass(m: LoaderModel, order: Seq<u64>, h: u64)
    requires
        tables_agree(m),
        is_order_of(order, m),
        m.next_handle + dependency_total(m, order) <= u64::MAX,
        m.advance_all(order).fault is None,
        m.loads.contains_key(h),
    ensures
        exists|i: int|
            {
                let n = m.walk(#[trigger] order.take(i)).model;
                let step = n.advance(h);
                let end = m.advance_all(order).model;
                &&& 0 <= i < order.len()
                &&& order[i] == h
                &&& step.fault is None
                &&& has_turn(m, n, m.walk(order).model, h)
                &&& end.loads.contains_key(h) <==> !step.retired.contains(h)
                &&& end.loads.contains_key(h) ==> same_but_refs(step.model.loads[h], end.loads[h])
            },
{
    assert forall|i: int| 0 <= i < order.len() implies m.loads.contains_key(
        #[trigger] order[i],
    ) by {
        assert(order.contains(order[i]));
    }
    assert(order.contains(h));
    let i = lemma_turn(m, order, h);
    let walked = m.walk(order);
    assert(walked.retired.to_set().contains(h) <==> walked.retired.contains(h));
}

} // verus!
