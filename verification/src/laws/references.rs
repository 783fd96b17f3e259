//! References: who needs an asset, and for how long.

use crate::ids::AssetUuid;
use crate::model::{new_load, LoaderModel};
use crate::state::AssetLoad;
use crate::walk::{lemma_add_refs_keep, lemma_release_keeps};
use vstd::prelude::*;

verus! {

impl LoaderModel {
    /// This loader with a load for each of `ids` that never had one.
    pub open spec fn known_all(self, ids: Seq<AssetUuid>) -> Self
        decreases ids.len(),
    {
        if ids.len() == 0 {
            self
        } else {
            self.known_all(ids.drop_last()).known(ids.last())
        }
    }
}

/// Whether the tables of a loader agree: each asset has a handle of its own, below the next one to
/// be given out, and each load is filed under the handle of its asset.
pub open spec fn tables_agree(m: LoaderModel) -> bool {
    &&& 1 <= m.next_handle
    &&& forall|id: AssetUuid| #[trigger]
        m.handles.contains_key(id) ==> 1 <= m.handles[id] < m.next_handle
    &&& forall|a: AssetUuid, b: AssetUuid| #[trigger]
        m.handles.contains_key(a) && #[trigger] m.handles.contains_key(b) && a != b
            ==> m.handles[a] != m.handles[b]
    &&& forall|h: u64| #[trigger]
        m.loads.contains_key(h) ==> m.handles.contains_key(m.loads[h].asset_id)
            && m.handles[m.loads[h].asset_id] == h
}

/// Counting up and down cancels out.
proof fn lemma_wrapping(x: usize)
    ensures
        usize::wrapping_sub(usize::wrapping_add(x, 1), 1) == x,
        usize::wrapping_add(usize::wrapping_sub(x, 1), 1) == x,
{
}

/// A reference to an asset gets the handle of the asset, which stays what it is: every later
/// reference gets the same handle, and no other asset is affected.
pub proof fn law_handle_is_stable(m: LoaderModel, id: AssetUuid, other: AssetUuid)
    ensures
        m.add_ref(id).handle(id) == Some(m.handle_for(id)),
        m.add_ref(id).handle_for(id) == m.handle_for(id),
        m.handles.contains_key(other) ==> m.add_ref(id).handle(other) == m.handle(other),
        other != id ==> m.add_ref(id).handle(other) == m.handle(other),
{
}

/// Removing a reference undoes adding it: what is left is that the asset has a load.
pub proof fn law_remove_undoes_add(m: LoaderModel, id: AssetUuid)
    ensures
        m.add_ref(id).remove_ref(m.handle_for(id)) == m.known(id),
{
    let h = m.handle_for(id);
    let k = m.known(id);
    if k.loads.contains_key(h) {
        lemma_wrapping(k.loads[h].refs);
        assert(m.add_ref(id).remove_ref(h).loads =~= k.loads);
    }
}

/// Adding a reference undoes removing it.
pub proof fn law_add_undoes_remove(m: LoaderModel, id: AssetUuid)
    requires
        m.handles.contains_key(id),
    ensures
        m.remove_ref(m.handles[id]).add_ref(id) == m,
{
    let h = m.handles[id];
    if m.loads.contains_key(h) {
        lemma_wrapping(m.loads[h].refs);
        assert(m.remove_ref(h).add_ref(id).loads =~= m.loads);
    }
}

/// Releasing a load that has a handle already and referencing an asset can change places.
proof fn lemma_release_one_commutes(m: LoaderModel, id: AssetUuid, h: u64)
    requires
        h != m.next_handle,
    ensures
        m.add_ref(id).remove_ref(h) == m.remove_ref(h).add_ref(id),
{
    let k = m.handle_for(id);
    if m.loads.contains_key(h) {
        lemma_wrapping(m.loads[h].refs);
    }
    assert(m.add_ref(id).remove_ref(h).loads =~= m.remove_ref(h).add_ref(id).loads);
}

/// Releasing assets that have handles already never stops, keeps the handles, and can change places
/// with referencing an asset.
proof fn lemma_release_commutes(m: LoaderModel, ids: Seq<AssetUuid>, id: AssetUuid)
    requires
        tables_agree(m),
        forall|i: int| 0 <= i < ids.len() ==> m.handles.contains_key(#[trigger] ids[i]),
    ensures
        m.release(ids).fault is None,
        m.release(ids).model.handles == m.handles,
        m.release(ids).model.next_handle == m.next_handle,
        m.add_ref(id).release(ids).fault is None,
        m.add_ref(id).release(ids).model == m.release(ids).model.add_ref(id),
    decreases ids.len(),
{
    if ids.len() > 0 {
        let front = ids.drop_last();
        assert forall|i: int| 0 <= i < front.len() implies m.handles.contains_key(
            #[trigger] front[i],
        ) by {
            assert(front[i] == ids[i]);
        }
        lemma_release_commutes(m, front, id);
        let last = ids.last();
        assert(ids[ids.len() - 1] == last);
        assert(m.handles.contains_key(last));
        lemma_release_one_commutes(m.release(front).model, id, m.handles[last]);
    }
}

/// Making loads for assets keeps the tables in agreement, as long as handles are left.
pub proof fn lemma_known_agrees(m: LoaderModel, id: AssetUuid)
    requires
        tables_agree(m),
        m.next_handle < u64::MAX,
    ensures
        tables_agree(m.known(id)),
        m.known(id).handles.contains_key(id),
        m.known(id).next_handle <= m.next_handle + 1,
{
    let k = m.known(id);
    if !m.handles.contains_key(id) {
        assert forall|a: AssetUuid, b: AssetUuid| #[trigger]
            k.handles.contains_key(a) && #[trigger] k.handles.contains_key(b) && a
                != b implies k.handles[a] != k.handles[b] by {
            if a != id {
                assert(m.handles.contains_key(a));
            }
            if b != id {
                assert(m.handles.contains_key(b));
            }
        }
        assert forall|h: u64| #[trigger] k.loads.contains_key(h) implies k.handles.contains_key(
            k.loads[h].asset_id,
        ) && k.handles[k.loads[h].asset_id] == h by {
            if h != m.next_handle {
                assert(m.loads.contains_key(h));
            }
        }
    }
}

/// Referencing assets keeps the tables in agreement, as long as handles are left.
pub proof fn law_add_refs_agree(m: LoaderModel, ids: Seq<AssetUuid>)
    requires
        tables_agree(m),
        m.next_handle + ids.len() <= u64::MAX,
    ensures
        tables_agree(m.add_refs(ids)),
        m.add_refs(ids).next_handle <= m.next_handle + ids.len(),
        forall|id: AssetUuid| #[trigger]
            m.handles.contains_key(id) ==> m.add_refs(ids).handle(id) == m.handle(id),
        forall|i: int| 0 <= i < ids.len() ==> m.add_refs(ids).handles.contains_key(
            #[trigger] ids[i],
        ),
    decreases ids.len(),
{
    if ids.len() > 0 {
        let front = ids.drop_last();
        let before = m.add_refs(front);
        law_add_refs_agree(m, front);
        lemma_known_agrees(before, ids.last());
        assert(tables_agree(before.known(ids.last())));
        assert forall|i: int| 0 <= i < ids.len() implies m.add_refs(ids).handles.contains_key(
            #[trigger] ids[i],
        ) by {
            if i < front.len() {
                assert(front[i] == ids[i]);
            }
        }
    }
}

/// The references that a load takes on its dependencies are exactly those that it gives up: what
/// referencing assets does to the loads, releasing the same assets undoes. All that is left is that
/// each of the assets has a load.
pub proof fn law_release_undoes_add_refs(m: LoaderModel, ids: Seq<AssetUuid>)
    requires
        tables_agree(m),
        m.next_handle + ids.len() <= u64::MAX,
    ensures
        m.add_refs(ids).release(ids).fault is None,
        m.add_refs(ids).release(ids).model == m.known_all(ids),
    decreases ids.len(),
{
    if ids.len() > 0 {
        let front = ids.drop_last();
        let last = ids.last();
        let before = m.add_refs(front);
        law_add_refs_agree(m, front);
        law_release_undoes_add_refs(m, front);
        lemma_release_commutes(before, front, last);
        law_remove_undoes_add(before.release(front).model, last);
        let x = before.release(front).model;
        assert(m.add_refs(ids).release(front).model == x.add_ref(last));
        assert(x.add_ref(last).handle(last) == Some(x.handle_for(last)));
        assert(m.add_refs(ids).release(ids).model == x.known(last));
    }
}

/// How many references the asset `id` has.
pub open spec fn refs_of(m: LoaderModel, id: AssetUuid) -> nat {
    match m.load_of(id) {
        Some(load) => load.refs as nat,
        None => 0,
    }
}

/// How often `id` occurs in `ids`.
pub open spec fn occurrences(ids: Seq<AssetUuid>, id: AssetUuid) -> nat
    decreases ids.len(),
{
    if ids.len() == 0 {
        0
    } else {
        occurrences(ids.drop_last(), id) + if ids.last() == id {
            1nat
        } else {
            0
        }
    }
}

/// An asset that does not occur occurs zero times.
pub proof fn lemma_no_occurrence(ids: Seq<AssetUuid>, id: AssetUuid)
    requires
        !ids.contains(id),
    ensures
        occurrences(ids, id) == 0,
    decreases ids.len(),
{
    if ids.len() > 0 {
        let front = ids.drop_last();
        assert(ids[ids.len() - 1] == ids.last());
        assert(!front.contains(id)) by {
            if front.contains(id) {
                let i = choose|i: int| 0 <= i < front.len() && front[i] == id;
                assert(ids[i] == id);
            }
        }
        assert(ids.contains(ids[ids.len() - 1]));
        lemma_no_occurrence(front, id);
    }
}

/// Releasing assets takes one reference from a load for each time that its asset occurs.
pub proof fn lemma_release_counts(m: LoaderModel, ids: Seq<AssetUuid>, id: AssetUuid)
    requires
        tables_agree(m),
        m.load_of(id) is Some,
        m.load_of(id)->0.refs >= occurrences(ids, id),
    ensures
        ({
            let n = m.release(ids).model;
            &&& n.handles == m.handles
            &&& n.load_of(id) is Some
            &&& m.release(ids).fault is None ==> n.load_of(id)->0 == (AssetLoad {
                refs: (m.load_of(id)->0.refs - occurrences(ids, id)) as usize,
                ..m.load_of(id)->0
            })
        }),
    decreases ids.len(),
{
    if ids.len() > 0 {
        let front = ids.drop_last();
        let last = ids.last();
        lemma_release_counts(m, front, id);
        let before = m.release(front).model;
        if m.release(front).fault is None && m.handles.contains_key(last) && last != id {
            assert(m.handles.contains_key(id));
            assert(m.handles[last] != m.handles[id]);
        }
    }
}

/// Referencing assets adds one reference to a load for each time that its asset occurs. An asset
/// that was never referenced gets a new load.
pub proof fn lemma_add_refs_count(m: LoaderModel, ids: Seq<AssetUuid>, id: AssetUuid)
    requires
        tables_agree(m),
        m.next_handle + ids.len() <= u64::MAX,
        m.handles.contains_key(id) ==> m.load_of(id) is Some && m.load_of(id)->0.refs + occurrences(
            ids,
            id,
        ) <= usize::MAX,
        occurrences(ids, id) <= usize::MAX,
    ensures
        ({
            let n = m.add_refs(ids);
            let load = match m.load_of(id) {
                Some(load) => load,
                None => new_load(id),
            };
            if m.load_of(id) is Some || occurrences(ids, id) > 0 {
                n.load_of(id) == Some(
                    AssetLoad { refs: (load.refs + occurrences(ids, id)) as usize, ..load },
                )
            } else {
                n.handle(id) is None
            }
        }),
    decreases ids.len(),
{
    if ids.len() > 0 {
        let front = ids.drop_last();
        let last = ids.last();
        lemma_add_refs_count(m, front, id);
        law_add_refs_agree(m, front);
        let before = m.add_refs(front);
        if last != id && before.handles.contains_key(last) && before.handles.contains_key(id) {
            assert(before.handles[last] != before.handles[id]);
        }
        if last != id && before.handles.contains_key(id) {
            assert(before.handles[id] < before.next_handle);
        }
    }
}

/// The references that a load takes on an asset when it requests its dependencies it gives back
/// when it is unloaded, however much lies between: if nothing else has moved the references of the
/// asset since (`then` has as many as `first` is left with), the asset has as many as before the
/// first step, or none if that step brought its load into being.
pub proof fn law_references_come_back(
    first: LoaderModel,
    then: LoaderModel,
    h: u64,
    dependency: AssetUuid,
)
    requires
        tables_agree(first),
        tables_agree(then),
        first.loads.contains_key(h),
        then.loads.contains_key(h),
        first.loads[h].state is RequestDependencies,
        then.loads[h].state is UnloadRequested,
        first.loads[h].asset_id == then.loads[h].asset_id,
        first.metadata.contains_key(first.loads[h].asset_id),
        then.metadata.contains_key(first.loads[h].asset_id),
        first.metadata[first.loads[h].asset_id] == then.metadata[first.loads[h].asset_id],
        then.advance(h).fault is None,
        ({
            let deps = first.metadata[first.loads[h].asset_id];
            let count = occurrences(deps, dependency);
            &&& first.next_handle + deps.len() <= u64::MAX
            &&& count > 0 && count <= usize::MAX
            &&& first.handles.contains_key(dependency) ==> first.load_of(dependency) is Some
                && first.load_of(dependency)->0.refs + count <= usize::MAX
            &&& then.load_of(dependency) is Some
            &&& first.advance(h).model.load_of(dependency) matches Some(left) ==> then.load_of(
                dependency,
            )->0.refs == left.refs
        }),
    ensures
        then.advance(h).model.load_of(dependency) is Some,
        then.advance(h).model.load_of(dependency)->0.refs == (match first.load_of(dependency) {
            Some(load) => load.refs,
            None => 0,
        }),
{
    let id = first.loads[h].asset_id;
    let deps = first.metadata[id];
    assert(first.handles.contains_key(id) && first.handles[id] == h);
    assert(then.handles.contains_key(id) && then.handles[id] == h);
    lemma_add_refs_count(first, deps, dependency);
    law_add_refs_agree(first, deps);
    let taken = first.add_refs(deps);
    assert(taken.handle(id) == first.handle(id));
    assert(taken.loads.contains_key(h)) by {
        lemma_add_refs_keep(first, deps, h);
    }
    let freed = then.free(h).model;
    assert(tables_agree(freed)) by {
        assert forall|k: u64| #[trigger] freed.loads.contains_key(k) implies
            freed.handles.contains_key(freed.loads[k].asset_id)
            && freed.handles[freed.loads[k].asset_id] == k by {
            assert(then.loads.contains_key(k));
        }
    }
    lemma_release_counts(freed, deps, dependency);
    lemma_release_keeps(freed, deps, h);
}

/// A reference that a caller adds or removes.
pub enum Reference {
    Added(AssetUuid),
    Removed(u64),
}

/// A loader after references were added and removed, one after the other.
pub open spec fn after_references(m: LoaderModel, calls: Seq<Reference>) -> LoaderModel
    decreases calls.len(),
{
    if calls.len() == 0 {
        m
    } else {
        let before = after_references(m, calls.drop_last());
        match calls.last() {
            Reference::Added(id) => before.add_ref(id),
            Reference::Removed(h) => before.remove_ref(h),
        }
    }
}

/// How many more references to the asset `id`, with the handle `h`, were added than removed.
pub open spec fn balance(calls: Seq<Reference>, id: AssetUuid, h: u64) -> int
    decreases calls.len(),
{
    if calls.len() == 0 {
        0
    } else {
        balance(calls.drop_last(), id, h) + match calls.last() {
            Reference::Added(other) => if other == id {
                1int
            } else {
                0
            },
            Reference::Removed(other) => if other == h {
                -1
            } else {
                0
            },
        }
    }
}

/// A load has as many references as were added and not removed, as long as they can be counted and
/// handles are left, whatever else is referenced in between.
pub proof fn law_references_are_counted(m: LoaderModel, calls: Seq<Reference>, id: AssetUuid)
    requires
        tables_agree(m),
        m.next_handle + calls.len() <= u64::MAX,
        m.load_of(id) is Some,
        forall|n: int|
            0 <= n <= calls.len() ==> 0 <= m.load_of(id)->0.refs + balance(
                #[trigger] calls.take(n),
                id,
                m.handles[id],
            ) <= usize::MAX,
    ensures
        ({
            let n = after_references(m, calls);
            &&& tables_agree(n)
            &&& n.next_handle <= m.next_handle + calls.len()
            &&& n.handle(id) == m.handle(id)
            &&& n.load_of(id) == Some(
                AssetLoad {
                    refs: (m.load_of(id)->0.refs + balance(calls, id, m.handles[id])) as usize,
                    ..m.load_of(id)->0
                },
            )
        }),
    decreases calls.len(),
{
    if calls.len() > 0 {
        let front = calls.drop_last();
        let h = m.handles[id];
        assert forall|n: int| 0 <= n <= front.len() implies 0 <= m.load_of(id)->0.refs + balance(
            #[trigger] front.take(n),
            id,
            h,
        ) <= usize::MAX by {
            assert(front.take(n) =~= calls.take(n));
        }
        law_references_are_counted(m, front, id);
        assert(calls.take(calls.len() as int) =~= calls);
        assert(calls.take(front.len() as int) =~= front);
        let before = after_references(m, front);
        match calls.last() {
            Reference::Added(other) => {
                lemma_known_agrees(before, other);
                let k = before.known(other);
                assert(k.handles.contains_key(id));
                if other != id {
                    assert(k.handles[other] != k.handles[id]);
                }
                assert(tables_agree(before.add_ref(other))) by {
                    let n = before.add_ref(other);
                    assert forall|j: u64| #[trigger] n.loads.contains_key(j) implies
                        n.handles.contains_key(n.loads[j].asset_id)
                        && n.handles[n.loads[j].asset_id] == j by {
                        assert(k.loads.contains_key(j));
                    }
                }
            },
            Reference::Removed(other) => {
                let n = before.remove_ref(other);
                assert forall|j: u64| #[trigger] n.loads.contains_key(j) implies
                    n.handles.contains_key(n.loads[j].asset_id) && n.handles[n.loads[j].asset_id]
                    == j by {
                    assert(before.loads.contains_key(j));
                }
            },
        }
    }
}

} // verus!
