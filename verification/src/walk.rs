//! Advancing the loads.

use crate::data::LoaderData;
use crate::fault::Fault;
use crate::ids::{AssetUuid, LoadHandle};
use crate::model::{is_order_of, LoaderModel, StorageCall};
use crate::state::{AssetLoad, AssetLoadState, LoadState};
use crate::storage::{AssetStorage, TracedStorage};
use vstd::prelude::*;

verus! {

/// Once a release has stopped, what follows does not matter.
proof fn lemma_release_stopped(model: LoaderModel, ids: Seq<AssetUuid>, n: int)
    requires
        0 <= n <= ids.len(),
        model.release(ids.take(n)).fault is Some,
    ensures
        model.release(ids) == model.release(ids.take(n)),
    decreases ids.len(),
{
    if n == ids.len() {
        assert(ids.take(n) =~= ids);
    } else {
        assert(ids.drop_last().take(n) =~= ids.take(n));
        lemma_release_stopped(model, ids.drop_last(), n);
    }
}

/// Once a walk has stopped, what follows does not matter.
proof fn lemma_walk_stopped(model: LoaderModel, order: Seq<u64>, n: int)
    requires
        0 <= n <= order.len(),
        model.walk(order.take(n)).fault is Some,
    ensures
        model.walk(order) == model.walk(order.take(n)),
    decreases order.len(),
{
    if n == order.len() {
        assert(order.take(n) =~= order);
    } else {
        assert(order.drop_last().take(n) =~= order.take(n));
        lemma_walk_stopped(model, order.drop_last(), n);
    }
}

/// Releasing makes no call on the storage and gives up no load.
pub proof fn lemma_release_silent(model: LoaderModel, ids: Seq<AssetUuid>)
    ensures
        model.release(ids).calls == Seq::<StorageCall>::empty(),
        model.release(ids).retired == Seq::<u64>::empty(),
    decreases ids.len(),
{
    if ids.len() > 0 {
        lemma_release_silent(model, ids.drop_last());
    }
}

impl LoaderData {
    /// Adds a reference to each of `ids`.
    fn add_refs(&mut self, ids: &Vec<AssetUuid>)
        ensures
            final(self)@ == old(self)@.add_refs(ids@),
    {
        let mut i: usize = 0;
        assert(ids@.take(0) =~= Seq::empty());
        while i < ids.len()
            invariant
                i <= ids.len(),
                self@ == old(self)@.add_refs(ids@.take(i as int)),
            decreases ids.len() - i,
        {
            self.add_ref(ids[i]);
            assert(ids@.take(i as int + 1).drop_last() =~= ids@.take(i as int));
            i = i + 1;
        }
        assert(ids@.take(i as int) =~= ids@);
    }

    /// Removes a reference from each of `ids`, up to the first that was never referenced.
    fn release(&mut self, ids: &Vec<AssetUuid>) -> (done: Result<(), Fault>)
        ensures
            final(self)@ == old(self)@.release(ids@).model,
            done == old(self)@.release(ids@).outcome(),
    {
        let mut i: usize = 0;
        assert(ids@.take(0) =~= Seq::empty());
        while i < ids.len()
            invariant
                i <= ids.len(),
                old(self)@.release(ids@.take(i as int)).fault is None,
                self@ == old(self)@.release(ids@.take(i as int)).model,
            decreases ids.len() - i,
        {
            let id = ids[i];
            assert(ids@.take(i as int + 1).drop_last() =~= ids@.take(i as int));
            match self.handle(&id) {
                Some(handle) => {
                    self.remove_ref(LoadHandle(handle));
                },
                None => {
                    proof {
                        lemma_release_stopped(old(self)@, ids@, i as int + 1);
                    }
                    return Err(Fault::UnknownDependency(id));
                },
            }
            i = i + 1;
        }
        assert(ids@.take(i as int) =~= ids@);
        Ok(())
    }

    /// Tells whether the engine has loaded all of `ids`.
    fn dependencies_ready(&self, ids: &Vec<AssetUuid>) -> (ready: bool)
        ensures
            ready == self@.dependencies_ready(ids@),
    {
        let mut i: usize = 0;
        while i < ids.len()
            invariant
                i <= ids.len(),
                forall|j: int| 0 <= j < i ==> self@.dependency_ready(#[trigger] ids@[j]),
            decreases ids.len() - i,
        {
            // An asset that is loaded but not committed is accepted, so that a set of changes can
            // be committed together when assets are reloaded.
            let ready = match self.load_of(&ids[i]) {
                Some((_, load)) => match load.state.asset_load_state() {
                    Some(AssetLoadState::Loaded) => true,
                    Some(AssetLoadState::LoadedUncommitted) => true,
                    _ => false,
                },
                None => false,
            };
            if !ready {
                assert(!self@.dependency_ready(ids@[i as int]));
                return false;
            }
            i = i + 1;
        }
        true
    }

    /// Advances the load `handle`. The answer tells whether the load is to be given up.
    pub fn advance<S: AssetStorage + ?Sized>(
        &mut self,
        handle: u64,
        storage: &mut TracedStorage<S>,
    ) -> (retire: Result<bool, Fault>)
        ensures
            final(storage).inner() == old(storage).inner(),
            ({
                let effect = old(self)@.advance(handle);
                &&& final(self)@ == effect.model
                &&& final(storage).calls() == old(storage).calls() + effect.calls
                &&& match retire {
                    Ok(r) => effect.fault is None && effect.retired == (if r {
                        seq![handle]
                    } else {
                        Seq::<u64>::empty()
                    }),
                    Err(fault) => effect.fault == Some(fault),
                }
            }),
    {
        let load = match self.load(handle) {
            Some(load) => load,
            None => {
                return Ok(false);
            },
        };
        let id = load.asset_id;
        match load.state {
            LoadState::Indeterminate => {
                let state = if load.refs > 0 {
                    if self.has_metadata(&id) {
                        LoadState::RequestDependencies
                    } else {
                        LoadState::WaitingForMetadata
                    }
                } else {
                    // no refs, inactive load
                    LoadState::UnloadRequested
                };
                self.put(handle, AssetLoad { state, ..load });
                Ok(false)
            },
            LoadState::WaitingForMetadata => {
                let state = if self.has_metadata(&id) {
                    LoadState::RequestDependencies
                } else {
                    LoadState::WaitingForMetadata
                };
                self.put(handle, AssetLoad { state, ..load });
                Ok(false)
            },
            LoadState::RequestingMetadata => Ok(false),
            LoadState::RequestDependencies => {
                // Add a reference to each of the dependencies.
                match self.copy_deps(&id) {
                    Some(deps) => {
                        self.add_refs(&deps);
                        proof {
                            lemma_add_refs_keep(old(self)@, deps@, handle);
                        }
                        if let Some(load) = self.load(handle) {
                            let state = LoadState::WaitingForDependencies;
                            self.put(handle, AssetLoad { state, ..load });
                        }
                        Ok(false)
                    },
                    None => Err(Fault::MissingMetadata(id)),
                }
            },
            LoadState::WaitingForDependencies => {
                // The engine has to have loaded the dependencies before this asset is loaded.
                match self.load_deps(&id) {
                    Some(deps) => {
                        if self.dependencies_ready(deps) {
                            let state = LoadState::LoadingAsset(AssetLoadState::WaitingForData);
                            self.put(handle, AssetLoad { state, ..load });
                        }
                        Ok(false)
                    },
                    None => Err(Fault::MissingMetadata(id)),
                }
            },
            LoadState::LoadingAsset(_) => Ok(false),
            LoadState::Loaded(asset_state) => {
                if asset_state == AssetLoadState::Loaded {
                    if load.refs == 0 {
                        self.put(handle, AssetLoad { state: LoadState::UnloadRequested, ..load });
                    } else if load.pending_reload {
                        // turn off auto_commit for hot reloads
                        self.put(
                            handle,
                            AssetLoad {
                                state: LoadState::Loaded(AssetLoadState::WaitingForData),
                                auto_commit: false,
                                pending_reload: false,
                                ..load
                            },
                        );
                    }
                }
                Ok(false)
            },
            LoadState::UnloadRequested => {
                match load.asset_type {
                    Some(asset_type) => {
                        storage.free(&asset_type, LoadHandle(handle));
                        self.put(
                            handle,
                            AssetLoad {
                                asset_type: None,
                                requested_version: None,
                                loaded_version: None,
                                ..load
                            },
                        );
                    },
                    None => {},
                }
                let ghost freed = self@;
                assert(freed == old(self)@.free(handle).model);
                // Remove the references from the dependencies.
                match self.copy_deps(&id) {
                    Some(deps) => {
                        let released = self.release(&deps);
                        proof {
                            lemma_release_keeps(freed, deps@, handle);
                            lemma_release_silent(freed, deps@);
                        }
                        match released {
                            Ok(()) => {},
                            Err(fault) => {
                                return Err(fault);
                            },
                        }
                        if let Some(load) = self.load(handle) {
                            self.put(handle, AssetLoad { state: LoadState::Unloading, ..load });
                        }
                        Ok(false)
                    },
                    None => Err(Fault::MissingMetadata(id)),
                }
            },
            LoadState::Unloading => {
                self.put(handle, AssetLoad { state: LoadState::Indeterminate, ..load });
                Ok(load.refs == 0)
            },
        }
    }

    /// Removes the loads `retired`.
    fn remove_all(&mut self, retired: &Vec<u64>)
        ensures
            final(self)@ == old(self)@.without(retired@),
    {
        let mut i: usize = 0;
        assert(self@.loads =~= old(self)@.without(retired@.take(0)).loads);
        while i < retired.len()
            invariant
                i <= retired.len(),
                self@ == old(self)@.without(retired@.take(i as int)),
            decreases retired.len() - i,
        {
            self.remove(retired[i]);
            proof {
                let done = retired@.take(i as int);
                let more = retired@.take(i as int + 1);
                assert(more =~= done.push(retired@[i as int]));
                done.lemma_push_to_set_commute(retired@[i as int]);
                assert(self@.loads =~= old(self)@.without(more).loads);
            }
            i = i + 1;
        }
        assert(retired@.take(i as int) =~= retired@);
    }

    /// Advances the loads `order`, one after the other, and removes those that are given up.
    pub fn advance_all<S: AssetStorage + ?Sized>(
        &mut self,
        order: &Vec<u64>,
        storage: &mut TracedStorage<S>,
    ) -> (done: Result<(), Fault>)
        ensures
            final(storage).inner() == old(storage).inner(),
            final(self)@ == old(self)@.advance_all(order@).model,
            final(storage).calls() == old(storage).calls() + old(self)@.advance_all(order@).calls,
            done == old(self)@.advance_all(order@).outcome(),
    {
        let mut to_remove: Vec<u64> = Vec::new();
        let mut i: usize = 0;
        assert(order@.take(0) =~= Seq::empty());
        assert(storage.calls() =~= old(storage).calls() + Seq::empty());
        while i < order.len()
            invariant
                storage.inner() == old(storage).inner(),
                i <= order.len(),
                ({
                    let walked = old(self)@.walk(order@.take(i as int));
                    &&& walked.fault is None
                    &&& self@ == walked.model
                    &&& storage.calls() == old(storage).calls() + walked.calls
                    &&& to_remove@ == walked.retired
                }),
            decreases order.len() - i,
        {
            let ghost before = old(self)@.walk(order@.take(i as int));
            let ghost effect = before.model.advance(order@[i as int]);
            let retire = self.advance(order[i], storage);
            proof {
                let upto = order@.take(i as int + 1);
                assert(upto.drop_last() =~= order@.take(i as int));
                assert(old(storage).calls() + before.calls + effect.calls =~= old(storage).calls()
                    + (before.calls + effect.calls));
                if effect.fault is Some {
                    lemma_walk_stopped(old(self)@, order@, i as int + 1);
                }
            }
            match retire {
                Ok(true) => {
                    to_remove.push(order[i]);
                    assert(to_remove@ =~= before.retired + effect.retired);
                },
                Ok(false) => {
                    assert(to_remove@ =~= before.retired + effect.retired);
                },
                Err(fault) => {
                    return Err(fault);
                },
            }
            i = i + 1;
        }
        assert(order@.take(i as int) =~= order@);
        self.remove_all(&to_remove);
        assert(old(self)@.advance_all(order@).calls =~= old(self)@.walk(order@).calls);
        Ok(())
    }

    /// Advances all loads, each once, in some order, and removes those that are given up. Loads
    /// that come into being on the way have their turn the next time.
    pub fn process_load_states<S: AssetStorage + ?Sized>(
        &mut self,
        storage: &mut TracedStorage<S>,
    ) -> (done: Result<(), Fault>)
        ensures
            final(storage).inner() == old(storage).inner(),
            exists|order: Seq<u64>|
                {
                    &&& is_order_of(order, old(self)@)
                    &&& final(self)@ == (#[trigger] old(self)@.advance_all(order)).model
                    &&& final(storage).calls() == old(storage).calls() + old(self)@.advance_all(
                        order,
                    ).calls
                    &&& done == old(self)@.advance_all(order).outcome()
                },
    {
        let order = self.handles();
        self.advance_all(&order, storage)
    }
}

/// Referencing assets removes no load.
pub proof fn lemma_add_refs_keep(model: LoaderModel, ids: Seq<AssetUuid>, h: u64)
    requires
        model.loads.contains_key(h),
    ensures
        model.add_refs(ids).loads.contains_key(h),
    decreases ids.len(),
{
    if ids.len() > 0 {
        lemma_add_refs_keep(model, ids.drop_last(), h);
    }
}

/// Releasing assets removes no load.
pub proof fn lemma_release_keeps(model: LoaderModel, ids: Seq<AssetUuid>, h: u64)
    requires
        model.loads.contains_key(h),
    ensures
        model.release(ids).model.loads.contains_key(h),
    decreases ids.len(),
{
    if ids.len() > 0 {
        lemma_release_keeps(model, ids.drop_last(), h);
    }
}

} // verus!
