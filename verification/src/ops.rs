//! Following the reports of the engine.

use crate::channel::HandleOp;
use crate::data::LoaderData;
use crate::fault::Fault;
use crate::ids::LoadHandle;
use crate::model::StorageCall;
use crate::state::{AssetLoad, AssetLoadState, LoadState};
use crate::storage::{AssetStorage, TracedStorage};
use vstd::prelude::*;

verus! {

/// Whether a load can be committed: the engine has it, and its type and version are known.
pub open spec fn committable(load: AssetLoad) -> bool {
    &&& load.state.sub_state() == Some(AssetLoadState::LoadingAsset) || load.state.sub_state()
        == Some(AssetLoadState::LoadedUncommitted)
    &&& load.asset_type is Some
    &&& load.requested_version is Some
}

/// Puts the version of a load that the engine has loaded into use.
pub fn commit_asset<S: AssetStorage + ?Sized>(
    handle: LoadHandle,
    load: &mut AssetLoad,
    storage: &mut TracedStorage<S>,
)
    requires
        committable(*old(load)),
    ensures
        final(storage).inner() == old(storage).inner(),
        *final(load) == (AssetLoad {
            loaded_version: old(load).requested_version,
            state: LoadState::Loaded(AssetLoadState::Loaded),
            ..*old(load)
        }),
        final(storage).calls() == old(storage).calls().push(
            StorageCall::Commit {
                asset_type: old(load).asset_type->0,
                handle,
                version: old(load).requested_version->0,
            },
        ),
{
    match (load.asset_type, load.requested_version) {
        (Some(asset_type), Some(version)) => {
            storage.commit_asset_version(&asset_type, handle, version);
            load.loaded_version = load.requested_version;
            load.state = LoadState::Loaded(AssetLoadState::Loaded);
        },
        _ => {},
    }
}

impl LoaderData {
    /// Commits the load `handle`, if it can be committed.
    pub(crate) fn commit<S: AssetStorage + ?Sized>(
        &mut self,
        handle: u64,
        storage: &mut TracedStorage<S>,
    ) -> (done: Result<(), Fault>)
        requires
            old(self)@.loads.contains_key(handle),
        ensures
            final(storage).inner() == old(storage).inner(),
            final(self)@ == old(self)@.commit(handle).model,
            final(storage).calls() == old(storage).calls() + old(self)@.commit(handle).calls,
            done == old(self)@.commit(handle).outcome(),
    {
        let mut load = match self.load(handle) {
            Some(load) => load,
            None => {
                return Ok(());
            },
        };
        assert(storage.calls() + Seq::<StorageCall>::empty() =~= storage.calls());
        match load.state.asset_load_state() {
            Some(AssetLoadState::LoadingAsset) => {},
            Some(AssetLoadState::LoadedUncommitted) => {},
            _ => {
                return Err(Fault::NotCommittable(load.state));
            },
        }
        if load.asset_type.is_none() {
            return Err(Fault::MissingAssetType(load.asset_id));
        }
        if load.requested_version.is_none() {
            return Err(Fault::MissingVersion(load.asset_id));
        }
        commit_asset(LoadHandle(handle), &mut load, storage);
        assert(storage.calls() =~= old(storage).calls() + old(self)@.commit(handle).calls);
        self.put(handle, load);
        Ok(())
    }

    /// Follows a report of the engine.
    pub fn process_load_op<S: AssetStorage + ?Sized>(
        &mut self,
        op: HandleOp,
        storage: &mut TracedStorage<S>,
    ) -> (done: Result<(), Fault>)
        ensures
            final(storage).inner() == old(storage).inner(),
            final(self)@ == old(self)@.apply_op(op).model,
            final(storage).calls() == old(storage).calls() + old(self)@.apply_op(op).calls,
            done == old(self)@.apply_op(op).outcome(),
    {
        assert(storage.calls() + Seq::<StorageCall>::empty() =~= storage.calls());
        match op {
            HandleOp::LoadError(handle, reason) => Err(Fault::LoadFailed(handle, reason)),
            HandleOp::LoadDrop(handle) => Err(Fault::LoadDropped(handle)),
            HandleOp::LoadComplete(handle) => match self.load(handle.0) {
                None => Err(Fault::CompletedUnknownLoad(handle)),
                Some(load) => {
                    if load.auto_commit {
                        self.commit(handle.0, storage)
                    } else if load.state.asset_load_state().is_none() {
                        Err(Fault::NotLoading(load.state))
                    } else {
                        let uncommitted = |_s: AssetLoadState| -> (r: AssetLoadState)
                            ensures
                                r is LoadedUncommitted,
                            { AssetLoadState::LoadedUncommitted };
                        let state = load.state.map_asset_load_state(uncommitted);
                        self.put(handle.0, AssetLoad { state, ..load });
                        Ok(())
                    }
                },
            },
        }
    }

    /// Asks for the reports of the engine and follows each of them, until none is there or one
    /// stops the loader.
    pub fn process_load_ops<S: AssetStorage + ?Sized>(
        &mut self,
        storage: &mut TracedStorage<S>,
    ) -> (done: Result<(), Fault>)
        ensures
            final(storage).inner() == old(storage).inner(),
            exists|ops: Seq<HandleOp>|
                {
                    let effect = #[trigger] old(self)@.follow_ops(ops);
                    &&& final(self)@ == effect.model
                    &&& final(storage).calls() == old(storage).calls() + effect.calls
                    &&& done == effect.outcome()
                },
    {
        let ghost mut ops: Seq<HandleOp> = Seq::empty();
        // asked this often at most
        let mut budget: u64 = u64::MAX;
        assert(storage.calls() =~= old(storage).calls() + Seq::empty());
        while budget > 0
            invariant
                storage.inner() == old(storage).inner(),
                ops.len() + budget == u64::MAX,
                ({
                    let done = old(self)@.apply_ops(ops);
                    &&& done.fault is None
                    &&& self@ == done.model
                    &&& storage.calls() == old(storage).calls() + done.calls
                }),
            decreases budget,
        {
            budget = budget - 1;
            let ghost before = old(self)@.apply_ops(ops);
            match self.next_op() {
                Some(op) => {
                    let ghost effect = before.model.polled(Some(op)).apply_op(op);
                    proof {
                        assert(ops.push(op).drop_last() =~= ops);
                        ops = ops.push(op);
                    }
                    let done = self.process_load_op(op, storage);
                    assert(old(storage).calls() + before.calls + effect.calls =~= old(
                        storage,
                    ).calls() + (before.calls + effect.calls));
                    if done.is_err() {
                        assert(old(self)@.follow_ops(ops) == old(self)@.apply_ops(ops));
                        return done;
                    }
                },
                None => {
                    assert(before.calls + Seq::<StorageCall>::empty() =~= before.calls);
                    assert(old(self)@.follow_ops(ops).calls == before.calls);
                    return Ok(());
                },
            }
        }
        assert(old(self)@.follow_ops(ops) == old(self)@.apply_ops(ops));
        Ok(())
    }
}

} // verus!
