//! Fetching the data of assets.

use crate::channel::{AssetLoadOp, LoadOpModel};
use crate::data::LoaderData;
use crate::fault::{Failure, Fault};
use crate::ids::{same_id, AssetTypeId, AssetUuid, LoadHandle};
use crate::metadata::lemma_contains_push;
use crate::model::{
    answers, is_order_of, lists_exactly, load_result, update_plan, was_accepted, LoaderModel,
    StorageCall, UpdatePlan,
};
use crate::responses::{read_id, Artifact, DataResponse};
use crate::state::{AssetLoad, AssetLoadResult, AssetLoadState, LoadState};
use crate::storage::{handed, AssetStorage, StorageError, TracedStorage};
use vstd::prelude::*;

verus! {

/// The answer of the storage to the last call on it.
pub open spec fn last_answer(calls: Seq<StorageCall>) -> bool {
    calls.len() > 0 && was_accepted(calls.last())
}

/// What is to become of `load` after the storage was handed `version` of its asset, of type
/// `asset_type`, and took it or did not.
pub fn result_of_update(
    load: &AssetLoad,
    asset_type: AssetTypeId,
    version: u32,
    accepted: bool,
) -> (result: Result<AssetLoadResult, Failure>)
    ensures
        forall|data: Seq<u8>|
            result == #[trigger] load_result(
                *load,
                UpdatePlan { asset_type, data, version },
                accepted,
            ),
        !accepted ==> result == Err::<AssetLoadResult, Failure>(Failure::Rejected),
        accepted ==> result == Ok::<AssetLoadResult, Failure>(
            (AssetLoadResult {
                new_state: if load.loaded_version is None {
                    LoadState::LoadingAsset(AssetLoadState::LoadingAsset)
                } else {
                    LoadState::Loaded(AssetLoadState::LoadingAsset)
                },
                new_version: Some(version),
                asset_type: Some(asset_type),
            }),
        ),
{
    if !accepted {
        return Err(Failure::Rejected);
    }
    let new_state = if load.loaded_version.is_none() {
        LoadState::LoadingAsset(AssetLoadState::LoadingAsset)
    } else {
        LoadState::Loaded(AssetLoadState::LoadingAsset)
    };
    Ok(AssetLoadResult { new_state, new_version: Some(version), asset_type: Some(asset_type) })
}

/// Hands the asset in `artifact`, which has arrived for `load`, to the storage.
pub fn load_data<S: AssetStorage + ?Sized>(
    data: &LoaderData,
    handle: LoadHandle,
    load: &AssetLoad,
    artifact: &Artifact,
    storage: &mut TracedStorage<S>,
) -> (result: Result<AssetLoadResult, Failure>)
    ensures
        final(storage).inner() == old(storage).inner(),
        match update_plan(*load, *artifact) {
            Err(failure) => {
                &&& result == Err::<AssetLoadResult, Failure>(failure)
                &&& final(storage).calls() == old(storage).calls()
            },
            Ok(plan) => {
                let accepted = last_answer(final(storage).calls());
                &&& result == load_result(*load, plan, accepted)
                &&& final(storage).calls() == old(storage).calls().push(
                    data@.offer_of(plan, handle, accepted),
                )
                &&& exists|bytes: &[u8], load_op: AssetLoadOp, taken: Result<(), StorageError>|
                    {
                        &&& bytes@ == plan.data
                        &&& load_op@ == LoadOpModel::fresh(handle, data@.reports)
                        &&& taken is Ok == accepted
                        &&& #[trigger] handed(
                            old(storage).inner(),
                            data,
                            &plan.asset_type,
                            bytes,
                            handle,
                            load_op,
                            plan.version,
                            taken,
                        )
                    }
            },
        },
{
    match load.state.asset_load_state() {
        Some(AssetLoadState::RequestingData) => {},
        _ => {
            return Err(Failure::Fault(Fault::NotRequestingData(load.state)));
        },
    }
    let serialized_asset = match &artifact.data {
        Ok(asset) => asset,
        Err(_) => {
            return Err(Failure::Malformed);
        },
    };
    let asset_type = match read_id(&serialized_asset.type_uuid) {
        Ok(asset_type) => asset_type,
        Err(failure) => {
            return Err(failure);
        },
    };
    if let Some(prev_type) = load.asset_type {
        if !same_id(&prev_type, &asset_type) {
            return Err(Failure::Fault(Fault::AssetTypeChanged(load.asset_id)));
        }
    }
    let last_version: u32 = match load.requested_version {
        Some(version) => version,
        None => 0,
    };
    if last_version == u32::MAX {
        return Err(Failure::Fault(Fault::VersionOverflow(load.asset_id)));
    }
    let new_version: u32 = last_version + 1;
    let bytes = match &serialized_asset.data {
        Ok(bytes) => bytes,
        Err(_) => {
            return Err(Failure::Malformed);
        },
    };
    let taken = storage.update_asset(
        data,
        &asset_type,
        bytes.as_slice(),
        handle,
        new_version,
    );
    let accepted: bool = taken.is_ok();
    assert(update_plan(*load, *artifact) == Ok::<UpdatePlan, Failure>(
        UpdatePlan { asset_type, data: bytes@, version: new_version },
    ));
    let result = result_of_update(load, asset_type, new_version, accepted);
    assert(result == load_result(
        *load,
        UpdatePlan { asset_type, data: bytes@, version: new_version },
        accepted,
    ));
    result
}

/// What answers do depends only on what the storage said to the calls that were made.
proof fn lemma_answers_used(
    model: LoaderModel,
    settled: Seq<(Option<DataResponse>, LoadHandle)>,
    a: Seq<bool>,
    b: Seq<bool>,
)
    requires
        forall|k: int| 0 <= k < model.settle_all_data(settled, a).calls.len() ==> a[k] == b[k],
    ensures
        model.settle_all_data(settled, a) == model.settle_all_data(settled, b),
    decreases settled.len(),
{
    if settled.len() > 0 {
        lemma_answers_used(model, settled.drop_last(), a, b);
    }
}

/// Once an answer stopped the loader, those after it do not matter.
proof fn lemma_settle_data_stopped(
    model: LoaderModel,
    settled: Seq<(Option<DataResponse>, LoadHandle)>,
    accepted: Seq<bool>,
    n: int,
)
    requires
        0 <= n <= settled.len(),
        model.settle_all_data(settled.take(n), accepted).fault is Some,
    ensures
        model.settle_all_data(settled, accepted) == model.settle_all_data(
            settled.take(n),
            accepted,
        ),
    decreases settled.len(),
{
    if n == settled.len() {
        assert(settled.take(n) =~= settled);
    } else {
        assert(settled.drop_last().take(n) =~= settled.take(n));
        lemma_settle_data_stopped(model, settled.drop_last(), accepted, n);
    }
}

/// What is listed on the way through `order`: each load of `order` that needs data, once.
proof fn lemma_data_listed(model: LoaderModel, order: Seq<u64>)
    ensures
        model.data_requests(order).no_duplicates(),
        forall|id: AssetUuid, handle: LoadHandle| #[trigger]
            model.data_requests(order).contains((id, handle)) <==> order.contains(handle.0)
                && model.needs_data(handle.0) && model.loads[handle.0].asset_id == id,
    decreases order.len(),
{
    if order.len() > 0 {
        let earlier = order.drop_last();
        let h = order.last();
        lemma_data_listed(model, earlier);
        let before = model.data_requests(earlier);
        let entry = (model.loads[h].asset_id, LoadHandle(h));
        assert(order =~= earlier.push(h));
        assert forall|id: AssetUuid, handle: LoadHandle| #[trigger]
            model.data_requests(order).contains((id, handle)) <==> order.contains(handle.0)
                && model.needs_data(handle.0) && model.loads[handle.0].asset_id == id by {
            lemma_contains_push(earlier, h, handle.0);
            lemma_contains_push(before, entry, (id, handle));
            assert(before.contains((id, handle)) <==> earlier.contains(handle.0)
                && model.needs_data(handle.0) && model.loads[handle.0].asset_id == id);
        }
        assert(!earlier.contains(h) ==> !before.contains(entry));
    }
}

/// A way through all loads lists each load that needs data.
proof fn lemma_all_data_listed(model: LoaderModel, order: Seq<u64>)
    requires
        is_order_of(order, model),
    ensures
        lists_exactly(model.data_requests(order), model, |h: u64| model.needs_data(h)),
        model.requesting_data(order) == model.requesting_all_data(),
{
    lemma_data_listed(model, order);
    assert(model.requesting_data(order).loads =~= model.requesting_all_data().loads);
}

impl LoaderData {
    /// Gives the load `handle` what the answer to its data request made of it.
    fn apply_result(&mut self, handle: u64, result: AssetLoadResult)
        requires
            old(self)@.loads.contains_key(handle),
        ensures
            final(self)@ == old(self)@.with_load(
                handle,
                AssetLoad {
                    state: result.new_state,
                    requested_version: if result.new_version is Some {
                        result.new_version
                    } else {
                        old(self)@.loads[handle].requested_version
                    },
                    asset_type: if result.asset_type is Some {
                        result.asset_type
                    } else {
                        old(self)@.loads[handle].asset_type
                    },
                    ..old(self)@.loads[handle]
                },
            ),
    {
        if let Some(found) = self.load(handle) {
            let mut load = found;
            load.state = result.new_state;
            if let Some(version) = result.new_version {
                load.requested_version = Some(version);
            }
            if let Some(asset_type) = result.asset_type {
                load.asset_type = Some(asset_type);
            }
            self.put(handle, load);
        }
    }

    /// Makes the load `handle` ask for its data again.
    fn retry_data(&mut self, handle: u64) -> (done: Result<(), Fault>)
        requires
            old(self)@.loads.contains_key(handle),
        ensures
            final(self)@ == old(self)@.retry_data(handle).model,
            done == old(self)@.retry_data(handle).outcome(),
    {
        match self.load(handle) {
            None => Ok(()),
            Some(load) => {
                if load.state.asset_load_state().is_none() {
                    return Err(Fault::NotLoading(load.state));
                }
                let waiting = |_s: AssetLoadState| -> (r: AssetLoadState)
                    ensures
                        r is WaitingForData,
                    { AssetLoadState::WaitingForData };
                self.apply_result(
                    handle,
                    AssetLoadResult::from_state(load.state.map_asset_load_state(waiting)),
                );
                Ok(())
            },
        }
    }

    /// Follows the answer to a request for the data of `handle`, or its failure.
    pub fn settle_data<S: AssetStorage + ?Sized>(
        &mut self,
        answer: &Option<DataResponse>,
        handle: LoadHandle,
        storage: &mut TracedStorage<S>,
    ) -> (done: Result<(), Fault>)
        ensures
            final(storage).inner() == old(storage).inner(),
            ({
                let effect = old(self)@.settle_data(
                    *answer,
                    handle,
                    last_answer(final(storage).calls()),
                );
                &&& final(self)@ == effect.model
                &&& final(storage).calls() == old(storage).calls() + effect.calls
                &&& done == effect.outcome()
            }),
    {
        assert(storage.calls() + Seq::<StorageCall>::empty() =~= storage.calls());
        let load = match self.load(handle.0) {
            Some(load) => load,
            None => {
                return Err(Fault::DataForUnknownLoad(handle));
            },
        };
        match answer {
            Some(response) => match &response.artifacts {
                Ok(artifacts) => {
                    if artifacts.len() > 0 {
                        let result = load_data(self, handle, &load, &artifacts[0], storage);
                        proof {
                            let accepted = last_answer(storage.calls());
                            let effect = self@.settle_data(*answer, handle, accepted);
                            assert(storage.calls() =~= old(storage).calls() + effect.calls);
                        }
                        match result {
                            Ok(loaded) => {
                                self.apply_result(handle.0, loaded);
                                return Ok(());
                            },
                            Err(Failure::Fault(fault)) => {
                                return Err(fault);
                            },
                            Err(_) => {},
                        }
                    }
                },
                Err(_) => {},
            },
            None => {},
        }
        self.retry_data(handle.0)
    }

    /// Follows the answers to several requests for data, one after the other.
    pub fn settle_all_data<S: AssetStorage + ?Sized>(
        &mut self,
        settled: &Vec<(Option<DataResponse>, LoadHandle)>,
        storage: &mut TracedStorage<S>,
    ) -> (done: Result<(), Fault>)
        ensures
            final(storage).inner() == old(storage).inner(),
            old(storage).calls().len() <= final(storage).calls().len(),
            ({
                let accepted = answers(
                    final(storage).calls().skip(old(storage).calls().len() as int),
                );
                let effect = old(self)@.settle_all_data(settled@, accepted);
                &&& final(self)@ == effect.model
                &&& final(storage).calls() == old(storage).calls() + effect.calls
                &&& done == effect.outcome()
            }),
    {
        let ghost start = old(storage).calls().len() as int;
        let mut i: usize = 0;
        assert(settled@.take(0) =~= Seq::empty());
        assert(storage.calls() =~= old(storage).calls() + Seq::empty());
        while i < settled.len()
            invariant
                storage.inner() == old(storage).inner(),
                start == old(storage).calls().len(),
                start <= storage.calls().len(),
                i <= settled.len(),
                ({
                    let accepted = answers(storage.calls().skip(start));
                    let done = old(self)@.settle_all_data(settled@.take(i as int), accepted);
                    &&& done.fault is None
                    &&& self@ == done.model
                    &&& storage.calls() == old(storage).calls() + done.calls
                }),
            decreases settled.len() - i,
        {
            let ghost accepted0 = answers(storage.calls().skip(start));
            let ghost before = old(self)@.settle_all_data(settled@.take(i as int), accepted0);
            let ghost calls0 = storage.calls();
            let done = self.settle_data(&settled[i].0, settled[i].1, storage);
            proof {
                let calls1 = storage.calls();
                let accepted1 = answers(calls1.skip(start));
                let upto = settled@.take(i as int + 1);
                let effect = before.model.settle_data(
                    settled@[i as int].0,
                    settled@[i as int].1,
                    last_answer(calls1),
                );
                assert(upto.drop_last() =~= settled@.take(i as int));
                assert(calls1.skip(start) =~= before.calls + effect.calls);
                assert(calls0.skip(start) =~= before.calls);
                assert forall|k: int| 0 <= k < before.calls.len() implies accepted0[k]
                    == accepted1[k] by {
                    assert(calls0.skip(start)[k] == calls1.skip(start)[k]);
                }
                lemma_answers_used(old(self)@, settled@.take(i as int), accepted0, accepted1);
                if effect.calls.len() > 0 {
                    assert(accepted1[before.calls.len() as int] == was_accepted(calls1.last()));
                }
                assert(old(self)@.settle_all_data(upto, accepted1) == before.followed_by(effect));
                assert(calls1 =~= old(storage).calls() + (before.calls + effect.calls));
                if effect.fault is Some {
                    lemma_settle_data_stopped(old(self)@, settled@, accepted1, i as int + 1);
                }
            }
            if done.is_err() {
                return done;
            }
            i = i + 1;
        }
        assert(settled@.take(i as int) =~= settled@);
        Ok(())
    }

    /// Marks those of the loads `order` that need data, and lists them with their assets.
    pub fn request_data_of(&mut self, order: &Vec<u64>) -> (requested: Vec<
        (AssetUuid, LoadHandle),
    >)
        ensures
            final(self)@ == old(self)@.requesting_data(order@),
            requested@ == old(self)@.data_requests(order@),
    {
        let mut requested: Vec<(AssetUuid, LoadHandle)> = Vec::new();
        let mut i: usize = 0;
        assert(order@.take(0) =~= Seq::empty());
        assert(self@.loads =~= old(self)@.requesting_data(order@.take(0)).loads);
        while i < order.len()
            invariant
                i <= order.len(),
                self@ == old(self)@.requesting_data(order@.take(i as int)),
                requested@ == old(self)@.data_requests(order@.take(i as int)),
            decreases order.len() - i,
        {
            let handle = order[i];
            let ghost earlier = order@.take(i as int);
            let ghost upto = order@.take(i as int + 1);
            proof {
                assert(upto.drop_last() =~= earlier);
                assert forall|h: u64| upto.contains(h) == (earlier.contains(h) || h == handle) by {
                    lemma_contains_push(earlier, handle, h);
                    assert(upto =~= earlier.push(handle));
                }
            }
            match self.load(handle) {
                Some(load) => match load.state.asset_load_state() {
                    Some(AssetLoadState::WaitingForData) => {
                        let requesting = |_s: AssetLoadState| -> (r: AssetLoadState)
                            ensures
                                r is RequestingData,
                            { AssetLoadState::RequestingData };
                        let state = load.state.map_asset_load_state(requesting);
                        self.put(handle, AssetLoad { state, ..load });
                        requested.push((load.asset_id, LoadHandle(handle)));
                    },
                    _ => {},
                },
                None => {},
            }
            assert(self@.loads =~= old(self)@.requesting_data(upto).loads);
            i = i + 1;
        }
        assert(order@.take(i as int) =~= order@);
        requested
    }

    /// Marks the loads that need data, and lists them with their assets in some order.
    pub fn request_data(&mut self) -> (requested: Vec<(AssetUuid, LoadHandle)>)
        ensures
            final(self)@ == old(self)@.requesting_all_data(),
            lists_exactly(requested@, old(self)@, |h: u64| old(self)@.needs_data(h)),
    {
        let order = self.handles();
        proof {
            lemma_all_data_listed(self@, order@);
        }
        self.request_data_of(&order)
    }
}

} // verus!
