//! From the daemon to the storage: what the storage is handed is what the daemon has sent, byte for
//! byte.

use crate::assets::{last_answer, load_data, result_of_update};
use crate::channel::{AssetLoadOp, LoadOpModel};
use crate::data::LoaderData;
use crate::fault::{Failure, Fault};
use crate::ids::{array_of, lemma_same_bytes, AssetTypeId, LoadHandle};
use crate::laws::reading::{holds_id, is_wrong_with, lemma_array_of};
use crate::laws::steps::{only_load_differs, only_state_differs, stops_at};
use crate::model::{update_plan, Effect, LoaderModel, StorageCall};
use crate::responses::{id_in, Artifact, DataResponse};
use crate::state::{AssetLoad, AssetLoadResult, AssetLoadState, LoadState};
use crate::storage::{handed, AssetStorage, LoaderInfoProvider, StorageError, TracedStorage};
use vstd::prelude::*;

verus! {

/// Whether the data of a load in this state is being fetched.
pub open spec fn waits_for_answer(state: LoadState) -> bool {
    ||| state == LoadState::LoadingAsset(AssetLoadState::RequestingData)
    ||| state == LoadState::Loaded(AssetLoadState::RequestingData)
}

/// Whether an artifact holds an asset of the type with the bytes `type_bytes`, and `bytes` are its
/// own.
pub open spec fn holds_asset(artifact: Artifact, type_bytes: Seq<u8>, bytes: Seq<u8>) -> bool {
    &&& artifact.data is Ok
    &&& holds_id(artifact.data->Ok_0.type_uuid)
    &&& artifact.data->Ok_0.type_uuid->Ok_0@ == type_bytes
    &&& artifact.data->Ok_0.data is Ok
    &&& artifact.data->Ok_0.data->Ok_0@ == bytes
}

/// Whether an artifact can be handed to the storage for `load`: the load waits for it, all of it
/// can be read, the type of the asset is what it was, and a version is left.
pub open spec fn is_usable(load: AssetLoad, artifact: Artifact) -> bool {
    &&& waits_for_answer(load.state)
    &&& artifact.data is Ok
    &&& holds_id(artifact.data->Ok_0.type_uuid)
    &&& artifact.data->Ok_0.data is Ok
    &&& load.asset_type is Some ==> load.asset_type->0@ == artifact.data->Ok_0.type_uuid->Ok_0@
    &&& load.requested_version != Some(u32::MAX)
}

/// Whether `failure` says why an artifact cannot be handed to the storage for `load`.
pub open spec fn is_why_not(load: AssetLoad, artifact: Artifact, failure: Failure) -> bool {
    if !waits_for_answer(load.state) {
        failure == Failure::Fault(Fault::NotRequestingData(load.state))
    } else if artifact.data is Err {
        failure is Malformed
    } else if !holds_id(artifact.data->Ok_0.type_uuid) {
        is_wrong_with(artifact.data->Ok_0.type_uuid, failure)
    } else if load.asset_type is Some && load.asset_type->0@
        != artifact.data->Ok_0.type_uuid->Ok_0@ {
        failure == Failure::Fault(Fault::AssetTypeChanged(load.asset_id))
    } else if load.requested_version == Some(u32::MAX) {
        failure == Failure::Fault(Fault::VersionOverflow(load.asset_id))
    } else {
        failure is Malformed
    }
}

/// Whether `call` hands the asset in `artifact` to the storage for the load `handle` of `m`, which
/// is `load`: the type and the bytes are those of the artifact, the version is one more than the
/// one handed over last, or the first, and what is handed along is the loader to look assets up in
/// and an operation on this load whose report goes to that loader.
pub open spec fn hands_over(
    m: LoaderModel,
    handle: LoadHandle,
    load: AssetLoad,
    artifact: Artifact,
    call: StorageCall,
) -> bool {
    &&& call is Update
    &&& holds_asset(artifact, call->Update_asset_type@, call->data)
    &&& call->Update_handle == handle
    &&& call->Update_version == match load.requested_version {
        Some(version) => version + 1,
        None => 1,
    }
    &&& call->info == m
    &&& call->op.load == handle
    &&& call->op.sender == m.reports
    &&& call->op.open
}

/// What has become of a load whose new version the storage has taken.
pub open spec fn is_with_the_engine(a: AssetLoad, b: AssetLoad, call: StorageCall) -> bool {
    &&& b.state == if a.loaded_version is None {
        LoadState::LoadingAsset(AssetLoadState::LoadingAsset)
    } else {
        LoadState::Loaded(AssetLoadState::LoadingAsset)
    }
    &&& b.requested_version == Some(call->Update_version)
    &&& b.asset_type == Some(call->Update_asset_type)
    &&& b.asset_id == a.asset_id && b.refs == a.refs && b.loaded_version == a.loaded_version
    &&& b.auto_commit == a.auto_commit && b.pending_reload == a.pending_reload
}

/// The asset that the daemon has sent is handed to the storage as it was sent: with its type and
/// its bytes, none of them changed, as the next version. It is handed over exactly if the load
/// waits for it and it can be used, once; and the load is with the engine exactly if the storage
/// takes it.
pub proof fn law_storage_is_handed_what_was_sent<S: AssetStorage + ?Sized>(
    data: &LoaderData,
    handle: LoadHandle,
    load: &AssetLoad,
    artifact: &Artifact,
    storage: &mut TracedStorage<S>,
    result: Result<AssetLoadResult, Failure>,
)
    requires
        call_ensures(load_data::<S>, (data, handle, load, artifact, storage), result),
    ensures
        final(storage).inner() == old(storage).inner(),
        !is_usable(*load, *artifact) ==> {
            &&& final(storage).calls() == old(storage).calls()
            &&& result is Err
            &&& is_why_not(*load, *artifact, result->Err_0)
        },
        is_usable(*load, *artifact) ==> {
            let call = final(storage).calls().last();
            &&& final(storage).calls() == old(storage).calls().push(call)
            &&& hands_over(data@, handle, *load, *artifact, call)
            &&& if call->accepted {
                &&& result matches Ok(loaded)
                &&& loaded.new_version == Some(call->Update_version)
                &&& loaded.asset_type == Some(call->Update_asset_type)
                &&& loaded.new_state == if load.loaded_version is None {
                    LoadState::LoadingAsset(AssetLoadState::LoadingAsset)
                } else {
                    LoadState::Loaded(AssetLoadState::LoadingAsset)
                }
            } else {
                result is Err && result->Err_0 is Rejected
            }
            &&& exists|bytes: &[u8], load_op: AssetLoadOp, taken: Result<(), StorageError>|
                {
                    &&& bytes@ == artifact.data->Ok_0.data->Ok_0@
                    &&& load_op@.load == handle && load_op@.sender == data@.reports
                    &&& load_op@.open
                    &&& taken is Ok == call->accepted
                    &&& #[trigger] was_handed(
                        old(storage).inner(),
                        data,
                        &call->Update_asset_type,
                        bytes,
                        handle,
                        load_op,
                        call->Update_version,
                        taken,
                    )
                }
        },
{
    if artifact.data is Ok && holds_id(artifact.data->Ok_0.type_uuid) {
        lemma_type_read(*load, *artifact);
    }
    if is_usable(*load, *artifact) {
        let plan = update_plan(*load, *artifact)->Ok_0;
        let accepted = last_answer(final(storage).calls());
        assert(final(storage).calls().last() == data@.offer_of(plan, handle, accepted));
        let (bytes, load_op, taken) = choose|
            bytes: &[u8],
            load_op: AssetLoadOp,
            taken: Result<(), StorageError>,
        |
            {
                &&& bytes@ == plan.data
                &&& load_op@ == LoadOpModel::fresh(handle, data@.reports)
                &&& taken is Ok == accepted
                &&& #[trigger] handed(
                    old(storage).inner(),
                    data,
                    &plan.asset_type,
                    bytes,
                    handle,
                    load_op,
                    plan.version,
                    taken,
                )
            };
        let call = final(storage).calls().last();
        assert(was_handed(
            old(storage).inner(),
            data,
            &call->Update_asset_type,
            bytes,
            handle,
            load_op,
            call->Update_version,
            taken,
        ));
    }
}

/// Whether `taken` is what the storage itself said when it was handed these bytes, with `loader` to
/// look assets up in.
pub open spec fn was_handed<S: AssetStorage + ?Sized>(
    storage: &S,
    loader: &LoaderData,
    asset_type: &AssetTypeId,
    bytes: &[u8],
    load_handle: LoadHandle,
    load_op: AssetLoadOp,
    version: u32,
    taken: Result<(), StorageError>,
) -> bool {
    let loader_info: &dyn LoaderInfoProvider = loader;
    call_ensures(
        S::update_asset,
        (storage, loader_info, asset_type, bytes, load_handle, load_op, version),
        taken,
    )
}

/// The type in an artifact is the type that a load had exactly if the bytes are the same.
proof fn lemma_type_read(load: AssetLoad, artifact: Artifact)
    requires
        artifact.data is Ok,
        holds_id(artifact.data->Ok_0.type_uuid),
    ensures
        id_in(artifact.data->Ok_0.type_uuid) is Ok,
        id_in(artifact.data->Ok_0.type_uuid)->Ok_0@ == artifact.data->Ok_0.type_uuid->Ok_0@,
        load.asset_type matches Some(prev) ==> (prev == id_in(
            artifact.data->Ok_0.type_uuid,
        )->Ok_0 <==> prev@ == artifact.data->Ok_0.type_uuid->Ok_0@),
{
    let bytes = artifact.data->Ok_0.type_uuid->Ok_0@;
    lemma_array_of(bytes);
    if load.asset_type is Some && load.asset_type->0@ == bytes {
        lemma_same_bytes(load.asset_type->0, array_of(bytes));
    }
}

/// What is to become of a load that the storage has been offered a version of.
pub proof fn law_result_of_an_update(
    load: &AssetLoad,
    asset_type: AssetTypeId,
    version: u32,
    accepted: bool,
    result: Result<AssetLoadResult, Failure>,
)
    requires
        call_ensures(result_of_update, (load, asset_type, version, accepted), result),
    ensures
        !accepted ==> result is Err && result->Err_0 is Rejected,
        accepted ==> {
            &&& result matches Ok(loaded)
            &&& loaded.new_version == Some(version)
            &&& loaded.asset_type == Some(asset_type)
            &&& loaded.new_state == if load.loaded_version is None {
                LoadState::LoadingAsset(AssetLoadState::LoadingAsset)
            } else {
                LoadState::Loaded(AssetLoadState::LoadingAsset)
            }
        },
{
}

/// Whether `e` is what it does to the load `h` that its data has to be asked for again.
pub open spec fn data_is_asked_for_again(m: LoaderModel, e: Effect, h: u64) -> bool {
    &&& e.retired.len() == 0
    &&& match m.loads[h].state {
        LoadState::LoadingAsset(_) => {
            &&& e.fault is None
            &&& only_load_differs(m, e.model, h)
            &&& only_state_differs(m.loads[h], e.model.loads[h])
            &&& e.model.loads[h].state == LoadState::LoadingAsset(AssetLoadState::WaitingForData)
        },
        LoadState::Loaded(_) => {
            &&& e.fault is None
            &&& only_load_differs(m, e.model, h)
            &&& only_state_differs(m.loads[h], e.model.loads[h])
            &&& e.model.loads[h].state == LoadState::Loaded(AssetLoadState::WaitingForData)
        },
        other => e.model == m && e.fault == Some(Fault::NotLoading(other)),
    }
}

/// Whether `answer` has a first artifact, and it is `artifact`.
pub open spec fn begins_with(answer: Option<DataResponse>, artifact: Artifact) -> bool {
    &&& answer is Some
    &&& answer->0.artifacts is Ok
    &&& answer->0.artifacts->Ok_0@.len() > 0
    &&& answer->0.artifacts->Ok_0@[0] == artifact
}

/// Whether `answer` has no artifact, or is none at all.
pub open spec fn brings_nothing(answer: Option<DataResponse>) -> bool {
    ||| answer is None
    ||| answer->0.artifacts is Err
    ||| answer->0.artifacts->Ok_0@.len() == 0
}

/// Whether `e` is what the answer to a request for the data of `handle` does, when the storage
/// takes what it is handed or does not, as `accepted` says.
pub open spec fn answer_is_followed(
    m: LoaderModel,
    e: Effect,
    answer: Option<DataResponse>,
    handle: LoadHandle,
    accepted: bool,
) -> bool {
    let h = handle.0;
    let a = m.loads[h];
    let first = answer->0.artifacts->Ok_0@[0];
    if !m.loads.contains_key(h) {
        stops_at(m, e, Fault::DataForUnknownLoad(handle))
    } else if brings_nothing(answer) {
        e.calls.len() == 0 && data_is_asked_for_again(m, e, h)
    } else if !is_usable(a, first) {
        &&& e.calls.len() == 0
        &&& exists|failure: Failure|
            {
                &&& #[trigger] is_why_not(a, first, failure)
                &&& match failure {
                    Failure::Fault(fault) => stops_at(m, e, fault),
                    _ => data_is_asked_for_again(m, e, h),
                }
            }
    } else {
        &&& e.calls.len() == 1
        &&& hands_over(m, handle, a, first, e.calls[0])
        &&& e.calls[0]->accepted == accepted
        &&& if accepted {
            &&& only_load_differs(m, e.model, h)
            &&& is_with_the_engine(a, e.model.loads[h], e.calls[0])
            &&& e.retired.len() == 0
            &&& e.fault is None
        } else {
            data_is_asked_for_again(m, e, h)
        }
    }
}

/// The answer to a request for data is followed: what it brings is handed to the storage as it is,
/// and where it brings nothing that can be used, or the storage refuses it, the data is asked for
/// again.
pub proof fn law_following_an_answer_with_data(
    m: LoaderModel,
    answer: Option<DataResponse>,
    handle: LoadHandle,
    accepted: bool,
)
    ensures
        answer_is_followed(
            m,
            m.settle_data(answer, handle, accepted),
            answer,
            handle,
            accepted,
        ),
{
    let h = handle.0;
    let e = m.settle_data(answer, handle, accepted);
    if m.loads.contains_key(h) {
        let a = m.loads[h];
        let retried = m.retry_data(h);
        assert(retried.model.loads.dom() =~= m.loads.dom());
        if !brings_nothing(answer) {
            let first = answer->0.artifacts->Ok_0@[0];
            if first.data is Ok && holds_id(first.data->Ok_0.type_uuid) {
                lemma_type_read(a, first);
            }
            match update_plan(a, first) {
                Err(failure) => {
                    assert(is_why_not(a, first, failure));
                },
                Ok(plan) => {
                    assert(e.model.loads.dom() =~= m.loads.dom());
                    assert(e.calls =~= seq![m.offer_of(plan, handle, accepted)]);
                    assert(e.retired =~= Seq::empty());
                },
            }
        }
    }
}

} // verus!
