//! The edges of the loader: what reaches the storage itself, and what the engine's reports are.

use crate::channel::{connected, sent, AssetLoadOp, HandleOp, LoadOpModel};
use crate::data::{HandleAllocator, LoaderData};
use crate::ids::{AssetTypeId, LoadHandle};
use crate::laws::delivery::was_handed;
use crate::laws::lookups::asked_for_nothing;
use crate::model::StorageCall;
use crate::requests::ResponsePromise;
use crate::state::{AssetLoadState, LoadState};
use crate::storage::{handed, AssetStorage, StorageError, TracedStorage};
use crossbeam_channel::{Receiver, Sender};
use std::sync::Arc;
use vstd::prelude::*;

verus! {

// ----- the storage

/// Whether `call` was entered behind `calls`, and nothing else.
pub open spec fn is_entered(
    calls: Seq<StorageCall>,
    after: Seq<StorageCall>,
    call: StorageCall,
) -> bool {
    &&& after.len() == calls.len() + 1
    &&& forall|i: int| 0 <= i < calls.len() ==> #[trigger] after[i] == calls[i]
    &&& after[calls.len() as int] == call
}

/// An account begins with no call, and is of the storage that it was opened for.
pub proof fn law_account_begins_empty<'a, S: AssetStorage + ?Sized>(
    storage: &'a S,
    traced: TracedStorage<'a, S>,
)
    requires
        call_ensures(TracedStorage::<'a, S>::new, (storage,), traced),
    ensures
        traced.inner() == storage,
        traced.calls().len() == 0,
{
}

/// What is handed over reaches the storage: it is asked to take these bytes, of this type, for this
/// load, as this version, with the loader to look assets up in and an operation on this load whose
/// report goes to that loader. The account says so, and what the storage says is passed on.
pub proof fn law_update_reaches_the_storage<'a, S: AssetStorage + ?Sized>(
    traced: &mut TracedStorage<'a, S>,
    data: &LoaderData,
    asset_type: &AssetTypeId,
    bytes: &[u8],
    load_handle: LoadHandle,
    version: u32,
    taken: Result<(), StorageError>,
)
    requires
        call_ensures(
            TracedStorage::<'a, S>::update_asset,
            (traced, data, asset_type, bytes, load_handle, version),
            taken,
        ),
    ensures
        final(traced).inner() == old(traced).inner(),
        exists|load_op: AssetLoadOp|
            {
                &&& load_op@.load == load_handle
                &&& load_op@.sender == data@.reports
                &&& load_op@.open
                &&& #[trigger] was_handed(
                    old(traced).inner(),
                    data,
                    asset_type,
                    bytes,
                    load_handle,
                    load_op,
                    version,
                    taken,
                )
                &&& is_entered(
                    old(traced).calls(),
                    final(traced).calls(),
                    StorageCall::Update {
                        info: data@,
                        asset_type: *asset_type,
                        data: bytes@,
                        handle: load_handle,
                        op: load_op@,
                        version,
                        accepted: taken is Ok,
                    },
                )
            },
{
    let load_op = choose|load_op: AssetLoadOp|
        {
            &&& load_op@ == LoadOpModel::fresh(load_handle, data@.reports)
            &&& #[trigger] handed(
                old(traced).inner(),
                data,
                asset_type,
                bytes,
                load_handle,
                load_op,
                version,
                taken,
            )
        };
    assert(was_handed(
        old(traced).inner(),
        data,
        asset_type,
        bytes,
        load_handle,
        load_op,
        version,
        taken,
    ));
}

/// Putting a version into use reaches the storage, and the account says so.
pub proof fn law_commit_reaches_the_storage<'a, S: AssetStorage + ?Sized>(
    traced: &mut TracedStorage<'a, S>,
    asset_type: &AssetTypeId,
    load_handle: LoadHandle,
    version: u32,
)
    requires
        call_ensures(
            TracedStorage::<'a, S>::commit_asset_version,
            (traced, asset_type, load_handle, version),
            (),
        ),
    ensures
        final(traced).inner() == old(traced).inner(),
        is_entered(
            old(traced).calls(),
            final(traced).calls(),
            StorageCall::Commit { asset_type: *asset_type, handle: load_handle, version },
        ),
        call_ensures(
            S::commit_asset_version,
            (old(traced).inner(), asset_type, load_handle, version),
            (),
        ),
{
    assert(final(traced).calls().last() == (StorageCall::Commit {
        asset_type: *asset_type,
        handle: load_handle,
        version,
    }));
}

/// Letting go of an asset reaches the storage, and the account says so.
pub proof fn law_free_reaches_the_storage<'a, S: AssetStorage + ?Sized>(
    traced: &mut TracedStorage<'a, S>,
    asset_type: &AssetTypeId,
    load_handle: LoadHandle,
)
    requires
        call_ensures(TracedStorage::<'a, S>::free, (traced, asset_type, load_handle), ()),
    ensures
        final(traced).inner() == old(traced).inner(),
        is_entered(
            old(traced).calls(),
            final(traced).calls(),
            StorageCall::Free { asset_type: *asset_type, handle: load_handle },
        ),
        call_ensures(S::free, (old(traced).inner(), asset_type, load_handle), ()),
{
    assert(final(traced).calls().last() == (StorageCall::Free {
        asset_type: *asset_type,
        handle: load_handle,
    }));
}

// ----- reports

/// An operation is about the load that it was made for, its report goes where it was told to, and
/// is still to be made.
pub proof fn law_new_operation(
    sender: Arc<Sender<HandleOp>>,
    handle: LoadHandle,
    op: AssetLoadOp,
)
    requires
        call_ensures(AssetLoadOp::new, (sender, handle), op),
    ensures
        op@.load == handle,
        op@.sender == sender,
        op@.open,
{
}

/// Whether `report` is what is sent between `before` and `after` if the operation is `open`, and
/// nothing is sent otherwise.
pub open spec fn is_sent_once(
    before: Sender<HandleOp>,
    after: Sender<HandleOp>,
    open: bool,
    report: HandleOp,
) -> bool {
    &&& open ==> sent(after).len() == sent(before).len() + 1 && sent(after).last() == report
    &&& !open ==> sent(after).len() == sent(before).len()
    &&& forall|i: int| 0 <= i < sent(before).len() ==> #[trigger] sent(after)[i] == sent(before)[i]
}

/// That an asset is loaded is reported once, of the load that the operation is about, to where the
/// operation reports to; and there is nothing to report afterwards.
pub proof fn law_completion_is_reported(op: AssetLoadOp, ended: AssetLoadOp)
    requires
        call_ensures(AssetLoadOp::complete, (op,), ended),
    ensures
        ended@.load == op@.load,
        !ended@.open,
        is_sent_once(
            *op@.sender,
            *ended@.sender,
            op@.open,
            HandleOp::LoadComplete(op@.load),
        ),
        forall|receiver: Receiver<HandleOp>| #[trigger]
            connected(*ended@.sender, receiver) <==> connected(*op@.sender, receiver),
{
}

/// That an asset could not be loaded is reported once, of the load that the operation is about,
/// with the reason that was given; and there is nothing to report afterwards.
pub proof fn law_failure_is_reported(op: AssetLoadOp, reason: String, ended: AssetLoadOp)
    requires
        call_ensures(AssetLoadOp::error, (op, reason), ended),
    ensures
        ended@.load == op@.load,
        !ended@.open,
        is_sent_once(
            *op@.sender,
            *ended@.sender,
            op@.open,
            HandleOp::LoadError(op@.load, reason),
        ),
        forall|receiver: Receiver<HandleOp>| #[trigger]
            connected(*ended@.sender, receiver) <==> connected(*op@.sender, receiver),
{
}

// ----- small things

/// The data of a new loader have been asked for nothing.
pub proof fn law_new_data(data: LoaderData)
    requires
        call_ensures(LoaderData::new, (), data),
    ensures
        asked_for_nothing(data@),
{
}

/// Reports go to the loader's own end of the channel.
pub proof fn law_reports_go_to_the_loader(data: &LoaderData, sender: &Arc<Sender<HandleOp>>)
    requires
        call_ensures(LoaderData::op_sender, (data,), sender),
    ensures
        *sender == data@.reports,
{
}

/// Handles begin with the one that is asked for.
pub proof fn law_handles_begin(first: u64, allocator: HandleAllocator)
    requires
        call_ensures(HandleAllocator::new, (first,), allocator),
    ensures
        allocator.next() == first,
{
}

/// A new request is not answered, and remembers what it is about.
pub proof fn law_new_request<P, T, U>(
    promise: P,
    user_data: U,
    request: ResponsePromise<P, T, U>,
)
    requires
        call_ensures(ResponsePromise::<P, T, U>::new, (promise, user_data), request),
    ensures
        request.promise == promise,
        request.user_data == user_data,
        request.response is NotReady,
{
}

/// Changing the sub-state of a load keeps whether it is loading or loaded.
pub proof fn law_changing_the_sub_state<F>(state: LoadState, f: F, mapped: LoadState) where
    F: FnOnce(AssetLoadState) -> AssetLoadState,

    requires
        call_ensures(LoadState::map_asset_load_state::<F>, (state, f), mapped),
    ensures
        state matches LoadState::LoadingAsset(a) ==> {
            &&& mapped matches LoadState::LoadingAsset(b)
            &&& call_ensures(f, (a,), b)
        },
        state matches LoadState::Loaded(a) ==> {
            &&& mapped matches LoadState::Loaded(b)
            &&& call_ensures(f, (a,), b)
        },
{
}

} // verus!
