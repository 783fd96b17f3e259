//! How calls of the loader relate that callers make one after the other.

use crate::fault::Fault;
use crate::ids::{AssetTypeId, AssetUuid, LoadHandle};
use crate::rpc_loader::{RpcAction, RpcEvent, RpcLoader};
use crate::state::{LoadInfo, LoadStatus};
use crate::storage::{AssetStorage, TracedStorage};
use vstd::prelude::*;

verus! {

/// What callers are told of a load when they ask.
pub struct Told {
    pub info: Option<LoadInfo>,
    pub status: LoadStatus,
    pub asset: Option<(AssetTypeId, LoadHandle)>,
}

/// Whether `told` is what `loader` tells of a load.
pub open spec fn tells<D, M>(loader: &RpcLoader<D, M>, load: LoadHandle, told: Told) -> bool {
    &&& call_ensures(RpcLoader::<D, M>::get_load_info, (loader, load), told.info)
    &&& call_ensures(RpcLoader::<D, M>::get_load_status, (loader, load), told.status)
    &&& call_ensures(RpcLoader::<D, M>::get_asset, (loader, load), told.asset)
}

/// A new loader has no load of any asset, and tells nothing of any load.
pub proof fn law_a_new_loader_tells_nothing<D, M>(
    connect_string: String,
    loader: RpcLoader<D, M>,
    id: AssetUuid,
    found: Option<LoadHandle>,
    load: LoadHandle,
    told: Told,
)
    requires
        call_ensures(RpcLoader::<D, M>::new, (connect_string,), loader),
        call_ensures(RpcLoader::<D, M>::get_load, (&loader, id), found),
        tells(&loader, load, told),
    ensures
        found is None,
        told.info is None,
        told.status is NotRequested,
        told.asset is None,
{
}

/// What is told of a load fits together: of a load that there is not, nothing is told; what is loaded
/// has an asset identifier; and an asset that is available is that of the load asked for, which is
/// not being unloaded.
pub proof fn law_what_is_told_fits_together<D, M>(
    loader: &RpcLoader<D, M>,
    load: LoadHandle,
    told: Told,
)
    requires
        tells(loader, load, told),
    ensures
        told.info is None ==> told.status is NotRequested && told.asset is None,
        !(told.status is NotRequested) ==> told.info is Some,
        told.asset is Some ==> told.status is Loaded || told.status is Loading,
        told.asset matches Some(given) ==> given.1 == load,
{
}

/// Whoever adds a reference to an asset gets the load that looking up the asset gives from then on.
pub proof fn law_a_reference_is_to_the_load_of_the_asset<D, M>(
    loader: &mut RpcLoader<D, M>,
    id: AssetUuid,
    handle: LoadHandle,
    found: Option<LoadHandle>,
)
    requires
        call_ensures(RpcLoader::<D, M>::add_ref, (loader, id), handle),
    ensures
        call_ensures(RpcLoader::<D, M>::get_load, (&*final(loader), id), found) ==> found == Some(
            handle,
        ),
{
}

/// Whoever adds a reference to an asset that has a load gets that load.
pub proof fn law_an_asset_keeps_its_load<D, M>(
    loader: &mut RpcLoader<D, M>,
    id: AssetUuid,
    handle: LoadHandle,
    found: Option<LoadHandle>,
)
    requires
        call_ensures(RpcLoader::<D, M>::add_ref, (loader, id), handle),
        call_ensures(RpcLoader::<D, M>::get_load, (&*old(loader), id), found),
    ensures
        found is Some ==> found == Some(handle),
{
}

/// Adding a reference leaves the loads of other assets as they are.
pub proof fn law_a_reference_leaves_other_assets_alone<D, M>(
    loader: &mut RpcLoader<D, M>,
    id: AssetUuid,
    handle: LoadHandle,
    other: AssetUuid,
    before: Option<LoadHandle>,
    after: Option<LoadHandle>,
)
    requires
        call_ensures(RpcLoader::<D, M>::add_ref, (loader, id), handle),
        call_ensures(RpcLoader::<D, M>::get_load, (&*old(loader), other), before),
        other != id,
    ensures
        call_ensures(RpcLoader::<D, M>::get_load, (&*final(loader), other), after) ==> after
            == before,
{
}

/// Adding a reference leaves alone what is told of every other load, and counts one more on this one:
/// it keeps its asset, its status and what is available of it.
pub proof fn law_a_reference_counts_one_more<D, M>(
    loader: &mut RpcLoader<D, M>,
    id: AssetUuid,
    handle: LoadHandle,
    load: LoadHandle,
    before: Told,
    after: Told,
)
    requires
        call_ensures(RpcLoader::<D, M>::add_ref, (loader, id), handle),
        tells(&*old(loader), load, before),
    ensures
        load != handle && tells(&*final(loader), load, after) ==> after == before,
        load == handle && before.info is Some && old(loader).data@.handles.contains_key(id)
            && tells(&*final(loader), load, after) ==> {
            &&& after.info is Some
            &&& after.info->0.asset_id == before.info->0.asset_id
            &&& old(loader).data@.loads[load.0].refs < u32::MAX ==> after.info->0.refs
                == before.info->0.refs + 1
            &&& after.status == before.status
            &&& after.asset == before.asset
        },
{
}

/// An asset that is referenced for the first time has one reference, and its load has not begun.
pub proof fn law_the_first_reference_makes_a_load<D, M>(
    loader: &mut RpcLoader<D, M>,
    id: AssetUuid,
    handle: LoadHandle,
    found: Option<LoadHandle>,
    after: Told,
)
    requires
        call_ensures(RpcLoader::<D, M>::add_ref, (loader, id), handle),
        call_ensures(RpcLoader::<D, M>::get_load, (&*old(loader), id), found),
        found is None,
    ensures
        tells(&*final(loader), handle, after) ==> {
            &&& after.info is Some
            &&& after.info->0.asset_id == id
            &&& after.info->0.refs == 1
            &&& after.status is NotRequested
            &&& after.asset is None
        },
{
}

/// Removing a reference leaves alone what is told of every other load, and counts one less on this
/// one: it keeps its asset, its status and what is available of it until a round sees to it. Where
/// there is no such load, nothing changes.
pub proof fn law_a_removed_reference_counts_one_less<D, M>(
    loader: &mut RpcLoader<D, M>,
    removed: LoadHandle,
    load: LoadHandle,
    before: Told,
    after: Told,
)
    requires
        call_ensures(RpcLoader::<D, M>::remove_ref, (loader, removed), ()),
        tells(&*old(loader), load, before),
    ensures
        (load != removed || before.info is None) && tells(&*final(loader), load, after) ==> after
            == before,
        load == removed && before.info is Some && tells(&*final(loader), load, after) ==> {
            &&& after.info is Some
            &&& after.info->0.asset_id == before.info->0.asset_id
            &&& 0 < old(loader).data@.loads[load.0].refs <= u32::MAX ==> after.info->0.refs
                == before.info->0.refs - 1
            &&& after.status == before.status
            &&& after.asset == before.asset
        },
{
}

/// Removing a reference that was just added takes it back: of every load that there was, the same is
/// told as before.
pub proof fn law_a_reference_can_be_taken_back<D, M>(
    added: &mut RpcLoader<D, M>,
    id: AssetUuid,
    handle: LoadHandle,
    removed: &mut RpcLoader<D, M>,
    load: LoadHandle,
    before: Told,
    after: Told,
)
    requires
        call_ensures(RpcLoader::<D, M>::add_ref, (added, id), handle),
        call_ensures(RpcLoader::<D, M>::remove_ref, (removed, handle), ()),
        tells(&*old(added), load, before),
        before.info is Some,
        old(added).data@.handles.contains_key(id) || load != handle,
    ensures
        *old(removed) == *final(added) && tells(&*final(removed), load, after) ==> after == before,
{
}

/// A round that begins, and requests that have been made, change nothing that is told of a load.
pub proof fn law_requests_are_not_told<D, M, S: AssetStorage + ?Sized>(
    loader: &mut RpcLoader<D, M>,
    event: RpcEvent<D, M>,
    storage: &mut TracedStorage<S>,
    next: Result<RpcAction, Fault>,
    load: LoadHandle,
    before: Told,
    after: Told,
)
    requires
        call_ensures(RpcLoader::<D, M>::process::<S>, (loader, event, storage), next),
        event is Begun || event is MetadataRequested || event is DataRequested,
        tells(&*old(loader), load, before),
    ensures
        next is Ok,
        final(storage).calls() == old(storage).calls(),
        tells(&*final(loader), load, after) ==> after == before,
{
}

} // verus!
