//! What callers are told and what their references do, call by call.

use crate::data::{HandleAllocator, LoaderData};
use crate::ids::{AssetTypeId, AssetUuid, LoadHandle};
use crate::model::LoaderModel;
use crate::rpc_loader::RpcLoader;
use crate::state::{AssetLoadResult, AssetLoadState, LoadInfo, LoadState, LoadStatus};
use crate::storage::LoaderInfoProvider;
use vstd::prelude::*;

verus! {

/// A load is reported as not requested exactly if there is none or it has not begun; as loading
/// from then on until a version of its asset is committed, whatever it waits for; as loaded exactly
/// while a committed version is in use, even if a newer one is being loaded; and as unloading
/// exactly from the decision to unload it to its end.
pub proof fn law_status_tells_how_a_load_stands<D, M>(
    loader: &RpcLoader<D, M>,
    load: LoadHandle,
    status: LoadStatus,
)
    requires
        call_ensures(RpcLoader::<D, M>::get_load_status, (loader, load), status),
    ensures
        ({
            let exists_load = loader.data@.loads.contains_key(load.0);
            let found = loader.data@.loads[load.0];
            &&& status is NotRequested <==> !exists_load || found.state is Indeterminate
            &&& status is Loading <==> exists_load && (found.state is WaitingForMetadata
                || found.state is RequestingMetadata || found.state is RequestDependencies
                || found.state is WaitingForDependencies || found.state is LoadingAsset
                || found.state is Loaded && found.loaded_version is None)
            &&& status is Loaded <==> exists_load && found.state is Loaded
                && found.loaded_version is Some
            &&& status is Unloading <==> exists_load && (found.state is UnloadRequested
                || found.state is Unloading)
        }),
{
}

/// What is told of a load depends on that load alone: two loaders that have the same load, or both
/// have none, tell the same of it, whatever else they hold.
pub proof fn law_status_depends_on_the_load_alone<D, M>(
    a: &RpcLoader<D, M>,
    b: &RpcLoader<D, M>,
    load: LoadHandle,
    status_a: LoadStatus,
    status_b: LoadStatus,
)
    requires
        call_ensures(RpcLoader::<D, M>::get_load_status, (a, load), status_a),
        call_ensures(RpcLoader::<D, M>::get_load_status, (b, load), status_b),
        a.data@.loads.contains_key(load.0) == b.data@.loads.contains_key(load.0),
        a.data@.loads.contains_key(load.0) ==> a.data@.loads[load.0] == b.data@.loads[load.0],
    ensures
        status_a == status_b,
{
}

/// The load of an asset is found exactly if the asset was ever referenced, and it is the one that
/// it was given then.
pub proof fn law_load_is_found<D, M>(
    loader: &RpcLoader<D, M>,
    id: AssetUuid,
    load: Option<LoadHandle>,
)
    requires
        call_ensures(RpcLoader::<D, M>::get_load, (loader, id), load),
    ensures
        load is Some <==> loader.data@.handles.contains_key(id),
        load matches Some(h) ==> h.0 == loader.data@.handles[id],
{
}

/// What is told of a load besides its status is its asset and the number of its references, as far
/// as 32 bits can tell, and it is told exactly if there is such a load.
pub proof fn law_load_info_is_of_the_load<D, M>(
    loader: &RpcLoader<D, M>,
    load: LoadHandle,
    info: Option<LoadInfo>,
)
    requires
        call_ensures(RpcLoader::<D, M>::get_load_info, (loader, load), info),
    ensures
        ({
            let m = loader.data@;
            &&& info is Some <==> m.loads.contains_key(load.0)
            &&& info is Some ==> info->0.asset_id == m.loads[load.0].asset_id
            &&& info is Some && m.loads[load.0].refs <= u32::MAX ==> info->0.refs
                == m.loads[load.0].refs
            &&& info is Some ==> info->0.refs == (m.loads[load.0].refs as u32)
        }),
{
}

/// The asset of a load is available exactly while the load is loaded, newer versions on their way
/// or not, and its type is known; what is given is that type and the load that was asked for.
pub proof fn law_asset_is_available_while_loaded<D, M>(
    loader: &RpcLoader<D, M>,
    load: LoadHandle,
    asset: Option<(AssetTypeId, LoadHandle)>,
)
    requires
        call_ensures(RpcLoader::<D, M>::get_asset, (loader, load), asset),
    ensures
        ({
            let m = loader.data@;
            &&& asset is Some <==> m.loads.contains_key(load.0) && m.loads[load.0].state is Loaded
                && m.loads[load.0].asset_type is Some
            &&& asset matches Some(given) ==> Some(given.0) == m.loads[load.0].asset_type
                && given.1 == load
        }),
{
}

/// The loader's own data gives the same.
pub proof fn law_data_gives_the_asset(
    data: &LoaderData,
    load: LoadHandle,
    asset: Option<(AssetTypeId, LoadHandle)>,
)
    requires
        call_ensures(LoaderData::get_asset, (data, load), asset),
    ensures
        asset is Some <==> data@.loads.contains_key(load.0) && data@.loads[load.0].state is Loaded
            && data@.loads[load.0].asset_type is Some,
        asset matches Some(given) ==> Some(given.0) == data@.loads[load.0].asset_type
            && given.1 == load,
{
}

/// A storage that looks up the load of an asset gets it exactly if the asset was ever referenced.
pub proof fn law_storage_finds_loads(data: &LoaderData, id: AssetUuid, load: Option<LoadHandle>)
    requires
        call_ensures(
            <LoaderData as LoaderInfoProvider>::get_load_handle,
            (data, id),
            load,
        ),
    ensures
        load is Some <==> data@.handles.contains_key(id),
        load matches Some(h) ==> h.0 == data@.handles[id],
{
}

/// A storage that looks up the asset of a load gets it exactly if there is such a load.
pub proof fn law_storage_finds_assets(data: &LoaderData, load: LoadHandle, id: Option<AssetUuid>)
    requires
        call_ensures(<LoaderData as LoaderInfoProvider>::get_asset_id, (data, load), id),
    ensures
        id is Some <==> data@.loads.contains_key(load.0),
        id is Some ==> id->0 == data@.loads[load.0].asset_id,
{
}

/// Whether nothing but loads and handles differs between two loaders.
pub open spec fn same_surroundings(m: LoaderModel, n: LoaderModel) -> bool {
    &&& n.metadata == m.metadata
    &&& n.pending_reloads == m.pending_reloads
    &&& n.reports == m.reports
    &&& n.connected == m.connected
    &&& n.polls == m.polls
}

/// Whether `n` comes from `m` by one more reference to `id`, with the handle `h`.
pub open spec fn one_reference_more(m: LoaderModel, n: LoaderModel, id: AssetUuid, h: u64) -> bool {
    &&& same_surroundings(m, n)
    &&& n.handles.contains_key(id) && n.handles[id] == h
    &&& forall|other: AssetUuid|
        other != id ==> (#[trigger] n.handles.contains_key(other) <==> m.handles.contains_key(
            other,
        )) && (m.handles.contains_key(other) ==> n.handles[other] == m.handles[other])
    &&& forall|k: u64|
        k != h ==> (#[trigger] n.loads.contains_key(k) <==> m.loads.contains_key(k)) && (
        m.loads.contains_key(k) ==> n.loads[k] == m.loads[k])
    &&& if m.handles.contains_key(id) {
        // an asset keeps its handle for good, and a load that is gone stays gone
        &&& m.handles[id] == h
        &&& n.next_handle == m.next_handle
        &&& n.loads.contains_key(h) <==> m.loads.contains_key(h)
        &&& m.loads.contains_key(h) ==> {
            let a = m.loads[h];
            let b = n.loads[h];
            &&& b.refs == if a.refs < usize::MAX {
                a.refs + 1
            } else {
                0
            }
            &&& b.asset_id == a.asset_id && b.state == a.state && b.asset_type == a.asset_type
            &&& b.requested_version == a.requested_version
            &&& b.loaded_version == a.loaded_version
            &&& b.auto_commit == a.auto_commit && b.pending_reload == a.pending_reload
        }
    } else {
        // a new load takes the next handle
        &&& m.next_handle == h
        &&& n.next_handle == if h < u64::MAX {
            h + 1
        } else {
            0
        }
        &&& n.loads.contains_key(h)
        &&& n.loads[h].asset_id == id
        &&& n.loads[h].state is Indeterminate
        &&& n.loads[h].refs == 1
        &&& n.loads[h].asset_type is None
        &&& n.loads[h].requested_version is None
        &&& n.loads[h].loaded_version is None
        &&& n.loads[h].auto_commit
        &&& !n.loads[h].pending_reload
    }
}

/// Adding a reference counts one more on the load of the asset and changes nothing else. An asset
/// that was never referenced gets a new load, with the next handle and this one reference; every
/// later reference gets the same handle.
pub proof fn law_adding_a_reference<D, M>(
    loader: &mut RpcLoader<D, M>,
    id: AssetUuid,
    handle: LoadHandle,
)
    requires
        call_ensures(RpcLoader::<D, M>::add_ref, (loader, id), handle),
    ensures
        one_reference_more(old(loader).data@, final(loader).data@, id, handle.0),
        final(loader).requests == old(loader).requests,
        final(loader).connect_string == old(loader).connect_string,
{
}

/// The loader's own data does the same.
pub proof fn law_data_adds_a_reference(data: &mut LoaderData, id: AssetUuid, handle: LoadHandle)
    requires
        call_ensures(LoaderData::add_ref, (data, id), handle),
    ensures
        one_reference_more(old(data)@, final(data)@, id, handle.0),
{
}

/// Whether `n` comes from `m` by one reference less to the load `h`.
pub open spec fn one_reference_less(m: LoaderModel, n: LoaderModel, h: u64) -> bool {
    &&& same_surroundings(m, n)
    &&& n.next_handle == m.next_handle
    &&& n.handles == m.handles
    &&& n.loads.dom() == m.loads.dom()
    &&& forall|k: u64| k != h && #[trigger] m.loads.contains_key(k) ==> n.loads[k] == m.loads[k]
    &&& m.loads.contains_key(h) ==> {
        let a = m.loads[h];
        let b = n.loads[h];
        &&& b.refs == if a.refs > 0 {
            a.refs - 1
        } else {
            usize::MAX as int
        }
        &&& b.asset_id == a.asset_id && b.state == a.state && b.asset_type == a.asset_type
        &&& b.requested_version == a.requested_version && b.loaded_version == a.loaded_version
        &&& b.auto_commit == a.auto_commit && b.pending_reload == a.pending_reload
    }
}

/// Removing a reference counts one less on the load, if there is such a load, and changes nothing
/// else. Whatever follows from that is left to the rounds.
pub proof fn law_removing_a_reference<D, M>(loader: &mut RpcLoader<D, M>, load: LoadHandle)
    requires
        call_ensures(RpcLoader::<D, M>::remove_ref, (loader, load), ()),
    ensures
        one_reference_less(old(loader).data@, final(loader).data@, load.0),
        final(loader).requests == old(loader).requests,
        final(loader).connect_string == old(loader).connect_string,
{
    assert(final(loader).data@.loads.dom() =~= loader.data@.loads.dom());
}

/// The loader's own data does the same.
pub proof fn law_data_removes_a_reference(data: &mut LoaderData, load: LoadHandle)
    requires
        call_ensures(LoaderData::remove_ref, (data, load), ()),
    ensures
        one_reference_less(old(data)@, final(data)@, load.0),
{
    assert(final(data)@.loads.dom() =~= data@.loads.dom());
}

/// Handles are given out one after the other.
pub proof fn law_handles_count_up(allocator: &mut HandleAllocator, handle: LoadHandle)
    requires
        call_ensures(HandleAllocator::allocate, (allocator,), handle),
    ensures
        handle.0 == old(allocator).next(),
        final(allocator).next() == if handle.0 < u64::MAX {
            handle.0 + 1
        } else {
            0
        },
{
}

/// Whether a loader has been asked for nothing: it has no loads, knows nothing, waits for nothing,
/// and gives out handles from one on.
pub open spec fn asked_for_nothing(m: LoaderModel) -> bool {
    &&& m.next_handle == 1
    &&& m.loads.dom() == Set::<u64>::empty()
    &&& m.handles.dom() == Set::<AssetUuid>::empty()
    &&& m.metadata.dom() == Set::<AssetUuid>::empty()
    &&& m.pending_reloads.len() == 0
    &&& m.connected
    &&& m.polls.len() == 0
}

/// A new loader has been asked for nothing, has no requests under way, and goes to the daemon that
/// it is told.
pub proof fn law_new_loader<D, M>(connect_string: String, loader: RpcLoader<D, M>)
    requires
        call_ensures(RpcLoader::<D, M>::new, (connect_string,), loader),
    ensures
        loader.connect_string == connect_string,
        asked_for_nothing(loader.data@),
        loader.requests.pending_data_requests@.len() == 0,
        loader.requests.pending_metadata_requests@.len() == 0,
{
    assert(loader.data@.loads.dom() =~= Set::empty());
    assert(loader.data@.handles.dom() =~= Set::empty());
    assert(loader.data@.metadata.dom() =~= Set::empty());
}

/// Without being told, a loader goes to the daemon's usual address on the same machine.
pub proof fn law_default_loader<D, M>(loader: RpcLoader<D, M>)
    requires
        call_ensures(<RpcLoader<D, M> as Default>::default, (), loader),
    ensures
        loader.connect_string@ == "127.0.0.1:9999"@,
        asked_for_nothing(loader.data@),
        loader.requests.pending_data_requests@.len() == 0,
        loader.requests.pending_metadata_requests@.len() == 0,
{
    assert(loader.data@.loads.dom() =~= Set::empty());
    assert(loader.data@.handles.dom() =~= Set::empty());
    assert(loader.data@.metadata.dom() =~= Set::empty());
}

/// A state says how far the data of its asset has come exactly if the asset is loading or loaded,
/// and then it is what stands in the state.
pub proof fn law_asset_load_state(state: &LoadState, s: Option<AssetLoadState>)
    requires
        call_ensures(LoadState::asset_load_state, (state,), s),
    ensures
        match *state {
            LoadState::LoadingAsset(inner) => s == Some(inner),
            LoadState::Loaded(inner) => s == Some(inner),
            _ => s is None,
        },
{
}

/// A result that changes nothing but the state changes nothing but the state.
pub proof fn law_result_from_state(state: LoadState, result: AssetLoadResult)
    requires
        call_ensures(AssetLoadResult::from_state, (state,), result),
    ensures
        result.new_state == state,
        result.new_version is None,
        result.asset_type is None,
{
}

} // verus!
