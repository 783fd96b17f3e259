//! The loader's own data: its tables, the metadata that it knows, and its end of the channel to
//! the engine.

use crate::channel::{connected, open_channel, poll, polls, HandleOp};
use crate::ids::{asset_key, lemma_key_injective, spec_key, AssetTypeId, AssetUuid, LoadHandle};
use crate::model::{is_order_of, LoaderModel, PendingReload};
use crate::state::{AssetLoad, LoadState};
use crate::storage::LoaderInfoProvider;
use crate::tables::{
    get_handle, get_load, get_or_insert_handle, handle_entries, insert_load, load_entries,
    load_handles, new_handle_table, new_load_table, remove_load, set_load,
};
use ccl::dhashmap::DHashMap;
use crossbeam_channel::{Receiver, Sender};
use std::collections::HashMap;
use std::sync::Arc;
use vstd::prelude::*;

verus! {

broadcast use vstd::std_specs::hash::group_hash_axioms;

/// What the loader knows of an asset.
pub struct AssetMetadata {
    /// The assets that have to be loaded before it.
    pub load_deps: Vec<AssetUuid>,
}

/// Gives out handles.
pub struct HandleAllocator(u64);

impl HandleAllocator {
    /// The handle that is given out next.
    pub closed spec fn next(&self) -> u64 {
        self.0
    }

    /// An allocator that starts at `first`.
    pub fn new(first: u64) -> (allocator: Self)
        ensures
            allocator.next() == first,
    {
        HandleAllocator(first)
    }

    /// Gives out a handle. After the last number the count starts at zero again.
    pub fn allocate(&mut self) -> (handle: LoadHandle)
        ensures
            handle == LoadHandle(old(self).next()),
            final(self).next() == u64::wrapping_add(old(self).next(), 1),
    {
        let handle = LoadHandle(self.0);
        self.0 = self.0.wrapping_add(1);
        handle
    }
}

/// The loader's own data.
pub struct LoaderData {
    handle_allocator: HandleAllocator,
    load_states: DHashMap<u64, AssetLoad>,
    uuid_to_load: DHashMap<AssetUuid, u64>,
    metadata: HashMap<u128, AssetMetadata>,
    op_tx: Arc<Sender<HandleOp>>,
    op_rx: Receiver<HandleOp>,
    pending_reloads: Vec<PendingReload>,
}

/// Metadata by asset, from metadata by number.
pub open spec fn by_asset(filed: Map<u128, AssetMetadata>) -> Map<AssetUuid, Seq<AssetUuid>> {
    Map::new(
        |id: AssetUuid| filed.contains_key(spec_key(id)),
        |id: AssetUuid| filed[spec_key(id)].load_deps@,
    )
}

/// Filing metadata under the number of an asset gives it to that asset and to no other.
proof fn lemma_by_asset_insert(filed: Map<u128, AssetMetadata>, id: AssetUuid, m: AssetMetadata)
    ensures
        by_asset(filed.insert(spec_key(id), m)) == by_asset(filed).insert(id, m.load_deps@),
{
    assert forall|other: AssetUuid| spec_key(other) == spec_key(id) implies other == id by {
        lemma_key_injective(other, id);
    }
    assert(by_asset(filed.insert(spec_key(id), m)) =~= by_asset(filed).insert(id, m.load_deps@));
}

impl View for LoaderData {
    type V = LoaderModel;

    closed spec fn view(&self) -> LoaderModel {
        LoaderModel {
            next_handle: self.handle_allocator.next(),
            loads: load_entries(self.load_states),
            handles: handle_entries(self.uuid_to_load),
            metadata: by_asset(self.metadata@),
            pending_reloads: self.pending_reloads@,
            reports: self.op_tx,
            connected: connected(*self.op_tx, self.op_rx),
            polls: polls(self.op_rx),
        }
    }
}

impl LoaderData {
    /// The data of a loader that has been asked for nothing.
    pub fn new() -> (data: Self)
        ensures
            data@ == LoaderModel::initial(data@.reports),
    {
        let (tx, rx) = open_channel();
        let data = LoaderData {
            handle_allocator: HandleAllocator::new(1),
            load_states: new_load_table(),
            uuid_to_load: new_handle_table(),
            metadata: HashMap::new(),
            op_tx: Arc::new(tx),
            op_rx: rx,
            pending_reloads: Vec::new(),
        };
        assert(data@.metadata =~= LoaderModel::initial(data@.reports).metadata);
        assert(data@.pending_reloads =~= LoaderModel::initial(data@.reports).pending_reloads);
        data
    }

    /// Where the engine's reports are to be sent.
    pub fn op_sender(&self) -> (sender: &Arc<Sender<HandleOp>>)
        ensures
            *sender == self@.reports,
    {
        &self.op_tx
    }

    /// The load of a handle.
    pub(crate) fn load(&self, handle: u64) -> (load: Option<AssetLoad>)
        ensures
            load == self@.load(handle),
    {
        get_load(&self.load_states, handle)
    }

    /// The handle of an asset.
    pub(crate) fn handle(&self, id: &AssetUuid) -> (handle: Option<u64>)
        ensures
            handle == self@.handle(*id),
    {
        get_handle(&self.uuid_to_load, id)
    }

    /// The load of an asset and its handle.
    pub(crate) fn load_of(&self, id: &AssetUuid) -> (found: Option<(u64, AssetLoad)>)
        ensures
            found == match self@.load_of(*id) {
                Some(load) => Some((self@.handles[*id], load)),
                None => None,
            },
    {
        match self.handle(id) {
            Some(handle) => match self.load(handle) {
                Some(load) => Some((handle, load)),
                None => None,
            },
            None => None,
        }
    }

    /// Replaces a load.
    pub(crate) fn put(&mut self, handle: u64, load: AssetLoad)
        requires
            old(self)@.loads.contains_key(handle),
        ensures
            final(self)@ == old(self)@.with_load(handle, load),
    {
        set_load(&mut self.load_states, handle, load);
    }

    /// Removes a load.
    pub(crate) fn remove(&mut self, handle: u64)
        ensures
            final(self)@ == (LoaderModel { loads: old(self)@.loads.remove(handle), ..old(self)@ }),
    {
        remove_load(&mut self.load_states, handle);
    }

    /// The handles of all loads, in no particular order.
    pub(crate) fn handles(&self) -> (handles: Vec<u64>)
        ensures
            is_order_of(handles@, self@),
    {
        load_handles(&self.load_states)
    }

    /// Whether the metadata of an asset is known.
    pub(crate) fn has_metadata(&self, id: &AssetUuid) -> (known: bool)
        ensures
            known == self@.metadata.contains_key(*id),
    {
        self.metadata.contains_key(&asset_key(id))
    }

    /// The dependencies of an asset whose metadata is known.
    pub(crate) fn load_deps(&self, id: &AssetUuid) -> (deps: Option<&Vec<AssetUuid>>)
        ensures
            match deps {
                Some(v) => self@.metadata.contains_key(*id) && v@ == self@.metadata[*id],
                None => !self@.metadata.contains_key(*id),
            },
    {
        match self.metadata.get(&asset_key(id)) {
            Some(metadata) => Some(&metadata.load_deps),
            None => None,
        }
    }

    /// Notes the dependencies of an asset.
    pub(crate) fn set_metadata(&mut self, id: &AssetUuid, load_deps: Vec<AssetUuid>)
        ensures
            final(self)@ == (LoaderModel {
                metadata: old(self)@.metadata.insert(*id, load_deps@),
                ..old(self)@
            }),
    {
        proof {
            lemma_by_asset_insert(self.metadata@, *id, AssetMetadata { load_deps });
        }
        self.metadata.insert(asset_key(id), AssetMetadata { load_deps });
    }

    /// A copy of the dependencies of an asset whose metadata is known.
    pub(crate) fn copy_deps(&self, id: &AssetUuid) -> (deps: Option<Vec<AssetUuid>>)
        ensures
            match deps {
                Some(v) => self@.metadata.contains_key(*id) && v@ == self@.metadata[*id],
                None => !self@.metadata.contains_key(*id),
            },
    {
        match self.load_deps(id) {
            Some(deps) => {
                let mut copy: Vec<AssetUuid> = Vec::new();
                let mut i: usize = 0;
                while i < deps.len()
                    invariant
                        i <= deps.len(),
                        copy@ == deps@.take(i as int),
                    decreases deps.len() - i,
                {
                    copy.push(deps[i]);
                    assert(copy@ =~= deps@.take(i as int + 1));
                    i = i + 1;
                }
                assert(deps@.take(i as int) =~= deps@);
                Some(copy)
            },
            None => None,
        }
    }

    /// The pending reloads.
    pub(crate) fn reloads(&self) -> (reloads: &Vec<PendingReload>)
        ensures
            reloads@ == self@.pending_reloads,
    {
        &self.pending_reloads
    }

    /// Adds a pending reload.
    pub(crate) fn push_reload(&mut self, reload: PendingReload)
        ensures
            final(self)@ == (LoaderModel {
                pending_reloads: old(self)@.pending_reloads.push(reload),
                ..old(self)@
            }),
    {
        self.pending_reloads.push(reload);
    }

    /// Forgets all pending reloads.
    pub(crate) fn clear_reloads(&mut self)
        ensures
            final(self)@ == (LoaderModel { pending_reloads: Seq::empty(), ..old(self)@ }),
    {
        self.pending_reloads.clear();
        assert(self@.pending_reloads =~= Seq::empty());
    }

    /// Asks for a report of the engine. Whether one is there, and which, is up to the engine.
    pub(crate) fn next_op(&mut self) -> (op: Option<HandleOp>)
        ensures
            final(self)@ == old(self)@.polled(op),
    {
        poll(&mut self.op_rx)
    }

    /// Adds a reference to an asset. An asset that was never referenced gets a new load.
    pub fn add_ref(&mut self, id: AssetUuid) -> (handle: LoadHandle)
        ensures
            handle == LoadHandle(old(self)@.handle_for(id)),
            final(self)@ == old(self)@.add_ref(id),
    {
        let handle: u64 = match get_handle(&self.uuid_to_load, &id) {
            Some(handle) => handle,
            None => {
                let new_handle = self.handle_allocator.allocate();
                insert_load(
                    &mut self.load_states,
                    new_handle.0,
                    AssetLoad {
                        asset_id: id,
                        state: LoadState::Indeterminate,
                        refs: 0,
                        asset_type: None,
                        requested_version: None,
                        loaded_version: None,
                        auto_commit: true,
                        pending_reload: false,
                    },
                );
                get_or_insert_handle(&mut self.uuid_to_load, &id, new_handle.0)
            },
        };
        assert(self@ == old(self)@.known(id));
        match self.load(handle) {
            Some(load) => {
                self.put(handle, AssetLoad { refs: load.refs.wrapping_add(1), ..load });
            },
            None => {},
        }
        LoadHandle(handle)
    }

    /// Removes a reference from a load. A load that does not exist is left alone.
    pub fn remove_ref(&mut self, load: LoadHandle)
        ensures
            final(self)@ == old(self)@.remove_ref(load.0),
    {
        match self.load(load.0) {
            Some(found) => {
                self.put(load.0, AssetLoad { refs: found.refs.wrapping_sub(1), ..found });
            },
            None => {},
        }
    }

    /// The type of the asset of a load, while the asset is available.
    pub fn get_asset(&self, load: LoadHandle) -> (asset: Option<(AssetTypeId, LoadHandle)>)
        ensures
            asset == self@.asset(load.0),
    {
        match self.load(load.0) {
            Some(found) => match found.state {
                LoadState::Loaded(_) => match found.asset_type {
                    Some(asset_type) => Some((asset_type, load)),
                    None => None,
                },
                _ => None,
            },
            None => None,
        }
    }
}

impl LoaderInfoProvider for LoaderData {
    fn get_load_handle(&self, id: AssetUuid) -> (handle: Option<LoadHandle>)
        ensures
            handle == match self@.handle(id) {
                Some(h) => Some(LoadHandle(h)),
                None => None,
            },
    {
        match self.handle(&id) {
            Some(handle) => Some(LoadHandle(handle)),
            None => None,
        }
    }

    fn get_asset_id(&self, load: LoadHandle) -> (id: Option<AssetUuid>)
        ensures
            id == match self@.load(load.0) {
                Some(found) => Some(found.asset_id),
                None => None,
            },
    {
        match self.load(load.0) {
            Some(found) => Some(found.asset_id),
            None => None,
        }
    }
}

} // verus!
