//! The states of a load.

use crate::ids::{AssetTypeId, AssetUuid};
use vstd::prelude::*;

verus! {

/// Describes the state of loading an asset.
///
/// This is separate from [`LoadState`] to support tracking load states even when an asset is
/// already loaded, as for hot reload.
#[derive(Copy, Clone, PartialEq, Eq, Debug, Structural)]
pub enum AssetLoadState {
    /// Waiting for asset data to be fetched.
    WaitingForData,
    /// Asset data is being fetched.
    RequestingData,
    /// Engine systems are loading the asset.
    LoadingAsset,
    /// Engine systems have loaded the asset, but the asset is not committed.
    /// This state is only reached when [`AssetLoad::auto_commit`] is off.
    LoadedUncommitted,
    /// The asset is loaded and ready to use.
    Loaded,
}

/// Describes the state of an asset load operation.
#[derive(Copy, Clone, PartialEq, Eq, Debug, Structural)]
pub enum LoadState {
    /// Indeterminate state: may turn into a load, or end in removal if nothing refers to it.
    Indeterminate,
    /// The load operation needs metadata to progress.
    WaitingForMetadata,
    /// Metadata is being fetched for the load operation.
    RequestingMetadata,
    /// Dependencies are requested for loading.
    RequestDependencies,
    /// Waiting for dependencies to complete loading.
    WaitingForDependencies,
    /// The asset is loading. The [`AssetLoadState`] describes the sub-state.
    LoadingAsset(AssetLoadState),
    /// The asset is loaded and available to use. The [`AssetLoadState`] describes the sub-state.
    Loaded(AssetLoadState),
    /// The asset should be unloaded.
    UnloadRequested,
    /// The asset is being unloaded by engine systems.
    Unloading,
}

impl LoadState {
    /// The sub-state of a state in which the asset itself is loading or loaded.
    pub open spec fn sub_state(self) -> Option<AssetLoadState> {
        match self {
            LoadState::LoadingAsset(s) => Some(s),
            LoadState::Loaded(s) => Some(s),
            _ => None,
        }
    }

    /// This state with `s` for its sub-state, if it has one.
    pub open spec fn with_sub_state(self, s: AssetLoadState) -> LoadState {
        match self {
            LoadState::LoadingAsset(_) => LoadState::LoadingAsset(s),
            LoadState::Loaded(_) => LoadState::Loaded(s),
            other => other,
        }
    }

    /// The sub-state of a state in which the asset itself is loading or loaded.
    pub fn asset_load_state(&self) -> (s: Option<AssetLoadState>)
        ensures
            s == self.sub_state(),
    {
        match *self {
            LoadState::LoadingAsset(s) => Some(s),
            LoadState::Loaded(s) => Some(s),
            _ => None,
        }
    }

    /// Applies `f` to the sub-state and keeps the rest.
    pub fn map_asset_load_state<F>(self, f: F) -> (mapped: LoadState) where
        F: FnOnce(AssetLoadState) -> AssetLoadState,

        requires
            self.sub_state() is Some,
            call_requires(f, (self.sub_state()->0,)),
        ensures
            exists|s: AssetLoadState|
                call_ensures(f, (self.sub_state()->0,), s) && mapped == #[trigger] self.with_sub_state(s),
    {
        match self {
            LoadState::LoadingAsset(asset_state) => {
                let s = f(asset_state);
                assert(self.with_sub_state(s) == LoadState::LoadingAsset(s));
                LoadState::LoadingAsset(s)
            },
            LoadState::Loaded(asset_state) => {
                let s = f(asset_state);
                assert(self.with_sub_state(s) == LoadState::Loaded(s));
                LoadState::Loaded(s)
            },
            other => other,
        }
    }
}

/// One load: an asset, where it is on its way, and who needs it.
#[derive(Copy, Clone, Debug)]
pub struct AssetLoad {
    /// The asset.
    pub asset_id: AssetUuid,
    /// Where the load stands.
    pub state: LoadState,
    /// How many references the asset has.
    pub refs: usize,
    /// The type of the asset, once its data has arrived.
    pub asset_type: Option<AssetTypeId>,
    /// The version last handed to the engine.
    pub requested_version: Option<u32>,
    /// The version last committed.
    pub loaded_version: Option<u32>,
    /// Whether a completed load is committed at once.
    pub auto_commit: bool,
    /// Whether the asset has changed since it was loaded.
    pub pending_reload: bool,
}

/// What the answer to a data request does to a load.
#[derive(Copy, Clone, Debug)]
pub struct AssetLoadResult {
    /// The state that the load takes.
    pub new_state: LoadState,
    /// The version that was handed to the engine, if one was.
    pub new_version: Option<u32>,
    /// The type of the asset, if data arrived.
    pub asset_type: Option<AssetTypeId>,
}

impl AssetLoadResult {
    /// A result that changes nothing but the state.
    pub fn from_state(new_state: LoadState) -> (result: Self)
        ensures
            result == (AssetLoadResult {
                new_state,
                new_version: None,
                asset_type: None,
            }),
    {
        AssetLoadResult { new_state, new_version: None, asset_type: None }
    }
}

/// What callers are told of a load.
#[derive(Copy, Clone, PartialEq, Eq, Debug, Structural)]
pub enum LoadStatus {
    /// There is no such load, or it has not begun.
    NotRequested,
    /// The load is on its way.
    Loading,
    /// A version of the asset is committed.
    Loaded,
    /// The asset is on its way out.
    Unloading,
}

/// The asset of a load and the number of its references.
#[derive(Copy, Clone, Debug)]
pub struct LoadInfo {
    /// The asset.
    pub asset_id: AssetUuid,
    /// How many references it has.
    pub refs: u32,
}

} // verus!
