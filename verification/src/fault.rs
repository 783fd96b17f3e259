//! What can go wrong while the loader works.

use crate::ids::{AssetUuid, LoadHandle};
use crate::state::LoadState;
use vstd::prelude::*;

verus! {

/// A condition under which the loader cannot go on. Whoever runs the loader is expected to stop.
#[derive(Debug)]
pub enum Fault {
    /// The engine could not load an asset.
    LoadFailed(LoadHandle, String),
    /// The engine dropped a load operation without completing it.
    LoadDropped(LoadHandle),
    /// The engine completed a load that does not exist.
    CompletedUnknownLoad(LoadHandle),
    /// A data request was answered for a load that does not exist.
    DataForUnknownLoad(LoadHandle),
    /// Metadata was requested or arrived for an asset whose load no longer exists.
    MetadataForUnknownLoad(LoadHandle),
    /// The asset of the load is neither loading nor loaded.
    NotLoading(LoadState),
    /// Data arrived for a load that was not waiting for it.
    NotRequestingData(LoadState),
    /// The load is not in a state in which it can be committed.
    NotCommittable(LoadState),
    /// A load is to be committed and the type of its asset is not known.
    MissingAssetType(AssetUuid),
    /// A load has come far enough to have a version and has none.
    MissingVersion(AssetUuid),
    /// The type of an asset is not what it was.
    AssetTypeChanged(AssetUuid),
    /// There is no version number left for the next version of an asset.
    VersionOverflow(AssetUuid),
    /// The metadata of an asset should be known and is not.
    MissingMetadata(AssetUuid),
    /// A dependency that is to be released was never referenced.
    UnknownDependency(AssetUuid),
    /// An identifier is not sixteen bytes long.
    IdLength,
}

/// Why an answer of the daemon could not be used.
#[derive(Debug)]
pub enum Failure {
    /// The message could not be read.
    Malformed,
    /// The storage did not take the asset.
    Rejected,
    /// The loader cannot go on.
    Fault(Fault),
}

} // verus!
