//! What the loader is, as a mathematical value, and what each of its operations makes of it.

use crate::channel::{HandleOp, LoadOpModel};
use crate::fault::{Failure, Fault};
use crate::ids::{AssetTypeId, AssetUuid, LoadHandle};
use crate::responses::{id_in, ids_in, Artifact, AssetRecord, DataResponse, MetadataResponse};
use crate::state::{AssetLoad, AssetLoadResult, AssetLoadState, LoadState, LoadStatus};
use crossbeam_channel::Sender;
use std::sync::Arc;
use vstd::prelude::*;

verus! {

/// Keeps track of a pending reload.
#[derive(Copy, Clone, Debug)]
pub struct PendingReload {
    /// The asset that should be reloaded.
    pub asset_id: AssetUuid,
    /// The version of the asset before it was reloaded.
    pub version_before: u32,
}

/// The loader as a mathematical value.
#[verifier::ext_equal]
pub struct LoaderModel {
    /// The handle that the next new load gets.
    pub next_handle: u64,
    /// The load of each handle.
    pub loads: Map<u64, AssetLoad>,
    /// The handle of each asset that was ever referenced.
    pub handles: Map<AssetUuid, u64>,
    /// The dependencies of each asset whose metadata is known.
    pub metadata: Map<AssetUuid, Seq<AssetUuid>>,
    /// The reloads that are not finished yet.
    pub pending_reloads: Seq<PendingReload>,
    /// Where the engine's reports are to be sent.
    pub reports: Arc<Sender<HandleOp>>,
    /// Whether what is sent there arrives.
    pub connected: bool,
    /// The answers to asking for the engine's reports, one for each time: a report, or nothing.
    pub polls: Seq<Option<HandleOp>>,
}

/// What has become of assets, according to the daemon.
pub struct ChangeSet {
    /// The assets that have changed.
    pub changed: Seq<AssetUuid>,
    /// The assets that are gone.
    pub deleted: Seq<AssetUuid>,
}

/// A call that the loader makes on the asset storage.
pub enum StorageCall {
    /// A version of an asset is handed over, with a loader to look assets up in and an operation to
    /// report with. The storage took it or did not.
    Update {
        info: LoaderModel,
        asset_type: AssetTypeId,
        data: Seq<u8>,
        handle: LoadHandle,
        op: LoadOpModel,
        version: u32,
        accepted: bool,
    },
    /// A version of an asset becomes the one in use.
    Commit { asset_type: AssetTypeId, handle: LoadHandle, version: u32 },
    /// An asset is no longer needed.
    Free { asset_type: AssetTypeId, handle: LoadHandle },
}

/// What an operation does: the loader that it leaves, the calls that it makes on the storage, the
/// loads that it gives up, and what keeps it from going on.
#[verifier::ext_equal]
pub struct Effect {
    pub model: LoaderModel,
    pub calls: Seq<StorageCall>,
    pub retired: Seq<u64>,
    pub fault: Option<Fault>,
}

/// The effect of leaving the loader as `model`.
pub open spec fn quiet(model: LoaderModel) -> Effect {
    Effect { model, calls: Seq::empty(), retired: Seq::empty(), fault: None }
}

/// The effect of stopping at `fault` with the loader left as `model`.
pub open spec fn halted(model: LoaderModel, fault: Fault) -> Effect {
    Effect { model, calls: Seq::empty(), retired: Seq::empty(), fault: Some(fault) }
}

impl Effect {
    /// This effect, and after it `next`, unless this one stopped at a fault.
    pub open spec fn followed_by(self, next: Effect) -> Effect {
        if self.fault is Some {
            self
        } else {
            Effect {
                model: next.model,
                calls: self.calls + next.calls,
                retired: self.retired + next.retired,
                fault: next.fault,
            }
        }
    }

    /// The outcome of this effect.
    pub open spec fn outcome(self) -> Result<(), Fault> {
        match self.fault {
            None => Ok(()),
            Some(fault) => Err(fault),
        }
    }
}

/// What becomes of a pending reload.
pub enum ReloadProgress {
    /// There is nothing more to wait for.
    Finished,
    /// The new version is not loaded yet.
    Unfinished,
    /// The load has no version, though it should have one.
    NoVersion(AssetUuid),
}

/// A version of an asset that is to be handed to the storage.
pub struct UpdatePlan {
    pub asset_type: AssetTypeId,
    pub data: Seq<u8>,
    pub version: u32,
}

/// A load that nothing has happened to.
pub open spec fn new_load(id: AssetUuid) -> AssetLoad {
    AssetLoad {
        asset_id: id,
        state: LoadState::Indeterminate,
        refs: 0,
        asset_type: None,
        requested_version: None,
        loaded_version: None,
        auto_commit: true,
        pending_reload: false,
    }
}

/// What callers are told of a load.
pub open spec fn status_of(load: AssetLoad) -> LoadStatus {
    match load.state {
        LoadState::Indeterminate => LoadStatus::NotRequested,
        LoadState::Loaded(_) => if load.loaded_version is Some {
            LoadStatus::Loaded
        } else {
            LoadStatus::Loading
        },
        LoadState::UnloadRequested => LoadStatus::Unloading,
        LoadState::Unloading => LoadStatus::Unloading,
        _ => LoadStatus::Loading,
    }
}

/// Whether the engine has loaded the asset, committed or not.
pub open spec fn engine_has(load: AssetLoad) -> bool {
    ||| load.state.sub_state() == Some(AssetLoadState::Loaded)
    ||| load.state.sub_state() == Some(AssetLoadState::LoadedUncommitted)
}

/// What is to be handed to the storage when `artifact` arrives for `load`.
pub open spec fn update_plan(load: AssetLoad, artifact: Artifact) -> Result<UpdatePlan, Failure> {
    if load.state.sub_state() != Some(AssetLoadState::RequestingData) {
        Err(Failure::Fault(Fault::NotRequestingData(load.state)))
    } else {
        match artifact.data {
            Err(_) => Err(Failure::Malformed),
            Ok(asset) => match id_in(asset.type_uuid) {
                Err(failure) => Err(failure),
                Ok(asset_type) => if load.asset_type is Some && load.asset_type->0 != asset_type {
                    Err(Failure::Fault(Fault::AssetTypeChanged(load.asset_id)))
                } else if load.requested_version == Some(u32::MAX) {
                    Err(Failure::Fault(Fault::VersionOverflow(load.asset_id)))
                } else {
                    match asset.data {
                        Err(_) => Err(Failure::Malformed),
                        Ok(data) => Ok(
                            UpdatePlan { asset_type, data: data@, version: next_version(load) },
                        ),
                    }
                },
            },
        }
    }
}

/// The version that follows the one last handed to the engine.
pub open spec fn next_version(load: AssetLoad) -> u32 {
    match load.requested_version {
        None => 1u32,
        Some(version) => (version + 1) as u32,
    }
}

/// The load whose new version, according to `plan`, the storage has taken.
pub open spec fn handed_over(load: AssetLoad, plan: UpdatePlan) -> AssetLoad {
    AssetLoad {
        state: if load.loaded_version is None {
            LoadState::LoadingAsset(AssetLoadState::LoadingAsset)
        } else {
            LoadState::Loaded(AssetLoadState::LoadingAsset)
        },
        requested_version: Some(plan.version),
        asset_type: Some(plan.asset_type),
        ..load
    }
}

/// What the answer to a data request does to `load`, when the storage was handed `plan` and took it
/// or did not.
pub open spec fn load_result(load: AssetLoad, plan: UpdatePlan, accepted: bool) -> Result<
    AssetLoadResult,
    Failure,
> {
    if accepted {
        Ok(
            AssetLoadResult {
                new_state: handed_over(load, plan).state,
                new_version: Some(plan.version),
                asset_type: Some(plan.asset_type),
            },
        )
    } else {
        Err(Failure::Rejected)
    }
}

/// Whether the storage took what it was handed with a call.
pub open spec fn was_accepted(call: StorageCall) -> bool {
    match call {
        StorageCall::Update { accepted, .. } => accepted,
        _ => false,
    }
}

/// Call by call, whether the storage took what it was handed.
pub open spec fn answers(calls: Seq<StorageCall>) -> Seq<bool> {
    calls.map_values(|call: StorageCall| was_accepted(call))
}

/// Whether `order` names each load of `model` once.
pub open spec fn is_order_of(order: Seq<u64>, model: LoaderModel) -> bool {
    &&& order.no_duplicates()
    &&& forall|h: u64| #[trigger] order.contains(h) <==> model.loads.contains_key(h)
}

/// Whether `list` names each load of `model` for which `needed` holds once, with its asset.
pub open spec fn lists_exactly(
    list: Seq<(AssetUuid, LoadHandle)>,
    model: LoaderModel,
    needed: spec_fn(u64) -> bool,
) -> bool {
    &&& list.no_duplicates()
    &&& forall|id: AssetUuid, handle: LoadHandle| #[trigger]
        list.contains((id, handle)) <==> needed(handle.0) && model.loads[handle.0].asset_id == id
}

impl LoaderModel {
    /// A loader that has been asked for nothing, with reports to be sent to `reports`. Handles
    /// start at one.
    pub open spec fn initial(reports: Arc<Sender<HandleOp>>) -> Self {
        LoaderModel {
            next_handle: 1,
            loads: Map::empty(),
            handles: Map::empty(),
            metadata: Map::empty(),
            pending_reloads: Seq::empty(),
            reports,
            connected: true,
            polls: Seq::empty(),
        }
    }

    // ----- looking things up

    /// The load of a handle.
    pub open spec fn load(self, h: u64) -> Option<AssetLoad> {
        if self.loads.contains_key(h) {
            Some(self.loads[h])
        } else {
            None
        }
    }

    /// The handle of an asset.
    pub open spec fn handle(self, id: AssetUuid) -> Option<u64> {
        if self.handles.contains_key(id) {
            Some(self.handles[id])
        } else {
            None
        }
    }

    /// The load of an asset.
    pub open spec fn load_of(self, id: AssetUuid) -> Option<AssetLoad> {
        match self.handle(id) {
            None => None,
            Some(h) => self.load(h),
        }
    }

    /// What callers are told of the load `h`.
    pub open spec fn status(self, h: u64) -> LoadStatus {
        match self.load(h) {
            None => LoadStatus::NotRequested,
            Some(load) => status_of(load),
        }
    }

    /// The type of the asset of `h`, while the asset is available.
    pub open spec fn asset(self, h: u64) -> Option<(AssetTypeId, LoadHandle)> {
        match self.load(h) {
            None => None,
            Some(load) => if load.state is Loaded && load.asset_type is Some {
                Some((load.asset_type->0, LoadHandle(h)))
            } else {
                None
            },
        }
    }

    // ----- changing one load

    /// This loader with `load` for the load of `h`.
    pub open spec fn with_load(self, h: u64, load: AssetLoad) -> Self {
        LoaderModel { loads: self.loads.insert(h, load), ..self }
    }

    /// This loader with the load of `h` in state `state`.
    pub open spec fn with_state(self, h: u64, state: LoadState) -> Self {
        self.with_load(h, AssetLoad { state, ..self.loads[h] })
    }

    /// This loader without the loads `retired`.
    pub open spec fn without(self, retired: Seq<u64>) -> Self {
        LoaderModel { loads: self.loads.remove_keys(retired.to_set()), ..self }
    }

    // ----- references

    /// The handle that a reference to `id` gets.
    pub open spec fn handle_for(self, id: AssetUuid) -> u64 {
        if self.handles.contains_key(id) {
            self.handles[id]
        } else {
            self.next_handle
        }
    }

    /// This loader with a load for `id`, if it never had one.
    pub open spec fn known(self, id: AssetUuid) -> Self {
        if self.handles.contains_key(id) {
            self
        } else {
            LoaderModel {
                next_handle: u64::wrapping_add(self.next_handle, 1),
                loads: self.loads.insert(self.next_handle, new_load(id)),
                handles: self.handles.insert(id, self.next_handle),
                ..self
            }
        }
    }

    /// One more reference to the load `h`, if there is one.
    pub open spec fn retained(self, h: u64) -> Self {
        if self.loads.contains_key(h) {
            self.with_load(
                h,
                AssetLoad { refs: usize::wrapping_add(self.loads[h].refs, 1), ..self.loads[h] },
            )
        } else {
            self
        }
    }

    /// One reference less to the load `h`, if there is one.
    pub open spec fn remove_ref(self, h: u64) -> Self {
        if self.loads.contains_key(h) {
            self.with_load(
                h,
                AssetLoad { refs: usize::wrapping_sub(self.loads[h].refs, 1), ..self.loads[h] },
            )
        } else {
            self
        }
    }

    /// One more reference to the asset `id`.
    pub open spec fn add_ref(self, id: AssetUuid) -> Self {
        self.known(id).retained(self.handle_for(id))
    }

    /// One more reference to each of `ids`, in turn.
    pub open spec fn add_refs(self, ids: Seq<AssetUuid>) -> Self
        decreases ids.len(),
    {
        if ids.len() == 0 {
            self
        } else {
            self.add_refs(ids.drop_last()).add_ref(ids.last())
        }
    }

    /// One reference less to each of `ids`, in turn, up to the first that was never referenced.
    pub open spec fn release(self, ids: Seq<AssetUuid>) -> Effect
        decreases ids.len(),
    {
        if ids.len() == 0 {
            quiet(self)
        } else {
            let before = self.release(ids.drop_last());
            before.followed_by(before.model.release_one(ids.last()))
        }
    }

    /// One reference less to the asset `id`.
    pub open spec fn release_one(self, id: AssetUuid) -> Effect {
        match self.handle(id) {
            None => halted(self, Fault::UnknownDependency(id)),
            Some(h) => quiet(self.remove_ref(h)),
        }
    }

    // ----- advancing loads

    /// Whether the engine has loaded the asset `id`.
    pub open spec fn dependency_ready(self, id: AssetUuid) -> bool {
        match self.load_of(id) {
            None => false,
            Some(load) => engine_has(load),
        }
    }

    /// Whether the engine has loaded all of `ids`.
    pub open spec fn dependencies_ready(self, ids: Seq<AssetUuid>) -> bool {
        forall|i: int| 0 <= i < ids.len() ==> self.dependency_ready(#[trigger] ids[i])
    }

    /// The state of a load that needs metadata.
    pub open spec fn after_metadata_check(self, id: AssetUuid) -> LoadState {
        if self.metadata.contains_key(id) {
            LoadState::RequestDependencies
        } else {
            LoadState::WaitingForMetadata
        }
    }

    /// What advancing the load `h` does.
    pub open spec fn advance(self, h: u64) -> Effect {
        if !self.loads.contains_key(h) {
            quiet(self)
        } else {
            let load = self.loads[h];
            let id = load.asset_id;
            match load.state {
                LoadState::Indeterminate => quiet(
                    self.with_state(
                        h,
                        if load.refs > 0 {
                            self.after_metadata_check(id)
                        } else {
                            LoadState::UnloadRequested
                        },
                    ),
                ),
                LoadState::WaitingForMetadata => quiet(
                    self.with_state(h, self.after_metadata_check(id)),
                ),
                LoadState::RequestDependencies => if self.metadata.contains_key(id) {
                    quiet(
                        self.add_refs(self.metadata[id]).with_state(
                            h,
                            LoadState::WaitingForDependencies,
                        ),
                    )
                } else {
                    halted(self, Fault::MissingMetadata(id))
                },
                LoadState::WaitingForDependencies => if !self.metadata.contains_key(id) {
                    halted(self, Fault::MissingMetadata(id))
                } else if self.dependencies_ready(self.metadata[id]) {
                    quiet(
                        self.with_state(
                            h,
                            LoadState::LoadingAsset(AssetLoadState::WaitingForData),
                        ),
                    )
                } else {
                    quiet(self)
                },
                LoadState::Loaded(AssetLoadState::Loaded) => if load.refs == 0 {
                    quiet(self.with_state(h, LoadState::UnloadRequested))
                } else if load.pending_reload {
                    quiet(
                        self.with_load(
                            h,
                            AssetLoad {
                                state: LoadState::Loaded(AssetLoadState::WaitingForData),
                                auto_commit: false,
                                pending_reload: false,
                                ..load
                            },
                        ),
                    )
                } else {
                    quiet(self)
                },
                LoadState::UnloadRequested => self.free(h).followed_by(
                    self.free(h).model.leave_dependencies(h),
                ),
                LoadState::Unloading => Effect {
                    model: self.with_state(h, LoadState::Indeterminate),
                    calls: Seq::empty(),
                    retired: if load.refs == 0 {
                        seq![h]
                    } else {
                        Seq::empty()
                    },
                    fault: None,
                },
                _ => quiet(self),
            }
        }
    }

    /// The storage frees what it has of the load `h`.
    pub open spec fn free(self, h: u64) -> Effect {
        let load = self.loads[h];
        match load.asset_type {
            None => quiet(self),
            Some(asset_type) => Effect {
                model: self.with_load(
                    h,
                    AssetLoad {
                        asset_type: None,
                        requested_version: None,
                        loaded_version: None,
                        ..load
                    },
                ),
                calls: seq![StorageCall::Free { asset_type, handle: LoadHandle(h) }],
                retired: Seq::empty(),
                fault: None,
            },
        }
    }

    /// The load `h` gives up its references to its dependencies.
    pub open spec fn leave_dependencies(self, h: u64) -> Effect {
        let id = self.loads[h].asset_id;
        if self.metadata.contains_key(id) {
            let released = self.release(self.metadata[id]);
            released.followed_by(quiet(released.model.with_state(h, LoadState::Unloading)))
        } else {
            halted(self, Fault::MissingMetadata(id))
        }
    }

    /// The loads `order` advance one after the other, up to the first that cannot.
    pub open spec fn walk(self, order: Seq<u64>) -> Effect
        decreases order.len(),
    {
        if order.len() == 0 {
            quiet(self)
        } else {
            let before = self.walk(order.drop_last());
            before.followed_by(before.model.advance(order.last()))
        }
    }

    /// The loads `order` advance one after the other, and those that are given up are removed.
    pub open spec fn advance_all(self, order: Seq<u64>) -> Effect {
        let walked = self.walk(order);
        walked.followed_by(quiet(walked.model.without(walked.retired)))
    }

    // ----- reports of the engine

    /// The version of the load `h` that the engine has loaded becomes the one in use.
    pub open spec fn commit(self, h: u64) -> Effect {
        let load = self.loads[h];
        if load.state.sub_state() != Some(AssetLoadState::LoadingAsset)
            && load.state.sub_state() != Some(AssetLoadState::LoadedUncommitted) {
            halted(self, Fault::NotCommittable(load.state))
        } else if load.asset_type is None {
            halted(self, Fault::MissingAssetType(load.asset_id))
        } else if load.requested_version is None {
            halted(self, Fault::MissingVersion(load.asset_id))
        } else {
            Effect {
                model: self.with_load(
                    h,
                    AssetLoad {
                        loaded_version: load.requested_version,
                        state: LoadState::Loaded(AssetLoadState::Loaded),
                        ..load
                    },
                ),
                calls: seq![
                    StorageCall::Commit {
                        asset_type: load.asset_type->0,
                        handle: LoadHandle(h),
                        version: load.requested_version->0,
                    },
                ],
                retired: Seq::empty(),
                fault: None,
            }
        }
    }

    /// What a report of the engine does.
    pub open spec fn apply_op(self, op: HandleOp) -> Effect {
        match op {
            HandleOp::LoadError(handle, reason) => halted(self, Fault::LoadFailed(handle, reason)),
            HandleOp::LoadDrop(handle) => halted(self, Fault::LoadDropped(handle)),
            HandleOp::LoadComplete(handle) => match self.load(handle.0) {
                None => halted(self, Fault::CompletedUnknownLoad(handle)),
                Some(load) => if load.auto_commit {
                    self.commit(handle.0)
                } else if load.state.sub_state() is None {
                    halted(self, Fault::NotLoading(load.state))
                } else {
                    quiet(
                        self.with_state(
                            handle.0,
                            load.state.with_sub_state(AssetLoadState::LoadedUncommitted),
                        ),
                    )
                },
            },
        }
    }

    /// This loader once it has asked for a report of the engine and got `answer`.
    pub open spec fn polled(self, answer: Option<HandleOp>) -> Self {
        LoaderModel { polls: self.polls.push(answer), ..self }
    }

    /// What several reports of the engine do when they are asked for and followed, in turn, up to
    /// the first that stops the loader.
    pub open spec fn apply_ops(self, ops: Seq<HandleOp>) -> Effect
        decreases ops.len(),
    {
        if ops.len() == 0 {
            quiet(self)
        } else {
            let before = self.apply_ops(ops.drop_last());
            before.followed_by(before.model.polled(Some(ops.last())).apply_op(ops.last()))
        }
    }

    /// What following the reports of the engine does when `ops` are those that come: unless one of
    /// them stops the loader, it asks until no report is there, or until it has asked as often as a
    /// number of 64 bits can count.
    pub open spec fn follow_ops(self, ops: Seq<HandleOp>) -> Effect {
        let followed = self.apply_ops(ops);
        if ops.len() < u64::MAX {
            followed.followed_by(quiet(followed.model.polled(None)))
        } else {
            followed
        }
    }

    // ----- hot reload

    /// The asset `id` has changed: if a version of it was handed to the engine, a reload is due.
    pub open spec fn note_change(self, id: AssetUuid) -> Self {
        match self.load_of(id) {
            None => self,
            Some(load) => match load.requested_version {
                None => self,
                Some(version_before) => LoaderModel {
                    pending_reloads: self.pending_reloads.push(
                        PendingReload { asset_id: id, version_before },
                    ),
                    ..self.with_load(self.handles[id], AssetLoad { pending_reload: true, ..load })
                },
            },
        }
    }

    /// The assets `ids` have changed.
    pub open spec fn note_changes(self, ids: Seq<AssetUuid>) -> Self
        decreases ids.len(),
    {
        if ids.len() == 0 {
            self
        } else {
            self.note_changes(ids.drop_last()).note_change(ids.last())
        }
    }

    /// The asset `id` is gone: if it is loaded, it is to be unloaded. An asset that is not loaded,
    /// or is being reloaded, is left alone.
    pub open spec fn note_deletion(self, id: AssetUuid) -> Self {
        match self.load_of(id) {
            None => self,
            Some(load) => if load.state == LoadState::Loaded(AssetLoadState::Loaded) {
                self.with_state(self.handles[id], LoadState::UnloadRequested)
            } else {
                self
            },
        }
    }

    /// The assets `ids` are gone.
    pub open spec fn note_deletions(self, ids: Seq<AssetUuid>) -> Self
        decreases ids.len(),
    {
        if ids.len() == 0 {
            self
        } else {
            self.note_deletions(ids.drop_last()).note_deletion(ids.last())
        }
    }

    /// How far a pending reload has come. A reload of an asset that has no load any more is
    /// finished.
    pub open spec fn progress(self, reload: PendingReload) -> ReloadProgress {
        match self.load_of(reload.asset_id) {
            None => ReloadProgress::Finished,
            Some(load) => if !engine_has(load) {
                ReloadProgress::Unfinished
            } else {
                match load.requested_version {
                    None => ReloadProgress::NoVersion(reload.asset_id),
                    Some(version) => if version > reload.version_before {
                        ReloadProgress::Finished
                    } else {
                        ReloadProgress::Unfinished
                    },
                }
            },
        }
    }

    /// How far pending reloads have come: all are finished, or how far the first has come that is
    /// not.
    pub open spec fn progress_of_all(self, reloads: Seq<PendingReload>) -> ReloadProgress
        decreases reloads.len(),
    {
        if reloads.len() == 0 {
            ReloadProgress::Finished
        } else {
            match self.progress_of_all(reloads.drop_last()) {
                ReloadProgress::Finished => self.progress(reloads.last()),
                other => other,
            }
        }
    }

    /// The reloaded asset is committed, if it waits for that, and later loads of it are committed
    /// at once again.
    pub open spec fn commit_reload(self, reload: PendingReload) -> Effect {
        match self.load_of(reload.asset_id) {
            None => quiet(self),
            Some(load) => if load.state.sub_state() == Some(AssetLoadState::LoadedUncommitted) {
                let h = self.handles[reload.asset_id];
                let committed = self.commit(h);
                committed.followed_by(
                    quiet(
                        committed.model.with_load(
                            h,
                            AssetLoad { auto_commit: true, ..committed.model.loads[h] },
                        ),
                    ),
                )
            } else {
                quiet(self)
            },
        }
    }

    /// The reloaded assets are committed, one after the other.
    pub open spec fn commit_reloads(self, reloads: Seq<PendingReload>) -> Effect
        decreases reloads.len(),
    {
        if reloads.len() == 0 {
            quiet(self)
        } else {
            let before = self.commit_reloads(reloads.drop_last());
            before.followed_by(before.model.commit_reload(reloads.last()))
        }
    }

    /// All pending reloads are committed together if all are finished.
    pub open spec fn finish_reloads(self) -> Effect {
        match self.progress_of_all(self.pending_reloads) {
            ReloadProgress::Unfinished => quiet(self),
            ReloadProgress::NoVersion(id) => halted(self, Fault::MissingVersion(id)),
            ReloadProgress::Finished => {
                let committed = self.commit_reloads(self.pending_reloads);
                committed.followed_by(
                    quiet(LoaderModel { pending_reloads: Seq::empty(), ..committed.model }),
                )
            },
        }
    }

    /// Changes and deletions are noted while no reload is pending; otherwise the pending reloads go
    /// on.
    pub open spec fn process_changes(self, changes: Option<ChangeSet>) -> Effect {
        if self.pending_reloads.len() > 0 {
            self.finish_reloads()
        } else {
            match changes {
                None => quiet(self),
                Some(set) => quiet(
                    self.note_changes(set.changed).note_deletions(set.deleted),
                ),
            }
        }
    }

    // ----- metadata

    /// The metadata of an asset has arrived.
    pub open spec fn receive_record(self, record: AssetRecord) -> Result<Self, (Self, Failure)> {
        match id_in(record.id) {
            Err(failure) => Err((self, failure)),
            Ok(id) => match record.load_deps {
                Err(_) => Err((self, Failure::Malformed)),
                Ok(parts) => match ids_in(parts@) {
                    Err(failure) => Err((self, failure)),
                    Ok(deps) => LoaderModel {
                        metadata: self.metadata.insert(id, deps),
                        ..self
                    }.metadata_arrived(id),
                },
            },
        }
    }

    /// The load of `id` goes on to its dependencies, if it waits for the answer.
    pub open spec fn metadata_arrived(self, id: AssetUuid) -> Result<Self, (Self, Failure)> {
        match self.handle(id) {
            None => Ok(self),
            Some(h) => match self.load(h) {
                None => Err(
                    (self, Failure::Fault(Fault::MetadataForUnknownLoad(LoadHandle(h)))),
                ),
                Some(load) => if load.state is RequestingMetadata {
                    Ok(self.with_state(h, LoadState::RequestDependencies))
                } else {
                    Ok(self)
                },
            },
        }
    }

    /// The metadata of several assets has arrived.
    pub open spec fn receive_records(self, records: Seq<AssetRecord>) -> Result<
        Self,
        (Self, Failure),
    >
        decreases records.len(),
    {
        if records.len() == 0 {
            Ok(self)
        } else {
            match self.receive_records(records.drop_last()) {
                Err(stopped) => Err(stopped),
                Ok(model) => model.receive_record(records.last()),
            }
        }
    }

    /// The load `h`, if its request is still out, has to ask again.
    pub open spec fn ask_again(self, h: u64) -> Effect {
        match self.load(h) {
            None => halted(self, Fault::MetadataForUnknownLoad(LoadHandle(h))),
            Some(load) => if load.state is RequestingMetadata {
                quiet(self.with_state(h, LoadState::WaitingForMetadata))
            } else {
                quiet(self)
            },
        }
    }

    /// Those of the loads `requested` whose requests are still out have to ask again.
    pub open spec fn ask_again_all(self, requested: Seq<(AssetUuid, LoadHandle)>) -> Effect
        decreases requested.len(),
    {
        if requested.len() == 0 {
            quiet(self)
        } else {
            let before = self.ask_again_all(requested.drop_last());
            before.followed_by(before.model.ask_again(requested.last().1.0))
        }
    }

    /// What the answer to a request for the metadata of `requested` does. No answer means that the
    /// request failed.
    pub open spec fn settle_metadata(
        self,
        answer: Option<MetadataResponse>,
        requested: Seq<(AssetUuid, LoadHandle)>,
    ) -> Effect {
        match answer {
            None => self.ask_again_all(requested),
            Some(response) => match response.assets {
                Err(_) => self.ask_again_all(requested),
                Ok(records) => match self.receive_records(records@) {
                    Ok(model) => model.ask_again_all(requested),
                    Err((model, Failure::Fault(fault))) => halted(model, fault),
                    Err((model, _)) => model.ask_again_all(requested),
                },
            },
        }
    }

    /// What the answers to several requests for metadata do, in turn.
    pub open spec fn settle_all_metadata(
        self,
        settled: Seq<(Option<MetadataResponse>, Vec<(AssetUuid, LoadHandle)>)>,
    ) -> Effect
        decreases settled.len(),
    {
        if settled.len() == 0 {
            quiet(self)
        } else {
            let before = self.settle_all_metadata(settled.drop_last());
            before.followed_by(
                before.model.settle_metadata(settled.last().0, settled.last().1@),
            )
        }
    }

    /// Whether the load `h` has to be asked metadata for.
    pub open spec fn needs_metadata(self, h: u64) -> bool {
        self.loads.contains_key(h) && self.loads[h].state is WaitingForMetadata
    }

    /// Metadata is being requested for each of `order` that needs it.
    pub open spec fn requesting_metadata(self, order: Seq<u64>) -> Self {
        LoaderModel {
            loads: Map::new(
                |h: u64| self.loads.contains_key(h),
                |h: u64|
                    if order.contains(h) && self.needs_metadata(h) {
                        AssetLoad { state: LoadState::RequestingMetadata, ..self.loads[h] }
                    } else {
                        self.loads[h]
                    },
            ),
            ..self
        }
    }

    /// Metadata is being requested for each load that needs it.
    pub open spec fn requesting_all_metadata(self) -> Self {
        LoaderModel {
            loads: Map::new(
                |h: u64| self.loads.contains_key(h),
                |h: u64|
                    if self.needs_metadata(h) {
                        AssetLoad { state: LoadState::RequestingMetadata, ..self.loads[h] }
                    } else {
                        self.loads[h]
                    },
            ),
            ..self
        }
    }

    /// The loads of `order` that need metadata, with their assets.
    pub open spec fn metadata_requests(self, order: Seq<u64>) -> Seq<(AssetUuid, LoadHandle)>
        decreases order.len(),
    {
        if order.len() == 0 {
            Seq::empty()
        } else {
            let earlier = order.drop_last();
            let h = order.last();
            if self.needs_metadata(h) && !earlier.contains(h) {
                self.metadata_requests(earlier).push((self.loads[h].asset_id, LoadHandle(h)))
            } else {
                self.metadata_requests(earlier)
            }
        }
    }

    // ----- data

    /// The load `h` has to ask for its data again.
    pub open spec fn retry_data(self, h: u64) -> Effect {
        let load = self.loads[h];
        if load.state.sub_state() is None {
            halted(self, Fault::NotLoading(load.state))
        } else {
            quiet(self.with_state(h, load.state.with_sub_state(AssetLoadState::WaitingForData)))
        }
    }

    /// What the answer to a request for the data of `handle` does, when the storage, if it is
    /// called, takes the asset or not, as `accepted` says. No answer means that the request failed.
    pub open spec fn settle_data(
        self,
        answer: Option<DataResponse>,
        handle: LoadHandle,
        accepted: bool,
    ) -> Effect {
        let h = handle.0;
        if !self.loads.contains_key(h) {
            halted(self, Fault::DataForUnknownLoad(handle))
        } else {
            match answer {
                None => self.retry_data(h),
                Some(response) => match response.artifacts {
                    Err(_) => self.retry_data(h),
                    Ok(artifacts) => if artifacts@.len() == 0 {
                        self.retry_data(h)
                    } else {
                        match update_plan(self.loads[h], artifacts@[0]) {
                            Err(Failure::Fault(fault)) => halted(self, fault),
                            Err(_) => self.retry_data(h),
                            Ok(plan) => {
                                let offer = Effect {
                                    model: self,
                                    calls: seq![self.offer_of(plan, handle, accepted)],
                                    retired: Seq::empty(),
                                    fault: None,
                                };
                                offer.followed_by(
                                    if accepted {
                                        quiet(self.with_load(h, handed_over(self.loads[h], plan)))
                                    } else {
                                        self.retry_data(h)
                                    },
                                )
                            },
                        }
                    },
                },
            }
        }
    }

    /// The call that hands `plan` to the storage.
    pub open spec fn offer_of(
        self,
        plan: UpdatePlan,
        handle: LoadHandle,
        accepted: bool,
    ) -> StorageCall {
        StorageCall::Update {
            info: self,
            asset_type: plan.asset_type,
            data: plan.data,
            handle,
            op: LoadOpModel::fresh(handle, self.reports),
            version: plan.version,
            accepted,
        }
    }

    /// What the answers to several requests for data do, in turn, when the storage takes or does
    /// not take what it is handed as `accepted` says, call by call.
    pub open spec fn settle_all_data(
        self,
        settled: Seq<(Option<DataResponse>, LoadHandle)>,
        accepted: Seq<bool>,
    ) -> Effect
        decreases settled.len(),
    {
        if settled.len() == 0 {
            quiet(self)
        } else {
            let before = self.settle_all_data(settled.drop_last(), accepted);
            before.followed_by(
                before.model.settle_data(
                    settled.last().0,
                    settled.last().1,
                    accepted[before.calls.len() as int],
                ),
            )
        }
    }

    /// Whether the load `h` has to be asked data for.
    pub open spec fn needs_data(self, h: u64) -> bool {
        self.loads.contains_key(h) && self.loads[h].state.sub_state() == Some(
            AssetLoadState::WaitingForData,
        )
    }

    /// Data is being requested for each of `order` that needs it.
    pub open spec fn requesting_data(self, order: Seq<u64>) -> Self {
        LoaderModel {
            loads: Map::new(
                |h: u64| self.loads.contains_key(h),
                |h: u64|
                    if order.contains(h) && self.needs_data(h) {
                        AssetLoad {
                            state: self.loads[h].state.with_sub_state(
                                AssetLoadState::RequestingData,
                            ),
                            ..self.loads[h]
                        }
                    } else {
                        self.loads[h]
                    },
            ),
            ..self
        }
    }

    /// Data is being requested for each load that needs it.
    pub open spec fn requesting_all_data(self) -> Self {
        LoaderModel {
            loads: Map::new(
                |h: u64| self.loads.contains_key(h),
                |h: u64|
                    if self.needs_data(h) {
                        AssetLoad {
                            state: self.loads[h].state.with_sub_state(
                                AssetLoadState::RequestingData,
                            ),
                            ..self.loads[h]
                        }
                    } else {
                        self.loads[h]
                    },
            ),
            ..self
        }
    }

    /// The loads of `order` that need data, with their assets.
    pub open spec fn data_requests(self, order: Seq<u64>) -> Seq<(AssetUuid, LoadHandle)>
        decreases order.len(),
    {
        if order.len() == 0 {
            Seq::empty()
        } else {
            let earlier = order.drop_last();
            let h = order.last();
            if self.needs_data(h) && !earlier.contains(h) {
                self.data_requests(earlier).push((self.loads[h].asset_id, LoadHandle(h)))
            } else {
                self.data_requests(earlier)
            }
        }
    }
}

} // verus!
