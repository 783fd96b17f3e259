//! Hot reload: assets that change while they are loaded.

use crate::data::LoaderData;
use crate::fault::Fault;
use crate::ids::AssetUuid;
use crate::model::{ChangeSet, LoaderModel, PendingReload, ReloadProgress, StorageCall};
use crate::state::{AssetLoad, AssetLoadState, LoadState};
use crate::storage::{AssetStorage, TracedStorage};
use vstd::prelude::*;

verus! {

/// What has become of assets, according to the daemon.
#[derive(Debug)]
pub struct AssetChanges {
    /// The assets that have changed.
    pub changed: Vec<AssetUuid>,
    /// The assets that are gone.
    pub deleted: Vec<AssetUuid>,
}

impl View for AssetChanges {
    type V = ChangeSet;

    open spec fn view(&self) -> ChangeSet {
        ChangeSet { changed: self.changed@, deleted: self.deleted@ }
    }
}

/// What has become of assets, if the daemon said.
pub open spec fn changes_in(changes: Option<AssetChanges>) -> Option<ChangeSet> {
    match changes {
        Some(set) => Some(set@),
        None => None,
    }
}

/// Once a reload is found that is not finished, those after it do not matter.
proof fn lemma_progress_stopped(model: LoaderModel, reloads: Seq<PendingReload>, n: int)
    requires
        0 <= n <= reloads.len(),
        !(model.progress_of_all(reloads.take(n)) is Finished),
    ensures
        model.progress_of_all(reloads) == model.progress_of_all(reloads.take(n)),
    decreases reloads.len(),
{
    if n == reloads.len() {
        assert(reloads.take(n) =~= reloads);
    } else {
        assert(reloads.drop_last().take(n) =~= reloads.take(n));
        lemma_progress_stopped(model, reloads.drop_last(), n);
    }
}

/// Once a commit has failed, what follows does not matter.
proof fn lemma_commits_stopped(model: LoaderModel, reloads: Seq<PendingReload>, n: int)
    requires
        0 <= n <= reloads.len(),
        model.commit_reloads(reloads.take(n)).fault is Some,
    ensures
        model.commit_reloads(reloads) == model.commit_reloads(reloads.take(n)),
    decreases reloads.len(),
{
    if n == reloads.len() {
        assert(reloads.take(n) =~= reloads);
    } else {
        assert(reloads.drop_last().take(n) =~= reloads.take(n));
        lemma_commits_stopped(model, reloads.drop_last(), n);
    }
}

impl LoaderData {
    /// Notes that assets have changed.
    pub fn note_changes(&mut self, changed: &Vec<AssetUuid>)
        ensures
            final(self)@ == old(self)@.note_changes(changed@),
    {
        let mut i: usize = 0;
        assert(changed@.take(0) =~= Seq::empty());
        while i < changed.len()
            invariant
                i <= changed.len(),
                self@ == old(self)@.note_changes(changed@.take(i as int)),
            decreases changed.len() - i,
        {
            let id = changed[i];
            match self.load_of(&id) {
                Some((handle, load)) => match load.requested_version {
                    Some(version) => {
                        self.put(handle, AssetLoad { pending_reload: true, ..load });
                        self.push_reload(PendingReload { asset_id: id, version_before: version });
                    },
                    None => {},
                },
                None => {},
            }
            assert(changed@.take(i as int + 1).drop_last() =~= changed@.take(i as int));
            i = i + 1;
        }
        assert(changed@.take(i as int) =~= changed@);
    }

    /// Notes that assets are gone: those that are loaded are to be unloaded.
    pub fn note_deletions(&mut self, deleted: &Vec<AssetUuid>)
        ensures
            final(self)@ == old(self)@.note_deletions(deleted@),
    {
        let mut i: usize = 0;
        assert(deleted@.take(0) =~= Seq::empty());
        while i < deleted.len()
            invariant
                i <= deleted.len(),
                self@ == old(self)@.note_deletions(deleted@.take(i as int)),
            decreases deleted.len() - i,
        {
            if let Some((handle, load)) = self.load_of(&deleted[i]) {
                if load.state == LoadState::Loaded(AssetLoadState::Loaded) {
                    self.put(handle, AssetLoad { state: LoadState::UnloadRequested, ..load });
                }
            }
            assert(deleted@.take(i as int + 1).drop_last() =~= deleted@.take(i as int));
            i = i + 1;
        }
        assert(deleted@.take(i as int) =~= deleted@);
    }

    /// Tells whether all pending reloads are finished.
    fn reloads_finished(&self) -> (finished: Result<bool, Fault>)
        ensures
            finished == match self@.progress_of_all(self@.pending_reloads) {
                ReloadProgress::Finished => Ok::<bool, Fault>(true),
                ReloadProgress::Unfinished => Ok(false),
                ReloadProgress::NoVersion(id) => Err(Fault::MissingVersion(id)),
            },
    {
        let reloads = self.reloads();
        let mut i: usize = 0;
        assert(reloads@.take(0) =~= Seq::empty());
        while i < reloads.len()
            invariant
                reloads@ == self@.pending_reloads,
                i <= reloads.len(),
                self@.progress_of_all(reloads@.take(i as int)) is Finished,
            decreases reloads.len() - i,
        {
            let reload = reloads[i];
            proof {
                assert(reloads@.take(i as int + 1).drop_last() =~= reloads@.take(i as int));
                if !(self@.progress(reload) is Finished) {
                    lemma_progress_stopped(self@, reloads@, i as int + 1);
                }
            }
            match self.load_of(&reload.asset_id) {
                Some((_, load)) => match load.state.asset_load_state() {
                    // The reload is finished if the engine has the asset in a version that is
                    // higher than the version observed when the reload was requested.
                    Some(AssetLoadState::Loaded) | Some(AssetLoadState::LoadedUncommitted) =>
                        match load.requested_version {
                            Some(version) => {
                                if !(version > reload.version_before) {
                                    return Ok(false);
                                }
                            },
                            None => {
                                return Err(Fault::MissingVersion(reload.asset_id));
                            },
                        },
                    _ => {
                        return Ok(false);
                    },
                },
                // A pending reload of something that is not supposed to be loaded is finished: the
                // asset could have been unloaded by losing its references.
                None => {},
            }
            i = i + 1;
        }
        assert(reloads@.take(i as int) =~= reloads@);
        Ok(true)
    }

    /// Commits the reloaded asset, if it waits for that.
    fn commit_reload<S: AssetStorage + ?Sized>(
        &mut self,
        reload: PendingReload,
        storage: &mut TracedStorage<S>,
    ) -> (done: Result<(), Fault>)
        ensures
            final(storage).inner() == old(storage).inner(),
            final(self)@ == old(self)@.commit_reload(reload).model,
            final(storage).calls() == old(storage).calls() + old(self)@.commit_reload(reload).calls,
            done == old(self)@.commit_reload(reload).outcome(),
    {
        assert(storage.calls() + Seq::<StorageCall>::empty() =~= storage.calls());
        match self.load_of(&reload.asset_id) {
            Some((handle, load)) => match load.state.asset_load_state() {
                Some(AssetLoadState::LoadedUncommitted) => {
                    // Commit the reloaded asset and turn auto_commit back on. Assets are not
                    // auto_commit for reloads to ensure that all assets in a changeset are made
                    // visible together, atomically.
                    let ghost committed = self@.commit(handle);
                    let done = self.commit(handle, storage);
                    if done.is_err() {
                        return done;
                    }
                    assert(committed.calls + Seq::<StorageCall>::empty() =~= committed.calls);
                    match self.load(handle) {
                        Some(load) => {
                            self.put(handle, AssetLoad { auto_commit: true, ..load });
                        },
                        None => {},
                    }
                    Ok(())
                },
                _ => Ok(()),
            },
            None => Ok(()),
        }
    }

    /// Goes on with the pending reloads: once all are finished, they are committed together.
    pub fn finish_reloads<S: AssetStorage + ?Sized>(
        &mut self,
        storage: &mut TracedStorage<S>,
    ) -> (done: Result<(), Fault>)
        ensures
            final(storage).inner() == old(storage).inner(),
            final(self)@ == old(self)@.finish_reloads().model,
            final(storage).calls() == old(storage).calls() + old(self)@.finish_reloads().calls,
            done == old(self)@.finish_reloads().outcome(),
    {
        assert(storage.calls() + Seq::<StorageCall>::empty() =~= storage.calls());
        match self.reloads_finished() {
            Err(fault) => {
                return Err(fault);
            },
            Ok(false) => {
                return Ok(());
            },
            Ok(true) => {},
        }
        let ghost reloads = self@.pending_reloads;
        let mut i: usize = 0;
        assert(reloads.take(0) =~= Seq::empty());
        let count: usize = self.reloads().len();
        while i < count
            invariant
                storage.inner() == old(storage).inner(),
                i <= count == reloads.len(),
                self@.pending_reloads == reloads,
                reloads == old(self)@.pending_reloads,
                old(self)@.progress_of_all(reloads) is Finished,
                ({
                    let done = old(self)@.commit_reloads(reloads.take(i as int));
                    &&& done.fault is None
                    &&& self@ == done.model
                    &&& storage.calls() == old(storage).calls() + done.calls
                }),
            decreases count - i,
        {
            let reload = self.reloads()[i];
            let ghost before = old(self)@.commit_reloads(reloads.take(i as int));
            let ghost effect = before.model.commit_reload(reload);
            let done = self.commit_reload(reload, storage);
            proof {
                assert(reloads.take(i as int + 1).drop_last() =~= reloads.take(i as int));
                assert(old(storage).calls() + before.calls + effect.calls =~= old(storage).calls()
                    + (before.calls + effect.calls));
                if effect.fault is Some {
                    lemma_commits_stopped(old(self)@, reloads, i as int + 1);
                }
            }
            if done.is_err() {
                return done;
            }
            i = i + 1;
        }
        assert(reloads.take(i as int) =~= reloads);
        self.clear_reloads();
        assert(old(self)@.finish_reloads().calls =~= old(self)@.commit_reloads(reloads).calls);
        Ok(())
    }

    /// Checks for changed assets that need to be reloaded or unloaded. Changes are noted only while
    /// no reload is pending.
    pub fn process_asset_changes<S: AssetStorage + ?Sized>(
        &mut self,
        changes: &Option<AssetChanges>,
        storage: &mut TracedStorage<S>,
    ) -> (done: Result<(), Fault>)
        ensures
            final(storage).inner() == old(storage).inner(),
            ({
                let effect = old(self)@.process_changes(changes_in(*changes));
                &&& final(self)@ == effect.model
                &&& final(storage).calls() == old(storage).calls() + effect.calls
                &&& done == effect.outcome()
            }),
    {
        assert(storage.calls() + Seq::<StorageCall>::empty() =~= storage.calls());
        if self.reloads().len() == 0 {
            match changes {
                Some(set) => {
                    self.note_changes(&set.changed);
                    self.note_deletions(&set.deleted);
                },
                None => {},
            }
            Ok(())
        } else {
            self.finish_reloads(storage)
        }
    }
}

} // verus!
