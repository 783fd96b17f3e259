//! The asset storage that the loader serves.

use crate::channel::{share, AssetLoadOp, LoadOpModel};
use crate::data::LoaderData;
use crate::ids::{AssetTypeId, AssetUuid, LoadHandle};
use crate::model::StorageCall;
use vstd::prelude::*;

verus! {

/// The storage did not take an asset.
#[derive(Debug)]
pub struct StorageError {
    /// Why it did not.
    pub reason: String,
}

/// Lets a storage look up loads and assets while it takes an asset.
pub trait LoaderInfoProvider {
    /// The load of an asset.
    fn get_load_handle(&self, id: AssetUuid) -> Option<LoadHandle>;

    /// The asset of a load.
    fn get_asset_id(&self, load: LoadHandle) -> Option<AssetUuid>;
}

/// Where loaded assets go. To be implemented by whoever uses the loader.
pub trait AssetStorage {
    /// Takes a version of an asset. `load_op` is to be told when the asset is loaded; until the
    /// version is committed, an earlier one stays in use.
    fn update_asset(
        &self,
        loader_info: &dyn LoaderInfoProvider,
        asset_type: &AssetTypeId,
        data: &[u8],
        load_handle: LoadHandle,
        load_op: AssetLoadOp,
        version: u32,
    ) -> Result<(), StorageError>;

    /// Puts a version of an asset into use.
    fn commit_asset_version(&self, asset_type: &AssetTypeId, load_handle: LoadHandle, version: u32);

    /// Lets go of an asset.
    fn free(&self, asset_type: &AssetTypeId, load_handle: LoadHandle);
}

/// Whether `taken` is what `storage` said when it was handed a version of an asset, with `loader`
/// to look assets up in.
pub open spec fn handed<S: AssetStorage + ?Sized>(
    storage: &S,
    loader: &LoaderData,
    asset_type: &AssetTypeId,
    bytes: &[u8],
    load_handle: LoadHandle,
    load_op: AssetLoadOp,
    version: u32,
    taken: Result<(), StorageError>,
) -> bool {
    let loader_info: &dyn LoaderInfoProvider = loader;
    call_ensures(
        S::update_asset,
        (storage, loader_info, asset_type, bytes, load_handle, load_op, version),
        taken,
    )
}

/// Whether `call` was made on `storage`.
pub open spec fn made<S: AssetStorage + ?Sized>(storage: &S, call: StorageCall) -> bool {
    match call {
        StorageCall::Update { info, asset_type, data, handle, op, version, accepted } => exists|
            loader: &LoaderData,
            bytes: &[u8],
            load_op: AssetLoadOp,
            taken: Result<(), StorageError>,
        |
            {
                &&& loader@ == info
                &&& bytes@ == data
                &&& load_op@ == op
                &&& taken is Ok == accepted
                &&& #[trigger] handed(
                    storage,
                    loader,
                    &asset_type,
                    bytes,
                    handle,
                    load_op,
                    version,
                    taken,
                )
            },
        StorageCall::Commit { asset_type, handle, version } => call_ensures(
            S::commit_asset_version,
            (storage, &asset_type, handle, version),
            (),
        ),
        StorageCall::Free { asset_type, handle } => call_ensures(
            S::free,
            (storage, &asset_type, handle),
            (),
        ),
    }
}

/// A storage together with an account of the calls that were made on it.
pub struct TracedStorage<'a, S: AssetStorage + ?Sized> {
    storage: &'a S,
    calls: Ghost<Seq<StorageCall>>,
}

impl<'a, S: AssetStorage + ?Sized> TracedStorage<'a, S> {
    /// The calls that were made on the storage so far.
    pub closed spec fn calls(&self) -> Seq<StorageCall> {
        self.calls@
    }

    /// The storage.
    pub closed spec fn inner(&self) -> &S {
        self.storage
    }

    /// Every call in the account was made on the storage.
    #[verifier::type_invariant]
    pub open spec fn is_true(&self) -> bool {
        forall|i: int|
            0 <= i < self.calls().len() ==> made(self.inner(), #[trigger] self.calls()[i])
    }

    /// A storage that no call was made on yet.
    pub fn new(storage: &'a S) -> (traced: Self)
        ensures
            traced.inner() == storage,
            traced.calls() == Seq::<StorageCall>::empty(),
    {
        TracedStorage { storage, calls: Ghost(Seq::empty()) }
    }

    /// Enters a call that was made into the account.
    fn enter(&mut self, call: Ghost<StorageCall>)
        requires
            made(old(self).inner(), call@),
        ensures
            final(self).inner() == old(self).inner(),
            final(self).calls() == old(self).calls().push(call@),
    {
        proof {
            use_type_invariant(&*self);
            assert forall|i: int| 0 <= i < self.calls@.push(call@).len() implies made(
                self.storage,
                #[trigger] self.calls@.push(call@)[i],
            ) by {
                if i < self.calls@.len() {
                    assert(made(self.inner(), self.calls()[i]));
                }
            }
        }
        self.calls = Ghost(self.calls@.push(call@));
    }

    /// Hands a version of an asset to the storage, with `data` to look assets up in and an
    /// operation to report to `data` with.
    pub fn update_asset(
        &mut self,
        data: &LoaderData,
        asset_type: &AssetTypeId,
        bytes: &[u8],
        load_handle: LoadHandle,
        version: u32,
    ) -> (taken: Result<(), StorageError>)
        ensures
            final(self).inner() == old(self).inner(),
            final(self).calls() == old(self).calls().push(
                StorageCall::Update {
                    info: data@,
                    asset_type: *asset_type,
                    data: bytes@,
                    handle: load_handle,
                    op: LoadOpModel::fresh(load_handle, data@.reports),
                    version,
                    accepted: taken is Ok,
                },
            ),
            exists|load_op: AssetLoadOp|
                {
                    &&& load_op@ == LoadOpModel::fresh(load_handle, data@.reports)
                    &&& #[trigger] handed(
                        old(self).inner(),
                        data,
                        asset_type,
                        bytes,
                        load_handle,
                        load_op,
                        version,
                        taken,
                    )
                },
            made(final(self).inner(), final(self).calls().last()),
    {
        let load_op = AssetLoadOp::new(share(data.op_sender()), load_handle);
        let ghost op = load_op;
        let loader_info: &dyn LoaderInfoProvider = data;
        let taken = self.storage.update_asset(
            loader_info,
            asset_type,
            bytes,
            load_handle,
            load_op,
            version,
        );
        let ghost call = StorageCall::Update {
            info: data@,
            asset_type: *asset_type,
            data: bytes@,
            handle: load_handle,
            op: op@,
            version,
            accepted: taken is Ok,
        };
        assert(handed(
            self.storage,
            data,
            &call->Update_asset_type,
            bytes,
            call->Update_handle,
            op,
            call->Update_version,
            taken,
        ));
        assert(made(self.storage, call));
        self.enter(Ghost(call));
        taken
    }

    /// Puts a version of an asset into use.
    pub fn commit_asset_version(
        &mut self,
        asset_type: &AssetTypeId,
        load_handle: LoadHandle,
        version: u32,
    )
        ensures
            final(self).inner() == old(self).inner(),
            final(self).calls() == old(self).calls().push(
                StorageCall::Commit { asset_type: *asset_type, handle: load_handle, version },
            ),
            made(final(self).inner(), final(self).calls().last()),
    {
        self.storage.commit_asset_version(asset_type, load_handle, version);
        let ghost call = StorageCall::Commit {
            asset_type: *asset_type,
            handle: load_handle,
            version,
        };
        assert(made(self.storage, call));
        self.enter(Ghost(call));
    }

    /// Lets go of an asset.
    pub fn free(&mut self, asset_type: &AssetTypeId, load_handle: LoadHandle)
        ensures
            final(self).inner() == old(self).inner(),
            final(self).calls() == old(self).calls().push(
                StorageCall::Free { asset_type: *asset_type, handle: load_handle },
            ),
            made(final(self).inner(), final(self).calls().last()),
    {
        self.storage.free(asset_type, load_handle);
        let ghost call = StorageCall::Free { asset_type: *asset_type, handle: load_handle };
        assert(made(self.storage, call));
        self.enter(Ghost(call));
    }
}

} // verus!
