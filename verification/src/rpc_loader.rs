//! The loader that works with an asset daemon.

use crate::changes::{changes_in, AssetChanges};
use crate::channel::HandleOp;
use crate::data::LoaderData;
use crate::fault::Fault;
use crate::ids::{AssetTypeId, AssetUuid, LoadHandle};
use crate::model::{answers, is_order_of, lists_exactly, ChangeSet, Effect, LoaderModel, StorageCall};
use crate::requests::{
    process_pending_requests, settlements, unsettled, ResponsePromise, RpcRequests,
};
use crate::responses::{DataResponse, MetadataResponse};
use crate::state::{LoadInfo, LoadState, LoadStatus};
use crate::storage::{AssetStorage, TracedStorage};
use vstd::prelude::*;

verus! {

/// How the connection to the daemon stands.
#[derive(Copy, Clone, PartialEq, Eq, Debug, Structural)]
pub enum ConnectionState {
    /// There is none.
    Unconnected,
    /// It is being made.
    Connecting,
    /// It is there.
    Connected,
    /// It could not be made or was lost.
    Error,
}

/// What has happened outside of the loader.
pub enum RpcEvent<D, M> {
    /// A round begins, with the connection in this state.
    Begun(ConnectionState),
    /// The connection was polled.
    Polled,
    /// The daemon was asked which assets have changed.
    ChangesChecked(Option<AssetChanges>),
    /// The requests for metadata were polled, with the connection in this state.
    MetadataPolled(ConnectionState),
    /// Metadata was requested.
    MetadataRequested(ResponsePromise<M, MetadataResponse, Vec<(AssetUuid, LoadHandle)>>),
    /// The requests for data were polled, with the connection in this state.
    DataPolled(ConnectionState),
    /// Data was requested.
    DataRequested(Vec<ResponsePromise<D, DataResponse, LoadHandle>>),
}

/// What is to be done outside of the loader next.
#[derive(Debug)]
pub enum RpcAction {
    /// Poll the connection, after connecting anew if `connect` says so.
    Poll { connect: bool },
    /// Ask the daemon which assets have changed.
    CheckChanges,
    /// Poll the requests for metadata.
    PollMetadata,
    /// Request the metadata of these loads, in one request.
    RequestMetadata(Vec<(AssetUuid, LoadHandle)>),
    /// Poll the requests for data.
    PollData,
    /// Request the data of these loads, in one request each.
    RequestData(Vec<(AssetUuid, LoadHandle)>),
    /// Nothing: the round is over.
    Finish,
}

/// Loads assets with the help of an asset daemon. It is intended for use in development
/// environments. `D` and `M` are promises of data and of metadata.
pub struct RpcLoader<D, M> {
    /// Where the daemon is.
    pub connect_string: String,
    /// The loader's own data.
    pub data: LoaderData,
    /// The requests that are under way.
    pub requests: RpcRequests<D, M>,
}

/// The part of a round between the answer on changed assets and the polling of requests, when the
/// engine's reports are `ops` and the loads are advanced in the order `order`.
pub open spec fn cycle(
    model: LoaderModel,
    changes: Option<ChangeSet>,
    ops: Seq<HandleOp>,
    order: Seq<u64>,
) -> Effect {
    reported(model, changes, ops).followed_by(
        reported(model, changes, ops).model.advance_all(order),
    )
}

/// The part of a round between the answer on changed assets and the advancing of loads, when the
/// engine reports `ops` meanwhile.
pub open spec fn reported(
    model: LoaderModel,
    changes: Option<ChangeSet>,
    ops: Seq<HandleOp>,
) -> Effect {
    model.process_changes(changes).followed_by(
        model.process_changes(changes).model.follow_ops(ops),
    )
}

/// Whether `done`, `after` and `calls_after` are what the part of a round that [`cycle`] describes
/// makes of `before` and `calls_before`, whatever the engine reports meanwhile and in whatever
/// order the loads are advanced.
pub open spec fn after_cycle(
    before: LoaderModel,
    calls_before: Seq<StorageCall>,
    changes: Option<ChangeSet>,
    after: LoaderModel,
    calls_after: Seq<StorageCall>,
    done: Result<(), Fault>,
) -> bool {
    exists|ops: Seq<HandleOp>, order: Seq<u64>|
        {
            let effect = #[trigger] cycle(before, changes, ops, order);
            let advanced = reported(before, changes, ops);
            &&& advanced.fault is None ==> is_order_of(order, advanced.model)
            &&& after == effect.model
            &&& calls_after == calls_before + effect.calls
            &&& done == effect.outcome()
        }
}

/// Whether `requested` and `after` are what is left to do when `settled` has been followed and
/// metadata is requested over a connection in state `connection`.
pub open spec fn after_metadata(
    settled: Effect,
    connection: ConnectionState,
    after: LoaderModel,
    requested: Result<Vec<(AssetUuid, LoadHandle)>, Fault>,
) -> bool {
    match requested {
        Err(fault) => settled.fault == Some(fault) && after == settled.model,
        Ok(list) => {
            &&& settled.fault is None
            &&& if connection is Connected {
                &&& after == settled.model.requesting_all_metadata()
                &&& lists_exactly(
                    list@,
                    settled.model,
                    |h: u64| settled.model.needs_metadata(h),
                )
            } else {
                after == settled.model && list@.len() == 0
            }
        },
    }
}

/// Whether `requested` and `after` are what is left to do when `settled` has been followed and data
/// is requested over a connection in state `connection`.
pub open spec fn after_data(
    settled: Effect,
    connection: ConnectionState,
    after: LoaderModel,
    requested: Result<Vec<(AssetUuid, LoadHandle)>, Fault>,
) -> bool {
    match requested {
        Err(fault) => settled.fault == Some(fault) && after == settled.model,
        Ok(list) => {
            &&& settled.fault is None
            &&& if connection is Connected {
                &&& after == settled.model.requesting_all_data()
                &&& lists_exactly(list@, settled.model, |h: u64| settled.model.needs_data(h))
            } else {
                after == settled.model && list@.len() == 0
            }
        },
    }
}

/// How the part of a round that [`cycle`] describes has ended, if `next` is what is to be done
/// after it: the requests for metadata are to be polled, or the loader cannot go on.
pub open spec fn ended_before(next: Result<RpcAction, Fault>) -> Option<Result<(), Fault>> {
    match next {
        Ok(RpcAction::PollMetadata) => Some(Ok(())),
        Ok(_) => None,
        Err(fault) => Some(Err(fault)),
    }
}

/// Whether `after`, `calls_after` and `next` are what [`RpcLoader::process`] makes of `before` and
/// the calls `calls` on the storage when `event` has happened.
pub open spec fn processed<D, M>(
    before: RpcLoader<D, M>,
    calls: Seq<StorageCall>,
    event: RpcEvent<D, M>,
    after: RpcLoader<D, M>,
    calls_after: Seq<StorageCall>,
    next: Result<RpcAction, Fault>,
) -> bool {
    &&& after.connect_string == before.connect_string
    &&& match event {
        RpcEvent::Begun(connection) => {
            &&& after == before
            &&& calls_after == calls
            &&& next matches Ok(RpcAction::Poll { connect })
            &&& connect == (connection is Error || connection is Unconnected)
        },
        RpcEvent::Polled => {
            &&& after.requests == before.requests
            &&& if before.data@.pending_reloads.len() == 0 {
                &&& next == Ok::<RpcAction, Fault>(RpcAction::CheckChanges)
                &&& after == before
                &&& calls_after == calls
            } else {
                &&& ended_before(next) matches Some(done)
                &&& after_cycle(before.data@, calls, None, after.data@, calls_after, done)
            }
        },
        RpcEvent::ChangesChecked(changes) => {
            &&& after.requests == before.requests
            &&& ended_before(next) matches Some(done)
            &&& after_cycle(
                before.data@,
                calls,
                changes_in(changes),
                after.data@,
                calls_after,
                done,
            )
        },
        RpcEvent::MetadataPolled(connection) => {
            &&& calls_after == calls
            &&& after.requests.pending_data_requests == before.requests.pending_data_requests
            &&& after.requests.pending_metadata_requests@ == unsettled(
                before.requests.pending_metadata_requests@,
            )
            &&& exists|requested: Result<Vec<(AssetUuid, LoadHandle)>, Fault>|
                {
                    &&& #[trigger] after_metadata(
                        before.data@.settle_all_metadata(
                            settlements(before.requests.pending_metadata_requests@),
                        ),
                        connection,
                        after.data@,
                        requested,
                    )
                    &&& next == match requested {
                        Ok(list) => Ok::<RpcAction, Fault>(
                            if list@.len() > 0 {
                                RpcAction::RequestMetadata(list)
                            } else {
                                RpcAction::PollData
                            },
                        ),
                        Err(fault) => Err(fault),
                    }
                }
        },
        RpcEvent::MetadataRequested(request) => {
            &&& after.data == before.data
            &&& calls_after == calls
            &&& after.requests.pending_data_requests == before.requests.pending_data_requests
            &&& after.requests.pending_metadata_requests@
                == before.requests.pending_metadata_requests@.push(request)
            &&& next == Ok::<RpcAction, Fault>(RpcAction::PollData)
        },
        RpcEvent::DataPolled(connection) => {
            let accepted = answers(calls_after.skip(calls.len() as int));
            let settled = before.data@.settle_all_data(
                settlements(before.requests.pending_data_requests@),
                accepted,
            );
            &&& calls.len() <= calls_after.len()
            &&& calls_after == calls + settled.calls
            &&& after.requests.pending_metadata_requests
                == before.requests.pending_metadata_requests
            &&& after.requests.pending_data_requests@ == unsettled(
                before.requests.pending_data_requests@,
            )
            &&& exists|requested: Result<Vec<(AssetUuid, LoadHandle)>, Fault>|
                {
                    &&& #[trigger] after_data(settled, connection, after.data@, requested)
                    &&& next == match requested {
                        Ok(list) => Ok::<RpcAction, Fault>(
                            if list@.len() > 0 {
                                RpcAction::RequestData(list)
                            } else {
                                RpcAction::Finish
                            },
                        ),
                        Err(fault) => Err(fault),
                    }
                }
        },
        RpcEvent::DataRequested(requests) => {
            &&& after.data == before.data
            &&& calls_after == calls
            &&& after.requests.pending_metadata_requests
                == before.requests.pending_metadata_requests
            &&& after.requests.pending_data_requests@ == before.requests.pending_data_requests@
                + requests@
            &&& next == Ok::<RpcAction, Fault>(RpcAction::Finish)
        },
    }
}

impl<D, M> RpcLoader<D, M> {
    /// A loader that has been asked for nothing, for the daemon at `connect_string`.
    pub fn new(connect_string: String) -> (loader: Self)
        ensures
            loader.connect_string == connect_string,
            loader.data@ == LoaderModel::initial(loader.data@.reports),
            loader.requests.pending_data_requests@.len() == 0,
            loader.requests.pending_metadata_requests@.len() == 0,
    {
        RpcLoader {
            connect_string,
            data: LoaderData::new(),
            requests: RpcRequests {
                pending_data_requests: Vec::new(),
                pending_metadata_requests: Vec::new(),
            },
        }
    }

    /// The load of an asset.
    pub fn get_load(&self, id: AssetUuid) -> (load: Option<LoadHandle>)
        ensures
            load == match self.data@.handle(id) {
                Some(h) => Some(LoadHandle(h)),
                None => None,
            },
    {
        match self.data.handle(&id) {
            Some(handle) => Some(LoadHandle(handle)),
            None => None,
        }
    }

    /// The asset of a load and the number of its references. A number that takes more than 32 bits
    /// is cut off.
    pub fn get_load_info(&self, load: LoadHandle) -> (info: Option<LoadInfo>)
        ensures
            info == match self.data@.load(load.0) {
                Some(found) => Some(
                    LoadInfo { asset_id: found.asset_id, refs: found.refs as u32 },
                ),
                None => None,
            },
    {
        match self.data.load(load.0) {
            Some(found) => Some(
                LoadInfo {
                    asset_id: found.asset_id,
                    refs: #[verifier::truncate] (found.refs as u32),
                },
            ),
            None => None,
        }
    }

    /// How a load stands.
    pub fn get_load_status(&self, load: LoadHandle) -> (status: LoadStatus)
        ensures
            status == self.data@.status(load.0),
    {
        match self.data.load(load.0) {
            Some(found) => match found.state {
                LoadState::Indeterminate => LoadStatus::NotRequested,
                LoadState::WaitingForMetadata
                | LoadState::RequestingMetadata
                | LoadState::RequestDependencies
                | LoadState::WaitingForDependencies
                | LoadState::LoadingAsset(_) => LoadStatus::Loading,
                LoadState::Loaded(_) => {
                    if let Some(_) = found.loaded_version {
                        LoadStatus::Loaded
                    } else {
                        LoadStatus::Loading
                    }
                },
                LoadState::UnloadRequested | LoadState::Unloading => LoadStatus::Unloading,
            },
            None => LoadStatus::NotRequested,
        }
    }

    /// Adds a reference to an asset.
    pub fn add_ref(&mut self, id: AssetUuid) -> (handle: LoadHandle)
        ensures
            handle == LoadHandle(old(self).data@.handle_for(id)),
            final(self).data@ == old(self).data@.add_ref(id),
            final(self).requests == old(self).requests,
            final(self).connect_string == old(self).connect_string,
    {
        self.data.add_ref(id)
    }

    /// The type of the asset of a load, while the asset is available.
    pub fn get_asset(&self, load: LoadHandle) -> (asset: Option<(AssetTypeId, LoadHandle)>)
        ensures
            asset == self.data@.asset(load.0),
    {
        self.data.get_asset(load)
    }

    /// Removes a reference from a load.
    pub fn remove_ref(&mut self, load: LoadHandle)
        ensures
            final(self).data@ == old(self).data@.remove_ref(load.0),
            final(self).requests == old(self).requests,
            final(self).connect_string == old(self).connect_string,
    {
        self.data.remove_ref(load)
    }

    /// Follows changes and the engine's reports, and advances the loads.
    pub fn process_cycle<S: AssetStorage + ?Sized>(
        &mut self,
        changes: &Option<AssetChanges>,
        storage: &mut TracedStorage<S>,
    ) -> (done: Result<(), Fault>)
        ensures
            final(storage).inner() == old(storage).inner(),
            final(self).requests == old(self).requests,
            final(self).connect_string == old(self).connect_string,
            after_cycle(
                old(self).data@,
                old(storage).calls(),
                changes_in(*changes),
                final(self).data@,
                final(storage).calls(),
                done,
            ),
    {
        let ghost model = self.data@;
        let ghost set = changes_in(*changes);
        let ghost start = storage.calls();
        let changed = self.data.process_asset_changes(changes, storage);
        let ghost effect = model.process_changes(set);
        if changed.is_err() {
            proof {
                assert(cycle(model, set, Seq::empty(), Seq::empty()) == effect);
            }
            return changed;
        }
        let followed = self.data.process_load_ops(storage);
        let ghost ops = choose|ops: Seq<HandleOp>|
            {
                &&& self.data@ == (#[trigger] effect.model.follow_ops(ops)).model
                &&& storage.calls() == start + effect.calls + effect.model.follow_ops(ops).calls
                &&& followed == effect.model.follow_ops(ops).outcome()
            };
        let ghost after_ops = reported(model, set, ops);
        assert(start + effect.calls + effect.model.follow_ops(ops).calls =~= start
            + after_ops.calls);
        if followed.is_err() {
            proof {
                assert(cycle(model, set, ops, Seq::empty()) == after_ops);
            }
            return followed;
        }
        let done = self.data.process_load_states(storage);
        proof {
            let order = choose|order: Seq<u64>|
                {
                    &&& is_order_of(order, after_ops.model)
                    &&& self.data@ == (#[trigger] after_ops.model.advance_all(order)).model
                    &&& storage.calls() == start + after_ops.calls + after_ops.model.advance_all(
                        order,
                    ).calls
                    &&& done == after_ops.model.advance_all(order).outcome()
                };
            let all = cycle(model, set, ops, order);
            assert(start + after_ops.calls + after_ops.model.advance_all(order).calls =~= start
                + all.calls);
        }
        done
    }

    /// Follows the answers to requests for metadata and, over a connection, lists the loads to
    /// request metadata for.
    pub fn process_metadata_requests(&mut self, connection: ConnectionState) -> (requested: Result<
        Vec<(AssetUuid, LoadHandle)>,
        Fault,
    >)
        ensures
            final(self).connect_string == old(self).connect_string,
            final(self).requests.pending_data_requests == old(self).requests.pending_data_requests,
            final(self).requests.pending_metadata_requests@ == unsettled(
                old(self).requests.pending_metadata_requests@,
            ),
            after_metadata(
                old(self).data@.settle_all_metadata(
                    settlements(old(self).requests.pending_metadata_requests@),
                ),
                connection,
                final(self).data@,
                requested,
            ),
    {
        let settled = process_pending_requests(&mut self.requests.pending_metadata_requests);
        match self.data.settle_all_metadata(&settled) {
            Ok(()) => {},
            Err(fault) => {
                return Err(fault);
            },
        }
        if connection == ConnectionState::Connected {
            Ok(self.data.request_metadata())
        } else {
            Ok(Vec::new())
        }
    }

    /// Follows the answers to requests for data and, over a connection, lists the loads to request
    /// data for.
    pub fn process_data_requests<S: AssetStorage + ?Sized>(
        &mut self,
        connection: ConnectionState,
        storage: &mut TracedStorage<S>,
    ) -> (requested: Result<Vec<(AssetUuid, LoadHandle)>, Fault>)
        ensures
            final(storage).inner() == old(storage).inner(),
            final(self).connect_string == old(self).connect_string,
            final(self).requests.pending_metadata_requests == old(
                self,
            ).requests.pending_metadata_requests,
            final(self).requests.pending_data_requests@ == unsettled(
                old(self).requests.pending_data_requests@,
            ),
            old(storage).calls().len() <= final(storage).calls().len(),
            ({
                let accepted = answers(
                    final(storage).calls().skip(old(storage).calls().len() as int),
                );
                let settled = old(self).data@.settle_all_data(
                    settlements(old(self).requests.pending_data_requests@),
                    accepted,
                );
                &&& final(storage).calls() == old(storage).calls() + settled.calls
                &&& after_data(settled, connection, final(self).data@, requested)
            }),
    {
        let settled = process_pending_requests(&mut self.requests.pending_data_requests);
        match self.data.settle_all_data(&settled, storage) {
            Ok(()) => {},
            Err(fault) => {
                return Err(fault);
            },
        }
        if connection == ConnectionState::Connected {
            Ok(self.data.request_data())
        } else {
            Ok(Vec::new())
        }
    }

    /// Takes part in a round: given what has happened outside, does what follows from it, and says
    /// what is to be done outside next.
    ///
    /// A round begins with [`RpcEvent::Begun`] and is over when nothing is left to be done.
    pub fn process<S: AssetStorage + ?Sized>(
        &mut self,
        event: RpcEvent<D, M>,
        storage: &mut TracedStorage<S>,
    ) -> (next: Result<RpcAction, Fault>)
        ensures
            final(storage).inner() == old(storage).inner(),
            processed(
                *old(self),
                old(storage).calls(),
                event,
                *final(self),
                final(storage).calls(),
                next,
            ),
    {
        match event {
            RpcEvent::Begun(connection) => {
                let connect = match connection {
                    ConnectionState::Error => true,
                    ConnectionState::Unconnected => true,
                    _ => false,
                };
                Ok(RpcAction::Poll { connect })
            },
            RpcEvent::Polled => {
                // if there are no pending hot reloads, poll for new changes
                if self.data.reloads().len() == 0 {
                    return Ok(RpcAction::CheckChanges);
                }
                match self.process_cycle(&None, storage) {
                    Ok(()) => Ok(RpcAction::PollMetadata),
                    Err(fault) => Err(fault),
                }
            },
            RpcEvent::ChangesChecked(changes) => match self.process_cycle(&changes, storage) {
                Ok(()) => Ok(RpcAction::PollMetadata),
                Err(fault) => Err(fault),
            },
            RpcEvent::MetadataPolled(connection) => match self.process_metadata_requests(
                connection,
            ) {
                Ok(requested) => Ok(
                    if requested.len() > 0 {
                        RpcAction::RequestMetadata(requested)
                    } else {
                        RpcAction::PollData
                    },
                ),
                Err(fault) => Err(fault),
            },
            RpcEvent::MetadataRequested(request) => {
                self.requests.pending_metadata_requests.push(request);
                Ok(RpcAction::PollData)
            },
            RpcEvent::DataPolled(connection) => match self.process_data_requests(
                connection,
                storage,
            ) {
                Ok(requested) => Ok(
                    if requested.len() > 0 {
                        RpcAction::RequestData(requested)
                    } else {
                        RpcAction::Finish
                    },
                ),
                Err(fault) => Err(fault),
            },
            RpcEvent::DataRequested(requests) => {
                let mut requests = requests;
                self.requests.pending_data_requests.append(&mut requests);
                Ok(RpcAction::Finish)
            },
        }
    }
}

impl<D, M> Default for RpcLoader<D, M> {
    fn default() -> (loader: Self)
        ensures
            loader.connect_string@ == "127.0.0.1:9999"@,
            loader.data@ == LoaderModel::initial(loader.data@.reports),
            loader.requests.pending_data_requests@.len() == 0,
            loader.requests.pending_metadata_requests@.len() == 0,
    {
        RpcLoader::new("127.0.0.1:9999".to_string())
    }
}

} // verus!
