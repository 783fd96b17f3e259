//! Fetching the metadata of assets.

use crate::data::LoaderData;
use crate::fault::{Failure, Fault};
use crate::ids::{AssetUuid, LoadHandle};
use crate::model::{is_order_of, lists_exactly, LoaderModel};
use crate::responses::{ids_in, read_id, read_ids, AssetRecord, MetadataResponse};
use crate::state::{AssetLoad, LoadState};
use vstd::prelude::*;

verus! {

/// Once a record could not be used, those after it do not matter.
proof fn lemma_records_stopped(model: LoaderModel, records: Seq<AssetRecord>, n: int)
    requires
        0 <= n <= records.len(),
        model.receive_records(records.take(n)) is Err,
    ensures
        model.receive_records(records) == model.receive_records(records.take(n)),
    decreases records.len(),
{
    if n == records.len() {
        assert(records.take(n) =~= records);
    } else {
        assert(records.drop_last().take(n) =~= records.take(n));
        lemma_records_stopped(model, records.drop_last(), n);
    }
}

/// Once a load was missing, those after it do not matter.
proof fn lemma_ask_again_stopped(
    model: LoaderModel,
    requested: Seq<(AssetUuid, LoadHandle)>,
    n: int,
)
    requires
        0 <= n <= requested.len(),
        model.ask_again_all(requested.take(n)).fault is Some,
    ensures
        model.ask_again_all(requested) == model.ask_again_all(requested.take(n)),
    decreases requested.len(),
{
    if n == requested.len() {
        assert(requested.take(n) =~= requested);
    } else {
        assert(requested.drop_last().take(n) =~= requested.take(n));
        lemma_ask_again_stopped(model, requested.drop_last(), n);
    }
}

/// Once an answer stopped the loader, those after it do not matter.
proof fn lemma_settle_metadata_stopped(
    model: LoaderModel,
    settled: Seq<(Option<MetadataResponse>, Vec<(AssetUuid, LoadHandle)>)>,
    n: int,
)
    requires
        0 <= n <= settled.len(),
        model.settle_all_metadata(settled.take(n)).fault is Some,
    ensures
        model.settle_all_metadata(settled) == model.settle_all_metadata(settled.take(n)),
    decreases settled.len(),
{
    if n == settled.len() {
        assert(settled.take(n) =~= settled);
    } else {
        assert(settled.drop_last().take(n) =~= settled.take(n));
        lemma_settle_metadata_stopped(model, settled.drop_last(), n);
    }
}

/// What is listed on the way through `order`: each load of `order` that needs metadata, once.
proof fn lemma_metadata_listed(model: LoaderModel, order: Seq<u64>)
    ensures
        model.metadata_requests(order).no_duplicates(),
        forall|id: AssetUuid, handle: LoadHandle| #[trigger]
            model.metadata_requests(order).contains((id, handle)) <==> order.contains(handle.0)
                && model.needs_metadata(handle.0) && model.loads[handle.0].asset_id == id,
    decreases order.len(),
{
    if order.len() > 0 {
        let earlier = order.drop_last();
        let h = order.last();
        lemma_metadata_listed(model, earlier);
        let before = model.metadata_requests(earlier);
        let entry = (model.loads[h].asset_id, LoadHandle(h));
        assert(order =~= earlier.push(h));
        assert forall|id: AssetUuid, handle: LoadHandle| #[trigger]
            model.metadata_requests(order).contains((id, handle)) <==> order.contains(handle.0)
                && model.needs_metadata(handle.0) && model.loads[handle.0].asset_id == id by {
            lemma_contains_push(earlier, h, handle.0);
            lemma_contains_push(before, entry, (id, handle));
            assert(before.contains((id, handle)) <==> earlier.contains(handle.0)
                && model.needs_metadata(handle.0) && model.loads[handle.0].asset_id == id);
        }
        assert(!earlier.contains(h) ==> !before.contains(entry));
    }
}

/// A way through all loads lists each load that needs metadata.
proof fn lemma_all_metadata_listed(model: LoaderModel, order: Seq<u64>)
    requires
        is_order_of(order, model),
    ensures
        lists_exactly(model.metadata_requests(order), model, |h: u64| model.needs_metadata(h)),
        model.requesting_metadata(order) == model.requesting_all_metadata(),
{
    lemma_metadata_listed(model, order);
    assert(model.requesting_metadata(order).loads =~= model.requesting_all_metadata().loads);
}

impl LoaderData {
    /// Notes what a record says of the dependencies of the asset `id`.
    pub fn update_asset_metadata(&mut self, id: &AssetUuid, record: &AssetRecord) -> (done: Result<
        (),
        Failure,
    >)
        ensures
            match record.load_deps {
                Err(_) => done == Err::<(), Failure>(Failure::Malformed) && final(self)@ == old(
                    self,
                )@,
                Ok(parts) => match ids_in(parts@) {
                    Err(failure) => done == Err::<(), Failure>(failure) && final(self)@ == old(
                        self,
                    )@,
                    Ok(deps) => done == Ok::<(), Failure>(()) && final(self)@ == (LoaderModel {
                        metadata: old(self)@.metadata.insert(*id, deps),
                        ..old(self)@
                    }),
                },
            },
    {
        match &record.load_deps {
            Err(_) => Err(Failure::Malformed),
            Ok(parts) => match read_ids(parts) {
                Err(failure) => Err(failure),
                Ok(deps) => {
                    self.set_metadata(id, deps);
                    Ok(())
                },
            },
        }
    }

    /// Takes in what the daemon says of one asset.
    fn receive_record(&mut self, record: &AssetRecord) -> (done: Result<(), Failure>)
        ensures
            match old(self)@.receive_record(*record) {
                Ok(model) => done == Ok::<(), Failure>(()) && final(self)@ == model,
                Err((model, failure)) => done == Err::<(), Failure>(failure) && final(self)@
                    == model,
            },
    {
        let id = match read_id(&record.id) {
            Ok(id) => id,
            Err(failure) => {
                return Err(failure);
            },
        };
        let noted = self.update_asset_metadata(&id, record);
        if noted.is_err() {
            return noted;
        }
        match self.handle(&id) {
            None => Ok(()),
            Some(handle) => match self.load(handle) {
                None => Err(Failure::Fault(Fault::MetadataForUnknownLoad(LoadHandle(handle)))),
                Some(load) => {
                    if let LoadState::RequestingMetadata = load.state {
                        self.put(
                            handle,
                            AssetLoad { state: LoadState::RequestDependencies, ..load },
                        );
                    }
                    Ok(())
                },
            },
        }
    }

    /// Takes in what the daemon says of several assets, up to the first that cannot be used.
    fn receive_records(&mut self, records: &Vec<AssetRecord>) -> (done: Result<(), Failure>)
        ensures
            match old(self)@.receive_records(records@) {
                Ok(model) => done == Ok::<(), Failure>(()) && final(self)@ == model,
                Err((model, failure)) => done == Err::<(), Failure>(failure) && final(self)@
                    == model,
            },
    {
        let mut i: usize = 0;
        assert(records@.take(0) =~= Seq::empty());
        while i < records.len()
            invariant
                i <= records.len(),
                (old(self)@.receive_records(records@.take(i as int)) == Ok::<
                    LoaderModel,
                    (LoaderModel, Failure),
                >(self@)),
            decreases records.len() - i,
        {
            let ghost upto = records@.take(i as int + 1);
            assert(upto.drop_last() =~= records@.take(i as int));
            let received = self.receive_record(&records[i]);
            if received.is_err() {
                proof {
                    lemma_records_stopped(old(self)@, records@, i as int + 1);
                }
                return received;
            }
            i = i + 1;
        }
        assert(records@.take(i as int) =~= records@);
        Ok(())
    }

    /// Makes those of the loads `requested` ask again whose requests are still out.
    fn ask_again_all(&mut self, requested: &Vec<(AssetUuid, LoadHandle)>) -> (done: Result<
        (),
        Fault,
    >)
        ensures
            final(self)@ == old(self)@.ask_again_all(requested@).model,
            done == old(self)@.ask_again_all(requested@).outcome(),
    {
        let mut i: usize = 0;
        assert(requested@.take(0) =~= Seq::empty());
        while i < requested.len()
            invariant
                i <= requested.len(),
                old(self)@.ask_again_all(requested@.take(i as int)).fault is None,
                self@ == old(self)@.ask_again_all(requested@.take(i as int)).model,
            decreases requested.len() - i,
        {
            assert(requested@.take(i as int + 1).drop_last() =~= requested@.take(i as int));
            let handle = requested[i].1;
            match self.load(handle.0) {
                None => {
                    proof {
                        lemma_ask_again_stopped(old(self)@, requested@, i as int + 1);
                    }
                    return Err(Fault::MetadataForUnknownLoad(handle));
                },
                Some(load) => {
                    if let LoadState::RequestingMetadata = load.state {
                        self.put(
                            handle.0,
                            AssetLoad { state: LoadState::WaitingForMetadata, ..load },
                        );
                    }
                },
            }
            i = i + 1;
        }
        assert(requested@.take(i as int) =~= requested@);
        Ok(())
    }

    /// Follows the answer to a request for the metadata of `requested`, or its failure.
    pub fn settle_metadata(
        &mut self,
        answer: &Option<MetadataResponse>,
        requested: &Vec<(AssetUuid, LoadHandle)>,
    ) -> (done: Result<(), Fault>)
        ensures
            final(self)@ == old(self)@.settle_metadata(*answer, requested@).model,
            done == old(self)@.settle_metadata(*answer, requested@).outcome(),
    {
        match answer {
            Some(response) => match &response.assets {
                Ok(records) => match self.receive_records(records) {
                    Err(Failure::Fault(fault)) => {
                        return Err(fault);
                    },
                    _ => {},
                },
                Err(_) => {},
            },
            None => {},
        }
        self.ask_again_all(requested)
    }

    /// Follows the answers to several requests for metadata, one after the other.
    pub fn settle_all_metadata(
        &mut self,
        settled: &Vec<(Option<MetadataResponse>, Vec<(AssetUuid, LoadHandle)>)>,
    ) -> (done: Result<(), Fault>)
        ensures
            final(self)@ == old(self)@.settle_all_metadata(settled@).model,
            done == old(self)@.settle_all_metadata(settled@).outcome(),
    {
        let mut i: usize = 0;
        assert(settled@.take(0) =~= Seq::empty());
        while i < settled.len()
            invariant
                i <= settled.len(),
                old(self)@.settle_all_metadata(settled@.take(i as int)).fault is None,
                self@ == old(self)@.settle_all_metadata(settled@.take(i as int)).model,
            decreases settled.len() - i,
        {
            assert(settled@.take(i as int + 1).drop_last() =~= settled@.take(i as int));
            let done = self.settle_metadata(&settled[i].0, &settled[i].1);
            if done.is_err() {
                proof {
                    lemma_settle_metadata_stopped(old(self)@, settled@, i as int + 1);
                }
                return done;
            }
            i = i + 1;
        }
        assert(settled@.take(i as int) =~= settled@);
        Ok(())
    }

    /// Marks those of the loads `order` that need metadata, and lists them with their assets.
    pub fn request_metadata_of(&mut self, order: &Vec<u64>) -> (requested: Vec<
        (AssetUuid, LoadHandle),
    >)
        ensures
            final(self)@ == old(self)@.requesting_metadata(order@),
            requested@ == old(self)@.metadata_requests(order@),
    {
        let mut requested: Vec<(AssetUuid, LoadHandle)> = Vec::new();
        let mut i: usize = 0;
        assert(order@.take(0) =~= Seq::empty());
        assert(self@.loads =~= old(self)@.requesting_metadata(order@.take(0)).loads);
        while i < order.len()
            invariant
                i <= order.len(),
                self@ == old(self)@.requesting_metadata(order@.take(i as int)),
                requested@ == old(self)@.metadata_requests(order@.take(i as int)),
            decreases order.len() - i,
        {
            let handle = order[i];
            let ghost earlier = order@.take(i as int);
            let ghost upto = order@.take(i as int + 1);
            proof {
                assert(upto.drop_last() =~= earlier);
                assert forall|h: u64| upto.contains(h) == (earlier.contains(h) || h == handle) by {
                    lemma_contains_push(earlier, handle, h);
                    assert(upto =~= earlier.push(handle));
                }
            }
            match self.load(handle) {
                Some(load) => {
                    if let LoadState::WaitingForMetadata = load.state {
                        self.put(
                            handle,
                            AssetLoad { state: LoadState::RequestingMetadata, ..load },
                        );
                        requested.push((load.asset_id, LoadHandle(handle)));
                    }
                },
                None => {},
            }
            assert(self@.loads =~= old(self)@.requesting_metadata(upto).loads);
            i = i + 1;
        }
        assert(order@.take(i as int) =~= order@);
        requested
    }

    /// Marks the loads that need metadata, and lists them with their assets in some order.
    pub fn request_metadata(&mut self) -> (requested: Vec<(AssetUuid, LoadHandle)>)
        ensures
            final(self)@ == old(self)@.requesting_all_metadata(),
            lists_exactly(requested@, old(self)@, |h: u64| old(self)@.needs_metadata(h)),
    {
        let order = self.handles();
        proof {
            lemma_all_metadata_listed(self@, order@);
        }
        self.request_metadata_of(&order)
    }
}

/// What a sequence contains after an element was added to it.
pub proof fn lemma_contains_push<A>(s: Seq<A>, added: A, x: A)
    ensures
        s.push(added).contains(x) == (s.contains(x) || x == added),
{
    if s.contains(x) {
        let i = choose|i: int| 0 <= i < s.len() && s[i] == x;
        assert(s.push(added)[i] == x);
    }
    if x == added {
        assert(s.push(added)[s.len() as int] == x);
    }
}

} // verus!
