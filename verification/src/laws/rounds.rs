//! Rounds, one after the other: what the loader does over time, whatever happens around it.

use crate::channel::HandleOp;
use crate::ids::{AssetUuid, LoadHandle};
use crate::laws::account::{
    accounted, answerable, law_cycle_account, law_data_account, law_initial_account,
    law_metadata_account, law_references_account, lemma_answerable_kept,
};
use crate::laws::flight::{handles_of, listed};
use crate::laws::round::{
    law_answers_sound, law_cycle_sound, law_initial_sound, law_references_sound, sound,
};
use crate::laws::tables::dependency_total;
use crate::laws::waiting::{
    awaits_metadata, covered, law_no_load_waits_in_vain, law_only_requests_begin_a_wait, names,
    no_wait_begins, MetadataRequest,
};
use crate::model::{is_order_of, lists_exactly, ChangeSet, Effect, LoaderModel, StorageCall};
use crate::requests::{settlements, unsettled, ResponsePromise};
use crate::responses::DataResponse;
use crate::rpc_loader::{cycle, reported};
use crossbeam_channel::Sender;
use std::sync::Arc;
use vstd::prelude::*;

verus! {

/// A request for the data of a load.
pub type DataRequest<D> = ResponsePromise<D, DataResponse, LoadHandle>;

/// A loader between rounds: its data, the requests that are under way, and the calls that it has
/// made on the storage.
pub struct Play<D, M> {
    pub model: LoaderModel,
    pub metadata: Seq<MetadataRequest<M>>,
    pub data: Seq<DataRequest<D>>,
    pub calls: Seq<StorageCall>,
}

/// What happens around the loader in a round. What the loader does in it are the steps that
/// [`RpcLoader::process`](crate::rpc_loader::RpcLoader::process) takes, one after the other: see
/// [`law_calls_make_a_round`](crate::laws::calls::law_calls_make_a_round).
pub struct Round<D, M> {
    /// What the daemon says of changed assets.
    pub changes: Option<ChangeSet>,
    /// The reports of the engine.
    pub ops: Seq<HandleOp>,
    /// The order in which the loads are advanced.
    pub order: Seq<u64>,
    /// The requests for metadata, as polling them left them.
    pub metadata: Seq<MetadataRequest<M>>,
    /// Whether there is a connection to request metadata over.
    pub metadata_connected: bool,
    /// The request for metadata that is made, if a load needs it.
    pub metadata_request: Option<MetadataRequest<M>>,
    /// The requests for data, as polling them left them.
    pub data: Seq<DataRequest<D>>,
    /// Whether the storage takes what it is handed, call by call.
    pub accepted: Seq<bool>,
    /// Whether there is a connection to request data over.
    pub data_connected: bool,
    /// The requests for data that are made.
    pub data_requests: Seq<DataRequest<D>>,
}

impl<D, M> Round<D, M> {
    /// What has become of the loader when changes and reports are followed and the loads are
    /// advanced.
    pub open spec fn cycled(self, s: Play<D, M>) -> Effect {
        cycle(s.model, self.changes, self.ops, self.order)
    }

    /// What following the answers with metadata does then.
    pub open spec fn told(self, s: Play<D, M>) -> Effect {
        self.cycled(s).model.settle_all_metadata(settlements(self.metadata))
    }

    /// The loader once metadata is requested.
    pub open spec fn asked(self, s: Play<D, M>) -> LoaderModel {
        if self.metadata_connected {
            self.told(s).model.requesting_all_metadata()
        } else {
            self.told(s).model
        }
    }

    /// What following the answers with data does then.
    pub open spec fn fed(self, s: Play<D, M>) -> Effect {
        self.asked(s).settle_all_data(settlements(self.data), self.accepted)
    }

    /// The loader at the end of the round.
    pub open spec fn end(self, s: Play<D, M>) -> LoaderModel {
        if self.data_connected {
            self.fed(s).model.requesting_all_data()
        } else {
            self.fed(s).model
        }
    }

    /// Whether this round can be played: nothing stops the loader, handles are left, the loads are
    /// advanced in an order of theirs, it is the requests under way that were polled, and the
    /// requests that are made are those that the loads need.
    pub open spec fn fits(self, s: Play<D, M>) -> bool {
        let before = reported(s.model, self.changes, self.ops);
        &&& self.cycled(s).fault is None
        &&& self.told(s).fault is None
        &&& self.fed(s).fault is None
        &&& is_order_of(self.order, before.model)
        &&& before.model.next_handle + dependency_total(before.model, self.order) <= u64::MAX
        &&& self.metadata.len() == s.metadata.len()
        &&& forall|i: int|
            0 <= i < s.metadata.len() ==> (#[trigger] self.metadata[i]).user_data
                == s.metadata[i].user_data
        &&& handles_of(self.data) == handles_of(s.data)
        &&& match self.metadata_request {
            Some(request) => self.metadata_connected && lists_exactly(
                request.user_data@,
                self.told(s).model,
                |h: u64| self.told(s).model.needs_metadata(h),
            ),
            None => self.metadata_connected ==> forall|h: u64|
                !(#[trigger] self.told(s).model.needs_metadata(h)),
        }
        &&& if self.data_connected {
            exists|list: Seq<(AssetUuid, LoadHandle)>|
                #![trigger listed(list)]
                listed(list) == handles_of(self.data_requests) && lists_exactly(
                    list,
                    self.fed(s).model,
                    |h: u64| self.fed(s).model.needs_data(h),
                )
        } else {
            self.data_requests.len() == 0
        }
    }

    /// The loader after this round.
    pub open spec fn after(self, s: Play<D, M>) -> Play<D, M> {
        Play {
            model: self.end(s),
            metadata: match self.metadata_request {
                Some(request) => unsettled(self.metadata).push(request),
                None => unsettled(self.metadata),
            },
            data: unsettled(self.data) + self.data_requests,
            calls: s.calls + self.cycled(s).calls + self.fed(s).calls,
        }
    }
}

/// Whether `states` are those that a loader goes through in `rounds`.
pub open spec fn is_run<D, M>(states: Seq<Play<D, M>>, rounds: Seq<Round<D, M>>) -> bool {
    &&& states.len() == rounds.len() + 1
    &&& forall|i: int|
        #![trigger rounds[i]]
        0 <= i < rounds.len() ==> rounds[i].fits(states[i]) && states[i + 1] == rounds[i].after(
            states[i],
        )
}

/// Whether all is in order between rounds: the loader is sound and in keeping with the calls on the
/// storage, each request for data is about a load that may be answered, and each load that waits
/// for metadata is named by a request.
pub open spec fn steady<D, M>(s: Play<D, M>) -> bool {
    &&& sound(s.model)
    &&& accounted(s.model, s.calls)
    &&& answerable(s.model, handles_of(s.data))
    &&& covered(s.model, s.metadata)
}

/// All is in order with a loader that has been asked for nothing.
pub proof fn law_initial_steady<D, M>(reports: Arc<Sender<HandleOp>>)
    ensures
        steady(
            Play::<D, M> {
                model: LoaderModel::initial(reports),
                metadata: Seq::empty(),
                data: Seq::empty(),
                calls: Seq::empty(),
            },
        ),
{
    law_initial_sound(reports);
    law_initial_account(reports);
}

/// Adding and removing references leaves all in order, as long as handles are left.
pub proof fn law_references_steady<D, M>(s: Play<D, M>, id: AssetUuid, h: u64)
    requires
        steady(s),
        s.model.next_handle < u64::MAX,
    ensures
        steady(Play { model: s.model.add_ref(id), ..s }),
        steady(Play { model: s.model.remove_ref(h), ..s }),
{
    let a = s.model.add_ref(id);
    let b = s.model.remove_ref(h);
    law_references_sound(s.model, id, h);
    law_references_account(s.model, id, h, s.calls);
    lemma_answerable_kept(s.model, a, handles_of(s.data));
    lemma_answerable_kept(s.model, b, handles_of(s.data));
    law_only_requests_begin_a_wait(
        s.model,
        id,
        h,
        Seq::empty(),
        Seq::empty(),
        None,
        Seq::empty(),
        Seq::empty(),
    );
    lemma_covered_kept(s.model, a, s.metadata);
    lemma_covered_kept(s.model, b, s.metadata);
}

/// Where no load begins to wait for metadata, those that wait are still named by requests.
proof fn lemma_covered_kept<M>(m: LoaderModel, n: LoaderModel, requests: Seq<MetadataRequest<M>>)
    requires
        covered(m, requests),
        no_wait_begins(m, n),
    ensures
        covered(n, requests),
{
}

/// Where no load needs metadata, requesting it changes nothing.
proof fn lemma_covered_kept_by<M>(m: LoaderModel, n: LoaderModel, requests: Seq<MetadataRequest<M>>)
    requires
        covered(m, requests),
        n == m || n == m.requesting_all_metadata() && forall|h: u64|
            !(#[trigger] m.needs_metadata(h)),
    ensures
        covered(n, requests),
{
    assert forall|h: u64| #[trigger] awaits_metadata(n, h) implies awaits_metadata(m, h) by {
        assert(!m.needs_metadata(h) || n == m);
    }
}

/// A round leaves all in order. So whatever a caller does, and whatever happens around the loader,
/// the storage is never told to commit anything but what it was handed last.
pub proof fn law_round_steady<D, M>(s: Play<D, M>, r: Round<D, M>)
    requires
        steady(s),
        r.fits(s),
    ensures
        steady(r.after(s)),
{
    let n = r.after(s);
    let handles = handles_of(s.data);
    // changes, reports, and advancing the loads
    let a = r.cycled(s);
    law_cycle_sound(s.model, r.changes, r.ops, r.order);
    law_cycle_account(s.model, r.changes, r.ops, r.order, s.calls, handles);
    let calls = s.calls + a.calls;
    lemma_cycle_begins_no_wait(s.model, r.changes, r.ops, r.order);
    lemma_covered_kept(s.model, a.model, s.metadata);
    assert(covered(a.model, r.metadata)) by {
        assert forall|h: u64| #[trigger]
            awaits_metadata(a.model, h) implies exists|i: int|
            0 <= i < r.metadata.len() && names(
                (#[trigger] r.metadata[i]).user_data@,
                h,
            ) by {
            let i = choose|i: int|
                0 <= i < s.metadata.len() && names(
                    (#[trigger] s.metadata[i]).user_data@,
                    h,
                );
            assert(r.metadata[i].user_data == s.metadata[i].user_data);
        }
    }
    // metadata
    let settled = settlements(r.data);
    law_answers_sound(a.model, settlements(r.metadata), settled, r.accepted);
    law_metadata_account(a.model, settlements(r.metadata), calls, handles);
    let b = r.asked(s);
    assert(sound(b) && accounted(b, calls) && answerable(b, handles));
    assert(covered(b, n.metadata)) by {
        if r.metadata_request is Some {
            law_no_load_waits_in_vain(a.model, r.metadata, r.metadata_request);
        } else {
            law_no_load_waits_in_vain(a.model, r.metadata, None);
            lemma_covered_kept_by(r.told(s).model, b, n.metadata);
        }
    }
    // data
    law_answers_sound(b, Seq::empty(), settled, r.accepted);
    law_data_account(b, r.data, r.accepted, calls);
    let e = r.fed(s);
    if r.data_connected {
        let requests = r.data_requests;
        let list = choose|list: Seq<(AssetUuid, LoadHandle)>|
            #![trigger listed(list)]
            listed(list) == handles_of(requests) && lists_exactly(
                list,
                e.model,
                |h: u64| e.model.needs_data(h),
            );
        assert(handles_of(unsettled(r.data) + requests) =~= handles_of(unsettled(r.data))
            + listed(list));
    } else {
        assert(unsettled(r.data) + r.data_requests =~= unsettled(r.data));
    }
    law_only_requests_begin_a_wait(
        b,
        arbitrary(),
        0,
        Seq::empty(),
        Seq::empty(),
        None,
        settled,
        r.accepted,
    );
    law_only_requests_begin_a_wait(
        e.model,
        arbitrary(),
        0,
        Seq::empty(),
        Seq::empty(),
        None,
        Seq::empty(),
        Seq::empty(),
    );
    lemma_covered_kept(b, e.model, n.metadata);
    lemma_covered_kept(e.model, n.model, n.metadata);
}

proof fn lemma_cycle_begins_no_wait(
    m: LoaderModel,
    changes: Option<ChangeSet>,
    ops: Seq<HandleOp>,
    order: Seq<u64>,
)
    ensures
        no_wait_begins(m, cycle(m, changes, ops, order).model),
{
    let a = m.process_changes(changes).model;
    let b = reported(m, changes, ops).model;
    law_only_requests_begin_a_wait(
        m,
        arbitrary(),
        0,
        order,
        ops,
        changes,
        Seq::empty(),
        Seq::empty(),
    );
    law_only_requests_begin_a_wait(
        a,
        arbitrary(),
        0,
        order,
        ops,
        changes,
        Seq::empty(),
        Seq::empty(),
    );
    law_only_requests_begin_a_wait(
        b,
        arbitrary(),
        0,
        order,
        ops,
        changes,
        Seq::empty(),
        Seq::empty(),
    );
    assert forall|k: u64| #[trigger]
        awaits_metadata(cycle(m, changes, ops, order).model, k) implies
        awaits_metadata(m, k) by {
        if reported(m, changes, ops).fault is None {
            assert(awaits_metadata(b, k));
        }
        if m.process_changes(changes).fault is None {
            assert(awaits_metadata(a, k));
        }
    }
}

/// All stays in order over a run.
pub proof fn law_run_steady<D, M>(states: Seq<Play<D, M>>, rounds: Seq<Round<D, M>>, i: int)
    requires
        is_run(states, rounds),
        steady(states[0]),
        0 <= i <= rounds.len(),
    ensures
        steady(states[i]),
    decreases i,
{
    if i > 0 {
        law_run_steady(states, rounds, i - 1);
        let r = rounds[i - 1];
        law_round_steady(states[i - 1], r);
    }
}

} // verus!
