//! A round of the loader keeps it sound.

use crate::channel::HandleOp;
use crate::ids::{AssetUuid, LoadHandle};
use crate::laws::coherence::{
    all_coherent, law_advance_all_coherent, law_apply_ops_coherent, law_initial_coherent,
    law_process_changes_coherent, law_references_coherent, law_requesting_coherent,
    law_settle_all_data_coherent, law_settle_all_metadata_coherent,
};
use crate::laws::references::{lemma_known_agrees, tables_agree};
use crate::laws::tables::{
    dependency_total, handles_kept, law_advance_all_agrees, law_apply_ops_agree,
    law_initial_tables_agree, law_process_changes_agrees, law_remove_ref_agrees,
    law_requesting_agrees, law_settle_all_data_agrees, law_settle_all_metadata_agrees,
};
use crate::model::{is_order_of, ChangeSet, LoaderModel};
use crate::responses::{DataResponse, MetadataResponse};
use crate::rpc_loader::{cycle, reported};
use crossbeam_channel::Sender;
use std::sync::Arc;
use vstd::prelude::*;

verus! {

/// Whether a loader is sound: its tables agree, and what its loads say of themselves fits together.
pub open spec fn sound(m: LoaderModel) -> bool {
    tables_agree(m) && all_coherent(m)
}

/// A loader that has been asked for nothing is sound.
pub proof fn law_initial_sound(reports: Arc<Sender<HandleOp>>)
    ensures
        sound(LoaderModel::initial(reports)),
{
    law_initial_tables_agree(reports);
    law_initial_coherent(reports);
}

/// Adding and removing references keeps a loader sound, as long as handles are left.
pub proof fn law_references_sound(m: LoaderModel, id: AssetUuid, h: u64)
    requires
        sound(m),
        m.next_handle < u64::MAX,
    ensures
        sound(m.add_ref(id)),
        sound(m.remove_ref(h)),
        handles_kept(m, m.add_ref(id)),
        handles_kept(m, m.remove_ref(h)),
{
    lemma_known_agrees(m, id);
    law_remove_ref_agrees(m, h);
    law_references_coherent(m, id, h);
}

/// The part of a round in which changes and the engine's reports are followed and the loads are
/// advanced keeps a loader sound, as long as handles are left, and no asset loses its handle.
pub proof fn law_cycle_sound(
    m: LoaderModel,
    changes: Option<ChangeSet>,
    ops: Seq<HandleOp>,
    order: Seq<u64>,
)
    requires
        sound(m),
        ({
            let n = reported(m, changes, ops);
            n.fault is None ==> is_order_of(order, n.model) && n.model.next_handle
                + dependency_total(n.model, order) <= u64::MAX
        }),
    ensures
        sound(cycle(m, changes, ops, order).model),
        handles_kept(m, cycle(m, changes, ops, order).model),
{
    let a = m.process_changes(changes);
    law_process_changes_agrees(m, changes);
    law_process_changes_coherent(m, changes);
    law_apply_ops_agree(a.model, ops);
    law_apply_ops_coherent(a.model, ops);
    let n = reported(m, changes, ops);
    assert(sound(n.model));
    assert(handles_kept(m, n.model));
    if n.fault is None {
        law_advance_all_agrees(n.model, order);
        law_advance_all_coherent(n.model, order);
        let end = n.model.advance_all(order).model;
        assert forall|id: AssetUuid| #[trigger] m.handles.contains_key(id) implies end.handle(id)
            == m.handle(id) by {
            assert(n.model.handle(id) == m.handle(id));
            assert(n.model.handles.contains_key(id));
        }
    }
}

/// The parts of a round in which answers are followed and requests are made keep a loader sound.
pub proof fn law_answers_sound(
    m: LoaderModel,
    metadata: Seq<(Option<MetadataResponse>, Vec<(AssetUuid, LoadHandle)>)>,
    data: Seq<(Option<DataResponse>, LoadHandle)>,
    accepted: Seq<bool>,
)
    requires
        sound(m),
    ensures
        sound(m.settle_all_metadata(metadata).model),
        sound(m.settle_all_metadata(metadata).model.requesting_all_metadata()),
        sound(m.settle_all_data(data, accepted).model),
        sound(m.settle_all_data(data, accepted).model.requesting_all_data()),
{
    law_settle_all_metadata_agrees(m, metadata);
    law_settle_all_metadata_coherent(m, metadata);
    law_requesting_agrees(m.settle_all_metadata(metadata).model);
    law_requesting_coherent(m.settle_all_metadata(metadata).model);
    law_settle_all_data_agrees(m, data, accepted);
    law_settle_all_data_coherent(m, data, accepted);
    law_requesting_agrees(m.settle_all_data(data, accepted).model);
    law_requesting_coherent(m.settle_all_data(data, accepted).model);
}

} // verus!
