//! What is read from the daemon's messages is what stands in them.

use crate::data::LoaderData;
use crate::fault::{Failure, Fault};
use crate::ids::{
    array_of, asset_key, lemma_key_injective, lemma_same_bytes, make_array, same_id, AssetUuid,
};
use crate::laws::lookups::same_surroundings;
use crate::model::LoaderModel;
use crate::responses::{id_in, ids_in, read_id, read_ids, AssetRecord, DecodeError};
use vstd::prelude::*;

verus! {

/// A part of a message, readable or not.
pub type Part = Result<Vec<u8>, DecodeError>;

/// Whether a part of a message holds an identifier: it can be read, and has sixteen bytes.
pub open spec fn holds_id(part: Part) -> bool {
    part is Ok && part->Ok_0@.len() == 16
}

/// Whether `failure` is what is wrong with a part of a message that holds no identifier: it cannot
/// be read, or it has the wrong length, which stops the loader.
pub open spec fn is_wrong_with(part: Part, failure: Failure) -> bool {
    if part is Err {
        failure is Malformed
    } else {
        failure == Failure::Fault(Fault::IdLength)
    }
}

/// An identifier is read exactly from a part that can be read and has sixteen bytes, and has these
/// bytes.
pub proof fn law_identifier_has_the_bytes_of_its_part(part: &Part, id: Result<AssetUuid, Failure>)
    requires
        call_ensures(read_id, (part,), id),
    ensures
        id is Ok <==> holds_id(*part),
        id matches Ok(read) ==> read@ == part->Ok_0@,
        id matches Err(failure) ==> is_wrong_with(*part, failure),
{
    if holds_id(*part) {
        lemma_array_of(part->Ok_0@);
    }
}

/// There is an identifier for any sixteen bytes.
pub proof fn lemma_array_of(bytes: Seq<u8>)
    requires
        bytes.len() == 16,
    ensures
        array_of(bytes)@ == bytes,
{
    let a: [u8; 16] = [
        bytes[0], bytes[1], bytes[2], bytes[3], bytes[4], bytes[5], bytes[6], bytes[7],
        bytes[8], bytes[9], bytes[10], bytes[11], bytes[12], bytes[13], bytes[14], bytes[15],
    ];
    assert(a@ =~= bytes);
}

/// Whether `ids` are the identifiers in `parts`: as many, in the same order, each with the bytes of
/// its part.
pub open spec fn reads_as(parts: Seq<Part>, ids: Seq<AssetUuid>) -> bool {
    &&& ids.len() == parts.len()
    &&& forall|i: int|
        0 <= i < parts.len() ==> holds_id(#[trigger] parts[i]) && ids[i]@ == parts[i]->Ok_0@
}

/// Whether `failure` is what is wrong with the first of `parts` that holds no identifier.
pub open spec fn first_wrong(parts: Seq<Part>, failure: Failure) -> bool {
    exists|i: int|
        {
            &&& 0 <= i < parts.len()
            &&& !holds_id(#[trigger] parts[i])
            &&& is_wrong_with(parts[i], failure)
            &&& forall|j: int| 0 <= j < i ==> holds_id(#[trigger] parts[j])
        }
}

/// What [`ids_in`] gives are the identifiers in the parts.
pub proof fn lemma_ids_in(parts: Seq<Part>)
    ensures
        match ids_in(parts) {
            Ok(ids) => reads_as(parts, ids),
            Err(failure) => first_wrong(parts, failure),
        },
    decreases parts.len(),
{
    if parts.len() > 0 {
        let front = parts.drop_last();
        let last = parts.len() - 1;
        lemma_ids_in(front);
        match ids_in(front) {
            Ok(ids) => {
                assert forall|i: int| 0 <= i < last implies holds_id(#[trigger] parts[i])
                    && ids[i]@ == parts[i]->Ok_0@ by {
                    assert(front[i] == parts[i]);
                }
                assert(parts[last] == parts.last());
                if holds_id(parts[last]) {
                    lemma_array_of(parts[last]->Ok_0@);
                } else {
                    assert(is_wrong_with(parts[last], id_in(parts[last])->Err_0));
                }
            },
            Err(failure) => {
                let i = choose|i: int|
                    {
                        &&& 0 <= i < front.len()
                        &&& !holds_id(#[trigger] front[i])
                        &&& is_wrong_with(front[i], failure)
                        &&& forall|j: int| 0 <= j < i ==> holds_id(#[trigger] front[j])
                    };
                assert(parts[i] == front[i]);
                assert forall|j: int| 0 <= j < i implies holds_id(#[trigger] parts[j]) by {
                    assert(front[j] == parts[j]);
                }
            },
        }
    }
}

/// All identifiers in the parts of a message are read: as many as there are parts, in their order,
/// each with the bytes of its part. They are read exactly if every part holds one; otherwise what
/// is wrong is what is wrong with the first that does not.
pub proof fn law_identifiers_are_all_read(
    parts: &Vec<Part>,
    ids: Result<Vec<AssetUuid>, Failure>,
)
    requires
        call_ensures(read_ids, (parts,), ids),
    ensures
        ids is Ok <==> forall|i: int| 0 <= i < parts@.len() ==> holds_id(#[trigger] parts@[i]),
        ids matches Ok(read) ==> reads_as(parts@, read@),
        ids matches Err(failure) ==> first_wrong(parts@, failure),
{
    lemma_ids_in(parts@);
}

/// The dependencies that are noted for an asset are those that its record names, all of them and in
/// their order, and nothing else changes. They are noted exactly if each can be read; otherwise
/// nothing changes at all.
pub proof fn law_dependencies_are_noted_as_named(
    data: &mut LoaderData,
    id: &AssetUuid,
    record: &AssetRecord,
    done: Result<(), Failure>,
)
    requires
        call_ensures(LoaderData::update_asset_metadata, (data, id, record), done),
    ensures
        done is Ok <==> record.load_deps is Ok && forall|i: int|
            0 <= i < record.load_deps->Ok_0@.len() ==> holds_id(
                #[trigger] record.load_deps->Ok_0@[i],
            ),
        done is Ok ==> {
            let m = old(data)@;
            let n = final(data)@;
            &&& n.metadata.contains_key(*id)
            &&& reads_as(record.load_deps->Ok_0@, n.metadata[*id])
            &&& forall|other: AssetUuid|
                other != *id ==> (#[trigger] n.metadata.contains_key(other)
                    <==> m.metadata.contains_key(other)) && (m.metadata.contains_key(other)
                    ==> n.metadata[other] == m.metadata[other])
            &&& n.loads == m.loads && n.handles == m.handles && n.next_handle == m.next_handle
            &&& same_surroundings(LoaderModel { metadata: n.metadata, ..m }, n)
        },
        done matches Err(failure) ==> final(data)@ == old(data)@ && if record.load_deps is Err {
            failure is Malformed
        } else {
            first_wrong(record.load_deps->Ok_0@, failure)
        },
{
    if record.load_deps is Ok {
        lemma_ids_in(record.load_deps->Ok_0@);
    }
}

/// Sixteen bytes make the identifier with these bytes.
pub proof fn law_array_has_the_bytes(bytes: &[u8], id: [u8; 16])
    requires
        bytes@.len() == 16,
        call_ensures(make_array, (bytes,), id),
    ensures
        id@ == bytes@,
{
}

/// Two identifiers are the same exactly if they have the same bytes.
pub proof fn law_same_identifiers_have_the_same_bytes(a: &[u8; 16], b: &[u8; 16], same: bool)
    requires
        call_ensures(same_id, (a, b), same),
    ensures
        same <==> a@ == b@,
{
    if a@ == b@ {
        lemma_same_bytes(*a, *b);
    }
}

/// Metadata of different assets is filed under different numbers.
pub proof fn law_assets_have_numbers_of_their_own(a: &AssetUuid, b: &AssetUuid, x: u128, y: u128)
    requires
        call_ensures(asset_key, (a,), x),
        call_ensures(asset_key, (b,), y),
    ensures
        x == y <==> a@ == b@,
{
    if x == y {
        lemma_key_injective(*a, *b);
    }
    if a@ == b@ {
        lemma_same_bytes(*a, *b);
    }
}

} // verus!
