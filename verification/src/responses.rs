//! What the daemon answers, as plain values.
//!
//! Each part of a message is read on its own, and may turn out to be unreadable.

use crate::fault::{Failure, Fault};
use crate::ids::{array_of, make_array, AssetUuid};
use vstd::prelude::*;

verus! {

/// A part of a message could not be read.
#[derive(Copy, Clone, PartialEq, Eq, Debug, Structural)]
pub struct DecodeError;

/// What the daemon says of one asset.
#[derive(Debug)]
pub struct AssetRecord {
    /// The asset.
    pub id: Result<Vec<u8>, DecodeError>,
    /// The assets that have to be loaded before it.
    pub load_deps: Result<Vec<Result<Vec<u8>, DecodeError>>, DecodeError>,
}

/// The answer to a request for metadata: the assets that were asked for, and their dependencies.
#[derive(Debug)]
pub struct MetadataResponse {
    /// The assets.
    pub assets: Result<Vec<AssetRecord>, DecodeError>,
}

/// An asset as the daemon stores it.
#[derive(Debug)]
pub struct SerializedAsset {
    /// The type of the asset.
    pub type_uuid: Result<Vec<u8>, DecodeError>,
    /// Its bytes.
    pub data: Result<Vec<u8>, DecodeError>,
}

/// The result of building an asset.
#[derive(Debug)]
pub struct Artifact {
    /// The built asset.
    pub data: Result<SerializedAsset, DecodeError>,
}

/// The answer to a request for the data of an asset.
#[derive(Debug)]
pub struct DataResponse {
    /// The artifacts of the asset.
    pub artifacts: Result<Vec<Artifact>, DecodeError>,
}

/// The identifier in a part of a message.
pub open spec fn id_in(part: Result<Vec<u8>, DecodeError>) -> Result<AssetUuid, Failure> {
    match part {
        Err(_) => Err(Failure::Malformed),
        Ok(bytes) => if bytes@.len() == 16 {
            Ok(array_of(bytes@))
        } else {
            Err(Failure::Fault(Fault::IdLength))
        },
    }
}

/// The identifiers in the parts of a message, or what is wrong with the first that has none.
pub open spec fn ids_in(parts: Seq<Result<Vec<u8>, DecodeError>>) -> Result<
    Seq<AssetUuid>,
    Failure,
>
    decreases parts.len(),
{
    if parts.len() == 0 {
        Ok(Seq::empty())
    } else {
        match ids_in(parts.drop_last()) {
            Err(failure) => Err(failure),
            Ok(ids) => match id_in(parts.last()) {
                Err(failure) => Err(failure),
                Ok(id) => Ok(ids.push(id)),
            },
        }
    }
}

/// Once a part has no identifier, what follows it does not matter.
pub proof fn lemma_ids_in_prefix(parts: Seq<Result<Vec<u8>, DecodeError>>, n: int)
    requires
        0 <= n <= parts.len(),
        ids_in(parts.take(n)) is Err,
    ensures
        ids_in(parts) == ids_in(parts.take(n)),
    decreases parts.len(),
{
    if n == parts.len() {
        assert(parts.take(n) =~= parts);
    } else {
        assert(parts.drop_last().take(n) =~= parts.take(n));
        lemma_ids_in_prefix(parts.drop_last(), n);
    }
}

/// Reads an identifier from a part of a message.
pub fn read_id(part: &Result<Vec<u8>, DecodeError>) -> (id: Result<AssetUuid, Failure>)
    ensures
        id == id_in(*part),
{
    match part {
        Err(_) => Err(Failure::Malformed),
        Ok(bytes) => if bytes.len() == 16 {
            Ok(make_array(bytes.as_slice()))
        } else {
            Err(Failure::Fault(Fault::IdLength))
        },
    }
}

/// Reads identifiers from parts of a message, up to the first that has none.
pub fn read_ids(parts: &Vec<Result<Vec<u8>, DecodeError>>) -> (ids: Result<
    Vec<AssetUuid>,
    Failure,
>)
    ensures
        match ids_in(parts@) {
            Ok(s) => ids matches Ok(v) && v@ == s,
            Err(failure) => ids == Err::<Vec<AssetUuid>, Failure>(failure),
        },
{
    let mut ids: Vec<AssetUuid> = Vec::new();
    let mut i: usize = 0;
    assert(parts@.take(0) =~= Seq::empty());
    while i < parts.len()
        invariant
            i <= parts.len(),
            ids_in(parts@.take(i as int)) == Ok::<Seq<AssetUuid>, Failure>(ids@),
        decreases parts.len() - i,
    {
        let ghost upto = parts@.take(i as int + 1);
        assert(upto.drop_last() =~= parts@.take(i as int));
        assert(upto.last() == parts@[i as int]);
        match read_id(&parts[i]) {
            Ok(id) => {
                ids.push(id);
            },
            Err(failure) => {
                proof {
                    lemma_ids_in_prefix(parts@, i as int + 1);
                }
                return Err(failure);
            },
        }
        i = i + 1;
    }
    assert(parts@.take(i as int) =~= parts@);
    Ok(ids)
}

} // verus!
