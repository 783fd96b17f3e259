//! Identities: assets, asset types and loads.

use vstd::prelude::*;

verus! {

/// Identifies an asset.
pub type AssetUuid = [u8; 16];

/// Identifies the type of an asset.
pub type AssetTypeId = [u8; 16];

/// Identifies one load of an asset. Handles are given out by
/// [`HandleAllocator`](crate::data::HandleAllocator).
#[derive(Copy, Clone, PartialEq, Eq, Hash, Debug, Structural)]
pub struct LoadHandle(pub u64);

/// The identifier whose bytes are `bytes`, for sixteen bytes.
pub open spec fn array_of(bytes: Seq<u8>) -> [u8; 16] {
    choose|a: [u8; 16]| a@ == bytes
}

/// Two identifiers with the same bytes are the same identifier.
pub proof fn lemma_same_bytes(a: [u8; 16], b: [u8; 16])
    requires
        a@ == b@,
    ensures
        a == b,
{
    assert forall|i: int| 0 <= i < 16 implies a[i] == b[i] by {
        assert(a@[i] == b@[i]);
    }
    assert(a =~= b);
}

/// Copies sixteen bytes into an identifier.
pub fn make_array(bytes: &[u8]) -> (id: [u8; 16])
    requires
        bytes@.len() == 16,
    ensures
        id@ == bytes@,
        id == array_of(bytes@),
{
    let mut id = [0u8; 16];
    let mut i: usize = 0;
    while i < 16
        invariant
            i <= 16,
            bytes@.len() == 16,
            forall|j: int| 0 <= j < i ==> id@[j] == bytes@[j],
        decreases 16 - i,
    {
        id[i] = bytes[i];
        i = i + 1;
    }
    assert(id@ =~= bytes@);
    proof {
        lemma_same_bytes(id, array_of(bytes@));
    }
    id
}

/// Tells whether two identifiers are the same.
pub fn same_id(a: &[u8; 16], b: &[u8; 16]) -> (same: bool)
    ensures
        same == (a == b),
{
    let mut i: usize = 0;
    while i < 16
        invariant
            i <= 16,
            forall|j: int| 0 <= j < i ==> a@[j] == b@[j],
        decreases 16 - i,
    {
        if a[i] != b[i] {
            assert(a@[i as int] != b@[i as int]);
            return false;
        }
        i = i + 1;
    }
    assert(a@ =~= b@);
    proof {
        lemma_same_bytes(*a, *b);
    }
    true
}

/// The number that an asset's metadata is filed under: its bytes, least significant first.
pub open spec fn spec_key(id: AssetUuid) -> u128 {
    vstd::bytes::spec_u128_from_le_bytes(id@)
}

/// Different assets are filed under different numbers.
pub proof fn lemma_key_injective(a: AssetUuid, b: AssetUuid)
    requires
        spec_key(a) == spec_key(b),
    ensures
        a == b,
{
    vstd::bytes::lemma_auto_spec_u128_to_from_le_bytes();
    assert(vstd::bytes::spec_u128_to_le_bytes(spec_key(a)) == a@);
    assert(vstd::bytes::spec_u128_to_le_bytes(spec_key(b)) == b@);
    lemma_same_bytes(a, b);
}

/// The number that an asset's metadata is filed under.
pub fn asset_key(id: &AssetUuid) -> (key: u128)
    ensures
        key == spec_key(*id),
{
    vstd::bytes::u128_from_le_bytes(id.as_slice())
}

} // verus!
