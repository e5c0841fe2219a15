//! The names by which entities and invocations are known.

use vstd::prelude::*;
use crate::errors::ConversionError;
use crate::fixed::{be_bytes, be_value, lemma_be_len, lemma_be_roundtrip, lemma_u64_fits, read_u64,
    write_u64};

verus! {

/// The number that assigns an entity, and every row about it, to a partition.
pub type PartitionKey = u64;

/// The identity of a virtual object: its service, its key within the
/// service, and the partition key that was derived from them.
#[derive(Clone, Debug, PartialEq, Eq)]
pub struct ServiceId {
    pub partition_key: PartitionKey,
    pub service_name: String,
    pub key: Vec<u8>,
}

/// A [`ServiceId`] as plain values.
pub struct ServiceIdView {
    pub partition_key: PartitionKey,
    pub service_name: Seq<char>,
    pub key: Seq<u8>,
}

impl View for ServiceId {
    type V = ServiceIdView;

    open spec fn view(&self) -> ServiceIdView {
        ServiceIdView {
            partition_key: self.partition_key,
            service_name: self.service_name@,
            key: self.key@,
        }
    }
}

impl ServiceId {
    /// The identity with the given partition key.
    pub fn with_partition_key(partition_key: PartitionKey, service_name: String, key: Vec<u8>) -> (id: Self)
        ensures
            id@ == (ServiceIdView { partition_key, service_name: service_name@, key: key@ }),
    {
        ServiceId { partition_key, service_name, key }
    }

    /// The partition that the entity belongs to.
    pub fn partition_key(&self) -> (partition_key: PartitionKey)
        ensures
            partition_key == self@.partition_key,
    {
        self.partition_key
    }
}

/// The identity of one invocation: the partition key of its target and a
/// number that is unique among all invocations.
#[derive(Clone, Copy, Debug, PartialEq, Eq, Structural)]
pub struct InvocationId {
    pub partition_key: PartitionKey,
    pub invocation_uuid: u128,
}

/// The width of an encoded invocation id.
pub const INVOCATION_ID_LEN: usize = 24;

/// Two to the power of 64: what separates the halves of a 128-bit number.
pub open spec fn half() -> nat {
    0x1_0000_0000_0000_0000
}

/// The 24 bytes of an invocation id: the partition key, then the unique
/// number, both with the most significant byte first.
pub open spec fn invocation_id_bytes(id: InvocationId) -> Seq<u8> {
    be_bytes(id.partition_key as nat, 8) + be_bytes(id.invocation_uuid as nat / half(), 8)
        + be_bytes(id.invocation_uuid as nat % half(), 8)
}

/// The invocation id that 24 bytes hold, or the error for any other width.
pub open spec fn invocation_id_from(bytes: Seq<u8>) -> Result<InvocationId, ConversionError> {
    if bytes.len() != 24 {
        Err(ConversionError::InvalidData)
    } else {
        Ok(
            InvocationId {
                partition_key: be_value(bytes.subrange(0, 8)) as u64,
                invocation_uuid: (be_value(bytes.subrange(8, 16)) * half() + be_value(
                    bytes.subrange(16, 24),
                )) as u128,
            },
        )
    }
}

/// An invocation id is read back from its bytes.
pub proof fn lemma_invocation_id_roundtrip(id: InvocationId)
    ensures
        invocation_id_bytes(id).len() == 24,
        invocation_id_from(invocation_id_bytes(id)) == Ok::<InvocationId, ConversionError>(id),
{
    let p = id.partition_key as nat;
    let high = id.invocation_uuid as nat / half();
    let low = id.invocation_uuid as nat % half();
    lemma_be_len(p, 8);
    lemma_be_len(high, 8);
    lemma_be_len(low, 8);
    lemma_u64_fits(p);
    lemma_u64_fits(high);
    lemma_u64_fits(low);
    lemma_be_roundtrip(p, 8);
    lemma_be_roundtrip(high, 8);
    lemma_be_roundtrip(low, 8);
    let bytes = invocation_id_bytes(id);
    assert(bytes.subrange(0, 8) =~= be_bytes(p, 8));
    assert(bytes.subrange(8, 16) =~= be_bytes(high, 8));
    assert(bytes.subrange(16, 24) =~= be_bytes(low, 8));
}

impl InvocationId {
    /// The id of the invocation `invocation_uuid` on partition `partition_key`.
    pub fn new(partition_key: PartitionKey, invocation_uuid: u128) -> (id: Self)
        ensures
            id == (InvocationId { partition_key, invocation_uuid }),
    {
        InvocationId { partition_key, invocation_uuid }
    }

    /// The 24 bytes of the id.
    pub fn to_bytes(&self) -> (bytes: Vec<u8>)
        ensures
            bytes@ == invocation_id_bytes(*self),
    {
        let mut bytes: Vec<u8> = Vec::new();
        write_u64(self.partition_key, &mut bytes);
        let high: u64 = (self.invocation_uuid / 0x1_0000_0000_0000_0000) as u64;
        let low: u64 = (self.invocation_uuid % 0x1_0000_0000_0000_0000) as u64;
        write_u64(high, &mut bytes);
        write_u64(low, &mut bytes);
        proof {
            assert(bytes@ =~= invocation_id_bytes(*self));
        }
        bytes
    }

    /// The id that `bytes` hold, where there are 24 of them.
    pub fn from_slice(bytes: &[u8]) -> (r: Result<InvocationId, ConversionError>)
        ensures
            r == invocation_id_from(bytes@),
    {
        if bytes.len() != INVOCATION_ID_LEN {
            return Err(ConversionError::InvalidData);
        }
        match read_u64(bytes) {
            Err(_) => Err(ConversionError::InvalidData),
            Ok((partition_key, rest)) => match read_u64(rest) {
                Err(_) => Err(ConversionError::InvalidData),
                Ok((high, rest)) => match read_u64(rest) {
                    Err(_) => Err(ConversionError::InvalidData),
                    Ok((low, _)) => {
                        proof {
                            assert(bytes@.take(8) =~= bytes@.subrange(0, 8));
                            assert(bytes@.skip(8).take(8) =~= bytes@.subrange(8, 16));
                            assert(bytes@.skip(8).skip(8).take(8) =~= bytes@.subrange(16, 24));
                        }
                        let invocation_uuid: u128 = (high as u128) * 0x1_0000_0000_0000_0000
                            + (low as u128);
                        Ok(InvocationId { partition_key, invocation_uuid })
                    },
                },
            },
        }
    }
}

} // verus!
