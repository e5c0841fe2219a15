use bytes::{Buf, BufMut};
use partition_store::wire::{StoredLocked, StoredVirtualObjectStatus};
use prost::encoding::{DecodeContext, WireType};
use prost::{DecodeError, Message};

/// The lock message, read and written by `prost`.
#[derive(Debug, Default, PartialEq)]
struct ReferenceLocked {
    invocation_id: Vec<u8>,
}

impl Message for ReferenceLocked {
    fn encode_raw<B>(&self, buf: &mut B)
    where
        B: BufMut,
    {
        if !self.invocation_id.is_empty() {
            prost::encoding::bytes::encode(1, &self.invocation_id, buf);
        }
    }

    fn merge_field<B>(
        &mut self,
        tag: u32,
        wire_type: WireType,
        buf: &mut B,
        ctx: DecodeContext,
    ) -> Result<(), DecodeError>
    where
        B: Buf,
    {
        if tag == 1 {
            prost::encoding::bytes::merge(wire_type, &mut self.invocation_id, buf, ctx)
        } else {
            prost::encoding::skip_field(wire_type, tag, buf, ctx)
        }
    }

    fn encoded_len(&self) -> usize {
        if self.invocation_id.is_empty() {
            0
        } else {
            prost::encoding::bytes::encoded_len(1, &self.invocation_id)
        }
    }

    fn clear(&mut self) {
        self.invocation_id.clear();
    }
}

/// The status message, read and written by `prost`.
#[derive(Debug, Default, PartialEq)]
struct ReferenceStatus {
    locked: Option<ReferenceLocked>,
}

impl Message for ReferenceStatus {
    fn encode_raw<B>(&self, buf: &mut B)
    where
        B: BufMut,
    {
        if let Some(locked) = &self.locked {
            prost::encoding::message::encode(1, locked, buf);
        }
    }

    fn merge_field<B>(
        &mut self,
        tag: u32,
        wire_type: WireType,
        buf: &mut B,
        ctx: DecodeContext,
    ) -> Result<(), DecodeError>
    where
        B: Buf,
    {
        if tag == 1 {
            let locked = self.locked.get_or_insert_with(ReferenceLocked::default);
            prost::encoding::message::merge(wire_type, locked, buf, ctx)
        } else {
            prost::encoding::skip_field(wire_type, tag, buf, ctx)
        }
    }

    fn encoded_len(&self) -> usize {
        match &self.locked {
            Some(locked) => prost::encoding::message::encoded_len(1, locked),
            None => 0,
        }
    }

    fn clear(&mut self) {
        self.locked = None;
    }
}

fn reference(bytes: &[u8]) -> Option<Option<Vec<u8>>> {
    match ReferenceStatus::decode(bytes) {
        Ok(status) => Some(status.locked.map(|locked| locked.invocation_id)),
        Err(_) => None,
    }
}

fn ours(bytes: &[u8]) -> Option<Option<Vec<u8>>> {
    match StoredVirtualObjectStatus::decode(bytes) {
        Ok(status) => Some(status.locked.map(|locked| locked.invocation_id)),
        Err(_) => None,
    }
}

#[test]
fn every_short_message_is_read_as_prost_reads_it() {
    assert_eq!(ours(&[]), reference(&[]));
    for a in 0..=255u8 {
        assert_eq!(ours(&[a]), reference(&[a]), "input {:?}", [a]);
        for b in 0..=255u8 {
            assert_eq!(ours(&[a, b]), reference(&[a, b]), "input {:?}", [a, b]);
        }
    }
}

const ALPHABET: [u8; 32] = [
    0x00, 0x01, 0x02, 0x03, 0x04, 0x05, 0x08, 0x09, 0x0A, 0x0B, 0x0C, 0x0D, 0x0E, 0x10, 0x12, 0x13,
    0x14, 0x15, 0x18, 0x19, 0x1A, 0x1B, 0x1C, 0x1D, 0x22, 0x2B, 0x2C, 0x7F, 0x80, 0x81, 0xFF, 0x0A,
];

fn next(state: &mut u64) -> u64 {
    *state ^= *state << 13;
    *state ^= *state >> 7;
    *state ^= *state << 17;
    *state
}

#[test]
fn messages_of_field_headers_are_read_as_prost_reads_them() {
    let mut state = 0x9E37_79B9_7F4A_7C15u64;
    let mut accepted = 0;
    for _ in 0..200_000 {
        let len = (next(&mut state) % 12) as usize;
        let bytes: Vec<u8> =
            (0..len).map(|_| ALPHABET[(next(&mut state) % 32) as usize]).collect();
        let expected = reference(&bytes);
        assert_eq!(ours(&bytes), expected, "input {:?}", bytes);
        if expected.is_some() {
            accepted += 1;
        }
    }
    assert!(accepted > 1000);
}

#[test]
fn deep_groups_are_read_as_prost_reads_them() {
    for depth in [1usize, 2, 98, 99, 100, 101, 102] {
        for inside in [&[][..], &[0x08, 0x01][..], &[0x0A, 0x00][..]] {
            let mut group = vec![0x13; depth];
            group.extend_from_slice(inside);
            group.extend(std::iter::repeat(0x14).take(depth));
            assert_eq!(ours(&group), reference(&group), "depth {} inside {:?}", depth, inside);
            let mut lock = vec![0x0A];
            prost::encoding::encode_varint(group.len() as u64, &mut lock);
            lock.extend_from_slice(&group);
            assert_eq!(ours(&lock), reference(&lock), "depth {} in a lock", depth);
        }
    }
}

#[test]
fn messages_are_written_as_prost_writes_them() {
    for invocation_id in [vec![], vec![7], vec![1; 24], vec![9; 200]] {
        let ours = StoredVirtualObjectStatus {
            locked: Some(StoredLocked { invocation_id: invocation_id.clone() }),
        };
        let reference = ReferenceStatus { locked: Some(ReferenceLocked { invocation_id }) };
        assert_eq!(ours.encode_to_vec(), reference.encode_to_vec());
    }
    let ours = StoredVirtualObjectStatus { locked: None };
    assert_eq!(ours.encode_to_vec(), ReferenceStatus::default().encode_to_vec());
}
