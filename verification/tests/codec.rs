use partition_store::errors::{CodecError, ConversionError, StorageError};
use partition_store::fixed::{read_u64, write_u64};
use partition_store::identifiers::InvocationId;
use partition_store::keys::{read_delimited, write_delimited, ServiceStatusKey, TableKey, TableKind};
use partition_store::status::VirtualObjectStatus;
use partition_store::varint::{read_varint, write_varint};
use partition_store::wire::{decode_status, encode_status, pass_field, read_field_key, StoredLocked,
    StoredVirtualObjectStatus, WireType, RECURSION_LIMIT};

fn varint(value: u64) -> Vec<u8> {
    let mut out = Vec::new();
    write_varint(value, &mut out);
    out
}

#[test]
fn varint_of_small_numbers_is_one_byte() {
    assert_eq!(varint(0), vec![0]);
    assert_eq!(varint(1), vec![1]);
    assert_eq!(varint(127), vec![127]);
}

#[test]
fn varint_of_larger_numbers() {
    assert_eq!(varint(128), vec![0x80, 0x01]);
    assert_eq!(varint(300), vec![0xAC, 0x02]);
    assert_eq!(varint(16384), vec![0x80, 0x80, 0x01]);
    assert_eq!(
        varint(u64::MAX),
        vec![0xFF, 0xFF, 0xFF, 0xFF, 0xFF, 0xFF, 0xFF, 0xFF, 0xFF, 0x01]
    );
}

#[test]
fn varint_is_appended_to_what_is_there() {
    let mut out = vec![7, 8];
    write_varint(300, &mut out);
    assert_eq!(out, vec![7, 8, 0xAC, 0x02]);
}

#[test]
fn varint_is_read_back_and_leaves_the_rest() {
    let bytes = [0xAC, 0x02, 9, 9];
    let (value, rest) = read_varint(&bytes).unwrap();
    assert_eq!(value, 300);
    assert_eq!(rest, &[9, 9]);
    for value in [0u64, 1, 127, 128, 255, 256, 1 << 32, u64::MAX - 1, u64::MAX] {
        let bytes = varint(value);
        let (read, rest) = read_varint(&bytes).unwrap();
        assert_eq!(read, value);
        assert!(rest.is_empty());
    }
}

#[test]
fn varint_with_padding_is_accepted() {
    let bytes = [0x80, 0x00, 5];
    let (value, rest) = read_varint(&bytes).unwrap();
    assert_eq!(value, 0);
    assert_eq!(rest, &[5]);
}

#[test]
fn varint_that_is_cut_or_too_long_is_rejected() {
    assert_eq!(read_varint(&[]), Err(CodecError::InvalidVarint));
    assert_eq!(read_varint(&[0x80]), Err(CodecError::InvalidVarint));
    assert_eq!(read_varint(&[0xFF, 0xFF]), Err(CodecError::InvalidVarint));
    let overflow = [0xFF, 0xFF, 0xFF, 0xFF, 0xFF, 0xFF, 0xFF, 0xFF, 0xFF, 0x02];
    assert_eq!(read_varint(&overflow), Err(CodecError::InvalidVarint));
    let eleven = [0x80, 0x80, 0x80, 0x80, 0x80, 0x80, 0x80, 0x80, 0x80, 0x80, 0x01];
    assert_eq!(read_varint(&eleven), Err(CodecError::InvalidVarint));
    let ten = [0x80, 0x80, 0x80, 0x80, 0x80, 0x80, 0x80, 0x80, 0x80, 0x01];
    assert_eq!(read_varint(&ten).unwrap().0, 1 << 63);
}

#[test]
fn u64_is_written_most_significant_byte_first() {
    let mut out = Vec::new();
    write_u64(0x0102_0304_0506_0708, &mut out);
    assert_eq!(out, vec![1, 2, 3, 4, 5, 6, 7, 8]);
    let mut out = vec![9];
    write_u64(5, &mut out);
    assert_eq!(out, vec![9, 0, 0, 0, 0, 0, 0, 0, 5]);
}

#[test]
fn u64_is_read_back() {
    let bytes = [0xFF, 0xFF, 0xFF, 0xFF, 0xFF, 0xFF, 0xFF, 0xFF, 1, 2];
    let (value, rest) = read_u64(&bytes).unwrap();
    assert_eq!(value, u64::MAX);
    assert_eq!(rest, &[1, 2]);
    assert_eq!(read_u64(&[0, 0, 0, 0, 0, 0, 0]), Err(CodecError::BufferUnderflow));
}

#[test]
fn delimited_bytes_stand_behind_their_length() {
    let mut out = Vec::new();
    write_delimited(&[1, 2, 3], &mut out);
    assert_eq!(out, vec![3, 1, 2, 3]);
    let (data, rest) = read_delimited(&[2, 7, 8, 9]).unwrap();
    assert_eq!(data, &[7, 8]);
    assert_eq!(rest, &[9]);
    assert_eq!(read_delimited(&[3, 1, 2]), Err(CodecError::BufferUnderflow));
    assert_eq!(read_delimited(&[0x80]), Err(CodecError::InvalidVarint));
}

fn sample_key() -> ServiceStatusKey {
    ServiceStatusKey::default()
        .partition_key(5)
        .service_name("svc".to_string())
        .service_key(vec![1, 2])
}

#[test]
fn key_bytes_are_the_fields_in_order() {
    assert_eq!(
        sample_key().serialize(),
        vec![0, 0, 0, 0, 0, 0, 0, 5, 3, b's', b'v', b'c', 2, 1, 2]
    );
    assert_eq!(ServiceStatusKey::table(), TableKind::ServiceStatus);
}

#[test]
fn key_prefix_holds_only_its_leading_fields() {
    let prefix = ServiceStatusKey::default().partition_key(0x0100);
    assert!(!prefix.is_complete());
    assert_eq!(prefix.serialize(), vec![0, 0, 0, 0, 0, 0, 1, 0]);
    let prefix = prefix.service_name("a".to_string());
    assert_eq!(prefix.serialize(), vec![0, 0, 0, 0, 0, 0, 1, 0, 1, b'a']);
    assert_eq!(ServiceStatusKey::default().serialize(), Vec::<u8>::new());
}

#[test]
fn key_roundtrip() {
    let key = sample_key();
    assert!(key.is_complete());
    assert_eq!(ServiceStatusKey::deserialize_from(&key.serialize()), Ok(key));
    let long_name = "n".repeat(300);
    let key = ServiceStatusKey::default()
        .partition_key(u64::MAX)
        .service_name(long_name)
        .service_key(vec![]);
    assert_eq!(ServiceStatusKey::deserialize_from(&key.serialize()), Ok(key));
    let key = ServiceStatusKey::default().partition_key(9).service_name("grüße".to_string());
    assert_eq!(ServiceStatusKey::deserialize_from(&key.serialize()), Ok(key));
    let key = ServiceStatusKey::default();
    assert_eq!(ServiceStatusKey::deserialize_from(&[]), Ok(key));
}

#[test]
fn key_that_is_cut_is_rejected() {
    let bytes = sample_key().serialize();
    assert_eq!(
        ServiceStatusKey::deserialize_from(&bytes[..5]),
        Err(StorageError::Generic(CodecError::BufferUnderflow))
    );
    assert_eq!(
        ServiceStatusKey::deserialize_from(&bytes[..10]),
        Err(StorageError::Generic(CodecError::BufferUnderflow))
    );
    assert_eq!(
        ServiceStatusKey::deserialize_from(&bytes[..14]),
        Err(StorageError::Generic(CodecError::BufferUnderflow))
    );
    let mut bad_length = bytes[..8].to_vec();
    bad_length.push(0x80);
    assert_eq!(
        ServiceStatusKey::deserialize_from(&bad_length),
        Err(StorageError::Generic(CodecError::InvalidVarint))
    );
}

#[test]
fn key_with_trailing_bytes_is_rejected() {
    let mut bytes = sample_key().serialize();
    bytes.push(0);
    assert_eq!(
        ServiceStatusKey::deserialize_from(&bytes),
        Err(StorageError::Generic(CodecError::TrailingBytes))
    );
}

#[test]
fn key_with_a_name_that_is_not_utf8_is_rejected() {
    let bytes = vec![0, 0, 0, 0, 0, 0, 0, 5, 2, 0xC3, 0x28, 0];
    assert_eq!(
        ServiceStatusKey::deserialize_from(&bytes),
        Err(StorageError::Generic(CodecError::InvalidUtf8))
    );
    let bytes = vec![0, 0, 0, 0, 0, 0, 0, 5, 1, 0xFF];
    assert_eq!(
        ServiceStatusKey::deserialize_from(&bytes),
        Err(StorageError::Generic(CodecError::InvalidUtf8))
    );
}

fn sample_invocation() -> InvocationId {
    InvocationId::new(5, 0x0102_0304_0506_0708_090A_0B0C_0D0E_0F10)
}

#[test]
fn invocation_id_bytes() {
    let bytes = sample_invocation().to_bytes();
    assert_eq!(
        bytes,
        vec![0, 0, 0, 0, 0, 0, 0, 5, 1, 2, 3, 4, 5, 6, 7, 8, 9, 10, 11, 12, 13, 14, 15, 16]
    );
    assert_eq!(InvocationId::from_slice(&bytes), Ok(sample_invocation()));
    let extreme = InvocationId::new(u64::MAX, u128::MAX);
    assert_eq!(InvocationId::from_slice(&extreme.to_bytes()), Ok(extreme));
    assert_eq!(InvocationId::from_slice(&bytes[..23]), Err(ConversionError::InvalidData));
    assert_eq!(InvocationId::from_slice(&[]), Err(ConversionError::InvalidData));
}

#[test]
fn locked_status_bytes() {
    let bytes = encode_status(VirtualObjectStatus::Locked(sample_invocation()));
    let mut expected = vec![0x0A, 26, 0x0A, 24];
    expected.extend_from_slice(&sample_invocation().to_bytes());
    assert_eq!(bytes, expected);
}

#[test]
fn locked_status_roundtrip() {
    for id in [sample_invocation(), InvocationId::new(0, 0), InvocationId::new(u64::MAX, u128::MAX)] {
        let status = VirtualObjectStatus::Locked(id);
        assert_eq!(decode_status(&encode_status(status)), Ok(status));
    }
}

#[test]
fn unlocked_status_has_no_stored_form() {
    let bytes = encode_status(VirtualObjectStatus::Unlocked);
    assert!(bytes.is_empty());
    assert_eq!(
        decode_status(&bytes),
        Err(StorageError::Conversion(ConversionError::MissingField))
    );
    assert_eq!(VirtualObjectStatus::default(), VirtualObjectStatus::Unlocked);
}

#[test]
fn status_with_an_id_of_another_width_is_not_recognised() {
    let stored = StoredVirtualObjectStatus { locked: Some(StoredLocked { invocation_id: vec![1, 2, 3] }) };
    let bytes = stored.encode_to_vec();
    assert_eq!(bytes, vec![0x0A, 5, 0x0A, 3, 1, 2, 3]);
    assert_eq!(
        decode_status(&bytes),
        Err(StorageError::Conversion(ConversionError::InvalidData))
    );
    let empty = StoredVirtualObjectStatus { locked: Some(StoredLocked { invocation_id: vec![] }) };
    assert_eq!(empty.encode_to_vec(), vec![0x0A, 0]);
    assert_eq!(
        decode_status(&[0x0A, 0]),
        Err(StorageError::Conversion(ConversionError::InvalidData))
    );
}

#[test]
fn unknown_fields_are_passed_over() {
    let status = VirtualObjectStatus::Locked(sample_invocation());
    // field 2 as a varint, field 3 as eight bytes, field 4 delimited, field 5 as four bytes
    let mut bytes = vec![0x10, 0x96, 0x01];
    bytes.extend_from_slice(&[0x19, 1, 2, 3, 4, 5, 6, 7, 8]);
    bytes.extend_from_slice(&encode_status(status));
    bytes.extend_from_slice(&[0x22, 2, 9, 9]);
    bytes.extend_from_slice(&[0x2D, 1, 2, 3, 4]);
    assert_eq!(decode_status(&bytes), Ok(status));
}

#[test]
fn later_lock_fields_are_merged_into_earlier_ones() {
    let first = VirtualObjectStatus::Locked(sample_invocation());
    let second = VirtualObjectStatus::Locked(InvocationId::new(6, 77));
    let mut bytes = encode_status(first);
    bytes.extend_from_slice(&encode_status(second));
    assert_eq!(decode_status(&bytes), Ok(second));
    // an empty lock message behind a lock leaves the lock as it is
    let mut bytes = encode_status(first);
    bytes.extend_from_slice(&[0x0A, 0]);
    assert_eq!(decode_status(&bytes), Ok(first));
}

#[test]
fn malformed_status_bytes_are_decode_errors() {
    assert_eq!(decode_status(&[0xFF]), Err(StorageError::Generic(CodecError::InvalidVarint)));
    // field number zero
    assert_eq!(decode_status(&[0x02, 0]), Err(StorageError::Generic(CodecError::InvalidFieldKey)));
    // a header beyond 32 bits
    assert_eq!(
        decode_status(&[0x82, 0x80, 0x80, 0x80, 0x10, 0]),
        Err(StorageError::Generic(CodecError::InvalidFieldKey))
    );
    // wire types 6 and 7
    for header in [0x0Eu8, 0x0F, 0x16, 0x17] {
        assert_eq!(
            decode_status(&[header, 0]),
            Err(StorageError::Generic(CodecError::InvalidWireType))
        );
    }
    // field 1 as a varint, as a group, as an end marker
    for header in [0x08u8, 0x0B, 0x0C] {
        assert_eq!(
            decode_status(&[header, 1]),
            Err(StorageError::Generic(CodecError::UnexpectedWireType))
        );
    }
    // a length beyond the input
    assert_eq!(
        decode_status(&[0x0A, 5, 1]),
        Err(StorageError::Generic(CodecError::BufferUnderflow))
    );
    // a fixed-width field that is cut
    assert_eq!(
        decode_status(&[0x19, 1, 2]),
        Err(StorageError::Generic(CodecError::BufferUnderflow))
    );
    assert_eq!(
        decode_status(&[0x2D, 1, 2, 3]),
        Err(StorageError::Generic(CodecError::BufferUnderflow))
    );
    // a corrupt lock inside a well-formed field
    assert_eq!(
        decode_status(&[0x0A, 2, 0x10, 0x80]),
        Err(StorageError::Generic(CodecError::InvalidVarint))
    );
    assert_eq!(
        decode_status(&[0x0A, 2, 0x08, 0x01]),
        Err(StorageError::Generic(CodecError::UnexpectedWireType))
    );
}

#[test]
fn unknown_groups_are_passed_over() {
    let status = VirtualObjectStatus::Locked(sample_invocation());
    // group 2 with a varint field 1 and an empty group 3 inside
    let mut bytes = vec![0x13, 0x08, 0x01, 0x1B, 0x1C, 0x14];
    bytes.extend_from_slice(&encode_status(status));
    // an empty group 5 behind the lock
    bytes.extend_from_slice(&[0x2B, 0x2C]);
    assert_eq!(decode_status(&bytes), Ok(status));
    // a group inside the lock message
    let mut lock = vec![0x13, 0x12, 1, 9, 0x14, 0x0A, 24];
    lock.extend_from_slice(&sample_invocation().to_bytes());
    let mut bytes = vec![0x0A, lock.len() as u8];
    bytes.extend_from_slice(&lock);
    assert_eq!(decode_status(&bytes), Ok(status));
}

#[test]
fn groups_that_are_not_closed_as_they_were_opened_are_decode_errors() {
    // an end marker with another field number
    assert_eq!(
        decode_status(&[0x13, 0x1C]),
        Err(StorageError::Generic(CodecError::UnexpectedEndGroup))
    );
    // an end marker that closes nothing
    assert_eq!(decode_status(&[0x14]), Err(StorageError::Generic(CodecError::UnexpectedEndGroup)));
    // groups closed in the wrong order
    assert_eq!(
        decode_status(&[0x13, 0x1B, 0x14, 0x1C]),
        Err(StorageError::Generic(CodecError::UnexpectedEndGroup))
    );
    // a group that is never closed
    assert_eq!(decode_status(&[0x13]), Err(StorageError::Generic(CodecError::InvalidVarint)));
    assert_eq!(
        decode_status(&[0x13, 0x08, 0x01]),
        Err(StorageError::Generic(CodecError::InvalidVarint))
    );
    // a field inside a group that is cut
    assert_eq!(
        decode_status(&[0x13, 0x19, 1, 2, 0x14]),
        Err(StorageError::Generic(CodecError::BufferUnderflow))
    );
}

fn nested_groups(depth: usize, inside: &[u8]) -> Vec<u8> {
    let mut bytes = vec![0x13; depth];
    bytes.extend_from_slice(inside);
    bytes.extend(std::iter::repeat(0x14).take(depth));
    bytes
}

fn wrapped_in_lock(lock: &[u8]) -> Vec<u8> {
    let mut bytes = vec![0x0A];
    write_varint(lock.len() as u64, &mut bytes);
    bytes.extend_from_slice(lock);
    bytes
}

#[test]
fn groups_are_followed_to_a_limit() {
    assert_eq!(RECURSION_LIMIT, 100);
    let decode = |bytes: &[u8]| StoredVirtualObjectStatus::decode(bytes).map(|stored| stored.locked.is_some());
    assert_eq!(decode(&nested_groups(100, &[])), Ok(false));
    assert_eq!(decode(&nested_groups(99, &[0x08, 0x01])), Ok(false));
    assert_eq!(decode(&nested_groups(101, &[])), Err(CodecError::RecursionLimit));
    assert_eq!(decode(&nested_groups(100, &[0x08, 0x01])), Err(CodecError::RecursionLimit));
    // a lock message is one level down already
    assert_eq!(decode(&wrapped_in_lock(&nested_groups(99, &[]))), Ok(true));
    assert_eq!(decode(&wrapped_in_lock(&nested_groups(98, &[0x08, 0x01]))), Ok(true));
    assert_eq!(
        decode(&wrapped_in_lock(&nested_groups(100, &[]))),
        Err(CodecError::RecursionLimit)
    );
    assert_eq!(
        decode(&wrapped_in_lock(&nested_groups(99, &[0x08, 0x01]))),
        Err(CodecError::RecursionLimit)
    );
}

#[test]
fn fields_are_passed_over_one_by_one() {
    let (tag, wire_type, rest) = read_field_key(&[0x22, 2, 9, 8, 7]).unwrap();
    assert_eq!((tag, wire_type), (4, WireType::LengthDelimited));
    assert_eq!(pass_field(wire_type, tag, rest, 100), Ok(&[7u8][..]));
    let (tag, wire_type, rest) = read_field_key(&[0x10, 0x96, 0x01, 7]).unwrap();
    assert_eq!((tag, wire_type), (2, WireType::Varint));
    assert_eq!(pass_field(wire_type, tag, rest, 100), Ok(&[7u8][..]));
    assert_eq!(pass_field(WireType::SixtyFourBit, 3, &[1, 2, 3, 4, 5, 6, 7, 8, 9], 1), Ok(&[9u8][..]));
    assert_eq!(pass_field(WireType::ThirtyTwoBit, 3, &[1, 2, 3, 4, 9], 1), Ok(&[9u8][..]));
    assert_eq!(pass_field(WireType::StartGroup, 2, &[0x14, 9], 1), Ok(&[9u8][..]));
    assert_eq!(
        pass_field(WireType::StartGroup, 2, &[0x08, 1, 0x14, 9], 1),
        Err(CodecError::RecursionLimit)
    );
    assert_eq!(pass_field(WireType::StartGroup, 2, &[0x08, 1, 0x14, 9], 2), Ok(&[9u8][..]));
    assert_eq!(pass_field(WireType::EndGroup, 2, &[9], 100), Err(CodecError::UnexpectedEndGroup));
    assert_eq!(pass_field(WireType::Varint, 2, &[1], 0), Err(CodecError::RecursionLimit));
}

#[test]
fn error_messages() {
    assert_eq!(
        StorageError::Generic(CodecError::InvalidVarint).message(),
        "corrupt bytes: invalid varint"
    );
    assert_eq!(
        StorageError::Conversion(ConversionError::MissingField).message(),
        "unknown state: missing field"
    );
    assert_eq!(StorageError::DataIntegrityError.message(), "data integrity error");
}
