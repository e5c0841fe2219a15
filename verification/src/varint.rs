//! Variable-length integers (LEB128), as they delimit the fields of keys and
//! of stored messages. The bytes are written and read by `prost`; this module
//! states what those bytes are and proves that reading undoes writing.

use vstd::prelude::*;
use crate::errors::CodecError;

verus! {

/// `prost`'s error type; a value of it says only that decoding failed.
#[verifier::external_type_specification]
#[verifier::external_body]
pub struct ExProstDecodeError(prost::DecodeError);

/// The LEB128 encoding of `value`: seven bits to a byte, the low bits first,
/// the top bit of every byte but the last set.
pub open spec fn varint_bytes(value: nat) -> Seq<u8>
    decreases value,
{
    if value < 128 {
        seq![value as u8]
    } else {
        seq![(128 + value % 128) as u8] + varint_bytes(value / 128)
    }
}

/// The value and the length of the varint at the front of `input`, where
/// `used` bytes of it stand before `input`. A varint has at most ten bytes,
/// and the tenth holds the one bit that is left of 64.
pub open spec fn varint_prefix(input: Seq<u8>, used: nat) -> Option<(nat, nat)>
    decreases 10 - used,
{
    if used >= 10 || input.len() == 0 {
        None
    } else if input[0] < 128 {
        if used == 9 && input[0] >= 2 {
            None
        } else {
            Some((input[0] as nat, 1nat))
        }
    } else {
        match varint_prefix(input.skip(1), used + 1) {
            Some((high, n)) => Some(((input[0] - 128) as nat + 128 * high, n + 1)),
            None => None,
        }
    }
}

/// The varint at the front of `input` and the bytes behind it, or `None`
/// where `input` does not begin with a varint of at most 64 bits.
pub open spec fn varint_parse(input: Seq<u8>) -> Option<(nat, Seq<u8>)> {
    match varint_prefix(input, 0) {
        Some((value, n)) => Some((value, input.skip(n as int))),
        None => None,
    }
}

/// The least number that a varint cannot hold in the bytes from position `used` on.
pub open spec fn varint_cap(used: nat) -> nat
    decreases 9 - used,
{
    if used >= 9 {
        2
    } else {
        128 * varint_cap(used + 1)
    }
}

/// In ten bytes a varint holds exactly the 64-bit numbers.
pub proof fn lemma_varint_cap_zero()
    ensures
        varint_cap(0) == 0x1_0000_0000_0000_0000,
{
    reveal_with_fuel(varint_cap, 11);
}

/// A varint that parses is shorter than the input and below the cap of its position.
pub proof fn lemma_varint_prefix_bounds(input: Seq<u8>, used: nat)
    requires
        varint_prefix(input, used) is Some,
    ensures
        used <= 9,
        1 <= varint_prefix(input, used)->Some_0.1 <= 10 - used,
        varint_prefix(input, used)->Some_0.1 <= input.len(),
        varint_prefix(input, used)->Some_0.0 < varint_cap(used),
    decreases 10 - used,
{
    if input[0] >= 128 {
        lemma_varint_prefix_bounds(input.skip(1), used + 1);
    } else {
        lemma_varint_cap_positive(used);
        if used < 9 {
            lemma_varint_cap_positive(used + 1);
        }
    }
}

proof fn lemma_varint_cap_positive(used: nat)
    ensures
        varint_cap(used) >= 2,
    decreases 9 - used,
{
    if used < 9 {
        lemma_varint_cap_positive(used + 1);
    }
}

/// A varint that parses is a 64-bit number of at most ten bytes.
pub proof fn lemma_varint_parse_bounds(input: Seq<u8>)
    requires
        varint_parse(input) is Some,
    ensures
        varint_parse(input)->Some_0.0 <= u64::MAX,
        varint_parse(input)->Some_0.1.len() < input.len(),
        input.len() - varint_parse(input)->Some_0.1.len() <= 10,
{
    lemma_varint_prefix_bounds(input, 0);
    lemma_varint_cap_zero();
}

/// The encoding of a number below the cap parses back, whatever follows it.
pub proof fn lemma_varint_prefix_of_bytes(value: nat, rest: Seq<u8>, used: nat)
    requires
        used <= 9,
        value < varint_cap(used),
    ensures
        varint_prefix(varint_bytes(value) + rest, used) == Some(
            (value, varint_bytes(value).len()),
        ),
    decreases value,
{
    let input = varint_bytes(value) + rest;
    if value < 128 {
        assert(input[0] == value as u8);
    } else {
        assert(input[0] == (128 + value % 128) as u8);
        assert(used < 9);
        assert(value / 128 < varint_cap(used + 1));
        assert(input.skip(1) =~= varint_bytes(value / 128) + rest);
        lemma_varint_prefix_of_bytes(value / 128, rest, used + 1);
    }
}

/// Reading undoes writing: the encoding of a 64-bit number, followed by any
/// bytes, parses to that number and leaves those bytes.
pub proof fn lemma_varint_roundtrip(value: u64, rest: Seq<u8>)
    ensures
        varint_parse(varint_bytes(value as nat) + rest) == Some((value as nat, rest)),
{
    lemma_varint_cap_zero();
    lemma_varint_prefix_of_bytes(value as nat, rest, 0);
    let bytes = varint_bytes(value as nat);
    assert((bytes + rest).skip(bytes.len() as int) =~= rest);
}

/// Calls `prost::encoding::encode_varint` on the vector: it appends the LEB128
/// bytes of `value` and changes nothing that was there.
#[verifier::external_body]
pub(crate) fn put_varint(value: u64, out: &mut Vec<u8>)
    ensures
        final(out)@ == old(out)@ + varint_bytes(value as nat),
{
    prost::encoding::encode_varint(value, out)
}

/// Calls `prost::encoding::decode_varint` on the slice: it returns the number
/// that the leading varint holds and the slice behind it, and fails exactly
/// where the slice is empty, has no byte below 128 among its first ten, or
/// has a tenth byte above 1.
#[verifier::external_body]
pub(crate) fn take_varint<'a>(input: &'a [u8]) -> (r: Result<(u64, &'a [u8]), prost::DecodeError>)
    ensures
        match r {
            Ok((value, rest)) => varint_parse(input@) == Some((value as nat, rest@)),
            Err(_) => varint_parse(input@) is None,
        },
{
    let mut rest = input;
    match prost::encoding::decode_varint(&mut rest) {
        Ok(value) => Ok((value, rest)),
        Err(error) => Err(error),
    }
}

/// Reads the varint at the front of `input`.
pub fn read_varint<'a>(input: &'a [u8]) -> (r: Result<(u64, &'a [u8]), CodecError>)
    ensures
        match r {
            Ok((value, rest)) => varint_parse(input@) == Some((value as nat, rest@)),
            Err(error) => varint_parse(input@) is None && error == CodecError::InvalidVarint,
        },
{
    match take_varint(input) {
        Ok(found) => Ok(found),
        Err(_) => Err(CodecError::InvalidVarint),
    }
}

/// Appends the varint of `value` to `out`.
pub fn write_varint(value: u64, out: &mut Vec<u8>)
    ensures
        final(out)@ == old(out)@ + varint_bytes(value as nat),
{
    put_varint(value, out);
}

} // verus!
