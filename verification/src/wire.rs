//! The stored form of a status: a message of tagged fields, each a varint
//! header followed by its value. Fields that this version does not know are
//! passed over, whole groups of them too, so that a later version may add to
//! the message.

use prost::encoding::WireType as ProstWireType;
use vstd::prelude::*;
use vstd::slice::{slice_subrange, slice_to_vec};
use crate::errors::{CodecError, ConversionError, StorageError};
use crate::identifiers::{invocation_id_bytes, invocation_id_from, lemma_invocation_id_roundtrip,
    InvocationId};
use crate::keys::{delimited, lemma_delimited_roundtrip, lemma_parse_delimited_shrinks,
    parse_delimited, read_delimited, write_delimited};
use crate::status::VirtualObjectStatus;
use crate::varint::{lemma_varint_parse_bounds, lemma_varint_roundtrip, read_varint, varint_bytes,
    varint_parse, write_varint};

verus! {

/// How the value of a field is laid out.
#[derive(Clone, Copy, Debug, PartialEq, Eq, Structural)]
pub enum WireType {
    /// A varint.
    Varint,
    /// Eight bytes.
    SixtyFourBit,
    /// A byte string behind its length.
    LengthDelimited,
    /// No value: the fields that follow, up to the end marker with the same
    /// field number, form a group.
    StartGroup,
    /// No value: the end of the group that was opened last.
    EndGroup,
    /// Four bytes.
    ThirtyTwoBit,
}

/// The number of the one field of each of the two messages.
pub const FIELD: u32 = 1;

/// The header of field 1 with a delimited value: a single byte.
pub const FIELD_HEADER: u64 = 10;

/// How many levels of messages and groups a reader goes down into.
pub const RECURSION_LIMIT: usize = 100;

/// The header at the front of `input`: the field number in its high bits,
/// the wire type in its low three.
pub open spec fn parse_field_key(input: Seq<u8>) -> Result<(u32, WireType, Seq<u8>), CodecError> {
    match varint_parse(input) {
        None => Err(CodecError::InvalidVarint),
        Some((key, rest)) => if key > u32::MAX {
            Err(CodecError::InvalidFieldKey)
        } else if key % 8 > 5 {
            Err(CodecError::InvalidWireType)
        } else if key / 8 == 0 {
            Err(CodecError::InvalidFieldKey)
        } else {
            Ok(
                (
                    (key / 8) as u32,
                    if key % 8 == 0 {
                        WireType::Varint
                    } else if key % 8 == 1 {
                        WireType::SixtyFourBit
                    } else if key % 8 == 2 {
                        WireType::LengthDelimited
                    } else if key % 8 == 3 {
                        WireType::StartGroup
                    } else if key % 8 == 4 {
                        WireType::EndGroup
                    } else {
                        WireType::ThirtyTwoBit
                    },
                    rest,
                ),
            )
        },
    }
}

/// What follows the value of the given layout at the front of `input`. A
/// group marker has no value of its own and is no layout to pass over.
pub open spec fn skip_scalar(wire_type: WireType, input: Seq<u8>) -> Result<Seq<u8>, CodecError> {
    match wire_type {
        WireType::Varint => match varint_parse(input) {
            None => Err(CodecError::InvalidVarint),
            Some((_, rest)) => Ok(rest),
        },
        WireType::SixtyFourBit => if input.len() < 8 {
            Err(CodecError::BufferUnderflow)
        } else {
            Ok(input.skip(8))
        },
        WireType::LengthDelimited => match parse_delimited(input) {
            Err(error) => Err(error),
            Ok((_, rest)) => Ok(rest),
        },
        WireType::ThirtyTwoBit => if input.len() < 4 {
            Err(CodecError::BufferUnderflow)
        } else {
            Ok(input.skip(4))
        },
        WireType::StartGroup => Err(CodecError::UnexpectedEndGroup),
        WireType::EndGroup => Err(CodecError::UnexpectedEndGroup),
    }
}

/// What is passed over is taken from the front of the input.
pub proof fn lemma_skip_scalar_shrinks(wire_type: WireType, input: Seq<u8>)
    requires
        skip_scalar(wire_type, input) is Ok,
    ensures
        skip_scalar(wire_type, input)->Ok_0.len() <= input.len(),
{
    match wire_type {
        WireType::Varint => {
            lemma_varint_parse_bounds(input);
        },
        WireType::LengthDelimited => {
            lemma_parse_delimited_shrinks(input);
        },
        _ => {},
    }
}

/// What follows the groups that are open at the front of `input`, the
/// innermost last in `open`. The fields of a group are passed over one by
/// one; an end marker closes the innermost group and must carry its field
/// number; a field that is no end marker may stand at most `budget` groups
/// deep.
pub open spec fn skip_group(open: Seq<u32>, input: Seq<u8>, budget: nat) -> Result<
    Seq<u8>,
    CodecError,
>
    decreases input.len(),
{
    if open.len() == 0 {
        Ok(input)
    } else {
        match parse_field_key(input) {
            Err(error) => Err(error),
            Ok((tag, wire_type, rest)) => {
                proof {
                    lemma_varint_parse_bounds(input);
                }
                if wire_type == WireType::EndGroup {
                    if tag != open.last() {
                        Err(CodecError::UnexpectedEndGroup)
                    } else {
                        skip_group(open.drop_last(), rest, budget)
                    }
                } else if open.len() >= budget {
                    Err(CodecError::RecursionLimit)
                } else if wire_type == WireType::StartGroup {
                    skip_group(open.push(tag), rest, budget)
                } else {
                    match skip_scalar(wire_type, rest) {
                        Err(error) => Err(error),
                        Ok(tail) => {
                            proof {
                                lemma_skip_scalar_shrinks(wire_type, rest);
                            }
                            skip_group(open, tail, budget)
                        },
                    }
                }
            },
        }
    }
}

/// What follows the field with the given header, whose value stands at the
/// front of `input`: the field is passed over, a whole group where it opens
/// one. An end marker that closes no group is an error, and so is any field
/// where no level is left to go down into.
pub open spec fn skip_field(wire_type: WireType, tag: u32, input: Seq<u8>, budget: nat) -> Result<
    Seq<u8>,
    CodecError,
> {
    if budget == 0 {
        Err(CodecError::RecursionLimit)
    } else {
        match wire_type {
            WireType::StartGroup => skip_group(seq![tag], input, budget),
            WireType::EndGroup => Err(CodecError::UnexpectedEndGroup),
            _ => skip_scalar(wire_type, input),
        }
    }
}

/// The groups that are passed over are taken from the front of the input.
pub proof fn lemma_skip_group_shrinks(open: Seq<u32>, input: Seq<u8>, budget: nat)
    requires
        skip_group(open, input, budget) is Ok,
    ensures
        skip_group(open, input, budget)->Ok_0.len() <= input.len(),
    decreases input.len(),
{
    if open.len() > 0 {
        let (tag, wire_type, rest) = parse_field_key(input)->Ok_0;
        lemma_varint_parse_bounds(input);
        if wire_type == WireType::EndGroup {
            lemma_skip_group_shrinks(open.drop_last(), rest, budget);
        } else if wire_type == WireType::StartGroup {
            lemma_skip_group_shrinks(open.push(tag), rest, budget);
        } else {
            lemma_skip_scalar_shrinks(wire_type, rest);
            lemma_skip_group_shrinks(open, skip_scalar(wire_type, rest)->Ok_0, budget);
        }
    }
}

/// The field that is passed over is taken from the front of the input.
pub proof fn lemma_skip_field_shrinks(wire_type: WireType, tag: u32, input: Seq<u8>, budget: nat)
    requires
        skip_field(wire_type, tag, input, budget) is Ok,
    ensures
        skip_field(wire_type, tag, input, budget)->Ok_0.len() <= input.len(),
{
    if wire_type == WireType::StartGroup {
        lemma_skip_group_shrinks(seq![tag], input, budget);
    } else {
        lemma_skip_scalar_shrinks(wire_type, input);
    }
}

/// The invocation id of a lock message: that of its last field 1, or
/// `current` where it has none. Every other field is passed over.
pub open spec fn lock_decoding(current: Seq<u8>, input: Seq<u8>) -> Result<Seq<u8>, CodecError>
    decreases input.len(),
{
    if input.len() == 0 {
        Ok(current)
    } else {
        match parse_field_key(input) {
            Err(error) => Err(error),
            Ok((tag, wire_type, rest)) => {
                proof {
                    lemma_varint_parse_bounds(input);
                }
                if tag == 1 {
                    if wire_type != WireType::LengthDelimited {
                        Err(CodecError::UnexpectedWireType)
                    } else {
                        match parse_delimited(rest) {
                            Err(error) => Err(error),
                            Ok((data, tail)) => {
                                proof {
                                    lemma_parse_delimited_shrinks(rest);
                                }
                                lock_decoding(data, tail)
                            },
                        }
                    }
                } else {
                    match skip_field(wire_type, tag, rest, 99) {
                        Err(error) => Err(error),
                        Ok(tail) => {
                            proof {
                                lemma_skip_field_shrinks(wire_type, tag, rest, 99);
                            }
                            lock_decoding(current, tail)
                        },
                    }
                }
            },
        }
    }
}

/// The lock of a status message, if it has one: each field 1 is a lock
/// message, merged into the lock that the fields before it gave. Every other
/// field is passed over.
pub open spec fn status_decoding(current: Option<Seq<u8>>, input: Seq<u8>) -> Result<
    Option<Seq<u8>>,
    CodecError,
>
    decreases input.len(),
{
    if input.len() == 0 {
        Ok(current)
    } else {
        match parse_field_key(input) {
            Err(error) => Err(error),
            Ok((tag, wire_type, rest)) => {
                proof {
                    lemma_varint_parse_bounds(input);
                }
                if tag == 1 {
                    if wire_type != WireType::LengthDelimited {
                        Err(CodecError::UnexpectedWireType)
                    } else {
                        match parse_delimited(rest) {
                            Err(error) => Err(error),
                            Ok((data, tail)) => {
                                proof {
                                    lemma_parse_delimited_shrinks(rest);
                                }
                                let before = match current {
                                    Some(id) => id,
                                    None => Seq::empty(),
                                };
                                match lock_decoding(before, data) {
                                    Err(error) => Err(error),
                                    Ok(id) => status_decoding(Some(id), tail),
                                }
                            },
                        }
                    }
                } else {
                    match skip_field(wire_type, tag, rest, 100) {
                        Err(error) => Err(error),
                        Ok(tail) => {
                            proof {
                                lemma_skip_field_shrinks(wire_type, tag, rest, 100);
                            }
                            status_decoding(current, tail)
                        },
                    }
                }
            },
        }
    }
}

/// The bytes of a lock message. An empty id is the default and is left out.
pub open spec fn lock_encoding(invocation_id: Seq<u8>) -> Seq<u8> {
    if invocation_id.len() == 0 {
        Seq::empty()
    } else {
        varint_bytes(10) + delimited(invocation_id)
    }
}

/// The bytes of a status message: the lock as field 1, or nothing.
pub open spec fn status_encoding(locked: Option<Seq<u8>>) -> Seq<u8> {
    match locked {
        Some(invocation_id) => varint_bytes(10) + delimited(lock_encoding(invocation_id)),
        None => Seq::empty(),
    }
}

/// The header of field 1 with a delimited value is read back, whatever
/// follows it.
pub proof fn lemma_field_header_roundtrip(rest: Seq<u8>)
    ensures
        parse_field_key(varint_bytes(10) + rest) == Ok::<_, CodecError>(
            (1u32, WireType::LengthDelimited, rest),
        ),
{
    lemma_varint_roundtrip(10, rest);
}

/// A lock message is read back.
pub proof fn lemma_lock_roundtrip(current: Seq<u8>, invocation_id: Seq<u8>)
    requires
        invocation_id.len() <= u64::MAX,
    ensures
        lock_decoding(current, lock_encoding(invocation_id)) == Ok::<_, CodecError>(
            if invocation_id.len() == 0 {
                current
            } else {
                invocation_id
            },
        ),
{
    if invocation_id.len() > 0 {
        let input = lock_encoding(invocation_id);
        let nothing = Seq::<u8>::empty();
        lemma_field_header_roundtrip(delimited(invocation_id));
        assert(delimited(invocation_id) =~= delimited(invocation_id) + nothing);
        lemma_delimited_roundtrip(invocation_id, nothing);
        lemma_varint_parse_bounds(input);
        assert(input.len() > 0);
        assert(lock_decoding(invocation_id, nothing) == Ok::<_, CodecError>(invocation_id));
    }
}

/// A status message is read back: decoding undoes encoding.
pub proof fn lemma_status_roundtrip(locked: Option<Seq<u8>>)
    requires
        locked matches Some(invocation_id) ==> invocation_id.len() + 11 <= u64::MAX,
    ensures
        status_decoding(None, status_encoding(locked)) == Ok::<_, CodecError>(locked),
{
    match locked {
        None => {},
        Some(invocation_id) => {
            let inner = lock_encoding(invocation_id);
            let input = status_encoding(locked);
            let nothing = Seq::<u8>::empty();
            lemma_varint_roundtrip(invocation_id.len() as u64, invocation_id);
            lemma_varint_parse_bounds(delimited(invocation_id));
            lemma_varint_roundtrip(10, nothing);
            lemma_varint_parse_bounds(varint_bytes(10) + nothing);
            assert(varint_bytes(10) + nothing =~= varint_bytes(10));
            assert(inner.len() <= invocation_id.len() + 11);
            lemma_field_header_roundtrip(delimited(inner));
            assert(delimited(inner) =~= delimited(inner) + nothing);
            lemma_delimited_roundtrip(inner, nothing);
            lemma_lock_roundtrip(nothing, invocation_id);
            lemma_varint_parse_bounds(input);
            assert(input.len() > 0);
            assert(status_decoding(Some(invocation_id), nothing) == Ok::<_, CodecError>(
                Some(invocation_id),
            ));
            if invocation_id.len() == 0 {
                assert(invocation_id =~= nothing);
            }
        },
    }
}

/// Calls `prost::encoding::decode_key` on the slice: it returns the field
/// number and the wire type that the leading varint holds, and the slice
/// behind it. It fails exactly where there is no varint, where the varint
/// does not fit 32 bits, where its low three bits are 6 or 7, and where the
/// bits above them are all zero.
#[verifier::external_body]
fn take_field_key<'a>(input: &'a [u8]) -> (r: Result<(u32, WireType, &'a [u8]), prost::DecodeError>)
    ensures
        match r {
            Ok((tag, wire_type, rest)) => parse_field_key(input@) == Ok::<_, CodecError>(
                (tag, wire_type, rest@),
            ),
            Err(_) => parse_field_key(input@) is Err,
        },
{
    let mut rest = input;
    match prost::encoding::decode_key(&mut rest) {
        Ok((tag, ProstWireType::Varint)) => Ok((tag, WireType::Varint, rest)),
        Ok((tag, ProstWireType::SixtyFourBit)) => Ok((tag, WireType::SixtyFourBit, rest)),
        Ok((tag, ProstWireType::LengthDelimited)) => Ok((tag, WireType::LengthDelimited, rest)),
        Ok((tag, ProstWireType::StartGroup)) => Ok((tag, WireType::StartGroup, rest)),
        Ok((tag, ProstWireType::EndGroup)) => Ok((tag, WireType::EndGroup, rest)),
        Ok((tag, ProstWireType::ThirtyTwoBit)) => Ok((tag, WireType::ThirtyTwoBit, rest)),
        Err(error) => Err(error),
    }
}

/// Reads the field header at the front of `input`. Where there is none, the
/// error says what is wrong with the bytes that stand there.
pub fn read_field_key<'a>(input: &'a [u8]) -> (r: Result<(u32, WireType, &'a [u8]), CodecError>)
    ensures
        match r {
            Ok((tag, wire_type, rest)) => parse_field_key(input@) == Ok::<_, CodecError>(
                (tag, wire_type, rest@),
            ),
            Err(error) => parse_field_key(input@) == Err::<(u32, WireType, Seq<u8>), _>(error),
        },
{
    match take_field_key(input) {
        Ok(found) => Ok(found),
        Err(_) => match read_varint(input) {
            Err(error) => Err(error),
            Ok((key, _)) => {
                if key <= 0xFFFF_FFFF && key % 8 > 5 {
                    Err(CodecError::InvalidWireType)
                } else {
                    Err(CodecError::InvalidFieldKey)
                }
            },
        },
    }
}

/// Passes over the value of the given layout at the front of `input`.
pub fn pass_scalar<'a>(wire_type: WireType, input: &'a [u8]) -> (r: Result<&'a [u8], CodecError>)
    ensures
        match r {
            Ok(rest) => skip_scalar(wire_type, input@) == Ok::<_, CodecError>(rest@),
            Err(error) => skip_scalar(wire_type, input@) == Err::<Seq<u8>, _>(error),
        },
{
    match wire_type {
        WireType::Varint => match read_varint(input) {
            Err(error) => Err(error),
            Ok((_, rest)) => Ok(rest),
        },
        WireType::SixtyFourBit => {
            if input.len() < 8 {
                Err(CodecError::BufferUnderflow)
            } else {
                Ok(slice_subrange(input, 8, input.len()))
            }
        },
        WireType::LengthDelimited => match read_delimited(input) {
            Err(error) => Err(error),
            Ok((_, rest)) => Ok(rest),
        },
        WireType::ThirtyTwoBit => {
            if input.len() < 4 {
                Err(CodecError::BufferUnderflow)
            } else {
                Ok(slice_subrange(input, 4, input.len()))
            }
        },
        WireType::StartGroup => Err(CodecError::UnexpectedEndGroup),
        WireType::EndGroup => Err(CodecError::UnexpectedEndGroup),
    }
}

/// Passes over the group with the field number `tag` that has been opened
/// before `input`, and every group within it.
pub fn pass_group<'a>(tag: u32, input: &'a [u8], budget: usize) -> (r: Result<&'a [u8], CodecError>)
    ensures
        match r {
            Ok(rest) => skip_group(seq![tag], input@, budget as nat) == Ok::<_, CodecError>(rest@),
            Err(error) => skip_group(seq![tag], input@, budget as nat) == Err::<Seq<u8>, _>(error),
        },
{
    let mut open: Vec<u32> = Vec::new();
    open.push(tag);
    let mut rest = input;
    proof {
        assert(open@ =~= seq![tag]);
    }
    while open.len() > 0
        invariant
            skip_group(seq![tag], input@, budget as nat) == skip_group(
                open@,
                rest@,
                budget as nat,
            ),
        decreases rest@.len(),
    {
        let (inner, wire_type, after) = match read_field_key(rest) {
            Err(error) => {
                return Err(error);
            },
            Ok(found) => found,
        };
        proof {
            lemma_varint_parse_bounds(rest@);
        }
        match wire_type {
            WireType::EndGroup => {
                if inner != open[open.len() - 1] {
                    return Err(CodecError::UnexpectedEndGroup);
                }
                open.pop();
                rest = after;
            },
            WireType::StartGroup => {
                if open.len() >= budget {
                    return Err(CodecError::RecursionLimit);
                }
                open.push(inner);
                rest = after;
            },
            _ => {
                if open.len() >= budget {
                    return Err(CodecError::RecursionLimit);
                }
                match pass_scalar(wire_type, after) {
                    Err(error) => {
                        return Err(error);
                    },
                    Ok(tail) => {
                        proof {
                            lemma_skip_scalar_shrinks(wire_type, after@);
                        }
                        rest = tail;
                    },
                }
            },
        }
    }
    Ok(rest)
}

/// Passes over the field with the given header, whose value stands at the
/// front of `input`.
pub fn pass_field<'a>(wire_type: WireType, tag: u32, input: &'a [u8], budget: usize) -> (r: Result<
    &'a [u8],
    CodecError,
>)
    ensures
        match r {
            Ok(rest) => skip_field(wire_type, tag, input@, budget as nat) == Ok::<_, CodecError>(
                rest@,
            ),
            Err(error) => skip_field(wire_type, tag, input@, budget as nat) == Err::<Seq<u8>, _>(
                error,
            ),
        },
{
    if budget == 0 {
        return Err(CodecError::RecursionLimit);
    }
    match wire_type {
        WireType::StartGroup => pass_group(tag, input, budget),
        WireType::EndGroup => Err(CodecError::UnexpectedEndGroup),
        _ => pass_scalar(wire_type, input),
    }
}

/// The lock of a stored status.
#[derive(Debug)]
pub struct StoredLocked {
    pub invocation_id: Vec<u8>,
}

/// A status as it is stored: a message that holds a lock, or nothing that
/// this version knows.
#[derive(Debug)]
pub struct StoredVirtualObjectStatus {
    pub locked: Option<StoredLocked>,
}

impl View for StoredVirtualObjectStatus {
    type V = Option<Seq<u8>>;

    /// The invocation id of the lock, where there is a lock.
    open spec fn view(&self) -> Option<Seq<u8>> {
        match self.locked {
            Some(lock) => Some(lock.invocation_id@),
            None => None,
        }
    }
}

impl StoredLocked {
    /// Merges the fields of the lock message `input` into the lock.
    pub fn merge(self, input: &[u8]) -> (r: Result<StoredLocked, CodecError>)
        ensures
            match r {
                Ok(lock) => lock_decoding(self.invocation_id@, input@) == Ok::<_, CodecError>(
                    lock.invocation_id@,
                ),
                Err(error) => lock_decoding(self.invocation_id@, input@) == Err::<Seq<u8>, _>(error),
            },
    {
        let ghost start = self.invocation_id@;
        let mut invocation_id = self.invocation_id;
        let mut rest = input;
        while rest.len() > 0
            invariant
                start == self.invocation_id@,
                lock_decoding(start, input@) == lock_decoding(invocation_id@, rest@),
            decreases rest@.len(),
        {
            let (tag, wire_type, after) = match read_field_key(rest) {
                Err(error) => {
                    return Err(error);
                },
                Ok(found) => found,
            };
            proof {
                lemma_varint_parse_bounds(rest@);
            }
            if tag == FIELD {
                match wire_type {
                    WireType::LengthDelimited => match read_delimited(after) {
                        Err(error) => {
                            return Err(error);
                        },
                        Ok((data, tail)) => {
                            proof {
                                lemma_parse_delimited_shrinks(after@);
                            }
                            invocation_id = slice_to_vec(data);
                            rest = tail;
                        },
                    },
                    _ => {
                        return Err(CodecError::UnexpectedWireType);
                    },
                }
            } else {
                match pass_field(wire_type, tag, after, RECURSION_LIMIT - 1) {
                    Err(error) => {
                        return Err(error);
                    },
                    Ok(tail) => {
                        proof {
                            lemma_skip_field_shrinks(wire_type, tag, after@, 99);
                        }
                        rest = tail;
                    },
                }
            }
        }
        Ok(StoredLocked { invocation_id })
    }

    /// Appends the lock message to `out`.
    pub fn encode(&self, out: &mut Vec<u8>)
        ensures
            final(out)@ == old(out)@ + lock_encoding(self.invocation_id@),
    {
        if self.invocation_id.len() > 0 {
            write_varint(FIELD_HEADER, out);
            write_delimited(self.invocation_id.as_slice(), out);
            proof {
                assert(out@ =~= old(out)@ + lock_encoding(self.invocation_id@));
            }
        } else {
            proof {
                assert(out@ =~= old(out)@ + lock_encoding(self.invocation_id@));
            }
        }
    }
}

impl StoredVirtualObjectStatus {
    /// The message that `input` holds.
    pub fn decode(input: &[u8]) -> (r: Result<StoredVirtualObjectStatus, CodecError>)
        ensures
            match r {
                Ok(stored) => status_decoding(None, input@) == Ok::<_, CodecError>(stored@),
                Err(error) => status_decoding(None, input@) == Err::<Option<Seq<u8>>, _>(error),
            },
    {
        let mut locked: Option<StoredLocked> = None;
        let mut rest = input;
        while rest.len() > 0
            invariant
                status_decoding(None, input@) == status_decoding(
                    (StoredVirtualObjectStatus { locked })@,
                    rest@,
                ),
            decreases rest@.len(),
        {
            let (tag, wire_type, after) = match read_field_key(rest) {
                Err(error) => {
                    return Err(error);
                },
                Ok(found) => found,
            };
            proof {
                lemma_varint_parse_bounds(rest@);
            }
            if tag == FIELD {
                match wire_type {
                    WireType::LengthDelimited => match read_delimited(after) {
                        Err(error) => {
                            return Err(error);
                        },
                        Ok((data, tail)) => {
                            proof {
                                lemma_parse_delimited_shrinks(after@);
                            }
                            let before = match locked {
                                Some(lock) => lock,
                                None => StoredLocked { invocation_id: Vec::new() },
                            };
                            match before.merge(data) {
                                Err(error) => {
                                    return Err(error);
                                },
                                Ok(lock) => {
                                    locked = Some(lock);
                                },
                            }
                            rest = tail;
                        },
                    },
                    _ => {
                        return Err(CodecError::UnexpectedWireType);
                    },
                }
            } else {
                match pass_field(wire_type, tag, after, RECURSION_LIMIT) {
                    Err(error) => {
                        return Err(error);
                    },
                    Ok(tail) => {
                        proof {
                            lemma_skip_field_shrinks(wire_type, tag, after@, 100);
                        }
                        rest = tail;
                    },
                }
            }
        }
        Ok(StoredVirtualObjectStatus { locked })
    }

    /// The bytes of the message.
    pub fn encode_to_vec(&self) -> (bytes: Vec<u8>)
        ensures
            bytes@ == status_encoding(self@),
    {
        let mut bytes: Vec<u8> = Vec::new();
        match &self.locked {
            Some(lock) => {
                let mut inner: Vec<u8> = Vec::new();
                lock.encode(&mut inner);
                write_varint(FIELD_HEADER, &mut bytes);
                write_delimited(inner.as_slice(), &mut bytes);
                proof {
                    assert(inner@ =~= lock_encoding(lock.invocation_id@));
                    assert(bytes@ =~= status_encoding(self@));
                }
            },
            None => {
                proof {
                    assert(bytes@ =~= status_encoding(self@));
                }
            },
        }
        bytes
    }

    /// The stored form of `status`. `Unlocked` has none of its own: it is the
    /// message without a lock, which no reader accepts.
    pub fn from_status(status: VirtualObjectStatus) -> (stored: StoredVirtualObjectStatus)
        ensures
            stored@ == stored_of_status(status),
    {
        match status {
            VirtualObjectStatus::Locked(invocation_id) => StoredVirtualObjectStatus {
                locked: Some(StoredLocked { invocation_id: invocation_id.to_bytes() }),
            },
            VirtualObjectStatus::Unlocked => StoredVirtualObjectStatus { locked: None },
        }
    }

    /// The status that the message stands for, where this version knows it.
    pub fn into_status(self) -> (r: Result<VirtualObjectStatus, ConversionError>)
        ensures
            r == status_of_stored(self@),
    {
        match self.locked {
            None => Err(ConversionError::MissingField),
            Some(lock) => match InvocationId::from_slice(lock.invocation_id.as_slice()) {
                Err(error) => Err(error),
                Ok(invocation_id) => Ok(VirtualObjectStatus::Locked(invocation_id)),
            },
        }
    }
}

/// The stored form of a status: the bytes of the lock's invocation id.
pub open spec fn stored_of_status(status: VirtualObjectStatus) -> Option<Seq<u8>> {
    match status {
        VirtualObjectStatus::Locked(invocation_id) => Some(invocation_id_bytes(invocation_id)),
        VirtualObjectStatus::Unlocked => None,
    }
}

/// The status of a stored form: a message without a lock is no status, and
/// neither is a lock whose invocation id has not the width of one.
pub open spec fn status_of_stored(locked: Option<Seq<u8>>) -> Result<
    VirtualObjectStatus,
    ConversionError,
> {
    match locked {
        None => Err(ConversionError::MissingField),
        Some(bytes) => match invocation_id_from(bytes) {
            Err(error) => Err(error),
            Ok(invocation_id) => Ok(VirtualObjectStatus::Locked(invocation_id)),
        },
    }
}

/// The bytes that are stored for `status`.
pub open spec fn status_bytes(status: VirtualObjectStatus) -> Seq<u8> {
    status_encoding(stored_of_status(status))
}

/// The status that stored bytes stand for: corrupt bytes are a `Generic`
/// error, a message that this version does not know a `Conversion` error.
pub open spec fn status_from_bytes(input: Seq<u8>) -> Result<VirtualObjectStatus, StorageError> {
    match status_decoding(None, input) {
        Err(error) => Err(StorageError::Generic(error)),
        Ok(stored) => match status_of_stored(stored) {
            Err(error) => Err(StorageError::Conversion(error)),
            Ok(status) => Ok(status),
        },
    }
}

/// A locked status is read back from its bytes: decoding undoes encoding.
pub proof fn lemma_status_bytes_roundtrip(status: VirtualObjectStatus)
    requires
        status != VirtualObjectStatus::Unlocked,
    ensures
        status_from_bytes(status_bytes(status)) == Ok::<_, StorageError>(status),
{
    let invocation_id = status->Locked_0;
    lemma_invocation_id_roundtrip(invocation_id);
    lemma_status_roundtrip(stored_of_status(status));
}

/// The bytes of `Unlocked` are a message without a lock, which decodes to no
/// status: that state is stored as the absence of a row.
pub proof fn lemma_unlocked_is_not_stored()
    ensures
        status_from_bytes(status_bytes(VirtualObjectStatus::Unlocked)) == Err::<
            VirtualObjectStatus,
            _,
        >(StorageError::Conversion(ConversionError::MissingField)),
{
}

/// The bytes to store for `status`.
pub fn encode_status(status: VirtualObjectStatus) -> (bytes: Vec<u8>)
    ensures
        bytes@ == status_bytes(status),
{
    StoredVirtualObjectStatus::from_status(status).encode_to_vec()
}

/// The status that stored bytes stand for.
pub fn decode_status(input: &[u8]) -> (r: Result<VirtualObjectStatus, StorageError>)
    ensures
        r == status_from_bytes(input@),
{
    match StoredVirtualObjectStatus::decode(input) {
        Err(error) => Err(StorageError::Generic(error)),
        Ok(stored) => match stored.into_status() {
            Err(error) => Err(StorageError::Conversion(error)),
            Ok(status) => Ok(status),
        },
    }
}

} // verus!
