//! The keys of the tables: ordered tuples of typed fields, written field by
//! field so that the order of the bytes is the order that scans rely on.

use vstd::prelude::*;
use vstd::slice::slice_subrange;
use vstd::string::StringSliceAdditionalSpecFns;
use vstd::utf8::{decode_utf8, encode_utf8, valid_utf8};
use crate::errors::{CodecError, StorageError};
use crate::fixed::{be_bytes, be_value, lemma_be_len, lemma_be_roundtrip, lemma_u64_fits, read_u64,
    write_u64};
use crate::identifiers::PartitionKey;
use crate::varint::{lemma_varint_parse_bounds, lemma_varint_roundtrip, read_varint, varint_bytes,
    varint_parse, write_varint};

verus! {

/// The tables that share the store. Each has a key space of its own.
#[derive(Clone, Copy, Debug, PartialEq, Eq, Structural)]
pub enum TableKind {
    State,
    InvocationStatus,
    ServiceStatus,
    Inbox,
    Outbox,
    Deduplication,
    PartitionStateMachine,
    Timers,
}

/// The number of tables.
pub const TABLE_KINDS: usize = 8;

impl TableKind {
    /// The place of the table among the tables of the store.
    pub open spec fn position(self) -> nat {
        match self {
            TableKind::State => 0,
            TableKind::InvocationStatus => 1,
            TableKind::ServiceStatus => 2,
            TableKind::Inbox => 3,
            TableKind::Outbox => 4,
            TableKind::Deduplication => 5,
            TableKind::PartitionStateMachine => 6,
            TableKind::Timers => 7,
        }
    }

    /// The place of the table among the tables of the store.
    pub fn index(self) -> (at: usize)
        ensures
            at == self.position(),
            at < TABLE_KINDS,
    {
        match self {
            TableKind::State => 0,
            TableKind::InvocationStatus => 1,
            TableKind::ServiceStatus => 2,
            TableKind::Inbox => 3,
            TableKind::Outbox => 4,
            TableKind::Deduplication => 5,
            TableKind::PartitionStateMachine => 6,
            TableKind::Timers => 7,
        }
    }
}

/// A byte string behind its length: the length as a varint, then the bytes.
pub open spec fn delimited(data: Seq<u8>) -> Seq<u8> {
    varint_bytes(data.len()) + data
}

/// The byte string that stands, behind its length, at the front of `input`,
/// and what follows it.
pub open spec fn parse_delimited(input: Seq<u8>) -> Result<(Seq<u8>, Seq<u8>), CodecError> {
    match varint_parse(input) {
        None => Err(CodecError::InvalidVarint),
        Some((len, rest)) => if len > rest.len() {
            Err(CodecError::BufferUnderflow)
        } else {
            Ok((rest.take(len as int), rest.skip(len as int)))
        },
    }
}

/// A delimited byte string is read back, whatever follows it.
pub proof fn lemma_delimited_roundtrip(data: Seq<u8>, rest: Seq<u8>)
    requires
        data.len() <= u64::MAX,
    ensures
        parse_delimited(delimited(data) + rest) == Ok::<_, CodecError>((data, rest)),
{
    lemma_varint_roundtrip(data.len() as u64, data + rest);
    assert(delimited(data) + rest =~= varint_bytes(data.len()) + (data + rest));
    assert((data + rest).take(data.len() as int) =~= data);
    assert((data + rest).skip(data.len() as int) =~= rest);
}

/// What is read leaves less than there was.
pub proof fn lemma_parse_delimited_shrinks(input: Seq<u8>)
    requires
        parse_delimited(input) is Ok,
    ensures
        parse_delimited(input)->Ok_0.0.len() + parse_delimited(input)->Ok_0.1.len() < input.len(),
{
    lemma_varint_parse_bounds(input);
}

/// Appends `bytes` to `out`.
pub fn append(out: &mut Vec<u8>, bytes: &[u8])
    ensures
        final(out)@ == old(out)@ + bytes@,
{
    let mut i: usize = 0;
    while i < bytes.len()
        invariant
            i <= bytes.len(),
            out@ == old(out)@ + bytes@.take(i as int),
        decreases bytes.len() - i,
    {
        out.push(bytes[i]);
        proof {
            assert(bytes@.take(i + 1) =~= bytes@.take(i as int).push(bytes@[i as int]));
            assert(out@ =~= old(out)@ + bytes@.take(i + 1));
        }
        i += 1;
    }
    proof {
        assert(bytes@.take(i as int) =~= bytes@);
    }
}

/// Appends `bytes` to `out` behind their length.
pub fn write_delimited(bytes: &[u8], out: &mut Vec<u8>)
    ensures
        final(out)@ == old(out)@ + delimited(bytes@),
{
    write_varint(bytes.len() as u64, out);
    append(out, bytes);
    proof {
        assert(out@ =~= old(out)@ + delimited(bytes@));
    }
}

/// Reads the delimited byte string at the front of `input`.
pub fn read_delimited<'a>(input: &'a [u8]) -> (r: Result<(&'a [u8], &'a [u8]), CodecError>)
    ensures
        match r {
            Ok((data, rest)) => parse_delimited(input@) == Ok::<_, CodecError>((data@, rest@)),
            Err(error) => parse_delimited(input@) == Err::<(Seq<u8>, Seq<u8>), _>(error),
        },
{
    match read_varint(input) {
        Err(error) => Err(error),
        Ok((len, rest)) => {
            if len > rest.len() as u64 {
                Err(CodecError::BufferUnderflow)
            } else {
                let at: usize = len as usize;
                let data = slice_subrange(rest, 0, at);
                let rest = slice_subrange(rest, at, rest.len());
                Ok((data, rest))
            }
        },
    }
}

/// Calls `std::str::from_utf8`: the bytes as a string where they are valid
/// UTF-8, and nothing where they are not.
#[verifier::external_body]
fn utf8_str<'a>(bytes: &'a [u8]) -> (r: Option<&'a str>)
    ensures
        r is Some <==> valid_utf8(bytes@),
        r matches Some(text) ==> text.spec_bytes() == bytes@,
{
    match std::str::from_utf8(bytes) {
        Ok(text) => Some(text),
        Err(_) => None,
    }
}

/// A key of one of the tables.
pub trait TableKey: Sized {
    /// The table that keys of this type belong to.
    spec fn kind() -> TableKind;

    /// The bytes of the key: those of its fields, in their order.
    spec fn encoding(&self) -> Seq<u8>;

    /// The table that keys of this type belong to.
    fn table() -> (kind: TableKind)
        ensures
            kind == Self::kind(),
    ;

    /// Every field of the key is there: it is the key of a row, not only the
    /// front of keys.
    spec fn complete(&self) -> bool;

    /// Whether every field is there.
    fn is_complete(&self) -> (complete: bool)
        ensures
            complete == self.complete(),
    ;

    /// Appends the bytes of the key to `out`.
    fn serialize_to(&self, out: &mut Vec<u8>)
        ensures
            final(out)@ == old(out)@ + self.encoding(),
    ;

    /// The bytes of the key.
    fn serialize(&self) -> (bytes: Vec<u8>)
        ensures
            bytes@ == self.encoding(),
    ;
}

/// The key of the table that holds the status of each virtual object. A key
/// may hold only its leading fields: it is then the prefix of the keys that
/// begin with them.
#[derive(Clone, Debug, PartialEq, Eq)]
pub struct ServiceStatusKey {
    pub partition_key: Option<PartitionKey>,
    pub service_name: Option<String>,
    pub service_key: Option<Vec<u8>>,
}

/// A [`ServiceStatusKey`] as plain values.
pub struct ServiceStatusKeyView {
    pub partition_key: Option<PartitionKey>,
    pub service_name: Option<Seq<char>>,
    pub service_key: Option<Seq<u8>>,
}

impl View for ServiceStatusKey {
    type V = ServiceStatusKeyView;

    open spec fn view(&self) -> ServiceStatusKeyView {
        ServiceStatusKeyView {
            partition_key: self.partition_key,
            service_name: match self.service_name {
                Some(name) => Some(name@),
                None => None,
            },
            service_key: match self.service_key {
                Some(key) => Some(key@),
                None => None,
            },
        }
    }
}

impl ServiceStatusKeyView {
    /// The key without any field.
    pub open spec fn empty() -> ServiceStatusKeyView {
        ServiceStatusKeyView { partition_key: None, service_name: None, service_key: None }
    }

    /// The key of the row of one entity.
    pub open spec fn complete(partition_key: PartitionKey, name: Seq<char>, key: Seq<u8>) -> ServiceStatusKeyView {
        ServiceStatusKeyView {
            partition_key: Some(partition_key),
            service_name: Some(name),
            service_key: Some(key),
        }
    }

    /// Every field is there.
    pub open spec fn is_complete(self) -> bool {
        self.partition_key is Some && self.service_name is Some && self.service_key is Some
    }

    /// The fields that are there are the leading ones, and each is short
    /// enough for its length to be written.
    pub open spec fn is_prefix_form(self) -> bool {
        &&& self.service_name is Some ==> self.partition_key is Some
        &&& self.service_key is Some ==> self.service_name is Some
        &&& self.service_name matches Some(name) ==> encode_utf8(name).len() <= u64::MAX
        &&& self.service_key matches Some(key) ==> key.len() <= u64::MAX
    }

    /// The bytes of the key: the partition key in eight bytes, the most
    /// significant first, then the name and the entity's key, each behind
    /// its length. A field that is not there adds nothing.
    pub open spec fn encoding(self) -> Seq<u8> {
        (match self.partition_key {
            Some(partition_key) => be_bytes(partition_key as nat, 8),
            None => Seq::empty(),
        }) + (match self.service_name {
            Some(name) => delimited(encode_utf8(name)),
            None => Seq::empty(),
        }) + (match self.service_key {
            Some(key) => delimited(key),
            None => Seq::empty(),
        })
    }

    /// The key that `input` holds. The fields are read in their order until
    /// the input ends; input that ends within a field, a name that is not
    /// UTF-8 and bytes behind the last field are errors.
    pub open spec fn decoding(input: Seq<u8>) -> Result<ServiceStatusKeyView, CodecError> {
        if input.len() == 0 {
            Ok(ServiceStatusKeyView::empty())
        } else if input.len() < 8 {
            Err(CodecError::BufferUnderflow)
        } else {
            let partition_key = Some(be_value(input.take(8)) as u64);
            let input = input.skip(8);
            if input.len() == 0 {
                Ok(ServiceStatusKeyView { partition_key, service_name: None, service_key: None })
            } else {
                match parse_delimited(input) {
                    Err(error) => Err(error),
                    Ok((name, input)) => if !valid_utf8(name) {
                        Err(CodecError::InvalidUtf8)
                    } else {
                        let service_name = Some(decode_utf8(name));
                        if input.len() == 0 {
                            Ok(ServiceStatusKeyView { partition_key, service_name, service_key: None })
                        } else {
                            match parse_delimited(input) {
                                Err(error) => Err(error),
                                Ok((key, input)) => if input.len() != 0 {
                                    Err(CodecError::TrailingBytes)
                                } else {
                                    Ok(
                                        ServiceStatusKeyView {
                                            partition_key,
                                            service_name,
                                            service_key: Some(key),
                                        },
                                    )
                                },
                            }
                        }
                    },
                }
            }
        }
    }
}

/// A key is read back from its bytes: decoding undoes encoding, for every
/// key that holds its leading fields.
pub proof fn lemma_key_roundtrip(key: ServiceStatusKeyView)
    requires
        key.is_prefix_form(),
    ensures
        ServiceStatusKeyView::decoding(key.encoding()) == Ok::<_, CodecError>(key),
{
    broadcast use vstd::utf8::encode_utf8_valid_utf8, vstd::utf8::encode_utf8_decode_utf8;

    let bytes = key.encoding();
    match key.partition_key {
        None => {
            assert(bytes =~= Seq::<u8>::empty());
        },
        Some(partition_key) => {
            let head = be_bytes(partition_key as nat, 8);
            lemma_be_len(partition_key as nat, 8);
            lemma_u64_fits(partition_key as nat);
            lemma_be_roundtrip(partition_key as nat, 8);
            assert(bytes.take(8) =~= head);
            match key.service_name {
                None => {
                    assert(bytes.skip(8) =~= Seq::<u8>::empty());
                },
                Some(name) => {
                    let name_bytes = encode_utf8(name);
                    assert(valid_utf8(name_bytes));
                    assert(decode_utf8(name_bytes) == name);
                    match key.service_key {
                        None => {
                            assert(bytes.skip(8) =~= delimited(name_bytes) + Seq::<u8>::empty());
                            lemma_delimited_roundtrip(name_bytes, Seq::<u8>::empty());
                        },
                        Some(service_key) => {
                            let tail = delimited(service_key);
                            assert(bytes.skip(8) =~= delimited(name_bytes) + tail);
                            lemma_delimited_roundtrip(name_bytes, tail);
                            assert(tail =~= tail + Seq::<u8>::empty());
                            lemma_delimited_roundtrip(service_key, Seq::<u8>::empty());
                            assert(tail.len() > 0);
                        },
                    }
                },
            }
        },
    }
}

impl Default for ServiceStatusKey {
    /// The key without any field.
    fn default() -> (key: Self)
        ensures
            key@ == ServiceStatusKeyView::empty(),
    {
        ServiceStatusKey { partition_key: None, service_name: None, service_key: None }
    }
}

impl TableKey for ServiceStatusKey {
    open spec fn kind() -> TableKind {
        TableKind::ServiceStatus
    }

    open spec fn encoding(&self) -> Seq<u8> {
        self@.encoding()
    }

    fn table() -> (kind: TableKind) {
        TableKind::ServiceStatus
    }

    open spec fn complete(&self) -> bool {
        self@.is_complete()
    }

    fn is_complete(&self) -> (complete: bool) {
        self.partition_key.is_some() && self.service_name.is_some() && self.service_key.is_some()
    }

    fn serialize_to(&self, out: &mut Vec<u8>) {
        match self.partition_key {
            Some(partition_key) => write_u64(partition_key, out),
            None => {},
        }
        match &self.service_name {
            Some(name) => write_delimited(name.as_str().as_bytes(), out),
            None => {},
        }
        match &self.service_key {
            Some(key) => write_delimited(key.as_slice(), out),
            None => {},
        }
        proof {
            assert(out@ =~= old(out)@ + self@.encoding());
        }
    }

    fn serialize(&self) -> (bytes: Vec<u8>) {
        let mut bytes: Vec<u8> = Vec::new();
        self.serialize_to(&mut bytes);
        proof {
            assert(bytes@ =~= self@.encoding());
        }
        bytes
    }
}

impl ServiceStatusKey {
    /// The key with this partition key.
    pub fn partition_key(self, partition_key: PartitionKey) -> (key: Self)
        ensures
            key@ == (ServiceStatusKeyView { partition_key: Some(partition_key), ..self@ }),
    {
        ServiceStatusKey {
            partition_key: Some(partition_key),
            service_name: self.service_name,
            service_key: self.service_key,
        }
    }

    /// The key with this name.
    pub fn service_name(self, service_name: String) -> (key: Self)
        ensures
            key@ == (ServiceStatusKeyView { service_name: Some(service_name@), ..self@ }),
    {
        ServiceStatusKey {
            partition_key: self.partition_key,
            service_name: Some(service_name),
            service_key: self.service_key,
        }
    }

    /// The key with this entity key.
    pub fn service_key(self, service_key: Vec<u8>) -> (key: Self)
        ensures
            key@ == (ServiceStatusKeyView { service_key: Some(service_key@), ..self@ }),
    {
        ServiceStatusKey {
            partition_key: self.partition_key,
            service_name: self.service_name,
            service_key: Some(service_key),
        }
    }

    /// The key that `input` holds, or the reason why it holds none.
    pub fn deserialize_from(input: &[u8]) -> (r: Result<ServiceStatusKey, StorageError>)
        ensures
            match r {
                Ok(key) => ServiceStatusKeyView::decoding(input@) == Ok::<_, CodecError>(key@),
                Err(error) => ServiceStatusKeyView::decoding(input@) is Err && error
                    == StorageError::Generic(ServiceStatusKeyView::decoding(input@)->Err_0),
            },
    {
        broadcast use vstd::utf8::encode_utf8_decode_utf8;

        if input.len() == 0 {
            return Ok(ServiceStatusKey::default());
        }
        let (partition_key, input) = match read_u64(input) {
            Err(error) => {
                return Err(StorageError::Generic(error));
            },
            Ok(found) => found,
        };
        if input.len() == 0 {
            return Ok(ServiceStatusKey::default().partition_key(partition_key));
        }
        let (name, input) = match read_delimited(input) {
            Err(error) => {
                return Err(StorageError::Generic(error));
            },
            Ok(found) => found,
        };
        let name = match utf8_str(name) {
            None => {
                return Err(StorageError::Generic(CodecError::InvalidUtf8));
            },
            Some(text) => text.to_owned(),
        };
        if input.len() == 0 {
            return Ok(ServiceStatusKey::default().partition_key(partition_key).service_name(name));
        }
        let (key, input) = match read_delimited(input) {
            Err(error) => {
                return Err(StorageError::Generic(error));
            },
            Ok(found) => found,
        };
        if input.len() != 0 {
            return Err(StorageError::Generic(CodecError::TrailingBytes));
        }
        let key = vstd::slice::slice_to_vec(key);
        Ok(
            ServiceStatusKey::default().partition_key(partition_key).service_name(name).service_key(
                key,
            ),
        )
    }
}

} // verus!
