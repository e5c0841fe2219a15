//! The table of the status of virtual objects: one row for each object that
//! is locked, none for one that is free.

use std::ops::RangeInclusive;
use vstd::prelude::*;
use vstd::slice::slice_to_vec;
use crate::errors::{CodecError, StorageError};
use crate::fixed::{be_bytes, be_value, lemma_be_len, lemma_be_of_value, lemma_be_order,
    lemma_be_roundtrip, lemma_u64_fits};
use crate::identifiers::{PartitionKey, ServiceId, ServiceIdView};
use crate::keys::{delimited, lemma_delimited_roundtrip, lemma_key_roundtrip, ServiceStatusKey,
    ServiceStatusKeyView, TableKey, TableKind};
use crate::lex::{is_prefix, lemma_lex_asymmetric, lemma_lex_common_prefix, lemma_lex_decided,
    lemma_lex_irreflexive, lemma_lex_transitive, lex_lt};
use crate::owned_iter::OwnedIterator;
use crate::status::VirtualObjectStatus;
use crate::storage::{stored_value, value_view, RocksDBStorage, RocksDBTransaction, StorageAccess,
    TableScan};
use crate::table::{has_key, in_bounds, is_scan, lemma_scan_unique};
use crate::wire::{decode_status, encode_status, lemma_status_bytes_roundtrip, status_bytes,
    status_from_bytes};

verus! {

/// The bytes of the key of the row of the entity `id`.
pub open spec fn status_key(id: ServiceIdView) -> Seq<u8> {
    ServiceStatusKeyView::complete(id.partition_key, id.service_name, id.key).encoding()
}

/// The status that a stored value stands for, and that the absence of a
/// value stands for: an entity without a row is unlocked.
pub open spec fn value_status(value: Option<Seq<u8>>) -> Result<VirtualObjectStatus, StorageError> {
    match value {
        None => Ok(VirtualObjectStatus::Unlocked),
        Some(bytes) => status_from_bytes(bytes),
    }
}

/// The status of the entity `id` in a table with the rows `rows`.
pub open spec fn status_lookup(rows: Map<Seq<u8>, Seq<u8>>, id: ServiceIdView) -> Result<
    VirtualObjectStatus,
    StorageError,
> {
    value_status(stored_value(rows, status_key(id)))
}

/// The rows after `status` has been put for the entity `id`: a lock is
/// stored in its row, in place of what was there; `Unlocked` removes the row.
pub open spec fn status_put(
    rows: Map<Seq<u8>, Seq<u8>>,
    id: ServiceIdView,
    status: VirtualObjectStatus,
) -> Map<Seq<u8>, Seq<u8>> {
    if status == VirtualObjectStatus::Unlocked {
        rows.remove(status_key(id))
    } else {
        rows.insert(status_key(id), status_bytes(status))
    }
}

/// The rows after the row of the entity `id` has been deleted.
pub open spec fn status_delete(rows: Map<Seq<u8>, Seq<u8>>, id: ServiceIdView) -> Map<
    Seq<u8>,
    Seq<u8>,
> {
    rows.remove(status_key(id))
}

/// The first key that a scan of the partition keys from `first` on covers.
pub open spec fn partition_start(first: PartitionKey) -> Seq<u8> {
    be_bytes(first as nat, 8)
}

/// The first key behind a scan of the partition keys up to `last`; there is
/// none behind the greatest partition key.
pub open spec fn partition_end(last: PartitionKey) -> Option<Seq<u8>> {
    if last == u64::MAX {
        None
    } else {
        Some(be_bytes((last + 1) as nat, 8))
    }
}

/// The rows of `rows` with a key between the bounds, in ascending order of
/// their keys.
pub open spec fn scan_of(rows: Map<Seq<u8>, Seq<u8>>, start: Seq<u8>, end: Option<Seq<u8>>) -> Seq<
    (Seq<u8>, Seq<u8>),
> {
    choose|scan: Seq<(Seq<u8>, Seq<u8>)>| is_scan(scan, rows, start, end)
}

/// The key that is written and read for the entity `service_id`.
pub fn write_status_key(service_id: &ServiceId) -> (key: ServiceStatusKey)
    ensures
        key@ == ServiceStatusKeyView::complete(
            service_id@.partition_key,
            service_id@.service_name,
            service_id@.key,
        ),
        key.encoding() == status_key(service_id@),
{
    ServiceStatusKey::default().partition_key(service_id.partition_key()).service_name(
        service_id.service_name.clone(),
    ).service_key(slice_to_vec(service_id.key.as_slice()))
}

/// Puts the status of an entity: a lock is stored, `Unlocked` removes the
/// row, so that the state of most entities takes no space.
pub fn put_virtual_object_status<S: StorageAccess>(
    storage: &mut S,
    service_id: &ServiceId,
    status: VirtualObjectStatus,
)
    ensures
        final(storage).rows(TableKind::ServiceStatus) == status_put(
            old(storage).rows(TableKind::ServiceStatus),
            service_id@,
            status,
        ),
        forall|other: TableKind|
            other != TableKind::ServiceStatus ==> #[trigger] final(storage).rows(other) == old(
                storage,
            ).rows(other),
{
    let key = write_status_key(service_id);
    if status == VirtualObjectStatus::Unlocked {
        storage.delete_key(&key);
    } else {
        let value = encode_status(status);
        storage.put_kv(key, value.as_slice());
    }
}

/// The status of an entity: `Unlocked` where it has no row, else what its
/// row holds, or the error that says why the row cannot be read.
pub fn get_virtual_object_status<S: StorageAccess>(storage: &mut S, service_id: &ServiceId) -> (r:
    Result<VirtualObjectStatus, StorageError>)
    ensures
        r == status_lookup(old(storage).rows(TableKind::ServiceStatus), service_id@),
        forall|table: TableKind| #[trigger] final(storage).rows(table) == old(storage).rows(table),
{
    let key = write_status_key(service_id);
    let decode = |_key: &[u8], value: Option<&[u8]>| -> (r: Result<
        VirtualObjectStatus,
        StorageError,
    >)
        ensures
            r == value_status(value_view(value)),
        {
            match value {
                None => Ok(VirtualObjectStatus::Unlocked),
                Some(bytes) => decode_status(bytes),
            }
        };
    storage.get_blocking(key, decode)
}

/// Deletes the row of an entity, whether or not there is one.
pub fn delete_virtual_object_status<S: StorageAccess>(storage: &mut S, service_id: &ServiceId)
    ensures
        final(storage).rows(TableKind::ServiceStatus) == status_delete(
            old(storage).rows(TableKind::ServiceStatus),
            service_id@,
        ),
        forall|other: TableKind|
            other != TableKind::ServiceStatus ==> #[trigger] final(storage).rows(other) == old(
                storage,
            ).rows(other),
{
    let key = write_status_key(service_id);
    storage.delete_key(&key);
}

/// The table as a reader sees it.
pub trait ReadOnlyVirtualObjectStatusTable {
    /// The rows of the table, by the bytes of their keys.
    spec fn status_rows(&self) -> Map<Seq<u8>, Seq<u8>>;

    /// The status of an entity.
    fn get_virtual_object_status(&mut self, service_id: &ServiceId) -> (r: Result<
        VirtualObjectStatus,
        StorageError,
    >)
        ensures
            r == status_lookup(old(self).status_rows(), service_id@),
            final(self).status_rows() == old(self).status_rows(),
    ;
}

/// The table as a writer sees it: what a reader sees, and the two writes.
pub trait VirtualObjectStatusTable: ReadOnlyVirtualObjectStatusTable {
    /// Puts the status of an entity.
    fn put_virtual_object_status(&mut self, service_id: &ServiceId, status: VirtualObjectStatus)
        ensures
            final(self).status_rows() == status_put(old(self).status_rows(), service_id@, status),
    ;

    /// Deletes the row of an entity.
    fn delete_virtual_object_status(&mut self, service_id: &ServiceId)
        ensures
            final(self).status_rows() == status_delete(old(self).status_rows(), service_id@),
    ;
}

impl ReadOnlyVirtualObjectStatusTable for RocksDBStorage {
    open spec fn status_rows(&self) -> Map<Seq<u8>, Seq<u8>> {
        self.rows(TableKind::ServiceStatus)
    }

    fn get_virtual_object_status(&mut self, service_id: &ServiceId) -> (r: Result<
        VirtualObjectStatus,
        StorageError,
    >)
        ensures
            forall|table: TableKind| #[trigger] final(self).rows(table) == old(self).rows(table),
    {
        get_virtual_object_status(self, service_id)
    }
}

impl ReadOnlyVirtualObjectStatusTable for RocksDBTransaction {
    open spec fn status_rows(&self) -> Map<Seq<u8>, Seq<u8>> {
        self.rows(TableKind::ServiceStatus)
    }

    fn get_virtual_object_status(&mut self, service_id: &ServiceId) -> (r: Result<
        VirtualObjectStatus,
        StorageError,
    >)
        ensures
            forall|table: TableKind| #[trigger] final(self).rows(table) == old(self).rows(table),
    {
        get_virtual_object_status(self, service_id)
    }
}

impl VirtualObjectStatusTable for RocksDBTransaction {
    fn put_virtual_object_status(&mut self, service_id: &ServiceId, status: VirtualObjectStatus)
        ensures
            forall|other: TableKind|
                other != TableKind::ServiceStatus ==> #[trigger] final(self).rows(other) == old(
                    self,
                ).rows(other),
    {
        put_virtual_object_status(self, service_id, status)
    }

    fn delete_virtual_object_status(&mut self, service_id: &ServiceId)
        ensures
            forall|other: TableKind|
                other != TableKind::ServiceStatus ==> #[trigger] final(self).rows(other) == old(
                    self,
                ).rows(other),
    {
        delete_virtual_object_status(self, service_id)
    }
}

/// A row of the table with nothing borrowed: the entity and its status.
#[derive(Clone, Debug, PartialEq, Eq)]
pub struct OwnedVirtualObjectStatusRow {
    pub partition_key: PartitionKey,
    pub name: String,
    pub key: Vec<u8>,
    pub status: VirtualObjectStatus,
}

/// An [`OwnedVirtualObjectStatusRow`] as plain values.
pub struct OwnedVirtualObjectStatusRowView {
    pub partition_key: PartitionKey,
    pub name: Seq<char>,
    pub key: Seq<u8>,
    pub status: VirtualObjectStatus,
}

impl View for OwnedVirtualObjectStatusRow {
    type V = OwnedVirtualObjectStatusRowView;

    open spec fn view(&self) -> OwnedVirtualObjectStatusRowView {
        OwnedVirtualObjectStatusRowView {
            partition_key: self.partition_key,
            name: self.name@,
            key: self.key@,
            status: self.status,
        }
    }
}

/// The rows of a vector as plain values.
pub open spec fn owned_rows_view(rows: Seq<OwnedVirtualObjectStatusRow>) -> Seq<
    OwnedVirtualObjectStatusRowView,
> {
    Seq::new(rows.len(), |i: int| rows[i]@)
}

/// The row that a stored key and value stand for. The key must decode, then
/// the value, and the key must hold all its fields.
pub open spec fn decode_row(key: Seq<u8>, value: Seq<u8>) -> Result<
    OwnedVirtualObjectStatusRowView,
    StorageError,
> {
    match ServiceStatusKeyView::decoding(key) {
        Err(error) => Err(StorageError::Generic(error)),
        Ok(fields) => match status_from_bytes(value) {
            Err(error) => Err(error),
            Ok(status) => if fields.is_complete() {
                Ok(
                    OwnedVirtualObjectStatusRowView {
                        partition_key: fields.partition_key->Some_0,
                        name: fields.service_name->Some_0,
                        key: fields.service_key->Some_0,
                        status,
                    },
                )
            } else {
                Err(StorageError::DataIntegrityError)
            },
        },
    }
}

/// The rows that stored rows stand for, or the error of the first of them
/// that stands for none.
pub open spec fn decode_rows(raw: Seq<(Seq<u8>, Seq<u8>)>) -> Result<
    Seq<OwnedVirtualObjectStatusRowView>,
    StorageError,
>
    decreases raw.len(),
{
    if raw.len() == 0 {
        Ok(Seq::empty())
    } else {
        match decode_rows(raw.drop_last()) {
            Err(error) => Err(error),
            Ok(rows) => match decode_row(raw.last().0, raw.last().1) {
                Err(error) => Err(error),
                Ok(row) => Ok(rows.push(row)),
            },
        }
    }
}

/// Decodes one stored row.
pub fn read_row(key: &[u8], value: &[u8]) -> (r: Result<OwnedVirtualObjectStatusRow, StorageError>)
    ensures
        match r {
            Ok(row) => decode_row(key@, value@) == Ok::<_, StorageError>(row@),
            Err(error) => decode_row(key@, value@) == Err::<OwnedVirtualObjectStatusRowView, _>(
                error,
            ),
        },
{
    let fields = match ServiceStatusKey::deserialize_from(key) {
        Err(error) => {
            return Err(error);
        },
        Ok(fields) => fields,
    };
    let status = match decode_status(value) {
        Err(error) => {
            return Err(error);
        },
        Ok(status) => status,
    };
    match (fields.partition_key, fields.service_name, fields.service_key) {
        (Some(partition_key), Some(name), Some(key)) => Ok(
            OwnedVirtualObjectStatusRow { partition_key, name, key, status },
        ),
        _ => Err(StorageError::DataIntegrityError),
    }
}

impl RocksDBStorage {
    /// The rows of the entities whose partition key lies in `range`, both
    /// ends included, in ascending order of their keys. A row that cannot be
    /// decoded ends the scan with its error: no row is passed over.
    pub fn all_virtual_object_status(&self, range: RangeInclusive<PartitionKey>) -> (r: Result<
        Vec<OwnedVirtualObjectStatusRow>,
        StorageError,
    >)
        ensures
            is_scan(
                scan_of(
                    self.rows(TableKind::ServiceStatus),
                    partition_start(range@.start),
                    partition_end(range@.end),
                ),
                self.rows(TableKind::ServiceStatus),
                partition_start(range@.start),
                partition_end(range@.end),
            ),
            match r {
                Ok(rows) => decode_rows(
                    scan_of(
                        self.rows(TableKind::ServiceStatus),
                        partition_start(range@.start),
                        partition_end(range@.end),
                    ),
                ) == Ok::<_, StorageError>(owned_rows_view(rows@)),
                Err(error) => decode_rows(
                    scan_of(
                        self.rows(TableKind::ServiceStatus),
                        partition_start(range@.start),
                        partition_end(range@.end),
                    ),
                ) == Err::<Seq<OwnedVirtualObjectStatusRowView>, _>(error),
            },
    {
        let ghost table = self.rows(TableKind::ServiceStatus);
        let ghost start = partition_start(range@.start);
        let ghost end = partition_end(range@.end);
        let iter = self.iterator_from(TableScan::<ServiceStatusKey>::PartitionKeyRange(range));
        let ghost raw = iter.remaining();
        proof {
            lemma_scan_unique(raw, scan_of(table, start, end), table, start, end);
        }
        let mut owned = OwnedIterator::new(iter);
        let mut rows: Vec<OwnedVirtualObjectStatusRow> = Vec::new();
        let ghost mut n: int = 0;
        let mut next = owned.next();
        proof {
            assert(raw.take(0) =~= Seq::empty());
            assert(owned_rows_view(rows@) =~= Seq::empty());
        }
        while next.is_some()
            invariant
                0 <= n <= raw.len(),
                raw == scan_of(
                    self.rows(TableKind::ServiceStatus),
                    partition_start(range@.start),
                    partition_end(range@.end),
                ),
                is_scan(
                    raw,
                    self.rows(TableKind::ServiceStatus),
                    partition_start(range@.start),
                    partition_end(range@.end),
                ),
                decode_rows(raw.take(n)) == Ok::<_, StorageError>(owned_rows_view(rows@)),
                match next {
                    Some((key, value)) => n < raw.len() && (key@, value@) == raw[n]
                        && owned.remaining() == raw.skip(n + 1),
                    None => n == raw.len(),
                },
            decreases raw.len() - n,
        {
            let (key, value) = next.unwrap();
            proof {
                assert(raw.take(n + 1).drop_last() =~= raw.take(n));
                assert(raw.take(n + 1).last() == raw[n]);
            }
            match read_row(key.as_slice(), value.as_slice()) {
                Err(error) => {
                    proof {
                        assert(decode_row(raw[n].0, raw[n].1) == Err::<
                            OwnedVirtualObjectStatusRowView,
                            _,
                        >(error));
                        assert(decode_rows(raw.take(n + 1)) == Err::<
                            Seq<OwnedVirtualObjectStatusRowView>,
                            _,
                        >(error));
                        lemma_decode_rows_error(raw, n + 1);
                    }
                    return Err(error);
                },
                Ok(row) => {
                    proof {
                        assert(owned_rows_view(rows@.push(row)) =~= owned_rows_view(rows@).push(
                            row@,
                        ));
                    }
                    rows.push(row);
                },
            }
            next = owned.next();
            proof {
                if n + 1 < raw.len() {
                    assert(raw.skip(n + 1).skip(1) =~= raw.skip(n + 2));
                    assert(raw.skip(n + 1)[0] == raw[n + 1]);
                }
                n = n + 1;
            }
        }
        proof {
            assert(raw.take(n) =~= raw);
        }
        Ok(rows)
    }
}

/// An error among the first rows is the error of all the rows.
pub proof fn lemma_decode_rows_error(raw: Seq<(Seq<u8>, Seq<u8>)>, n: int)
    requires
        0 <= n <= raw.len(),
        decode_rows(raw.take(n)) is Err,
    ensures
        decode_rows(raw) == decode_rows(raw.take(n)),
    decreases raw.len() - n,
{
    if n < raw.len() {
        assert(raw.take(n + 1).drop_last() =~= raw.take(n));
        lemma_decode_rows_error(raw, n + 1);
    } else {
        assert(raw.take(n) =~= raw);
    }
}

/// The name and the key of the entity are short enough for their lengths to
/// be written. Every identity that a program holds is.
pub open spec fn key_fits(id: ServiceIdView) -> bool {
    vstd::utf8::encode_utf8(id.service_name).len() <= u64::MAX && id.key.len() <= u64::MAX
}

/// The name of an entity as it stands in a key.
pub open spec fn name_field(id: ServiceIdView) -> Seq<u8> {
    delimited(vstd::utf8::encode_utf8(id.service_name))
}

/// The key of an entity as it stands in a key of the table.
pub open spec fn key_field(id: ServiceIdView) -> Seq<u8> {
    delimited(id.key)
}

/// The key of an entity's row is read back as the identity of the entity.
pub proof fn lemma_status_key_roundtrip(id: ServiceIdView)
    requires
        key_fits(id),
    ensures
        ServiceStatusKeyView::decoding(status_key(id)) == Ok::<_, CodecError>(
            ServiceStatusKeyView::complete(id.partition_key, id.service_name, id.key),
        ),
{
    lemma_key_roundtrip(ServiceStatusKeyView::complete(id.partition_key, id.service_name, id.key));
}

/// Different entities have different keys, so that no two of them share a row.
pub proof fn lemma_status_key_injective(a: ServiceIdView, b: ServiceIdView)
    requires
        key_fits(a),
        key_fits(b),
        status_key(a) == status_key(b),
    ensures
        a == b,
{
    lemma_status_key_roundtrip(a);
    lemma_status_key_roundtrip(b);
}

/// A delimited field ends where it says: none is the front of another.
pub proof fn lemma_delimited_prefix_free(a: Seq<u8>, b: Seq<u8>)
    requires
        a.len() <= u64::MAX,
        b.len() <= u64::MAX,
        is_prefix(delimited(a), delimited(b)),
    ensures
        a == b,
{
    let da = delimited(a);
    let db = delimited(b);
    let tail = db.skip(da.len() as int);
    assert(db =~= da + tail);
    assert(db =~= db + Seq::<u8>::empty());
    lemma_delimited_roundtrip(a, tail);
    lemma_delimited_roundtrip(b, Seq::<u8>::empty());
}

/// The order of the rows is that of their fields: the partition key decides
/// as a number; among the rows of one partition the name decides, as it is
/// encoded, and among the rows of one name the entity's key, as it is encoded.
pub proof fn lemma_key_order(a: ServiceIdView, b: ServiceIdView)
    requires
        key_fits(a),
        key_fits(b),
    ensures
        lex_lt(status_key(a), status_key(b)) == {
            ||| a.partition_key < b.partition_key
            ||| a.partition_key == b.partition_key && lex_lt(name_field(a), name_field(b))
            ||| a.partition_key == b.partition_key && a.service_name == b.service_name && lex_lt(
                key_field(a),
                key_field(b),
            )
        },
{
    broadcast use vstd::utf8::encode_utf8_decode_utf8;

    let pa = be_bytes(a.partition_key as nat, 8);
    let pb = be_bytes(b.partition_key as nat, 8);
    let ta = name_field(a) + key_field(a);
    let tb = name_field(b) + key_field(b);
    assert(status_key(a) =~= pa + ta);
    assert(status_key(b) =~= pb + tb);
    lemma_be_len(a.partition_key as nat, 8);
    lemma_be_len(b.partition_key as nat, 8);
    lemma_u64_fits(a.partition_key as nat);
    lemma_u64_fits(b.partition_key as nat);
    lemma_be_order(a.partition_key as nat, b.partition_key as nat, 8);
    if a.partition_key != b.partition_key {
        assert(!is_prefix(pa, pb)) by {
            if is_prefix(pa, pb) {
                assert(pb.take(8) =~= pb);
            }
        }
        assert(!is_prefix(pb, pa)) by {
            if is_prefix(pb, pa) {
                assert(pa.take(8) =~= pa);
            }
        }
        lemma_lex_decided(pa, ta, pb, tb);
    } else {
        lemma_lex_common_prefix(pa, ta, tb);
        if name_field(a) == name_field(b) {
            assert(name_field(b).take(name_field(a).len() as int) =~= name_field(a));
            lemma_delimited_prefix_free(
                vstd::utf8::encode_utf8(a.service_name),
                vstd::utf8::encode_utf8(b.service_name),
            );
            assert(vstd::utf8::decode_utf8(vstd::utf8::encode_utf8(a.service_name))
                == a.service_name);
            assert(vstd::utf8::decode_utf8(vstd::utf8::encode_utf8(b.service_name))
                == b.service_name);
            lemma_lex_common_prefix(name_field(a), key_field(a), key_field(b));
            lemma_lex_irreflexive(name_field(a));
        } else {
            assert(!is_prefix(name_field(a), name_field(b))) by {
                if is_prefix(name_field(a), name_field(b)) {
                    lemma_delimited_prefix_free(
                        vstd::utf8::encode_utf8(a.service_name),
                        vstd::utf8::encode_utf8(b.service_name),
                    );
                }
            }
            assert(!is_prefix(name_field(b), name_field(a))) by {
                if is_prefix(name_field(b), name_field(a)) {
                    lemma_delimited_prefix_free(
                        vstd::utf8::encode_utf8(b.service_name),
                        vstd::utf8::encode_utf8(a.service_name),
                    );
                }
            }
            lemma_lex_decided(name_field(a), key_field(a), name_field(b), key_field(b));
        }
    }
}

/// A scan of a range of partition keys covers a key of eight bytes or more
/// exactly where the number in its first eight bytes lies in the range.
pub proof fn lemma_partition_bounds(key: Seq<u8>, first: PartitionKey, last: PartitionKey)
    requires
        key.len() >= 8,
    ensures
        in_bounds(key, partition_start(first), partition_end(last)) == (first <= be_value(
            key.take(8),
        ) <= last),
{
    let head = key.take(8);
    let tail = key.skip(8);
    let p = be_value(head);
    lemma_be_of_value(head);
    lemma_u64_fits(p);
    assert(key =~= head + tail);
    lemma_bound_order(head, tail, first as nat);
    if last < u64::MAX {
        lemma_bound_order(head, tail, (last + 1) as nat);
    }
}

/// A key stands before the eight bytes of a number exactly where the number
/// in its own first eight bytes is smaller.
proof fn lemma_bound_order(head: Seq<u8>, tail: Seq<u8>, bound: nat)
    requires
        head.len() == 8,
        bound <= u64::MAX,
    ensures
        lex_lt(head + tail, be_bytes(bound, 8)) == (be_value(head) < bound),
{
    let p = be_value(head);
    let b = be_bytes(bound, 8);
    lemma_be_of_value(head);
    lemma_u64_fits(p);
    lemma_u64_fits(bound);
    lemma_be_len(bound, 8);
    lemma_be_order(p, bound, 8);
    assert(b =~= b + Seq::<u8>::empty());
    if head == b {
        lemma_lex_common_prefix(head, tail, Seq::<u8>::empty());
        assert(!lex_lt(tail, Seq::<u8>::empty()));
    } else {
        assert(!is_prefix(head, b)) by {
            if is_prefix(head, b) {
                assert(b.take(8) =~= b);
            }
        }
        assert(!is_prefix(b, head)) by {
            if is_prefix(b, head) {
                assert(head.take(8) =~= head);
            }
        }
        lemma_lex_decided(head, tail, b, Seq::<u8>::empty());
    }
}

/// Where all rows decode, each decoded row is that of the stored row at its place.
pub proof fn lemma_decode_rows_index(raw: Seq<(Seq<u8>, Seq<u8>)>, i: int)
    requires
        decode_rows(raw) is Ok,
        0 <= i < raw.len(),
    ensures
        decode_rows(raw)->Ok_0.len() == raw.len(),
        decode_row(raw[i].0, raw[i].1) == Ok::<_, StorageError>(decode_rows(raw)->Ok_0[i]),
    decreases raw.len(),
{
    let front = raw.drop_last();
    assert(decode_rows(front) is Ok);
    let before = decode_rows(front)->Ok_0;
    if front.len() == 0 {
        assert(before.len() == 0);
    } else {
        lemma_decode_rows_index(front, if i < front.len() { i } else { 0 });
    }
    assert(before.len() == front.len());
    let row = decode_row(raw.last().0, raw.last().1)->Ok_0;
    assert(decode_rows(raw)->Ok_0 == before.push(row));
    if i < front.len() {
        assert(front[i] == raw[i]);
        assert(before.push(row)[i] == before[i]);
    } else {
        assert(before.push(row)[i] == row);
    }
}

/// A row that decodes has a key of eight bytes or more, whose first eight
/// hold the partition key of the row.
pub proof fn lemma_decoded_partition_key(key: Seq<u8>, value: Seq<u8>)
    requires
        decode_row(key, value) is Ok,
    ensures
        key.len() >= 8,
        decode_row(key, value)->Ok_0.partition_key == be_value(key.take(8)),
{
    lemma_be_of_value(key.take(8));
    lemma_u64_fits(be_value(key.take(8)));
}

/// The rows of a scan of the partition keys from `first` to `last`: every
/// row has its partition key in that range, so that the scan of one
/// partition shows no row of another; the partition keys never descend
/// along the scan; and the keys of the rows ascend, in the order that
/// [`lemma_key_order`] describes.
pub proof fn lemma_partition_scan(
    raw: Seq<(Seq<u8>, Seq<u8>)>,
    table: Map<Seq<u8>, Seq<u8>>,
    first: PartitionKey,
    last: PartitionKey,
)
    requires
        is_scan(raw, table, partition_start(first), partition_end(last)),
        decode_rows(raw) is Ok,
    ensures
        decode_rows(raw)->Ok_0.len() == raw.len(),
        forall|i: int|
            0 <= i < raw.len() ==> first <= (#[trigger] decode_rows(raw)->Ok_0[i]).partition_key
                <= last,
        forall|i: int, j: int|
            0 <= i < j < raw.len() ==> (#[trigger] decode_rows(raw)->Ok_0[i]).partition_key <= (
            #[trigger] decode_rows(raw)->Ok_0[j]).partition_key,
        forall|i: int, j: int|
            0 <= i < j < raw.len() ==> lex_lt(#[trigger] raw[i].0, #[trigger] raw[j].0),
{
    let rows = decode_rows(raw)->Ok_0;
    if raw.len() > 0 {
        lemma_decode_rows_index(raw, 0);
    }
    assert forall|i: int| 0 <= i < raw.len() implies first <= (#[trigger] rows[i]).partition_key
        <= last by {
        lemma_decode_rows_index(raw, i);
        lemma_decoded_partition_key(raw[i].0, raw[i].1);
        lemma_partition_bounds(raw[i].0, first, last);
    }
    assert forall|i: int, j: int| 0 <= i < j < raw.len() implies (#[trigger] rows[i]).partition_key
        <= (#[trigger] rows[j]).partition_key by {
        lemma_decode_rows_index(raw, i);
        lemma_decode_rows_index(raw, j);
        lemma_decoded_partition_key(raw[i].0, raw[i].1);
        lemma_decoded_partition_key(raw[j].0, raw[j].1);
        assert(lex_lt(raw[i].0, raw[j].0));
        let hi = raw[i].0.take(8);
        let hj = raw[j].0.take(8);
        assert(raw[i].0 =~= hi + raw[i].0.skip(8));
        lemma_be_of_value(hj);
        lemma_u64_fits(be_value(hj));
        if be_value(hi) > be_value(hj) {
            // the key at `j` stands before the eight bytes of the greater number
            lemma_bound_order(hj, raw[j].0.skip(8), be_value(hi));
            lemma_be_of_value(hi);
            assert(raw[j].0 =~= hj + raw[j].0.skip(8));
            lemma_lex_common_prefix(hi, Seq::<u8>::empty(), raw[i].0.skip(8));
            assert(hi =~= hi + Seq::<u8>::empty());
            // so it stands before the key at `i`, or is the front of it
            if raw[i].0.skip(8).len() > 0 {
                lemma_lex_transitive(raw[j].0, hi, raw[i].0);
            }
            lemma_lex_asymmetric(raw[i].0, raw[j].0);
        }
    }
}

/// A scan of a range of partition keys shows every row of the table whose
/// key holds a partition key in the range.
pub proof fn lemma_partition_scan_complete(
    raw: Seq<(Seq<u8>, Seq<u8>)>,
    table: Map<Seq<u8>, Seq<u8>>,
    first: PartitionKey,
    last: PartitionKey,
    id: ServiceIdView,
)
    requires
        is_scan(raw, table, partition_start(first), partition_end(last)),
        table.contains_key(status_key(id)),
        first <= id.partition_key <= last,
    ensures
        has_key(raw, status_key(id)),
{
    let key = status_key(id);
    let head = be_bytes(id.partition_key as nat, 8);
    lemma_be_len(id.partition_key as nat, 8);
    lemma_u64_fits(id.partition_key as nat);
    lemma_be_roundtrip(id.partition_key as nat, 8);
    assert(key.take(8) =~= head);
    lemma_partition_bounds(key, first, last);
}

/// What is put is what is got: after a put, the status of the entity is the
/// status that was put, `Unlocked` too.
pub proof fn lemma_put_then_get(
    rows: Map<Seq<u8>, Seq<u8>>,
    id: ServiceIdView,
    status: VirtualObjectStatus,
)
    ensures
        status_lookup(status_put(rows, id, status), id) == Ok::<_, StorageError>(status),
{
    if status != VirtualObjectStatus::Unlocked {
        lemma_status_bytes_roundtrip(status);
    }
}

/// After `Unlocked` has been put for an entity, the table holds no row for
/// it, and no scan of the table, whatever its bounds, shows one.
pub proof fn lemma_unlocked_leaves_no_row(
    rows: Map<Seq<u8>, Seq<u8>>,
    id: ServiceIdView,
    raw: Seq<(Seq<u8>, Seq<u8>)>,
    start: Seq<u8>,
    end: Option<Seq<u8>>,
)
    requires
        is_scan(raw, status_put(rows, id, VirtualObjectStatus::Unlocked), start, end),
    ensures
        !status_put(rows, id, VirtualObjectStatus::Unlocked).contains_key(status_key(id)),
        !has_key(raw, status_key(id)),
{
    if has_key(raw, status_key(id)) {
        let i = choose|i: int| 0 <= i < raw.len() && (#[trigger] raw[i]).0 == status_key(id);
        assert(status_put(rows, id, VirtualObjectStatus::Unlocked).contains_key(raw[i].0));
    }
}

/// A put replaces: of two puts for one entity only the second shows, and the
/// table holds a row for the entity exactly where the second put a lock.
pub proof fn lemma_put_replaces(
    rows: Map<Seq<u8>, Seq<u8>>,
    id: ServiceIdView,
    first: VirtualObjectStatus,
    second: VirtualObjectStatus,
)
    ensures
        status_put(status_put(rows, id, first), id, second) == status_put(rows, id, second),
        status_lookup(status_put(status_put(rows, id, first), id, second), id) == Ok::<
            _,
            StorageError,
        >(second),
        status_put(rows, id, second).contains_key(status_key(id)) == (second
            != VirtualObjectStatus::Unlocked),
{
    assert(status_put(status_put(rows, id, first), id, second) =~= status_put(rows, id, second));
    lemma_put_then_get(rows, id, second);
}

/// No key occurs twice in a scan: an entity has at most one row.
pub proof fn lemma_scan_keys_distinct(
    raw: Seq<(Seq<u8>, Seq<u8>)>,
    table: Map<Seq<u8>, Seq<u8>>,
    start: Seq<u8>,
    end: Option<Seq<u8>>,
    i: int,
    j: int,
)
    requires
        is_scan(raw, table, start, end),
        0 <= i < raw.len(),
        0 <= j < raw.len(),
        raw[i].0 == raw[j].0,
    ensures
        i == j,
{
    lemma_lex_irreflexive(raw[i].0);
    if i < j {
        assert(lex_lt(raw[i].0, raw[j].0));
    } else if j < i {
        assert(lex_lt(raw[j].0, raw[i].0));
    }
}

/// A delete of a row that is not there changes nothing; after any delete the
/// entity is unlocked; and a second delete changes nothing.
pub proof fn lemma_delete(rows: Map<Seq<u8>, Seq<u8>>, id: ServiceIdView)
    ensures
        !rows.contains_key(status_key(id)) ==> status_delete(rows, id) == rows,
        status_lookup(status_delete(rows, id), id) == Ok::<_, StorageError>(
            VirtualObjectStatus::Unlocked,
        ),
        status_delete(status_delete(rows, id), id) == status_delete(rows, id),
{
    if !rows.contains_key(status_key(id)) {
        assert(status_delete(rows, id) =~= rows);
    }
    assert(status_delete(status_delete(rows, id), id) =~= status_delete(rows, id));
}

/// A put or a delete for one entity leaves the status of every other entity
/// as it was.
pub proof fn lemma_other_entity_untouched(
    rows: Map<Seq<u8>, Seq<u8>>,
    id: ServiceIdView,
    status: VirtualObjectStatus,
    other: ServiceIdView,
)
    requires
        key_fits(id),
        key_fits(other),
        id != other,
    ensures
        status_lookup(status_put(rows, id, status), other) == status_lookup(rows, other),
        status_lookup(status_delete(rows, id), other) == status_lookup(rows, other),
{
    if status_key(id) == status_key(other) {
        lemma_status_key_injective(id, other);
    }
}

/// The entity that a row is about.
pub open spec fn row_id(row: OwnedVirtualObjectStatusRowView) -> ServiceIdView {
    ServiceIdView { partition_key: row.partition_key, service_name: row.name, key: row.key }
}

/// `key` is the key that is written for some entity.
pub open spec fn is_status_key(key: Seq<u8>) -> bool {
    exists|id: ServiceIdView| key_fits(id) && #[trigger] status_key(id) == key
}

/// A table that holds only keys that are written for entities still does so
/// after a put and after a delete.
pub proof fn lemma_writes_keep_keys(
    rows: Map<Seq<u8>, Seq<u8>>,
    id: ServiceIdView,
    status: VirtualObjectStatus,
)
    requires
        key_fits(id),
        forall|key: Seq<u8>| rows.contains_key(key) ==> is_status_key(key),
    ensures
        forall|key: Seq<u8>| #[trigger]
            status_put(rows, id, status).contains_key(key) ==> is_status_key(key),
        forall|key: Seq<u8>| #[trigger]
            status_delete(rows, id).contains_key(key) ==> is_status_key(key),
{
    assert(is_status_key(status_key(id)));
}

/// A row that is read under the key of an entity is a row about that entity.
pub proof fn lemma_row_of_status_key(id: ServiceIdView, value: Seq<u8>)
    requires
        key_fits(id),
        decode_row(status_key(id), value) is Ok,
    ensures
        row_id(decode_row(status_key(id), value)->Ok_0) == id,
{
    lemma_status_key_roundtrip(id);
}

/// In a scan, of two rows that were written for entities the earlier one has
/// the smaller partition key or, in the same partition, the name that stands
/// first as it is encoded or, under the same name, the entity's key that
/// stands first as it is encoded.
pub proof fn lemma_scan_rows_ascend(
    raw: Seq<(Seq<u8>, Seq<u8>)>,
    table: Map<Seq<u8>, Seq<u8>>,
    start: Seq<u8>,
    end: Option<Seq<u8>>,
    i: int,
    j: int,
)
    requires
        is_scan(raw, table, start, end),
        decode_rows(raw) is Ok,
        0 <= i < j < raw.len(),
        is_status_key(raw[i].0),
        is_status_key(raw[j].0),
    ensures
        ({
            let a = row_id(decode_rows(raw)->Ok_0[i]);
            let b = row_id(decode_rows(raw)->Ok_0[j]);
            ||| a.partition_key < b.partition_key
            ||| a.partition_key == b.partition_key && lex_lt(name_field(a), name_field(b))
            ||| a.partition_key == b.partition_key && a.service_name == b.service_name && lex_lt(
                key_field(a),
                key_field(b),
            )
        }),
{
    let a = choose|id: ServiceIdView| key_fits(id) && #[trigger] status_key(id) == raw[i].0;
    let b = choose|id: ServiceIdView| key_fits(id) && #[trigger] status_key(id) == raw[j].0;
    lemma_decode_rows_index(raw, i);
    lemma_decode_rows_index(raw, j);
    lemma_row_of_status_key(a, raw[i].1);
    lemma_row_of_status_key(b, raw[j].1);
    assert(lex_lt(raw[i].0, raw[j].0));
    lemma_key_order(a, b);
}

} // verus!
