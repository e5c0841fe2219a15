//! Access to the store: the same reads, writes and scans on the store itself
//! and within a transaction.

use std::ops::RangeInclusive;
use vstd::prelude::*;
use vstd::slice::{slice_subrange, slice_to_vec};
use crate::errors::StorageError;
use crate::fixed::{be_bytes, write_u64};
use crate::identifiers::PartitionKey;
use crate::keys::{append, TableKey, TableKind};
use crate::lex::{lemma_lex_common_prefix, lex_lt};
use crate::table::{ascending, has_key, in_bounds, is_scan, Cursor, OrderedTable};

verus! {

/// `RangeInclusive::start` returns the lower bound that the range holds.
pub assume_specification<Idx>[ RangeInclusive::<Idx>::start ](range: &RangeInclusive<Idx>) -> (start:
    &Idx)
    ensures
        *start == range@.start,
;

/// `RangeInclusive::end` returns the upper bound that the range holds.
pub assume_specification<Idx>[ RangeInclusive::<Idx>::end ](range: &RangeInclusive<Idx>) -> (end:
    &Idx)
    ensures
        *end == range@.end,
;

/// The byte that stands before every key of a table in the store.
pub open spec fn tag(table: TableKind) -> u8 {
    table.position() as u8
}

/// The key under which the store holds the row `key` of `table`.
pub open spec fn physical(table: TableKind, key: Seq<u8>) -> Seq<u8> {
    seq![tag(table)] + key
}

/// The rows of `table` among the rows `db` of the store.
pub open spec fn table_rows(db: Map<Seq<u8>, Seq<u8>>, table: TableKind) -> Map<Seq<u8>, Seq<u8>> {
    Map::new(
        |key: Seq<u8>| db.contains_key(physical(table, key)),
        |key: Seq<u8>| db[physical(table, key)],
    )
}

/// A key of the store without the byte of its table.
pub open spec fn strip_key(key: Seq<u8>) -> Seq<u8> {
    if key.len() > 0 {
        key.skip(1)
    } else {
        key
    }
}

/// The rows of a scan of the store, as rows of the table.
pub open spec fn strip(rows: Seq<(Seq<u8>, Seq<u8>)>) -> Seq<(Seq<u8>, Seq<u8>)> {
    Seq::new(rows.len(), |i: int| (strip_key(rows[i].0), rows[i].1))
}

/// Where a scan of the store ends that is to cover `table` up to `end`.
pub open spec fn physical_end(table: TableKind, end: Option<Seq<u8>>) -> Option<Seq<u8>> {
    match end {
        Some(limit) => Some(physical(table, limit)),
        None => Some(seq![(tag(table) + 1) as u8]),
    }
}

/// Keys of the store differ where their tables or their keys differ.
pub proof fn lemma_physical_injective(a: TableKind, x: Seq<u8>, b: TableKind, y: Seq<u8>)
    ensures
        (physical(a, x) == physical(b, y)) == (a == b && x == y),
{
    if physical(a, x) == physical(b, y) {
        assert(physical(a, x)[0] == physical(b, y)[0]);
        assert(physical(a, x).skip(1) =~= x);
        assert(physical(b, y).skip(1) =~= y);
    }
}

/// A scan of the store between the physical bounds of a table is, without
/// the table's byte, the scan of that table.
pub proof fn lemma_scan_strip(
    rows: Seq<(Seq<u8>, Seq<u8>)>,
    db: Map<Seq<u8>, Seq<u8>>,
    table: TableKind,
    start: Seq<u8>,
    end: Option<Seq<u8>>,
)
    requires
        is_scan(rows, db, physical(table, start), physical_end(table, end)),
    ensures
        is_scan(strip(rows), table_rows(db, table), start, end),
        forall|i: int| 0 <= i < rows.len() ==> (#[trigger] rows[i]).0.len() > 0,
{
    let t = tag(table);
    let out = strip(rows);
    let low = physical(table, start);
    let high = physical_end(table, end);
    assert forall|i: int| 0 <= i < rows.len() implies (#[trigger] rows[i]).0 == physical(
        table,
        out[i].0,
    ) && in_bounds(out[i].0, start, end) by {
        let k = rows[i].0;
        assert(in_bounds(k, low, high));
        assert(low[0] == t);
        assert(k.len() > 0);
        match end {
            Some(limit) => {
                assert(high->Some_0[0] == t);
            },
            None => {
                assert(high->Some_0[0] == t + 1);
                assert(high->Some_0.skip(1).len() == 0);
                assert(!lex_lt(k.skip(1), high->Some_0.skip(1)));
            },
        }
        assert(!lex_lt(k, low));
        assert(lex_lt(k, high->Some_0));
        assert(k[0] == t);
        assert(k =~= seq![t] + k.skip(1));
        lemma_lex_common_prefix(seq![t], k.skip(1), start);
        if end is Some {
            lemma_lex_common_prefix(seq![t], k.skip(1), end->Some_0);
        }
    }
    assert forall|i: int, j: int| 0 <= i < j < out.len() implies lex_lt(
        #[trigger] out[i].0,
        #[trigger] out[j].0,
    ) by {
        assert(lex_lt(rows[i].0, rows[j].0));
        lemma_lex_common_prefix(seq![t], out[i].0, out[j].0);
    }
    assert forall|key: Seq<u8>|
        table_rows(db, table).contains_key(key) && in_bounds(key, start, end) implies has_key(
        out,
        key,
    ) by {
        let k = physical(table, key);
        lemma_lex_common_prefix(seq![t], key, start);
        match end {
            Some(limit) => {
                lemma_lex_common_prefix(seq![t], key, limit);
            },
            None => {
                assert(high->Some_0[0] == t + 1);
                assert(k[0] == t);
            },
        }
        assert(in_bounds(k, low, high));
        assert(has_key(rows, k));
        let i = choose|i: int| 0 <= i < rows.len() && (#[trigger] rows[i]).0 == k;
        assert(k.skip(1) =~= key);
        assert(out[i].0 == key);
    }
    assert forall|i: int| 0 <= i < out.len() implies {
        &&& table_rows(db, table).contains_key((#[trigger] out[i]).0)
        &&& table_rows(db, table)[out[i].0] == out[i].1
        &&& in_bounds(out[i].0, start, end)
    } by {
        assert(rows[i].0 == physical(table, out[i].0));
    }
}

/// The bound behind the keys that begin with `prefix`: the prefix with its
/// last byte below 255 raised by one and nothing behind it. A prefix of
/// bytes 255 only has no such bound.
pub open spec fn prefix_end(prefix: Seq<u8>) -> Option<Seq<u8>>
    decreases prefix.len(),
{
    if prefix.len() == 0 {
        None
    } else {
        match prefix_end(prefix.skip(1)) {
            Some(end) => Some(seq![prefix[0]] + end),
            None => if prefix[0] < 255 {
                Some(seq![(prefix[0] + 1) as u8])
            } else {
                None
            },
        }
    }
}

/// The keys between a prefix and its bound are the keys that begin with it.
pub proof fn lemma_prefix_bounds(prefix: Seq<u8>, key: Seq<u8>)
    ensures
        in_bounds(key, prefix, prefix_end(prefix)) == crate::lex::is_prefix(prefix, key),
    decreases prefix.len(),
{
    let n = prefix.len() as int;
    if n == 0 {
        assert(key.take(0) =~= prefix);
        assert(!lex_lt(key, prefix));
    } else if key.len() == 0 {
        assert(lex_lt(key, prefix));
    } else if key[0] != prefix[0] {
        if n <= key.len() {
            assert(key.take(n)[0] == key[0]);
        }
        assert(!crate::lex::is_prefix(prefix, key));
        if key[0] > prefix[0] {
            match prefix_end(prefix.skip(1)) {
                Some(end) => {
                    let bound = seq![prefix[0]] + end;
                    assert(bound[0] == prefix[0]);
                    assert(!lex_lt(key, bound));
                },
                None => {
                    let bound = seq![(prefix[0] + 1) as u8];
                    assert(bound[0] == prefix[0] + 1);
                    assert(bound.skip(1).len() == 0);
                    assert(!lex_lt(key.skip(1), bound.skip(1)));
                    assert(!lex_lt(key, bound));
                },
            }
        } else {
            assert(lex_lt(key, prefix));
        }
    } else {
        lemma_prefix_bounds(prefix.skip(1), key.skip(1));
        assert(lex_lt(key, prefix) == lex_lt(key.skip(1), prefix.skip(1)));
        if n <= key.len() {
            assert(key.take(n).skip(1) =~= key.skip(1).take(n - 1));
            if key.skip(1).take(n - 1) == prefix.skip(1) {
                assert forall|i: int| 0 <= i < n implies key[i] == prefix[i] by {
                    if i > 0 {
                        assert(key.skip(1).take(n - 1)[i - 1] == prefix.skip(1)[i - 1]);
                    }
                }
                assert(key.take(n) =~= prefix);
            }
        }
        assert(crate::lex::is_prefix(prefix, key) == crate::lex::is_prefix(
            prefix.skip(1),
            key.skip(1),
        ));
        match prefix_end(prefix.skip(1)) {
            Some(end) => {
                let bound = seq![prefix[0]] + end;
                assert(bound[0] == prefix[0]);
                assert(bound.skip(1) =~= end);
                assert(lex_lt(key, bound) == lex_lt(key.skip(1), end));
            },
            None => {
                if prefix[0] < 255 {
                    let bound = seq![(prefix[0] + 1) as u8];
                    assert(bound[0] == prefix[0] + 1);
                    assert(lex_lt(key, bound));
                }
            },
        }
    }
}

/// Where the bytes from `n` on are all 255 and the one before them is not,
/// the bound is the first `n` bytes with the last of them raised by one.
proof fn lemma_prefix_end_shape(prefix: Seq<u8>, n: int)
    requires
        0 <= n <= prefix.len(),
        forall|j: int| n <= j < prefix.len() ==> prefix[j] == 255,
        n > 0 ==> prefix[n - 1] < 255,
    ensures
        prefix_end(prefix) == if n == 0 {
            None
        } else {
            Some(prefix.take(n - 1).push((prefix[n - 1] + 1) as u8))
        },
    decreases prefix.len(),
{
    if prefix.len() > 0 {
        let rest = prefix.skip(1);
        if n <= 1 {
            lemma_prefix_end_shape(rest, 0);
            if n == 1 {
                assert(prefix.take(0).push((prefix[0] + 1) as u8) =~= seq![(prefix[0] + 1) as u8]);
            }
        } else {
            lemma_prefix_end_shape(rest, n - 1);
            assert(seq![prefix[0]] + rest.take(n - 2).push((rest[n - 2] + 1) as u8)
                =~= prefix.take(n - 1).push((prefix[n - 1] + 1) as u8));
        }
    }
}

/// The bound behind the keys that begin with `prefix`.
pub fn prefix_successor(prefix: &[u8]) -> (end: Option<Vec<u8>>)
    ensures
        match end {
            Some(bound) => prefix_end(prefix@) == Some(bound@),
            None => prefix_end(prefix@) is None,
        },
{
    let mut n: usize = prefix.len();
    while n > 0 && prefix[n - 1] == 255
        invariant
            n <= prefix.len(),
            forall|j: int| n <= j < prefix.len() ==> prefix@[j] == 255,
        decreases n,
    {
        n -= 1;
    }
    proof {
        lemma_prefix_end_shape(prefix@, n as int);
    }
    if n == 0 {
        None
    } else {
        let mut bound = slice_to_vec(slice_subrange(prefix, 0, n - 1));
        bound.push(prefix[n - 1] + 1);
        proof {
            assert(bound@ =~= prefix@.take(n - 1).push((prefix@[n - 1] + 1) as u8));
        }
        Some(bound)
    }
}

/// What a scan is to cover, in terms of the keys of a table.
pub enum TableScan<K> {
    /// The rows whose partition key lies in the range, both ends included.
    PartitionKeyRange(RangeInclusive<PartitionKey>),
    /// The rows whose key begins with the fields that this key holds.
    KeyPrefix(K),
}

/// What a scan is to cover, in terms of the bytes of the keys.
pub enum PhysicalScan {
    /// The keys not before the first bound and before the second.
    RangeExclusive(TableKind, Vec<u8>, Vec<u8>),
    /// The keys not before the bound.
    RangeOpen(TableKind, Vec<u8>),
}

impl<K: TableKey> TableScan<K> {
    /// The first key that the scan covers, if a row has it.
    pub open spec fn start(self) -> Seq<u8> {
        match self {
            TableScan::PartitionKeyRange(range) => be_bytes(range@.start as nat, 8),
            TableScan::KeyPrefix(key) => key.encoding(),
        }
    }

    /// The first key behind those that the scan covers, if there is one.
    pub open spec fn end(self) -> Option<Seq<u8>> {
        match self {
            TableScan::PartitionKeyRange(range) => if range@.end == u64::MAX {
                None
            } else {
                Some(be_bytes((range@.end + 1) as nat, 8))
            },
            TableScan::KeyPrefix(key) => prefix_end(key.encoding()),
        }
    }

    /// The byte range of the scan.
    pub fn into_physical(self) -> (scan: PhysicalScan)
        ensures
            scan.table() == K::kind(),
            scan.start() == self.start(),
            scan.end() == self.end(),
    {
        let table = K::table();
        match self {
            TableScan::PartitionKeyRange(range) => {
                let first: PartitionKey = *range.start();
                let last: PartitionKey = *range.end();
                let mut start: Vec<u8> = Vec::new();
                write_u64(first, &mut start);
                proof {
                    assert(start@ =~= be_bytes(first as nat, 8));
                }
                if last == u64::MAX {
                    PhysicalScan::RangeOpen(table, start)
                } else {
                    let mut end: Vec<u8> = Vec::new();
                    write_u64(last + 1, &mut end);
                    proof {
                        assert(end@ =~= be_bytes((last + 1) as nat, 8));
                    }
                    PhysicalScan::RangeExclusive(table, start, end)
                }
            },
            TableScan::KeyPrefix(key) => {
                let start = key.serialize();
                match prefix_successor(start.as_slice()) {
                    Some(end) => PhysicalScan::RangeExclusive(table, start, end),
                    None => PhysicalScan::RangeOpen(table, start),
                }
            },
        }
    }
}

impl PhysicalScan {
    /// The table that is scanned.
    pub open spec fn table(self) -> TableKind {
        match self {
            PhysicalScan::RangeExclusive(table, _, _) => table,
            PhysicalScan::RangeOpen(table, _) => table,
        }
    }

    /// The first key that the scan covers, if a row has it.
    pub open spec fn start(self) -> Seq<u8> {
        match self {
            PhysicalScan::RangeExclusive(_, start, _) => start@,
            PhysicalScan::RangeOpen(_, start) => start@,
        }
    }

    /// The first key behind those that the scan covers, if there is one.
    pub open spec fn end(self) -> Option<Seq<u8>> {
        match self {
            PhysicalScan::RangeExclusive(_, _, end) => Some(end@),
            PhysicalScan::RangeOpen(_, _) => None,
        }
    }
}

/// The key of the store for the row `key` of `table`.
fn physical_key(table: TableKind, key: &[u8]) -> (bytes: Vec<u8>)
    ensures
        bytes@ == physical(table, key@),
{
    let mut bytes: Vec<u8> = Vec::new();
    bytes.push(table.index() as u8);
    append(&mut bytes, key);
    proof {
        assert(bytes@ =~= physical(table, key@));
    }
    bytes
}

/// The store's own iterator over a scan. What it shows of the current row is
/// borrowed from the store and gone with the next step.
pub struct DBIterator<'a> {
    cursor: Cursor<'a>,
}

impl<'a> DBIterator<'a> {
    /// The rows that the iterator has yet to show, the current one first.
    pub closed spec fn remaining(&self) -> Seq<(Seq<u8>, Seq<u8>)> {
        strip(self.cursor.remaining())
    }

    /// The key and the value of the current row, if there is one.
    pub fn item(&self) -> (item: Option<(&'a [u8], &'a [u8])>)
        ensures
            match item {
                Some((key, value)) => self.remaining().len() > 0 && self.remaining()[0] == (
                    key@,
                    value@,
                ),
                None => self.remaining().len() == 0,
            },
    {
        if self.cursor.valid() {
            let key = self.cursor.key();
            let value = self.cursor.value();
            if key.len() > 0 {
                Some((slice_subrange(key, 1, key.len()), value))
            } else {
                Some((key, value))
            }
        } else {
            None
        }
    }

    /// Moves to the next row, if there is a current one.
    pub fn next(&mut self)
        ensures
            final(self).remaining() == if old(self).remaining().len() > 0 {
                old(self).remaining().skip(1)
            } else {
                old(self).remaining()
            },
    {
        if self.cursor.valid() {
            self.cursor.next();
            proof {
                assert(self.remaining() =~= old(self).remaining().skip(1));
            }
        }
    }
}

/// Reads of the store.
fn db_get(db: &OrderedTable, table: TableKind, key: &[u8]) -> (found: Option<Vec<u8>>)
    ensures
        match found {
            Some(value) => table_rows(db@, table).contains_key(key@) && table_rows(
                db@,
                table,
            )[key@] == value@,
            None => !table_rows(db@, table).contains_key(key@),
        },
{
    let at = physical_key(table, key);
    db.get(at.as_slice())
}

/// Writes one row of a table, and leaves every other row as it was.
fn db_put(db: &mut OrderedTable, table: TableKind, key: &[u8], value: &[u8])
    ensures
        table_rows(final(db)@, table) == table_rows(old(db)@, table).insert(key@, value@),
        forall|other: TableKind|
            other != table ==> #[trigger] table_rows(final(db)@, other) == table_rows(
                old(db)@,
                other,
            ),
{
    let at = physical_key(table, key);
    db.put(at, slice_to_vec(value));
    proof {
        assert forall|k: Seq<u8>| #[trigger] physical(table, k) == physical(table, key@) implies k
            == key@ by {
            lemma_physical_injective(table, k, table, key@);
        }
        assert(table_rows(db@, table) =~= table_rows(old(db)@, table).insert(key@, value@));
        assert forall|other: TableKind| other != table implies #[trigger] table_rows(db@, other)
            == table_rows(old(db)@, other) by {
            assert forall|k: Seq<u8>| #[trigger] physical(other, k) != physical(table, key@) by {
                lemma_physical_injective(other, k, table, key@);
            }
            assert(table_rows(db@, other) =~= table_rows(old(db)@, other));
        }
    }
}

/// Removes one row of a table, and leaves every other row as it was.
fn db_delete(db: &mut OrderedTable, table: TableKind, key: &[u8])
    ensures
        table_rows(final(db)@, table) == table_rows(old(db)@, table).remove(key@),
        forall|other: TableKind|
            other != table ==> #[trigger] table_rows(final(db)@, other) == table_rows(
                old(db)@,
                other,
            ),
{
    let at = physical_key(table, key);
    db.delete(at.as_slice());
    proof {
        assert forall|k: Seq<u8>| #[trigger] physical(table, k) == physical(table, key@) implies k
            == key@ by {
            lemma_physical_injective(table, k, table, key@);
        }
        assert(table_rows(db@, table) =~= table_rows(old(db)@, table).remove(key@));
        assert forall|other: TableKind| other != table implies #[trigger] table_rows(db@, other)
            == table_rows(old(db)@, other) by {
            assert forall|k: Seq<u8>| #[trigger] physical(other, k) != physical(table, key@) by {
                lemma_physical_injective(other, k, table, key@);
            }
            assert(table_rows(db@, other) =~= table_rows(old(db)@, other));
        }
    }
}

/// The iterator over the rows of a table that a scan covers.
fn db_scan<'a>(db: &'a OrderedTable, scan: &PhysicalScan) -> (iter: DBIterator<'a>)
    ensures
        is_scan(iter.remaining(), table_rows(db@, scan.table()), scan.start(), scan.end()),
{
    match scan {
        PhysicalScan::RangeExclusive(table, start, end) => {
            let low = physical_key(*table, start.as_slice());
            let high = physical_key(*table, end.as_slice());
            let cursor = db.seek(low.as_slice(), Some(high.as_slice()));
            proof {
                lemma_scan_strip(cursor.remaining(), db@, *table, start@, Some(end@));
            }
            DBIterator { cursor }
        },
        PhysicalScan::RangeOpen(table, start) => {
            let low = physical_key(*table, start.as_slice());
            let mut high: Vec<u8> = Vec::new();
            high.push(table.index() as u8 + 1);
            proof {
                assert(high@ =~= seq![(tag(*table) + 1) as u8]);
            }
            let cursor = db.seek(low.as_slice(), Some(high.as_slice()));
            proof {
                lemma_scan_strip(cursor.remaining(), db@, *table, start@, None);
            }
            DBIterator { cursor }
        },
    }
}

/// What every handle on the store offers, with the same meaning on each:
/// point reads, writes, deletes and ordered scans of the tables.
pub trait StorageAccess {
    /// The rows of `table` as the handle sees them.
    spec fn rows(&self, table: TableKind) -> Map<Seq<u8>, Seq<u8>>;

    /// The value stored under `key` in `table`, if there is one.
    fn get(&self, table: TableKind, key: &[u8]) -> (found: Option<Vec<u8>>)
        ensures
            match found {
                Some(value) => self.rows(table).contains_key(key@) && self.rows(table)[key@]
                    == value@,
                None => !self.rows(table).contains_key(key@),
            },
    ;

    /// Stores `value` under `key` in `table`, in place of what was there.
    fn put_cf(&mut self, table: TableKind, key: &[u8], value: &[u8])
        ensures
            final(self).rows(table) == old(self).rows(table).insert(key@, value@),
            forall|other: TableKind|
                other != table ==> #[trigger] final(self).rows(other) == old(self).rows(other),
    ;

    /// Removes what is stored under `key` in `table`.
    fn delete_cf(&mut self, table: TableKind, key: &[u8])
        ensures
            final(self).rows(table) == old(self).rows(table).remove(key@),
            forall|other: TableKind|
                other != table ==> #[trigger] final(self).rows(other) == old(self).rows(other),
    ;

    /// An iterator over the rows that `scan` covers, in ascending order of
    /// their keys. It shows the store as it is when the scan begins.
    fn iterator_from<'a, K: TableKey>(&'a self, scan: TableScan<K>) -> (iter: DBIterator<'a>)
        ensures
            is_scan(iter.remaining(), self.rows(K::kind()), scan.start(), scan.end()),
    ;

    /// Stores `value` under `key` in the table of the key.
    fn put_kv<K: TableKey>(&mut self, key: K, value: &[u8])
        ensures
            final(self).rows(K::kind()) == old(self).rows(K::kind()).insert(
                key.encoding(),
                value@,
            ),
            forall|other: TableKind|
                other != K::kind() ==> #[trigger] final(self).rows(other) == old(self).rows(other),
    {
        let bytes = key.serialize();
        self.put_cf(K::table(), bytes.as_slice(), value);
    }

    /// Removes the row of `key` from the table of the key.
    fn delete_key<K: TableKey>(&mut self, key: &K)
        ensures
            final(self).rows(K::kind()) == old(self).rows(K::kind()).remove(key.encoding()),
            forall|other: TableKind|
                other != K::kind() ==> #[trigger] final(self).rows(other) == old(self).rows(other),
    {
        let bytes = key.serialize();
        self.delete_cf(K::table(), bytes.as_slice());
    }

    /// Looks `key` up and hands `decode` the bytes of the key and the bytes
    /// of the value, or no value where there is no row. What `decode`
    /// returns is the result. Nothing is changed.
    fn get_blocking<K: TableKey, F, R>(&mut self, key: K, decode: F) -> (r: Result<R, StorageError>)
        where F: FnOnce(&[u8], Option<&[u8]>) -> Result<R, StorageError>
        requires
            forall|k: &[u8], v: Option<&[u8]>| decode.requires((k, v)),
        ensures
            forall|table: TableKind| #[trigger] final(self).rows(table) == old(self).rows(table),
            exists|k: &[u8], v: Option<&[u8]>|
                {
                    &&& k@ == key.encoding()
                    &&& stored_value(old(self).rows(K::kind()), key.encoding()) == value_view(v)
                    &&& #[trigger] decode.ensures((k, v), r)
                },
    {
        let bytes = key.serialize();
        let found = self.get(K::table(), bytes.as_slice());
        match &found {
            Some(value) => decode(bytes.as_slice(), Some(value.as_slice())),
            None => decode(bytes.as_slice(), None),
        }
    }
}

/// What is stored under `key`, if anything.
pub open spec fn stored_value(rows: Map<Seq<u8>, Seq<u8>>, key: Seq<u8>) -> Option<Seq<u8>> {
    if rows.contains_key(key) {
        Some(rows[key])
    } else {
        None
    }
}

/// The bytes that a decode function is handed.
pub open spec fn value_view(value: Option<&[u8]>) -> Option<Seq<u8>> {
    match value {
        Some(bytes) => Some(bytes@),
        None => None,
    }
}

/// The store itself: every call sees the store as it is at that moment.
pub struct RocksDBStorage {
    db: OrderedTable,
}

/// A transaction on the store: it sees the store as it was when the
/// transaction began, and its own writes on top of that. The writes reach
/// the store when the transaction is committed, all of them or none.
pub struct RocksDBTransaction {
    db: OrderedTable,
}

impl RocksDBStorage {
    /// An empty store.
    pub fn new() -> (storage: Self)
        ensures
            forall|table: TableKind| #[trigger]
                storage.rows(table) == Map::<Seq<u8>, Seq<u8>>::empty(),
    {
        let storage = RocksDBStorage { db: OrderedTable::new() };
        proof {
            assert forall|table: TableKind| #[trigger]
                storage.rows(table) == Map::<Seq<u8>, Seq<u8>>::empty() by {
                assert(storage.rows(table) =~= Map::<Seq<u8>, Seq<u8>>::empty());
            }
        }
        storage
    }

    /// Begins a transaction on the store as it is now.
    pub fn transaction(&self) -> (transaction: RocksDBTransaction)
        ensures
            forall|table: TableKind| #[trigger] transaction.rows(table) == self.rows(table),
    {
        RocksDBTransaction { db: self.db.snapshot() }
    }

    /// Makes the writes of `transaction` the state of the store.
    pub fn commit(&mut self, transaction: RocksDBTransaction)
        ensures
            forall|table: TableKind| #[trigger] final(self).rows(table) == transaction.rows(table),
    {
        self.db = transaction.db;
    }
}

impl StorageAccess for RocksDBStorage {
    closed spec fn rows(&self, table: TableKind) -> Map<Seq<u8>, Seq<u8>> {
        table_rows(self.db@, table)
    }

    fn get(&self, table: TableKind, key: &[u8]) -> (found: Option<Vec<u8>>) {
        db_get(&self.db, table, key)
    }

    fn put_cf(&mut self, table: TableKind, key: &[u8], value: &[u8]) {
        db_put(&mut self.db, table, key, value);
    }

    fn delete_cf(&mut self, table: TableKind, key: &[u8]) {
        db_delete(&mut self.db, table, key);
    }

    fn iterator_from<'a, K: TableKey>(&'a self, scan: TableScan<K>) -> (iter: DBIterator<'a>) {
        let physical = scan.into_physical();
        db_scan(&self.db, &physical)
    }
}

impl StorageAccess for RocksDBTransaction {
    closed spec fn rows(&self, table: TableKind) -> Map<Seq<u8>, Seq<u8>> {
        table_rows(self.db@, table)
    }

    fn get(&self, table: TableKind, key: &[u8]) -> (found: Option<Vec<u8>>) {
        db_get(&self.db, table, key)
    }

    fn put_cf(&mut self, table: TableKind, key: &[u8], value: &[u8]) {
        db_put(&mut self.db, table, key, value);
    }

    fn delete_cf(&mut self, table: TableKind, key: &[u8]) {
        db_delete(&mut self.db, table, key);
    }

    fn iterator_from<'a, K: TableKey>(&'a self, scan: TableScan<K>) -> (iter: DBIterator<'a>) {
        let physical = scan.into_physical();
        db_scan(&self.db, &physical)
    }
}

} // verus!
