//! One table of the store: rows of key and value bytes, kept in the order of
//! their keys, at most one row to a key.

use vstd::prelude::*;
use vstd::slice::slice_to_vec;
use crate::lex::{bytes_lt, lemma_lex_asymmetric, lemma_lex_irreflexive, lemma_lex_total,
    lemma_lex_transitive, lex_lt};

verus! {

/// A row as the store holds it: the encoded key and the encoded value.
#[derive(Debug)]
pub struct RawRow {
    pub key: Vec<u8>,
    pub value: Vec<u8>,
}

impl View for RawRow {
    type V = (Seq<u8>, Seq<u8>);

    open spec fn view(&self) -> (Seq<u8>, Seq<u8>) {
        (self.key@, self.value@)
    }
}

impl Clone for RawRow {
    fn clone(&self) -> (copy: Self)
        ensures
            copy@ == self@,
    {
        RawRow { key: slice_to_vec(self.key.as_slice()), value: slice_to_vec(self.value.as_slice()) }
    }
}

/// The rows of a vector, each as its pair of byte strings.
pub open spec fn rows_view(rows: Seq<RawRow>) -> Seq<(Seq<u8>, Seq<u8>)> {
    Seq::new(rows.len(), |i: int| rows[i]@)
}

/// The keys of `rows` ascend strictly.
pub open spec fn ascending(rows: Seq<(Seq<u8>, Seq<u8>)>) -> bool {
    forall|i: int, j: int| 0 <= i < j < rows.len() ==> lex_lt(#[trigger] rows[i].0, #[trigger] rows[j].0)
}

/// Some row of `rows` has the key `key`.
pub open spec fn has_key(rows: Seq<(Seq<u8>, Seq<u8>)>, key: Seq<u8>) -> bool {
    exists|i: int| 0 <= i < rows.len() && (#[trigger] rows[i]).0 == key
}

/// The map from each key of `rows` to the value of a row with that key.
pub open spec fn rows_map(rows: Seq<(Seq<u8>, Seq<u8>)>) -> Map<Seq<u8>, Seq<u8>> {
    Map::new(
        |key: Seq<u8>| has_key(rows, key),
        |key: Seq<u8>| rows[choose|i: int| 0 <= i < rows.len() && (#[trigger] rows[i]).0 == key].1,
    )
}

/// The keys that a scan covers: those not before `start` and, where there is
/// an `end`, before it.
pub open spec fn in_bounds(key: Seq<u8>, start: Seq<u8>, end: Option<Seq<u8>>) -> bool {
    !lex_lt(key, start) && (end matches Some(limit) ==> lex_lt(key, limit))
}

/// `rows` is the scan of `table` between `start` and `end`: every row of the
/// table with a key in bounds and no other, in ascending order of the keys.
pub open spec fn is_scan(
    rows: Seq<(Seq<u8>, Seq<u8>)>,
    table: Map<Seq<u8>, Seq<u8>>,
    start: Seq<u8>,
    end: Option<Seq<u8>>,
) -> bool {
    &&& ascending(rows)
    &&& forall|i: int|
        0 <= i < rows.len() ==> {
            &&& table.contains_key((#[trigger] rows[i]).0)
            &&& table[rows[i].0] == rows[i].1
            &&& in_bounds(rows[i].0, start, end)
        }
    &&& forall|key: Seq<u8>|
        table.contains_key(key) && in_bounds(key, start, end) ==> has_key(rows, key)
}

/// In ascending rows no key occurs twice, so the map holds each row.
pub proof fn lemma_rows_map_at(rows: Seq<(Seq<u8>, Seq<u8>)>, i: int)
    requires
        ascending(rows),
        0 <= i < rows.len(),
    ensures
        rows_map(rows).contains_key(rows[i].0),
        rows_map(rows)[rows[i].0] == rows[i].1,
{
    let key = rows[i].0;
    assert(has_key(rows, key));
    assert forall|j: int| 0 <= j < rows.len() && (#[trigger] rows[j]).0 == key implies j == i by {
        lemma_lex_irreflexive(key);
        if j < i {
            assert(lex_lt(rows[j].0, rows[i].0));
        } else if i < j {
            assert(lex_lt(rows[i].0, rows[j].0));
        }
    }
}

/// A scan is determined by the table and the bounds: two scans of one table
/// between the same bounds have the same keys at the same places.
pub proof fn lemma_scan_unique(
    a: Seq<(Seq<u8>, Seq<u8>)>,
    b: Seq<(Seq<u8>, Seq<u8>)>,
    table: Map<Seq<u8>, Seq<u8>>,
    start: Seq<u8>,
    end: Option<Seq<u8>>,
)
    requires
        is_scan(a, table, start, end),
        is_scan(b, table, start, end),
    ensures
        a == b,
    decreases a.len(),
{
    if a.len() == 0 {
        if b.len() > 0 {
            assert(has_key(a, b[0].0));
        }
        assert(a =~= b);
    } else if b.len() == 0 {
        assert(has_key(b, a[0].0));
    } else {
        let la = a.len() - 1;
        let lb = b.len() - 1;
        // The last rows are the same: each is the greatest key in bounds.
        assert(has_key(b, a[la].0));
        let ib = choose|i: int| 0 <= i < b.len() && (#[trigger] b[i]).0 == a[la].0;
        assert(has_key(a, b[lb].0));
        let ia = choose|i: int| 0 <= i < a.len() && (#[trigger] a[i]).0 == b[lb].0;
        if ia < la {
            assert(lex_lt(a[ia].0, a[la].0));
            if ib < lb {
                assert(lex_lt(b[ib].0, b[lb].0));
                lemma_lex_asymmetric(a[ia].0, a[la].0);
            } else {
                lemma_lex_irreflexive(a[la].0);
            }
        }
        assert(a[la].0 == b[lb].0);
        assert(a[la] == b[lb]);
        let a0 = a.drop_last();
        let b0 = b.drop_last();
        let last = a[la].0;
        let table0 = table.remove(last);
        assert(is_scan(a0, table0, start, end)) by {
            lemma_scan_drop_last(a, table, start, end);
        }
        assert(is_scan(b0, table0, start, end)) by {
            lemma_scan_drop_last(b, table, start, end);
        }
        lemma_scan_unique(a0, b0, table0, start, end);
        assert(a =~= a0.push(a[la]));
        assert(b =~= b0.push(b[lb]));
    }
}

proof fn lemma_scan_drop_last(
    a: Seq<(Seq<u8>, Seq<u8>)>,
    table: Map<Seq<u8>, Seq<u8>>,
    start: Seq<u8>,
    end: Option<Seq<u8>>,
)
    requires
        is_scan(a, table, start, end),
        a.len() > 0,
    ensures
        is_scan(a.drop_last(), table.remove(a.last().0), start, end),
{
    let a0 = a.drop_last();
    let last = a.last().0;
    let table0 = table.remove(last);
    assert forall|i: int, j: int| 0 <= i < j < a0.len() implies lex_lt(
        #[trigger] a0[i].0,
        #[trigger] a0[j].0,
    ) by {
        assert(lex_lt(a[i].0, a[j].0));
    }
    assert forall|i: int| 0 <= i < a0.len() implies {
        &&& table0.contains_key((#[trigger] a0[i]).0)
        &&& table0[a0[i].0] == a0[i].1
        &&& in_bounds(a0[i].0, start, end)
    } by {
        assert(a0[i] == a[i]);
        assert(lex_lt(a[i].0, a[a.len() - 1].0));
        lemma_lex_irreflexive(last);
    }
    assert forall|key: Seq<u8>|
        table0.contains_key(key) && in_bounds(key, start, end) implies has_key(a0, key) by {
        assert(has_key(a, key));
        let i = choose|i: int| 0 <= i < a.len() && (#[trigger] a[i]).0 == key;
        assert(i < a.len() - 1);
        assert(a0[i].0 == key);
    }
}

/// An ordered table of byte strings.
pub struct OrderedTable {
    entries: Vec<RawRow>,
}

impl View for OrderedTable {
    type V = Map<Seq<u8>, Seq<u8>>;

    /// The table as a map from key to value.
    closed spec fn view(&self) -> Map<Seq<u8>, Seq<u8>> {
        rows_map(rows_view(self.entries@))
    }
}

impl OrderedTable {
    #[verifier::type_invariant]
    spec fn inv(&self) -> bool {
        ascending(rows_view(self.entries@))
    }

    /// An empty table.
    pub fn new() -> (table: Self)
        ensures
            table@ == Map::<Seq<u8>, Seq<u8>>::empty(),
    {
        let table = OrderedTable { entries: Vec::new() };
        proof {
            assert(table@ =~= Map::<Seq<u8>, Seq<u8>>::empty());
        }
        table
    }

    /// The number of rows before the first one whose key is not before `key`.
    fn lower_bound(&self, key: &[u8]) -> (at: usize)
        ensures
            at <= self.entries@.len(),
            forall|i: int| 0 <= i < at ==> lex_lt(#[trigger] self.entries@[i].key@, key@),
            forall|i: int|
                at <= i < self.entries@.len() ==> !lex_lt(#[trigger] self.entries@[i].key@, key@),
    {
        proof {
            use_type_invariant(self);
        }
        let ghost rows = rows_view(self.entries@);
        let mut low: usize = 0;
        let mut high: usize = self.entries.len();
        while low < high
            invariant
                low <= high <= self.entries@.len(),
                rows == rows_view(self.entries@),
                ascending(rows),
                forall|i: int| 0 <= i < low ==> lex_lt(#[trigger] self.entries@[i].key@, key@),
                forall|i: int|
                    high <= i < self.entries@.len() ==> !lex_lt(
                        #[trigger] self.entries@[i].key@,
                        key@,
                    ),
            decreases high - low,
        {
            let mid: usize = low + (high - low) / 2;
            if bytes_lt(self.entries[mid].key.as_slice(), key) {
                proof {
                    assert forall|i: int| 0 <= i < mid + 1 implies lex_lt(
                        #[trigger] self.entries@[i].key@,
                        key@,
                    ) by {
                        if i < mid {
                            assert(lex_lt(rows[i].0, rows[mid as int].0));
                            lemma_lex_transitive(rows[i].0, rows[mid as int].0, key@);
                        }
                    }
                }
                low = mid + 1;
            } else {
                proof {
                    assert forall|i: int| mid <= i < self.entries@.len() implies !lex_lt(
                        #[trigger] self.entries@[i].key@,
                        key@,
                    ) by {
                        if mid < i && lex_lt(self.entries@[i].key@, key@) {
                            assert(lex_lt(rows[mid as int].0, rows[i].0));
                            lemma_lex_transitive(rows[mid as int].0, rows[i].0, key@);
                        }
                    }
                }
                high = mid;
            }
        }
        low
    }

    /// Whether the row at `at`, the lower bound of `key`, has that key.
    fn holds_at(&self, at: usize, key: &[u8]) -> (found: bool)
        requires
            at <= self.entries@.len(),
            forall|i: int| 0 <= i < at ==> lex_lt(#[trigger] self.entries@[i].key@, key@),
            forall|i: int|
                at <= i < self.entries@.len() ==> !lex_lt(#[trigger] self.entries@[i].key@, key@),
        ensures
            found == self@.contains_key(key@),
            found ==> at < self.entries@.len() && self.entries@[at as int].key@ == key@
                && self@[key@] == self.entries@[at as int].value@,
    {
        proof {
            use_type_invariant(self);
        }
        let ghost rows = rows_view(self.entries@);
        if at < self.entries.len() && !bytes_lt(key, self.entries[at].key.as_slice()) {
            proof {
                lemma_lex_total(key@, rows[at as int].0);
                lemma_rows_map_at(rows, at as int);
            }
            true
        } else {
            proof {
                if has_key(rows, key@) {
                    let i = choose|i: int| 0 <= i < rows.len() && (#[trigger] rows[i]).0 == key@;
                    lemma_lex_irreflexive(key@);
                    assert(self.entries@[i].key@ == key@);
                    assert(i >= at);
                    if i > at {
                        assert(lex_lt(rows[at as int].0, rows[i].0));
                        lemma_lex_asymmetric(rows[at as int].0, key@);
                    }
                }
            }
            false
        }
    }

    /// The value stored under `key`, if there is one.
    pub fn get(&self, key: &[u8]) -> (found: Option<Vec<u8>>)
        ensures
            match found {
                Some(value) => self@.contains_key(key@) && self@[key@] == value@,
                None => !self@.contains_key(key@),
            },
    {
        let at = self.lower_bound(key);
        if self.holds_at(at, key) {
            Some(slice_to_vec(self.entries[at].value.as_slice()))
        } else {
            None
        }
    }

    /// Stores `value` under `key`, in place of what was stored there.
    pub fn put(&mut self, key: Vec<u8>, value: Vec<u8>)
        ensures
            final(self)@ == old(self)@.insert(key@, value@),
    {
        proof {
            use_type_invariant(&*self);
        }
        let ghost before = rows_view(self.entries@);
        let at = self.lower_bound(key.as_slice());
        let found = self.holds_at(at, key.as_slice());
        let ghost key_bytes = key@;
        let ghost value_bytes = value@;
        let row = RawRow { key, value };
        if found {
            proof {
                let after = rows_view(self.entries@.update(at as int, row));
                assert(after =~= before.update(at as int, row@));
                assert forall|i: int, j: int| 0 <= i < j < after.len() implies lex_lt(
                    #[trigger] after[i].0,
                    #[trigger] after[j].0,
                ) by {
                    assert(after[i].0 == before[i].0);
                    assert(after[j].0 == before[j].0);
                }
                lemma_update_map(before, at as int, value_bytes);
            }
            let mut entries: Vec<RawRow> = Vec::new();
            core::mem::swap(&mut self.entries, &mut entries);
            entries[at] = row;
            self.entries = entries;
        } else {
            proof {
                let after = rows_view(self.entries@.insert(at as int, row));
                assert(after =~= before.insert(at as int, row@));
                lemma_insert_map(before, at as int, key_bytes, value_bytes);
            }
            let mut entries: Vec<RawRow> = Vec::new();
            core::mem::swap(&mut self.entries, &mut entries);
            entries.insert(at, row);
            self.entries = entries;
        }
    }

    /// Removes the row stored under `key`, if there is one.
    pub fn delete(&mut self, key: &[u8])
        ensures
            final(self)@ == old(self)@.remove(key@),
    {
        proof {
            use_type_invariant(&*self);
        }
        let ghost before = rows_view(self.entries@);
        let at = self.lower_bound(key);
        if self.holds_at(at, key) {
            proof {
                let after = rows_view(self.entries@.remove(at as int));
                assert(after =~= before.remove(at as int));
                lemma_remove_map(before, at as int);
            }
            let mut entries: Vec<RawRow> = Vec::new();
            core::mem::swap(&mut self.entries, &mut entries);
            entries.remove(at);
            self.entries = entries;
        } else {
            proof {
                assert(self@ =~= self@.remove(key@));
            }
        }
    }

    /// A cursor on the rows with a key in bounds, in ascending order of the
    /// keys. The cursor borrows the table: what it shows is the table as it
    /// is now.
    pub fn seek<'a>(&'a self, start: &[u8], end: Option<&[u8]>) -> (cursor: Cursor<'a>)
        ensures
            is_scan(
                cursor.remaining(),
                self@,
                start@,
                match end {
                    Some(limit) => Some(limit@),
                    None => None,
                },
            ),
    {
        proof {
            use_type_invariant(self);
        }
        let ghost all = rows_view(self.entries@);
        let ghost limit: Option<Seq<u8>> = match end {
            Some(limit) => Some(limit@),
            None => None,
        };
        let low = self.lower_bound(start);
        let bound = match end {
            Some(limit) => self.lower_bound(limit),
            None => self.entries.len(),
        };
        let high = if bound < low { low } else { bound };
        let cursor = Cursor { table: self, at: low, end: high };
        proof {
            let out = cursor.remaining();
            assert(out == all.subrange(low as int, high as int));
            assert forall|a: int, b: int| 0 <= a < b < out.len() implies lex_lt(
                #[trigger] out[a].0,
                #[trigger] out[b].0,
            ) by {
                assert(out[a] == all[low + a]);
                assert(out[b] == all[low + b]);
                assert(lex_lt(all[low + a].0, all[low + b].0));
            }
            assert forall|k: int| 0 <= k < out.len() implies {
                &&& self@.contains_key((#[trigger] out[k]).0)
                &&& self@[out[k].0] == out[k].1
                &&& in_bounds(out[k].0, start@, limit)
            } by {
                assert(out[k] == all[low + k]);
                lemma_rows_map_at(all, low + k);
                assert(all[low + k].0 == self.entries@[low + k].key@);
            }
            assert forall|key: Seq<u8>|
                self@.contains_key(key) && in_bounds(key, start@, limit) implies has_key(
                out,
                key,
            ) by {
                let j = choose|j: int| 0 <= j < all.len() && (#[trigger] all[j]).0 == key;
                assert(self.entries@[j].key@ == key);
                assert(low <= j);
                assert(j < bound);
                assert(out[j - low] == all[low + (j - low)]);
            }
        }
        cursor
    }

    /// A copy of the table.
    pub fn snapshot(&self) -> (copy: Self)
        ensures
            copy@ == self@,
    {
        proof {
            use_type_invariant(self);
        }
        let mut entries: Vec<RawRow> = Vec::new();
        let mut i: usize = 0;
        while i < self.entries.len()
            invariant
                i <= self.entries@.len(),
                entries@.len() == i,
                forall|k: int| 0 <= k < i ==> (#[trigger] entries@[k])@ == self.entries@[k]@,
            decreases self.entries@.len() - i,
        {
            entries.push(self.entries[i].clone());
            i += 1;
        }
        proof {
            assert(rows_view(entries@) =~= rows_view(self.entries@));
        }
        OrderedTable { entries }
    }

    /// The number of rows.
    pub fn len(&self) -> (n: usize)
        ensures
            n == self@.dom().len(),
            self@.dom().finite(),
    {
        proof {
            use_type_invariant(self);
            lemma_rows_map_len(rows_view(self.entries@));
        }
        self.entries.len()
    }
}

/// A place in a scan of a table. The key and the value that it shows are
/// borrowed from the table and stand for the current row only.
pub struct Cursor<'a> {
    table: &'a OrderedTable,
    at: usize,
    end: usize,
}

impl<'a> Cursor<'a> {
    #[verifier::type_invariant]
    spec fn inv(&self) -> bool {
        self.at <= self.end <= self.table.entries@.len()
    }

    /// The rows that the cursor has yet to show, the current one first.
    pub closed spec fn remaining(&self) -> Seq<(Seq<u8>, Seq<u8>)> {
        rows_view(self.table.entries@).subrange(self.at as int, self.end as int)
    }

    /// Whether there is a current row.
    pub fn valid(&self) -> (valid: bool)
        ensures
            valid == (self.remaining().len() > 0),
    {
        proof {
            use_type_invariant(self);
        }
        self.at < self.end
    }

    /// The key of the current row.
    pub fn key(&self) -> (key: &'a [u8])
        requires
            self.remaining().len() > 0,
        ensures
            key@ == self.remaining()[0].0,
    {
        proof {
            use_type_invariant(self);
        }
        self.table.entries[self.at].key.as_slice()
    }

    /// The value of the current row.
    pub fn value(&self) -> (value: &'a [u8])
        requires
            self.remaining().len() > 0,
        ensures
            value@ == self.remaining()[0].1,
    {
        proof {
            use_type_invariant(self);
        }
        self.table.entries[self.at].value.as_slice()
    }

    /// Moves to the next row.
    pub fn next(&mut self)
        requires
            old(self).remaining().len() > 0,
        ensures
            final(self).remaining() == old(self).remaining().skip(1),
    {
        proof {
            use_type_invariant(&*self);
        }
        self.at = self.at + 1;
        proof {
            assert(self.remaining() =~= old(self).remaining().skip(1));
        }
    }
}

/// A row put in the place of one with the same key changes that key's value.
proof fn lemma_update_map(rows: Seq<(Seq<u8>, Seq<u8>)>, at: int, value: Seq<u8>)
    requires
        ascending(rows),
        0 <= at < rows.len(),
        ascending(rows.update(at, (rows[at].0, value))),
    ensures
        rows_map(rows.update(at, (rows[at].0, value))) == rows_map(rows).insert(rows[at].0, value),
{
    let key = rows[at].0;
    let after = rows.update(at, (key, value));
    assert forall|k: Seq<u8>| has_key(after, k) == (k == key || has_key(rows, k)) by {
        if has_key(after, k) {
            let i = choose|i: int| 0 <= i < after.len() && (#[trigger] after[i]).0 == k;
            assert(rows[i].0 == k);
        }
        if has_key(rows, k) {
            let i = choose|i: int| 0 <= i < rows.len() && (#[trigger] rows[i]).0 == k;
            assert(after[i].0 == k);
        }
        if k == key {
            assert(after[at].0 == k);
        }
    }
    assert forall|k: Seq<u8>| has_key(after, k) implies rows_map(after)[k] == rows_map(
        rows,
    ).insert(key, value)[k] by {
        let i = choose|i: int| 0 <= i < after.len() && (#[trigger] after[i]).0 == k;
        lemma_rows_map_at(after, i);
        if i != at {
            assert(after[i] == rows[i]);
            lemma_rows_map_at(rows, i);
            lemma_rows_map_at(rows, at);
            if i < at {
                assert(lex_lt(rows[i].0, rows[at].0));
                lemma_lex_irreflexive(key);
            } else {
                assert(lex_lt(rows[at].0, rows[i].0));
                lemma_lex_irreflexive(key);
            }
        }
    }
    assert(rows_map(after) =~= rows_map(rows).insert(key, value));
}

/// A row put between the smaller keys and the greater ones adds its key.
proof fn lemma_insert_map(rows: Seq<(Seq<u8>, Seq<u8>)>, at: int, key: Seq<u8>, value: Seq<u8>)
    requires
        ascending(rows),
        0 <= at <= rows.len(),
        forall|i: int| 0 <= i < at ==> lex_lt((#[trigger] rows[i]).0, key),
        forall|i: int| at <= i < rows.len() ==> !lex_lt((#[trigger] rows[i]).0, key),
        !has_key(rows, key),
    ensures
        ascending(rows.insert(at, (key, value))),
        rows_map(rows.insert(at, (key, value))) == rows_map(rows).insert(key, value),
{
    let after = rows.insert(at, (key, value));
    assert forall|i: int, j: int| 0 <= i < j < after.len() implies lex_lt(
        #[trigger] after[i].0,
        #[trigger] after[j].0,
    ) by {
        if j < at {
            assert(lex_lt(rows[i].0, rows[j].0));
        } else if j == at {
            assert(lex_lt(rows[i].0, key));
        } else if i == at {
            assert(!lex_lt(rows[j - 1].0, key));
            lemma_lex_total(rows[j - 1].0, key);
        } else if i < at {
            assert(lex_lt(rows[i].0, rows[j - 1].0));
        } else {
            assert(lex_lt(rows[i - 1].0, rows[j - 1].0));
        }
    }
    assert forall|k: Seq<u8>| has_key(after, k) == (k == key || has_key(rows, k)) by {
        if has_key(after, k) && k != key {
            let i = choose|i: int| 0 <= i < after.len() && (#[trigger] after[i]).0 == k;
            if i < at {
                assert(rows[i].0 == k);
            } else {
                assert(rows[i - 1].0 == k);
            }
        }
        if has_key(rows, k) {
            let i = choose|i: int| 0 <= i < rows.len() && (#[trigger] rows[i]).0 == k;
            if i < at {
                assert(after[i].0 == k);
            } else {
                assert(after[i + 1].0 == k);
            }
        }
        if k == key {
            assert(after[at].0 == k);
        }
    }
    assert forall|k: Seq<u8>| has_key(after, k) implies rows_map(after)[k] == rows_map(
        rows,
    ).insert(key, value)[k] by {
        let i = choose|i: int| 0 <= i < after.len() && (#[trigger] after[i]).0 == k;
        lemma_rows_map_at(after, i);
        if i < at {
            lemma_rows_map_at(rows, i);
        } else if i > at {
            lemma_rows_map_at(rows, i - 1);
        }
    }
    assert(rows_map(after) =~= rows_map(rows).insert(key, value));
}

/// A row taken out takes its key with it, and no other.
proof fn lemma_remove_map(rows: Seq<(Seq<u8>, Seq<u8>)>, at: int)
    requires
        ascending(rows),
        0 <= at < rows.len(),
    ensures
        ascending(rows.remove(at)),
        rows_map(rows.remove(at)) == rows_map(rows).remove(rows[at].0),
{
    let key = rows[at].0;
    let after = rows.remove(at);
    assert forall|i: int, j: int| 0 <= i < j < after.len() implies lex_lt(
        #[trigger] after[i].0,
        #[trigger] after[j].0,
    ) by {
        let oi = if i < at { i } else { i + 1 };
        let oj = if j < at { j } else { j + 1 };
        assert(lex_lt(rows[oi].0, rows[oj].0));
    }
    assert forall|k: Seq<u8>| has_key(after, k) == (k != key && has_key(rows, k)) by {
        if has_key(after, k) {
            let i = choose|i: int| 0 <= i < after.len() && (#[trigger] after[i]).0 == k;
            let oi = if i < at { i } else { i + 1 };
            assert(rows[oi].0 == k);
            lemma_lex_irreflexive(key);
            if oi < at {
                assert(lex_lt(rows[oi].0, rows[at].0));
            } else {
                assert(lex_lt(rows[at].0, rows[oi].0));
            }
        }
        if k != key && has_key(rows, k) {
            let i = choose|i: int| 0 <= i < rows.len() && (#[trigger] rows[i]).0 == k;
            if i < at {
                assert(after[i].0 == k);
            } else {
                assert(after[i - 1].0 == k);
            }
        }
    }
    assert forall|k: Seq<u8>| has_key(after, k) implies rows_map(after)[k] == rows_map(
        rows,
    ).remove(key)[k] by {
        let i = choose|i: int| 0 <= i < after.len() && (#[trigger] after[i]).0 == k;
        lemma_rows_map_at(after, i);
        let oi = if i < at { i } else { i + 1 };
        lemma_rows_map_at(rows, oi);
    }
    assert(rows_map(after) =~= rows_map(rows).remove(key));
}

/// Ascending rows hold as many keys as there are rows.
proof fn lemma_rows_map_len(rows: Seq<(Seq<u8>, Seq<u8>)>)
    requires
        ascending(rows),
    ensures
        rows_map(rows).dom().finite(),
        rows_map(rows).dom().len() == rows.len(),
    decreases rows.len(),
{
    if rows.len() == 0 {
        assert(rows_map(rows).dom() =~= Set::<Seq<u8>>::empty());
    } else {
        let at = rows.len() - 1;
        let front = rows.remove(at);
        lemma_remove_map(rows, at);
        lemma_rows_map_len(front);
        lemma_rows_map_at(rows, at);
        assert(rows_map(rows).dom() =~= rows_map(front).dom().insert(rows[at].0));
    }
}

} // verus!
