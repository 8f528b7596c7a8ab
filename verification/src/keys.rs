//! Row keys: their encoding into bytes, and an index from encoded keys to the rows that hold them.
use arrow_row::{RowConverter, Rows, SortField};
use std::collections::HashMap;
use vstd::prelude::*;

use crate::columnar::{
    batch_column, column_cells, column_type, converter_types, encode_rows, error_text, row_bytes,
    row_converter, row_data, row_tuples, rows_keys, rows_len, rows_types, sort_field,
    sort_field_type, Batch, Column,
};
use crate::error::{Error, ErrorKind, Result};
use crate::model::{
    all_keyable, in_columns, last_index_of, lemma_last_index_of, Row, TypeModel,
};
use crate::text::join2;

verus! {

/// The FNV-1a hash of some bytes.
pub open spec fn fnv1a(bytes: Seq<u8>) -> u64
    decreases bytes.len(),
{
    if bytes.len() == 0 {
        0xcbf2_9ce4_8422_2325
    } else {
        (fnv1a(bytes.drop_last()) ^ (bytes.last() as u64)).wrapping_mul(0x0000_0100_0000_01b3)
    }
}

fn hash_bytes(bytes: &Vec<u8>) -> (hash: u64)
    ensures
        hash == fnv1a(bytes@),
{
    let mut hash: u64 = 0xcbf2_9ce4_8422_2325;
    let mut i: usize = 0;
    while i < bytes.len()
        invariant
            i <= bytes@.len(),
            hash == fnv1a(bytes@.take(i as int)),
        decreases bytes@.len() - i,
    {
        assert(bytes@.take(i + 1).drop_last() =~= bytes@.take(i as int));
        hash = (hash ^ (bytes[i] as u64)).wrapping_mul(0x0000_0100_0000_01b3);
        i += 1;
    }
    assert(bytes@.take(i as int) =~= bytes@);
    hash
}

fn bytes_equal(a: &Vec<u8>, b: &Vec<u8>) -> (equal: bool)
    ensures
        equal == (a@ == b@),
{
    if a.len() != b.len() {
        return false;
    }
    let mut i: usize = 0;
    while i < a.len()
        invariant
            i <= a@.len() == b@.len(),
            a@.take(i as int) == b@.take(i as int),
        decreases a@.len() - i,
    {
        if a[i] != b[i] {
            return false;
        }
        assert(a@.take(i + 1) =~= a@.take(i as int).push(a@[i as int]));
        assert(b@.take(i + 1) =~= b@.take(i as int).push(b@[i as int]));
        i += 1;
    }
    assert(a@.take(i as int) =~= a@);
    assert(b@.take(i as int) =~= b@);
    true
}

/// A hash index over encoded keys: for a key it finds the last row that holds it.
pub struct KeyIndex {
    keys: Vec<Vec<u8>>,
    buckets: HashMap<u64, Vec<usize>>,
}

impl View for KeyIndex {
    type V = Seq<Seq<u8>>;

    /// The key of each row.
    closed spec fn view(&self) -> Seq<Seq<u8>> {
        self.keys@.map_values(|k: Vec<u8>| k@)
    }
}

impl KeyIndex {
    spec fn lists(&self, hash: u64, row: int) -> bool {
        &&& self.buckets@.contains_key(hash)
        &&& exists|p: int|
            0 <= p < self.buckets@[hash]@.len() && #[trigger] self.buckets@[hash]@[p] == row
    }

    /// Each bucket lists, in ascending order, exactly the rows whose key has the bucket's hash.
    pub closed spec fn wf(&self) -> bool {
        &&& forall|i: int| 0 <= i < self.keys@.len() ==> self.lists(fnv1a(#[trigger] self.keys@[i]@), i)
        &&& forall|h: u64, p: int|
            self.buckets@.contains_key(h) && 0 <= p < self.buckets@[h]@.len()
                ==> #[trigger] self.buckets@[h]@[p] < self.keys@.len()
        &&& forall|h: u64, p: int, q: int|
            self.buckets@.contains_key(h) && 0 <= p < q < self.buckets@[h]@.len()
                ==> #[trigger] self.buckets@[h]@[p] < #[trigger] self.buckets@[h]@[q]
    }

    /// An index without keys.
    pub fn new() -> (index: Self)
        ensures
            index.wf(),
            index@ == Seq::<Seq<u8>>::empty(),
    {
        broadcast use vstd::std_specs::hash::group_hash_axioms;

        let index = KeyIndex { keys: Vec::new(), buckets: HashMap::new() };
        assert(index@ =~= Seq::<Seq<u8>>::empty());
        index
    }

    /// Adds the key of the next row.
    pub fn push(&mut self, key: Vec<u8>)
        requires
            old(self).wf(),
        ensures
            final(self).wf(),
            final(self)@ == old(self)@.push(key@),
    {
        broadcast use vstd::std_specs::hash::group_hash_axioms;

        let ghost before = *self;
        let row: usize = self.keys.len();
        let hash = hash_bytes(&key);
        let mut bucket: Vec<usize> = match self.buckets.remove(&hash) {
            Some(bucket) => bucket,
            None => Vec::new(),
        };
        let ghost rows = bucket@;
        assert(before.buckets@.contains_key(hash) ==> rows == before.buckets@[hash]@);
        assert(!before.buckets@.contains_key(hash) ==> rows.len() == 0);
        bucket.push(row);
        self.buckets.insert(hash, bucket);
        self.keys.push(key);
        proof {
            assert(self@ =~= before@.push(key@));
            assert(self.buckets@[hash]@ == rows.push(row));
            assert forall|i: int| 0 <= i < self.keys@.len() implies self.lists(
                fnv1a(#[trigger] self.keys@[i]@),
                i,
            ) by {
                if i == row {
                    assert(self.buckets@[hash]@[rows.len() as int] == i);
                } else {
                    assert(self.keys@[i] == before.keys@[i]);
                    let h = fnv1a(before.keys@[i]@);
                    assert(before.lists(h, i));
                    let p = choose|p: int|
                        0 <= p < before.buckets@[h]@.len() && #[trigger] before.buckets@[h]@[p] == i;
                    assert(self.buckets@[h]@[p] == i);
                }
            }
            assert forall|h: u64, p: int|
                self.buckets@.contains_key(h) && 0 <= p < self.buckets@[h]@.len() implies #[trigger] self.buckets@[h]@[p]
                < self.keys@.len() by {
                if h == hash {
                    if p < rows.len() {
                        assert(before.buckets@[h]@[p] < before.keys@.len());
                    }
                } else {
                    assert(before.buckets@[h]@[p] < before.keys@.len());
                }
            }
            assert forall|h: u64, p: int, q: int|
                self.buckets@.contains_key(h) && 0 <= p < q < self.buckets@[h]@.len() implies #[trigger] self.buckets@[h]@[p]
                < #[trigger] self.buckets@[h]@[q] by {
                if h == hash {
                    assert(before.buckets@[h]@[p] < before.keys@.len());
                    if q < rows.len() {
                        assert(before.buckets@[h]@[p] < before.buckets@[h]@[q]);
                    }
                } else {
                    assert(before.buckets@[h]@[p] < before.buckets@[h]@[q]);
                }
            }
        }
    }

    /// The last row whose key is `key`.
    pub fn find_last(&self, key: &Vec<u8>) -> (row: Option<usize>)
        requires
            self.wf(),
        ensures
            match row {
                Some(r) => r < self@.len() && self@[r as int] == key@ && forall|j: int|
                    r < j < self@.len() ==> #[trigger] self@[j] != key@,
                None => !self@.contains(key@),
            },
    {
        broadcast use vstd::std_specs::hash::group_hash_axioms;

        let hash = hash_bytes(key);
        match self.buckets.get(&hash) {
            None => {
                assert forall|j: int| 0 <= j < self@.len() implies #[trigger] self@[j] != key@ by {
                    assert(self.buckets@.contains_key(fnv1a(self.keys@[j]@)));
                }
                None
            },
            Some(bucket) => {
                let mut p: usize = bucket.len();
                while p > 0
                    invariant
                        self.wf(),
                        hash == fnv1a(key@),
                        self.buckets@.contains_key(hash),
                        bucket@ == self.buckets@[hash]@,
                        p <= bucket@.len(),
                        forall|q: int| p <= q < bucket@.len() ==> self.keys@[#[trigger] bucket@[q] as int]@ != key@,
                    decreases p,
                {
                    p -= 1;
                    assert(self.buckets@[hash]@[p as int] < self.keys@.len());
                    let row: usize = bucket[p];
                    if bytes_equal(&self.keys[row], key) {
                        assert(self@[row as int] == key@);
                        assert forall|j: int| row < j < self@.len() implies #[trigger] self@[j] != key@ by {
                            if self@[j] == key@ {
                                assert(fnv1a(self.keys@[j]@) == hash);
                                let q = choose|q: int|
                                    0 <= q < self.buckets@[hash]@.len() && #[trigger] self.buckets@[hash]@[q]
                                        == j;
                                assert(bucket@[q] == j);
                                if q < p {
                                    assert(self.buckets@[hash]@[q] < self.buckets@[hash]@[p as int]);
                                }
                            }
                        }
                        return Some(row);
                    }
                }
                assert forall|j: int| 0 <= j < self@.len() implies #[trigger] self@[j] != key@ by {
                    if self@[j] == key@ {
                        assert(fnv1a(self.keys@[j]@) == hash);
                        let q = choose|q: int|
                            0 <= q < self.buckets@[hash]@.len() && #[trigger] self.buckets@[hash]@[q] == j;
                        assert(bucket@[q] == j);
                    }
                }
                None
            },
        }
    }
}

/// The keys in their encoded form.
pub open spec fn encoded(types: Seq<TypeModel>, keys: Seq<Row>) -> Seq<Seq<u8>> {
    keys.map_values(|key: Row| row_bytes(types, key))
}

/// An encoder for the key columns of a batch.
pub(crate) fn key_converter(batch: &Batch, indices: &[usize]) -> (converter: Result<RowConverter>)
    requires
        in_columns(indices@, batch@),
        all_keyable(batch@.types(indices@)),
    ensures
        converter matches Ok(c) && converter_types(c) == batch@.types(indices@),
{
    let ghost types = batch@.types(indices@);
    let mut fields: Vec<SortField> = Vec::new();
    let mut k: usize = 0;
    while k < indices.len()
        invariant
            types == batch@.types(indices@),
            in_columns(indices@, batch@),
            all_keyable(types),
            k <= indices@.len(),
            fields@.map_values(|f: SortField| sort_field_type(f)) == types.take(k as int),
        decreases indices@.len() - k,
    {
        assert(types[k as int].kind.is_keyable());
        let field = sort_field(batch, indices[k]);
        let ghost before = fields@;
        fields.push(field);
        proof {
            let f = |f: SortField| sort_field_type(f);
            assert(before.push(field).map_values(f) =~= before.map_values(f).push(sort_field_type(field)));
            assert(types.take(k + 1) =~= types.take(k as int).push(types[k as int]));
        }
        k += 1;
    }
    proof {
        assert(types.take(k as int) =~= types);
        assert forall|i: int| 0 <= i < fields@.len() implies sort_field_type(
            #[trigger] fields@[i],
        ).kind.is_keyable() by {
            assert(fields@.map_values(|f: SortField| sort_field_type(f))[i] == sort_field_type(fields@[i]));
            assert(types[i].kind.is_keyable());
        }
    }
    match row_converter(fields) {
        Ok(converter) => Ok(converter),
        Err(e) => {
            let detail = error_text(&e);
            let message = join2("RowConverter error: ", detail.as_str());
            Err(Error::new(ErrorKind::Unexpected, message))
        },
    }
}

/// The encoded keys of a batch. It fails where the key columns do not have the types that the
/// encoder was made for.
pub(crate) fn encode_keys(converter: &RowConverter, batch: &Batch, indices: &[usize]) -> (rows: Result<Rows>)
    requires
        in_columns(indices@, batch@),
        all_keyable(batch@.types(indices@)),
        all_keyable(converter_types(*converter)),
        batch@.wf(),
    ensures
        match rows {
            Ok(r) => {
                &&& batch@.types(indices@) == converter_types(*converter)
                &&& rows_types(r) == converter_types(*converter)
                &&& rows_keys(r) == batch@.keys(indices@)
            },
            Err(e) => batch@.types(indices@) != converter_types(*converter) && e.reports(
                "RowConverter convert error: "@,
            ),
        },
{
    let ghost given = batch@.types(indices@);
    let mut columns: Vec<Column> = Vec::new();
    let mut k: usize = 0;
    while k < indices.len()
        invariant
            given == batch@.types(indices@),
            in_columns(indices@, batch@),
            k <= indices@.len(),
            columns@.len() == k,
            forall|i: int|
                0 <= i < k ==> {
                    &&& column_cells(#[trigger] columns@[i]) == batch@.columns[indices@[i] as int].cells
                    &&& column_type(columns@[i]) == given[i]
                },
        decreases indices@.len() - k,
    {
        columns.push(batch_column(batch, indices[k]));
        k += 1;
    }
    let ghost expected = converter_types(*converter);
    proof {
        let keys = batch@.keys(indices@);
        let tuples = row_tuples(columns@);
        assert forall|i: int| 0 <= i < columns@.len() implies column_cells(#[trigger] columns@[i]).len()
            == batch@.rows && column_type(columns@[i]).kind.is_keyable() by {
            assert(given[i].kind.is_keyable());
        }
        assert(keys.len() == tuples.len());
        assert forall|r: int| 0 <= r < keys.len() implies keys[r] == tuples[r] by {
            assert(keys[r] =~= tuples[r]);
        }
        assert(keys =~= tuples);
        if columns@.len() == expected.len() && (forall|i: int|
            0 <= i < columns@.len() ==> column_type(#[trigger] columns@[i]) == expected[i]) {
            assert forall|i: int| 0 <= i < given.len() implies given[i] == expected[i] by {
                assert(column_type(columns@[i]) == given[i]);
            }
            assert(given =~= expected);
        }
    }
    match encode_rows(converter, &columns) {
        Ok(rows) => Ok(rows),
        Err(e) => {
            let detail = error_text(&e);
            let message = join2("RowConverter convert error: ", detail.as_str());
            Err(Error::new(ErrorKind::Unexpected, message))
        },
    }
}

/// An index over encoded keys.
pub(crate) fn index_keys(rows: &Rows) -> (index: KeyIndex)
    ensures
        index.wf(),
        index@ == encoded(rows_types(*rows), rows_keys(*rows)),
{
    let mut index = KeyIndex::new();
    let count: usize = rows_len(rows);
    let mut i: usize = 0;
    while i < count
        invariant
            count == rows_keys(*rows).len(),
            i <= count,
            index.wf(),
            index@ == encoded(rows_types(*rows), rows_keys(*rows)).take(i as int),
        decreases count - i,
    {
        index.push(row_data(rows, i));
        assert(encoded(rows_types(*rows), rows_keys(*rows)).take(i + 1) =~= encoded(
            rows_types(*rows),
            rows_keys(*rows),
        ).take(i as int).push(row_bytes(rows_types(*rows), rows_keys(*rows)[i as int])));
        i += 1;
    }
    assert(index@ =~= encoded(rows_types(*rows), rows_keys(*rows)));
    index
}

/// The last of the indexed rows that has the key at position `i` of `rows`.
pub(crate) fn find_key(index: &KeyIndex, rows: &Rows, i: usize, Ghost(keys): Ghost<Seq<Row>>) -> (row: Option<
    usize,
>)
    requires
        index.wf(),
        index@ == encoded(rows_types(*rows), keys),
        i < rows_keys(*rows).len(),
    ensures
        match row {
            Some(r) => last_index_of(keys, rows_keys(*rows)[i as int]) == Some(r as int),
            None => last_index_of(keys, rows_keys(*rows)[i as int]) is None,
        },
{
    let bytes = row_data(rows, i);
    let ghost types = rows_types(*rows);
    let ghost key = rows_keys(*rows)[i as int];
    proof {
        lemma_last_index_of(keys, key);
        assert forall|j: int| 0 <= j < keys.len() implies (#[trigger] keys[j] == key) == (index@[j] == bytes@) by {
            assert(index@[j] == row_bytes(types, keys[j]));
        }
    }
    let row = index.find_last(&bytes);
    proof {
        match row {
            Some(r) => {
                assert(keys[r as int] == key);
                assert forall|j: int| r < j < keys.len() implies #[trigger] keys[j] != key by {
                    assert(index@[j] != bytes@);
                }
                let found = last_index_of(keys, key);
                if found is None {
                    assert(keys[r as int] != key);
                } else if found->0 < r {
                    assert(keys[r as int] != key);
                } else if found->0 > r {
                    assert(keys[found->0] != key);
                }
            },
            None => {
                assert forall|j: int| 0 <= j < keys.len() implies #[trigger] keys[j] != key by {
                    assert(index@[j] == row_bytes(types, keys[j]));
                    assert(index@.contains(index@[j]));
                }
            },
        }
    }
    row
}

}
