//! Descriptions of the files that hold a table's rows and deletes.
use std::collections::HashMap;
use vstd::prelude::*;

use crate::predicate::Datum;

verus! {

/// What a file holds.
#[derive(Clone, Copy, Debug, PartialEq, Eq, Structural)]
pub enum DataContentType {
    /// Rows.
    Data,
    /// Deletes by file and position.
    PositionDeletes,
    /// Deletes by the values of some columns.
    EqualityDeletes,
}

/// The format of a file.
#[derive(Clone, Copy, Debug, PartialEq, Eq, Structural)]
pub enum DataFileFormat {
    /// Avro.
    Avro,
    /// ORC.
    Orc,
    /// Parquet.
    Parquet,
    /// Puffin.
    Puffin,
}

/// A primitive value.
#[derive(Debug)]
pub enum PrimitiveLiteral {
    /// A boolean.
    Boolean(bool),
    /// A 32-bit integer, or a date.
    Int(i32),
    /// A 64-bit integer, a time or a timestamp.
    Long(i64),
    /// The bits of a 32-bit floating-point number, one pattern for each value.
    Float(u32),
    /// The bits of a 64-bit floating-point number, one pattern for each value.
    Double(u64),
    /// A text.
    String(String),
    /// Some bytes.
    Binary(Vec<u8>),
    /// A decimal's unscaled value.
    Int128(i128),
    /// A UUID.
    UInt128(u128),
    /// Above the greatest value of the type.
    AboveMax,
    /// Below the least value of the type.
    BelowMin,
}

/// What a primitive value is.
pub enum LiteralModel {
    /// A boolean.
    Boolean(bool),
    /// A 32-bit integer, or a date.
    Int(int),
    /// A 64-bit integer, a time or a timestamp.
    Long(int),
    /// The bits of a 32-bit floating-point number.
    Float(u32),
    /// The bits of a 64-bit floating-point number.
    Double(u64),
    /// A text.
    String(Seq<char>),
    /// Some bytes.
    Binary(Seq<u8>),
    /// A decimal's unscaled value.
    Int128(i128),
    /// A UUID.
    UInt128(u128),
    /// Above the greatest value of the type.
    AboveMax,
    /// Below the least value of the type.
    BelowMin,
}

impl View for PrimitiveLiteral {
    type V = LiteralModel;

    open spec fn view(&self) -> LiteralModel {
        match self {
            PrimitiveLiteral::Boolean(v) => LiteralModel::Boolean(*v),
            PrimitiveLiteral::Int(v) => LiteralModel::Int(*v as int),
            PrimitiveLiteral::Long(v) => LiteralModel::Long(*v as int),
            PrimitiveLiteral::Float(v) => LiteralModel::Float(*v),
            PrimitiveLiteral::Double(v) => LiteralModel::Double(*v),
            PrimitiveLiteral::String(v) => LiteralModel::String(v@),
            PrimitiveLiteral::Binary(v) => LiteralModel::Binary(v@),
            PrimitiveLiteral::Int128(v) => LiteralModel::Int128(*v),
            PrimitiveLiteral::UInt128(v) => LiteralModel::UInt128(*v),
            PrimitiveLiteral::AboveMax => LiteralModel::AboveMax,
            PrimitiveLiteral::BelowMin => LiteralModel::BelowMin,
        }
    }
}

fn copy_bytes(bytes: &Vec<u8>) -> (copy: Vec<u8>)
    ensures
        copy@ == bytes@,
{
    let mut copy: Vec<u8> = Vec::new();
    let mut i: usize = 0;
    while i < bytes.len()
        invariant
            i <= bytes@.len(),
            copy@ == bytes@.take(i as int),
        decreases bytes@.len() - i,
    {
        copy.push(bytes[i]);
        assert(copy@ =~= bytes@.take(i + 1));
        i += 1;
    }
    assert(copy@ =~= bytes@);
    copy
}

fn same_bytes(a: &Vec<u8>, b: &Vec<u8>) -> (same: bool)
    ensures
        same == (a@ == b@),
{
    if a.len() != b.len() {
        return false;
    }
    let mut i: usize = 0;
    while i < a.len()
        invariant
            i <= a@.len() == b@.len(),
            forall|j: int| 0 <= j < i ==> a@[j] == b@[j],
        decreases a@.len() - i,
    {
        if a[i] != b[i] {
            return false;
        }
        i += 1;
    }
    assert(a@ =~= b@);
    true
}

impl PrimitiveLiteral {
    /// A copy of the value.
    pub fn copy(&self) -> (copy: Self)
        ensures
            copy@ == self@,
    {
        match self {
            PrimitiveLiteral::Boolean(v) => PrimitiveLiteral::Boolean(*v),
            PrimitiveLiteral::Int(v) => PrimitiveLiteral::Int(*v),
            PrimitiveLiteral::Long(v) => PrimitiveLiteral::Long(*v),
            PrimitiveLiteral::Float(v) => PrimitiveLiteral::Float(*v),
            PrimitiveLiteral::Double(v) => PrimitiveLiteral::Double(*v),
            PrimitiveLiteral::String(v) => PrimitiveLiteral::String(v.clone()),
            PrimitiveLiteral::Binary(v) => PrimitiveLiteral::Binary(copy_bytes(v)),
            PrimitiveLiteral::Int128(v) => PrimitiveLiteral::Int128(*v),
            PrimitiveLiteral::UInt128(v) => PrimitiveLiteral::UInt128(*v),
            PrimitiveLiteral::AboveMax => PrimitiveLiteral::AboveMax,
            PrimitiveLiteral::BelowMin => PrimitiveLiteral::BelowMin,
        }
    }

    /// Whether the two are the same value of the same type.
    pub fn same(&self, other: &Self) -> (same: bool)
        ensures
            same == (self@ == other@),
    {
        match (self, other) {
            (PrimitiveLiteral::Boolean(a), PrimitiveLiteral::Boolean(b)) => *a == *b,
            (PrimitiveLiteral::Int(a), PrimitiveLiteral::Int(b)) => *a == *b,
            (PrimitiveLiteral::Long(a), PrimitiveLiteral::Long(b)) => *a == *b,
            (PrimitiveLiteral::Float(a), PrimitiveLiteral::Float(b)) => *a == *b,
            (PrimitiveLiteral::Double(a), PrimitiveLiteral::Double(b)) => *a == *b,
            (PrimitiveLiteral::String(a), PrimitiveLiteral::String(b)) => *a == *b,
            (PrimitiveLiteral::Binary(a), PrimitiveLiteral::Binary(b)) => same_bytes(a, b),
            (PrimitiveLiteral::Int128(a), PrimitiveLiteral::Int128(b)) => *a == *b,
            (PrimitiveLiteral::UInt128(a), PrimitiveLiteral::UInt128(b)) => *a == *b,
            (PrimitiveLiteral::AboveMax, PrimitiveLiteral::AboveMax) => true,
            (PrimitiveLiteral::BelowMin, PrimitiveLiteral::BelowMin) => true,
            _ => false,
        }
    }
}

/// The partition that a file belongs to: the value of each partition field. A file of an
/// unpartitioned table has no partition field.
#[derive(Debug)]
pub struct Struct {
    /// The value of each partition field, `None` for null.
    pub fields: Vec<Option<PrimitiveLiteral>>,
}

/// What a partition value is.
pub open spec fn field_value(field: Option<PrimitiveLiteral>) -> Option<LiteralModel> {
    match field {
        Some(v) => Some(v@),
        None => None,
    }
}

impl View for Struct {
    type V = Seq<Option<LiteralModel>>;

    open spec fn view(&self) -> Seq<Option<LiteralModel>> {
        self.fields@.map_values(|f: Option<PrimitiveLiteral>| field_value(f))
    }
}

fn copy_field(field: &Option<PrimitiveLiteral>) -> (copy: Option<PrimitiveLiteral>)
    ensures
        field_value(copy) == field_value(*field),
{
    match field {
        Some(v) => Some(v.copy()),
        None => None,
    }
}

fn same_field(a: &Option<PrimitiveLiteral>, b: &Option<PrimitiveLiteral>) -> (same: bool)
    ensures
        same == (field_value(*a) == field_value(*b)),
{
    match (a, b) {
        (Some(x), Some(y)) => x.same(y),
        (None, None) => true,
        _ => false,
    }
}

/// A copy of partition values.
pub fn copy_fields(fields: &Vec<Option<PrimitiveLiteral>>) -> (copy: Vec<Option<PrimitiveLiteral>>)
    ensures
        copy@.map_values(|f: Option<PrimitiveLiteral>| field_value(f)) == fields@.map_values(
            |f: Option<PrimitiveLiteral>| field_value(f),
        ),
{
    let ghost value = |f: Option<PrimitiveLiteral>| field_value(f);
    let mut copy: Vec<Option<PrimitiveLiteral>> = Vec::new();
    let mut i: usize = 0;
    while i < fields.len()
        invariant
            i <= fields@.len(),
            value == (|f: Option<PrimitiveLiteral>| field_value(f)),
            copy@.map_values(value) == fields@.map_values(value).take(i as int),
        decreases fields@.len() - i,
    {
        let ghost before = copy@;
        copy.push(copy_field(&fields[i]));
        assert(copy@.map_values(value) =~= before.map_values(value).push(value(copy@[i as int])));
        assert(fields@.map_values(value).take(i + 1) =~= fields@.map_values(value).take(i as int).push(
            value(fields@[i as int]),
        ));
        i += 1;
    }
    assert(fields@.map_values(value).take(i as int) =~= fields@.map_values(value));
    copy
}

impl Struct {
    /// The partition of a file of an unpartitioned table.
    pub fn empty() -> (empty: Self)
        ensures
            empty@ == Seq::<Option<LiteralModel>>::empty(),
    {
        let empty = Struct { fields: Vec::new() };
        assert(empty@ =~= Seq::<Option<LiteralModel>>::empty());
        empty
    }

    /// A copy of the partition.
    pub fn copy(&self) -> (copy: Self)
        ensures
            copy@ == self@,
    {
        Struct { fields: copy_fields(&self.fields) }
    }

    /// Whether the two are the same partition.
    pub fn same(&self, other: &Self) -> (same: bool)
        ensures
            same == (self@ == other@),
    {
        if self.fields.len() != other.fields.len() {
            assert(self@.len() != other@.len());
            return false;
        }
        let mut i: usize = 0;
        while i < self.fields.len()
            invariant
                i <= self.fields@.len() == other.fields@.len(),
                forall|j: int| 0 <= j < i ==> #[trigger] self@[j] == other@[j],
            decreases self.fields@.len() - i,
        {
            if !same_field(&self.fields[i], &other.fields[i]) {
                assert(self@[i as int] != other@[i as int]);
                return false;
            }
            i += 1;
        }
        assert(self@ =~= other@);
        true
    }
}

/// A file that holds rows or deletes of a table.
#[derive(Debug)]
pub struct DataFile {
    /// What the file holds.
    pub content: DataContentType,
    /// The full URI of the file.
    pub file_path: String,
    /// The format of the file.
    pub file_format: DataFileFormat,
    /// The partition that the file belongs to.
    pub partition: Struct,
    /// The number of records.
    pub record_count: u64,
    /// The size of the file.
    pub file_size_in_bytes: u64,
    /// For each field id the size of the column.
    pub column_sizes: HashMap<i32, u64>,
    /// For each field id the number of values, nulls and NaNs included.
    pub value_counts: HashMap<i32, u64>,
    /// For each field id the number of nulls.
    pub null_value_counts: HashMap<i32, u64>,
    /// For each field id the number of NaNs.
    pub nan_value_counts: HashMap<i32, u64>,
    /// For each field id a value that none in the column is less than.
    pub lower_bounds: HashMap<i32, Datum>,
    /// For each field id a value that none in the column is greater than.
    pub upper_bounds: HashMap<i32, Datum>,
    /// What is needed to decrypt the file.
    pub key_metadata: Option<Vec<u8>>,
    /// The offsets at which the file can be split, in ascending order.
    pub split_offsets: Vec<i64>,
    /// The field ids that decide row equality, for a file of equality deletes.
    pub equality_ids: Option<Vec<i32>>,
    /// The sort order of the rows.
    pub sort_order_id: Option<i32>,
    /// The row id of the first row.
    pub first_row_id: Option<i64>,
    /// The partition spec that the file was written with.
    pub partition_spec_id: i32,
    /// The data file that all deletes of the file refer to.
    pub referenced_data_file: Option<String>,
    /// Where the content starts in the file, for a deletion vector.
    pub content_offset: Option<i64>,
    /// The length of the content in the file, for a deletion vector.
    pub content_size_in_bytes: Option<i64>,
}

}
