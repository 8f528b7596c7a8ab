//! Arrow batches, columns, masks and row keys, and the Arrow functions that the upsert logic calls.
//!
//! Arrow's containers are opaque to the verifier. Each has a name for what it holds, over the
//! models of [`crate::model`], and each Arrow function stands behind a small wrapper whose contract
//! says over those names what Arrow's source and documentation show.
use arrow_arith::aggregate::{max, max_string, min, min_string};
use arrow_arith::boolean::{and, and_kleene, is_null, not, or};
use arrow_array::cast::AsArray;
use arrow_array::types::{
    Date32Type, Int16Type, Int32Type, Int64Type, Int8Type, UInt16Type, UInt32Type, UInt64Type,
    UInt8Type,
};
use arrow_array::{Array, ArrayRef, BooleanArray, RecordBatch, UInt32Array};
use arrow_ord::cmp::neq;
use arrow_row::{RowConverter, Rows, SortField};
use arrow_schema::{ArrowError, DataType, Field, Schema as ArrowSchema, UnionMode};
use arrow_select::filter::filter_record_batch;
use arrow_select::take::take;
use std::collections::HashMap;
use std::sync::Arc;
use vstd::prelude::*;

use crate::model::{
    all_keyable, in_columns, selected, text_bytes, text_le, BatchModel, Cell, ColumnKind,
    ColumnModel, FieldModel, Row, TypeModel, TypeShape,
};

verus! {

/// An Arrow record batch.
#[verifier::external_body]
#[derive(Debug)]
pub struct Batch(pub RecordBatch);

/// One Arrow array.
#[verifier::external_body]
#[derive(Debug)]
pub struct Column(pub ArrayRef);

/// Arrow's array of booleans, used as a mask over rows.
#[verifier::external_type_specification]
#[verifier::external_body]
pub struct ExBooleanArray(BooleanArray);

/// The encoder of key columns into byte rows.
#[verifier::external_type_specification]
#[verifier::external_body]
pub struct ExRowConverter(RowConverter);

/// The type of one key column, as the row encoder takes it.
#[verifier::external_type_specification]
#[verifier::external_body]
pub struct ExSortField(SortField);

/// Key rows in their encoded form.
#[verifier::external_type_specification]
#[verifier::external_body]
pub struct ExRows(Rows);

/// A field of an Arrow schema.
#[verifier::external_type_specification]
#[verifier::external_body]
pub struct ExField(Field);

/// The type of an Arrow array.
#[verifier::external_type_specification]
#[verifier::external_body]
pub struct ExDataType(DataType);

/// Arrow's error.
#[verifier::external_type_specification]
#[verifier::external_body]
pub struct ExArrowError(ArrowError);

/// The columns of a record batch.
pub uninterp spec fn batch_columns(batch: Batch) -> Seq<ColumnModel>;

/// The number of rows of a record batch.
pub uninterp spec fn batch_rows(batch: Batch) -> nat;

/// The metadata of a record batch's schema.
pub uninterp spec fn batch_metadata(batch: Batch) -> Map<String, String>;

impl View for Batch {
    type V = BatchModel;

    open spec fn view(&self) -> BatchModel {
        BatchModel {
            columns: batch_columns(*self),
            rows: batch_rows(*self),
            metadata: batch_metadata(*self),
        }
    }
}

/// The values of an array.
pub uninterp spec fn column_cells(column: Column) -> Seq<Option<Cell>>;

/// The data type of an array.
pub uninterp spec fn column_type(column: Column) -> TypeModel;

/// The number of values that an array marks as null. The nulls among a dictionary's values, and
/// those of an array without any values, are not marked.
pub uninterp spec fn null_count(column: Column) -> nat;

/// The outermost layer of a type.
pub uninterp spec fn type_shape(data_type: DataType) -> TypeShape;

/// The types of the values inside a type.
pub uninterp spec fn type_children(data_type: DataType) -> Seq<DataType>;

/// How deep types stand inside a type.
pub uninterp spec fn type_depth(data_type: DataType) -> nat;

/// The type, or one at most `depth` below it, is one of run-end encoded values.
pub open spec fn holds_runs(data_type: DataType, depth: nat) -> bool
    decreases depth,
{
    ||| type_shape(data_type) is RunEnd
    ||| depth > 0 && exists|i: int|
        0 <= i < type_children(data_type).len() && holds_runs(
            #[trigger] type_children(data_type)[i],
            (depth - 1) as nat,
        )
}

/// The type, or one at most `depth` below it, is one of dictionary-encoded values or list views.
pub open spec fn holds_encoded(data_type: DataType, depth: nat) -> bool
    decreases depth,
{
    ||| type_shape(data_type) is Dictionary
    ||| type_shape(data_type) is ListView
    ||| depth > 0 && exists|i: int|
        0 <= i < type_children(data_type).len() && holds_encoded(
            #[trigger] type_children(data_type)[i],
            (depth - 1) as nat,
        )
}

/// The type is one of lists, maps or dense unions that hold dictionary-encoded values or list
/// views, or one of structs or sparse unions of these, as far as types at most `depth` below show.
pub open spec fn is_tangled(data_type: DataType, depth: nat) -> bool
    decreases depth,
{
    match type_shape(data_type) {
        TypeShape::List => depth > 0 && exists|i: int|
            0 <= i < type_children(data_type).len() && holds_encoded(
                #[trigger] type_children(data_type)[i],
                (depth - 1) as nat,
            ),
        TypeShape::Struct => depth > 0 && exists|i: int|
            0 <= i < type_children(data_type).len() && is_tangled(
                #[trigger] type_children(data_type)[i],
                (depth - 1) as nat,
            ),
        _ => false,
    }
}

/// The type is one of lists, structs, maps or unions, or one of dictionaries of these, as far as
/// types at most `depth` below show.
pub open spec fn is_nested(data_type: DataType, depth: nat) -> bool
    decreases depth,
{
    match type_shape(data_type) {
        TypeShape::List => true,
        TypeShape::ListView => true,
        TypeShape::Struct => true,
        TypeShape::Dictionary => depth > 0 && exists|i: int|
            0 <= i < type_children(data_type).len() && is_nested(
                #[trigger] type_children(data_type)[i],
                (depth - 1) as nat,
            ),
        _ => false,
    }
}

/// The kind of a type.
pub open spec fn kind_of(data_type: DataType) -> ColumnKind {
    if holds_runs(data_type, type_depth(data_type)) {
        ColumnKind::RunEnd
    } else if is_tangled(data_type, type_depth(data_type)) {
        ColumnKind::Tangled
    } else if is_nested(data_type, type_depth(data_type)) {
        ColumnKind::Nested
    } else {
        match type_shape(data_type) {
            TypeShape::Flat(kind) => kind,
            _ => match type_shape(type_children(data_type)[0]) {
                TypeShape::Dictionary => ColumnKind::TwiceEncoded,
                _ => ColumnKind::Dictionary,
            },
        }
    }
}

/// The values of a boolean array, `None` where the value is null.
pub uninterp spec fn mask_cells(mask: BooleanArray) -> Seq<Option<bool>>;

/// The boolean array holds `bits` and no null.
pub open spec fn is_mask(mask: BooleanArray, bits: Seq<bool>) -> bool {
    mask_cells(mask) == bits.map_values(|b: bool| Some(b))
}

/// The column type that a sort field was made with.
pub uninterp spec fn sort_field_type(field: SortField) -> TypeModel;

/// The column types that a row encoder was made with.
pub uninterp spec fn converter_types(converter: RowConverter) -> Seq<TypeModel>;

/// The keys that encoded rows stand for.
pub uninterp spec fn rows_keys(rows: Rows) -> Seq<Row>;

/// The column types of the encoder that made the rows.
pub uninterp spec fn rows_types(rows: Rows) -> Seq<TypeModel>;

/// What an Arrow field holds.
pub uninterp spec fn field_model(field: Field) -> FieldModel;

/// The bytes of the row format for a key of the given column types.
pub uninterp spec fn row_bytes(types: Seq<TypeModel>, key: Row) -> Seq<u8>;

/// Whether `take` can build its result: the offsets of variable-length values must not overflow.
pub uninterp spec fn take_fits(data_type: TypeModel, cells: Seq<Option<Cell>>, indices: Seq<u32>) -> bool;

/// Whether the comparison kernels compare columns of the two types.
pub uninterp spec fn neq_supported(left: TypeModel, right: TypeModel) -> bool;

/// The message of an Arrow error.
pub uninterp spec fn arrow_error_text(error: ArrowError) -> Seq<char>;

/// The bits of a mask in which a null counts as false.
pub open spec fn true_bits(cells: Seq<Option<bool>>) -> Seq<bool> {
    cells.map_values(|c: Option<bool>| c == Some(true))
}

/// `RecordBatch::num_rows`: the row count, which is the length of each column.
#[verifier::external_body]
fn record_batch_num_rows(batch: &Batch) -> (rows: usize)
    ensures
        rows == batch_rows(*batch),
        forall|c: int|
            0 <= c < batch_columns(*batch).len() ==> (#[trigger] batch_columns(*batch)[c]).cells.len() == rows,
{
    batch.0.num_rows()
}

/// `RecordBatch::num_columns`: the number of columns.
#[verifier::external_body]
fn record_batch_num_columns(batch: &Batch) -> (columns: usize)
    ensures
        columns == batch_columns(*batch).len(),
{
    batch.0.num_columns()
}

/// `RecordBatch::clone`: a batch with the same columns, rows and schema.
#[verifier::external_body]
pub(crate) fn copy_batch(batch: &Batch) -> (copy: Batch)
    ensures
        copy@ == batch@,
{
    Batch(batch.0.clone())
}

/// `RecordBatch::column`: the array of the column at `index`. The index must be in bounds. An
/// array without nested values has the type that its field declares, and an array whose field
/// forbids nulls marks none: a batch can be made of nothing else.
#[verifier::external_body]
pub(crate) fn batch_column(batch: &Batch, index: usize) -> (column: Column)
    requires
        index < batch@.columns.len(),
    ensures
        column_cells(column) == batch@.columns[index as int].cells,
        column_type(column) == batch@.columns[index as int].data_type,
        column_type(column).kind.is_keyable() ==> column_type(column)
            == batch@.columns[index as int].field.data_type,
        !batch@.columns[index as int].field.nullable ==> null_count(column) == 0,
{
    Column(batch.0.column(index).clone())
}

/// `Array::data_type`: the type of the array.
#[verifier::external_body]
fn column_data_type(column: &Column) -> (data_type: DataType)
    ensures
        kind_of(data_type) == column_type(*column).kind,
{
    column.0.data_type().clone()
}

/// `DataType`, for the integer and date types: the kind of such a type, and `None` for every other
/// type.
#[verifier::external_body]
fn integer_kind(data_type: &DataType) -> (kind: Option<ColumnKind>)
    ensures
        match kind {
            Some(k) => type_shape(*data_type) == TypeShape::Flat(k) && (k.is_signed() || k.is_unsigned()),
            None => type_shape(*data_type) matches TypeShape::Flat(k) ==> !k.is_signed() && !k.is_unsigned(),
        },
{
    Some(match data_type {
        DataType::Int8 => ColumnKind::Int8,
        DataType::Int16 => ColumnKind::Int16,
        DataType::Int32 => ColumnKind::Int32,
        DataType::Int64 => ColumnKind::Int64,
        DataType::UInt8 => ColumnKind::UInt8,
        DataType::UInt16 => ColumnKind::UInt16,
        DataType::UInt32 => ColumnKind::UInt32,
        DataType::UInt64 => ColumnKind::UInt64,
        DataType::Date32 => ColumnKind::Date32,
        _ => return None,
    })
}

/// `DataType`, for the types that are neither integers nor dates: the outermost layer of such a
/// type, which is flat only where the type is text or of no distinguished kind.
#[verifier::external_body]
fn other_shape(data_type: &DataType) -> (shape: TypeShape)
    requires
        type_shape(*data_type) matches TypeShape::Flat(k) ==> !k.is_signed() && !k.is_unsigned(),
    ensures
        shape == type_shape(*data_type),
        shape matches TypeShape::Flat(k) ==> k is Utf8 || k is LargeUtf8 || k is Plain,
{
    match data_type {
        DataType::Utf8 => TypeShape::Flat(ColumnKind::Utf8),
        DataType::LargeUtf8 => TypeShape::Flat(ColumnKind::LargeUtf8),
        DataType::Dictionary(_, _) => TypeShape::Dictionary,
        DataType::RunEndEncoded(_, _) => TypeShape::RunEnd,
        DataType::ListView(_) | DataType::LargeListView(_) => TypeShape::ListView,
        DataType::List(_) | DataType::LargeList(_) | DataType::FixedSizeList(_, _) => TypeShape::List,
        DataType::Map(_, _) | DataType::Union(_, UnionMode::Dense) => TypeShape::List,
        DataType::Struct(_) | DataType::Union(_, UnionMode::Sparse) => TypeShape::Struct,
        _ => TypeShape::Flat(ColumnKind::Plain),
    }
}

/// `DataType`: the types of the values inside a nested or encoded type, which are less deep than
/// it. A dictionary has one such type.
#[verifier::external_body]
fn child_types(data_type: &DataType) -> (children: Vec<DataType>)
    ensures
        children@ == type_children(*data_type),
        type_shape(*data_type) is Dictionary ==> children@.len() == 1,
        forall|i: int|
            0 <= i < children@.len() ==> type_depth(#[trigger] children@[i]) < type_depth(*data_type),
{
    match data_type {
        DataType::List(f) | DataType::LargeList(f) | DataType::FixedSizeList(f, _)
        | DataType::ListView(f) | DataType::LargeListView(f) | DataType::Map(f, _)
        | DataType::RunEndEncoded(_, f) => vec![f.data_type().clone()],
        DataType::Struct(fs) => fs.iter().map(|f| f.data_type().clone()).collect(),
        DataType::Union(fs, _) => fs.iter().map(|(_, f)| f.data_type().clone()).collect(),
        DataType::Dictionary(_, values) => vec![values.as_ref().clone()],
        _ => Vec::new(),
    }
}

/// The outermost layer of a type.
fn shape_of(data_type: &DataType) -> (shape: TypeShape)
    ensures
        shape == type_shape(*data_type),
{
    match integer_kind(data_type) {
        Some(kind) => TypeShape::Flat(kind),
        None => other_shape(data_type),
    }
}

/// What types stand in a type.
struct TypeFindings {
    /// Run-end encoded values.
    runs: bool,
    /// Dictionary-encoded values or list views.
    encoded: bool,
    /// Either of these inside a list, a map or a dense union that rows cannot be selected from.
    tangled: bool,
    /// The type is nested, or one of dictionaries of a nested type.
    nested: bool,
}

impl TypeFindings {
    spec fn describes(self, data_type: DataType, depth: nat) -> bool {
        &&& self.runs == holds_runs(data_type, depth)
        &&& self.encoded == holds_encoded(data_type, depth)
        &&& self.tangled == is_tangled(data_type, depth)
        &&& self.nested == is_nested(data_type, depth)
    }
}

/// Looks through a type and the types inside it.
fn type_findings(data_type: &DataType) -> (found: TypeFindings)
    ensures
        forall|depth: nat| depth >= type_depth(*data_type) ==> #[trigger] found.describes(*data_type, depth),
    decreases type_depth(*data_type),
{
    let shape = shape_of(data_type);
    let children = child_types(data_type);
    let ghost mut inside: Seq<TypeFindings> = Seq::empty();
    let mut any_runs = false;
    let mut any_encoded = false;
    let mut any_tangled = false;
    let mut any_nested = false;
    let mut i: usize = 0;
    while i < children.len()
        invariant
            i <= children@.len(),
            inside.len() == i,
            forall|j: int|
                0 <= j < children@.len() ==> type_depth(#[trigger] children@[j]) < type_depth(*data_type),
            forall|j: int, depth: nat|
                0 <= j < i && depth >= type_depth(children@[j]) ==> #[trigger] inside[j].describes(
                    children@[j],
                    depth,
                ),
            any_runs <==> exists|j: int| 0 <= j < i && (#[trigger] inside[j]).runs,
            any_encoded <==> exists|j: int| 0 <= j < i && (#[trigger] inside[j]).encoded,
            any_tangled <==> exists|j: int| 0 <= j < i && (#[trigger] inside[j]).tangled,
            any_nested <==> exists|j: int| 0 <= j < i && (#[trigger] inside[j]).nested,
        decreases children@.len() - i,
    {
        let found = type_findings(&children[i]);
        let ghost before = inside;
        proof {
            inside = before.push(found);
            assert(inside[i as int] == found);
            assert forall|j: int|
                #![trigger before[j]]
                #![trigger inside[j]]
                0 <= j < i implies inside[j] == before[j] by {}
        }
        any_runs = any_runs || found.runs;
        any_encoded = any_encoded || found.encoded;
        any_tangled = any_tangled || found.tangled;
        any_nested = any_nested || found.nested;
        i += 1;
    }
    let found = TypeFindings {
        runs: any_runs || match shape {
            TypeShape::RunEnd => true,
            _ => false,
        },
        encoded: any_encoded || match shape {
            TypeShape::Dictionary => true,
            TypeShape::ListView => true,
            _ => false,
        },
        tangled: match shape {
            TypeShape::List => any_encoded,
            TypeShape::Struct => any_tangled,
            _ => false,
        },
        nested: match shape {
            TypeShape::Dictionary => any_nested,
            TypeShape::Flat(_) => false,
            TypeShape::RunEnd => false,
            _ => true,
        },
    };
    proof {
        let kids = type_children(*data_type);
        assert forall|depth: nat| depth >= type_depth(*data_type) implies #[trigger] found.describes(
            *data_type,
            depth,
        ) by {
            if depth > 0 {
                let below = (depth - 1) as nat;
                assert forall|j: int| 0 <= j < kids.len() implies inside[j].describes(
                    #[trigger] kids[j],
                    below,
                ) by {
                    assert(type_depth(children@[j]) < type_depth(*data_type));
                }
                lemma_findings(inside, kids, below);
            } else {
                assert(kids.len() == 0) by {
                    if kids.len() > 0 {
                        assert(type_depth(children@[0]) < type_depth(*data_type));
                    }
                }
            }
        }
    }
    found
}

/// What is found in some of the types is what they hold.
proof fn lemma_findings(found: Seq<TypeFindings>, types: Seq<DataType>, depth: nat)
    requires
        found.len() == types.len(),
        forall|j: int| 0 <= j < types.len() ==> found[j].describes(#[trigger] types[j], depth),
    ensures
        (exists|j: int| 0 <= j < types.len() && (#[trigger] found[j]).runs) <==> exists|j: int|
            0 <= j < types.len() && holds_runs(#[trigger] types[j], depth),
        (exists|j: int| 0 <= j < types.len() && (#[trigger] found[j]).encoded) <==> exists|j: int|
            0 <= j < types.len() && holds_encoded(#[trigger] types[j], depth),
        (exists|j: int| 0 <= j < types.len() && (#[trigger] found[j]).tangled) <==> exists|j: int|
            0 <= j < types.len() && is_tangled(#[trigger] types[j], depth),
        (exists|j: int| 0 <= j < types.len() && (#[trigger] found[j]).nested) <==> exists|j: int|
            0 <= j < types.len() && is_nested(#[trigger] types[j], depth),
{
    assert forall|j: int| 0 <= j < types.len() implies (#[trigger] found[j]).describes(types[j], depth) by {
        assert(found[j].describes(types[j], depth));
    }
}

/// The kind of a column's type.
pub(crate) fn column_kind(column: &Column) -> (kind: ColumnKind)
    ensures
        kind == column_type(*column).kind,
{
    let data_type = column_data_type(column);
    let found = type_findings(&data_type);
    assert(found.describes(data_type, type_depth(data_type)));
    if found.runs {
        return ColumnKind::RunEnd;
    }
    if found.tangled {
        return ColumnKind::Tangled;
    }
    if found.nested {
        return ColumnKind::Nested;
    }
    match shape_of(&data_type) {
        TypeShape::Flat(kind) => kind,
        _ => {
            let values = child_types(&data_type);
            match shape_of(&values[0]) {
                TypeShape::Dictionary => ColumnKind::TwiceEncoded,
                _ => ColumnKind::Dictionary,
            }
        },
    }
}

impl Batch {
    /// The number of rows.
    pub fn num_rows(&self) -> (rows: usize)
        ensures
            rows == self@.rows,
            self@.wf(),
    {
        record_batch_num_rows(self)
    }

    /// The number of columns.
    pub fn num_columns(&self) -> (columns: usize)
        ensures
            columns == self@.columns.len(),
    {
        record_batch_num_columns(self)
    }

    /// The kind of the column at `index`.
    pub fn kind_of_column(&self, index: usize) -> (kind: ColumnKind)
        requires
            index < self@.columns.len(),
        ensures
            kind == self@.columns[index as int].data_type.kind,
            kind.is_keyable() ==> self@.columns[index as int].data_type
                == self@.columns[index as int].field.data_type,
    {
        column_kind(&batch_column(self, index))
    }

    /// Whether rows can be selected from every column.
    pub fn is_selectable(&self) -> (selectable: bool)
        ensures
            selectable == self@.selectable(),
    {
        let columns: usize = self.num_columns();
        let mut c: usize = 0;
        while c < columns
            invariant
                columns == self@.columns.len(),
                c <= columns,
                forall|i: int|
                    0 <= i < c ==> (#[trigger] self@.columns[i]).data_type.kind.is_selectable(),
            decreases columns - c,
        {
            if !self.kind_of_column(c).is_selectable() {
                assert(!self@.columns[c as int].data_type.kind.is_selectable());
                return false;
            }
            c += 1;
        }
        true
    }

    /// Whether the given columns are there and can serve as key columns.
    pub fn has_key_columns(&self, indices: &[usize]) -> (keyable: bool)
        ensures
            keyable == (in_columns(indices@, self@) && all_keyable(self@.types(indices@))),
            keyable ==> forall|k: int|
                0 <= k < indices@.len() ==> self@.columns[#[trigger] indices@[k] as int].data_type
                    == self@.columns[indices@[k] as int].field.data_type,
    {
        let columns: usize = self.num_columns();
        let mut k: usize = 0;
        while k < indices.len()
            invariant
                columns == self@.columns.len(),
                k <= indices@.len(),
                forall|j: int|
                    0 <= j < k ==> {
                        &&& #[trigger] indices@[j] < self@.columns.len()
                        &&& self@.columns[indices@[j] as int].data_type.kind.is_keyable()
                        &&& self@.columns[indices@[j] as int].data_type
                            == self@.columns[indices@[j] as int].field.data_type
                    },
            decreases indices@.len() - k,
        {
            if indices[k] >= columns {
                assert(indices@[k as int] >= self@.columns.len());
                return false;
            }
            if !self.kind_of_column(indices[k]).is_keyable() {
                assert(!self@.types(indices@)[k as int].kind.is_keyable());
                return false;
            }
            k += 1;
        }
        true
    }
}

/// `Array::len`: the number of values.
#[verifier::external_body]
pub(crate) fn column_len(column: &Column) -> (len: usize)
    ensures
        len == column_cells(*column).len(),
{
    column.0.len()
}

/// `PrimitiveArray::value` and `Array::is_null`, for signed integers and dates: the value at
/// `index`, within the range of the column's kind, or `None` for a null.
#[verifier::external_body]
pub(crate) fn signed_value(column: &Column, index: usize) -> (value: Option<i64>)
    requires
        column_type(*column).kind.is_signed(),
        index < column_cells(*column).len(),
    ensures
        column_cells(*column)[index as int] == match value {
            Some(v) => Some(Cell::Int(v as int)),
            None => None,
        },
        value matches Some(v) ==> column_type(*column).kind.holds_int(v as int),
{
    let array = &column.0;
    let value = match array.data_type() {
        DataType::Int8 => array.as_primitive::<Int8Type>().value(index).into(),
        DataType::Int16 => array.as_primitive::<Int16Type>().value(index).into(),
        DataType::Int32 => array.as_primitive::<Int32Type>().value(index).into(),
        DataType::Date32 => array.as_primitive::<Date32Type>().value(index).into(),
        _ => array.as_primitive::<Int64Type>().value(index),
    };
    array.is_valid(index).then_some(value)
}

/// `PrimitiveArray::value` and `Array::is_null`, for unsigned integers: the value at `index`,
/// within the range of the column's kind, or `None` for a null.
#[verifier::external_body]
pub(crate) fn unsigned_value(column: &Column, index: usize) -> (value: Option<u64>)
    requires
        column_type(*column).kind.is_unsigned(),
        index < column_cells(*column).len(),
    ensures
        column_cells(*column)[index as int] == match value {
            Some(v) => Some(Cell::Int(v as int)),
            None => None,
        },
        value matches Some(v) ==> column_type(*column).kind.holds_int(v as int),
{
    let array = &column.0;
    let value = match array.data_type() {
        DataType::UInt8 => array.as_primitive::<UInt8Type>().value(index).into(),
        DataType::UInt16 => array.as_primitive::<UInt16Type>().value(index).into(),
        DataType::UInt32 => array.as_primitive::<UInt32Type>().value(index).into(),
        _ => array.as_primitive::<UInt64Type>().value(index),
    };
    array.is_valid(index).then_some(value)
}

/// `StringArray::value` and `Array::is_null`: the text at `index`, or `None` for a null.
#[verifier::external_body]
pub(crate) fn text_value(column: &Column, index: usize) -> (value: Option<String>)
    requires
        column_type(*column).kind is Utf8,
        index < column_cells(*column).len(),
    ensures
        column_cells(*column)[index as int] == match value {
            Some(v) => Some(Cell::Text(v@)),
            None => None,
        },
{
    let array = column.0.as_string::<i32>();
    array.is_valid(index).then_some(array.value(index).to_string())
}

/// `bound` is among the integers of the column.
pub open spec fn among_ints(column: Column, bound: int) -> bool {
    exists|i: int|
        0 <= i < column_cells(column).len() && #[trigger] column_cells(column)[i] == Some(Cell::Int(bound))
}

/// `bound` is among the texts of the column.
pub open spec fn among_texts(column: Column, bound: Seq<char>) -> bool {
    exists|i: int|
        0 <= i < column_cells(column).len() && #[trigger] column_cells(column)[i] == Some(Cell::Text(bound))
}

/// Every value of the column is null.
pub open spec fn all_null(cells: Seq<Option<Cell>>) -> bool {
    forall|i: int| 0 <= i < cells.len() ==> (#[trigger] cells[i]) is None
}

/// `arrow_arith::aggregate::min`, for signed integers and dates: the least value that is not null,
/// or `None` where all values are null.
#[verifier::external_body]
pub(crate) fn least_signed(column: &Column) -> (least: Option<i64>)
    requires
        column_type(*column).kind.is_signed(),
    ensures
        match least {
            Some(m) => among_ints(*column, m as int) && column_type(*column).kind.holds_int(m as int)
                && (forall|i: int|
                0 <= i < column_cells(*column).len() ==> (#[trigger] column_cells(*column)[i] matches Some(
                    c,
                ) ==> c is Int && m <= c->Int_0)),
            None => all_null(column_cells(*column)),
        },
{
    let array = &column.0;
    match array.data_type() {
        DataType::Int8 => min(array.as_primitive::<Int8Type>()).map(i64::from),
        DataType::Int16 => min(array.as_primitive::<Int16Type>()).map(i64::from),
        DataType::Int32 => min(array.as_primitive::<Int32Type>()).map(i64::from),
        DataType::Date32 => min(array.as_primitive::<Date32Type>()).map(i64::from),
        _ => min(array.as_primitive::<Int64Type>()),
    }
}

/// `arrow_arith::aggregate::max`, for signed integers and dates: the greatest value that is not
/// null, or `None` where all values are null.
#[verifier::external_body]
pub(crate) fn greatest_signed(column: &Column) -> (greatest: Option<i64>)
    requires
        column_type(*column).kind.is_signed(),
    ensures
        match greatest {
            Some(m) => among_ints(*column, m as int) && column_type(*column).kind.holds_int(m as int)
                && (forall|i: int|
                0 <= i < column_cells(*column).len() ==> (#[trigger] column_cells(*column)[i] matches Some(
                    c,
                ) ==> c is Int && c->Int_0 <= m)),
            None => all_null(column_cells(*column)),
        },
{
    let array = &column.0;
    match array.data_type() {
        DataType::Int8 => max(array.as_primitive::<Int8Type>()).map(i64::from),
        DataType::Int16 => max(array.as_primitive::<Int16Type>()).map(i64::from),
        DataType::Int32 => max(array.as_primitive::<Int32Type>()).map(i64::from),
        DataType::Date32 => max(array.as_primitive::<Date32Type>()).map(i64::from),
        _ => max(array.as_primitive::<Int64Type>()),
    }
}

/// `arrow_arith::aggregate::min`, for unsigned integers: the least value that is not null, or
/// `None` where all values are null.
#[verifier::external_body]
pub(crate) fn least_unsigned(column: &Column) -> (least: Option<u64>)
    requires
        column_type(*column).kind.is_unsigned(),
    ensures
        match least {
            Some(m) => among_ints(*column, m as int) && column_type(*column).kind.holds_int(m as int)
                && (forall|i: int|
                0 <= i < column_cells(*column).len() ==> (#[trigger] column_cells(*column)[i] matches Some(
                    c,
                ) ==> c is Int && m <= c->Int_0)),
            None => all_null(column_cells(*column)),
        },
{
    let array = &column.0;
    match array.data_type() {
        DataType::UInt8 => min(array.as_primitive::<UInt8Type>()).map(u64::from),
        DataType::UInt16 => min(array.as_primitive::<UInt16Type>()).map(u64::from),
        DataType::UInt32 => min(array.as_primitive::<UInt32Type>()).map(u64::from),
        _ => min(array.as_primitive::<UInt64Type>()),
    }
}

/// `arrow_arith::aggregate::max`, for unsigned integers: the greatest value that is not null, or
/// `None` where all values are null.
#[verifier::external_body]
pub(crate) fn greatest_unsigned(column: &Column) -> (greatest: Option<u64>)
    requires
        column_type(*column).kind.is_unsigned(),
    ensures
        match greatest {
            Some(m) => among_ints(*column, m as int) && column_type(*column).kind.holds_int(m as int)
                && (forall|i: int|
                0 <= i < column_cells(*column).len() ==> (#[trigger] column_cells(*column)[i] matches Some(
                    c,
                ) ==> c is Int && c->Int_0 <= m)),
            None => all_null(column_cells(*column)),
        },
{
    let array = &column.0;
    match array.data_type() {
        DataType::UInt8 => max(array.as_primitive::<UInt8Type>()).map(u64::from),
        DataType::UInt16 => max(array.as_primitive::<UInt16Type>()).map(u64::from),
        DataType::UInt32 => max(array.as_primitive::<UInt32Type>()).map(u64::from),
        _ => max(array.as_primitive::<UInt64Type>()),
    }
}

/// `arrow_arith::aggregate::min_string`: the least text that is not null, in the order of strings,
/// or `None` where all values are null.
#[verifier::external_body]
pub(crate) fn least_text(column: &Column) -> (least: Option<String>)
    requires
        column_type(*column).kind is Utf8,
    ensures
        match least {
            Some(m) => among_texts(*column, m@) && (forall|i: int|
                0 <= i < column_cells(*column).len() ==> (#[trigger] column_cells(*column)[i] matches Some(
                    c,
                ) ==> c is Text && text_le(m@, c->Text_0))),
            None => all_null(column_cells(*column)),
        },
{
    min_string(column.0.as_string::<i32>()).map(str::to_string)
}

/// `arrow_arith::aggregate::max_string`: the greatest text that is not null, in the order of
/// strings, or `None` where all values are null.
#[verifier::external_body]
pub(crate) fn greatest_text(column: &Column) -> (greatest: Option<String>)
    requires
        column_type(*column).kind is Utf8,
    ensures
        match greatest {
            Some(m) => among_texts(*column, m@) && (forall|i: int|
                0 <= i < column_cells(*column).len() ==> (#[trigger] column_cells(*column)[i] matches Some(
                    c,
                ) ==> c is Text && text_le(c->Text_0, m@))),
            None => all_null(column_cells(*column)),
        },
{
    max_string(column.0.as_string::<i32>()).map(str::to_string)
}

/// `arrow_select::take::take`: the values at the given positions, in a column of the same type,
/// without marked nulls where the column has none. The positions must be in bounds. It fails only
/// where the offsets of the result overflow: never for integers, dates and dictionaries, and for
/// text only from two gibibytes on.
#[verifier::external_body]
pub(crate) fn take_rows(column: &Column, indices: &Vec<u32>) -> (taken: Result<Column, ArrowError>)
    requires
        column_type(*column).kind.is_keyable(),
        forall|j: int| 0 <= j < indices@.len() ==> #[trigger] indices@[j] < column_cells(*column).len(),
    ensures
        taken is Ok <==> take_fits(column_type(*column), column_cells(*column), indices@),
        column_type(*column).kind.is_signed() || column_type(*column).kind.is_unsigned() ==> taken is Ok,
        column_type(*column).kind is Dictionary || column_type(*column).kind is TwiceEncoded ==> taken is Ok,
        column_type(*column).kind is Utf8 && text_bytes(column_cells(*column), indices@) <= i32::MAX
            ==> taken is Ok,
        taken matches Ok(t) ==> column_type(t) == column_type(*column) && column_cells(t) == Seq::new(
            indices@.len(),
            |j: int| column_cells(*column)[indices@[j] as int],
        ),
        taken matches Ok(t) ==> (null_count(*column) == 0 ==> null_count(t) == 0),
{
    take(&column.0, &UInt32Array::from(indices.clone()), None).map(Column)
}

/// `Array::slice`, of no rows from the start: an empty column of the same type.
#[verifier::external_body]
pub(crate) fn no_rows(column: &Column) -> (empty: Column)
    ensures
        column_type(empty) == column_type(*column),
        column_cells(empty).len() == 0,
{
    Column(column.0.slice(0, 0))
}

/// Whether two cells differ, or null where either is null.
pub open spec fn cells_differ(left: Option<Cell>, right: Option<Cell>) -> Option<bool> {
    if left is None || right is None {
        None
    } else {
        Some(left != right)
    }
}

/// The comparison kernels answer for the two columns, if only with an error.
pub open spec fn can_be_compared(left: Column, right: Column) -> bool {
    let a = column_type(left).kind;
    let b = column_type(right).kind;
    ||| a.is_flat() && b.is_flat()
    ||| {
        &&& !(a is RunEnd) && !(b is RunEnd)
        &&& !(a is TwiceEncoded && b is TwiceEncoded)
        &&& column_cells(left).len() == 0
        &&& column_cells(right).len() == 0
    }
}

/// `arrow_ord::cmp::neq`: for each position whether the two values differ, and null where either
/// is null. It fails where the lengths differ or the types cannot be compared; equal types that
/// are flat can be, and two types that are neither equal nor dictionaries cannot, nor a type that
/// is not flat with any other. Columns that are not both flat must be empty, and run-end encoded
/// values, and two columns that are each encoded by more than one dictionary, must not be compared.
#[verifier::external_body]
pub(crate) fn columns_differ(left: &Column, right: &Column) -> (differ: Result<BooleanArray, ArrowError>)
    requires
        can_be_compared(*left, *right),
    ensures
        differ is Ok <==> (column_cells(*left).len() == column_cells(*right).len() && neq_supported(
            column_type(*left),
            column_type(*right),
        )),
        differ is Ok ==> column_type(*left).kind.is_flat() && column_type(*right).kind.is_flat(),
        differ is Err && column_type(*left).kind.is_flat() && column_type(*right).kind.is_flat()
            ==> column_type(*left) != column_type(*right) || column_cells(*left).len()
            != column_cells(*right).len(),
        differ is Ok ==> column_type(*left) == column_type(*right) || column_type(*left).kind is Dictionary
            || column_type(*right).kind is Dictionary,
        differ matches Ok(m) ==> mask_cells(m) == Seq::new(
            column_cells(*left).len(),
            |i: int| cells_differ(column_cells(*left)[i], column_cells(*right)[i]),
        ),
{
    neq(&left.0, &right.0)
}

/// `arrow_arith::boolean::is_null`: for each position whether the value is null. It never fails.
#[verifier::external_body]
pub(crate) fn null_mask(column: &Column) -> (nulls: Result<BooleanArray, ArrowError>)
    ensures
        nulls is Ok,
        nulls matches Ok(m) ==> is_mask(
            m,
            column_cells(*column).map_values(|c: Option<Cell>| c is None),
        ),
{
    is_null(&column.0)
}

/// `BooleanArray::from`, of a vector of booleans: the same values, none of them null.
#[verifier::external_body]
pub(crate) fn mask_from(bits: Vec<bool>) -> (mask: BooleanArray)
    ensures
        is_mask(mask, bits@),
{
    BooleanArray::from(bits)
}

/// `BooleanArray::value`: the value at `index`, which must be in bounds and not null.
#[verifier::external_body]
pub(crate) fn mask_value(mask: &BooleanArray, index: usize) -> (value: bool)
    requires
        index < mask_cells(*mask).len(),
        mask_cells(*mask)[index as int] is Some,
    ensures
        mask_cells(*mask)[index as int] == Some(value),
{
    mask.value(index)
}

/// `BooleanArray::true_count`: how many values are true and not null.
#[verifier::external_body]
pub(crate) fn mask_true_count(mask: &BooleanArray) -> (count: usize)
    ensures
        count == selected(true_bits(mask_cells(*mask))).len(),
{
    mask.true_count()
}

/// The negation of a mask value, null for null.
pub open spec fn bit_not(bit: Option<bool>) -> Option<bool> {
    match bit {
        Some(b) => Some(!b),
        None => None,
    }
}

/// The conjunction of two mask values, null where either is null.
pub open spec fn bit_and(left: Option<bool>, right: Option<bool>) -> Option<bool> {
    match (left, right) {
        (Some(a), Some(b)) => Some(a && b),
        _ => None,
    }
}

/// The disjunction of two mask values, null where either is null.
pub open spec fn bit_or(left: Option<bool>, right: Option<bool>) -> Option<bool> {
    match (left, right) {
        (Some(a), Some(b)) => Some(a || b),
        _ => None,
    }
}

/// The conjunction of two mask values, in which false wins over null.
pub open spec fn bit_and_kleene(left: Option<bool>, right: Option<bool>) -> Option<bool> {
    match (left, right) {
        (Some(a), Some(b)) => Some(a && b),
        (Some(a), None) => if a { None } else { Some(false) },
        (None, Some(b)) => if b { None } else { Some(false) },
        (None, None) => None,
    }
}

/// `arrow_arith::boolean::not`: each value negated, nulls kept. It never fails.
#[verifier::external_body]
pub(crate) fn mask_not(mask: &BooleanArray) -> (negated: Result<BooleanArray, ArrowError>)
    ensures
        negated is Ok,
        negated matches Ok(m) ==> mask_cells(m) == mask_cells(*mask).map_values(|c: Option<bool>| bit_not(c)),
{
    not(mask)
}

/// `arrow_arith::boolean::and`: the conjunction at each position, null where either value is null.
/// It fails exactly where the lengths differ.
#[verifier::external_body]
pub(crate) fn mask_and(left: &BooleanArray, right: &BooleanArray) -> (both: Result<BooleanArray, ArrowError>)
    ensures
        both is Ok <==> mask_cells(*left).len() == mask_cells(*right).len(),
        both matches Ok(m) ==> mask_cells(m) == Seq::new(
            mask_cells(*left).len(),
            |i: int| bit_and(mask_cells(*left)[i], mask_cells(*right)[i]),
        ),
{
    and(left, right)
}

/// `arrow_arith::boolean::or`: the disjunction at each position, null where either value is null.
/// It fails exactly where the lengths differ.
#[verifier::external_body]
pub(crate) fn mask_or(left: &BooleanArray, right: &BooleanArray) -> (either: Result<BooleanArray, ArrowError>)
    ensures
        either is Ok <==> mask_cells(*left).len() == mask_cells(*right).len(),
        either matches Ok(m) ==> mask_cells(m) == Seq::new(
            mask_cells(*left).len(),
            |i: int| bit_or(mask_cells(*left)[i], mask_cells(*right)[i]),
        ),
{
    or(left, right)
}

/// `arrow_arith::boolean::and_kleene`: the conjunction at each position, in which false wins over
/// null. It fails exactly where the lengths differ.
#[verifier::external_body]
pub(crate) fn mask_and_kleene(left: &BooleanArray, right: &BooleanArray) -> (both: Result<
    BooleanArray,
    ArrowError,
>)
    ensures
        both is Ok <==> mask_cells(*left).len() == mask_cells(*right).len(),
        both matches Ok(m) ==> mask_cells(m) == Seq::new(
            mask_cells(*left).len(),
            |i: int| bit_and_kleene(mask_cells(*left)[i], mask_cells(*right)[i]),
        ),
{
    and_kleene(left, right)
}

/// `arrow_select::filter::filter_record_batch`: the rows at which the mask is true, in order,
/// under the same schema. The mask must have one value for each row and be true somewhere; and
/// unless it is true everywhere, which slices the columns, rows must be selectable from each of
/// them. It then never fails.
#[verifier::external_body]
pub(crate) fn filter_batch(batch: &Batch, mask: &BooleanArray) -> (filtered: Result<Batch, ArrowError>)
    requires
        mask_cells(*mask).len() == batch@.rows,
        selected(true_bits(mask_cells(*mask))).len() > 0,
        batch@.selectable() || selected(true_bits(mask_cells(*mask))).len() == batch@.rows,
    ensures
        filtered is Ok,
        filtered matches Ok(f) ==> f@ == batch@.select(selected(true_bits(mask_cells(*mask)))),
{
    filter_record_batch(&batch.0, mask).map(Batch)
}

/// `SortField::new`, of the declared data type of the batch's field at `index`, which is the type of
/// the array where that is not nested.
#[verifier::external_body]
pub(crate) fn sort_field(batch: &Batch, index: usize) -> (field: SortField)
    requires
        index < batch@.columns.len(),
    ensures
        sort_field_type(field) == batch@.columns[index as int].field.data_type,
        batch@.columns[index as int].data_type.kind.is_keyable() ==> sort_field_type(field)
            == batch@.columns[index as int].data_type,
{
    SortField::new(batch.0.schema().field(index).data_type().clone())
}

/// `RowConverter::new`: an encoder for key columns of the given types. It never fails for types that
/// are not nested.
#[verifier::external_body]
pub(crate) fn row_converter(fields: Vec<SortField>) -> (converter: Result<RowConverter, ArrowError>)
    requires
        forall|k: int| 0 <= k < fields@.len() ==> sort_field_type(
                #[trigger] fields@[k],
            ).kind.is_keyable(),
    ensures
        converter is Ok,
        converter matches Ok(c) ==> converter_types(c) == fields@.map_values(
            |f: SortField| sort_field_type(f),
        ),
{
    RowConverter::new(fields)
}

/// The rows that columns of one length make, and no row where there is no column.
pub open spec fn row_tuples(columns: Seq<Column>) -> Seq<Row> {
    if columns.len() == 0 {
        Seq::empty()
    } else {
        Seq::new(
            column_cells(columns[0]).len(),
            |i: int| Seq::new(columns.len(), |k: int| column_cells(columns[k])[i]),
        )
    }
}

/// `RowConverter::convert_columns`: the rows that the columns make, one for each position, and none
/// where there is no column. It fails exactly where the number of columns, their lengths or their
/// types are not those expected.
#[verifier::external_body]
pub(crate) fn encode_rows(converter: &RowConverter, columns: &Vec<Column>) -> (rows: Result<Rows, ArrowError>)
    requires
        all_keyable(converter_types(*converter)),
        forall|k: int| 0 <= k < columns@.len() ==> column_type(#[trigger] columns@[k]).kind.is_keyable(),
    ensures
        rows is Ok <==> {
            &&& columns@.len() == converter_types(*converter).len()
            &&& forall|k: int|
                0 <= k < columns@.len() ==> column_cells(#[trigger] columns@[k]).len() == column_cells(
                    columns@[0],
                ).len()
            &&& forall|k: int|
                0 <= k < columns@.len() ==> column_type(#[trigger] columns@[k]) == converter_types(
                    *converter,
                )[k]
        },
        rows matches Ok(r) ==> rows_types(r) == converter_types(*converter) && rows_keys(r) == row_tuples(
            columns@,
        ),
{
    let arrays: Vec<ArrayRef> = columns.iter().map(|column| column.0.clone()).collect();
    converter.convert_columns(&arrays)
}

/// `Rows::num_rows`: the number of rows.
#[verifier::external_body]
pub(crate) fn rows_len(rows: &Rows) -> (len: usize)
    ensures
        len == rows_keys(*rows).len(),
{
    rows.num_rows()
}

/// `Rows::row` and `Row::data`: the bytes of the row at `index`, which must be in bounds. Rows of
/// one encoder have equal bytes exactly where they stand for equal keys.
#[verifier::external_body]
pub(crate) fn row_data(rows: &Rows, index: usize) -> (bytes: Vec<u8>)
    requires
        index < rows_keys(*rows).len(),
    ensures
        bytes@ == row_bytes(rows_types(*rows), rows_keys(*rows)[index as int]),
        forall|key: Row| #[trigger]
            row_bytes(rows_types(*rows), key) == bytes@ ==> key == rows_keys(*rows)[index as int],
{
    rows.row(index).data().to_vec()
}

/// `Schema::field`: the field of the column at `index`, which must be in bounds.
#[verifier::external_body]
pub(crate) fn batch_field(batch: &Batch, index: usize) -> (field: Field)
    requires
        index < batch@.columns.len(),
    ensures
        field_model(field) == batch@.columns[index as int].field,
{
    batch.0.schema().field(index).clone()
}

/// `Field::name`: the field's name.
#[verifier::external_body]
pub(crate) fn field_name(field: &Field) -> (name: String)
    ensures
        name@ == field_model(*field).name,
{
    field.name().clone()
}

/// `Field::metadata`: the value under `key` in the field's metadata.
#[verifier::external_body]
pub(crate) fn field_metadata(field: &Field, key: &str) -> (value: Option<String>)
    ensures
        match value {
            Some(v) => field_model(*field).metadata.contains_key(key@) && field_model(*field).metadata[key@]
                == v@,
            None => !field_model(*field).metadata.contains_key(key@),
        },
{
    field.metadata().get(key).cloned()
}

/// `Field::new`: a field with the given name, the data type and nullability of the field `like`,
/// and no metadata.
#[verifier::external_body]
pub(crate) fn new_field(name: &String, like: &Field) -> (field: Field)
    ensures
        field_model(field) == (FieldModel {
            name: name@,
            metadata: Map::empty(),
            ..field_model(*like)
        }),
{
    Field::new(name.as_str(), like.data_type().clone(), like.is_nullable())
}

/// `Field::with_metadata`: the field with the metadata of the field `base`, in which `value` stands
/// under `key`.
#[verifier::external_body]
pub(crate) fn with_metadata_entry(field: Field, base: &Field, key: &str, value: String) -> (changed: Field)
    ensures
        field_model(changed) == (FieldModel {
            metadata: field_model(*base).metadata.insert(key@, value@),
            ..field_model(field)
        }),
{
    let mut metadata = base.metadata().clone();
    metadata.insert(key.to_string(), value);
    field.with_metadata(metadata)
}

/// `Schema::metadata`: the metadata of the batch's schema.
#[verifier::external_body]
pub(crate) fn schema_metadata(batch: &Batch) -> (metadata: HashMap<String, String>)
    ensures
        metadata@ == batch_metadata(*batch),
{
    batch.0.schema().metadata().clone()
}

/// The fields and columns can make a batch: there is at least one column, each has its field's
/// type, all have one length, and none whose field forbids nulls marks one.
pub open spec fn makes_batch(fields: Seq<Field>, columns: Seq<Column>) -> bool {
    &&& columns.len() > 0
    &&& forall|k: int|
        0 <= k < columns.len() ==> {
            &&& column_type(#[trigger] columns[k]) == field_model(fields[k]).data_type
            &&& column_cells(columns[k]).len() == column_cells(columns[0]).len()
            &&& field_model(fields[k]).nullable || null_count(columns[k]) == 0
        }
}

/// `RecordBatch::try_new`: a batch of the given fields and columns under a schema with the given
/// metadata. It succeeds exactly where these fit together.
#[verifier::external_body]
pub(crate) fn new_batch(fields: Vec<Field>, columns: &Vec<Column>, metadata: HashMap<String, String>) -> (batch:
    Result<Batch, ArrowError>)
    requires
        fields@.len() == columns@.len(),
    ensures
        batch is Ok <==> makes_batch(fields@, columns@),
        batch matches Ok(b) ==> b@ == (BatchModel {
            columns: Seq::new(
                columns@.len(),
                |k: int|
                    ColumnModel {
                        field: field_model(fields@[k]),
                        data_type: column_type(columns@[k]),
                        cells: column_cells(columns@[k]),
                    },
            ),
            rows: column_cells(columns@[0]).len(),
            metadata: metadata@,
        }),
{
    let arrays: Vec<ArrayRef> = columns.iter().map(|column| column.0.clone()).collect();
    let schema = ArrowSchema::new_with_metadata(fields, metadata);
    RecordBatch::try_new(Arc::new(schema), arrays).map(Batch)
}

/// `ArrowError`'s `Display`: the error's message.
#[verifier::external_body]
pub(crate) fn error_text(error: &ArrowError) -> (text: String)
    ensures
        text@ == arrow_error_text(*error),
{
    format!("{error}")
}

}
