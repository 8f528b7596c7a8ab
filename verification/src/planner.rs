//! Key resolution, source validation and pruning predicates for upsert.
use vstd::prelude::*;

use crate::columnar::{
    all_null, batch_column, column_cells, column_kind, column_len, column_type, greatest_signed,
    greatest_text, greatest_unsigned, least_signed, least_text, least_unsigned, row_bytes,
    row_data, rows_keys, rows_len, rows_types, signed_value, text_value, unsigned_value, Batch,
    Column,
};
use crate::error::{Error, ErrorKind, Result};
use crate::keys::{encode_keys, encoded, find_key, key_converter, KeyIndex};
use crate::model::{
    all_keyable, distinct, in_columns, lemma_last_index_of, selected, text_le, BatchModel, Cell,
    ColumnKind,
};
use crate::predicate::{datum_set, BinaryOperator, Datum, DatumModel, Predicate, PredicateModel};
use crate::schema::{
    column_count, column_position, position_of_id, position_of_name, PrimitiveType, Schema,
    SchemaField, Type,
};
use crate::text::{join3, signed_decimal, signed_text};

verus! {

/// A resolved key column.
#[derive(Debug, Clone)]
pub struct KeyColumn {
    /// The field id in the table schema.
    pub field_id: i32,
    /// The name of the column in the table schema.
    pub name: String,
    /// The position of the column in a batch that has all columns of the schema.
    pub schema_index: usize,
}

/// The positions of the key columns.
pub open spec fn schema_indices(key_columns: Seq<KeyColumn>) -> Seq<usize> {
    key_columns.map_values(|k: KeyColumn| k.schema_index)
}

/// The positions of the key columns.
pub fn key_column_indices(key_columns: &[KeyColumn]) -> (indices: Vec<usize>)
    ensures
        indices@ == schema_indices(key_columns@),
{
    let mut indices: Vec<usize> = Vec::new();
    let mut i: usize = 0;
    while i < key_columns.len()
        invariant
            i <= key_columns@.len(),
            indices@ == schema_indices(key_columns@).take(i as int),
        decreases key_columns@.len() - i,
    {
        indices.push(key_columns[i].schema_index);
        assert(indices@ =~= schema_indices(key_columns@).take(i + 1));
        i += 1;
    }
    assert(indices@ =~= schema_indices(key_columns@));
    indices
}

/// A failure: its kind and its message.
pub struct FailureModel {
    /// The kind of the error.
    pub kind: ErrorKind,
    /// The message of the error.
    pub message: Seq<char>,
}

/// The first of the names that no field of the schema has.
pub open spec fn unknown_name(fields: Seq<SchemaField>, names: Seq<String>) -> Option<int>
    decreases names.len(),
{
    if names.len() == 0 {
        None
    } else {
        match unknown_name(fields, names.drop_last()) {
            Some(i) => Some(i),
            None => if position_of_name(fields, names.last()@) is None {
                Some(names.len() - 1)
            } else {
                None
            },
        }
    }
}

/// The ids of the key fields: those of the named fields, or the identifier fields where no name is
/// given.
pub open spec fn key_field_ids(schema: Schema, names: Seq<String>) -> Seq<i32> {
    if names.len() == 0 {
        schema.identifier_field_ids@
    } else {
        names.map_values(
            |name: String| schema.fields@[position_of_name(schema.fields@, name@)->0].id,
        )
    }
}

/// Why the field with the given id cannot be a key column.
pub open spec fn key_field_failure(fields: Seq<SchemaField>, id: i32) -> Option<FailureModel> {
    match position_of_id(fields, id) {
        None => Some(
            FailureModel {
                kind: ErrorKind::DataInvalid,
                message: "Identifier field-id "@ + signed_decimal(id as int) + " has no name in schema"@,
            },
        ),
        Some(i) => {
            let name = fields[i].name@;
            match fields[i].field_type {
                Type::Primitive(PrimitiveType::Float) | Type::Primitive(PrimitiveType::Double) => Some(
                    FailureModel {
                        kind: ErrorKind::DataInvalid,
                        message: "Join column '"@ + name
                            + "' has float type which is not valid for equality matching (per Iceberg spec)"@,
                    },
                ),
                Type::Struct | Type::List | Type::KeyValue => Some(
                    FailureModel {
                        kind: ErrorKind::DataInvalid,
                        message: "Join column '"@ + name
                            + "' is a nested type which is not valid for equality matching"@,
                    },
                ),
                Type::Primitive(_) => if column_position(fields, name) is None {
                    Some(
                        FailureModel {
                            kind: ErrorKind::Unexpected,
                            message: "Column '"@ + name + "' not found in Arrow schema"@,
                        },
                    )
                } else {
                    None
                },
            }
        },
    }
}

/// Why one of the fields cannot be a key column: the failure of the first that cannot.
pub open spec fn key_fields_failure(fields: Seq<SchemaField>, ids: Seq<i32>) -> Option<FailureModel>
    decreases ids.len(),
{
    if ids.len() == 0 {
        None
    } else {
        match key_fields_failure(fields, ids.drop_last()) {
            Some(failure) => Some(failure),
            None => key_field_failure(fields, ids.last()),
        }
    }
}

/// Why the key columns cannot be resolved.
pub open spec fn resolution_failure(schema: Schema, names: Seq<String>) -> Option<FailureModel> {
    match unknown_name(schema.fields@, names) {
        Some(i) => Some(
            FailureModel {
                kind: ErrorKind::DataInvalid,
                message: "Join column '"@ + names[i]@ + "' not found in table schema"@,
            },
        ),
        None => if key_field_ids(schema, names).len() == 0 {
            Some(
                FailureModel {
                    kind: ErrorKind::DataInvalid,
                    message:
                        "No join key columns found: either set identifier-field-ids on the table schema or pass explicit join_columns"@,
                },
            )
        } else {
            key_fields_failure(schema.fields@, key_field_ids(schema, names))
        },
    }
}

/// The key column is the field with the given id: its name, and its position among the columns.
pub open spec fn is_key_column(key: KeyColumn, fields: Seq<SchemaField>, id: i32) -> bool {
    &&& key.field_id == id
    &&& position_of_id(fields, id) matches Some(i) && key.name@ == fields[i].name@
    &&& column_position(fields, key.name@) == Some(key.schema_index as nat)
}

proof fn lemma_unknown_name_prefix(fields: Seq<SchemaField>, names: Seq<String>, k: int)
    requires
        0 <= k <= names.len(),
    ensures
        unknown_name(fields, names.take(k)) matches Some(i) ==> unknown_name(fields, names) == Some(i),
    decreases names.len(),
{
    if k < names.len() {
        lemma_unknown_name_prefix(fields, names.drop_last(), k);
        assert(names.drop_last().take(k) =~= names.take(k));
    } else {
        assert(names.take(k) =~= names);
    }
}

proof fn lemma_key_fields_failure_prefix(fields: Seq<SchemaField>, ids: Seq<i32>, k: int)
    requires
        0 <= k <= ids.len(),
    ensures
        key_fields_failure(fields, ids.take(k)) matches Some(f) ==> key_fields_failure(fields, ids)
            == Some(f),
    decreases ids.len(),
{
    if k < ids.len() {
        lemma_key_fields_failure_prefix(fields, ids.drop_last(), k);
        assert(ids.drop_last().take(k) =~= ids.take(k));
    } else {
        assert(ids.take(k) =~= ids);
    }
}

/// The ids of the named fields.
fn explicit_ids(schema: &Schema, names: &[String]) -> (ids: Result<Vec<i32>>)
    requires
        names@.len() > 0,
    ensures
        match ids {
            Ok(v) => unknown_name(schema.fields@, names@) is None && v@ == key_field_ids(*schema, names@),
            Err(e) => resolution_failure(*schema, names@) matches Some(f) && e.says(f.kind, f.message),
        },
{
    let mut ids: Vec<i32> = Vec::new();
    let mut i: usize = 0;
    while i < names.len()
        invariant
            names@.len() > 0,
            i <= names@.len(),
            unknown_name(schema.fields@, names@.take(i as int)) is None,
            ids@ == key_field_ids(*schema, names@).take(i as int),
        decreases names@.len() - i,
    {
        proof {
            assert(names@.take(i + 1).drop_last() =~= names@.take(i as int));
            lemma_unknown_name_prefix(schema.fields@, names@, i + 1);
        }
        match schema.field_id_by_name(&names[i]) {
            Some(id) => {
                ids.push(id);
                assert(ids@ =~= key_field_ids(*schema, names@).take(i + 1));
            },
            None => {
                let message = join3("Join column '", names[i].as_str(), "' not found in table schema");
                return Err(Error::new(ErrorKind::DataInvalid, message));
            },
        }
        i += 1;
    }
    assert(names@.take(i as int) =~= names@);
    assert(ids@ =~= key_field_ids(*schema, names@));
    Ok(ids)
}

/// The key column that the field with the given id makes.
fn key_column(schema: &Schema, id: i32) -> (key: Result<KeyColumn>)
    ensures
        match key {
            Ok(k) => key_field_failure(schema.fields@, id) is None && is_key_column(k, schema.fields@, id),
            Err(e) => key_field_failure(schema.fields@, id) matches Some(f) && e.says(f.kind, f.message),
        },
{
    let position: usize = match schema.field_by_id(id) {
        Some(i) => i,
        None => {
            let number = signed_text(id);
            let message = join3("Identifier field-id ", number.as_str(), " has no name in schema");
            return Err(Error::new(ErrorKind::DataInvalid, message));
        },
    };
    let field = &schema.fields[position];
    match field.field_type {
        Type::Primitive(PrimitiveType::Float) | Type::Primitive(PrimitiveType::Double) => {
            let message = join3(
                "Join column '",
                field.name.as_str(),
                "' has float type which is not valid for equality matching (per Iceberg spec)",
            );
            return Err(Error::new(ErrorKind::DataInvalid, message));
        },
        Type::Struct | Type::List | Type::KeyValue => {
            let message = join3(
                "Join column '",
                field.name.as_str(),
                "' is a nested type which is not valid for equality matching",
            );
            return Err(Error::new(ErrorKind::DataInvalid, message));
        },
        Type::Primitive(_) => {},
    }
    match schema.column_index(&field.name) {
        Some(schema_index) => Ok(KeyColumn { field_id: id, name: field.name.clone(), schema_index }),
        None => {
            let message = join3("Column '", field.name.as_str(), "' not found in Arrow schema");
            Err(Error::new(ErrorKind::Unexpected, message))
        },
    }
}

/// Resolves the join key columns.
///
/// The names of `explicit_columns` are looked up in the schema. Where there is none, the schema's
/// identifier fields are the key. It is an error where there is no key column, where a name is not
/// in the schema, and where a key column has a floating-point or nested type, by which rows cannot
/// be matched.
pub fn resolve_key_columns(schema: &Schema, explicit_columns: &[String]) -> (keys: Result<Vec<KeyColumn>>)
    ensures
        match keys {
            Ok(k) => {
                let ids = key_field_ids(*schema, explicit_columns@);
                &&& resolution_failure(*schema, explicit_columns@) is None
                &&& k@.len() == ids.len()
                &&& forall|i: int|
                    0 <= i < k@.len() ==> is_key_column(#[trigger] k@[i], schema.fields@, ids[i])
            },
            Err(e) => resolution_failure(*schema, explicit_columns@) matches Some(f) && e.says(
                f.kind,
                f.message,
            ),
        },
{
    let field_ids: Vec<i32> = if explicit_columns.len() == 0 {
        schema.identifier_field_ids.clone()
    } else {
        explicit_ids(schema, explicit_columns)?
    };
    let ghost ids = key_field_ids(*schema, explicit_columns@);
    assert(field_ids@ =~= ids);
    if field_ids.len() == 0 {
        return Err(
            Error::new(
                ErrorKind::DataInvalid,
                "No join key columns found: either set identifier-field-ids on the table schema or pass explicit join_columns".to_owned(),
            ),
        );
    }
    let mut keys: Vec<KeyColumn> = Vec::new();
    let mut i: usize = 0;
    while i < field_ids.len()
        invariant
            field_ids@ == ids,
            ids == key_field_ids(*schema, explicit_columns@),
            ids.len() > 0,
            unknown_name(schema.fields@, explicit_columns@) is None,
            i <= ids.len(),
            keys@.len() == i,
            key_fields_failure(schema.fields@, ids.take(i as int)) is None,
            forall|j: int| 0 <= j < i ==> is_key_column(#[trigger] keys@[j], schema.fields@, ids[j]),
        decreases ids.len() - i,
    {
        proof {
            assert(ids.take(i + 1).drop_last() =~= ids.take(i as int));
            lemma_key_fields_failure_prefix(schema.fields@, ids, i + 1);
        }
        keys.push(key_column(schema, field_ids[i])?);
        i += 1;
    }
    assert(ids.take(i as int) =~= ids);
    Ok(keys)
}

/// For each column of the table whether it is not a key column.
pub open spec fn non_key_bits(schema: Schema, key_columns: Seq<KeyColumn>) -> Seq<bool> {
    Seq::new(
        column_count(schema.fields@),
        |c: int|
            !exists|k: int| 0 <= k < key_columns.len() && (#[trigger] key_columns[k]).schema_index == c,
    )
}

/// The positions of the columns that are not key columns, in ascending order.
pub fn non_key_column_indices(schema: &Schema, key_columns: &[KeyColumn]) -> (indices: Result<Vec<usize>>)
    ensures
        indices matches Ok(v) && v@.map_values(|i: usize| i as int) == selected(
            non_key_bits(*schema, key_columns@),
        ),
{
    let count: usize = schema.num_columns();
    let ghost bits = non_key_bits(*schema, key_columns@);
    let mut indices: Vec<usize> = Vec::new();
    let mut c: usize = 0;
    while c < count
        invariant
            count == column_count(schema.fields@),
            bits == non_key_bits(*schema, key_columns@),
            c <= count,
            indices@.map_values(|i: usize| i as int) == selected(bits.take(c as int)),
        decreases count - c,
    {
        assert(bits.take(c + 1).drop_last() =~= bits.take(c as int));
        let ghost before = indices@;
        if !is_key_index(key_columns, c) {
            indices.push(c);
            assert(indices@.map_values(|i: usize| i as int) =~= before.map_values(|i: usize| i as int).push(
                c as int,
            ));
        }
        c += 1;
    }
    assert(bits.take(c as int) =~= bits);
    Ok(indices)
}

fn is_key_index(key_columns: &[KeyColumn], index: usize) -> (found: bool)
    ensures
        found <==> exists|k: int|
            0 <= k < key_columns@.len() && (#[trigger] key_columns@[k]).schema_index == index,
{
    let mut k: usize = 0;
    while k < key_columns.len()
        invariant
            k <= key_columns@.len(),
            forall|j: int| 0 <= j < k ==> (#[trigger] key_columns@[j]).schema_index != index,
        decreases key_columns@.len() - k,
    {
        if key_columns[k].schema_index == index {
            assert(key_columns@[k as int].schema_index == index);
            return true;
        }
        k += 1;
    }
    false
}

/// Checks that no key occurs twice in the source.
pub fn validate_source_keys(source: &Batch, key_column_indices: &[usize]) -> (result: Result<()>)
    requires
        in_columns(key_column_indices@, source@),
        all_keyable(source@.types(key_column_indices@)),
    ensures
        match result {
            Ok(_) => distinct(source@.keys(key_column_indices@)),
            Err(e) => !distinct(source@.keys(key_column_indices@)) && e.says(
                ErrorKind::DataInvalid,
                "Source data contains duplicate key values; upsert requires unique source keys"@,
            ),
        },
{
    let _rows: usize = source.num_rows();
    let converter = key_converter(source, key_column_indices)?;
    let rows = encode_keys(&converter, source, key_column_indices)?;
    let ghost keys = rows_keys(rows);
    let ghost types = rows_types(rows);
    let count: usize = rows_len(&rows);
    let mut index = KeyIndex::new();
    assert(index@ =~= encoded(types, keys.take(0)));
    let mut i: usize = 0;
    while i < count
        invariant
            keys == rows_keys(rows),
            types == rows_types(rows),
            keys == source@.keys(key_column_indices@),
            count == keys.len(),
            i <= count,
            index.wf(),
            index@ == encoded(types, keys.take(i as int)),
            distinct(keys.take(i as int)),
        decreases count - i,
    {
        let ghost seen = keys.take(i as int);
        let found = find_key(&index, &rows, i, Ghost(seen));
        proof {
            lemma_last_index_of(seen, keys[i as int]);
        }
        match found {
            Some(row) => {
                assert(keys[row as int] == seen[row as int]);
                assert(keys[row as int] == keys[i as int]);
                return Err(
                    Error::new(
                        ErrorKind::DataInvalid,
                        "Source data contains duplicate key values; upsert requires unique source keys".to_owned(),
                    ),
                );
            },
            None => {},
        }
        index.push(row_data(&rows, i));
        proof {
            let next = keys.take(i + 1);
            assert(encoded(types, next) =~= encoded(types, seen).push(
                row_bytes(types, keys[i as int]),
            ));
            assert forall|a: int, b: int| 0 <= a < b < next.len() implies next[a] != next[b] by {
                assert(next[a] == seen[a]);
                if b < i {
                    assert(next[b] == seen[b]);
                }
            }
        }
        i += 1;
    }
    assert(keys.take(i as int) =~= keys);
    Ok(())
}

/// The greatest number of distinct values in an IN-list predicate. With more of them a metrics
/// evaluator takes every file for a match, so that the list would prune nothing.
pub const IN_PREDICATE_LIMIT: usize = 1000;

/// Whether predicates are built for columns of the kind.
pub open spec fn prunable(kind: ColumnKind) -> bool {
    kind.is_signed() || kind.is_unsigned() || kind is Utf8
}

/// An integer as a signed 64-bit number with the same bits.
pub open spec fn wrapped(v: int) -> int {
    if v > i64::MAX {
        v - 0x1_0000_0000_0000_0000
    } else {
        v
    }
}

/// The literal that stands for a value of a column of the kind.
pub open spec fn datum_of(kind: ColumnKind, cell: Cell) -> DatumModel {
    match cell {
        Cell::Int(v) => match kind {
            ColumnKind::Int64 | ColumnKind::UInt32 | ColumnKind::UInt64 => DatumModel::of_long(wrapped(v)),
            ColumnKind::Date32 => DatumModel::of_date(v),
            _ => DatumModel::of_int(v),
        },
        Cell::Text(v) => DatumModel::of_string(v),
        Cell::Other(_) => arbitrary(),
    }
}

/// The cell is a value of a column of the kind, for which predicates are built.
pub open spec fn typed_cell(kind: ColumnKind, cell: Cell) -> bool {
    if kind is Utf8 {
        cell is Text
    } else {
        cell matches Cell::Int(v) && kind.holds_int(v)
    }
}

/// The cells are values of a column of the kind, for which predicates are built.
pub open spec fn typed_cells(kind: ColumnKind, cells: Seq<Option<Cell>>) -> bool {
    forall|i: int| 0 <= i < cells.len() ==> (#[trigger] cells[i] matches Some(c) ==> typed_cell(kind, c))
}

/// The key columns for which predicates are built hold values of their kinds.
pub open spec fn typed_keys(source: BatchModel, key_columns: Seq<KeyColumn>) -> bool {
    forall|k: int|
        0 <= k < key_columns.len() ==> {
            let column = source.columns[(#[trigger] key_columns[k]).schema_index as int];
            prunable(column.data_type.kind) ==> typed_cells(column.data_type.kind, column.cells)
        }
}

/// The literals that stand for the values of a column, in order, nulls left out.
pub open spec fn datums(kind: ColumnKind, cells: Seq<Option<Cell>>) -> Seq<DatumModel>
    decreases cells.len(),
{
    if cells.len() == 0 {
        Seq::empty()
    } else {
        match cells.last() {
            Some(cell) => datums(kind, cells.drop_last()).push(datum_of(kind, cell)),
            None => datums(kind, cells.drop_last()),
        }
    }
}

/// `column IN (v1, v2, ...)` over the distinct values of a column. There is none for a kind of
/// column that is not supported, where all values are null, and where there are too many values.
pub open spec fn in_list(name: Seq<char>, kind: ColumnKind, cells: Seq<Option<Cell>>) -> Option<PredicateModel> {
    let literals = datums(kind, cells).to_set();
    if prunable(kind) && 0 < literals.len() <= IN_PREDICATE_LIMIT {
        Some(PredicateModel::In(name, literals))
    } else {
        None
    }
}

/// The order of the values of a column.
pub open spec fn cell_le(a: Cell, b: Cell) -> bool {
    match (a, b) {
        (Cell::Int(x), Cell::Int(y)) => x <= y,
        (Cell::Text(x), Cell::Text(y)) => text_le(x, y),
        _ => false,
    }
}

/// The cell is a value of the column, and no value is less.
pub open spec fn is_least(cells: Seq<Option<Cell>>, cell: Cell) -> bool {
    &&& cells.contains(Some(cell))
    &&& forall|i: int| 0 <= i < cells.len() ==> (#[trigger] cells[i] matches Some(c) ==> cell_le(cell, c))
}

/// The cell is a value of the column, and no value is greater.
pub open spec fn is_greatest(cells: Seq<Option<Cell>>, cell: Cell) -> bool {
    &&& cells.contains(Some(cell))
    &&& forall|i: int| 0 <= i < cells.len() ==> (#[trigger] cells[i] matches Some(c) ==> cell_le(c, cell))
}

/// `column >= min AND column <= max` over the values of a column. There is none for a kind of
/// column that is not supported, and where all values are null.
pub open spec fn bounds(name: Seq<char>, kind: ColumnKind, cells: Seq<Option<Cell>>) -> Option<PredicateModel> {
    if prunable(kind) && !all_null(cells) {
        let least = choose|cell: Cell| is_least(cells, cell);
        let greatest = choose|cell: Cell| is_greatest(cells, cell);
        Some(
            PredicateModel::And(
                Box::new(
                    PredicateModel::Binary(BinaryOperator::GreaterThanOrEq, name, datum_of(kind, least)),
                ),
                Box::new(
                    PredicateModel::Binary(BinaryOperator::LessThanOrEq, name, datum_of(kind, greatest)),
                ),
            ),
        )
    } else {
        None
    }
}

/// The predicate of one key column: the list of its values, or their bounds where there is no
/// list.
pub open spec fn column_predicate(
    name: Seq<char>,
    kind: ColumnKind,
    cells: Seq<Option<Cell>>,
) -> Option<PredicateModel> {
    match in_list(name, kind, cells) {
        Some(p) => Some(p),
        None => bounds(name, kind, cells),
    }
}

/// The conjunction of two predicates, either of which may be absent.
pub open spec fn conjunction(a: Option<PredicateModel>, b: Option<PredicateModel>) -> Option<PredicateModel> {
    match (a, b) {
        (Some(x), Some(y)) => Some(PredicateModel::And(Box::new(x), Box::new(y))),
        (Some(x), None) => Some(x),
        (None, _) => b,
    }
}

/// The conjunction of the predicates of the key columns. There is none where no column has one.
pub open spec fn key_predicate(source: BatchModel, key_columns: Seq<KeyColumn>) -> Option<PredicateModel>
    decreases key_columns.len(),
{
    if key_columns.len() == 0 {
        None
    } else {
        let last = key_columns.last();
        let column = source.columns[last.schema_index as int];
        conjunction(
            key_predicate(source, key_columns.drop_last()),
            column_predicate(last.name@, column.data_type.kind, column.cells),
        )
    }
}

/// The pruning predicate of a source, which an empty source does not have.
pub open spec fn optimal_predicate(source: BatchModel, key_columns: Seq<KeyColumn>) -> Option<PredicateModel> {
    if source.rows == 0 {
        None
    } else {
        key_predicate(source, key_columns)
    }
}

/// Texts that come before each other are equal.
pub proof fn lemma_text_le_antisymmetric(a: Seq<char>, b: Seq<char>)
    requires
        text_le(a, b),
        text_le(b, a),
    ensures
        a == b,
    decreases a.len(),
{
    if a.len() == 0 {
        assert(b.len() == 0);
        assert(a =~= b);
    } else {
        lemma_text_le_antisymmetric(a.drop_first(), b.drop_first());
        assert(a =~= seq![a[0]] + a.drop_first());
        assert(b =~= seq![b[0]] + b.drop_first());
    }
}

/// A column has one least and one greatest value.
proof fn lemma_bounds_unique(cells: Seq<Option<Cell>>, a: Cell, b: Cell)
    ensures
        is_least(cells, a) && is_least(cells, b) ==> a == b,
        is_greatest(cells, a) && is_greatest(cells, b) ==> a == b,
{
    if cells.contains(Some(a)) && cells.contains(Some(b)) {
        let i = choose|i: int| 0 <= i < cells.len() && cells[i] == Some(a);
        let j = choose|j: int| 0 <= j < cells.len() && cells[j] == Some(b);
        if cell_le(a, b) && cell_le(b, a) {
            match (a, b) {
                (Cell::Text(x), Cell::Text(y)) => {
                    lemma_text_le_antisymmetric(x, y);
                },
                _ => {},
            }
        }
        if is_least(cells, a) && is_least(cells, b) {
            assert(cells[i] == Some(a) && cells[j] == Some(b));
        }
        if is_greatest(cells, a) && is_greatest(cells, b) {
            assert(cells[i] == Some(a) && cells[j] == Some(b));
        }
    }
}

fn signed_datum(kind: ColumnKind, value: i64) -> (datum: Datum)
    requires
        kind.is_signed(),
        kind.holds_int(value as int),
    ensures
        datum@ == datum_of(kind, Cell::Int(value as int)),
{
    match kind {
        ColumnKind::Int64 => Datum::of_long(value),
        ColumnKind::Date32 => Datum::of_date(value as i32),
        _ => Datum::of_int(value as i32),
    }
}

fn unsigned_datum(kind: ColumnKind, value: u64) -> (datum: Datum)
    requires
        kind.is_unsigned(),
        kind.holds_int(value as int),
    ensures
        datum@ == datum_of(kind, Cell::Int(value as int)),
{
    match kind {
        ColumnKind::UInt32 => Datum::of_long(value as i64),
        ColumnKind::UInt64 => if value <= 0x7fff_ffff_ffff_ffff {
            Datum::of_long(value as i64)
        } else {
            Datum::of_long((value - 0x8000_0000_0000_0000) as i64 + i64::MIN)
        },
        _ => Datum::of_int(value as i32),
    }
}

/// The literal that stands for the value of a column at a row, or `None` for a null.
fn datum_at(column: &Column, kind: ColumnKind, row: usize) -> (datum: Option<Datum>)
    requires
        kind == column_type(*column).kind,
        prunable(kind),
        row < column_cells(*column).len(),
    ensures
        match (datum, column_cells(*column)[row as int]) {
            (Some(d), Some(cell)) => d@ == datum_of(kind, cell) && typed_cell(kind, cell),
            (None, None) => true,
            _ => false,
        },
{
    if kind.is_signed() {
        match signed_value(column, row) {
            Some(value) => Some(signed_datum(kind, value)),
            None => None,
        }
    } else if kind.is_unsigned() {
        match unsigned_value(column, row) {
            Some(value) => Some(unsigned_datum(kind, value)),
            None => None,
        }
    } else {
        match text_value(column, row) {
            Some(value) => Some(Datum::of_string(value)),
            None => None,
        }
    }
}

fn is_listed(literals: &Vec<Datum>, datum: &Datum) -> (listed: bool)
    ensures
        listed == datum_set(literals@).contains(datum@),
{
    let ghost models = literals@.map_values(|d: Datum| d@);
    let mut i: usize = 0;
    while i < literals.len()
        invariant
            models == literals@.map_values(|d: Datum| d@),
            i <= literals@.len(),
            forall|j: int| 0 <= j < i ==> #[trigger] models[j] != datum@,
        decreases literals@.len() - i,
    {
        if literals[i].same(datum) {
            assert(models[i as int] == datum@);
            return true;
        }
        assert(models[i as int] == literals@[i as int]@);
        i += 1;
    }
    false
}

/// The literals of a longer column include those of a shorter one.
proof fn lemma_datums_prefix(kind: ColumnKind, cells: Seq<Option<Cell>>, k: int)
    requires
        0 <= k <= cells.len(),
    ensures
        datums(kind, cells.take(k)).to_set().subset_of(datums(kind, cells).to_set()),
    decreases cells.len(),
{
    if k < cells.len() {
        lemma_datums_prefix(kind, cells.drop_last(), k);
        assert(cells.drop_last().take(k) =~= cells.take(k));
        let shorter = datums(kind, cells.drop_last());
        let longer = datums(kind, cells);
        assert forall|d: DatumModel| shorter.to_set().contains(d) implies longer.to_set().contains(d) by {
            let i = choose|i: int| 0 <= i < shorter.len() && shorter[i] == d;
            assert(longer[i] == d);
        }
    } else {
        assert(cells.take(k) =~= cells);
    }
}

/// Builds the IN-list predicate of a column.
fn build_in_list_column_predicate(col_name: &String, col: &Column) -> (predicate: Option<Predicate>)
    ensures
        match predicate {
            Some(p) => in_list(col_name@, column_type(*col).kind, column_cells(*col)) == Some(p.model()),
            None => in_list(col_name@, column_type(*col).kind, column_cells(*col)) is None,
        },
        predicate is Some ==> typed_cells(column_type(*col).kind, column_cells(*col)),
{
    let kind = column_kind(col);
    if !kind.is_signed() && !kind.is_unsigned() {
        match kind {
            ColumnKind::Utf8 => {},
            _ => return None,
        }
    }
    let ghost cells = column_cells(*col);
    let len: usize = column_len(col);
    let mut literals: Vec<Datum> = Vec::new();
    assert(datum_set(literals@) =~= datums(kind, cells.take(0)).to_set());
    let mut i: usize = 0;
    while i < len
        invariant
            kind == column_type(*col).kind,
            prunable(kind),
            cells == column_cells(*col),
            len == cells.len(),
            i <= len,
            literals@.len() <= IN_PREDICATE_LIMIT,
            literals@.map_values(|d: Datum| d@).no_duplicates(),
            datum_set(literals@) == datums(kind, cells.take(i as int)).to_set(),
            forall|j: int| 0 <= j < i ==> (#[trigger] cells[j] matches Some(c) ==> typed_cell(kind, c)),
        decreases len - i,
    {
        let ghost before = literals@;
        let ghost models = literals@.map_values(|d: Datum| d@);
        let ghost shorter = datums(kind, cells.take(i as int));
        let ghost longer = datums(kind, cells.take(i + 1));
        assert(cells.take(i + 1).drop_last() =~= cells.take(i as int));
        match datum_at(col, kind, i) {
            None => {},
            Some(datum) => {
                assert(longer == shorter.push(datum@));
                assert(longer.to_set() =~= shorter.to_set().insert(datum@)) by {
                    lemma_push_to_set(shorter, datum@);
                }
                if is_listed(&literals, &datum) {
                    assert(longer.to_set() =~= shorter.to_set());
                } else {
                    let ghost model = datum@;
                    literals.push(datum);
                    let ghost after = literals@.map_values(|d: Datum| d@);
                    proof {
                        assert(after =~= models.push(model));
                        lemma_push_to_set(models, model);
                        assert(datum_set(literals@) =~= longer.to_set());
                        assert(!models.contains(model));
                        assert(after.no_duplicates());
                    }
                    if literals.len() > IN_PREDICATE_LIMIT {
                        proof {
                            lemma_datums_prefix(kind, cells, i + 1);
                            after.unique_seq_to_set();
                            lemma_seq_set_finite(datums(kind, cells));
                            vstd::set_lib::lemma_len_subset(
                                after.to_set(),
                                datums(kind, cells).to_set(),
                            );
                        }
                        return None;
                    }
                }
            },
        }
        i += 1;
    }
    proof {
        assert(cells.take(i as int) =~= cells);
        let models = literals@.map_values(|d: Datum| d@);
        models.unique_seq_to_set();
    }
    if literals.len() == 0 {
        None
    } else {
        Some(Predicate::In { term: col_name.clone(), literals })
    }
}

/// The elements of a longer sequence.
proof fn lemma_push_to_set(s: Seq<DatumModel>, d: DatumModel)
    ensures
        s.push(d).to_set() == s.to_set().insert(d),
{
    assert forall|x: DatumModel| s.push(d).to_set().contains(x) <==> s.to_set().insert(d).contains(x) by {
        if s.push(d).contains(x) {
            let i = choose|i: int| 0 <= i < s.push(d).len() && s.push(d)[i] == x;
            if i < s.len() {
                assert(s[i] == x);
            }
        }
        if s.contains(x) {
            let i = choose|i: int| 0 <= i < s.len() && s[i] == x;
            assert(s.push(d)[i] == x);
        }
        assert(s.push(d)[s.len() as int] == d);
    }
    assert(s.push(d).to_set() =~= s.to_set().insert(d));
}

proof fn lemma_seq_set_finite(s: Seq<DatumModel>)
    ensures
        s.to_set().finite(),
{
    vstd::seq_lib::seq_to_set_is_finite(s);
}

/// Builds the bounds predicate of a column.
fn build_column_predicate(col_name: &String, col: &Column) -> (predicate: Option<Predicate>)
    ensures
        match predicate {
            Some(p) => bounds(col_name@, column_type(*col).kind, column_cells(*col)) == Some(p.model()),
            None => bounds(col_name@, column_type(*col).kind, column_cells(*col)) is None,
        },
        prunable(column_type(*col).kind) ==> typed_cells(column_type(*col).kind, column_cells(*col)),
{
    let kind = column_kind(col);
    let ghost cells = column_cells(*col);
    let ghost least: Cell;
    let ghost greatest: Cell;
    let (low, high) = if kind.is_signed() {
        match (least_signed(col), greatest_signed(col)) {
            (Some(low), Some(high)) => {
                proof {
                    least = Cell::Int(low as int);
                    greatest = Cell::Int(high as int);
                }
                (signed_datum(kind, low), signed_datum(kind, high))
            },
            _ => return None,
        }
    } else if kind.is_unsigned() {
        match (least_unsigned(col), greatest_unsigned(col)) {
            (Some(low), Some(high)) => {
                proof {
                    least = Cell::Int(low as int);
                    greatest = Cell::Int(high as int);
                }
                (unsigned_datum(kind, low), unsigned_datum(kind, high))
            },
            _ => return None,
        }
    } else {
        match kind {
            ColumnKind::Utf8 => {},
            _ => return None,
        }
        match (least_text(col), greatest_text(col)) {
            (Some(low), Some(high)) => {
                proof {
                    least = Cell::Text(low@);
                    greatest = Cell::Text(high@);
                }
                (Datum::of_string(low), Datum::of_string(high))
            },
            _ => return None,
        }
    };
    proof {
        assert(is_least(cells, least));
        assert(is_greatest(cells, greatest));
        lemma_bounds_unique(cells, least, choose|cell: Cell| is_least(cells, cell));
        lemma_bounds_unique(cells, greatest, choose|cell: Cell| is_greatest(cells, cell));
        assert(!all_null(cells)) by {
            let i = choose|i: int| 0 <= i < cells.len() && cells[i] == Some(least);
            assert(cells[i] is Some);
        }
    }
    let at_least = Predicate::Binary {
        op: BinaryOperator::GreaterThanOrEq,
        term: col_name.clone(),
        literal: low,
    };
    let at_most = Predicate::Binary {
        op: BinaryOperator::LessThanOrEq,
        term: col_name.clone(),
        literal: high,
    };
    Some(at_least.and(at_most))
}

/// Builds the predicate that prunes the files of the scan: for each key column the list of its
/// values, or their bounds where the list would be too long. There is none where the source is
/// empty, and where no key column has a kind for which predicates are built.
pub fn build_optimal_predicate(source: &Batch, key_columns: &[KeyColumn]) -> (predicate: Result<
    Option<Predicate>,
>)
    requires
        in_columns(schema_indices(key_columns@), source@),
    ensures
        predicate matches Ok(p) && match p {
            Some(p) => optimal_predicate(source@, key_columns@) == Some(p.model()),
            None => optimal_predicate(source@, key_columns@) is None,
        },
        typed_keys(source@, key_columns@),
{
    if source.num_rows() == 0 {
        proof {
            assert forall|k: int| 0 <= k < key_columns@.len() implies source@.columns[(
            #[trigger] key_columns@[k]).schema_index as int].cells.len() == 0 by {
                assert(schema_indices(key_columns@)[k] == key_columns@[k].schema_index);
            }
        }
        return Ok(None);
    }
    let mut predicate: Option<Predicate> = None;
    let mut k: usize = 0;
    while k < key_columns.len()
        invariant
            in_columns(schema_indices(key_columns@), source@),
            k <= key_columns@.len(),
            match predicate {
                Some(p) => key_predicate(source@, key_columns@.take(k as int)) == Some(p.model()),
                None => key_predicate(source@, key_columns@.take(k as int)) is None,
            },
            typed_keys(source@, key_columns@.take(k as int)),
        decreases key_columns@.len() - k,
    {
        let key = &key_columns[k];
        proof {
            assert(schema_indices(key_columns@)[k as int] == key.schema_index);
            assert(key_columns@.take(k + 1).drop_last() =~= key_columns@.take(k as int));
        }
        let column = batch_column(source, key.schema_index);
        let column_predicate = match build_in_list_column_predicate(&key.name, &column) {
            Some(p) => Some(p),
            None => build_column_predicate(&key.name, &column),
        };
        predicate = match (predicate, column_predicate) {
            (Some(a), Some(b)) => Some(a.and(b)),
            (Some(a), None) => Some(a),
            (None, b) => b,
        };
        k += 1;
    }
    assert(key_columns@.take(k as int) =~= key_columns@);
    Ok(predicate)
}

}
