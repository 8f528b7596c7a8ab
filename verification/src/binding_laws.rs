//! What the bindings, the messages and the small operations around an upsert give.
use vstd::prelude::*;

use crate::bindings::{
    all_have_ids, data_file_to_py, delta_to_py, enrich_batch_with_field_ids, has_declared_types,
    info_repr, storage_scheme, unknown_column, PyDataFileInfo, PyUpsertFilesResult,
};
use crate::columnar::Batch;
use crate::data_file::{
    copy_fields, field_value, DataContentType, DataFile, DataFileFormat, PrimitiveLiteral, Struct,
};
use crate::error::{Error, ErrorKind, Result};
use crate::google_adc::{access_token, GoogleAuthManager, TokenStep};
use crate::model::ColumnModel;
use crate::mor_executor::{equality_ids, next_sequence_number, partition_of};
use crate::planner::KeyColumn;
use crate::schema::{column_field, Schema, SchemaField};
use crate::schema_laws::lemma_first_column;
use crate::text::{
    decimal, digit, first_from, lowercase, occurs_at, quoted, signed_decimal, signed_text,
    unsigned_text,
};
use crate::upsert::{commit_of, Overwrite, UpsertConfig, UpsertFileDelta, UpsertResult, UpsertWriteMode};

verus! {

/// The column carries no field id, and no column of the table has its name.
pub open spec fn is_unknown(column: ColumnModel, fields: Seq<SchemaField>) -> bool {
    &&& !column.field.metadata.contains_key("PARQUET:field_id"@)
    &&& forall|i: int|
        0 <= i < fields.len() ==> !((#[trigger] fields[i]).top_level && fields[i].name@ == column.field.name)
}

proof fn lemma_unknown_column(columns: Seq<ColumnModel>, fields: Seq<SchemaField>)
    ensures
        match unknown_column(columns, fields) {
            Some(c) => {
                &&& 0 <= c < columns.len()
                &&& is_unknown(columns[c], fields)
                &&& forall|d: int| 0 <= d < c ==> !is_unknown(#[trigger] columns[d], fields)
            },
            None => forall|d: int| 0 <= d < columns.len() ==> !is_unknown(#[trigger] columns[d], fields),
        },
    decreases columns.len(),
{
    if columns.len() > 0 {
        let rest = columns.drop_last();
        let n = columns.len() - 1;
        lemma_unknown_column(rest, fields);
        assert forall|d: int| 0 <= d < rest.len() implies #[trigger] columns[d] == rest[d] by {}
        lemma_first_column(fields, columns[n].field.name);
        match column_field(fields, columns[n].field.name) {
            Some(i) => {
                assert(fields[i].top_level && fields[i].name@ == columns[n].field.name);
            },
            None => {},
        }
    }
}

/// The id is given to the column: it is that of the first column of the table with its name.
pub open spec fn is_given_id(column: ColumnModel, enriched: ColumnModel, fields: Seq<SchemaField>) -> bool {
    exists|i: int|
        {
            &&& 0 <= i < fields.len()
            &&& (#[trigger] fields[i]).top_level
            &&& fields[i].name@ == column.field.name
            &&& forall|j: int|
                0 <= j < i ==> !((#[trigger] fields[j]).top_level && fields[j].name@ == column.field.name)
            &&& enriched.field.metadata == column.field.metadata.insert(
                "PARQUET:field_id"@,
                signed_decimal(fields[i].id as int),
            )
        }
}

/// An enriched batch is the batch, but for the ids in the metadata of its fields: a column that
/// carries an id keeps its metadata, and any other is given the id of the column of the table that
/// has its name.
pub proof fn columns_are_given_the_ids_of_their_names(batch: Batch, schema: &Schema, enriched: Batch)
    requires
        call_ensures(enrich_batch_with_field_ids, (batch, schema), Ok(enriched)),
    ensures
        enriched@.rows == batch@.rows,
        enriched@.metadata == batch@.metadata,
        enriched@.columns.len() == batch@.columns.len(),
        forall|c: int|
            0 <= c < batch@.columns.len() ==> {
                let before = batch@.columns[c];
                let after = #[trigger] enriched@.columns[c];
                &&& after.cells == before.cells
                &&& after.data_type == before.data_type
                &&& after.field.name == before.field.name
                &&& after.field.data_type == before.field.data_type
                &&& after.field.nullable == before.field.nullable
                &&& if before.field.metadata.contains_key("PARQUET:field_id"@) {
                    after.field.metadata == before.field.metadata
                } else {
                    is_given_id(before, after, schema.fields@)
                }
            },
{
    let fields = schema.fields@;
    lemma_unknown_column(batch@.columns, fields);
    assert forall|c: int| 0 <= c < batch@.columns.len() && !batch@.columns[c].field.metadata.contains_key(
        "PARQUET:field_id"@,
    ) implies is_given_id(batch@.columns[c], #[trigger] enriched@.columns[c], fields) by {
        let column = batch@.columns[c];
        assert(!is_unknown(column, fields));
        lemma_first_column(fields, column.field.name);
        let i = column_field(fields, column.field.name)->0;
        assert(fields[i].top_level);
    }
}

/// A batch is refused exactly where a column has neither an id nor the name of a column of the table,
/// which is then named; or else where a column lacks an id and some column has not the very type that
/// its field declares.
pub proof fn unknown_columns_are_refused(batch: Batch, schema: &Schema, enriched: Result<Batch>)
    requires
        call_ensures(enrich_batch_with_field_ids, (batch, schema), enriched),
    ensures
        enriched is Err <==> {
            ||| exists|c: int|
                0 <= c < batch@.columns.len() && is_unknown(#[trigger] batch@.columns[c], schema.fields@)
            ||| {
                &&& exists|c: int|
                    0 <= c < batch@.columns.len() && !(
                    #[trigger] batch@.columns[c]).field.metadata.contains_key("PARQUET:field_id"@)
                &&& exists|c: int|
                    0 <= c < batch@.columns.len() && (#[trigger] batch@.columns[c]).data_type
                        != batch@.columns[c].field.data_type
            }
        },
        forall|c: int|
            0 <= c < batch@.columns.len() && is_unknown(#[trigger] batch@.columns[c], schema.fields@) && (
            forall|d: int| 0 <= d < c ==> !is_unknown(#[trigger] batch@.columns[d], schema.fields@)) ==> {
                &&& enriched is Err
                &&& enriched->Err_0.spec_kind() == ErrorKind::DataInvalid
                &&& enriched->Err_0.spec_message() == "Column '"@ + batch@.columns[c].field.name
                    + "' not found in the Iceberg table schema. Either add PARQUET:field_id metadata to the Arrow field or ensure the column name matches a field in the table schema."@
            },
        enriched is Err && (forall|c: int|
            0 <= c < batch@.columns.len() ==> !is_unknown(#[trigger] batch@.columns[c], schema.fields@)) ==> {
            &&& enriched->Err_0.spec_kind() == ErrorKind::Unexpected
            &&& exists|detail: Seq<char>|
                enriched->Err_0.spec_message() == #[trigger] (
                "Failed to rebuild RecordBatch with enriched schema: "@ + detail)
        },
{
    let columns = batch@.columns;
    let fields = schema.fields@;
    lemma_unknown_column(columns, fields);
    assert(!all_have_ids(columns) <==> exists|c: int|
        0 <= c < columns.len() && !(#[trigger] columns[c]).field.metadata.contains_key("PARQUET:field_id"@));
    assert(!has_declared_types(batch@) <==> exists|c: int|
        0 <= c < columns.len() && (#[trigger] columns[c]).data_type != columns[c].field.data_type);
    match unknown_column(columns, fields) {
        Some(u) => {
            assert(is_unknown(columns[u], fields));
            assert forall|c: int|
                0 <= c < columns.len() && is_unknown(#[trigger] columns[c], fields) && (forall|d: int|
                    0 <= d < c ==> !is_unknown(#[trigger] columns[d], fields)) implies c == u by {
                if c < u {
                    assert(!is_unknown(columns[c], fields));
                }
                if u < c {
                    assert(!is_unknown(columns[u], fields));
                }
            }
        },
        None => {},
    }
}

/// The description says of the file what the file has: 0 for rows, 1 for position deletes and 2 for
/// equality deletes, the format by its name in upper case, and everything else as it is.
pub open spec fn tells(info: PyDataFileInfo, file: DataFile) -> bool {
    &&& info.content == 0 <==> file.content == DataContentType::Data
    &&& info.content == 1 <==> file.content == DataContentType::PositionDeletes
    &&& info.content == 2 <==> file.content == DataContentType::EqualityDeletes
    &&& file.file_format == DataFileFormat::Avro ==> info.file_format@ == "AVRO"@
    &&& file.file_format == DataFileFormat::Orc ==> info.file_format@ == "ORC"@
    &&& file.file_format == DataFileFormat::Parquet ==> info.file_format@ == "PARQUET"@
    &&& file.file_format == DataFileFormat::Puffin ==> info.file_format@ == "PUFFIN"@
    &&& info.file_path@ == file.file_path@
    &&& info.record_count == file.record_count
    &&& info.file_size_in_bytes == file.file_size_in_bytes
    &&& info.column_sizes@ == file.column_sizes@
    &&& info.value_counts@ == file.value_counts@
    &&& info.null_value_counts@ == file.null_value_counts@
    &&& info.nan_value_counts@ == file.nan_value_counts@
    &&& info.equality_ids is Some <==> file.equality_ids is Some
    &&& info.equality_ids is Some ==> info.equality_ids->0@ == file.equality_ids->0@
    &&& info.sort_order_id == file.sort_order_id
    &&& info.partition_spec_id == file.partition_spec_id
    &&& info.partition@.len() == file.partition.fields@.len()
    &&& forall|i: int|
        0 <= i < info.partition@.len() ==> match (#[trigger] info.partition@[i], file.partition.fields@[i]) {
            (Some(a), Some(b)) => are_same(a, b),
            (None, None) => true,
            _ => false,
        }
}

proof fn lemma_tells(info: PyDataFileInfo, file: DataFile)
    requires
        info.describes(file),
    ensures
        tells(info, file),
{
    let a = info.partition@.map_values(|f: Option<PrimitiveLiteral>| field_value(f));
    assert(a.len() == info.partition@.len());
    assert(file.partition@.len() == file.partition.fields@.len());
    assert forall|i: int| 0 <= i < info.partition@.len() implies match (
        #[trigger] info.partition@[i],
        file.partition.fields@[i],
    ) {
        (Some(a), Some(b)) => are_same(a, b),
        (None, None) => true,
        _ => false,
    } by {
        assert(a[i] == file.partition@[i]);
        if info.partition@[i] is Some && file.partition.fields@[i] is Some {
            lemma_literals(info.partition@[i]->0, file.partition.fields@[i]->0);
        }
    }
}

/// A file is described as it is.
pub proof fn descriptions_say_what_files_have(file: &DataFile, info: PyDataFileInfo)
    requires
        call_ensures(data_file_to_py, (file,), info),
    ensures
        tells(info, *file),
{
    lemma_tells(info, *file);
}

/// The two are values of one kind, and the same.
pub open spec fn are_same(a: PrimitiveLiteral, b: PrimitiveLiteral) -> bool {
    match (a, b) {
        (PrimitiveLiteral::Boolean(x), PrimitiveLiteral::Boolean(y)) => x == y,
        (PrimitiveLiteral::Int(x), PrimitiveLiteral::Int(y)) => x == y,
        (PrimitiveLiteral::Long(x), PrimitiveLiteral::Long(y)) => x == y,
        (PrimitiveLiteral::Float(x), PrimitiveLiteral::Float(y)) => x == y,
        (PrimitiveLiteral::Double(x), PrimitiveLiteral::Double(y)) => x == y,
        (PrimitiveLiteral::String(x), PrimitiveLiteral::String(y)) => x@ == y@,
        (PrimitiveLiteral::Binary(x), PrimitiveLiteral::Binary(y)) => x@ == y@,
        (PrimitiveLiteral::Int128(x), PrimitiveLiteral::Int128(y)) => x == y,
        (PrimitiveLiteral::UInt128(x), PrimitiveLiteral::UInt128(y)) => x == y,
        (PrimitiveLiteral::AboveMax, PrimitiveLiteral::AboveMax) => true,
        (PrimitiveLiteral::BelowMin, PrimitiveLiteral::BelowMin) => true,
        _ => false,
    }
}

/// Values are told apart by kind and value.
pub proof fn lemma_literals(a: PrimitiveLiteral, b: PrimitiveLiteral)
    ensures
        a@ == b@ <==> are_same(a, b),
{
}

/// Values are the same where they are of one kind and equal, and a copy is the same.
pub proof fn literals_are_compared_by_kind_and_value(
    a: &PrimitiveLiteral,
    b: &PrimitiveLiteral,
    same: bool,
    copy: PrimitiveLiteral,
)
    requires
        call_ensures(PrimitiveLiteral::same, (a, b), same),
        call_ensures(PrimitiveLiteral::copy, (a,), copy),
    ensures
        same <==> are_same(*a, *b),
        are_same(*a, copy),
{
    lemma_literals(*a, *b);
    lemma_literals(*a, copy);
}

/// Partitions are the same where they have as many fields and each is the same or null in both. A copy
/// is the same, and the empty partition has no field.
pub proof fn partitions_are_compared_field_by_field(
    a: &Struct,
    b: &Struct,
    same: bool,
    copy: Struct,
    empty: Struct,
)
    requires
        call_ensures(Struct::same, (a, b), same),
        call_ensures(Struct::copy, (a,), copy),
        call_ensures(Struct::empty, (), empty),
    ensures
        same <==> have_same_fields(*a, *b),
        have_same_fields(*a, copy),
        empty.fields@.len() == 0,
{
    lemma_same_fields(*a, *b);
    lemma_same_fields(*a, copy);
    assert(empty.fields@.len() == empty@.len());
}

/// Copied partition values are the same, field by field.
pub proof fn partition_values_are_copied_as_they_are(
    fields: &Vec<Option<PrimitiveLiteral>>,
    copy: Vec<Option<PrimitiveLiteral>>,
)
    requires
        call_ensures(copy_fields, (fields,), copy),
    ensures
        have_same_fields(Struct { fields: *fields }, Struct { fields: copy }),
{
    lemma_same_fields(Struct { fields: *fields }, Struct { fields: copy });
}

/// The partitions have the same values.
pub open spec fn have_same_fields(a: Struct, b: Struct) -> bool {
    &&& a.fields@.len() == b.fields@.len()
    &&& forall|i: int|
        0 <= i < a.fields@.len() ==> match (#[trigger] a.fields@[i], b.fields@[i]) {
            (Some(x), Some(y)) => are_same(x, y),
            (None, None) => true,
            _ => false,
        }
}

proof fn lemma_same_fields(a: Struct, b: Struct)
    ensures
        a@ == b@ <==> have_same_fields(a, b),
{
    assert(a@.len() == a.fields@.len());
    assert(b@.len() == b.fields@.len());
    assert forall|i: int| 0 <= i < a.fields@.len() && a.fields@.len() == b.fields@.len() implies (
    #[trigger] a@[i] == b@[i] <==> match (a.fields@[i], b.fields@[i]) {
        (Some(x), Some(y)) => are_same(x, y),
        (None, None) => true,
        _ => false,
    }) by {
        if a.fields@[i] is Some && b.fields@[i] is Some {
            lemma_literals(a.fields@[i]->0, b.fields@[i]->0);
        }
    }
    if have_same_fields(a, b) {
        assert(a@ =~= b@) by {
            assert forall|i: int| 0 <= i < a@.len() implies a@[i] == b@[i] by {
                let _ = a.fields@[i];
                assert(match (a.fields@[i], b.fields@[i]) {
                    (Some(x), Some(y)) => are_same(x, y),
                    (None, None) => true,
                    _ => false,
                });
            }
        }
    }
    if a@ == b@ {
        assert forall|i: int| 0 <= i < a.fields@.len() implies match (#[trigger] a.fields@[i], b.fields@[i]) {
            (Some(x), Some(y)) => are_same(x, y),
            (None, None) => true,
            _ => false,
        } by {
            assert(a@[i] == b@[i]);
        }
    }
}

/// A result describes each file of the delta, added and removed, in order, and has its counts.
pub proof fn results_describe_every_file(delta: &UpsertFileDelta, result: PyUpsertFilesResult)
    requires
        call_ensures(delta_to_py, (delta,), result),
    ensures
        result.files_added@.len() == delta.added_data_files@.len(),
        forall|i: int|
            0 <= i < result.files_added@.len() ==> tells(
                #[trigger] result.files_added@[i],
                delta.added_data_files@[i],
            ),
        result.files_removed@.len() == delta.deleted_data_files@.len(),
        forall|i: int|
            0 <= i < result.files_removed@.len() ==> tells(
                #[trigger] result.files_removed@[i],
                delta.deleted_data_files@[i],
            ),
        result.rows_updated == delta.stats.rows_updated,
        result.rows_inserted == delta.stats.rows_inserted,
        result.files_affected == delta.stats.files_affected,
{
    assert forall|i: int| 0 <= i < result.files_added@.len() implies tells(
        #[trigger] result.files_added@[i],
        delta.added_data_files@[i],
    ) by {
        lemma_tells(result.files_added@[i], delta.added_data_files@[i]);
    }
    assert forall|i: int| 0 <= i < result.files_removed@.len() implies tells(
        #[trigger] result.files_removed@[i],
        delta.deleted_data_files@[i],
    ) by {
        lemma_tells(result.files_removed@[i], delta.deleted_data_files@[i]);
    }
}

/// A description shows the content number, the path as it is quoted, and the number of records.
pub proof fn descriptions_show_content_path_and_records(
    info: &PyDataFileInfo,
    shown: String,
    content: i32,
    path: &str,
    records: u64,
    repr: String,
    number: String,
    count: String,
)
    requires
        call_ensures(PyDataFileInfo::repr, (info,), shown),
        call_ensures(info_repr, (content, path, records), repr),
        call_ensures(signed_text, (content,), number),
        call_ensures(unsigned_text, (records,), count),
    ensures
        repr@ == "DataFileInfo(content="@ + number@ + ", file_path="@ + path@ + ", record_count="@ + count@
            + ")"@,
        info.content == content && quoted(info.file_path@) == path@ && info.record_count == records ==> shown@
            == repr@,
{
}

/// A result shows its counts of rows and files.
pub proof fn results_show_their_counts(
    result: &PyUpsertFilesResult,
    shown: String,
    updated: String,
    inserted: String,
    added: String,
    removed: String,
    affected: String,
)
    requires
        call_ensures(PyUpsertFilesResult::repr, (result,), shown),
        call_ensures(unsigned_text, (result.rows_updated,), updated),
        call_ensures(unsigned_text, (result.rows_inserted,), inserted),
        result.files_added@.len() <= u64::MAX,
        call_ensures(unsigned_text, (result.files_added@.len() as u64,), added),
        result.files_removed@.len() <= u64::MAX,
        call_ensures(unsigned_text, (result.files_removed@.len() as u64,), removed),
        call_ensures(unsigned_text, (result.files_affected,), affected),
    ensures
        shown@ == "UpsertFilesResult(rows_updated="@ + updated@ + ", rows_inserted="@ + inserted@
            + ", files_added="@ + added@ + ", files_removed="@ + removed@ + ", files_affected="@ + affected@
            + ")"@,
{
}

/// The number that digits stand for.
pub open spec fn value_of(digits: Seq<char>) -> int {
    digits.fold_left(0int, |value: int, c: char| 10 * value + (c as u32 - '0' as u32))
}

/// The text is a number in digits, without leading zeros.
pub open spec fn is_number(text: Seq<char>) -> bool {
    &&& text.len() > 0
    &&& forall|i: int| 0 <= i < text.len() ==> '0' <= #[trigger] text[i] <= '9'
    &&& text.len() > 1 ==> text[0] != '0'
}

proof fn lemma_decimal(n: nat)
    ensures
        is_number(decimal(n)),
        value_of(decimal(n)) == n,
        n > 0 ==> decimal(n)[0] != '0',
    decreases n,
{
    let step = |value: int, c: char| 10 * value + (c as u32 - '0' as u32);
    if n < 10 {
        let text = seq![digit(n)];
        assert(decimal(n) == text);
        assert(text.drop_last() =~= Seq::empty());
        reveal_with_fuel(Seq::<_>::fold_left::<int>, 2);
        assert(value_of(text) == step(0, digit(n)));
    } else {
        lemma_decimal(n / 10);
        let head = decimal(n / 10);
        let text = head.push(digit(n % 10));
        assert(text.drop_last() =~= head);
        assert(value_of(text) == step(value_of(head), digit(n % 10)));
        assert(text[0] == head[0]);
        assert forall|i: int| 0 <= i < text.len() implies '0' <= #[trigger] text[i] <= '9' by {
            if i < head.len() {
                assert(text[i] == head[i]);
            }
        }
    }
}

/// The text of a number has its value in digits, without leading zeros, and a minus sign before them
/// exactly where the number is negative.
pub proof fn texts_of_numbers_have_their_value(n: u64, text: String, i: i32, signed: String)
    requires
        call_ensures(unsigned_text, (n,), text),
        call_ensures(signed_text, (i,), signed),
    ensures
        is_number(text@),
        value_of(text@) == n,
        i >= 0 ==> is_number(signed@) && value_of(signed@) == i,
        i < 0 ==> signed@.len() > 0 && signed@[0] == '-' && is_number(signed@.skip(1)) && value_of(
            signed@.skip(1),
        ) == -i,
{
    lemma_decimal(n as nat);
    if i >= 0 {
        lemma_decimal(i as nat);
    } else {
        reveal_strlit("-");
        lemma_decimal((-i) as nat);
        assert(signed@.skip(1) =~= decimal((-i) as nat));
    }
}

proof fn lemma_first_from(text: Seq<char>, pattern: Seq<char>, i: int)
    requires
        0 <= i <= text.len() + 1,
    ensures
        match first_from(text, pattern, i) {
            Some(p) => {
                &&& i <= p <= text.len() - pattern.len()
                &&& occurs_at(text, pattern, p)
                &&& forall|j: int| i <= j < p ==> !#[trigger] occurs_at(text, pattern, j)
            },
            None => forall|j: int| i <= j ==> !#[trigger] occurs_at(text, pattern, j),
        },
    decreases text.len() + 1 - i,
{
    if i <= text.len() - pattern.len() && !occurs_at(text, pattern, i) {
        lemma_first_from(text, pattern, i + 1);
    }
}

/// The scheme of a location is what stands before its first `://`, or the whole location where there is
/// none, if that is longer than one byte and holds no slash; and `file` if not.
pub proof fn schemes_stand_before_the_separator(location: &str, scheme: String, p: int)
    requires
        call_ensures(storage_scheme, (location,), scheme),
    ensures
        0 <= p <= location@.len() - 3 && location@.subrange(p, p + 3) == "://"@ && (forall|j: int|
            0 <= j < p ==> #[trigger] location@.subrange(j, j + 3) != "://"@) ==> scheme@ == if (
        vstd::utf8::encode_utf8(location@.take(p)).len() > 1 && !location@.take(p).contains('/')) {
            location@.take(p)
        } else {
            "file"@
        },
        (forall|j: int| 0 <= j <= location@.len() - 3 ==> #[trigger] location@.subrange(j, j + 3) != "://"@)
            ==> scheme@ == if vstd::utf8::encode_utf8(location@).len() > 1 && !location@.contains('/') {
            location@
        } else {
            "file"@
        },
{
    reveal_strlit("://");
    let separator = "://"@;
    assert(separator.len() == 3);
    lemma_first_from(location@, separator, 0);
    assert forall|j: int| 0 <= j <= location@.len() - 3 implies (occurs_at(location@, separator, j)
        <==> #[trigger] location@.subrange(j, j + 3) == separator) by {}
    if 0 <= p <= location@.len() - 3 && location@.subrange(p, p + 3) == separator && (forall|j: int|
        0 <= j < p ==> #[trigger] location@.subrange(j, j + 3) != separator) {
        assert(occurs_at(location@, separator, p));
        let found = first_from(location@, separator, 0)->0;
        assert(first_from(location@, separator, 0) is Some);
        if found < p {
            assert(location@.subrange(found, found + 3) != separator);
        }
        if p < found {
            assert(!occurs_at(location@, separator, p));
        }
    }
    if forall|j: int| 0 <= j <= location@.len() - 3 ==> #[trigger] location@.subrange(j, j + 3) != separator {
        assert(first_from(location@, separator, 0) is None) by {
            if first_from(location@, separator, 0) is Some {
                let found = first_from(location@, separator, 0)->0;
                assert(location@.subrange(found, found + 3) != separator);
            }
        }
    }
}

/// A write mode is parsed from its name in any case, long or short, and from nothing else; and what
/// is refused is named.
pub proof fn write_modes_have_two_names_each(name: &str, mode: std::result::Result<UpsertWriteMode, Error>)
    requires
        call_ensures(<UpsertWriteMode as TryFrom<&str>>::try_from, (name,), mode),
    ensures
        mode == Ok::<UpsertWriteMode, Error>(UpsertWriteMode::CopyOnWrite) <==> lowercase(name@)
            == "copy-on-write"@ || lowercase(name@) == "cow"@,
        mode == Ok::<UpsertWriteMode, Error>(UpsertWriteMode::MergeOnRead) <==> lowercase(name@)
            == "merge-on-read"@ || lowercase(name@) == "mor"@,
        mode matches Err(e) ==> e.spec_kind() == ErrorKind::DataInvalid && e.spec_message()
            == "Unknown upsert write mode: '"@ + name@
            + "'. Expected 'copy-on-write' or 'merge-on-read'."@,
{
    reveal_strlit("copy-on-write");
    reveal_strlit("cow");
    reveal_strlit("merge-on-read");
    reveal_strlit("mor");
    assert("copy-on-write"@[0] == 'c');
    assert("cow"@[0] == 'c');
    assert("merge-on-read"@[0] == 'm');
    assert("mor"@[0] == 'm');
}

/// A lower-case name is that of a write mode where it is one of the mode's two names, and of none
/// else.
pub proof fn lower_case_names_are_those_of_modes(name: &String, mode: Option<UpsertWriteMode>)
    requires
        call_ensures(UpsertWriteMode::from_lowercase, (name,), mode),
    ensures
        mode == Some(UpsertWriteMode::CopyOnWrite) <==> name@ == "copy-on-write"@ || name@ == "cow"@,
        mode == Some(UpsertWriteMode::MergeOnRead) <==> name@ == "merge-on-read"@ || name@ == "mor"@,
{
    reveal_strlit("copy-on-write");
    reveal_strlit("cow");
    reveal_strlit("merge-on-read");
    reveal_strlit("mor");
    assert("copy-on-write"@[0] == 'c');
    assert("cow"@[0] == 'c');
    assert("merge-on-read"@[0] == 'm');
    assert("mor"@[0] == 'm');
}

/// What is written without configuration: copy-on-write, unchanged rows skipped, the identifier fields
/// as the key, and the pruning predicate built from the keys.
pub proof fn defaults_are_copy_on_write_by_identifier(config: UpsertConfig, mode: UpsertWriteMode)
    requires
        call_ensures(<UpsertConfig as Default>::default, (), config),
        call_ensures(<UpsertWriteMode as Default>::default, (), mode),
    ensures
        mode == UpsertWriteMode::CopyOnWrite,
        config.write_mode == mode,
        config.skip_unchanged,
        config.join_columns@.len() == 0,
        config.pruning_predicate is None,
{
}

/// A commit adds and deletes the files of the delta, all of them and in order, and reports its counts.
/// New files of merge-on-read get the number after the table's last one, and those of copy-on-write
/// the number of the commit.
pub proof fn commits_are_what_the_delta_holds(
    delta: UpsertFileDelta,
    mode: UpsertWriteMode,
    last: i64,
    commit: (Overwrite, UpsertResult),
    next: i64,
)
    requires
        call_ensures(commit_of, (delta, mode, last), commit),
        call_ensures(next_sequence_number, (last,), next),
    ensures
        commit.0.added@ == delta.added_data_files@,
        commit.0.deleted@ == delta.deleted_data_files@,
        commit.1.rows_updated == delta.stats.rows_updated,
        commit.1.rows_inserted == delta.stats.rows_inserted,
        commit.1.files_affected == delta.stats.files_affected,
        commit.1.files_added == delta.stats.files_added,
        commit.1.files_removed == delta.stats.files_removed,
        next == last + 1,
        mode == UpsertWriteMode::CopyOnWrite ==> commit.0.sequence_number is None,
        mode == UpsertWriteMode::MergeOnRead ==> commit.0.sequence_number == Some(next),
{
}

/// Deletes are matched by the ids of all key columns, in order.
pub proof fn deletes_are_matched_by_the_key_ids(keys: &[KeyColumn], ids: Vec<i32>)
    requires
        call_ensures(equality_ids, (keys,), ids),
    ensures
        ids@.len() == keys@.len(),
        forall|i: int| 0 <= i < ids@.len() ==> #[trigger] ids@[i] == keys@[i].field_id,
{
}

/// The partition of a target file is the file's, and empty where the file is not known.
pub proof fn partitions_are_those_of_the_files(file: Option<&DataFile>, partition: Struct)
    requires
        call_ensures(partition_of, (file,), partition),
    ensures
        match file {
            Some(f) => have_same_fields(f.partition, partition),
            None => partition.fields@.len() == 0,
        },
{
    match file {
        Some(f) => {
            lemma_same_fields(f.partition, partition);
        },
        None => {
            assert(partition.fields@.len() == partition@.len());
        },
    }
}

/// Given credentials are loaded, then connected with, then asked for a token; those of the environment
/// are connected with and asked. After the token there is no further step.
pub proof fn tokens_are_obtained_in_steps(
    manager: &GoogleAuthManager,
    first: TokenStep,
    second: Option<TokenStep>,
    third: Option<TokenStep>,
    fourth: Option<TokenStep>,
)
    requires
        call_ensures(GoogleAuthManager::first_step, (manager,), first),
        call_ensures(TokenStep::next, (first,), second),
        second matches Some(s) ==> call_ensures(TokenStep::next, (s,), third),
        third matches Some(s) ==> call_ensures(TokenStep::next, (s,), fourth),
    ensures
        manager.credentials_json is Some ==> {
            &&& first == TokenStep::LoadCredentials
            &&& second == Some(TokenStep::ConnectWithCredentials)
            &&& third == Some(TokenStep::RequestToken)
            &&& fourth is None
        },
        manager.credentials_json is None ==> {
            &&& first == TokenStep::ConnectWithDefaults
            &&& second == Some(TokenStep::RequestToken)
            &&& third is None
        },
{
}

/// A manager has the credentials that it was made with, and the scopes, which are that of the cloud
/// platform where none are given.
pub proof fn managers_have_what_they_were_made_with(
    credentials: Option<String>,
    scopes: Option<Vec<String>>,
    manager: GoogleAuthManager,
)
    requires
        call_ensures(GoogleAuthManager::new, (credentials, scopes), manager),
    ensures
        manager.credentials_json == credentials,
        scopes matches Some(s) ==> manager.scopes@ == s@,
        scopes is None ==> manager.scopes@.len() == 1 && manager.scopes@[0]@
            == "https://www.googleapis.com/auth/cloud-platform"@,
{
}

/// A failed step is reported in its own words, with its cause.
pub proof fn failed_steps_are_reported_with_their_cause(step: TokenStep, cause: &str, error: Error)
    requires
        call_ensures(TokenStep::failure, (step, cause), error),
    ensures
        error.spec_kind() == ErrorKind::DataInvalid,
        step is LoadCredentials ==> error.spec_message() == "Failed to load Google credentials: "@ + cause@,
        step is ConnectWithCredentials ==> error.spec_message()
            == "Failed to initialize token source from credentials: "@ + cause@,
        step is ConnectWithDefaults ==> error.spec_message()
            == "Google ADC not configured. Set GOOGLE_APPLICATION_CREDENTIALS environment variable or configure a service account. Error: "@
            + cause@,
        step is RequestToken ==> error.spec_message() == "Failed to obtain Google access token: "@ + cause@,
{
}

/// The access token is what follows `Bearer `, or all of the value where it does not start so.
pub proof fn tokens_lose_their_prefix(token: &str, access: String)
    requires
        call_ensures(access_token, (token,), access),
    ensures
        "Bearer "@.is_prefix_of(token@) ==> token@ == "Bearer "@ + access@,
        !"Bearer "@.is_prefix_of(token@) ==> access@ == token@,
{
    let prefix = "Bearer "@;
    if occurs_at(token@, prefix, 0) {
        assert(prefix + access@ =~= token@);
    }
    if prefix.is_prefix_of(token@) {
        assert(token@.subrange(0, prefix.len() as int) =~= prefix);
    }
}

/// An error has the kind and the message that it was made with, and shows both in one line.
pub proof fn errors_keep_kind_and_message(
    kind: ErrorKind,
    message: String,
    error: Error,
    same_kind: ErrorKind,
    same_message: &str,
    shown: String,
)
    requires
        call_ensures(Error::new, (kind, message), error),
        call_ensures(Error::kind, (&error,), same_kind),
        call_ensures(Error::message, (&error,), same_message),
        call_ensures(Error::to_string, (&error,), shown),
    ensures
        error.spec_kind() == kind,
        error.spec_message() == message@,
        same_kind == kind,
        same_message@ == message@,
        kind == ErrorKind::DataInvalid ==> shown@ == "DataInvalid"@ + " => "@ + message@,
        kind == ErrorKind::Unexpected ==> shown@ == "Unexpected"@ + " => "@ + message@,
{
}

}
