//! What the Python bindings hand out and take in: file descriptions, results, and source batches.
use arrow_schema::Field;
use std::collections::HashMap;
use vstd::prelude::*;
use vstd::string::StringExecFns;

use crate::columnar::{
    batch_column, batch_field, column_cells, column_type, error_text,
    field_metadata, field_model, field_name, makes_batch, new_batch, new_field, null_count,
    schema_metadata, with_metadata_entry, Batch, Column,
};
use crate::data_file::{
    copy_fields, field_value, DataContentType, DataFile, DataFileFormat, PrimitiveLiteral,
};
use crate::error::{Error, ErrorKind, Result};
use crate::model::{BatchModel, ColumnModel, FieldModel};
use crate::schema::{column_field, Schema, SchemaField};
use crate::text::{
    before_first, contains_char, decimal, join2, join3, quoted, quoted_text, signed_decimal,
    signed_text, text_before, unsigned_text,
};
use crate::upsert::UpsertFileDelta;

verus! {

/// The description of a data file that an upsert wrote or replaced.
#[derive(Debug)]
pub struct PyDataFileInfo {
    /// What the file holds: 0 for rows, 1 for position deletes, 2 for equality deletes.
    pub content: i32,
    /// The full URI of the file.
    pub file_path: String,
    /// The name of the format in upper case.
    pub file_format: String,
    /// The number of records.
    pub record_count: u64,
    /// The size of the file.
    pub file_size_in_bytes: u64,
    /// For each field id the size of the column.
    pub column_sizes: HashMap<i32, u64>,
    /// For each field id the number of values, nulls and NaNs included.
    pub value_counts: HashMap<i32, u64>,
    /// For each field id the number of nulls.
    pub null_value_counts: HashMap<i32, u64>,
    /// For each field id the number of NaNs.
    pub nan_value_counts: HashMap<i32, u64>,
    /// The field ids that decide row equality, for a file of equality deletes.
    pub equality_ids: Option<Vec<i32>>,
    /// The sort order of the rows.
    pub sort_order_id: Option<i32>,
    /// The partition spec that the file was written with.
    pub partition_spec_id: i32,
    /// The partition values.
    pub partition: Vec<Option<PrimitiveLiteral>>,
}

/// The outcome of an upsert that the caller is to commit.
#[derive(Debug)]
pub struct PyUpsertFilesResult {
    /// The files that were written.
    pub files_added: Vec<PyDataFileInfo>,
    /// The files that were replaced.
    pub files_removed: Vec<PyDataFileInfo>,
    /// The number of rows that were updated.
    pub rows_updated: u64,
    /// The number of rows that were inserted.
    pub rows_inserted: u64,
    /// The number of files that were rewritten, or of equality-delete files that were created.
    pub files_affected: u64,
}

/// The number of a content type.
pub open spec fn content_number(content: DataContentType) -> int {
    match content {
        DataContentType::Data => 0,
        DataContentType::PositionDeletes => 1,
        DataContentType::EqualityDeletes => 2,
    }
}

/// The name of a format in upper case.
pub open spec fn format_name(format: DataFileFormat) -> Seq<char> {
    match format {
        DataFileFormat::Avro => "AVRO"@,
        DataFileFormat::Orc => "ORC"@,
        DataFileFormat::Parquet => "PARQUET"@,
        DataFileFormat::Puffin => "PUFFIN"@,
    }
}

impl PyDataFileInfo {
    /// The description is that of the file.
    pub open spec fn describes(&self, file: DataFile) -> bool {
        &&& self.content == content_number(file.content)
        &&& self.file_path@ == file.file_path@
        &&& self.file_format@ == format_name(file.file_format)
        &&& self.record_count == file.record_count
        &&& self.file_size_in_bytes == file.file_size_in_bytes
        &&& self.column_sizes@ == file.column_sizes@
        &&& self.value_counts@ == file.value_counts@
        &&& self.null_value_counts@ == file.null_value_counts@
        &&& self.nan_value_counts@ == file.nan_value_counts@
        &&& match (self.equality_ids, file.equality_ids) {
            (Some(a), Some(b)) => a@ == b@,
            (None, None) => true,
            _ => false,
        }
        &&& self.sort_order_id == file.sort_order_id
        &&& self.partition_spec_id == file.partition_spec_id
        &&& self.partition@.map_values(|f: Option<PrimitiveLiteral>| field_value(f)) == file.partition@
    }

    /// The text that shows the description.
    pub fn repr(&self) -> (repr: String)
        ensures
            repr@ == info_text(self.content as int, quoted(self.file_path@), self.record_count as nat),
    {
        info_repr(self.content, quoted_text(self.file_path.as_str()).as_str(), self.record_count)
    }
}

/// The text that shows a file with the given content number, path in quotation marks and record
/// count.
pub open spec fn info_text(content: int, path: Seq<char>, record_count: nat) -> Seq<char> {
    "DataFileInfo(content="@ + signed_decimal(content) + ", file_path="@ + path + ", record_count="@
        + decimal(record_count) + ")"@
}

/// The text that shows a file with the given content number, path in quotation marks and record
/// count.
pub fn info_repr(content: i32, path: &str, record_count: u64) -> (repr: String)
    ensures
        repr@ == info_text(content as int, path@, record_count as nat),
{
    let mut repr = join2("DataFileInfo(content=", signed_text(content).as_str());
    repr.append(", file_path=");
    repr.append(path);
    repr.append(", record_count=");
    repr.append(unsigned_text(record_count).as_str());
    repr.append(")");
    repr
}

impl PyUpsertFilesResult {
    /// The text that shows the result.
    pub fn repr(&self) -> (repr: String)
        ensures
            repr@ == "UpsertFilesResult(rows_updated="@ + decimal(self.rows_updated as nat)
                + ", rows_inserted="@ + decimal(self.rows_inserted as nat) + ", files_added="@ + decimal(
                self.files_added@.len(),
            ) + ", files_removed="@ + decimal(self.files_removed@.len()) + ", files_affected="@ + decimal(
                self.files_affected as nat,
            ) + ")"@,
    {
        let mut repr = join2("UpsertFilesResult(rows_updated=", unsigned_text(self.rows_updated).as_str());
        repr.append(", rows_inserted=");
        repr.append(unsigned_text(self.rows_inserted).as_str());
        repr.append(", files_added=");
        repr.append(unsigned_text(self.files_added.len() as u64).as_str());
        repr.append(", files_removed=");
        repr.append(unsigned_text(self.files_removed.len() as u64).as_str());
        repr.append(", files_affected=");
        repr.append(unsigned_text(self.files_affected).as_str());
        repr.append(")");
        repr
    }
}

/// The description of a data file.
pub fn data_file_to_py(df: &DataFile) -> (info: PyDataFileInfo)
    ensures
        info.describes(*df),
{
    let content: i32 = match df.content {
        DataContentType::Data => 0,
        DataContentType::PositionDeletes => 1,
        DataContentType::EqualityDeletes => 2,
    };
    let format = match df.file_format {
        DataFileFormat::Avro => "AVRO",
        DataFileFormat::Orc => "ORC",
        DataFileFormat::Parquet => "PARQUET",
        DataFileFormat::Puffin => "PUFFIN",
    };
    let equality_ids = match &df.equality_ids {
        Some(ids) => Some(ids.clone()),
        None => None,
    };
    PyDataFileInfo {
        content,
        file_path: df.file_path.clone(),
        file_format: format.to_owned(),
        record_count: df.record_count,
        file_size_in_bytes: df.file_size_in_bytes,
        column_sizes: df.column_sizes.clone(),
        value_counts: df.value_counts.clone(),
        null_value_counts: df.null_value_counts.clone(),
        nan_value_counts: df.nan_value_counts.clone(),
        equality_ids,
        sort_order_id: df.sort_order_id,
        partition_spec_id: df.partition_spec_id,
        partition: copy_fields(&df.partition.fields),
    }
}

/// The descriptions are those of the files, in order.
pub open spec fn describe_all(infos: Seq<PyDataFileInfo>, files: Seq<DataFile>) -> bool {
    &&& infos.len() == files.len()
    &&& forall|i: int| 0 <= i < files.len() ==> (#[trigger] infos[i]).describes(files[i])
}

fn data_files_to_py(files: &Vec<DataFile>) -> (infos: Vec<PyDataFileInfo>)
    ensures
        describe_all(infos@, files@),
{
    let mut infos: Vec<PyDataFileInfo> = Vec::new();
    let mut i: usize = 0;
    while i < files.len()
        invariant
            i <= files@.len(),
            infos@.len() == i,
            forall|j: int| 0 <= j < i ==> (#[trigger] infos@[j]).describes(files@[j]),
        decreases files@.len() - i,
    {
        infos.push(data_file_to_py(&files[i]));
        i += 1;
    }
    infos
}

/// The result that the bindings hand out for a file delta.
pub fn delta_to_py(delta: &UpsertFileDelta) -> (result: PyUpsertFilesResult)
    ensures
        describe_all(result.files_added@, delta.added_data_files@),
        describe_all(result.files_removed@, delta.deleted_data_files@),
        result.rows_updated == delta.stats.rows_updated,
        result.rows_inserted == delta.stats.rows_inserted,
        result.files_affected == delta.stats.files_affected,
{
    PyUpsertFilesResult {
        files_added: data_files_to_py(&delta.added_data_files),
        files_removed: data_files_to_py(&delta.deleted_data_files),
        rows_updated: delta.stats.rows_updated,
        rows_inserted: delta.stats.rows_inserted,
        files_affected: delta.stats.files_affected,
    }
}

/// The storage scheme of a location: what stands before `://`, or `file` where that is no scheme.
pub open spec fn scheme_of(location: Seq<char>) -> Seq<char> {
    let head = before_first(location, "://"@);
    if vstd::utf8::encode_utf8(head).len() > 1 && !head.contains('/') {
        head
    } else {
        "file"@
    }
}

/// The storage scheme of a location, such as `s3` for `s3://bucket/path` and `file` for `/path`.
pub fn storage_scheme(location: &str) -> (scheme: String)
    ensures
        scheme@ == scheme_of(location@),
{
    let head = text_before(location, "://");
    if head.as_bytes().len() > 1 && !contains_char(head, '/') {
        head.to_owned()
    } else {
        "file".to_owned()
    }
}

/// The key under which a field's metadata holds its field id.
pub const PARQUET_FIELD_ID_META_KEY: &'static str = "PARQUET:field_id";

/// The field carries a field id.
pub open spec fn has_field_id(field: FieldModel) -> bool {
    field.metadata.contains_key("PARQUET:field_id"@)
}

/// The field with the id of the column of its name, or as it is where it carries an id.
pub open spec fn enriched_field(field: FieldModel, fields: Seq<SchemaField>) -> FieldModel {
    if has_field_id(field) {
        field
    } else {
        FieldModel {
            metadata: field.metadata.insert(
                "PARQUET:field_id"@,
                signed_decimal(fields[column_field(fields, field.name)->0].id as int),
            ),
            ..field
        }
    }
}

/// The batch with a field id in each field.
pub open spec fn enriched_batch(batch: BatchModel, fields: Seq<SchemaField>) -> BatchModel {
    BatchModel {
        columns: batch.columns.map_values(
            |c: ColumnModel| ColumnModel { field: enriched_field(c.field, fields), ..c },
        ),
        rows: batch.rows,
        metadata: batch.metadata,
    }
}

/// The first column without a field id whose name no column of the table has.
pub open spec fn unknown_column(columns: Seq<ColumnModel>, fields: Seq<SchemaField>) -> Option<int>
    decreases columns.len(),
{
    if columns.len() == 0 {
        None
    } else {
        match unknown_column(columns.drop_last(), fields) {
            Some(i) => Some(i),
            None => {
                let field = columns.last().field;
                if !has_field_id(field) && column_field(fields, field.name) is None {
                    Some(columns.len() - 1)
                } else {
                    None
                }
            },
        }
    }
}

/// Every column carries a field id.
pub open spec fn all_have_ids(columns: Seq<ColumnModel>) -> bool {
    forall|c: int| 0 <= c < columns.len() ==> has_field_id((#[trigger] columns[c]).field)
}

/// Every column has the type that its field declares.
pub open spec fn has_declared_types(batch: BatchModel) -> bool {
    forall|c: int|
        0 <= c < batch.columns.len() ==> (#[trigger] batch.columns[c]).data_type
            == batch.columns[c].field.data_type
}

proof fn lemma_unknown_column_prefix(columns: Seq<ColumnModel>, fields: Seq<SchemaField>, k: int)
    requires
        0 <= k <= columns.len(),
    ensures
        unknown_column(columns.take(k), fields) matches Some(i) ==> unknown_column(columns, fields)
            == Some(i),
        all_have_ids(columns) ==> unknown_column(columns, fields) is None,
    decreases columns.len(),
{
    if columns.len() > 0 {
        let rest = columns.drop_last();
        if all_have_ids(columns) {
            assert(all_have_ids(rest)) by {
                assert forall|c: int| 0 <= c < rest.len() implies has_field_id((#[trigger] rest[c]).field) by {
                    assert(rest[c] == columns[c]);
                }
            }
            assert(has_field_id(columns[columns.len() - 1].field));
        }
        if k < columns.len() {
            lemma_unknown_column_prefix(rest, fields, k);
            assert(rest.take(k) =~= columns.take(k));
        } else {
            assert(columns.take(k) =~= columns);
            lemma_unknown_column_prefix(rest, fields, rest.len() as int);
        }
    }
}

/// Whether every field of a batch carries a field id.
fn fields_have_ids(batch: &Batch) -> (all: bool)
    ensures
        all == all_have_ids(batch@.columns),
{
    let count: usize = batch.num_columns();
    let mut c: usize = 0;
    while c < count
        invariant
            count == batch@.columns.len(),
            c <= count,
            forall|i: int| 0 <= i < c ==> has_field_id((#[trigger] batch@.columns[i]).field),
        decreases count - c,
    {
        let field = batch_field(batch, c);
        if field_metadata(&field, PARQUET_FIELD_ID_META_KEY).is_none() {
            assert(!has_field_id(batch@.columns[c as int].field));
            return false;
        }
        c += 1;
    }
    true
}

/// Puts field ids into the metadata of the source's fields, by the names of the table's columns.
///
/// Rows are written by field id, and a batch made by hand often has none. Fields that carry an id
/// keep it, and a batch whose fields all do is left as it is. It is an error where a field has
/// neither an id nor the name of a column, and where a nested column has not the very type that its
/// field declares.
pub fn enrich_batch_with_field_ids(batch: Batch, schema: &Schema) -> (enriched: Result<Batch>)
    ensures
        match enriched {
            Ok(b) => {
                &&& unknown_column(batch@.columns, schema.fields@) is None
                &&& all_have_ids(batch@.columns) || has_declared_types(batch@)
                &&& b@ == enriched_batch(batch@, schema.fields@)
            },
            Err(e) => match unknown_column(batch@.columns, schema.fields@) {
                Some(c) => e.says(
                    ErrorKind::DataInvalid,
                    "Column '"@ + batch@.columns[c].field.name
                        + "' not found in the Iceberg table schema. Either add PARQUET:field_id metadata to the Arrow field or ensure the column name matches a field in the table schema."@,
                ),
                None => {
                    &&& !all_have_ids(batch@.columns) && !has_declared_types(batch@)
                    &&& e.reports("Failed to rebuild RecordBatch with enriched schema: "@)
                },
            },
        },
{
    let ghost columns_before = batch@.columns;
    let ghost known = schema.fields@;
    if fields_have_ids(&batch) {
        proof {
            lemma_unknown_column_prefix(columns_before, known, 0);
            assert forall|c: int| 0 <= c < columns_before.len() implies enriched_batch(batch@, known).columns[c]
                == columns_before[c] by {
                assert(has_field_id(columns_before[c].field));
            }
            assert(enriched_batch(batch@, known).columns =~= columns_before);
        }
        return Ok(batch);
    }
    let _rows: usize = batch.num_rows();
    let count: usize = batch.num_columns();
    let ghost model = enriched_batch(batch@, known);
    let mut fields: Vec<Field> = Vec::new();
    let mut columns: Vec<Column> = Vec::new();
    let mut c: usize = 0;
    while c < count
        invariant
            count == batch@.columns.len(),
            columns_before == batch@.columns,
            known == schema.fields@,
            model == enriched_batch(batch@, known),
            c <= count,
            fields@.len() == c,
            columns@.len() == c,
            unknown_column(columns_before.take(c as int), known) is None,
            forall|i: int| 0 <= i < c ==> field_model(#[trigger] fields@[i]) == model.columns[i].field,
            forall|i: int|
                0 <= i < c ==> {
                    &&& column_cells(#[trigger] columns@[i]) == model.columns[i].cells
                    &&& column_type(columns@[i]) == model.columns[i].data_type
                    &&& model.columns[i].field.nullable || null_count(columns@[i]) == 0
                },
        decreases count - c,
    {
        proof {
            assert(columns_before.take(c + 1).drop_last() =~= columns_before.take(c as int));
            lemma_unknown_column_prefix(columns_before, known, c + 1);
        }
        let field = batch_field(&batch, c);
        let enriched = if field_metadata(&field, PARQUET_FIELD_ID_META_KEY).is_some() {
            field
        } else {
            let name = field_name(&field);
            match schema.column_id_by_name(&name) {
                Some(id) => with_metadata_entry(
                    new_field(&name, &field),
                    &field,
                    PARQUET_FIELD_ID_META_KEY,
                    signed_text(id),
                ),
                None => {
                    let message = join3(
                        "Column '",
                        name.as_str(),
                        "' not found in the Iceberg table schema. Either add PARQUET:field_id metadata to the Arrow field or ensure the column name matches a field in the table schema.",
                    );
                    return Err(Error::new(ErrorKind::DataInvalid, message));
                },
            }
        };
        fields.push(enriched);
        columns.push(batch_column(&batch, c));
        c += 1;
    }
    proof {
        assert(columns_before.take(c as int) =~= columns_before);
        assert(columns@.len() > 0) by {
            if columns@.len() == 0 {
                assert(all_have_ids(columns_before));
            }
        }
        assert(column_cells(columns@[0]) == model.columns[0].cells);
        assert forall|i: int| 0 <= i < columns@.len() implies column_cells(#[trigger] columns@[i]).len()
            == column_cells(columns@[0]).len() by {
            assert(columns_before[i].cells.len() == batch@.rows);
            assert(columns_before[0].cells.len() == batch@.rows);
        }
        if has_declared_types(batch@) {
            assert(makes_batch(fields@, columns@)) by {
                assert forall|i: int| 0 <= i < columns@.len() implies {
                    &&& column_type(#[trigger] columns@[i]) == field_model(fields@[i]).data_type
                    &&& column_cells(columns@[i]).len() == column_cells(columns@[0]).len()
                    &&& field_model(fields@[i]).nullable || null_count(columns@[i]) == 0
                } by {
                    assert(columns_before[i].data_type == columns_before[i].field.data_type);
                }
            }
        }
        if makes_batch(fields@, columns@) {
            assert forall|i: int| 0 <= i < columns_before.len() implies (#[trigger] columns_before[i]).data_type
                == columns_before[i].field.data_type by {
                assert(column_type(columns@[i]) == field_model(fields@[i]).data_type);
            }
        }
    }
    let ghost made_fields = fields@;
    let ghost made = columns@;
    match new_batch(fields, &columns, schema_metadata(&batch)) {
        Ok(rebuilt) => {
            proof {
                assert forall|i: int| 0 <= i < made.len() implies rebuilt@.columns[i] == model.columns[i] by {
                    assert(column_cells(made[i]) == model.columns[i].cells);
                    assert(field_model(made_fields[i]) == model.columns[i].field);
                }
                assert(rebuilt@.columns =~= model.columns);
                assert(columns_before[0].cells.len() == batch@.rows);
            }
            Ok(rebuilt)
        },
        Err(e) => {
            let detail = error_text(&e);
            let message = join2(
                "Failed to rebuild RecordBatch with enriched schema: ",
                detail.as_str(),
            );
            Err(Error::new(ErrorKind::Unexpected, message))
        },
    }
}

/// An enriched batch has its rows and types as before, carries an id in every field, and is left as
/// it is when it is enriched again, whatever the schema.
pub proof fn enrichment_adds_ids_once(
    batch: BatchModel,
    fields: Seq<SchemaField>,
    others: Seq<SchemaField>,
)
    ensures
        enriched_batch(batch, fields).all_rows() == batch.all_rows(),
        forall|c: int|
            0 <= c < batch.columns.len() ==> (#[trigger] enriched_batch(batch, fields).columns[c]).data_type
                == batch.columns[c].data_type,
        all_have_ids(enriched_batch(batch, fields).columns),
        unknown_column(enriched_batch(batch, fields).columns, others) is None,
        enriched_batch(enriched_batch(batch, fields), others) == enriched_batch(batch, fields),
{
    let once = enriched_batch(batch, fields);
    let twice = enriched_batch(once, others);
    assert forall|r: int| 0 <= r < batch.rows implies once.row(r) == #[trigger] batch.row(r) by {
        assert(once.row(r) =~= batch.row(r));
    }
    assert(once.all_rows() =~= batch.all_rows());
    lemma_unknown_column_prefix(once.columns, others, 0);
    assert forall|c: int| 0 <= c < once.columns.len() implies twice.columns[c] == once.columns[c] by {
        assert(has_field_id(once.columns[c].field));
    }
    assert(twice.columns =~= once.columns);
}

}
