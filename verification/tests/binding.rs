use std::collections::HashMap;
use std::sync::Arc;

use arrow_array::types::Int8Type;
use arrow_array::{ArrayRef, DictionaryArray, Int64Array, Int8Array, RecordBatch, StringArray};
use arrow_schema::{DataType, Field, Schema as ArrowSchema};
use iceberg_upsert::bindings::{
    data_file_to_py, delta_to_py, enrich_batch_with_field_ids, info_repr, storage_scheme,
    PARQUET_FIELD_ID_META_KEY,
};
use iceberg_upsert::columnar::Batch;
use iceberg_upsert::data_file::{
    DataContentType, DataFile, DataFileFormat, PrimitiveLiteral, Struct,
};
use iceberg_upsert::error::{Error, ErrorKind};
use iceberg_upsert::google_adc::{access_token, GoogleAuthManager, TokenStep};
use iceberg_upsert::predicate::Datum;
use iceberg_upsert::schema::{PrimitiveType, Schema, SchemaField, Type};
use iceberg_upsert::text::{signed_text, unsigned_text};
use iceberg_upsert::upsert::{commit_of, UpsertFileDelta, UpsertResult, UpsertWriteMode};

fn data_file(content: DataContentType, file_format: DataFileFormat) -> DataFile {
    DataFile {
        content,
        file_path: "s3://bucket/a/b.parquet".to_string(),
        file_format,
        partition: Struct {
            fields: vec![
                Some(PrimitiveLiteral::Long(7)),
                None,
                Some(PrimitiveLiteral::Binary(vec![1, 2])),
            ],
        },
        record_count: 12,
        file_size_in_bytes: 345,
        column_sizes: HashMap::from([(1, 10)]),
        value_counts: HashMap::from([(1, 12), (2, 12)]),
        null_value_counts: HashMap::from([(2, 3)]),
        nan_value_counts: HashMap::new(),
        lower_bounds: HashMap::from([(1, Datum::of_long(-4)), (2, Datum::of_string("a".to_string()))]),
        upper_bounds: HashMap::from([(1, Datum::of_long(9)), (3, Datum::of_date(20))]),
        key_metadata: Some(vec![8, 9]),
        split_offsets: vec![4, 100],
        equality_ids: Some(vec![1, 4]),
        sort_order_id: Some(0),
        first_row_id: Some(40),
        partition_spec_id: 5,
        referenced_data_file: None,
        content_offset: None,
        content_size_in_bytes: None,
    }
}

fn table_schema() -> Schema {
    let field = |id: i32, name: &str, top_level: bool| SchemaField {
        id,
        name: name.to_string(),
        field_type: Type::Primitive(PrimitiveType::Long),
        top_level,
    };
    Schema {
        fields: vec![field(11, "id", true), field(12, "name", true), field(13, "name.first", false)],
        identifier_field_ids: vec![11],
    }
}

fn with_id(field: Field, id: &str) -> Field {
    let mut metadata = field.metadata().clone();
    metadata.insert(PARQUET_FIELD_ID_META_KEY.to_string(), id.to_string());
    field.with_metadata(metadata)
}

fn batch_of(fields: Vec<Field>) -> Batch {
    let schema = ArrowSchema::new_with_metadata(
        fields,
        HashMap::from([("origin".to_string(), "test".to_string())]),
    );
    let columns: Vec<ArrayRef> = vec![
        Arc::new(Int64Array::from(vec![1, 2])),
        Arc::new(StringArray::from(vec![Some("a"), None])),
    ];
    Batch(RecordBatch::try_new(Arc::new(schema), columns).unwrap())
}

fn field_ids(batch: &Batch) -> Vec<Option<String>> {
    batch
        .0
        .schema()
        .fields()
        .iter()
        .map(|f| f.metadata().get(PARQUET_FIELD_ID_META_KEY).cloned())
        .collect()
}

#[test]
fn descriptions_hold_what_the_file_holds() {
    let info = data_file_to_py(&data_file(DataContentType::EqualityDeletes, DataFileFormat::Parquet));
    assert_eq!(info.content, 2);
    assert_eq!(info.file_path, "s3://bucket/a/b.parquet");
    assert_eq!(info.file_format, "PARQUET");
    assert_eq!(info.record_count, 12);
    assert_eq!(info.file_size_in_bytes, 345);
    assert_eq!(info.column_sizes, HashMap::from([(1, 10)]));
    assert_eq!(info.value_counts, HashMap::from([(1, 12), (2, 12)]));
    assert_eq!(info.null_value_counts, HashMap::from([(2, 3)]));
    assert!(info.nan_value_counts.is_empty());
    assert_eq!(info.equality_ids, Some(vec![1, 4]));
    assert_eq!(info.sort_order_id, Some(0));
    assert_eq!(info.partition_spec_id, 5);
    assert_eq!(info.partition.len(), 3);
    assert!(matches!(info.partition[0], Some(PrimitiveLiteral::Long(7))));
    assert!(info.partition[1].is_none());
    assert!(matches!(&info.partition[2], Some(PrimitiveLiteral::Binary(b)) if *b == vec![1, 2]));
}

#[test]
fn contents_and_formats_have_numbers_and_names() {
    let data = data_file_to_py(&data_file(DataContentType::Data, DataFileFormat::Avro));
    assert_eq!((data.content, data.file_format.as_str()), (0, "AVRO"));
    let deletes = data_file_to_py(&data_file(DataContentType::PositionDeletes, DataFileFormat::Orc));
    assert_eq!((deletes.content, deletes.file_format.as_str()), (1, "ORC"));
    let puffin = data_file_to_py(&data_file(DataContentType::Data, DataFileFormat::Puffin));
    assert_eq!(puffin.file_format, "PUFFIN");
}

#[test]
fn descriptions_are_shown() {
    let mut info = data_file_to_py(&data_file(DataContentType::Data, DataFileFormat::Parquet));
    assert_eq!(
        info.repr(),
        "DataFileInfo(content=0, file_path=\"s3://bucket/a/b.parquet\", record_count=12)"
    );
    info.file_path = "a \"b\"\\c".to_string();
    assert_eq!(
        info.repr(),
        "DataFileInfo(content=0, file_path=\"a \\\"b\\\"\\\\c\", record_count=12)"
    );
    assert_eq!(
        info_repr(-3, "p", u64::MAX),
        "DataFileInfo(content=-3, file_path=p, record_count=18446744073709551615)"
    );
}

#[test]
fn results_are_shown() {
    let delta = UpsertFileDelta {
        added_data_files: vec![
            data_file(DataContentType::Data, DataFileFormat::Parquet),
            data_file(DataContentType::EqualityDeletes, DataFileFormat::Parquet),
        ],
        deleted_data_files: vec![],
        stats: UpsertResult {
            rows_updated: 3,
            rows_inserted: 40,
            files_affected: 1,
            files_added: 2,
            files_removed: 0,
        },
    };
    let result = delta_to_py(&delta);
    assert_eq!(result.files_added.len(), 2);
    assert_eq!(result.files_added[1].content, 2);
    assert!(result.files_removed.is_empty());
    assert_eq!(
        result.repr(),
        "UpsertFilesResult(rows_updated=3, rows_inserted=40, files_added=2, files_removed=0, \
         files_affected=1)"
    );
}

#[test]
fn schemes_are_what_stands_before_the_colon() {
    assert_eq!(storage_scheme("s3://bucket/warehouse/metadata.json"), "s3");
    assert_eq!(storage_scheme("gs://bucket"), "gs");
    assert_eq!(storage_scheme("/local/path"), "file");
    assert_eq!(storage_scheme("file:///local/path"), "file");
    assert_eq!(storage_scheme("s3://a://b"), "s3");
    assert_eq!(storage_scheme("x://a"), "file");
    assert_eq!(storage_scheme("/a://b"), "file");
    assert_eq!(storage_scheme("://b"), "file");
    assert_eq!(storage_scheme(""), "file");
    assert_eq!(storage_scheme("local"), "local");
    assert_eq!(storage_scheme("é://b"), "é");
}

#[test]
fn missing_field_ids_are_put_in() {
    let batch = batch_of(vec![
        Field::new("id", DataType::Int64, false)
            .with_metadata(HashMap::from([("note".to_string(), "x".to_string())])),
        with_id(Field::new("other", DataType::Utf8, true), "77"),
    ]);
    let enriched = enrich_batch_with_field_ids(batch, &table_schema()).unwrap();
    assert_eq!(field_ids(&enriched), vec![Some("11".to_string()), Some("77".to_string())]);
    let schema = enriched.0.schema();
    assert_eq!(schema.field(0).metadata().get("note").map(String::as_str), Some("x"));
    assert_eq!(schema.field(0).name(), "id");
    assert!(!schema.field(0).is_nullable());
    assert_eq!(schema.metadata().get("origin").map(String::as_str), Some("test"));
    assert_eq!(enriched.0.num_rows(), 2);
    let again = enrich_batch_with_field_ids(enriched, &table_schema()).unwrap();
    assert_eq!(field_ids(&again), vec![Some("11".to_string()), Some("77".to_string())]);
}

#[test]
fn batches_with_ids_stay_as_they_are() {
    let batch = batch_of(vec![
        with_id(Field::new("a", DataType::Int64, false), "1"),
        with_id(Field::new("b", DataType::Utf8, true), "2"),
    ]);
    let before = batch.0.clone();
    let enriched = enrich_batch_with_field_ids(batch, &table_schema()).unwrap();
    assert_eq!(enriched.0, before);
}

#[test]
fn ids_that_were_put_in_stay() {
    let batch = batch_of(vec![
        Field::new("id", DataType::Int64, false),
        Field::new("name", DataType::Utf8, true),
    ]);
    let columns = batch.0.columns().to_vec();
    let once = enrich_batch_with_field_ids(batch, &table_schema()).unwrap();
    let ids = field_ids(&once);
    assert!(ids.iter().all(Option::is_some));
    assert_eq!(once.0.columns(), columns.as_slice());
    let other = Schema { fields: vec![], identifier_field_ids: vec![] };
    let twice = enrich_batch_with_field_ids(once, &other).unwrap();
    assert_eq!(field_ids(&twice), ids);
    assert_eq!(twice.0.columns(), columns.as_slice());
}

#[test]
fn nulls_among_the_values_of_a_dictionary_are_no_obstacle() {
    let values = Arc::new(StringArray::from(vec![Some("a"), None]));
    let words = DictionaryArray::<Int8Type>::new(Int8Array::from(vec![0, 1]), values);
    let words: ArrayRef = Arc::new(words);
    let schema = ArrowSchema::new(vec![Field::new("name", words.data_type().clone(), false)]);
    let batch = Batch(RecordBatch::try_new(Arc::new(schema), vec![words]).unwrap());
    let enriched = enrich_batch_with_field_ids(batch, &table_schema()).unwrap();
    assert_eq!(field_ids(&enriched), vec![Some("12".to_string())]);
}

#[test]
fn columns_without_id_must_be_in_the_table() {
    for name in ["name.first", "ID"] {
        let batch = batch_of(vec![
            Field::new("id", DataType::Int64, false),
            Field::new(name, DataType::Utf8, true),
        ]);
        let error: Error = enrich_batch_with_field_ids(batch, &table_schema()).unwrap_err();
        assert_eq!(error.kind(), ErrorKind::DataInvalid);
        assert_eq!(
            error.message(),
            format!(
                "Column '{name}' not found in the Iceberg table schema. Either add \
                 PARQUET:field_id metadata to the Arrow field or ensure the column name matches \
                 a field in the table schema."
            )
        );
    }
}

#[test]
fn test_google_auth_manager_new() {
    let auth = GoogleAuthManager::new(None, None);
    assert!(auth.credentials_json.is_none());
    assert_eq!(auth.scopes.len(), 1);
}

#[test]
fn given_scopes_replace_the_default() {
    let auth = GoogleAuthManager::new(None, None);
    assert_eq!(auth.scopes, vec!["https://www.googleapis.com/auth/cloud-platform"]);
    let auth = GoogleAuthManager::new(
        Some("{}".to_string()),
        Some(vec!["a".to_string(), "b".to_string()]),
    );
    assert_eq!(auth.credentials_json.as_deref(), Some("{}"));
    assert_eq!(auth.scopes, vec!["a", "b"]);
    assert!(GoogleAuthManager::new(None, Some(vec![])).scopes.is_empty());
}

#[test]
fn tokens_are_reached_in_steps() {
    let given = GoogleAuthManager::new(Some("not valid json at all".to_string()), None);
    assert_eq!(given.first_step(), TokenStep::LoadCredentials);
    assert_eq!(
        given.first_step().next(),
        Some(TokenStep::ConnectWithCredentials)
    );
    assert_eq!(TokenStep::ConnectWithCredentials.next(), Some(TokenStep::RequestToken));
    let default = GoogleAuthManager::new(None, None);
    assert_eq!(default.first_step(), TokenStep::ConnectWithDefaults);
    assert_eq!(default.first_step().next(), Some(TokenStep::RequestToken));
    assert_eq!(TokenStep::RequestToken.next(), None);
}

#[test]
fn failed_steps_are_reported() {
    let cases = [
        (TokenStep::LoadCredentials, "Failed to load Google credentials: why"),
        (
            TokenStep::ConnectWithCredentials,
            "Failed to initialize token source from credentials: why",
        ),
        (
            TokenStep::ConnectWithDefaults,
            "Google ADC not configured. Set GOOGLE_APPLICATION_CREDENTIALS environment variable \
             or configure a service account. Error: why",
        ),
        (TokenStep::RequestToken, "Failed to obtain Google access token: why"),
    ];
    for (step, message) in cases {
        let error = step.failure("why");
        assert_eq!(error.kind(), ErrorKind::DataInvalid);
        assert_eq!(error.message(), message);
    }
}

#[test]
fn bearer_prefixes_are_stripped_once() {
    assert_eq!(access_token("Bearer abc"), "abc");
    assert_eq!(access_token("Bearer Bearer abc"), "Bearer abc");
    assert_eq!(access_token("bearer abc"), "bearer abc");
    assert_eq!(access_token("Bearer"), "Bearer");
    assert_eq!(access_token("Bearer "), "");
    assert_eq!(access_token(""), "");
}

#[test]
fn numbers_in_decimal() {
    assert_eq!(unsigned_text(0), "0");
    assert_eq!(unsigned_text(1234567890), "1234567890");
    assert_eq!(unsigned_text(u64::MAX), u64::MAX.to_string());
    assert_eq!(signed_text(-7), "-7");
    assert_eq!(signed_text(i32::MIN), i32::MIN.to_string());
    assert_eq!(signed_text(i32::MAX), i32::MAX.to_string());
}

#[test]
fn partitions_are_compared_by_value() {
    let partition = |fields: Vec<Option<PrimitiveLiteral>>| Struct { fields };
    let a = partition(vec![Some(PrimitiveLiteral::String("x".to_string())), None]);
    assert!(a.same(&a.copy()));
    assert!(!a.same(&Struct::empty()));
    assert!(!a.same(&partition(vec![None, Some(PrimitiveLiteral::String("x".to_string()))])));
    assert!(!partition(vec![Some(PrimitiveLiteral::Int(1))])
        .same(&partition(vec![Some(PrimitiveLiteral::Long(1))])));
    let each = vec![
        PrimitiveLiteral::Boolean(true),
        PrimitiveLiteral::Int(1),
        PrimitiveLiteral::Long(1),
        PrimitiveLiteral::Float(1),
        PrimitiveLiteral::Double(1),
        PrimitiveLiteral::String("1".to_string()),
        PrimitiveLiteral::Binary(vec![1]),
        PrimitiveLiteral::Int128(1),
        PrimitiveLiteral::UInt128(1),
        PrimitiveLiteral::AboveMax,
        PrimitiveLiteral::BelowMin,
    ];
    for (i, x) in each.iter().enumerate() {
        for (j, y) in each.iter().enumerate() {
            assert_eq!(x.same(&y.copy()), i == j);
        }
    }
}

#[test]
fn a_commit_keeps_what_is_known_of_the_files() {
    let delta = UpsertFileDelta {
        added_data_files: vec![data_file(DataContentType::Data, DataFileFormat::Parquet)],
        deleted_data_files: Vec::new(),
        stats: UpsertResult {
            rows_updated: 1,
            rows_inserted: 2,
            files_affected: 3,
            files_added: 4,
            files_removed: 5,
        },
    };
    let stats = delta.stats;
    let (overwrite, result) = commit_of(delta, UpsertWriteMode::CopyOnWrite, i64::MAX);
    assert_eq!(result, stats);
    assert_eq!(overwrite.sequence_number, None);
    let file = &overwrite.added[0];
    assert!(file.lower_bounds[&1].same(&Datum::of_long(-4)));
    assert!(file.upper_bounds[&3].same(&Datum::of_date(20)));
    assert_eq!(file.key_metadata, Some(vec![8, 9]));
    assert_eq!(file.split_offsets, vec![4, 100]);
    assert_eq!(file.first_row_id, Some(40));
}
