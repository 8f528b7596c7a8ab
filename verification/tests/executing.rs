use std::collections::HashMap;
use std::sync::Arc;

use arrow::buffer::OffsetBuffer;
use arrow_array::types::Int8Type;
use arrow_array::{
    Array, ArrayRef, DictionaryArray, Int64Array, Int8Array, ListArray, RecordBatch, StringArray,
    StructArray,
};
use arrow_schema::{DataType, Field, Schema as ArrowSchema};
use iceberg_upsert::columnar::Batch;
use iceberg_upsert::cow_executor::CowExecutor;
use iceberg_upsert::data_file::{
    DataContentType, DataFile, DataFileFormat, PrimitiveLiteral, Struct,
};
use iceberg_upsert::error::ErrorKind;
use iceberg_upsert::mor_executor::{
    equality_ids, next_sequence_number, partition_of, MorExecutor,
};
use iceberg_upsert::planner::KeyColumn;
use iceberg_upsert::predicate::{BinaryOperator, Datum, Predicate, UnaryOperator};
use iceberg_upsert::schema::{PrimitiveType, Schema, SchemaField, Type};
use iceberg_upsert::upsert::{
    commit_of, plan, UpsertConfig, UpsertFileDelta, UpsertPlan, UpsertResult, UpsertWriteMode,
};

const FIELD_ID: &str = "PARQUET:field_id";

fn test_iceberg_schema() -> Schema {
    let field = |id: i32, name: &str, field_type: PrimitiveType| SchemaField {
        id,
        name: name.to_string(),
        field_type: Type::Primitive(field_type),
        top_level: true,
    };
    Schema {
        fields: vec![
            field(1, "id", PrimitiveType::Long),
            field(2, "name", PrimitiveType::String),
            field(3, "value", PrimitiveType::String),
        ],
        identifier_field_ids: vec![1],
    }
}

fn test_arrow_schema() -> Arc<ArrowSchema> {
    let field = |name: &str, data_type: DataType, nullable: bool, id: &str| {
        Field::new(name, data_type, nullable)
            .with_metadata(HashMap::from([(FIELD_ID.to_string(), id.to_string())]))
    };
    Arc::new(ArrowSchema::new(vec![
        field("id", DataType::Int64, false, "1"),
        field("name", DataType::Utf8, false, "2"),
        field("value", DataType::Utf8, true, "3"),
    ]))
}

fn make_batch(ids: Vec<i64>, names: Vec<&str>, values: Vec<Option<&str>>) -> RecordBatch {
    let columns: Vec<ArrayRef> = vec![
        Arc::new(Int64Array::from(ids)),
        Arc::new(StringArray::from(names)),
        Arc::new(StringArray::from(values)),
    ];
    RecordBatch::try_new(test_arrow_schema(), columns).unwrap()
}

fn data_file(path: &str, content: DataContentType, partition: Struct, records: u64) -> DataFile {
    DataFile {
        content,
        file_path: path.to_string(),
        file_format: DataFileFormat::Parquet,
        partition,
        record_count: records,
        file_size_in_bytes: 100,
        column_sizes: HashMap::new(),
        value_counts: HashMap::new(),
        null_value_counts: HashMap::new(),
        nan_value_counts: HashMap::new(),
        lower_bounds: HashMap::new(),
        upper_bounds: HashMap::new(),
        key_metadata: None,
        split_offsets: Vec::new(),
        equality_ids: None,
        sort_order_id: None,
        first_row_id: None,
        partition_spec_id: 0,
        referenced_data_file: None,
        content_offset: None,
        content_size_in_bytes: None,
    }
}

/// A file of a table in memory: its partition, the number of the round that wrote it, its rows,
/// and the ids that later deletes remove from it.
struct StoredFile {
    partition: Option<i32>,
    round: i64,
    batches: Vec<RecordBatch>,
}

/// The deletes of one round: ids to remove from older files of a partition.
struct StoredDeletes {
    partition: Option<i32>,
    round: i64,
    ids: Vec<i64>,
}

/// A table in memory.
struct Table {
    files: Vec<StoredFile>,
    deletes: Vec<StoredDeletes>,
    round: i64,
    /// The number of files that the last upsert read.
    files_read: usize,
}

/// Whether the predicate, which is one on the column `id`, admits a row with the given id.
fn admits(predicate: &Predicate, id: i64) -> bool {
    let long = |datum: &Datum| match (datum.data_type, &datum.literal) {
        (PrimitiveType::Long, PrimitiveLiteral::Long(value)) => *value,
        other => panic!("unexpected literal {other:?}"),
    };
    match predicate {
        Predicate::AlwaysTrue => true,
        Predicate::AlwaysFalse => false,
        Predicate::And(left, right) => admits(left, id) && admits(right, id),
        Predicate::Or(left, right) => admits(left, id) || admits(right, id),
        Predicate::Not(inner) => !admits(inner, id),
        Predicate::Unary { test, term } => {
            assert_eq!(term, "id");
            matches!(test, UnaryOperator::NotNull | UnaryOperator::NotNan)
        }
        Predicate::Binary { op, term, literal } => {
            assert_eq!(term, "id");
            let literal = long(literal);
            match op {
                BinaryOperator::LessThan => id < literal,
                BinaryOperator::LessThanOrEq => id <= literal,
                BinaryOperator::GreaterThan => id > literal,
                BinaryOperator::GreaterThanOrEq => id >= literal,
                BinaryOperator::Eq => id == literal,
                BinaryOperator::NotEq => id != literal,
                other => panic!("not a comparison of integers: {other:?}"),
            }
        }
        Predicate::In { term, literals } => {
            assert_eq!(term, "id");
            literals.iter().any(|literal| long(literal) == id)
        }
        Predicate::NotIn { term, literals } => {
            assert_eq!(term, "id");
            literals.iter().all(|literal| long(literal) != id)
        }
    }
}

impl StoredFile {
    /// Whether the predicate admits a row of the file.
    fn is_admitted(&self, predicate: &Predicate) -> bool {
        self.batches.iter().flat_map(long_ids).any(|id| admits(predicate, id))
    }
}

fn partition_struct(partition: Option<i32>) -> Struct {
    match partition {
        Some(value) => Struct {
            fields: vec![Some(PrimitiveLiteral::Int(value))],
        },
        None => Struct::empty(),
    }
}

fn partition_value(partition: &Option<Struct>) -> Option<i32> {
    match partition {
        Some(p) => match &p.fields[0] {
            Some(PrimitiveLiteral::Int(value)) => Some(*value),
            other => panic!("unexpected partition value {other:?}"),
        },
        None => None,
    }
}

fn long_ids(batch: &RecordBatch) -> Vec<i64> {
    batch
        .column(0)
        .as_any()
        .downcast_ref::<Int64Array>()
        .unwrap()
        .iter()
        .flatten()
        .collect()
}

impl Table {
    fn new() -> Table {
        Table { files: Vec::new(), deletes: Vec::new(), round: 0, files_read: 0 }
    }

    fn commit_batch(&mut self, partition: Option<i32>, batch: RecordBatch) {
        self.round += 1;
        self.files.push(StoredFile { partition, round: self.round, batches: vec![batch] });
    }

    /// The rows of a file that no delete removes.
    fn live_batches(&self, file: &StoredFile) -> Vec<RecordBatch> {
        let mut live = Vec::new();
        for batch in &file.batches {
            for row in 0..batch.num_rows() {
                let id = long_ids(batch)[row];
                let deleted = self.deletes.iter().any(|d| {
                    d.round > file.round && d.partition == file.partition && d.ids.contains(&id)
                });
                if !deleted {
                    live.push(batch.slice(row, 1));
                }
            }
        }
        live
    }

    fn scan_all(&self) -> Vec<RecordBatch> {
        self.files.iter().flat_map(|f| self.live_batches(f)).collect()
    }

    fn upsert(&mut self, source: RecordBatch, config: UpsertConfig) -> UpsertResult {
        let source = Batch(source);
        let plan = plan(&test_iceberg_schema(), &source, &config).unwrap();
        match config.write_mode {
            UpsertWriteMode::CopyOnWrite => self.upsert_cow(&source, &plan, config.skip_unchanged),
            UpsertWriteMode::MergeOnRead => self.upsert_mor(&source, &plan),
        }
    }

    fn upsert_cow(&mut self, source: &Batch, plan: &UpsertPlan, skip_unchanged: bool) -> UpsertResult {
        let mut executor = CowExecutor::new(
            source,
            &plan.key_columns,
            &plan.non_key_column_indices,
            skip_unchanged,
        )
        .unwrap();
        let mut kept = Vec::new();
        self.files_read = 0;
        for file in std::mem::take(&mut self.files) {
            if !file.is_admitted(&plan.predicate) {
                kept.push(file);
                continue;
            }
            self.files_read += 1;
            let batches: Vec<Batch> = file.batches.iter().map(|b| Batch(b.clone())).collect();
            match executor.process_file(&batches).unwrap() {
                Some(rewrite) => {
                    let original = data_file("old", DataContentType::Data, Struct::empty(), 0);
                    let written = data_file("new", DataContentType::Data, Struct::empty(), 0);
                    executor.record_rewrite(vec![written], Some(original));
                    kept.push(StoredFile {
                        partition: file.partition,
                        round: file.round,
                        batches: rewrite.into_iter().map(|b| b.0).collect(),
                    });
                }
                None => kept.push(file),
            }
        }
        self.files = kept;
        if let Some(insert) = executor.insert_batch().unwrap() {
            let written = data_file("insert", DataContentType::Data, Struct::empty(), 0);
            executor.record_inserts(vec![written]);
            self.commit_batch(None, insert.0);
        }
        let delta: UpsertFileDelta = executor.finish();
        assert_eq!(delta.stats.files_added, delta.added_data_files.len() as u64);
        assert_eq!(delta.stats.files_removed, delta.deleted_data_files.len() as u64);
        assert_eq!(delta.stats.files_affected, delta.stats.files_removed);
        let (commit, stats) = commit_of(delta, UpsertWriteMode::CopyOnWrite, self.round);
        assert_eq!(commit.added.len() as u64, stats.files_added);
        assert_eq!(commit.deleted.len() as u64, stats.files_removed);
        assert_eq!(commit.sequence_number, None);
        stats
    }

    fn upsert_mor(&mut self, source: &Batch, plan: &UpsertPlan) -> UpsertResult {
        let partitioned = self.files.iter().any(|f| f.partition.is_some());
        let mut executor = MorExecutor::new(
            source,
            &plan.key_columns,
            &plan.non_key_column_indices,
            partitioned,
        )
        .unwrap();
        let mut files_read = 0;
        for file in &self.files {
            if !file.is_admitted(&plan.predicate) {
                continue;
            }
            files_read += 1;
            let batches: Vec<Batch> = self.live_batches(file).into_iter().map(Batch).collect();
            executor.process_file(partition_struct(file.partition), &batches).unwrap();
        }
        self.files_read = files_read;
        let last_round = self.round;
        self.round = next_sequence_number(self.round);
        for deletes in executor.delete_batches(&plan.key_columns).unwrap() {
            assert_eq!(deletes.partition.is_some(), partitioned);
            self.deletes.push(StoredDeletes {
                partition: partition_value(&deletes.partition),
                round: self.round,
                ids: long_ids(&deletes.batch.0),
            });
            executor.record_delete_files(vec![data_file(
                "deletes",
                DataContentType::EqualityDeletes,
                Struct::empty(),
                deletes.batch.0.num_rows() as u64,
            )]);
        }
        let data = executor.data_batch().0.clone();
        self.files.push(StoredFile {
            partition: if partitioned { Some(0) } else { None },
            round: self.round,
            batches: vec![data],
        });
        executor.record_data_files(vec![data_file(
            "data",
            DataContentType::Data,
            Struct::empty(),
            0,
        )]);
        let delta = executor.finish();
        assert_eq!(delta.added_data_files[0].file_path, "data");
        assert_eq!(delta.stats.files_added, delta.added_data_files.len() as u64);
        assert_eq!(delta.stats.files_added, delta.stats.files_affected + 1);
        assert!(delta.deleted_data_files.is_empty());
        assert_eq!(delta.stats.files_removed, 0);
        let (commit, stats) = commit_of(delta, UpsertWriteMode::MergeOnRead, last_round);
        assert_eq!(commit.added.len() as u64, stats.files_added);
        assert_eq!(commit.sequence_number, Some(self.round));
        stats
    }
}

fn cow() -> UpsertConfig {
    UpsertConfig { write_mode: UpsertWriteMode::CopyOnWrite, ..Default::default() }
}

fn mor() -> UpsertConfig {
    UpsertConfig { write_mode: UpsertWriteMode::MergeOnRead, ..Default::default() }
}

fn total_rows(batches: &[RecordBatch]) -> usize {
    batches.iter().map(|b| b.num_rows()).sum()
}

fn sorted_ids(batches: &[RecordBatch]) -> Vec<i64> {
    let mut ids: Vec<i64> = batches.iter().flat_map(long_ids).collect();
    ids.sort_unstable();
    ids
}

fn find_name(batches: &[RecordBatch], id: i64) -> Option<String> {
    for batch in batches {
        let names = batch.column(1).as_any().downcast_ref::<StringArray>().unwrap();
        for row in 0..batch.num_rows() {
            if long_ids(batch)[row] == id {
                return Some(names.value(row).to_string());
            }
        }
    }
    None
}

fn rows(batches: &[RecordBatch]) -> Vec<(i64, String, Option<String>)> {
    let mut rows = Vec::new();
    for batch in batches {
        let names = batch.column(1).as_any().downcast_ref::<StringArray>().unwrap();
        let values = batch.column(2).as_any().downcast_ref::<StringArray>().unwrap();
        for row in 0..batch.num_rows() {
            let value = values.is_valid(row).then(|| values.value(row).to_string());
            rows.push((long_ids(batch)[row], names.value(row).to_string(), value));
        }
    }
    rows.sort();
    rows
}

fn three_rows() -> RecordBatch {
    make_batch(
        vec![1, 2, 3],
        vec!["alice", "bob", "charlie"],
        vec![Some("v1"), Some("v2"), Some("v3")],
    )
}

fn mixed_source() -> RecordBatch {
    make_batch(
        vec![2, 3, 4, 5],
        vec!["new_bob", "new_charlie", "diana", "eve"],
        vec![Some("nv2"), Some("nv3"), Some("v4"), Some("v5")],
    )
}

#[test]
fn test_cow_empty_table_all_inserts() {
    let mut table = Table::new();
    let result = table.upsert(three_rows(), cow());

    assert_eq!(result.rows_inserted, 3);
    assert_eq!(result.rows_updated, 0);
    assert_eq!(result.files_removed, 0);

    let batches = table.scan_all();
    assert_eq!(total_rows(&batches), 3);
    assert_eq!(sorted_ids(&batches), vec![1, 2, 3]);
}

#[test]
fn test_cow_no_key_overlap_inserts_into_existing_table() {
    let mut table = Table::new();
    table.commit_batch(None, three_rows());

    let source = make_batch(vec![4, 5], vec!["diana", "eve"], vec![Some("v4"), Some("v5")]);
    let result = table.upsert(source, cow());

    assert_eq!(result.rows_inserted, 2);
    assert_eq!(result.rows_updated, 0);
    assert_eq!(
        result.files_affected, 0,
        "existing file must not be rewritten for a pure insert"
    );

    let batches = table.scan_all();
    assert_eq!(total_rows(&batches), 5);
    assert_eq!(sorted_ids(&batches), vec![1, 2, 3, 4, 5]);
}

#[test]
fn test_cow_full_overlap_all_updates() {
    let mut table = Table::new();
    table.commit_batch(
        None,
        make_batch(
            vec![1, 2],
            vec!["old_alice", "old_bob"],
            vec![Some("old_v1"), Some("old_v2")],
        ),
    );

    let source = make_batch(
        vec![1, 2],
        vec!["new_alice", "new_bob"],
        vec![Some("new_v1"), Some("new_v2")],
    );
    let config = UpsertConfig { skip_unchanged: true, ..cow() };
    let result = table.upsert(source, config);

    assert_eq!(result.rows_updated, 2);
    assert_eq!(result.rows_inserted, 0);
    assert!(
        result.files_affected > 0,
        "existing file should have been rewritten"
    );

    let batches = table.scan_all();
    assert_eq!(total_rows(&batches), 2);
    assert_eq!(find_name(&batches, 1).as_deref(), Some("new_alice"));
    assert_eq!(find_name(&batches, 2).as_deref(), Some("new_bob"));
}

#[test]
fn test_cow_skip_unchanged_does_not_rewrite() {
    let mut table = Table::new();
    let initial = make_batch(vec![1, 2], vec!["alice", "bob"], vec![Some("v1"), Some("v2")]);
    table.commit_batch(None, initial.clone());

    let config = UpsertConfig { skip_unchanged: true, ..cow() };
    let result = table.upsert(initial, config);

    assert_eq!(
        result.files_affected, 0,
        "no files should be rewritten when rows are unchanged"
    );
    assert_eq!(result.rows_updated, 0);
    assert_eq!(result.rows_inserted, 0);

    let batches = table.scan_all();
    assert_eq!(total_rows(&batches), 2, "original rows must be preserved");
    assert_eq!(find_name(&batches, 1).as_deref(), Some("alice"));
    assert_eq!(find_name(&batches, 2).as_deref(), Some("bob"));
}

#[test]
fn test_cow_mixed_updates_and_inserts() {
    let mut table = Table::new();
    table.commit_batch(None, three_rows());

    let result = table.upsert(mixed_source(), cow());

    assert_eq!(result.rows_updated, 2);
    assert_eq!(result.rows_inserted, 2);

    let batches = table.scan_all();
    assert_eq!(total_rows(&batches), 5);
    assert_eq!(sorted_ids(&batches), vec![1, 2, 3, 4, 5]);
    assert_eq!(find_name(&batches, 1).as_deref(), Some("alice"));
    assert_eq!(find_name(&batches, 2).as_deref(), Some("new_bob"));
}

#[test]
fn test_mor_all_inserts_no_delete_file_created() {
    let mut table = Table::new();
    table.commit_batch(None, three_rows());

    let source = make_batch(vec![4, 5], vec!["diana", "eve"], vec![Some("v4"), Some("v5")]);
    let result = table.upsert(source, mor());

    assert_eq!(result.rows_inserted, 2);
    assert_eq!(result.rows_updated, 0);
    assert_eq!(result.files_affected, 0);

    let batches = table.scan_all();
    assert_eq!(total_rows(&batches), 5);
    assert_eq!(sorted_ids(&batches), vec![1, 2, 3, 4, 5]);
}

#[test]
fn test_mor_all_updates_creates_equality_delete_file() {
    let mut table = Table::new();
    table.commit_batch(
        None,
        make_batch(
            vec![1, 2],
            vec!["old_alice", "old_bob"],
            vec![Some("old_v1"), Some("old_v2")],
        ),
    );

    let source = make_batch(
        vec![1, 2],
        vec!["new_alice", "new_bob"],
        vec![Some("new_v1"), Some("new_v2")],
    );
    let result = table.upsert(source, mor());

    assert_eq!(result.rows_updated, 2);
    assert_eq!(result.rows_inserted, 0);
    assert!(
        result.files_affected >= 1,
        "an equality-delete file should have been created"
    );

    let batches = table.scan_all();
    assert_eq!(
        total_rows(&batches),
        2,
        "equality deletes must be applied during scan"
    );
    assert_eq!(find_name(&batches, 1).as_deref(), Some("new_alice"));
    assert_eq!(find_name(&batches, 2).as_deref(), Some("new_bob"));
}

#[test]
fn test_mor_mixed_updates_and_inserts() {
    let mut table = Table::new();
    table.commit_batch(None, three_rows());

    let result = table.upsert(mixed_source(), mor());

    assert_eq!(result.rows_updated, 2);
    assert_eq!(result.rows_inserted, 2);

    let batches = table.scan_all();
    assert_eq!(total_rows(&batches), 5);
    assert_eq!(sorted_ids(&batches), vec![1, 2, 3, 4, 5]);
    assert_eq!(find_name(&batches, 1).as_deref(), Some("alice"));
    assert_eq!(find_name(&batches, 2).as_deref(), Some("new_bob"));
}

#[test]
fn test_mor_two_rounds_accumulate_correctly() {
    let mut table = Table::new();
    table.commit_batch(
        None,
        make_batch(vec![1, 2, 3], vec!["a1", "a2", "a3"], vec![Some("v1"), Some("v2"), Some("v3")]),
    );

    let source1 = make_batch(vec![1, 4], vec!["b1", "a4"], vec![Some("nv1"), Some("v4")]);
    let r1 = table.upsert(source1, mor());
    assert_eq!(r1.rows_updated, 1);
    assert_eq!(r1.rows_inserted, 1);

    let source2 = make_batch(vec![2, 5], vec!["b2", "a5"], vec![Some("nv2"), Some("v5")]);
    let r2 = table.upsert(source2, mor());
    assert_eq!(r2.rows_updated, 1);
    assert_eq!(r2.rows_inserted, 1);

    let batches = table.scan_all();
    assert_eq!(total_rows(&batches), 5);
    assert_eq!(sorted_ids(&batches), vec![1, 2, 3, 4, 5]);
    assert_eq!(find_name(&batches, 1).as_deref(), Some("b1"));
    assert_eq!(find_name(&batches, 2).as_deref(), Some("b2"));
    assert_eq!(find_name(&batches, 3).as_deref(), Some("a3"));
}

#[test]
fn test_cow_in_predicate_small_batch_correctness() {
    let mut table = Table::new();
    let initial_ids: Vec<i64> = (1..=10).collect();
    let initial_names: Vec<&str> = (1..=10).map(|_| "orig").collect();
    let initial_values: Vec<Option<&str>> = (1..=10).map(|_| Some("v")).collect();
    table.commit_batch(None, make_batch(initial_ids, initial_names, initial_values));

    let source_ids: Vec<i64> = (6..=11).collect();
    let source_names: Vec<&str> = vec!["upd6", "upd7", "upd8", "upd9", "upd10", "new11"];
    let source_values: Vec<Option<&str>> = (6..=11).map(|_| Some("nv")).collect();
    table.upsert(make_batch(source_ids, source_names, source_values), cow());

    let batches = table.scan_all();
    assert_eq!(total_rows(&batches), 11);
    assert_eq!(sorted_ids(&batches), (1..=11).collect::<Vec<i64>>());
    assert_eq!(find_name(&batches, 1).as_deref(), Some("orig"));
    assert_eq!(find_name(&batches, 5).as_deref(), Some("orig"));
    assert_eq!(find_name(&batches, 6).as_deref(), Some("upd6"));
    assert_eq!(find_name(&batches, 10).as_deref(), Some("upd10"));
    assert_eq!(find_name(&batches, 11).as_deref(), Some("new11"));
}

#[test]
fn test_cow_in_predicate_large_batch_fallback() {
    let mut table = Table::new();
    let initial_ids: Vec<i64> = (1..=100).collect();
    let initial_names: Vec<&str> = (1..=100).map(|_| "orig").collect();
    let initial_values: Vec<Option<&str>> = (1..=100).map(|_| Some("v")).collect();
    table.commit_batch(None, make_batch(initial_ids, initial_names, initial_values));

    let source_ids: Vec<i64> = (51..=260).collect();
    let source_names: Vec<&str> = source_ids.iter().map(|_| "upserted").collect();
    let source_values: Vec<Option<&str>> = source_ids.iter().map(|_| Some("nv")).collect();
    table.upsert(make_batch(source_ids, source_names, source_values), cow());

    let batches = table.scan_all();
    assert_eq!(total_rows(&batches), 260);
    assert_eq!(find_name(&batches, 1).as_deref(), Some("orig"));
    assert_eq!(find_name(&batches, 50).as_deref(), Some("orig"));
    assert_eq!(find_name(&batches, 51).as_deref(), Some("upserted"));
    assert_eq!(find_name(&batches, 100).as_deref(), Some("upserted"));
    assert_eq!(find_name(&batches, 101).as_deref(), Some("upserted"));
    assert_eq!(find_name(&batches, 260).as_deref(), Some("upserted"));
}

#[test]
fn test_cow_in_predicate_mixed_updates_inserts() {
    let mut table = Table::new();
    table.commit_batch(
        None,
        make_batch(vec![1, 2, 3], vec!["a1", "a2", "a3"], vec![Some("v1"), Some("v2"), Some("v3")]),
    );

    let source = make_batch(
        vec![1, 3, 4],
        vec!["new1", "new3", "new4"],
        vec![Some("nv1"), Some("nv3"), Some("v4")],
    );
    let result = table.upsert(source, cow());
    assert_eq!(result.rows_updated, 2);
    assert_eq!(result.rows_inserted, 1);

    let batches = table.scan_all();
    assert_eq!(total_rows(&batches), 4);
    assert_eq!(sorted_ids(&batches), vec![1, 2, 3, 4]);
    assert_eq!(find_name(&batches, 1).as_deref(), Some("new1"));
    assert_eq!(find_name(&batches, 2).as_deref(), Some("a2"));
    assert_eq!(find_name(&batches, 3).as_deref(), Some("new3"));
    assert_eq!(find_name(&batches, 4).as_deref(), Some("new4"));
}

#[test]
fn a_change_from_or_to_null_is_an_update() {
    let mut table = Table::new();
    table.commit_batch(
        None,
        make_batch(vec![1, 2, 3], vec!["a", "b", "c"], vec![None, Some("v"), None]),
    );
    let source = make_batch(vec![1, 2, 3], vec!["a", "b", "c"], vec![Some("v"), None, None]);
    let result = table.upsert(source.clone(), cow());
    assert_eq!(result.rows_updated, 2);
    assert_eq!(result.files_affected, 1);
    assert_eq!(rows(&table.scan_all()), rows(&[source]));
}

#[test]
fn both_strategies_make_the_same_table() {
    let make = || {
        let mut table = Table::new();
        table.commit_batch(None, three_rows());
        table.commit_batch(None, make_batch(vec![7, 5], vec!["g", "eve"], vec![None, Some("v5")]));
        table
    };
    let mut rewritten = make();
    let mut merged = make();
    let before = total_rows(&rewritten.scan_all());
    let cow_result = rewritten.upsert(mixed_source(), cow());
    let mor_result = merged.upsert(mixed_source(), mor());
    assert_eq!(rows(&rewritten.scan_all()), rows(&merged.scan_all()));
    assert_eq!(cow_result.rows_inserted, mor_result.rows_inserted);
    // The row of id 5 matches and is unchanged.
    assert_eq!(cow_result.rows_updated, 2);
    assert_eq!(mor_result.rows_updated, 2);
    assert_eq!(
        total_rows(&rewritten.scan_all()),
        before + cow_result.rows_inserted as usize
    );
}

#[test]
fn unchanged_rows_are_written_anew_by_merge_on_read_and_not_counted() {
    let row = || make_batch(vec![1], vec!["a"], vec![Some("x")]);
    let mut table = Table::new();
    table.commit_batch(None, row());
    let result = table.upsert(row(), mor());
    assert_eq!(result.rows_updated, 0);
    assert_eq!(result.rows_inserted, 0);
    assert_eq!(result.files_affected, 1);
    assert_eq!(result.files_added, 2);
    assert_eq!(rows(&table.scan_all()), rows(&[row()]));
}

#[test]
fn merge_on_read_counts_each_changed_target_row() {
    let mut table = Table::new();
    table.commit_batch(None, make_batch(vec![1], vec!["a"], vec![None]));
    table.commit_batch(None, make_batch(vec![1, 2], vec!["b", "new"], vec![None, None]));
    let source = make_batch(vec![1, 2], vec!["new", "new"], vec![None, None]);
    let result = table.upsert(source.clone(), mor());
    assert_eq!(result.rows_updated, 2);
    assert_eq!(result.rows_inserted, 0);
    assert_eq!(rows(&table.scan_all()), rows(&[source]));
}

#[test]
fn only_files_that_the_predicate_admits_are_read() {
    for config in [cow(), mor()] {
        let mut table = Table::new();
        for id in 0..10 {
            let ids = vec![10 * id, 10 * id + 1];
            table.commit_batch(None, make_batch(ids, vec!["old", "old"], vec![None, None]));
        }
        // Few keys are listed: the files between them are not read.
        let source = make_batch(vec![10, 75, 90], vec!["new", "new", "new"], vec![None, None, None]);
        let result = table.upsert(source, config.clone());
        assert_eq!(table.files_read, 2);
        assert_eq!(result.rows_updated, 2);
        assert_eq!(result.rows_inserted, 1);
        // Many keys are bounded: the files outside the bounds are not read.
        let ids: Vec<i64> = (1050..2100).chain([15]).collect();
        let names = vec!["newer"; ids.len()];
        let values = vec![None; ids.len()];
        let result = table.upsert(make_batch(ids, names, values), config);
        assert_eq!(table.files_read, 9);
        assert_eq!(result.rows_updated, 0);
        assert_eq!(result.rows_inserted, 1051);
        let batches = table.scan_all();
        assert_eq!(total_rows(&batches), 20 + 1 + 1051);
        assert_eq!(find_name(&batches, 0).as_deref(), Some("old"));
        assert_eq!(find_name(&batches, 10).as_deref(), Some("new"));
        assert_eq!(find_name(&batches, 11).as_deref(), Some("old"));
        assert_eq!(find_name(&batches, 75).as_deref(), Some("new"));
        assert_eq!(find_name(&batches, 15).as_deref(), Some("newer"));
    }
}

#[test]
fn rewritten_and_inserted_batches_keep_the_metadata_of_their_schemas() {
    let with_note = |batch: RecordBatch, note: &str| {
        let schema = batch.schema().as_ref().clone().with_metadata(HashMap::from([(
            "note".to_string(),
            note.to_string(),
        )]));
        Batch(RecordBatch::try_new(Arc::new(schema), batch.columns().to_vec()).unwrap())
    };
    let note = |batch: &Batch| batch.0.schema().metadata().get("note").cloned();
    let source = with_note(make_batch(vec![1, 4], vec!["n", "n"], vec![None, None]), "source");
    let target = with_note(make_batch(vec![1, 2], vec!["o", "o"], vec![None, None]), "target");
    let plan = plan(&test_iceberg_schema(), &source, &cow()).unwrap();
    let mut executor =
        CowExecutor::new(&source, &plan.key_columns, &plan.non_key_column_indices, true).unwrap();
    let parts = executor.process_file(&[target]).unwrap().unwrap();
    assert_eq!(parts.len(), 2);
    assert_eq!(note(&parts[0]).as_deref(), Some("source"));
    assert_eq!(note(&parts[1]).as_deref(), Some("target"));
    let insert = executor.insert_batch().unwrap().unwrap();
    assert_eq!(note(&insert).as_deref(), Some("source"));
    let mut executor =
        MorExecutor::new(&source, &plan.key_columns, &plan.non_key_column_indices, false).unwrap();
    executor.process_file(Struct::empty(), &parts).unwrap();
    let deletes = executor.delete_batches(&plan.key_columns).unwrap();
    assert_eq!(note(&deletes[0].batch), None);
}

#[test]
fn nested_columns_that_are_not_compared_are_carried_along() {
    let batch = |ids: Vec<i64>, words: Vec<&str>| {
        let words: DictionaryArray<Int8Type> = words.into_iter().collect();
        let word = Field::new("word", words.data_type().clone(), true);
        let payload = StructArray::new(vec![word].into(), vec![Arc::new(words)], None);
        let schema = ArrowSchema::new(vec![
            Field::new("id", DataType::Int64, false),
            Field::new("payload", payload.data_type().clone(), true),
        ]);
        let columns: Vec<ArrayRef> = vec![Arc::new(Int64Array::from(ids)), Arc::new(payload)];
        Batch(RecordBatch::try_new(Arc::new(schema), columns).unwrap())
    };
    let words = |batch: &Batch| -> Vec<String> {
        let payload = batch.0.column(1).as_any().downcast_ref::<StructArray>().unwrap();
        let words =
            payload.column(0).as_any().downcast_ref::<DictionaryArray<Int8Type>>().unwrap();
        let words = words.downcast_dict::<StringArray>().unwrap();
        words.into_iter().map(|word| word.unwrap().to_string()).collect()
    };
    let keys = [KeyColumn { field_id: 1, name: "id".to_string(), schema_index: 0 }];
    let source = batch(vec![2, 9], vec!["new", "extra"]);
    let target = batch(vec![1, 2, 3], vec!["a", "b", "c"]);
    assert!(source.is_selectable());
    let mut executor = CowExecutor::new(&source, &keys, &[], false).unwrap();
    let parts = executor.process_file(&[target]).unwrap().unwrap();
    assert_eq!(parts.len(), 2);
    assert_eq!(words(&parts[0]), vec!["new"]);
    assert_eq!(words(&parts[1]), vec!["a", "c"]);
    assert_eq!(words(&executor.insert_batch().unwrap().unwrap()), vec!["extra"]);
}

#[test]
fn commits_hold_the_delta() {
    let delta = || UpsertFileDelta {
        added_data_files: vec![data_file("new", DataContentType::Data, Struct::empty(), 3)],
        deleted_data_files: vec![data_file("old", DataContentType::Data, Struct::empty(), 2)],
        stats: UpsertResult {
            rows_updated: 1,
            rows_inserted: 2,
            files_affected: 3,
            files_added: 4,
            files_removed: 5,
        },
    };
    let (commit, stats) = commit_of(delta(), UpsertWriteMode::CopyOnWrite, i64::MAX);
    assert_eq!(commit.added[0].file_path, "new");
    assert_eq!(commit.deleted[0].file_path, "old");
    assert_eq!(commit.sequence_number, None);
    assert_eq!(stats, delta().stats);
    let (commit, stats) = commit_of(delta(), UpsertWriteMode::MergeOnRead, 41);
    assert_eq!(commit.sequence_number, Some(42));
    assert_eq!(stats, delta().stats);
}

#[test]
fn a_repeated_upsert_changes_nothing() {
    let mut table = Table::new();
    table.commit_batch(None, three_rows());
    table.upsert(mixed_source(), cow());
    let before = rows(&table.scan_all());
    let files = table.files.len();
    let result = table.upsert(mixed_source(), cow());
    assert_eq!(result.rows_updated, 0);
    assert_eq!(result.rows_inserted, 0);
    assert_eq!(result.files_affected, 0);
    assert_eq!(result.files_added, 0);
    assert_eq!(table.files.len(), files);
    assert_eq!(rows(&table.scan_all()), before);
}

#[test]
fn a_repeated_upsert_of_reshuffled_files_changes_nothing() {
    let mut table = Table::new();
    table.commit_batch(None, three_rows());
    table.commit_batch(None, make_batch(vec![70, 80], vec!["x", "y"], vec![None, Some("z")]));
    let first = table.upsert(mixed_source(), cow());
    assert_eq!((first.rows_updated, first.rows_inserted), (2, 2));
    assert_eq!(table.files_read, 1);

    // One file for each row: those without a key of the source are not read.
    let single: Vec<RecordBatch> = table
        .scan_all()
        .iter()
        .flat_map(|batch| (0..batch.num_rows()).map(|row| batch.slice(row, 1)).collect::<Vec<_>>())
        .collect();
    let before = rows(&single);
    let mut spread = Table::new();
    for row in single {
        spread.commit_batch(None, row);
    }
    let second = spread.upsert(mixed_source(), cow());
    assert_eq!(
        second,
        UpsertResult {
            rows_updated: 0,
            rows_inserted: 0,
            files_affected: 0,
            files_added: 0,
            files_removed: 0,
        }
    );
    assert_eq!(spread.files_read, 4);
    assert_eq!(spread.files.len(), 7);
    assert_eq!(rows(&spread.scan_all()), before);
}

fn id_key() -> [KeyColumn; 1] {
    [KeyColumn { field_id: 1, name: "id".to_string(), schema_index: 0 }]
}

/// A batch with a column that rows cannot be selected from: lists of dictionary-encoded words.
fn batch_with_lists(ids: Vec<i64>) -> Batch {
    let words: DictionaryArray<Int8Type> = ids.iter().map(|_| Some("w")).collect();
    let item = Arc::new(Field::new("item", words.data_type().clone(), true));
    let offsets = OffsetBuffer::from_lengths(ids.iter().map(|_| 1));
    let lists = ListArray::new(item, offsets, Arc::new(words), None);
    let schema = ArrowSchema::new(vec![
        Field::new("id", DataType::Int64, false),
        Field::new("words", lists.data_type().clone(), true),
    ]);
    let columns: Vec<ArrayRef> = vec![Arc::new(Int64Array::from(ids)), Arc::new(lists)];
    Batch(RecordBatch::try_new(Arc::new(schema), columns).unwrap())
}

#[test]
fn rows_that_are_all_inserted_need_not_be_selected() {
    let source = batch_with_lists(vec![1, 2, 3]);
    assert!(!source.is_selectable());
    let executor = CowExecutor::new(&source, &id_key(), &[], true).unwrap();
    let inserts = executor.insert_batch().unwrap().unwrap();
    assert_eq!(inserts.0, source.0);
}

#[test]
fn rows_that_are_all_replaced_need_not_be_selected() {
    let source = batch_with_lists(vec![1, 2]);
    let mut executor = CowExecutor::new(&source, &id_key(), &[], false).unwrap();
    let content = executor.process_file(&[batch_with_lists(vec![2, 1])]).unwrap().unwrap();
    assert_eq!(content.len(), 1);
    assert_eq!(content[0].0, source.0);
    assert!(executor.insert_batch().unwrap().is_none());
    let delta = executor.finish();
    assert_eq!((delta.stats.rows_updated, delta.stats.rows_inserted), (2, 0));
}

#[test]
fn rows_that_all_match_nothing_need_not_be_selected() {
    let source = batch_with_lists(vec![1, 2]);
    let mut executor = CowExecutor::new(&source, &id_key(), &[], true).unwrap();
    assert!(executor.process_file(&[batch_with_lists(vec![3, 4, 5])]).unwrap().is_none());
    assert_eq!(executor.insert_batch().unwrap().unwrap().0, source.0);
}

#[test]
fn deletes_keep_keys_that_are_encoded_more_than_once() {
    let batch = |words: Vec<&str>, order: Vec<i8>| {
        let inner: DictionaryArray<Int8Type> = words.into_iter().map(Some).collect();
        let keys = DictionaryArray::<Int8Type>::new(Int8Array::from(order), Arc::new(inner));
        let field = Field::new("id", keys.data_type().clone(), false)
            .with_metadata(HashMap::from([(FIELD_ID.to_string(), "1".to_string())]));
        let columns: Vec<ArrayRef> = vec![Arc::new(keys)];
        Batch(RecordBatch::try_new(Arc::new(ArrowSchema::new(vec![field])), columns).unwrap())
    };
    let source = batch(vec!["a", "b", "c"], vec![0, 1, 2]);
    let mut executor = MorExecutor::new(&source, &id_key(), &[], false).unwrap();
    executor.process_file(Struct::empty(), &[batch(vec!["c", "a"], vec![0, 1, 0])]).unwrap();
    let deletes = executor.delete_batches(&id_key()).unwrap();
    assert_eq!(deletes.len(), 1);
    let keys = deletes[0].batch.0.column(0);
    let expected = batch(vec!["a", "b", "c"], vec![2, 0]);
    assert_eq!(keys.data_type(), source.0.column(0).data_type());
    assert_eq!(keys, expected.0.column(0));
}

#[test]
fn rows_of_one_batch_that_one_source_row_replaces_become_one() {
    let mut table = Table::new();
    let target = make_batch(vec![1, 1, 2], vec!["a", "b", "c"], vec![None, None, None]);
    table.commit_batch(None, target);
    let result = table.upsert(make_batch(vec![1], vec!["new"], vec![None]), cow());
    assert_eq!(result.rows_updated, 2);
    assert_eq!(result.rows_inserted, 0);
    assert_eq!(
        rows(&table.scan_all()),
        vec![(1, "new".to_string(), None), (2, "c".to_string(), None)]
    );
}

#[test]
fn a_source_row_that_two_files_match_is_in_both() {
    let source = make_batch(vec![1], vec!["new"], vec![None]);
    let mut table = Table::new();
    table.commit_batch(None, make_batch(vec![1, 2], vec!["a", "c"], vec![None, None]));
    table.commit_batch(None, make_batch(vec![1], vec!["b"], vec![None]));
    let result = table.upsert(source.clone(), cow());
    assert_eq!(result.rows_updated, 2);
    assert_eq!(result.files_affected, 2);
    assert_eq!(
        rows(&table.scan_all()),
        vec![
            (1, "new".to_string(), None),
            (1, "new".to_string(), None),
            (2, "c".to_string(), None),
        ]
    );
    let again = table.upsert(source, cow());
    assert_eq!(again.rows_updated, 0);
    assert_eq!(again.files_affected, 0);
}

#[test]
fn unchanged_rows_are_replaced_where_they_are_not_skipped() {
    let mut table = Table::new();
    table.commit_batch(None, three_rows());
    let config = UpsertConfig { skip_unchanged: false, ..cow() };
    let result = table.upsert(three_rows(), config);
    assert_eq!(result.rows_updated, 3);
    assert_eq!(result.files_affected, 1);
    assert_eq!(result.files_added, 1);
    assert_eq!(rows(&table.scan_all()), rows(&[three_rows()]));
}

#[test]
fn a_rewritten_batch_has_its_parts_in_order() {
    let source = Batch(make_batch(
        vec![9, 3, 2, 1],
        vec!["i", "cc", "bob", "aa"],
        vec![None, None, Some("v2"), None],
    ));
    let plan = plan(&test_iceberg_schema(), &source, &cow()).unwrap();
    let mut executor =
        CowExecutor::new(&source, &plan.key_columns, &plan.non_key_column_indices, true).unwrap();
    let target = make_batch(
        vec![1, 2, 3, 4],
        vec!["alice", "bob", "charlie", "dora"],
        vec![Some("v1"), Some("v2"), Some("v3"), None],
    );
    let parts = executor.process_file(&[Batch(target)]).unwrap().unwrap();
    let ids: Vec<Vec<i64>> = parts.iter().map(|b| long_ids(&b.0)).collect();
    assert_eq!(ids, vec![vec![2], vec![3, 1], vec![4]]);
    let untouched = make_batch(vec![20], vec!["t"], vec![None]);
    assert!(executor.process_file(&[Batch(untouched)]).unwrap().is_none());
    assert!(executor.process_file(&[]).unwrap().is_none());
    let insert = executor.insert_batch().unwrap().unwrap();
    assert_eq!(long_ids(&insert.0), vec![9]);
    let delta = executor.finish();
    assert_eq!(delta.stats.rows_updated, 2);
    assert_eq!(delta.stats.rows_inserted, 1);
}

#[test]
fn batches_without_a_match_are_kept_whole_in_a_rewritten_file() {
    let source = Batch(make_batch(vec![3], vec!["x"], vec![None]));
    let plan = plan(&test_iceberg_schema(), &source, &cow()).unwrap();
    let mut executor =
        CowExecutor::new(&source, &plan.key_columns, &plan.non_key_column_indices, true).unwrap();
    let file = [
        Batch(make_batch(vec![1, 2], vec!["a", "b"], vec![None, None])),
        Batch(make_batch(vec![3], vec!["c"], vec![None])),
    ];
    let parts = executor.process_file(&file).unwrap().unwrap();
    let ids: Vec<Vec<i64>> = parts.iter().map(|b| long_ids(&b.0)).collect();
    assert_eq!(ids, vec![vec![1, 2], vec![3]]);
    executor.record_rewrite(Vec::new(), None);
    assert!(executor.insert_batch().unwrap().is_none());
    let delta = executor.finish();
    assert_eq!(delta.stats.files_affected, 1);
    assert_eq!(delta.stats.files_removed, 0);
}

#[test]
fn deletes_go_where_the_old_rows_are() {
    let mut table = Table::new();
    table.commit_batch(Some(1), make_batch(vec![1, 2], vec!["a", "b"], vec![None, None]));
    table.commit_batch(Some(2), make_batch(vec![3], vec!["c"], vec![None]));
    table.commit_batch(Some(1), make_batch(vec![4], vec!["d"], vec![None]));
    let source = make_batch(vec![4, 2, 9], vec!["dd", "bb", "ii"], vec![None, None, None]);
    let result = table.upsert(source, mor());
    assert_eq!(result.rows_updated, 2);
    assert_eq!(result.rows_inserted, 1);
    assert_eq!(result.files_affected, 1);
    assert_eq!(table.deletes.len(), 1);
    assert_eq!(table.deletes[0].partition, Some(1));
    assert_eq!(table.deletes[0].ids, vec![1i64 + 1, 4]);
    assert_eq!(sorted_ids(&table.scan_all()), vec![1, 2, 3, 4, 9]);
}

#[test]
fn deletes_of_a_partition_hold_a_key_once() {
    let source = Batch(make_batch(vec![1, 2], vec!["a", "b"], vec![None, None]));
    let plan = plan(&test_iceberg_schema(), &source, &mor()).unwrap();
    let mut executor =
        MorExecutor::new(&source, &plan.key_columns, &plan.non_key_column_indices, true).unwrap();
    let file = |ids: Vec<i64>| {
        let names = ids.iter().map(|_| "x").collect();
        let values = ids.iter().map(|_| None).collect();
        [Batch(make_batch(ids, names, values))]
    };
    let text = |value: &str| Struct {
        fields: vec![Some(PrimitiveLiteral::String(value.to_string())), None],
    };
    executor.process_file(text("p"), &file(vec![2, 1])).unwrap();
    executor.process_file(text("q"), &file(vec![1])).unwrap();
    executor.process_file(text("p"), &file(vec![1, 2, 2])).unwrap();
    executor.process_file(text("r"), &file(vec![5])).unwrap();
    let deletes = executor.delete_batches(&plan.key_columns).unwrap();
    let found: Vec<(bool, Vec<i64>)> = deletes
        .iter()
        .map(|d| (d.partition.as_ref().unwrap().same(&text("p")), long_ids(&d.batch.0)))
        .collect();
    assert_eq!(found, vec![(true, vec![2, 1]), (false, vec![1])]);
    let schema = deletes[0].batch.0.schema();
    assert_eq!(schema.fields().len(), 1);
    assert_eq!(schema.field(0).name(), "id");
    assert!(schema.field(0).metadata().is_empty());
    assert!(!schema.field(0).is_nullable());
    // Every target row of a source key counts, in whichever file it is.
    let delta = executor.finish();
    assert_eq!(delta.stats.rows_updated, 6);
    assert_eq!(delta.stats.rows_inserted, 0);
}

#[test]
fn a_table_without_partitions_has_deletes_without_partition() {
    let source = Batch(make_batch(vec![1], vec!["a"], vec![None]));
    let plan = plan(&test_iceberg_schema(), &source, &mor()).unwrap();
    let mut executor =
        MorExecutor::new(&source, &plan.key_columns, &plan.non_key_column_indices, false).unwrap();
    let file = data_file("f", DataContentType::Data, partition_struct(Some(3)), 1);
    assert_eq!(partition_of(Some(&file)).fields.len(), 1);
    assert!(partition_of(None).fields.is_empty());
    let target = Batch(make_batch(vec![1], vec!["z"], vec![None]));
    executor.process_file(partition_of(Some(&file)), &[target]).unwrap();
    let deletes = executor.delete_batches(&plan.key_columns).unwrap();
    assert_eq!(deletes.len(), 1);
    assert!(deletes[0].partition.is_none());
    assert_eq!(equality_ids(&plan.key_columns), vec![1]);
    assert_eq!(next_sequence_number(41), 42);
}

#[test]
fn targets_that_do_not_fit_stop_the_upsert() {
    let source = Batch(make_batch(vec![1], vec!["a"], vec![None]));
    let plan = plan(&test_iceberg_schema(), &source, &cow()).unwrap();
    let schema = Arc::new(ArrowSchema::new(vec![
        Field::new("id", DataType::Utf8, false),
        Field::new("name", DataType::Utf8, false),
        Field::new("value", DataType::Utf8, true),
    ]));
    let columns: Vec<ArrayRef> = vec![
        Arc::new(StringArray::from(vec!["1"])),
        Arc::new(StringArray::from(vec!["a"])),
        Arc::new(StringArray::from(vec!["b"])),
    ];
    let target = [Batch(RecordBatch::try_new(schema, columns).unwrap())];
    let mut cow_executor =
        CowExecutor::new(&source, &plan.key_columns, &plan.non_key_column_indices, true).unwrap();
    let error = cow_executor.process_file(&target).unwrap_err();
    assert_eq!(error.kind(), ErrorKind::Unexpected);
    assert!(error.message().starts_with("RowConverter convert error: "));
    let mut mor_executor =
        MorExecutor::new(&source, &plan.key_columns, &plan.non_key_column_indices, true).unwrap();
    let error = mor_executor.process_file(Struct::empty(), &target).unwrap_err();
    assert!(error.message().starts_with("RowConverter convert error: "));
}

#[test]
fn plans_name_keys_columns_and_predicate() {
    let source = Batch(three_rows());
    let config = UpsertConfig { join_columns: vec!["name".to_string()], ..cow() };
    let plan = plan(&test_iceberg_schema(), &source, &config).unwrap();
    assert_eq!(plan.key_columns.len(), 1);
    assert_eq!(plan.key_columns[0].schema_index, 1);
    assert_eq!(plan.non_key_column_indices, vec![0, 2]);
    assert!(matches!(&plan.predicate, Predicate::In { term, literals } if term == "name" && literals.len() == 3));
}

#[test]
fn a_given_predicate_is_used() {
    let source = Batch(three_rows().slice(0, 0));
    let config = UpsertConfig { pruning_predicate: Some(Predicate::AlwaysFalse), ..cow() };
    let plan = plan(&test_iceberg_schema(), &source, &config).unwrap();
    assert!(matches!(plan.predicate, Predicate::AlwaysFalse));
}

#[test]
fn an_empty_source_is_refused() {
    let source = Batch(three_rows().slice(0, 0));
    let error = plan(&test_iceberg_schema(), &source, &cow()).unwrap_err();
    assert_eq!(error.kind(), ErrorKind::DataInvalid);
    assert_eq!(error.message(), "Source batch is empty; nothing to upsert");
}

#[test]
fn duplicate_source_keys_stop_the_plan() {
    let source = Batch(make_batch(vec![1, 1], vec!["a", "b"], vec![None, None]));
    let error = plan(&test_iceberg_schema(), &source, &cow()).unwrap_err();
    assert_eq!(error.kind(), ErrorKind::DataInvalid);
    assert!(error.message().contains("duplicate key"));
}

#[test]
fn keys_that_cannot_be_resolved_stop_the_plan() {
    let source = Batch(three_rows());
    let config = UpsertConfig { join_columns: vec!["none".to_string()], ..cow() };
    let error = plan(&test_iceberg_schema(), &source, &config).unwrap_err();
    assert_eq!(error.message(), "Join column 'none' not found in table schema");
}

#[test]
fn keys_without_predicate_scan_every_file() {
    let schema = Arc::new(ArrowSchema::new(vec![Field::new("at", DataType::Boolean, false)]));
    let columns: Vec<ArrayRef> = vec![Arc::new(arrow_array::BooleanArray::from(vec![true, false]))];
    let source = Batch(RecordBatch::try_new(schema, columns).unwrap());
    let table = Schema {
        fields: vec![SchemaField {
            id: 1,
            name: "at".to_string(),
            field_type: Type::Primitive(PrimitiveType::Boolean),
            top_level: true,
        }],
        identifier_field_ids: vec![1],
    };
    let plan = plan(&table, &source, &cow()).unwrap();
    assert!(matches!(plan.predicate, Predicate::AlwaysTrue));
}

#[test]
fn modes_have_names() {
    assert_eq!(UpsertWriteMode::default(), UpsertWriteMode::CopyOnWrite);
    for name in ["copy-on-write", "cow", "COW", "Copy-On-Write"] {
        assert_eq!(UpsertWriteMode::try_from(name).unwrap(), UpsertWriteMode::CopyOnWrite);
    }
    for name in ["merge-on-read", "mor", "MoR", "MERGE-ON-READ"] {
        assert_eq!(UpsertWriteMode::try_from(name).unwrap(), UpsertWriteMode::MergeOnRead);
    }
    let error = UpsertWriteMode::try_from("Fast").unwrap_err();
    assert_eq!(error.kind(), ErrorKind::DataInvalid);
    assert_eq!(
        error.message(),
        "Unknown upsert write mode: 'Fast'. Expected 'copy-on-write' or 'merge-on-read'."
    );
    assert_eq!(UpsertWriteMode::from_lowercase(&"COW".to_string()), None);
    assert_eq!(
        UpsertWriteMode::from_lowercase(&"mor".to_string()),
        Some(UpsertWriteMode::MergeOnRead)
    );
}

#[test]
fn the_default_configuration() {
    let config = UpsertConfig::default();
    assert!(config.join_columns.is_empty());
    assert!(config.skip_unchanged);
    assert_eq!(config.write_mode, UpsertWriteMode::CopyOnWrite);
    assert!(config.pruning_predicate.is_none());
    assert!(config.clone().skip_unchanged);
}
