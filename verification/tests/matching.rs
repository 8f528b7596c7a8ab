use std::sync::Arc;

use arrow_array::types::{Int32Type, Int8Type};
use arrow_array::{
    new_null_array, Array, ArrayRef, BooleanArray, DictionaryArray, Float64Array, Int32Array,
    Int64Array, Int8Array, ListArray, RecordBatch, StringArray, StringViewArray,
};
use arrow_schema::{DataType, Field, Schema as ArrowSchema, UnionFields, UnionMode};
use iceberg_upsert::columnar::Batch;
use iceberg_upsert::error::ErrorKind;
use iceberg_upsert::matcher::UpsertMatcher;
use iceberg_upsert::model::ColumnKind;
use iceberg_upsert::planner::{
    non_key_column_indices, resolve_key_columns, validate_source_keys,
};
use iceberg_upsert::schema::{PrimitiveType, Schema, SchemaField, Type};

fn field(id: i32, name: &str, field_type: PrimitiveType) -> SchemaField {
    SchemaField {
        id,
        name: name.to_string(),
        field_type: Type::Primitive(field_type),
        top_level: true,
    }
}

fn make_schema() -> Schema {
    Schema {
        fields: vec![
            field(1, "id", PrimitiveType::Int),
            field(2, "name", PrimitiveType::String),
            field(3, "value", PrimitiveType::Int),
        ],
        identifier_field_ids: vec![1],
    }
}

fn make_batch(ids: Vec<i32>, names: Vec<Option<&str>>, values: Vec<Option<i32>>) -> Batch {
    let schema = ArrowSchema::new(vec![
        Field::new("id", DataType::Int32, false),
        Field::new("name", DataType::Utf8, true),
        Field::new("value", DataType::Int32, true),
    ]);
    let columns: Vec<ArrayRef> = vec![
        Arc::new(Int32Array::from(ids)),
        Arc::new(StringArray::from(names)),
        Arc::new(Int32Array::from(values)),
    ];
    Batch(RecordBatch::try_new(Arc::new(schema), columns).unwrap())
}

fn indices(schema: &Schema) -> (Vec<usize>, Vec<usize>) {
    let keys = resolve_key_columns(schema, &[]).unwrap();
    let key_idx: Vec<usize> = keys.iter().map(|k| k.schema_index).collect();
    let non_key_idx = non_key_column_indices(schema, &keys).unwrap();
    (key_idx, non_key_idx)
}

fn matcher_for(source: &Batch) -> UpsertMatcher {
    let (key_idx, non_key_idx) = indices(&make_schema());
    UpsertMatcher::new(source, &key_idx, &non_key_idx).unwrap()
}

#[test]
fn test_no_matches() {
    let source = make_batch(vec![1, 2], vec![Some("a"), Some("b")], vec![Some(10), Some(20)]);
    let target = make_batch(vec![3, 4], vec![Some("c"), Some("d")], vec![Some(30), Some(40)]);

    let mut matcher = matcher_for(&source);
    let result = matcher.match_batch(&target).unwrap();

    assert_eq!(result.unmatched_target_mask.len(), 2);
    assert!(result.unmatched_target_mask.value(0));
    assert!(result.unmatched_target_mask.value(1));
    assert_eq!(result.matched_source_indices.len(), 0);

    let unmatched_src = matcher.unmatched_source_mask();
    assert!(unmatched_src.value(0));
    assert!(unmatched_src.value(1));
}

#[test]
fn test_all_matches_changed() {
    let source = make_batch(
        vec![1, 2],
        vec![Some("new_a"), Some("new_b")],
        vec![Some(100), Some(200)],
    );
    let target = make_batch(
        vec![1, 2],
        vec![Some("old_a"), Some("old_b")],
        vec![Some(10), Some(20)],
    );

    let mut matcher = matcher_for(&source);
    let result = matcher.match_batch(&target).unwrap();

    assert!(!result.unmatched_target_mask.value(0));
    assert!(!result.unmatched_target_mask.value(1));

    assert_eq!(result.changed_mask.len(), 2);
    assert!(result.changed_mask.value(0));
    assert!(result.changed_mask.value(1));

    let unmatched_src = matcher.unmatched_source_mask();
    assert!(!unmatched_src.value(0));
    assert!(!unmatched_src.value(1));
}

#[test]
fn test_all_matches_unchanged() {
    let source = make_batch(vec![1, 2], vec![Some("a"), Some("b")], vec![Some(10), Some(20)]);
    let target = make_batch(vec![1, 2], vec![Some("a"), Some("b")], vec![Some(10), Some(20)]);

    let mut matcher = matcher_for(&source);
    let result = matcher.match_batch(&target).unwrap();

    assert_eq!(result.changed_mask.len(), 2);
    assert!(!result.changed_mask.value(0));
    assert!(!result.changed_mask.value(1));
}

#[test]
fn test_partial_match_mixed_change() {
    let source = make_batch(vec![1, 3], vec![Some("new_a"), Some("c")], vec![Some(99), Some(30)]);
    let target = make_batch(vec![1, 2], vec![Some("old_a"), Some("b")], vec![Some(10), Some(20)]);

    let mut matcher = matcher_for(&source);
    let result = matcher.match_batch(&target).unwrap();

    assert!(!result.unmatched_target_mask.value(0));
    assert!(result.unmatched_target_mask.value(1));

    assert_eq!(result.matched_source_indices.len(), 1);
    assert_eq!(result.matched_source_indices[0], 0);
    assert_eq!(result.matched_target_indices[0], 0);

    assert!(result.changed_mask.value(0));

    let unmatched_src = matcher.unmatched_source_mask();
    assert!(!unmatched_src.value(0));
    assert!(unmatched_src.value(1));
}

#[test]
fn test_null_transition_detected_as_change() {
    let source = make_batch(vec![1], vec![None], vec![Some(10)]);
    let target = make_batch(vec![1], vec![Some("a")], vec![Some(10)]);

    let mut matcher = matcher_for(&source);
    let result = matcher.match_batch(&target).unwrap();

    assert_eq!(result.changed_mask.len(), 1);
    assert!(
        result.changed_mask.value(0),
        "null→value should be detected as change"
    );
}

#[test]
fn test_both_null_not_changed() {
    let source = make_batch(vec![1], vec![None], vec![Some(10)]);
    let target = make_batch(vec![1], vec![None], vec![Some(10)]);

    let mut matcher = matcher_for(&source);
    let result = matcher.match_batch(&target).unwrap();

    assert_eq!(result.changed_mask.len(), 1);
    assert!(
        !result.changed_mask.value(0),
        "null→null should not be a change"
    );
}

#[test]
fn test_multiple_target_batches() {
    let source = make_batch(
        vec![1, 2, 3],
        vec![Some("a"), Some("b"), Some("c")],
        vec![Some(10), Some(20), Some(30)],
    );
    let target1 = make_batch(vec![1], vec![Some("old")], vec![Some(99)]);
    let target2 = make_batch(vec![2], vec![Some("b")], vec![Some(20)]);

    let mut matcher = matcher_for(&source);

    let r1 = matcher.match_batch(&target1).unwrap();
    assert_eq!(r1.matched_source_indices.len(), 1);
    assert!(r1.changed_mask.value(0));

    let r2 = matcher.match_batch(&target2).unwrap();
    assert_eq!(r2.matched_source_indices.len(), 1);
    assert!(!r2.changed_mask.value(0));

    let unmatched_src = matcher.unmatched_source_mask();
    assert!(!unmatched_src.value(0));
    assert!(!unmatched_src.value(1));
    assert!(unmatched_src.value(2));
}

#[test]
fn null_changes_leave_no_null_in_the_mask() {
    let source = make_batch(
        vec![1, 2, 3, 4],
        vec![None, Some("b"), None, Some("d")],
        vec![Some(1), None, None, Some(4)],
    );
    let target = make_batch(
        vec![4, 3, 2, 1],
        vec![Some("d"), None, None, Some("a")],
        vec![Some(5), None, None, Some(1)],
    );
    let mut matcher = matcher_for(&source);
    let result = matcher.match_batch(&target).unwrap();
    assert_eq!(result.changed_mask.null_count(), 0);
    assert_eq!(result.changed_mask.true_count(), 3);
    assert_eq!(
        result.changed_mask.iter().collect::<Vec<_>>(),
        vec![Some(true), Some(false), Some(true), Some(true)]
    );
    assert_eq!(result.matched_source_indices, vec![3, 2, 1, 0]);
    assert_eq!(result.matched_target_indices, vec![0, 1, 2, 3]);
}

#[test]
fn last_source_row_with_a_key_is_matched() {
    let source = make_batch(
        vec![7, 7, 8],
        vec![Some("first"), Some("second"), Some("x")],
        vec![Some(1), Some(2), Some(3)],
    );
    let target = make_batch(vec![7], vec![Some("second")], vec![Some(2)]);
    let mut matcher = matcher_for(&source);
    let result = matcher.match_batch(&target).unwrap();
    assert_eq!(result.matched_source_indices, vec![1]);
    assert!(!result.changed_mask.value(0));
    let unmatched = matcher.unmatched_source_mask();
    assert_eq!(
        unmatched.iter().collect::<Vec<_>>(),
        vec![Some(true), Some(false), Some(true)]
    );
}

#[test]
fn null_keys_match_each_other() {
    let schema = Arc::new(ArrowSchema::new(vec![
        Field::new("k", DataType::Utf8, true),
        Field::new("v", DataType::Int64, true),
    ]));
    let batch = |keys: Vec<Option<&str>>, values: Vec<i64>| {
        let columns: Vec<ArrayRef> = vec![
            Arc::new(StringArray::from(keys)),
            Arc::new(Int64Array::from(values)),
        ];
        Batch(RecordBatch::try_new(schema.clone(), columns).unwrap())
    };
    let source = batch(vec![None, Some("")], vec![1, 2]);
    let target = batch(vec![Some(""), None], vec![2, 9]);
    let mut matcher = UpsertMatcher::new(&source, &[0], &[1]).unwrap();
    let result = matcher.match_batch(&target).unwrap();
    assert_eq!(result.matched_source_indices, vec![1, 0]);
    assert!(!result.changed_mask.value(0));
    assert!(result.changed_mask.value(1));
    assert_eq!(matcher.source_len(), 2);
    assert_eq!(matcher.source().0.num_columns(), 2);
}

#[test]
fn composite_keys_are_compared_as_a_whole() {
    let schema = Arc::new(ArrowSchema::new(vec![
        Field::new("a", DataType::Utf8, false),
        Field::new("b", DataType::Utf8, false),
    ]));
    let batch = |a: Vec<&str>, b: Vec<&str>| {
        let columns: Vec<ArrayRef> = vec![
            Arc::new(StringArray::from(a)),
            Arc::new(StringArray::from(b)),
        ];
        Batch(RecordBatch::try_new(schema.clone(), columns).unwrap())
    };
    let source = batch(vec!["x", "xy"], vec!["yz", "z"]);
    let target = batch(vec!["xy", "x", "xyz"], vec!["z", "yz", ""]);
    let mut matcher = UpsertMatcher::new(&source, &[0, 1], &[]).unwrap();
    let result = matcher.match_batch(&target).unwrap();
    assert_eq!(result.matched_source_indices, vec![1, 0]);
    assert_eq!(result.matched_target_indices, vec![0, 1]);
    assert!(result.unmatched_target_mask.value(2));
    assert_eq!(result.changed_mask.true_count(), 0);
}

#[test]
fn without_key_columns_nothing_matches() {
    let source = make_batch(vec![1], vec![Some("a")], vec![Some(1)]);
    let target = make_batch(vec![1], vec![Some("a")], vec![Some(1)]);
    let mut matcher = UpsertMatcher::new(&source, &[], &[0, 1, 2]).unwrap();
    let result = matcher.match_batch(&target).unwrap();
    assert_eq!(result.matched_source_indices.len(), 0);
    assert!(result.unmatched_target_mask.value(0));
    assert!(matcher.unmatched_source_mask().value(0));
}

#[test]
fn target_keys_of_another_type_are_an_error() {
    let source = make_batch(vec![1], vec![Some("a")], vec![Some(1)]);
    let schema = Arc::new(ArrowSchema::new(vec![
        Field::new("id", DataType::Int64, false),
        Field::new("name", DataType::Utf8, true),
        Field::new("value", DataType::Int32, true),
    ]));
    let columns: Vec<ArrayRef> = vec![
        Arc::new(Int64Array::from(vec![1])),
        Arc::new(StringArray::from(vec!["a"])),
        Arc::new(Int32Array::from(vec![1])),
    ];
    let target = Batch(RecordBatch::try_new(schema, columns).unwrap());
    let mut matcher = matcher_for(&source);
    let error = matcher.match_batch(&target).unwrap_err();
    assert_eq!(error.kind(), ErrorKind::Unexpected);
    assert!(error.message().starts_with("RowConverter convert error: "));
    assert!(error.message().len() > "RowConverter convert error: ".len());
    assert!(matcher.unmatched_source_mask().value(0));
}

#[test]
fn columns_of_another_type_are_an_error() {
    let source = make_batch(vec![1], vec![Some("a")], vec![Some(1)]);
    let schema = Arc::new(ArrowSchema::new(vec![
        Field::new("id", DataType::Int32, false),
        Field::new("name", DataType::Utf8, true),
        Field::new("value", DataType::Int64, true),
    ]));
    let columns: Vec<ArrayRef> = vec![
        Arc::new(Int32Array::from(vec![1])),
        Arc::new(StringArray::from(vec!["a"])),
        Arc::new(Int64Array::from(vec![1])),
    ];
    let target = Batch(RecordBatch::try_new(schema, columns).unwrap());
    let mut matcher = matcher_for(&source);
    let error = matcher.match_batch(&target).unwrap_err();
    assert!(error.message().starts_with("Column neq comparison error: "));
    assert!(error.to_string().starts_with("Unexpected => Column neq comparison error: "));
}

#[test]
fn nested_columns_cannot_be_compared() {
    let list = || ListArray::from_iter_primitive::<Int32Type, _, _>(vec![Some(vec![Some(1)])]);
    let schema = Arc::new(ArrowSchema::new(vec![
        Field::new("id", DataType::Int32, false),
        Field::new("items", list().data_type().clone(), true),
    ]));
    let batch = || {
        let columns: Vec<ArrayRef> =
            vec![Arc::new(Int32Array::from(vec![1])), Arc::new(list())];
        Batch(RecordBatch::try_new(schema.clone(), columns).unwrap())
    };
    let source = batch();
    assert!(source.has_key_columns(&[0]));
    assert!(!source.has_key_columns(&[0, 1]));
    assert!(!source.has_key_columns(&[2]));
    assert!(source.is_selectable());
    assert_eq!(source.kind_of_column(1), ColumnKind::Nested);
    let mut matcher = UpsertMatcher::new(&source, &[0], &[1]).unwrap();
    let error = matcher.match_batch(&batch()).unwrap_err();
    assert!(error.message().starts_with("Column neq comparison error: "));
    assert!(error.message().contains("Nested comparison: "));
}

/// How a column of one null row of each of the two types is refused.
fn refusal(source_type: &DataType, target_type: &DataType) -> String {
    let batch = |data_type: &DataType| {
        let schema = ArrowSchema::new(vec![
            Field::new("id", DataType::Int32, false),
            Field::new("column", data_type.clone(), true),
        ]);
        let columns: Vec<ArrayRef> =
            vec![Arc::new(Int32Array::from(vec![1])), new_null_array(data_type, 1)];
        Batch(RecordBatch::try_new(Arc::new(schema), columns).unwrap())
    };
    let source = batch(source_type);
    let mut matcher = UpsertMatcher::new(&source, &[0], &[1]).unwrap();
    matcher.match_batch(&batch(target_type)).unwrap_err().message().to_string()
}

#[test]
fn comparison_kernels_say_why_they_refuse() {
    let item = |data_type: DataType| Arc::new(Field::new("item", data_type, true));
    let words = || DataType::Dictionary(Box::new(DataType::Int8), Box::new(DataType::Utf8));
    let twice = || DataType::Dictionary(Box::new(DataType::Int8), Box::new(words()));
    let list = || DataType::List(item(DataType::Int32));
    let union = |mode: UnionMode| {
        let fields = vec![item(DataType::Int32), item(DataType::Utf8)];
        DataType::Union(UnionFields::new(vec![0, 1], fields), mode)
    };
    for nested in [
        list(),
        DataType::List(item(words())),
        DataType::Struct(vec![item(DataType::Int32)].into()),
        union(UnionMode::Sparse),
        union(UnionMode::Dense),
        DataType::Dictionary(Box::new(DataType::Int8), Box::new(list())),
    ] {
        for (left, right) in [
            (nested.clone(), nested.clone()),
            (nested.clone(), DataType::Int32),
            (DataType::Int32, nested.clone()),
            (nested.clone(), twice()),
        ] {
            let message = refusal(&left, &right);
            assert!(
                message.starts_with("Column neq comparison error: Invalid argument error: Nested comparison: "),
                "{message}"
            );
        }
    }
    let message = refusal(&twice(), &DataType::Utf8);
    assert!(message.contains("Invalid comparison operation: "), "{message}");
    let message = refusal(&twice(), &twice());
    assert_eq!(
        message,
        "Column neq comparison error: the values are encoded more than once or by runs"
    );
}

/// A dictionary of the given dictionary-encoded words, where `order` says which word each row has.
fn twice_encoded(words: Vec<&str>, order: Vec<Option<i8>>) -> DictionaryArray<Int8Type> {
    let inner: DictionaryArray<Int32Type> = words.into_iter().map(Some).collect();
    DictionaryArray::new(Int8Array::from(order), Arc::new(inner))
}

#[test]
fn keys_may_be_encoded_more_than_once() {
    let batch = |keys: DictionaryArray<Int8Type>, values: Vec<i32>| {
        let schema = ArrowSchema::new(vec![
            Field::new("key", keys.data_type().clone(), true),
            Field::new("value", DataType::Int32, false),
        ]);
        let columns: Vec<ArrayRef> = vec![Arc::new(keys), Arc::new(Int32Array::from(values))];
        Batch(RecordBatch::try_new(Arc::new(schema), columns).unwrap())
    };
    let source = batch(
        twice_encoded(vec!["a", "b", "c"], vec![Some(0), Some(2), None, Some(1)]),
        vec![10, 30, 0, 20],
    );
    assert_eq!(source.kind_of_column(0), ColumnKind::TwiceEncoded);
    assert!(source.has_key_columns(&[0]));
    let target = batch(
        twice_encoded(vec!["c", "d", "a"], vec![Some(1), Some(0), Some(2), None]),
        vec![1, 30, 11, 0],
    );
    let mut matcher = UpsertMatcher::new(&source, &[0], &[1]).unwrap();
    let result = matcher.match_batch(&target).unwrap();
    assert_eq!(result.matched_target_indices, vec![1, 2, 3]);
    assert_eq!(result.matched_source_indices, vec![1, 0, 2]);
    assert_eq!(result.changed_mask, BooleanArray::from(vec![false, true, false]));
    assert!(validate_source_keys(&source, &[0]).is_ok());
    let repeated = batch(twice_encoded(vec!["a", "b"], vec![Some(1), Some(0), Some(1)]), vec![1, 2, 3]);
    assert!(validate_source_keys(&repeated, &[0]).is_err());
}

#[test]
fn columns_of_other_types_are_compared_by_value() {
    let batch = |flags: Vec<bool>, numbers: Vec<f64>, words: Vec<&str>| {
        let schema = ArrowSchema::new(vec![
            Field::new("id", DataType::Int32, false),
            Field::new("flag", DataType::Boolean, false),
            Field::new("number", DataType::Float64, false),
            Field::new("word", DataType::Utf8View, false),
        ]);
        let columns: Vec<ArrayRef> = vec![
            Arc::new(Int32Array::from(vec![1, 2, 3, 4])),
            Arc::new(BooleanArray::from(flags)),
            Arc::new(Float64Array::from(numbers)),
            Arc::new(StringViewArray::from(words)),
        ];
        Batch(RecordBatch::try_new(Arc::new(schema), columns).unwrap())
    };
    let source = batch(vec![true; 4], vec![1.5; 4], vec!["w"; 4]);
    let target = batch(
        vec![true, false, true, true],
        vec![1.5, 1.5, 2.5, 1.5],
        vec!["w", "w", "w", "a longer word than fits in a view"],
    );
    let mut matcher = UpsertMatcher::new(&source, &[0], &[1, 2, 3]).unwrap();
    let result = matcher.match_batch(&target).unwrap();
    assert_eq!(result.changed_mask, BooleanArray::from(vec![false, true, true, true]));
}

#[test]
fn kinds_follow_from_the_types_inside() {
    let item = |data_type: DataType| Arc::new(Field::new("item", data_type, true));
    let dictionary =
        |values: DataType| DataType::Dictionary(Box::new(DataType::Int8), Box::new(values));
    let list = |data_type: DataType| DataType::List(item(data_type));
    let view = |data_type: DataType| DataType::ListView(item(data_type));
    let structure = |data_type: DataType| DataType::Struct(vec![item(data_type)].into());
    let union = |data_type: DataType, mode: UnionMode| {
        DataType::Union(UnionFields::new(vec![0], vec![item(data_type)]), mode)
    };
    let runs = || {
        let ends = Arc::new(Field::new("run_ends", DataType::Int32, false));
        DataType::RunEndEncoded(ends, Arc::new(Field::new("values", DataType::Utf8, true)))
    };
    let words = || dictionary(DataType::Utf8);
    let cases = [
        (DataType::UInt16, ColumnKind::UInt16),
        (DataType::Date32, ColumnKind::Date32),
        (DataType::Utf8, ColumnKind::Utf8),
        (DataType::LargeUtf8, ColumnKind::LargeUtf8),
        (DataType::Utf8View, ColumnKind::Plain),
        (DataType::Boolean, ColumnKind::Plain),
        (words(), ColumnKind::Dictionary),
        (dictionary(words()), ColumnKind::TwiceEncoded),
        (dictionary(list(DataType::Int32)), ColumnKind::Nested),
        (dictionary(dictionary(words())), ColumnKind::TwiceEncoded),
        (dictionary(list(words())), ColumnKind::Nested),
        (dictionary(dictionary(list(DataType::Int32))), ColumnKind::Nested),
        (list(DataType::Int32), ColumnKind::Nested),
        (list(structure(DataType::Int32)), ColumnKind::Nested),
        (view(DataType::Int32), ColumnKind::Nested),
        (view(words()), ColumnKind::Nested),
        (structure(words()), ColumnKind::Nested),
        (structure(view(words())), ColumnKind::Nested),
        (union(words(), UnionMode::Sparse), ColumnKind::Nested),
        (list(words()), ColumnKind::Tangled),
        (list(view(DataType::Int32)), ColumnKind::Tangled),
        (list(structure(words())), ColumnKind::Tangled),
        (structure(list(words())), ColumnKind::Tangled),
        (DataType::LargeList(item(words())), ColumnKind::Tangled),
        (DataType::FixedSizeList(item(words()), 2), ColumnKind::Tangled),
        (union(words(), UnionMode::Dense), ColumnKind::Tangled),
        (union(list(words()), UnionMode::Sparse), ColumnKind::Tangled),
        (runs(), ColumnKind::RunEnd),
        (list(runs()), ColumnKind::RunEnd),
        (structure(runs()), ColumnKind::RunEnd),
    ];
    for (data_type, kind) in cases {
        let schema = ArrowSchema::new(vec![Field::new("column", data_type.clone(), true)]);
        let batch = Batch(RecordBatch::new_empty(Arc::new(schema)));
        assert_eq!(batch.kind_of_column(0), kind, "{data_type:?}");
        let refused = [ColumnKind::Tangled, ColumnKind::RunEnd].contains(&kind);
        assert_eq!(batch.is_selectable(), !refused, "{data_type:?}");
        let nested = refused || kind == ColumnKind::Nested;
        assert_eq!(batch.has_key_columns(&[0]), !nested, "{data_type:?}");
    }
}

#[test]
fn dictionaries_are_compared_by_value() {
    let schema = Arc::new(ArrowSchema::new(vec![
        Field::new("id", DataType::Int32, false),
        Field::new(
            "word",
            DataType::Dictionary(Box::new(DataType::Int32), Box::new(DataType::Utf8)),
            true,
        ),
    ]));
    let batch = |ids: Vec<i32>, words: Vec<Option<&str>>| {
        let dictionary: DictionaryArray<Int32Type> = words.into_iter().collect();
        let columns: Vec<ArrayRef> = vec![Arc::new(Int32Array::from(ids)), Arc::new(dictionary)];
        Batch(RecordBatch::try_new(schema.clone(), columns).unwrap())
    };
    let source = batch(vec![1, 2, 3], vec![Some("a"), Some("b"), None]);
    let target = batch(vec![3, 2, 1], vec![None, Some("c"), Some("a")]);
    assert_eq!(source.kind_of_column(1), ColumnKind::Dictionary);
    let mut matcher = UpsertMatcher::new(&source, &[0], &[1]).unwrap();
    let result = matcher.match_batch(&target).unwrap();
    assert_eq!(
        result.changed_mask.iter().collect::<Vec<_>>(),
        vec![Some(false), Some(true), Some(false)]
    );
    let mut by_word = UpsertMatcher::new(&source, &[1], &[0]).unwrap();
    let result = by_word.match_batch(&target).unwrap();
    assert_eq!(result.matched_source_indices, vec![2, 0]);
    assert_eq!(result.matched_target_indices, vec![0, 2]);
}

#[test]
fn sliced_batches_match_by_their_rows() {
    let all = make_batch(
        vec![1, 2, 3, 4],
        vec![Some("a"), None, Some("c"), Some("d")],
        vec![None, Some(2), Some(3), None],
    );
    let source = Batch(all.0.slice(1, 3));
    let target = Batch(all.0.slice(2, 2));
    let mut matcher = matcher_for(&source);
    let result = matcher.match_batch(&target).unwrap();
    assert_eq!(result.matched_source_indices, vec![1, 2]);
    assert_eq!(result.changed_mask.true_count(), 0);
    let unmatched = matcher.unmatched_source_mask();
    assert_eq!(unmatched.true_count(), 1);
    assert!(unmatched.value(0));
}

#[test]
fn matched_flags_are_kept_over_batches() {
    let source = make_batch(vec![1, 2], vec![Some("a"), Some("b")], vec![Some(1), Some(2)]);
    let hit = make_batch(vec![2], vec![Some("b")], vec![Some(2)]);
    let miss = make_batch(vec![5], vec![Some("e")], vec![Some(5)]);
    let mut matcher = matcher_for(&source);
    matcher.match_batch(&hit).unwrap();
    matcher.match_batch(&miss).unwrap();
    matcher.match_batch(&hit).unwrap();
    let unmatched = matcher.unmatched_source_mask();
    assert!(unmatched.value(0));
    assert!(!unmatched.value(1));
}
