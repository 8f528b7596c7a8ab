use std::sync::Arc;

use arrow_array::{
    ArrayRef, Date32Array, Float64Array, Int16Array, Int32Array, Int64Array, Int8Array,
    LargeStringArray, RecordBatch, StringArray, TimestampMicrosecondArray, UInt16Array,
    UInt32Array, UInt64Array, UInt8Array,
};
use arrow_schema::{DataType, Field, Schema as ArrowSchema};
use iceberg_upsert::columnar::Batch;
use iceberg_upsert::data_file::PrimitiveLiteral;
use iceberg_upsert::error::ErrorKind;
use iceberg_upsert::planner::{
    build_optimal_predicate, key_column_indices, non_key_column_indices, resolve_key_columns,
    validate_source_keys, KeyColumn, IN_PREDICATE_LIMIT,
};
use iceberg_upsert::predicate::{BinaryOperator, Datum, Predicate, UnaryOperator};
use iceberg_upsert::schema::{PrimitiveType, Schema, SchemaField, Type};

fn field(id: i32, name: &str, field_type: PrimitiveType) -> SchemaField {
    SchemaField {
        id,
        name: name.to_string(),
        field_type: Type::Primitive(field_type),
        top_level: true,
    }
}

fn test_schema() -> Schema {
    Schema {
        fields: vec![
            field(1, "id", PrimitiveType::Int),
            field(2, "name", PrimitiveType::String),
            field(3, "value", PrimitiveType::Long),
        ],
        identifier_field_ids: vec![1],
    }
}

fn make_batch(ids: Vec<i32>, names: Vec<Option<&str>>, values: Vec<Option<i64>>) -> Batch {
    let schema = Arc::new(ArrowSchema::new(vec![
        Field::new("id", DataType::Int32, false),
        Field::new("name", DataType::Utf8, true),
        Field::new("value", DataType::Int64, true),
    ]));
    let columns: Vec<ArrayRef> = vec![
        Arc::new(Int32Array::from(ids)),
        Arc::new(StringArray::from(names)),
        Arc::new(Int64Array::from(values)),
    ];
    Batch(RecordBatch::try_new(schema, columns).unwrap())
}

fn one_column(array: ArrayRef) -> Batch {
    let schema = ArrowSchema::new(vec![Field::new("k", array.data_type().clone(), true)]);
    Batch(RecordBatch::try_new(Arc::new(schema), vec![array]).unwrap())
}

fn key(name: &str, schema_index: usize) -> KeyColumn {
    KeyColumn {
        field_id: schema_index as i32 + 1,
        name: name.to_string(),
        schema_index,
    }
}

fn predicate_of(array: ArrayRef) -> Option<Predicate> {
    build_optimal_predicate(&one_column(array), &[key("k", 0)]).unwrap()
}

/// The literals of an IN list over column `k`, in the order in which they were found.
fn in_literals(predicate: Option<Predicate>) -> Vec<Datum> {
    match predicate {
        Some(Predicate::In { term, literals }) => {
            assert_eq!(term, "k");
            literals
        }
        other => panic!("not an IN list: {other:?}"),
    }
}

fn shown(datum: &Datum) -> String {
    match (datum.data_type, &datum.literal) {
        (PrimitiveType::Int, PrimitiveLiteral::Int(v)) => format!("Int({v})"),
        (PrimitiveType::Long, PrimitiveLiteral::Long(v)) => format!("Long({v})"),
        (PrimitiveType::Date, PrimitiveLiteral::Int(v)) => format!("Date({v})"),
        (PrimitiveType::String, PrimitiveLiteral::String(v)) => format!("String({v:?})"),
        other => panic!("unexpected literal {other:?}"),
    }
}

fn show(datums: &[Datum]) -> Vec<String> {
    datums.iter().map(shown).collect()
}

/// The bounds of `k >= low AND k <= high`.
fn bounds_of(predicate: Option<Predicate>) -> (Datum, Datum) {
    match predicate {
        Some(Predicate::And(a, b)) => match (*a, *b) {
            (
                Predicate::Binary {
                    op: BinaryOperator::GreaterThanOrEq,
                    term: low_term,
                    literal: low,
                },
                Predicate::Binary {
                    op: BinaryOperator::LessThanOrEq,
                    term: high_term,
                    literal: high,
                },
            ) => {
                assert_eq!(low_term, "k");
                assert_eq!(high_term, "k");
                (low, high)
            }
            other => panic!("not bounds: {other:?}"),
        },
        other => panic!("not a conjunction: {other:?}"),
    }
}

#[test]
fn test_resolve_key_columns_from_identifier_fields() {
    let schema = test_schema();
    let keys = resolve_key_columns(&schema, &[]).unwrap();
    assert_eq!(keys.len(), 1);
    assert_eq!(keys[0].name, "id");
    assert_eq!(keys[0].field_id, 1);
}

#[test]
fn test_resolve_key_columns_explicit() {
    let schema = test_schema();
    let keys = resolve_key_columns(&schema, &["name".to_string()]).unwrap();
    assert_eq!(keys.len(), 1);
    assert_eq!(keys[0].name, "name");
}

#[test]
fn test_resolve_key_columns_unknown_column() {
    let schema = test_schema();
    let result = resolve_key_columns(&schema, &["nonexistent".to_string()]);
    assert!(result.is_err());
}

#[test]
fn test_validate_source_keys_no_duplicates() {
    let batch = make_batch(vec![1, 2, 3], vec![None, None, None], vec![None, None, None]);
    assert!(validate_source_keys(&batch, &[0]).is_ok());
}

#[test]
fn test_validate_source_keys_with_duplicates() {
    let batch = make_batch(vec![1, 2, 1], vec![None, None, None], vec![None, None, None]);
    let result = validate_source_keys(&batch, &[0]);
    assert!(result.is_err());
    assert!(result.unwrap_err().to_string().contains("duplicate key"));
}

#[test]
fn unknown_columns_are_reported_by_name() {
    let names = ["id".to_string(), "x".to_string(), "y".to_string()];
    let error = resolve_key_columns(&test_schema(), &names).unwrap_err();
    assert_eq!(error.kind(), ErrorKind::DataInvalid);
    assert_eq!(error.message(), "Join column 'x' not found in table schema");
    assert_eq!(
        error.to_string(),
        "DataInvalid => Join column 'x' not found in table schema"
    );
}

#[test]
fn a_key_is_needed() {
    let mut schema = test_schema();
    schema.identifier_field_ids = vec![];
    let error = resolve_key_columns(&schema, &[]).unwrap_err();
    assert_eq!(error.kind(), ErrorKind::DataInvalid);
    assert_eq!(
        error.message(),
        "No join key columns found: either set identifier-field-ids on the table schema \
         or pass explicit join_columns"
    );
}

#[test]
fn identifier_fields_must_be_in_the_schema() {
    let mut schema = test_schema();
    schema.identifier_field_ids = vec![1, -42];
    let error = resolve_key_columns(&schema, &[]).unwrap_err();
    assert_eq!(error.kind(), ErrorKind::DataInvalid);
    assert_eq!(error.message(), "Identifier field-id -42 has no name in schema");
    schema.identifier_field_ids = vec![i32::MIN];
    let error = resolve_key_columns(&schema, &[]).unwrap_err();
    assert_eq!(
        error.message(),
        "Identifier field-id -2147483648 has no name in schema"
    );
}

#[test]
fn float_keys_are_refused() {
    for float in [PrimitiveType::Float, PrimitiveType::Double] {
        let mut schema = test_schema();
        schema.fields.push(field(4, "price", float));
        let error = resolve_key_columns(&schema, &["price".to_string()]).unwrap_err();
        assert_eq!(error.kind(), ErrorKind::DataInvalid);
        assert_eq!(
            error.message(),
            "Join column 'price' has float type which is not valid for equality \
             matching (per Iceberg spec)"
        );
    }
}

#[test]
fn nested_keys_are_refused() {
    for nested in [Type::Struct, Type::List, Type::KeyValue] {
        let mut schema = test_schema();
        schema.fields.push(SchemaField {
            id: 4,
            name: "inner".to_string(),
            field_type: nested,
            top_level: true,
        });
        let error = resolve_key_columns(&schema, &["inner".to_string()]).unwrap_err();
        assert_eq!(error.kind(), ErrorKind::DataInvalid);
        assert_eq!(
            error.message(),
            "Join column 'inner' is a nested type which is not valid for equality matching"
        );
    }
}

#[test]
fn fields_below_a_column_are_no_key() {
    let mut schema = test_schema();
    schema.fields.push(SchemaField {
        id: 4,
        name: "place".to_string(),
        field_type: Type::Struct,
        top_level: true,
    });
    schema.fields.push(SchemaField {
        id: 5,
        name: "place.zip".to_string(),
        field_type: Type::Primitive(PrimitiveType::Int),
        top_level: false,
    });
    let error = resolve_key_columns(&schema, &["place.zip".to_string()]).unwrap_err();
    assert_eq!(error.kind(), ErrorKind::Unexpected);
    assert_eq!(error.message(), "Column 'place.zip' not found in Arrow schema");
}

#[test]
fn key_and_other_columns_make_up_the_table() {
    let mut schema = test_schema();
    schema.fields.insert(
        1,
        SchemaField {
            id: 9,
            name: "id.part".to_string(),
            field_type: Type::Primitive(PrimitiveType::Int),
            top_level: false,
        },
    );
    let names = ["value".to_string(), "id".to_string()];
    let keys = resolve_key_columns(&schema, &names).unwrap();
    assert_eq!(key_column_indices(&keys), vec![2, 0]);
    assert_eq!(keys[0].field_id, 3);
    assert_eq!(non_key_column_indices(&schema, &keys).unwrap(), vec![1]);
    let all = resolve_key_columns(
        &schema,
        &["id".to_string(), "name".to_string(), "value".to_string()],
    )
    .unwrap();
    assert!(non_key_column_indices(&schema, &all).unwrap().is_empty());
}

#[test]
fn duplicate_keys_have_one_message() {
    let batch = make_batch(
        vec![1, 1],
        vec![Some("a"), Some("a")],
        vec![Some(1), Some(2)],
    );
    let error = validate_source_keys(&batch, &[0, 1]).unwrap_err();
    assert_eq!(error.kind(), ErrorKind::DataInvalid);
    assert_eq!(
        error.message(),
        "Source data contains duplicate key values; upsert requires unique source keys"
    );
    assert!(validate_source_keys(&batch, &[0, 2]).is_ok());
    assert!(validate_source_keys(&batch, &[]).is_ok());
}

#[test]
fn null_keys_count_as_duplicates() {
    let batch = make_batch(vec![1, 2], vec![None, None], vec![None, None]);
    assert!(validate_source_keys(&batch, &[1]).is_err());
    assert!(validate_source_keys(&batch, &[1, 0]).is_ok());
}

#[test]
fn lists_hold_the_distinct_values() {
    let array: ArrayRef = Arc::new(Int32Array::from(vec![Some(3), None, Some(1), Some(3)]));
    assert_eq!(show(&in_literals(predicate_of(array))), vec!["Int(3)", "Int(1)"]);
    let array: ArrayRef = Arc::new(StringArray::from(vec![Some("b"), Some("b"), None]));
    assert_eq!(show(&in_literals(predicate_of(array))), vec!["String(\"b\")"]);
}

#[test]
fn literals_follow_the_column_type() {
    let cases: Vec<(ArrayRef, Vec<&str>)> = vec![
        (Arc::new(Int8Array::from(vec![-128, 127])), vec!["Int(-128)", "Int(127)"]),
        (Arc::new(Int16Array::from(vec![-300])), vec!["Int(-300)"]),
        (Arc::new(Int32Array::from(vec![i32::MIN])), vec!["Int(-2147483648)"]),
        (Arc::new(Int64Array::from(vec![i64::MAX])), vec!["Long(9223372036854775807)"]),
        (Arc::new(UInt8Array::from(vec![255])), vec!["Int(255)"]),
        (Arc::new(UInt16Array::from(vec![65535])), vec!["Int(65535)"]),
        (Arc::new(UInt32Array::from(vec![u32::MAX])), vec!["Long(4294967295)"]),
        (Arc::new(UInt64Array::from(vec![5, u64::MAX])), vec!["Long(5)", "Long(-1)"]),
        (Arc::new(Date32Array::from(vec![19000])), vec!["Date(19000)"]),
    ];
    for (array, expected) in cases {
        assert_eq!(show(&in_literals(predicate_of(array))), expected);
    }
}

#[test]
fn long_lists_become_bounds() {
    let limit = IN_PREDICATE_LIMIT as i64;
    let array: ArrayRef = Arc::new(Int64Array::from((1..=limit).collect::<Vec<i64>>()));
    assert_eq!(in_literals(predicate_of(array)).len(), IN_PREDICATE_LIMIT);
    let array: ArrayRef = Arc::new(Int64Array::from(
        (0..=limit).map(|v| if v == 7 { -500 } else { v }).collect::<Vec<i64>>(),
    ));
    let (low, high) = bounds_of(predicate_of(array));
    assert_eq!(shown(&low), "Long(-500)");
    assert_eq!(shown(&high), format!("Long({limit})"));
}

#[test]
fn bounds_of_every_type() {
    let n = IN_PREDICATE_LIMIT as i32 + 1;
    let cases: Vec<(ArrayRef, &str, &str)> = vec![
        (
            Arc::new(Int16Array::from((0..n).map(|v| v as i16 - 600).collect::<Vec<i16>>())),
            "Int(-600)",
            "Int(400)",
        ),
        (Arc::new(Int32Array::from((5..n + 5).collect::<Vec<i32>>())), "Int(5)", "Int(1005)"),
        (Arc::new(Date32Array::from((0..n).collect::<Vec<i32>>())), "Date(0)", "Date(1000)"),
        (
            Arc::new(UInt16Array::from((0..n).map(|v| v as u16).collect::<Vec<u16>>())),
            "Int(0)",
            "Int(1000)",
        ),
        (
            Arc::new(UInt32Array::from((1..=n).map(|v| v as u32).collect::<Vec<u32>>())),
            "Long(1)",
            "Long(1001)",
        ),
        (
            Arc::new(UInt64Array::from((2..n + 2).map(|v| v as u64).collect::<Vec<u64>>())),
            "Long(2)",
            "Long(1002)",
        ),
        (
            Arc::new(StringArray::from(
                (0..n).map(|v| format!("k{v:04}")).collect::<Vec<String>>(),
            )),
            "String(\"k0000\")",
            "String(\"k1000\")",
        ),
    ];
    for (array, low, high) in cases {
        let (found_low, found_high) = bounds_of(predicate_of(array));
        assert_eq!(shown(&found_low), low);
        assert_eq!(shown(&found_high), high);
    }
}

#[test]
fn some_columns_have_no_predicate() {
    let timestamps: ArrayRef = Arc::new(TimestampMicrosecondArray::from(vec![1, 2]));
    assert!(predicate_of(timestamps).is_none());
    let large: ArrayRef = Arc::new(LargeStringArray::from(vec!["a"]));
    assert!(predicate_of(large).is_none());
    let floats: ArrayRef = Arc::new(Float64Array::from(vec![1.5]));
    assert!(predicate_of(floats).is_none());
    let nulls: ArrayRef = Arc::new(Int32Array::from(vec![None, None]));
    assert!(predicate_of(nulls).is_none());
    let empty: ArrayRef = Arc::new(Int32Array::from(Vec::<i32>::new()));
    assert!(predicate_of(empty).is_none());
}

#[test]
fn key_columns_are_joined_in_order() {
    let batch = make_batch(vec![1, 2], vec![Some("a"), None], vec![None, None]);
    let keys = [key("id", 0), key("value", 2), key("name", 1)];
    match build_optimal_predicate(&batch, &keys).unwrap() {
        Some(Predicate::And(first, second)) => {
            assert!(matches!(&*first, Predicate::In { term, literals } if term == "id" && literals.len() == 2));
            assert!(matches!(&*second, Predicate::In { term, literals } if term == "name" && literals.len() == 1));
        }
        other => panic!("not a conjunction: {other:?}"),
    }
    assert!(build_optimal_predicate(&batch, &[]).unwrap().is_none());
}

#[test]
fn predicates_can_be_cloned() {
    let batch = make_batch(vec![1], vec![Some("a")], vec![Some(1)]);
    let predicate = build_optimal_predicate(&batch, &[key("id", 0), key("name", 1)])
        .unwrap()
        .unwrap();
    assert_eq!(format!("{:?}", predicate.clone()), format!("{predicate:?}"));
}

#[test]
fn predicates_are_copied_in_every_form() {
    let term = || "k".to_string();
    let text = || Datum::of_string("ab".to_string());
    let flag = || Datum { data_type: PrimitiveType::Boolean, literal: PrimitiveLiteral::Boolean(true) };
    let unary = |test: UnaryOperator| Predicate::Unary { test, term: term() };
    let binary = |op: BinaryOperator, literal: Datum| Predicate::Binary { op, term: term(), literal };
    let predicate = Predicate::Or(
        Box::new(
            unary(UnaryOperator::IsNull)
                .and(unary(UnaryOperator::NotNull))
                .and(unary(UnaryOperator::IsNan))
                .and(unary(UnaryOperator::NotNan)),
        ),
        Box::new(Predicate::Not(Box::new(
            binary(BinaryOperator::StartsWith, text())
                .and(binary(BinaryOperator::NotStartsWith, text()))
                .and(binary(BinaryOperator::Eq, flag()))
                .and(Predicate::NotIn { term: term(), literals: vec![Datum::of_int(3), text()] })
                .and(Predicate::In { term: term(), literals: vec![Datum::of_long(3)] })
                .and(Predicate::AlwaysFalse)
                .and(Predicate::AlwaysTrue),
        ))),
    );
    assert_eq!(format!("{:?}", predicate.clone()), format!("{predicate:?}"));
}

#[test]
fn literals_are_the_same_in_type_and_value() {
    assert!(Datum::of_int(3).same(&Datum::of_int(3)));
    assert!(!Datum::of_int(3).same(&Datum::of_int(4)));
    assert!(!Datum::of_int(3).same(&Datum::of_date(3)));
    assert!(!Datum::of_int(3).same(&Datum::of_long(3)));
    assert!(Datum::of_string("a".to_string()).same(&Datum::of_string("a".to_string())));
    let decimal = |scale: u32| Datum {
        data_type: PrimitiveType::Decimal { precision: 9, scale },
        literal: PrimitiveLiteral::Int128(1234),
    };
    assert!(decimal(2).same(&decimal(2)));
    assert!(!decimal(2).same(&decimal(3)));
}
