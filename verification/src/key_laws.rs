//! What holds of the key columns of an upsert, said over the table's own fields and the source's own
//! values.
use vstd::prelude::*;

use crate::columnar::Batch;
use crate::cow_executor::MergeModel;
use crate::error::{ErrorKind, Result};
use crate::model::{distinct, lemma_selected, selected, BatchModel};
use crate::planner::{
    build_optimal_predicate, is_key_column, key_column_indices, key_field_failure, key_field_ids,
    key_fields_failure, non_key_bits, non_key_column_indices, resolve_key_columns, schema_indices,
    unknown_name, validate_source_keys, KeyColumn,
};
use crate::predicate::{Predicate, PredicateModel};
use crate::schema::{column_field, position_of_id, position_of_name, Schema, SchemaField, Type};
use crate::schema_laws::{lemma_column_at, lemma_column_count, lemma_first_column, lemma_first_fields};
use crate::text::signed_decimal;
use crate::upsert::{key_positions, plan, UpsertConfig, UpsertPlan};

verus! {

/// The position of each key column is handed out, in order.
pub proof fn key_positions_are_listed(key_columns: &[KeyColumn], indices: Vec<usize>)
    requires
        call_ensures(key_column_indices, (key_columns,), indices),
    ensures
        indices@.len() == key_columns@.len(),
        forall|i: int|
            0 <= i < indices@.len() ==> #[trigger] indices@[i] == key_columns@[i].schema_index,
{
}

proof fn lemma_unknown_name(fields: Seq<SchemaField>, names: Seq<String>)
    ensures
        match unknown_name(fields, names) {
            Some(i) => {
                &&& 0 <= i < names.len()
                &&& position_of_name(fields, names[i]@) is None
                &&& forall|j: int| 0 <= j < i ==> position_of_name(fields, (#[trigger] names[j])@) is Some
            },
            None => forall|j: int|
                0 <= j < names.len() ==> position_of_name(fields, (#[trigger] names[j])@) is Some,
        },
    decreases names.len(),
{
    if names.len() > 0 {
        let rest = names.drop_last();
        lemma_unknown_name(fields, rest);
        assert forall|j: int| 0 <= j < rest.len() implies #[trigger] names[j] == rest[j] by {}
    }
}

proof fn lemma_key_fields_failure(fields: Seq<SchemaField>, ids: Seq<i32>)
    ensures
        match key_fields_failure(fields, ids) {
            Some(f) => exists|i: int|
                {
                    &&& 0 <= i < ids.len()
                    &&& key_field_failure(fields, #[trigger] ids[i]) == Some(f)
                    &&& forall|j: int| 0 <= j < i ==> key_field_failure(fields, #[trigger] ids[j]) is None
                },
            None => forall|j: int| 0 <= j < ids.len() ==> key_field_failure(fields, #[trigger] ids[j]) is None,
        },
    decreases ids.len(),
{
    if ids.len() > 0 {
        let rest = ids.drop_last();
        let n = ids.len() - 1;
        lemma_key_fields_failure(fields, rest);
        assert forall|j: int| 0 <= j < rest.len() implies #[trigger] ids[j] == rest[j] by {}
        match key_fields_failure(fields, rest) {
            Some(f) => {
                let i = choose|i: int|
                    {
                        &&& 0 <= i < rest.len()
                        &&& key_field_failure(fields, #[trigger] rest[i]) == Some(f)
                        &&& forall|j: int|
                            0 <= j < i ==> key_field_failure(fields, #[trigger] rest[j]) is None
                    };
                assert(key_field_failure(fields, ids[i]) == Some(f));
                assert forall|j: int| 0 <= j < i implies key_field_failure(fields, #[trigger] ids[j]) is None by {
                    assert(key_field_failure(fields, rest[j]) is None);
                }
            },
            None => {
                assert forall|j: int| 0 <= j < n implies key_field_failure(fields, #[trigger] ids[j]) is None by {
                    assert(key_field_failure(fields, rest[j]) is None);
                }
                if key_field_failure(fields, ids[n]) is Some {
                    assert(key_field_failure(fields, ids[n]) == key_fields_failure(fields, ids));
                }
            },
        }
    }
}

/// The first field with the given id has a primitive type that is not a floating-point type, and a
/// column of the table has its name.
pub open spec fn can_be_key(fields: Seq<SchemaField>, id: i32) -> bool {
    exists|j: int|
        {
            &&& 0 <= j < fields.len()
            &&& (#[trigger] fields[j]).id == id
            &&& forall|h: int| 0 <= h < j ==> (#[trigger] fields[h]).id != id
            &&& fields[j].field_type matches Type::Primitive(p) && !(p is Float) && !(p is Double)
            &&& exists|c: int|
                0 <= c < fields.len() && (#[trigger] fields[c]).top_level && fields[c].name@ == fields[j].name@
        }
}

proof fn lemma_can_be_key(fields: Seq<SchemaField>, id: i32)
    ensures
        can_be_key(fields, id) <==> key_field_failure(fields, id) is None,
{
    lemma_first_fields(fields, Seq::empty(), id);
    if key_field_failure(fields, id) is None {
        let j = position_of_id(fields, id)->0;
        lemma_first_column(fields, fields[j].name@);
        let c = column_field(fields, fields[j].name@)->0;
        assert(fields[c].top_level);
        assert(fields[j].id == id);
    }
    if can_be_key(fields, id) {
        let j = choose|j: int|
            {
                &&& 0 <= j < fields.len()
                &&& (#[trigger] fields[j]).id == id
                &&& forall|h: int| 0 <= h < j ==> (#[trigger] fields[h]).id != id
                &&& fields[j].field_type matches Type::Primitive(p) && !(p is Float) && !(p is Double)
                &&& exists|c: int|
                    0 <= c < fields.len() && (#[trigger] fields[c]).top_level && fields[c].name@
                        == fields[j].name@
            };
        assert(position_of_id(fields, id) == Some(j)) by {
            let i = position_of_id(fields, id)->0;
            assert(position_of_id(fields, id) is Some);
            if i < j {
                assert(fields[i].id != id);
            }
            if j < i {
                assert(fields[j].id != id);
            }
        }
        lemma_first_column(fields, fields[j].name@);
    }
}

/// The id is that of the first field with the name.
pub open spec fn is_id_of(fields: Seq<SchemaField>, name: Seq<char>, id: i32) -> bool {
    exists|j: int|
        {
            &&& 0 <= j < fields.len()
            &&& (#[trigger] fields[j]).id == id
            &&& fields[j].name@ == name
            &&& forall|h: int| 0 <= h < j ==> (#[trigger] fields[h]).name@ != name
        }
}

/// The ids are those of the key fields that are asked for: one for each name, that of the first field
/// of the name; and where there is no name, the identifier fields.
pub open spec fn are_asked_for(schema: Schema, names: Seq<String>, ids: Seq<i32>) -> bool {
    &&& names.len() == 0 ==> ids == schema.identifier_field_ids@
    &&& names.len() > 0 ==> ids.len() == names.len() && forall|i: int|
        0 <= i < names.len() ==> is_id_of(schema.fields@, names[i]@, #[trigger] ids[i])
}

proof fn lemma_asked_for(schema: Schema, names: Seq<String>, ids: Seq<i32>)
    requires
        unknown_name(schema.fields@, names) is None,
    ensures
        are_asked_for(schema, names, ids) <==> ids == key_field_ids(schema, names),
{
    let fields = schema.fields@;
    let expected = key_field_ids(schema, names);
    lemma_unknown_name(fields, names);
    if names.len() > 0 {
        assert forall|i: int| 0 <= i < names.len() implies is_id_of(fields, names[i]@, #[trigger] expected[i]) by {
            assert(position_of_name(fields, names[i]@) is Some);
            lemma_first_fields(fields, names[i]@, 0);
            let j = position_of_name(fields, names[i]@)->0;
            assert(fields[j].id == expected[i]);
        }
        if are_asked_for(schema, names, ids) {
            assert forall|i: int| 0 <= i < names.len() implies ids[i] == expected[i] by {
                assert(is_id_of(fields, names[i]@, ids[i]));
                let j = choose|j: int|
                    {
                        &&& 0 <= j < fields.len()
                        &&& (#[trigger] fields[j]).id == ids[i]
                        &&& fields[j].name@ == names[i]@
                        &&& forall|h: int| 0 <= h < j ==> (#[trigger] fields[h]).name@ != names[i]@
                    };
                lemma_first_fields(fields, names[i]@, 0);
                assert(position_of_name(fields, names[i]@) is Some);
                let p = position_of_name(fields, names[i]@)->0;
                if p < j {
                    assert(fields[p].name@ != names[i]@);
                }
                if j < p {
                    assert(fields[j].name@ != names[i]@);
                }
            }
            assert(ids =~= expected);
        }
    }
}

/// A key column is the first field of its id: it has that field's name, the field can be a key, and
/// its position is the number of columns before the first column of the name.
pub open spec fn is_column_of(key: KeyColumn, fields: Seq<SchemaField>) -> bool {
    &&& exists|j: int|
        {
            &&& 0 <= j < fields.len()
            &&& (#[trigger] fields[j]).id == key.field_id
            &&& forall|h: int| 0 <= h < j ==> (#[trigger] fields[h]).id != key.field_id
            &&& key.name@ == fields[j].name@
            &&& fields[j].field_type matches Type::Primitive(p) && !(p is Float) && !(p is Double)
        }
    &&& exists|c: int|
        {
            &&& 0 <= c < fields.len()
            &&& (#[trigger] fields[c]).top_level
            &&& fields[c].name@ == key.name@
            &&& forall|h: int|
                0 <= h < c ==> !((#[trigger] fields[h]).top_level && fields[h].name@ == key.name@)
            &&& key.schema_index == fields.take(c).filter(|f: SchemaField| f.top_level).len()
        }
}

proof fn lemma_column_of(key: KeyColumn, fields: Seq<SchemaField>, id: i32)
    requires
        is_key_column(key, fields, id),
        key_field_failure(fields, id) is None,
    ensures
        key.field_id == id,
        is_column_of(key, fields),
        key.schema_index < fields.filter(|f: SchemaField| f.top_level).len(),
{
    lemma_first_fields(fields, Seq::empty(), id);
    lemma_first_column(fields, key.name@);
    let j = position_of_id(fields, id)->0;
    let c = column_field(fields, key.name@)->0;
    lemma_column_count(fields.take(c));
    lemma_column_count(fields);
    assert(fields[j].id == key.field_id);
    assert(fields[c].top_level);
}

proof fn lemma_resolved(schema: Schema, names: Seq<String>, keys: Seq<KeyColumn>)
    requires
        unknown_name(schema.fields@, names) is None,
        key_field_ids(schema, names).len() > 0,
        key_fields_failure(schema.fields@, key_field_ids(schema, names)) is None,
        keys.len() == key_field_ids(schema, names).len(),
        forall|i: int|
            0 <= i < keys.len() ==> is_key_column(
                #[trigger] keys[i],
                schema.fields@,
                key_field_ids(schema, names)[i],
            ),
    ensures
        keys.len() > 0,
        names.len() == 0 ==> keys.len() == schema.identifier_field_ids@.len() && forall|i: int|
            0 <= i < keys.len() ==> (#[trigger] keys[i]).field_id == schema.identifier_field_ids@[i],
        names.len() > 0 ==> keys.len() == names.len() && forall|i: int|
            0 <= i < keys.len() ==> is_id_of(schema.fields@, names[i]@, (#[trigger] keys[i]).field_id),
        forall|i: int| 0 <= i < keys.len() ==> is_column_of(#[trigger] keys[i], schema.fields@),
        forall|i: int|
            0 <= i < keys.len() ==> (#[trigger] keys[i]).schema_index < schema.fields@.filter(
                |f: SchemaField| f.top_level,
            ).len(),
{
    let ids = key_field_ids(schema, names);
    lemma_asked_for(schema, names, ids);
    lemma_key_fields_failure(schema.fields@, ids);
    assert forall|i: int| 0 <= i < keys.len() implies is_column_of(#[trigger] keys[i], schema.fields@)
        && keys[i].field_id == ids[i] && keys[i].schema_index < schema.fields@.filter(
        |f: SchemaField| f.top_level,
    ).len() by {
        assert(key_field_failure(schema.fields@, ids[i]) is None);
        lemma_column_of(keys[i], schema.fields@, ids[i]);
    }
    if names.len() > 0 {
        assert forall|i: int| 0 <= i < keys.len() implies is_id_of(
            schema.fields@,
            names[i]@,
            (#[trigger] keys[i]).field_id,
        ) by {
            assert(is_id_of(schema.fields@, names[i]@, ids[i]));
        }
    }
}

/// The resolved key columns are those asked for, each of them and in order: where no name is given,
/// the identifier fields of the schema, and else for each name the first field of the name. Each is
/// described as the schema has it.
pub proof fn resolved_keys_are_those_asked_for(schema: &Schema, names: &[String], keys: Vec<KeyColumn>)
    requires
        call_ensures(resolve_key_columns, (schema, names), Ok(keys)),
    ensures
        keys@.len() > 0,
        names@.len() == 0 ==> keys@.len() == schema.identifier_field_ids@.len() && forall|i: int|
            0 <= i < keys@.len() ==> (#[trigger] keys@[i]).field_id == schema.identifier_field_ids@[i],
        names@.len() > 0 ==> keys@.len() == names@.len() && forall|i: int|
            0 <= i < keys@.len() ==> is_id_of(schema.fields@, names@[i]@, (#[trigger] keys@[i]).field_id),
        forall|i: int| 0 <= i < keys@.len() ==> is_column_of(#[trigger] keys@[i], schema.fields@),
{
    lemma_resolved(*schema, names@, keys@);
}

/// Key columns are resolved exactly where every name given is that of a field, where there is a key
/// field, and where each of the key fields can be a key.
pub proof fn keys_are_resolved_where_they_can_be(
    schema: &Schema,
    names: &[String],
    ids: Seq<i32>,
    keys: Result<Vec<KeyColumn>>,
)
    requires
        call_ensures(resolve_key_columns, (schema, names), keys),
        (forall|i: int|
            0 <= i < names@.len() ==> exists|j: int|
                0 <= j < schema.fields@.len() && (#[trigger] schema.fields@[j]).name@ == (
                #[trigger] names@[i])@) ==> are_asked_for(*schema, names@, ids),
    ensures
        keys is Ok <==> {
            &&& forall|i: int|
                0 <= i < names@.len() ==> exists|j: int|
                    0 <= j < schema.fields@.len() && (#[trigger] schema.fields@[j]).name@ == (
                    #[trigger] names@[i])@
            &&& ids.len() > 0
            &&& forall|i: int| 0 <= i < ids.len() ==> can_be_key(schema.fields@, #[trigger] ids[i])
        },
{
    let fields = schema.fields@;
    lemma_unknown_name(fields, names@);
    assert forall|i: int| 0 <= i < names@.len() implies (position_of_name(fields, (#[trigger] names@[i])@) is Some
        <==> exists|j: int| 0 <= j < fields.len() && (#[trigger] fields[j]).name@ == names@[i]@) by {
        lemma_first_fields(fields, names@[i]@, 0);
        if position_of_name(fields, names@[i]@) is Some {
            assert(fields[position_of_name(fields, names@[i]@)->0].name@ == names@[i]@);
        }
    }
    match unknown_name(fields, names@) {
        Some(i) => {
            assert(!(exists|j: int| 0 <= j < fields.len() && (#[trigger] fields[j]).name@ == names@[i]@));
        },
        None => {
            assert forall|i: int| 0 <= i < names@.len() implies exists|j: int|
                0 <= j < fields.len() && (#[trigger] fields[j]).name@ == (#[trigger] names@[i])@ by {
                assert(position_of_name(fields, names@[i]@) is Some);
            }
            lemma_asked_for(*schema, names@, ids);
            lemma_key_fields_failure(fields, ids);
            assert forall|i: int| 0 <= i < ids.len() implies (can_be_key(fields, #[trigger] ids[i])
                <==> key_field_failure(fields, ids[i]) is None) by {
                lemma_can_be_key(fields, ids[i]);
            }
        },
    }
}

/// The first name that no field of the schema has is refused by name.
pub proof fn unknown_names_are_refused(
    schema: &Schema,
    names: &[String],
    i: int,
    keys: Result<Vec<KeyColumn>>,
)
    requires
        call_ensures(resolve_key_columns, (schema, names), keys),
        0 <= i < names@.len(),
        forall|j: int| 0 <= j < schema.fields@.len() ==> (#[trigger] schema.fields@[j]).name@ != names@[i]@,
        forall|h: int|
            0 <= h < i ==> exists|j: int|
                0 <= j < schema.fields@.len() && (#[trigger] schema.fields@[j]).name@ == (
                #[trigger] names@[h])@,
    ensures
        keys matches Err(e) && e.spec_kind() == ErrorKind::DataInvalid && e.spec_message()
            == "Join column '"@ + names@[i]@ + "' not found in table schema"@,
{
    let fields = schema.fields@;
    lemma_unknown_name(fields, names@);
    lemma_first_fields(fields, names@[i]@, 0);
    assert(position_of_name(fields, names@[i]@) is None) by {
        if position_of_name(fields, names@[i]@) is Some {
            assert(fields[position_of_name(fields, names@[i]@)->0].name@ == names@[i]@);
        }
    }
    assert(unknown_name(fields, names@) is Some) by {
        assert(position_of_name(fields, (names@[i])@) is None);
    }
    let u = unknown_name(fields, names@)->0;
    if u < i {
        lemma_first_fields(fields, names@[u]@, 0);
        assert(position_of_name(fields, names@[u]@) is None);
        let j = choose|j: int| 0 <= j < fields.len() && (#[trigger] fields[j]).name@ == names@[u]@;
        assert(fields[j].name@ != names@[u]@);
    }
    if i < u {
        assert(position_of_name(fields, (names@[i])@) is Some);
    }
}

/// Where no name is given and the schema has no identifier field, the keys are refused.
pub proof fn missing_keys_are_refused(schema: &Schema, names: &[String], keys: Result<Vec<KeyColumn>>)
    requires
        call_ensures(resolve_key_columns, (schema, names), keys),
        names@.len() == 0,
        schema.identifier_field_ids@.len() == 0,
    ensures
        keys matches Err(e) && e.spec_kind() == ErrorKind::DataInvalid && e.spec_message()
            == "No join key columns found: either set identifier-field-ids on the table schema or pass explicit join_columns"@,
{
}

/// The first of the key fields that cannot be a key is refused: an id that no field has, a field of a
/// floating-point or nested type, and a field that is no column, each in its words.
pub proof fn unfit_keys_are_refused(
    schema: &Schema,
    names: &[String],
    ids: Seq<i32>,
    i: int,
    j: int,
    keys: Result<Vec<KeyColumn>>,
)
    requires
        call_ensures(resolve_key_columns, (schema, names), keys),
        forall|h: int|
            0 <= h < names@.len() ==> exists|f: int|
                0 <= f < schema.fields@.len() && (#[trigger] schema.fields@[f]).name@ == (
                #[trigger] names@[h])@,
        are_asked_for(*schema, names@, ids),
        0 <= i < ids.len(),
        forall|h: int| 0 <= h < i ==> can_be_key(schema.fields@, #[trigger] ids[h]),
        !can_be_key(schema.fields@, ids[i]),
    ensures
        keys is Err,
        (forall|f: int| 0 <= f < schema.fields@.len() ==> (#[trigger] schema.fields@[f]).id != ids[i]) ==> {
            &&& keys->Err_0.spec_kind() == ErrorKind::DataInvalid
            &&& keys->Err_0.spec_message() == "Identifier field-id "@ + signed_decimal(ids[i] as int)
                + " has no name in schema"@
        },
        0 <= j < schema.fields@.len() && schema.fields@[j].id == ids[i] && (forall|f: int|
            0 <= f < j ==> (#[trigger] schema.fields@[f]).id != ids[i]) ==> match schema.fields@[j].field_type {
            Type::Primitive(p) => if p is Float || p is Double {
                &&& keys->Err_0.spec_kind() == ErrorKind::DataInvalid
                &&& keys->Err_0.spec_message() == "Join column '"@ + schema.fields@[j].name@
                    + "' has float type which is not valid for equality matching (per Iceberg spec)"@
            } else {
                &&& keys->Err_0.spec_kind() == ErrorKind::Unexpected
                &&& keys->Err_0.spec_message() == "Column '"@ + schema.fields@[j].name@
                    + "' not found in Arrow schema"@
            },
            _ => {
                &&& keys->Err_0.spec_kind() == ErrorKind::DataInvalid
                &&& keys->Err_0.spec_message() == "Join column '"@ + schema.fields@[j].name@
                    + "' is a nested type which is not valid for equality matching"@
            },
        },
{
    let fields = schema.fields@;
    lemma_unknown_name(fields, names@);
    assert(unknown_name(fields, names@) is None) by {
        if unknown_name(fields, names@) is Some {
            let u = unknown_name(fields, names@)->0;
            lemma_first_fields(fields, names@[u]@, 0);
            let f = choose|f: int| 0 <= f < fields.len() && (#[trigger] fields[f]).name@ == names@[u]@;
            assert(fields[f].name@ != names@[u]@);
        }
    }
    lemma_asked_for(*schema, names@, ids);
    lemma_key_fields_failure(fields, ids);
    lemma_can_be_key(fields, ids[i]);
    assert(key_fields_failure(fields, ids) is Some) by {
        if key_fields_failure(fields, ids) is None {
            assert(key_field_failure(fields, ids[i]) is None);
        }
    }
    let failure = key_fields_failure(fields, ids)->0;
    let first = choose|h: int|
        {
            &&& 0 <= h < ids.len()
            &&& key_field_failure(fields, #[trigger] ids[h]) == Some(failure)
            &&& forall|g: int| 0 <= g < h ==> key_field_failure(fields, #[trigger] ids[g]) is None
        };
    if first < i {
        lemma_can_be_key(fields, ids[first]);
        assert(can_be_key(fields, ids[first]));
    }
    if i < first {
        assert(key_field_failure(fields, ids[i]) is None);
    }
    assert(key_field_failure(fields, ids[i]) == Some(failure));
    lemma_first_fields(fields, Seq::empty(), ids[i]);
    if 0 <= j < fields.len() && fields[j].id == ids[i] && (forall|f: int|
        0 <= f < j ==> (#[trigger] fields[f]).id != ids[i]) {
        assert(position_of_id(fields, ids[i]) == Some(j)) by {
            assert(position_of_id(fields, ids[i]) is Some);
            let p = position_of_id(fields, ids[i])->0;
            if p < j {
                assert(fields[p].id != ids[i]);
            }
            if j < p {
                assert(fields[j].id != ids[i]);
            }
        }
    }
    if forall|f: int| 0 <= f < fields.len() ==> (#[trigger] fields[f]).id != ids[i] {
        assert(position_of_id(fields, ids[i]) is None) by {
            if position_of_id(fields, ids[i]) is Some {
                assert(fields[position_of_id(fields, ids[i])->0].id == ids[i]);
            }
        }
    }
}

proof fn lemma_non_keys(schema: Schema, keys: Seq<KeyColumn>, indices: Seq<usize>)
    requires
        indices.map_values(|i: usize| i as int) == selected(non_key_bits(schema, keys)),
    ensures
        forall|i: int, j: int| 0 <= i < j < indices.len() ==> #[trigger] indices[i] < #[trigger] indices[j],
        forall|c: usize| #[trigger]
            indices.contains(c) <==> c < schema.fields@.filter(|f: SchemaField| f.top_level).len()
                && forall|k: int| 0 <= k < keys.len() ==> (#[trigger] keys[k]).schema_index != c,
{
    let bits = non_key_bits(schema, keys);
    let ints = indices.map_values(|i: usize| i as int);
    lemma_selected(bits);
    lemma_column_count(schema.fields@);
    assert forall|i: int| 0 <= i < indices.len() implies #[trigger] indices[i] as int == selected(bits)[i] by {
        assert(ints[i] == indices[i] as int);
    }
    assert forall|c: usize| #[trigger] indices.contains(c) <==> c < bits.len() && bits[c as int] by {
        if indices.contains(c) {
            let i = choose|i: int| 0 <= i < indices.len() && indices[i] == c;
            assert(bits[selected(bits)[i]]);
        }
        if c < bits.len() && bits[c as int] {
            assert(selected(bits).contains(c as int));
            let i = choose|i: int| 0 <= i < selected(bits).len() && selected(bits)[i] == c as int;
            assert(ints[i] == indices[i] as int);
        }
    }
}

/// The columns that are compared are all columns of the table but the key columns, in ascending
/// order.
pub proof fn non_keys_are_the_other_columns(
    schema: &Schema,
    keys: &[KeyColumn],
    indices: Result<Vec<usize>>,
)
    requires
        call_ensures(non_key_column_indices, (schema, keys), indices),
    ensures
        indices matches Ok(v) && {
            &&& forall|i: int, j: int| 0 <= i < j < v@.len() ==> #[trigger] v@[i] < #[trigger] v@[j]
            &&& forall|c: usize| #[trigger]
                v@.contains(c) <==> c < schema.fields@.filter(|f: SchemaField| f.top_level).len()
                    && forall|k: int| 0 <= k < keys@.len() ==> (#[trigger] keys@[k]).schema_index != c
        },
{
    lemma_non_keys(*schema, keys@, indices->Ok_0@);
}

/// Every column of the table that is no key column has its position among those that are compared,
/// whatever its type: the number of columns before it.
pub proof fn every_other_column_is_compared(
    schema: &Schema,
    keys: &[KeyColumn],
    indices: Vec<usize>,
    i: int,
    position: usize,
)
    requires
        call_ensures(non_key_column_indices, (schema, keys), Ok(indices)),
        0 <= i < schema.fields@.len(),
        schema.fields@[i].top_level,
        position == schema.fields@.take(i).filter(|f: SchemaField| f.top_level).len(),
        forall|k: int| 0 <= k < keys@.len() ==> (#[trigger] keys@[k]).schema_index != position,
    ensures
        indices@.contains(position),
{
    lemma_non_keys(*schema, keys@, indices@);
    lemma_column_at(schema.fields@, i);
}

/// Row `r` of the one batch and row `q` of the other agree in all of the columns, a null agreeing
/// with a null.
pub open spec fn agree_in(a: BatchModel, r: int, b: BatchModel, q: int, columns: Seq<usize>) -> bool {
    forall|k: int|
        0 <= k < columns.len() ==> a.columns[#[trigger] columns[k] as int].cells[r]
            == b.columns[columns[k] as int].cells[q]
}

/// Rows agree in some columns exactly where their values there are the same.
pub proof fn lemma_agree_in(a: BatchModel, r: int, b: BatchModel, q: int, columns: Seq<usize>)
    ensures
        agree_in(a, r, b, q, columns) <==> a.project(columns, r) == b.project(columns, q),
{
    let x = a.project(columns, r);
    let y = b.project(columns, q);
    if agree_in(a, r, b, q, columns) {
        assert(x =~= y);
    }
    if x == y {
        assert forall|k: int| 0 <= k < columns.len() implies a.columns[#[trigger] columns[k] as int].cells[r]
            == b.columns[columns[k] as int].cells[q] by {
            assert(x[k] == y[k]);
        }
    }
}

/// No two rows agree in all of the columns.
pub open spec fn are_told_apart(batch: BatchModel, columns: Seq<usize>) -> bool {
    forall|r: int, q: int| 0 <= r < q < batch.rows ==> !#[trigger] agree_in(batch, r, batch, q, columns)
}

proof fn lemma_told_apart(batch: BatchModel, columns: Seq<usize>)
    requires
        columns.len() > 0,
    ensures
        distinct(batch.keys(columns)) <==> are_told_apart(batch, columns),
{
    let keys = batch.keys(columns);
    if are_told_apart(batch, columns) {
        assert forall|r: int, q: int| 0 <= r < q < keys.len() implies keys[r] != keys[q] by {
            lemma_agree_in(batch, r, batch, q, columns);
            assert(!agree_in(batch, r, batch, q, columns));
        }
    }
    if distinct(keys) {
        assert forall|r: int, q: int| 0 <= r < q < batch.rows implies !#[trigger] agree_in(
            batch,
            r,
            batch,
            q,
            columns,
        ) by {
            lemma_agree_in(batch, r, batch, q, columns);
            assert(keys[r] != keys[q]);
        }
    }
}

/// The keys of a source are accepted exactly where no two rows agree in all key columns. The other
/// columns do not matter. Where no column is a key column, there is nothing to refuse.
pub proof fn keys_are_accepted_where_they_tell_rows_apart(
    source: &Batch,
    columns: &[usize],
    result: Result<()>,
)
    requires
        call_ensures(validate_source_keys, (source, columns), result),
    ensures
        result is Ok <==> columns@.len() == 0 || are_told_apart(source@, columns@),
        result matches Err(e) ==> e.spec_kind() == ErrorKind::DataInvalid && e.spec_message()
            == "Source data contains duplicate key values; upsert requires unique source keys"@,
{
    if columns@.len() > 0 {
        lemma_told_apart(source@, columns@);
    }
}

/// Two rows whose values are equal in every key column, nulls included, are refused; and in accepted
/// keys any two rows differ in some key column.
pub proof fn equal_keys_are_refused(
    source: &Batch,
    columns: &[usize],
    result: Result<()>,
    r: int,
    q: int,
)
    requires
        call_ensures(validate_source_keys, (source, columns), result),
        columns@.len() > 0,
        0 <= r < q < source@.rows,
    ensures
        (forall|k: int|
            0 <= k < columns@.len() ==> source@.columns[#[trigger] columns@[k] as int].cells[r]
                == source@.columns[columns@[k] as int].cells[q]) ==> result is Err,
        result is Ok ==> exists|k: int|
            0 <= k < columns@.len() && source@.columns[#[trigger] columns@[k] as int].cells[r]
                != source@.columns[columns@[k] as int].cells[q],
{
    lemma_told_apart(source@, columns@);
    assert(are_told_apart(source@, columns@) ==> !agree_in(source@, r, source@, q, columns@));
}

/// A plan has the key columns asked for and compares all other columns of the table. Where the source
/// has one column for each column of the table, each is the one or the other, which the merge of any
/// target batch with as many columns rests on. No two rows of the source agree in all key columns.
pub proof fn planned_columns_are_keys_or_compared(
    schema: &Schema,
    source: &Batch,
    config: &UpsertConfig,
    planned: UpsertPlan,
    merge: MergeModel,
    target: BatchModel,
)
    requires
        call_ensures(plan, (schema, source, config), Ok(planned)),
        merge.source == source@,
        merge.keys == schema_indices(planned.key_columns@),
        merge.non_keys == planned.non_key_column_indices@,
        target.columns.len() == source@.columns.len() <= usize::MAX,
    ensures
        planned.key_columns@.len() > 0,
        config.join_columns@.len() == 0 ==> planned.key_columns@.len()
            == schema.identifier_field_ids@.len() && forall|i: int|
            0 <= i < planned.key_columns@.len() ==> (#[trigger] planned.key_columns@[i]).field_id
                == schema.identifier_field_ids@[i],
        config.join_columns@.len() > 0 ==> planned.key_columns@.len() == config.join_columns@.len()
            && forall|i: int|
            0 <= i < planned.key_columns@.len() ==> is_id_of(
                schema.fields@,
                config.join_columns@[i]@,
                (#[trigger] planned.key_columns@[i]).field_id,
            ),
        forall|i: int|
            0 <= i < planned.key_columns@.len() ==> is_column_of(
                #[trigger] planned.key_columns@[i],
                schema.fields@,
            ),
        forall|i: int, j: int|
            0 <= i < j < planned.non_key_column_indices@.len()
                ==> #[trigger] planned.non_key_column_indices@[i]
                < #[trigger] planned.non_key_column_indices@[j],
        forall|c: usize| #[trigger]
            planned.non_key_column_indices@.contains(c) <==> c < schema.fields@.filter(
                |f: SchemaField| f.top_level,
            ).len() && forall|k: int|
                0 <= k < planned.key_columns@.len() ==> (#[trigger] planned.key_columns@[k]).schema_index != c,
        are_told_apart(source@, schema_indices(planned.key_columns@)),
        source@.columns.len() == schema.fields@.filter(|f: SchemaField| f.top_level).len() ==> merge.covers(
            target,
        ) && forall|c: int|
            0 <= c < source@.columns.len() ==> {
                ||| exists|k: int|
                    0 <= k < planned.key_columns@.len() && (#[trigger] planned.key_columns@[k]).schema_index == c
                ||| #[trigger] planned.non_key_column_indices@.contains(c as usize)
            },
{
    let keys = planned.key_columns@;
    let others = planned.non_key_column_indices@;
    lemma_resolved(*schema, config.join_columns@, keys);
    lemma_non_keys(*schema, keys, others);
    lemma_told_apart(source@, schema_indices(keys));
    if source@.columns.len() == schema.fields@.filter(|f: SchemaField| f.top_level).len() {
        assert forall|c: int| 0 <= c < target.columns.len() implies #[trigger] merge.reads(c) by {
            let at = c as usize;
            if others.contains(at) {
                let k = choose|k: int| 0 <= k < others.len() && others[k] == at;
                assert(merge.non_keys[k] == c);
            } else {
                let k = choose|k: int| 0 <= k < keys.len() && (#[trigger] keys[k]).schema_index == at;
                assert(merge.keys[k] == c);
            }
        }
    }
}

/// A plan prunes by the configured predicate, and where there is none, by the predicate that is built
/// for the source and its key columns. Where none is built, every file is read.
pub proof fn plans_prune_by_the_predicate_that_is_built(
    schema: &Schema,
    source: &Batch,
    config: &UpsertConfig,
    planned: UpsertPlan,
    keys: &[KeyColumn],
    built: Result<Option<Predicate>>,
)
    requires
        call_ensures(plan, (schema, source, config), Ok(planned)),
        keys@ == planned.key_columns@,
        call_ensures(build_optimal_predicate, (source, keys), built),
    ensures
        config.pruning_predicate matches Some(p) ==> planned.predicate.model() == p.model(),
        config.pruning_predicate is None ==> source@.rows > 0 && (built matches Ok(b) && match b {
            Some(p) => planned.predicate.model() == p.model(),
            None => planned.predicate.model() == PredicateModel::AlwaysTrue,
        }),
{
}

/// A plan is refused as its key columns are, else as its keys are, else where the source is empty and
/// no predicate is configured; and in no other case.
pub proof fn plans_are_refused_for_their_keys_or_an_empty_source(
    schema: &Schema,
    source: &Batch,
    config: &UpsertConfig,
    planned: Result<UpsertPlan>,
    names: &[String],
    keys: Result<Vec<KeyColumn>>,
    columns: &[usize],
    valid: Result<()>,
)
    requires
        call_ensures(plan, (schema, source, config), planned),
        names@ == config.join_columns@,
        call_ensures(resolve_key_columns, (schema, names), keys),
        keys matches Ok(k) ==> columns@ == schema_indices(k@),
        call_ensures(validate_source_keys, (source, columns), valid),
    ensures
        planned is Ok <==> keys is Ok && valid is Ok && (config.pruning_predicate is Some || source@.rows
            > 0),
        match (keys, planned) {
            (Err(e), Err(f)) => e.spec_kind() == f.spec_kind() && e.spec_message() == f.spec_message(),
            (Ok(_), Err(f)) => match valid {
                Err(e) => e.spec_kind() == f.spec_kind() && e.spec_message() == f.spec_message(),
                Ok(_) => f.spec_kind() == ErrorKind::DataInvalid && f.spec_message()
                    == "Source batch is empty; nothing to upsert"@,
            },
            _ => true,
        },
{
    if keys is Ok {
        let k = keys->Ok_0@;
        lemma_key_positions(*schema, names@, k);
    }
}

proof fn lemma_key_positions(schema: Schema, names: Seq<String>, keys: Seq<KeyColumn>)
    requires
        keys.len() == key_field_ids(schema, names).len(),
        forall|i: int|
            0 <= i < keys.len() ==> is_key_column(
                #[trigger] keys[i],
                schema.fields@,
                key_field_ids(schema, names)[i],
            ),
    ensures
        schema_indices(keys) == key_positions(schema, names),
{
    let positions = key_positions(schema, names);
    assert forall|i: int| 0 <= i < keys.len() implies schema_indices(keys)[i] == positions[i] by {
        assert(is_key_column(keys[i], schema.fields@, key_field_ids(schema, names)[i]));
    }
    assert(schema_indices(keys) =~= positions);
}

}
