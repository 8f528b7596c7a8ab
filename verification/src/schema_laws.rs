//! What the lookups in a schema find, said over the schema's own fields.
use vstd::prelude::*;

use crate::schema::{
    column_count, column_field, column_position, position_of_id, position_of_name, Schema,
    SchemaField,
};

verus! {

/// The first field of a name or an id is found, and none is found where there is none.
pub proof fn lemma_first_fields(fields: Seq<SchemaField>, name: Seq<char>, id: i32)
    ensures
        match position_of_name(fields, name) {
            Some(i) => {
                &&& 0 <= i < fields.len()
                &&& fields[i].name@ == name
                &&& forall|j: int| 0 <= j < i ==> (#[trigger] fields[j]).name@ != name
            },
            None => forall|j: int| 0 <= j < fields.len() ==> (#[trigger] fields[j]).name@ != name,
        },
        match position_of_id(fields, id) {
            Some(i) => {
                &&& 0 <= i < fields.len()
                &&& fields[i].id == id
                &&& forall|j: int| 0 <= j < i ==> (#[trigger] fields[j]).id != id
            },
            None => forall|j: int| 0 <= j < fields.len() ==> (#[trigger] fields[j]).id != id,
        },
    decreases fields.len(),
{
    if fields.len() > 0 {
        let rest = fields.drop_last();
        lemma_first_fields(rest, name, id);
        assert forall|j: int| 0 <= j < rest.len() implies #[trigger] rest[j] == fields[j] by {}
        assert forall|j: int| 0 <= j < rest.len() implies #[trigger] fields[j] == rest[j] by {}
    }
}

/// The number of columns is the number of top-level fields.
pub proof fn lemma_column_count(fields: Seq<SchemaField>)
    ensures
        column_count(fields) == fields.filter(|f: SchemaField| f.top_level).len(),
    decreases fields.len(),
{
    reveal(Seq::filter);
    if fields.len() > 0 {
        lemma_column_count(fields.drop_last());
    }
}

/// The first column of a name is found among the top-level fields, and its position is the number of
/// top-level fields before it.
pub proof fn lemma_first_column(fields: Seq<SchemaField>, name: Seq<char>)
    ensures
        match column_field(fields, name) {
            Some(i) => {
                &&& 0 <= i < fields.len()
                &&& fields[i].top_level
                &&& fields[i].name@ == name
                &&& forall|j: int|
                    0 <= j < i ==> !((#[trigger] fields[j]).top_level && fields[j].name@ == name)
                &&& column_position(fields, name) == Some(column_count(fields.take(i)))
                &&& column_count(fields.take(i)) < column_count(fields)
            },
            None => {
                &&& forall|j: int|
                    0 <= j < fields.len() ==> !((#[trigger] fields[j]).top_level && fields[j].name@ == name)
                &&& column_position(fields, name) is None
            },
        },
    decreases fields.len(),
{
    if fields.len() > 0 {
        let rest = fields.drop_last();
        lemma_first_column(rest, name);
        assert forall|j: int| 0 <= j < rest.len() implies #[trigger] fields[j] == rest[j] by {}
        match column_field(rest, name) {
            Some(i) => {
                assert(rest.take(i) =~= fields.take(i));
            },
            None => {
                assert(fields.take(fields.len() - 1) =~= rest);
            },
        }
    }
}

/// A field is found by name exactly where the schema has one of the name, and it is the first.
pub proof fn field_by_name_finds_the_first(schema: &Schema, name: &String, found: Option<usize>)
    requires
        call_ensures(Schema::field_by_name, (schema, name), found),
    ensures
        match found {
            Some(i) => {
                &&& i < schema.fields@.len()
                &&& schema.fields@[i as int].name@ == name@
                &&& forall|j: int| 0 <= j < i ==> (#[trigger] schema.fields@[j]).name@ != name@
            },
            None => forall|j: int|
                0 <= j < schema.fields@.len() ==> (#[trigger] schema.fields@[j]).name@ != name@,
        },
{
    lemma_first_fields(schema.fields@, name@, 0);
}

/// The id found for a name is that of the first field of the name.
pub proof fn field_id_by_name_is_that_of_the_first(schema: &Schema, name: &String, found: Option<i32>)
    requires
        call_ensures(Schema::field_id_by_name, (schema, name), found),
    ensures
        match found {
            Some(id) => exists|i: int|
                {
                    &&& 0 <= i < schema.fields@.len()
                    &&& (#[trigger] schema.fields@[i]).id == id
                    &&& schema.fields@[i].name@ == name@
                    &&& forall|j: int| 0 <= j < i ==> (#[trigger] schema.fields@[j]).name@ != name@
                },
            None => forall|j: int|
                0 <= j < schema.fields@.len() ==> (#[trigger] schema.fields@[j]).name@ != name@,
        },
{
    lemma_first_fields(schema.fields@, name@, 0);
    if found is Some {
        let i = position_of_name(schema.fields@, name@)->0;
        assert(schema.fields@[i].name@ == name@);
    }
}

/// A field is found by id exactly where the schema has one of the id, and it is the first.
pub proof fn field_by_id_finds_the_first(schema: &Schema, id: i32, found: Option<usize>)
    requires
        call_ensures(Schema::field_by_id, (schema, id), found),
    ensures
        match found {
            Some(i) => {
                &&& i < schema.fields@.len()
                &&& schema.fields@[i as int].id == id
                &&& forall|j: int| 0 <= j < i ==> (#[trigger] schema.fields@[j]).id != id
            },
            None => forall|j: int|
                0 <= j < schema.fields@.len() ==> (#[trigger] schema.fields@[j]).id != id,
        },
{
    lemma_first_fields(schema.fields@, Seq::empty(), id);
}

/// The position found for a column's name is the number of top-level fields before the first
/// top-level field of the name, whatever the types. None is found exactly where no top-level field
/// has the name.
pub proof fn column_index_counts_the_columns_before(schema: &Schema, name: &String, found: Option<usize>)
    requires
        call_ensures(Schema::column_index, (schema, name), found),
    ensures
        match found {
            Some(c) => exists|i: int|
                {
                    &&& 0 <= i < schema.fields@.len()
                    &&& (#[trigger] schema.fields@[i]).top_level
                    &&& schema.fields@[i].name@ == name@
                    &&& forall|j: int|
                        0 <= j < i ==> !((#[trigger] schema.fields@[j]).top_level && schema.fields@[j].name@
                            == name@)
                    &&& c == schema.fields@.take(i).filter(|f: SchemaField| f.top_level).len()
                },
            None => forall|j: int|
                0 <= j < schema.fields@.len() ==> !((#[trigger] schema.fields@[j]).top_level
                    && schema.fields@[j].name@ == name@),
        },
{
    lemma_first_column(schema.fields@, name@);
    if found is Some {
        let i = column_field(schema.fields@, name@)->0;
        lemma_column_count(schema.fields@.take(i));
        assert(schema.fields@[i].top_level);
    }
}

/// The id found for a column's name is that of the first top-level field of the name. None is found
/// exactly where no top-level field has the name.
pub proof fn column_id_is_that_of_the_column(schema: &Schema, name: &String, found: Option<i32>)
    requires
        call_ensures(Schema::column_id_by_name, (schema, name), found),
    ensures
        match found {
            Some(id) => exists|i: int|
                {
                    &&& 0 <= i < schema.fields@.len()
                    &&& (#[trigger] schema.fields@[i]).top_level
                    &&& schema.fields@[i].name@ == name@
                    &&& schema.fields@[i].id == id
                    &&& forall|j: int|
                        0 <= j < i ==> !((#[trigger] schema.fields@[j]).top_level && schema.fields@[j].name@
                            == name@)
                },
            None => forall|j: int|
                0 <= j < schema.fields@.len() ==> !((#[trigger] schema.fields@[j]).top_level
                    && schema.fields@[j].name@ == name@),
        },
{
    lemma_first_column(schema.fields@, name@);
    if found is Some {
        let i = column_field(schema.fields@, name@)->0;
        assert(schema.fields@[i].top_level);
    }
}

/// The positions of the top-level fields among all fields.
spec fn top_level_positions(fields: Seq<SchemaField>) -> Seq<int>
    decreases fields.len(),
{
    if fields.len() == 0 {
        Seq::empty()
    } else if fields.last().top_level {
        top_level_positions(fields.drop_last()).push(fields.len() - 1)
    } else {
        top_level_positions(fields.drop_last())
    }
}

proof fn lemma_top_level_positions(fields: Seq<SchemaField>)
    ensures
        top_level_positions(fields).len() == column_count(fields),
        forall|c: int|
            0 <= c < top_level_positions(fields).len() ==> 0 <= #[trigger] top_level_positions(fields)[c]
                < fields.len() && fields[top_level_positions(fields)[c]].top_level && c == column_count(
                fields.take(top_level_positions(fields)[c]),
            ),
        forall|c: int, d: int|
            0 <= c < d < top_level_positions(fields).len() ==> #[trigger] top_level_positions(fields)[c]
                < #[trigger] top_level_positions(fields)[d],
        forall|i: int|
            0 <= i < fields.len() && (#[trigger] fields[i]).top_level ==> top_level_positions(fields).contains(
                i,
            ),
    decreases fields.len(),
{
    if fields.len() > 0 {
        let n = fields.len() - 1;
        let rest = fields.drop_last();
        let shorter = top_level_positions(rest);
        let all = top_level_positions(fields);
        lemma_top_level_positions(rest);
        assert forall|c: int| 0 <= c < all.len() implies 0 <= #[trigger] all[c] < fields.len()
            && fields[all[c]].top_level && c == column_count(fields.take(all[c])) by {
            if c < shorter.len() {
                assert(all[c] == shorter[c]);
                assert(fields[all[c]] == rest[shorter[c]]);
                assert(fields.take(all[c]) =~= rest.take(shorter[c]));
            } else {
                assert(fields.take(n) =~= rest);
            }
        }
        assert forall|i: int| 0 <= i < fields.len() && (#[trigger] fields[i]).top_level implies all.contains(
            i,
        ) by {
            if i == n {
                assert(all[all.len() - 1] == n);
            } else {
                assert(rest[i].top_level);
                let c = choose|c: int| 0 <= c < shorter.len() && shorter[c] == i;
                assert(all[c] == i);
            }
        }
    }
}

/// The number of columns is the number of top-level fields, whatever their types: the positions
/// below it and the top-level fields correspond one to one, in order.
pub proof fn columns_are_the_top_level_fields(schema: &Schema, count: usize)
    requires
        call_ensures(Schema::num_columns, (schema,), count),
    ensures
        count == schema.fields@.filter(|f: SchemaField| f.top_level).len(),
        exists|at: Seq<int>|
            {
                &&& at.len() == count
                &&& forall|c: int|
                    0 <= c < at.len() ==> 0 <= #[trigger] at[c] < schema.fields@.len()
                        && schema.fields@[at[c]].top_level
                &&& forall|c: int, d: int| 0 <= c < d < at.len() ==> #[trigger] at[c] < #[trigger] at[d]
                &&& forall|i: int|
                    0 <= i < schema.fields@.len() && (#[trigger] schema.fields@[i]).top_level
                        ==> at.contains(i)
            },
{
    lemma_column_count(schema.fields@);
    lemma_top_level_positions(schema.fields@);
    let at = top_level_positions(schema.fields@);
    assert(at.len() == count);
}

/// A top-level field has a position below the number of columns: that of the top-level fields before
/// it.
pub proof fn lemma_column_at(fields: Seq<SchemaField>, i: int)
    requires
        0 <= i < fields.len(),
        fields[i].top_level,
    ensures
        fields.take(i).filter(|f: SchemaField| f.top_level).len() < fields.filter(
            |f: SchemaField| f.top_level,
        ).len(),
{
    lemma_column_count(fields);
    lemma_column_count(fields.take(i));
    lemma_top_level_positions(fields);
    let at = top_level_positions(fields);
    let c = choose|c: int| 0 <= c < at.len() && at[c] == i;
    assert(c == column_count(fields.take(at[c])));
}

}
