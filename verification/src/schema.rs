//! Table schemas, as far as an upsert reads them.
use vstd::prelude::*;

verus! {

/// The type of a primitive field.
#[derive(Clone, Copy, Debug, PartialEq, Eq, Structural)]
pub enum PrimitiveType {
    /// True or false.
    Boolean,
    /// A 32-bit integer.
    Int,
    /// A 64-bit integer.
    Long,
    /// A 32-bit floating-point number.
    Float,
    /// A 64-bit floating-point number.
    Double,
    /// A decimal with the given precision and scale.
    Decimal {
        /// The number of digits.
        precision: u32,
        /// The number of digits after the point.
        scale: u32,
    },
    /// A date.
    Date,
    /// A time of day.
    Time,
    /// A timestamp in microseconds without time zone.
    Timestamp,
    /// A timestamp in microseconds with time zone.
    Timestamptz,
    /// A timestamp in nanoseconds without time zone.
    TimestampNs,
    /// A timestamp in nanoseconds with time zone.
    TimestamptzNs,
    /// A text.
    String,
    /// A UUID.
    Uuid,
    /// The given number of bytes.
    Fixed(u64),
    /// Any number of bytes.
    Binary,
}

/// The type of a field.
#[derive(Clone, Copy, Debug, PartialEq, Eq, Structural)]
pub enum Type {
    /// A primitive type.
    Primitive(PrimitiveType),
    /// A struct, whose fields the schema lists on their own.
    Struct,
    /// A list, whose element the schema lists on its own.
    List,
    /// A map, whose key and value the schema lists on their own.
    KeyValue,
}

/// A field of a schema.
#[derive(Debug, Clone)]
pub struct SchemaField {
    /// The field's id.
    pub id: i32,
    /// The field's full name: that of a nested field starts with its parent's name and a dot.
    pub name: String,
    /// The field's type.
    pub field_type: Type,
    /// Whether the field is a column of the table, and not nested in one.
    pub top_level: bool,
}

/// The schema of a table: all fields, nested ones included, and the ids of the fields that
/// identify a row.
#[derive(Debug, Clone)]
pub struct Schema {
    /// The fields. The columns of the table are among them in their order.
    pub fields: Vec<SchemaField>,
    /// The ids of the identifier fields.
    pub identifier_field_ids: Vec<i32>,
}

/// The position of the first field with the given name.
pub open spec fn position_of_name(fields: Seq<SchemaField>, name: Seq<char>) -> Option<int>
    decreases fields.len(),
{
    if fields.len() == 0 {
        None
    } else {
        match position_of_name(fields.drop_last(), name) {
            Some(i) => Some(i),
            None => if fields.last().name@ == name {
                Some(fields.len() - 1)
            } else {
                None
            },
        }
    }
}

/// The position of the first field with the given id.
pub open spec fn position_of_id(fields: Seq<SchemaField>, id: i32) -> Option<int>
    decreases fields.len(),
{
    if fields.len() == 0 {
        None
    } else {
        match position_of_id(fields.drop_last(), id) {
            Some(i) => Some(i),
            None => if fields.last().id == id {
                Some(fields.len() - 1)
            } else {
                None
            },
        }
    }
}

/// The number of columns of the table.
pub open spec fn column_count(fields: Seq<SchemaField>) -> nat
    decreases fields.len(),
{
    if fields.len() == 0 {
        0
    } else {
        column_count(fields.drop_last()) + if fields.last().top_level {
            1nat
        } else {
            0nat
        }
    }
}

/// The position, among the columns of the table, of the first column with the given name.
pub open spec fn column_position(fields: Seq<SchemaField>, name: Seq<char>) -> Option<nat>
    decreases fields.len(),
{
    if fields.len() == 0 {
        None
    } else {
        match column_position(fields.drop_last(), name) {
            Some(i) => Some(i),
            None => if fields.last().top_level && fields.last().name@ == name {
                Some(column_count(fields.drop_last()))
            } else {
                None
            },
        }
    }
}

/// The position, among all fields, of the first column with the given name.
pub open spec fn column_field(fields: Seq<SchemaField>, name: Seq<char>) -> Option<int>
    decreases fields.len(),
{
    if fields.len() == 0 {
        None
    } else {
        match column_field(fields.drop_last(), name) {
            Some(i) => Some(i),
            None => if fields.last().top_level && fields.last().name@ == name {
                Some(fields.len() - 1)
            } else {
                None
            },
        }
    }
}

proof fn lemma_prefixes(fields: Seq<SchemaField>, k: int, name: Seq<char>, id: i32)
    requires
        0 <= k <= fields.len(),
    ensures
        position_of_name(fields.take(k), name) matches Some(i) ==> position_of_name(fields, name) == Some(
            i,
        ),
        position_of_id(fields.take(k), id) matches Some(i) ==> position_of_id(fields, id) == Some(i),
        column_position(fields.take(k), name) matches Some(i) ==> column_position(fields, name) == Some(i),
        column_field(fields.take(k), name) matches Some(i) ==> column_field(fields, name) == Some(i),
        column_count(fields.take(k)) <= column_count(fields),
    decreases fields.len(),
{
    if k < fields.len() {
        lemma_prefixes(fields.drop_last(), k, name, id);
        assert(fields.drop_last().take(k) =~= fields.take(k));
    } else {
        assert(fields.take(k) =~= fields);
    }
}

/// A position found is a position, and a column found is a column.
pub proof fn lemma_positions(fields: Seq<SchemaField>, name: Seq<char>, id: i32)
    ensures
        position_of_name(fields, name) matches Some(i) ==> 0 <= i < fields.len() && fields[i].name@ == name,
        position_of_id(fields, id) matches Some(i) ==> 0 <= i < fields.len() && fields[i].id == id,
        column_position(fields, name) matches Some(i) ==> i < column_count(fields),
        column_count(fields) <= fields.len(),
    decreases fields.len(),
{
    if fields.len() > 0 {
        lemma_positions(fields.drop_last(), name, id);
    }
}

impl Schema {
    /// The position of the field with the given name.
    pub fn field_by_name(&self, name: &String) -> (position: Option<usize>)
        ensures
            match position {
                Some(i) => position_of_name(self.fields@, name@) == Some(i as int) && i < self.fields@.len(),
                None => position_of_name(self.fields@, name@) is None,
            },
    {
        let mut i: usize = 0;
        while i < self.fields.len()
            invariant
                i <= self.fields@.len(),
                position_of_name(self.fields@.take(i as int), name@) is None,
            decreases self.fields@.len() - i,
        {
            assert(self.fields@.take(i + 1).drop_last() =~= self.fields@.take(i as int));
            if self.fields[i].name == *name {
                proof {
                    lemma_prefixes(self.fields@, i + 1, name@, 0);
                }
                return Some(i);
            }
            i += 1;
        }
        assert(self.fields@.take(i as int) =~= self.fields@);
        None
    }

    /// The id of the field with the given name.
    pub fn field_id_by_name(&self, name: &String) -> (id: Option<i32>)
        ensures
            id == match position_of_name(self.fields@, name@) {
                Some(i) => Some(self.fields@[i].id),
                None => None,
            },
    {
        match self.field_by_name(name) {
            Some(i) => Some(self.fields[i].id),
            None => None,
        }
    }

    /// The position of the field with the given id.
    pub fn field_by_id(&self, id: i32) -> (position: Option<usize>)
        ensures
            match position {
                Some(i) => position_of_id(self.fields@, id) == Some(i as int) && i < self.fields@.len(),
                None => position_of_id(self.fields@, id) is None,
            },
    {
        let mut i: usize = 0;
        while i < self.fields.len()
            invariant
                i <= self.fields@.len(),
                position_of_id(self.fields@.take(i as int), id) is None,
            decreases self.fields@.len() - i,
        {
            assert(self.fields@.take(i + 1).drop_last() =~= self.fields@.take(i as int));
            if self.fields[i].id == id {
                proof {
                    lemma_prefixes(self.fields@, i + 1, Seq::empty(), id);
                }
                return Some(i);
            }
            i += 1;
        }
        assert(self.fields@.take(i as int) =~= self.fields@);
        None
    }

    /// The position of the column with the given name.
    pub fn column_index(&self, name: &String) -> (index: Option<usize>)
        ensures
            match index {
                Some(i) => column_position(self.fields@, name@) == Some(i as nat),
                None => column_position(self.fields@, name@) is None,
            },
    {
        let mut columns: usize = 0;
        let mut i: usize = 0;
        while i < self.fields.len()
            invariant
                i <= self.fields@.len(),
                columns <= i,
                columns == column_count(self.fields@.take(i as int)),
                column_position(self.fields@.take(i as int), name@) is None,
            decreases self.fields@.len() - i,
        {
            assert(self.fields@.take(i + 1).drop_last() =~= self.fields@.take(i as int));
            if self.fields[i].top_level {
                if self.fields[i].name == *name {
                    proof {
                        lemma_prefixes(self.fields@, i + 1, name@, 0);
                    }
                    return Some(columns);
                }
                columns += 1;
            }
            i += 1;
        }
        assert(self.fields@.take(i as int) =~= self.fields@);
        None
    }

    /// The id of the column with the given name. Nested fields are not looked at.
    pub fn column_id_by_name(&self, name: &String) -> (id: Option<i32>)
        ensures
            id == match column_field(self.fields@, name@) {
                Some(i) => Some(self.fields@[i].id),
                None => None,
            },
    {
        let mut i: usize = 0;
        while i < self.fields.len()
            invariant
                i <= self.fields@.len(),
                column_field(self.fields@.take(i as int), name@) is None,
            decreases self.fields@.len() - i,
        {
            assert(self.fields@.take(i + 1).drop_last() =~= self.fields@.take(i as int));
            if self.fields[i].top_level && self.fields[i].name == *name {
                proof {
                    lemma_prefixes(self.fields@, i + 1, name@, 0);
                }
                return Some(self.fields[i].id);
            }
            i += 1;
        }
        assert(self.fields@.take(i as int) =~= self.fields@);
        None
    }

    /// The number of columns of the table.
    pub fn num_columns(&self) -> (count: usize)
        ensures
            count == column_count(self.fields@),
    {
        let mut columns: usize = 0;
        let mut i: usize = 0;
        while i < self.fields.len()
            invariant
                i <= self.fields@.len(),
                columns <= i,
                columns == column_count(self.fields@.take(i as int)),
            decreases self.fields@.len() - i,
        {
            assert(self.fields@.take(i + 1).drop_last() =~= self.fields@.take(i as int));
            if self.fields[i].top_level {
                columns += 1;
            }
            i += 1;
        }
        assert(self.fields@.take(i as int) =~= self.fields@);
        columns
    }
}

}
