//! Mathematical models of columnar data: cells, columns, batches, and the selections made of them.
use vstd::prelude::*;

verus! {

/// A value in a column. Cells of types that Arrow compares are equal exactly when its comparison
/// kernels and its row format treat the two values as equal.
pub enum Cell {
    /// The value of an integer or date column.
    Int(int),
    /// The value of a text column.
    Text(Seq<char>),
    /// A value of any other type, told apart by a number.
    Other(nat),
}

/// The kinds of column that the upsert logic tells apart.
#[derive(Clone, Copy, Debug, PartialEq, Eq, Structural)]
pub enum ColumnKind {
    /// 8-bit signed integers.
    Int8,
    /// 16-bit signed integers.
    Int16,
    /// 32-bit signed integers.
    Int32,
    /// 64-bit signed integers.
    Int64,
    /// 8-bit unsigned integers.
    UInt8,
    /// 16-bit unsigned integers.
    UInt16,
    /// 32-bit unsigned integers.
    UInt32,
    /// 64-bit unsigned integers.
    UInt64,
    /// Days since the epoch.
    Date32,
    /// Text with 32-bit offsets.
    Utf8,
    /// Text with 64-bit offsets.
    LargeUtf8,
    /// Any other type without child values.
    Plain,
    /// Dictionary-encoded values of a type that is neither nested nor encoded itself.
    Dictionary,
    /// Dictionaries of dictionary-encoded values of a type that is not nested.
    TwiceEncoded,
    /// Lists, structs, maps and unions, and dictionaries of these.
    Nested,
    /// Lists, maps and dense unions that hold dictionary-encoded values or list views at any depth,
    /// and structs and sparse unions of these.
    Tangled,
    /// Run-end encoded values, and types that hold these.
    RunEnd,
}

/// The outermost layer of a column's type.
#[derive(Clone, Copy, Debug, PartialEq, Eq, Structural)]
pub enum TypeShape {
    /// A type without values inside, of the given kind.
    Flat(ColumnKind),
    /// Dictionary-encoded values.
    Dictionary,
    /// Lists, maps and dense unions: the values of a row stand in a range of the values inside.
    List,
    /// List views: rows refer to any values inside.
    ListView,
    /// Structs and sparse unions: each row has one value in each of the columns inside.
    Struct,
    /// Run-end encoded values.
    RunEnd,
}

impl ColumnKind {
    /// Columns whose values are neither nested nor encoded, or are encoded by one dictionary.
    pub open spec fn spec_is_flat(self) -> bool {
        !(self is TwiceEncoded) && !(self is Nested) && !(self is Tangled) && !(self is RunEnd)
    }

    /// Whether the values are neither nested nor encoded, or are encoded by one dictionary.
    #[verifier::when_used_as_spec(spec_is_flat)]
    pub fn is_flat(self) -> (flat: bool)
        ensures
            flat == self.spec_is_flat(),
    {
        match self {
            ColumnKind::TwiceEncoded => false,
            ColumnKind::Nested => false,
            ColumnKind::Tangled => false,
            ColumnKind::RunEnd => false,
            _ => true,
        }
    }

    /// Columns whose values are neither nested nor run-end encoded.
    pub open spec fn spec_is_keyable(self) -> bool {
        self.is_flat() || self is TwiceEncoded
    }

    /// Whether the values are neither nested nor run-end encoded, so that keys can be made of them.
    #[verifier::when_used_as_spec(spec_is_keyable)]
    pub fn is_keyable(self) -> (keyable: bool)
        ensures
            keyable == self.spec_is_keyable(),
    {
        match self {
            ColumnKind::TwiceEncoded => true,
            _ => self.is_flat(),
        }
    }

    /// Columns from which rows can be selected.
    pub open spec fn spec_is_selectable(self) -> bool {
        !(self is Tangled) && !(self is RunEnd)
    }

    /// Whether rows can be selected from a column.
    #[verifier::when_used_as_spec(spec_is_selectable)]
    pub fn is_selectable(self) -> (selectable: bool)
        ensures
            selectable == self.spec_is_selectable(),
    {
        match self {
            ColumnKind::Tangled => false,
            ColumnKind::RunEnd => false,
            _ => true,
        }
    }

    /// Signed integers, dates among them.
    pub open spec fn spec_is_signed(self) -> bool {
        self is Int8 || self is Int16 || self is Int32 || self is Int64 || self is Date32
    }

    /// Whether the values are signed integers, dates among them.
    #[verifier::when_used_as_spec(spec_is_signed)]
    pub fn is_signed(self) -> (signed: bool)
        ensures
            signed == self.spec_is_signed(),
    {
        match self {
            ColumnKind::Int8 => true,
            ColumnKind::Int16 => true,
            ColumnKind::Int32 => true,
            ColumnKind::Int64 => true,
            ColumnKind::Date32 => true,
            _ => false,
        }
    }

    /// Unsigned integers.
    pub open spec fn spec_is_unsigned(self) -> bool {
        self is UInt8 || self is UInt16 || self is UInt32 || self is UInt64
    }

    /// Whether the values are unsigned integers.
    #[verifier::when_used_as_spec(spec_is_unsigned)]
    pub fn is_unsigned(self) -> (unsigned: bool)
        ensures
            unsigned == self.spec_is_unsigned(),
    {
        match self {
            ColumnKind::UInt8 => true,
            ColumnKind::UInt16 => true,
            ColumnKind::UInt32 => true,
            ColumnKind::UInt64 => true,
            _ => false,
        }
    }

    /// The integers that a column of this kind can hold.
    pub open spec fn holds_int(self, v: int) -> bool {
        match self {
            ColumnKind::Int8 => i8::MIN <= v <= i8::MAX,
            ColumnKind::Int16 => i16::MIN <= v <= i16::MAX,
            ColumnKind::Int32 => i32::MIN <= v <= i32::MAX,
            ColumnKind::Date32 => i32::MIN <= v <= i32::MAX,
            ColumnKind::Int64 => i64::MIN <= v <= i64::MAX,
            ColumnKind::UInt8 => 0 <= v <= u8::MAX,
            ColumnKind::UInt16 => 0 <= v <= u16::MAX,
            ColumnKind::UInt32 => 0 <= v <= u32::MAX,
            ColumnKind::UInt64 => 0 <= v <= u64::MAX,
            _ => false,
        }
    }
}

/// The data type of a column: its kind, and a number that tells types of one kind apart.
pub struct TypeModel {
    /// What the upsert logic distinguishes.
    pub kind: ColumnKind,
    /// Equal for equal types.
    pub number: nat,
}

/// A field of a batch's schema.
pub struct FieldModel {
    /// The column's name.
    pub name: Seq<char>,
    /// The declared data type.
    pub data_type: TypeModel,
    /// Whether the column may hold nulls.
    pub nullable: bool,
    /// The field's key-value metadata.
    pub metadata: Map<Seq<char>, Seq<char>>,
}

/// A column of a batch: its field, the type of its array, and its cells from the first row to the
/// last. The type of a nested array may differ from its field's in what the field declares of the
/// values inside.
pub struct ColumnModel {
    /// The schema field.
    pub field: FieldModel,
    /// The type of the array.
    pub data_type: TypeModel,
    /// One cell for each row, `None` where the value is null.
    pub cells: Seq<Option<Cell>>,
}

/// A batch of rows, held by column.
pub struct BatchModel {
    /// The columns in schema order.
    pub columns: Seq<ColumnModel>,
    /// The number of rows.
    pub rows: nat,
    /// The key-value metadata of the schema.
    pub metadata: Map<String, String>,
}

/// A row, or the values of some of its columns.
pub type Row = Seq<Option<Cell>>;

impl BatchModel {
    /// Every column has one cell for each row.
    pub open spec fn wf(self) -> bool {
        forall|c: int| 0 <= c < self.columns.len() ==> (#[trigger] self.columns[c]).cells.len() == self.rows
    }

    /// The values of row `r` in all columns.
    pub open spec fn row(self, r: int) -> Row {
        Seq::new(self.columns.len(), |c: int| self.columns[c].cells[r])
    }

    /// All rows in order.
    pub open spec fn all_rows(self) -> Seq<Row> {
        Seq::new(self.rows, |r: int| self.row(r))
    }

    /// The values of row `r` in the columns that `indices` names.
    pub open spec fn project(self, indices: Seq<usize>, r: int) -> Row {
        Seq::new(indices.len(), |k: int| self.columns[indices[k] as int].cells[r])
    }

    /// The key of every row, or no key at all where no column is a key column.
    pub open spec fn keys(self, indices: Seq<usize>) -> Seq<Row> {
        if indices.len() == 0 {
            Seq::empty()
        } else {
            Seq::new(self.rows, |r: int| self.project(indices, r))
        }
    }

    /// The types of the columns that `indices` names.
    pub open spec fn types(self, indices: Seq<usize>) -> Seq<TypeModel> {
        Seq::new(indices.len(), |k: int| self.columns[indices[k] as int].data_type)
    }

    /// The batch made of the given rows of this one.
    pub open spec fn select(self, rows: Seq<int>) -> BatchModel {
        BatchModel {
            columns: Seq::new(
                self.columns.len(),
                |c: int|
                    ColumnModel {
                        field: self.columns[c].field,
                        data_type: self.columns[c].data_type,
                        cells: Seq::new(rows.len(), |j: int| self.columns[c].cells[rows[j]]),
                    },
            ),
            rows: rows.len(),
            metadata: self.metadata,
        }
    }

    /// Rows can be selected from every column of the batch.
    pub open spec fn selectable(self) -> bool {
        forall|c: int|
            0 <= c < self.columns.len() ==> (#[trigger] self.columns[c]).data_type.kind.is_selectable()
    }
}

/// Every index names a column of the batch.
pub open spec fn in_columns(indices: Seq<usize>, batch: BatchModel) -> bool {
    forall|k: int| 0 <= k < indices.len() ==> #[trigger] indices[k] < batch.columns.len()
}

/// No type is nested or run-end encoded.
pub open spec fn all_keyable(types: Seq<TypeModel>) -> bool {
    forall|k: int| 0 <= k < types.len() ==> (#[trigger] types[k]).kind.is_keyable()
}

/// The positions at which a mask is true, in ascending order.
pub open spec fn selected(mask: Seq<bool>) -> Seq<int>
    decreases mask.len(),
{
    if mask.len() == 0 {
        Seq::empty()
    } else if mask.last() {
        selected(mask.drop_last()).push(mask.len() - 1)
    } else {
        selected(mask.drop_last())
    }
}

/// What [`selected`] lists, said without recursion.
pub proof fn lemma_selected(mask: Seq<bool>)
    ensures
        selected(mask).len() <= mask.len(),
        forall|j: int|
            0 <= j < selected(mask).len() ==> 0 <= #[trigger] selected(mask)[j] < mask.len()
                && mask[selected(mask)[j]],
        forall|j: int, k: int|
            0 <= j < k < selected(mask).len() ==> #[trigger] selected(mask)[j] < #[trigger] selected(mask)[k],
        forall|i: int| 0 <= i < mask.len() && #[trigger] mask[i] ==> selected(mask).contains(i),
    decreases mask.len(),
{
    if mask.len() > 0 {
        let rest = mask.drop_last();
        lemma_selected(rest);
        assert forall|i: int| 0 <= i < mask.len() && #[trigger] mask[i] implies selected(mask).contains(i) by {
            if i == mask.len() - 1 {
                assert(selected(mask).last() == i);
            } else {
                assert(rest[i]);
                let j = choose|j: int| 0 <= j < selected(rest).len() && selected(rest)[j] == i;
                assert(selected(mask)[j] == i);
            }
        }
        assert forall|j: int| 0 <= j < selected(mask).len() implies 0 <= #[trigger] selected(mask)[j] < mask.len()
            && mask[selected(mask)[j]] by {
            if j < selected(rest).len() {
                assert(rest[selected(rest)[j]]);
            }
        }
    }
}

/// The mask is true everywhere or nowhere.
pub open spec fn is_whole(mask: Seq<bool>) -> bool {
    count_true(mask) == 0 || count_true(mask) == mask.len()
}

/// The number of positions at which a mask is true.
pub open spec fn count_true(mask: Seq<bool>) -> nat {
    selected(mask).len()
}

/// A mask and its negation select each position once.
pub proof fn lemma_count_complement(mask: Seq<bool>)
    ensures
        count_true(mask) + count_true(mask.map_values(|b: bool| !b)) == mask.len(),
    decreases mask.len(),
{
    if mask.len() > 0 {
        lemma_count_complement(mask.drop_last());
        assert(mask.map_values(|b: bool| !b).drop_last() =~= mask.drop_last().map_values(|b: bool| !b));
    }
}

/// The last position at which `key` occurs in `keys`.
pub open spec fn last_index_of(keys: Seq<Row>, key: Row) -> Option<int>
    decreases keys.len(),
{
    if keys.len() == 0 {
        None
    } else if keys.last() == key {
        Some(keys.len() - 1)
    } else {
        last_index_of(keys.drop_last(), key)
    }
}

/// What [`last_index_of`] finds, said without recursion.
pub proof fn lemma_last_index_of(keys: Seq<Row>, key: Row)
    ensures
        match last_index_of(keys, key) {
            Some(i) => 0 <= i < keys.len() && keys[i] == key && forall|j: int|
                i < j < keys.len() ==> #[trigger] keys[j] != key,
            None => forall|j: int| 0 <= j < keys.len() ==> #[trigger] keys[j] != key,
        },
    decreases keys.len(),
{
    if keys.len() > 0 && keys.last() != key {
        lemma_last_index_of(keys.drop_last(), key);
        assert forall|j: int| 0 <= j < keys.len() - 1 implies #[trigger] keys[j] == keys.drop_last()[j] by {}
    }
}

/// No key occurs twice.
pub open spec fn distinct(keys: Seq<Row>) -> bool {
    forall|i: int, j: int| 0 <= i < j < keys.len() ==> keys[i] != keys[j]
}

/// Whether text `a` comes before text `b`, or is equal to it, in the order of code points.
pub open spec fn text_le(a: Seq<char>, b: Seq<char>) -> bool
    decreases a.len(),
{
    if a.len() == 0 {
        true
    } else if b.len() == 0 {
        false
    } else if a[0] == b[0] {
        text_le(a.drop_first(), b.drop_first())
    } else {
        a[0] < b[0]
    }
}

/// The bytes that the texts at the given positions take together.
pub open spec fn text_bytes(cells: Seq<Option<Cell>>, indices: Seq<u32>) -> nat
    decreases indices.len(),
{
    if indices.len() == 0 {
        0
    } else {
        text_bytes(cells, indices.drop_last()) + match cells[indices.last() as int] {
            Some(Cell::Text(s)) => vstd::utf8::encode_utf8(s).len(),
            _ => 0,
        }
    }
}

}
