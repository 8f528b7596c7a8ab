//! Row predicates over named columns, used to prune the files of a scan.
use vstd::prelude::*;

use crate::data_file::{LiteralModel, PrimitiveLiteral};
use crate::model::{text_le, Cell};
use crate::schema::PrimitiveType;

verus! {

/// A value with its type, such as a literal in a predicate.
#[derive(Debug)]
pub struct Datum {
    /// The type of the value.
    pub data_type: PrimitiveType,
    /// The value.
    pub literal: PrimitiveLiteral,
}

/// What a value with its type is.
pub struct DatumModel {
    /// The type of the value.
    pub data_type: PrimitiveType,
    /// The value.
    pub literal: LiteralModel,
}

impl View for Datum {
    type V = DatumModel;

    open spec fn view(&self) -> DatumModel {
        DatumModel { data_type: self.data_type, literal: self.literal@ }
    }
}

impl DatumModel {
    /// A 32-bit integer.
    pub open spec fn of_int(v: int) -> DatumModel {
        DatumModel { data_type: PrimitiveType::Int, literal: LiteralModel::Int(v) }
    }

    /// A 64-bit integer.
    pub open spec fn of_long(v: int) -> DatumModel {
        DatumModel { data_type: PrimitiveType::Long, literal: LiteralModel::Long(v) }
    }

    /// A date, in days since the epoch.
    pub open spec fn of_date(v: int) -> DatumModel {
        DatumModel { data_type: PrimitiveType::Date, literal: LiteralModel::Int(v) }
    }

    /// A text.
    pub open spec fn of_string(v: Seq<char>) -> DatumModel {
        DatumModel { data_type: PrimitiveType::String, literal: LiteralModel::String(v) }
    }
}

impl Clone for Datum {
    fn clone(&self) -> (copy: Self)
        ensures
            copy@ == self@,
    {
        Datum { data_type: self.data_type, literal: self.literal.copy() }
    }
}

impl Datum {
    /// A 32-bit integer.
    pub fn of_int(value: i32) -> (datum: Self)
        ensures
            datum@ == DatumModel::of_int(value as int),
    {
        Datum { data_type: PrimitiveType::Int, literal: PrimitiveLiteral::Int(value) }
    }

    /// A 64-bit integer.
    pub fn of_long(value: i64) -> (datum: Self)
        ensures
            datum@ == DatumModel::of_long(value as int),
    {
        Datum { data_type: PrimitiveType::Long, literal: PrimitiveLiteral::Long(value) }
    }

    /// A date, in days since the epoch.
    pub fn of_date(value: i32) -> (datum: Self)
        ensures
            datum@ == DatumModel::of_date(value as int),
    {
        Datum { data_type: PrimitiveType::Date, literal: PrimitiveLiteral::Int(value) }
    }

    /// A text.
    pub fn of_string(value: String) -> (datum: Self)
        ensures
            datum@ == DatumModel::of_string(value@),
    {
        Datum { data_type: PrimitiveType::String, literal: PrimitiveLiteral::String(value) }
    }

    /// Whether the two are the same value of the same type.
    pub fn same(&self, other: &Self) -> (same: bool)
        ensures
            same == (self@ == other@),
    {
        self.data_type == other.data_type && self.literal.same(&other.literal)
    }
}

/// What a predicate asks of a column's value alone.
#[derive(Clone, Copy, Debug, PartialEq, Eq, Structural)]
pub enum UnaryOperator {
    /// The value is null.
    IsNull,
    /// The value is not null.
    NotNull,
    /// The value is `NaN`.
    IsNan,
    /// The value is not `NaN`.
    NotNan,
}

/// How a column's value is compared with a literal.
#[derive(Clone, Copy, Debug, PartialEq, Eq, Structural)]
pub enum BinaryOperator {
    /// `<`
    LessThan,
    /// `<=`
    LessThanOrEq,
    /// `>`
    GreaterThan,
    /// `>=`
    GreaterThanOrEq,
    /// `=`
    Eq,
    /// `!=`
    NotEq,
    /// The text starts with the literal.
    StartsWith,
    /// The text does not start with the literal.
    NotStartsWith,
}

/// A predicate on rows.
#[derive(Debug)]
pub enum Predicate {
    /// Every row.
    AlwaysTrue,
    /// No row.
    AlwaysFalse,
    /// The rows that both predicates admit.
    And(Box<Predicate>, Box<Predicate>),
    /// The rows that either predicate admits.
    Or(Box<Predicate>, Box<Predicate>),
    /// The rows that the predicate does not admit.
    Not(Box<Predicate>),
    /// The rows whose value in the column `term` passes the test.
    Unary {
        /// What is asked of the value.
        test: UnaryOperator,
        /// The column's name.
        term: String,
    },
    /// The rows whose value in the column `term` compares with the literal.
    Binary {
        /// The comparison.
        op: BinaryOperator,
        /// The column's name.
        term: String,
        /// The literal on the right.
        literal: Datum,
    },
    /// The rows whose value in the column `term` is among the literals.
    In {
        /// The column's name.
        term: String,
        /// The literals, in any order.
        literals: Vec<Datum>,
    },
    /// The rows whose value in the column `term` is not among the literals.
    NotIn {
        /// The column's name.
        term: String,
        /// The literals, in any order.
        literals: Vec<Datum>,
    },
}

/// What a predicate says.
pub enum PredicateModel {
    /// Every row.
    AlwaysTrue,
    /// No row.
    AlwaysFalse,
    /// The rows that both predicates admit.
    And(Box<PredicateModel>, Box<PredicateModel>),
    /// The rows that either predicate admits.
    Or(Box<PredicateModel>, Box<PredicateModel>),
    /// The rows that the predicate does not admit.
    Not(Box<PredicateModel>),
    /// The rows whose value in the column passes the test.
    Unary(UnaryOperator, Seq<char>),
    /// The rows whose value in the column compares with the literal.
    Binary(BinaryOperator, Seq<char>, DatumModel),
    /// The rows whose value in the column is among the literals.
    In(Seq<char>, Set<DatumModel>),
    /// The rows whose value in the column is not among the literals.
    NotIn(Seq<char>, Set<DatumModel>),
}

/// The literals of a list as a set.
pub open spec fn datum_set(literals: Seq<Datum>) -> Set<DatumModel> {
    literals.map_values(|d: Datum| d@).to_set()
}

impl Predicate {
    /// What the predicate says.
    pub open spec fn model(&self) -> PredicateModel
        decreases self,
    {
        match self {
            Predicate::AlwaysTrue => PredicateModel::AlwaysTrue,
            Predicate::AlwaysFalse => PredicateModel::AlwaysFalse,
            Predicate::And(a, b) => PredicateModel::And(Box::new(a.model()), Box::new(b.model())),
            Predicate::Or(a, b) => PredicateModel::Or(Box::new(a.model()), Box::new(b.model())),
            Predicate::Not(a) => PredicateModel::Not(Box::new(a.model())),
            Predicate::Unary { test, term } => PredicateModel::Unary(*test, term@),
            Predicate::Binary { op, term, literal } => PredicateModel::Binary(*op, term@, literal@),
            Predicate::In { term, literals } => PredicateModel::In(term@, datum_set(literals@)),
            Predicate::NotIn { term, literals } => PredicateModel::NotIn(term@, datum_set(literals@)),
        }
    }

    /// The conjunction of two predicates.
    pub fn and(self, other: Predicate) -> (both: Predicate)
        ensures
            both.model() == PredicateModel::And(Box::new(self.model()), Box::new(other.model())),
    {
        Predicate::And(Box::new(self), Box::new(other))
    }
}

fn copy_literals(literals: &Vec<Datum>) -> (copy: Vec<Datum>)
    ensures
        datum_set(copy@) == datum_set(literals@),
{
    let ghost value = |d: Datum| d@;
    let mut copy: Vec<Datum> = Vec::new();
    let mut i: usize = 0;
    while i < literals.len()
        invariant
            i <= literals@.len(),
            value == (|d: Datum| d@),
            copy@.map_values(value) == literals@.map_values(value).take(i as int),
        decreases literals@.len() - i,
    {
        let ghost before = copy@;
        copy.push(literals[i].clone());
        assert(copy@.map_values(value) =~= before.map_values(value).push(value(copy@[i as int])));
        assert(literals@.map_values(value).take(i + 1) =~= literals@.map_values(value).take(i as int).push(
            value(literals@[i as int]),
        ));
        i += 1;
    }
    assert(literals@.map_values(value).take(i as int) =~= literals@.map_values(value));
    copy
}

impl Clone for Predicate {
    fn clone(&self) -> (copy: Self)
        ensures
            copy.model() == self.model(),
        decreases self,
    {
        match self {
            Predicate::AlwaysTrue => Predicate::AlwaysTrue,
            Predicate::AlwaysFalse => Predicate::AlwaysFalse,
            Predicate::And(a, b) => Predicate::And(Box::new((&**a).clone()), Box::new((&**b).clone())),
            Predicate::Or(a, b) => Predicate::Or(Box::new((&**a).clone()), Box::new((&**b).clone())),
            Predicate::Not(a) => Predicate::Not(Box::new((&**a).clone())),
            Predicate::Unary { test, term } => Predicate::Unary { test: *test, term: term.clone() },
            Predicate::Binary { op, term, literal } => Predicate::Binary {
                op: *op,
                term: term.clone(),
                literal: literal.clone(),
            },
            Predicate::In { term, literals } => Predicate::In {
                term: term.clone(),
                literals: copy_literals(literals),
            },
            Predicate::NotIn { term, literals } => Predicate::NotIn {
                term: term.clone(),
                literals: copy_literals(literals),
            },
        }
    }
}

/// A row as the predicates see it: the values of its columns by name, `None` for null.
pub type NamedRow = Map<Seq<char>, Option<Cell>>;

/// The value of the row in a column, null where the row has no such column.
pub open spec fn value_at(row: NamedRow, term: Seq<char>) -> Option<Cell> {
    if row.contains_key(term) {
        row[term]
    } else {
        None
    }
}

/// The integer that a literal of an integer or date type stands for.
pub open spec fn int_literal(literal: DatumModel) -> Option<int> {
    match (literal.data_type, literal.literal) {
        (PrimitiveType::Int, LiteralModel::Int(v)) => Some(v),
        (PrimitiveType::Long, LiteralModel::Long(v)) => Some(v),
        (PrimitiveType::Date, LiteralModel::Int(v)) => Some(v),
        _ => None,
    }
}

/// The text that a literal of the text type stands for.
pub open spec fn text_literal(literal: DatumModel) -> Option<Seq<char>> {
    match (literal.data_type, literal.literal) {
        (PrimitiveType::String, LiteralModel::String(v)) => Some(v),
        _ => None,
    }
}

/// The cell and the literal are both integers or dates, or both texts.
pub open spec fn can_compare(cell: Cell, literal: DatumModel) -> bool {
    match cell {
        Cell::Int(_) => int_literal(literal) is Some,
        Cell::Text(_) => text_literal(literal) is Some,
        Cell::Other(_) => false,
    }
}

/// The cell has the value of the literal.
pub open spec fn cell_is(cell: Cell, literal: DatumModel) -> bool {
    match cell {
        Cell::Int(c) => int_literal(literal) == Some(c),
        Cell::Text(c) => text_literal(literal) == Some(c),
        Cell::Other(_) => false,
    }
}

/// The cell is not greater than the literal.
pub open spec fn cell_at_most(cell: Cell, literal: DatumModel) -> bool {
    match cell {
        Cell::Int(c) => int_literal(literal) matches Some(v) && c <= v,
        Cell::Text(c) => text_literal(literal) matches Some(v) && text_le(c, v),
        Cell::Other(_) => false,
    }
}

/// The cell is not less than the literal.
pub open spec fn cell_at_least(cell: Cell, literal: DatumModel) -> bool {
    match cell {
        Cell::Int(c) => int_literal(literal) matches Some(v) && v <= c,
        Cell::Text(c) => text_literal(literal) matches Some(v) && text_le(v, c),
        Cell::Other(_) => false,
    }
}

/// The cell is a text that starts with the literal.
pub open spec fn cell_starts_with(cell: Cell, literal: DatumModel) -> bool {
    match cell {
        Cell::Text(c) => text_literal(literal) matches Some(v) && v.is_prefix_of(c),
        _ => false,
    }
}

/// Whether the value passes the test, where cells show it.
pub open spec fn answers(test: UnaryOperator, value: Option<Cell>) -> Option<bool> {
    match test {
        UnaryOperator::IsNull => Some(value is None),
        UnaryOperator::NotNull => Some(value is Some),
        UnaryOperator::IsNan => if value matches Some(Cell::Other(_)) {
            None
        } else {
            Some(false)
        },
        UnaryOperator::NotNan => if value matches Some(Cell::Other(_)) {
            None
        } else {
            Some(true)
        },
    }
}

/// Whether the value compares with the literal, where cells show it. A null compares with nothing.
pub open spec fn compares(op: BinaryOperator, value: Option<Cell>, literal: DatumModel) -> Option<bool> {
    match value {
        None => Some(false),
        Some(cell) => if !can_compare(cell, literal) {
            None
        } else {
            Some(
                match op {
                    BinaryOperator::LessThan => cell_at_most(cell, literal) && !cell_is(cell, literal),
                    BinaryOperator::LessThanOrEq => cell_at_most(cell, literal),
                    BinaryOperator::GreaterThan => cell_at_least(cell, literal) && !cell_is(cell, literal),
                    BinaryOperator::GreaterThanOrEq => cell_at_least(cell, literal),
                    BinaryOperator::Eq => cell_is(cell, literal),
                    BinaryOperator::NotEq => !cell_is(cell, literal),
                    BinaryOperator::StartsWith => cell_starts_with(cell, literal),
                    BinaryOperator::NotStartsWith => !cell_starts_with(cell, literal),
                },
            )
        },
    }
}

/// Whether the value is one of the literals, where cells show it. A null is none of them.
pub open spec fn among(value: Option<Cell>, literals: Set<DatumModel>) -> Option<bool> {
    match value {
        None => Some(false),
        Some(cell) => if exists|d: DatumModel| #[trigger] literals.contains(d) && cell_is(cell, d) {
            Some(true)
        } else if forall|d: DatumModel| #[trigger] literals.contains(d) ==> can_compare(cell, d) {
            Some(false)
        } else {
            None
        },
    }
}

/// Whether the value is none of the literals, where cells show it. A null is not compared.
pub open spec fn outside(value: Option<Cell>, literals: Set<DatumModel>) -> Option<bool> {
    match value {
        None => Some(false),
        Some(_) => negated(among(value, literals)),
    }
}

/// The negation of a verdict, unknown for unknown.
pub open spec fn negated(verdict: Option<bool>) -> Option<bool> {
    match verdict {
        Some(v) => Some(!v),
        None => None,
    }
}

/// The conjunction of two verdicts, in which false wins over unknown.
pub open spec fn conjoined(a: Option<bool>, b: Option<bool>) -> Option<bool> {
    if a == Some(false) || b == Some(false) {
        Some(false)
    } else if a == Some(true) && b == Some(true) {
        Some(true)
    } else {
        None
    }
}

impl PredicateModel {
    /// What the predicate says of the row: whether it admits it, or `None` where a value is
    /// compared that cells do not show. A column that the row lacks counts as null.
    pub open spec fn verdict(&self, row: NamedRow) -> Option<bool>
        decreases self,
    {
        match self {
            PredicateModel::AlwaysTrue => Some(true),
            PredicateModel::AlwaysFalse => Some(false),
            PredicateModel::And(a, b) => conjoined(a.verdict(row), b.verdict(row)),
            PredicateModel::Or(a, b) => negated(
                conjoined(negated(a.verdict(row)), negated(b.verdict(row))),
            ),
            PredicateModel::Not(a) => negated(a.verdict(row)),
            PredicateModel::Unary(test, term) => answers(*test, value_at(row, *term)),
            PredicateModel::Binary(op, term, literal) => compares(*op, value_at(row, *term), *literal),
            PredicateModel::In(term, literals) => among(value_at(row, *term), *literals),
            PredicateModel::NotIn(term, literals) => outside(value_at(row, *term), *literals),
        }
    }

    /// The predicate admits the row.
    pub open spec fn admits(&self, row: NamedRow) -> bool {
        self.verdict(row) == Some(true)
    }
}

}
