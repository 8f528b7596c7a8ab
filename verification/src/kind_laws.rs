//! Which kinds of column can be keys, be compared, and have rows selected from them.
use vstd::prelude::*;

use crate::columnar::Batch;
use crate::model::ColumnKind;

verus! {

/// Signed are the signed integers and dates, and unsigned the unsigned integers. Flat are all kinds
/// but nested and run-end encoded ones and those encoded by two dictionaries. Keys can be of all kinds
/// but nested and run-end encoded ones. And rows can be selected from all kinds but run-end encoded
/// ones and those that are nested in the way that stands against it.
pub proof fn kinds_are_told_apart(
    kind: ColumnKind,
    signed: bool,
    unsigned: bool,
    flat: bool,
    keyable: bool,
    selectable: bool,
)
    requires
        call_ensures(ColumnKind::is_signed, (kind,), signed),
        call_ensures(ColumnKind::is_unsigned, (kind,), unsigned),
        call_ensures(ColumnKind::is_flat, (kind,), flat),
        call_ensures(ColumnKind::is_keyable, (kind,), keyable),
        call_ensures(ColumnKind::is_selectable, (kind,), selectable),
    ensures
        signed <==> kind == ColumnKind::Int8 || kind == ColumnKind::Int16 || kind == ColumnKind::Int32 || kind
            == ColumnKind::Int64 || kind == ColumnKind::Date32,
        unsigned <==> kind == ColumnKind::UInt8 || kind == ColumnKind::UInt16 || kind == ColumnKind::UInt32
            || kind == ColumnKind::UInt64,
        flat <==> signed || unsigned || kind == ColumnKind::Utf8 || kind == ColumnKind::LargeUtf8 || kind
            == ColumnKind::Plain || kind == ColumnKind::Dictionary,
        keyable <==> flat || kind == ColumnKind::TwiceEncoded,
        selectable <==> keyable || kind == ColumnKind::Nested,
{
}

/// Columns can serve as keys where they are there and neither nested nor run-end encoded; and rows can
/// be selected from a batch without run-end encoded columns and such nested ones that stand against
/// it.
pub proof fn batches_have_key_columns_and_rows_to_select(
    batch: &Batch,
    indices: &[usize],
    keyable: bool,
    selectable: bool,
    rows: usize,
    columns: usize,
)
    requires
        call_ensures(Batch::has_key_columns, (batch, indices), keyable),
        call_ensures(Batch::is_selectable, (batch,), selectable),
        call_ensures(Batch::num_rows, (batch,), rows),
        call_ensures(Batch::num_columns, (batch,), columns),
    ensures
        keyable <==> forall|k: int|
            0 <= k < indices@.len() ==> #[trigger] indices@[k] < batch@.columns.len() && {
                let kind = batch@.columns[indices@[k] as int].data_type.kind;
                !(kind is Nested) && !(kind is Tangled) && !(kind is RunEnd)
            },
        selectable <==> forall|c: int|
            0 <= c < batch@.columns.len() ==> {
                let kind = (#[trigger] batch@.columns[c]).data_type.kind;
                !(kind is Tangled) && !(kind is RunEnd)
            },
        rows == batch@.rows,
        columns == batch@.columns.len(),
{
    let types = batch@.types(indices@);
    assert forall|k: int| 0 <= k < indices@.len() implies #[trigger] indices@[k] == indices@[k] && types[k]
        == batch@.columns[indices@[k] as int].data_type by {}
    if keyable {
        assert forall|k: int| 0 <= k < indices@.len() implies #[trigger] indices@[k] < batch@.columns.len() && {
            let kind = batch@.columns[indices@[k] as int].data_type.kind;
            !(kind is Nested) && !(kind is Tangled) && !(kind is RunEnd)
        } by {
            assert(types[k].kind.is_keyable());
        }
    }
}

}
