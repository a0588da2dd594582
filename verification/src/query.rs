//! The aggregation that groups line items by their two key bytes.

use vstd::prelude::*;
use crate::error::FormatError;
use crate::line_item::{
    discount_of, extendedprice_of, get_state_index, linestatus_of, quantity_of, returnflag_of,
    sort_key, tax_of, LineItem,
};
use crate::reader::ByteReader;
use crate::row_group::{
    lemma_row_group_round_trip, read_row_group, row_group_bytes, row_group_end,
    row_group_error, rows_at, RowGroup, MAX_ROW_GROUP_SIZE,
};
use crate::run_cursor::RunCursor;
use crate::sort::{is_stable_sort_of, with_key};
use crate::runs::{expand, lemma_expand_len, total};
use crate::u16_column::{lemma_sum_bound, sum, sum_u16s};

verus! {

/// Number of slots in the aggregation table: one for every pair of key bytes.
pub const STATE_SLOTS: usize = 65536;

/// What has been added up for one pair of key bytes: the number of rows and
/// the sums of their four measures, in hundredths.
#[derive(Debug, PartialEq, Eq, Clone, Copy, Structural)]
pub struct QueryOneStateColumn {
    pub count: u64,
    pub sum_qty: u64,
    pub sum_base_price: u64,
    pub sum_discount: u64,
    pub sum_tax: u64,
}

impl Default for QueryOneStateColumn {
    fn default() -> (state: Self)
        ensures
            state == (QueryOneStateColumn {
                count: 0,
                sum_qty: 0,
                sum_base_price: 0,
                sum_discount: 0,
                sum_tax: 0,
            }),
    {
        QueryOneStateColumn { count: 0, sum_qty: 0, sum_base_price: 0, sum_discount: 0, sum_tax: 0 }
    }
}

/// The number of rows with one key, and the sums of their measures.
pub struct SlotTotals {
    pub count: nat,
    pub sum_qty: nat,
    pub sum_base_price: nat,
    pub sum_discount: nat,
    pub sum_tax: nat,
}

impl SlotTotals {
    /// No rows.
    pub open spec fn zero() -> SlotTotals {
        SlotTotals { count: 0, sum_qty: 0, sum_base_price: 0, sum_discount: 0, sum_tax: 0 }
    }

    /// These totals and those of `other` together.
    pub open spec fn plus(self, other: SlotTotals) -> SlotTotals {
        SlotTotals {
            count: self.count + other.count,
            sum_qty: self.sum_qty + other.sum_qty,
            sum_base_price: self.sum_base_price + other.sum_base_price,
            sum_discount: self.sum_discount + other.sum_discount,
            sum_tax: self.sum_tax + other.sum_tax,
        }
    }

    /// The totals of one row.
    pub open spec fn of_row(row: LineItem) -> SlotTotals {
        SlotTotals {
            count: 1,
            sum_qty: row.l_quantity as nat,
            sum_base_price: row.l_extendedprice as nat,
            sum_discount: row.l_discount as nat,
            sum_tax: row.l_tax as nat,
        }
    }

    /// Whether each of these totals is at most the like total of `other`.
    pub open spec fn within(self, other: SlotTotals) -> bool {
        &&& self.count <= other.count
        &&& self.sum_qty <= other.sum_qty
        &&& self.sum_base_price <= other.sum_base_price
        &&& self.sum_discount <= other.sum_discount
        &&& self.sum_tax <= other.sum_tax
    }
}

/// The totals of the rows whose key is `slot`.
pub open spec fn slot_totals(rows: Seq<LineItem>, slot: int) -> SlotTotals
    decreases rows.len(),
{
    if rows.len() == 0 {
        SlotTotals::zero()
    } else if sort_key(rows.last()) == slot {
        slot_totals(rows.drop_last(), slot).plus(SlotTotals::of_row(rows.last()))
    } else {
        slot_totals(rows.drop_last(), slot)
    }
}

/// The totals that a slot stands for: those of no rows where it is empty.
pub open spec fn totals_of(state: Option<QueryOneStateColumn>) -> SlotTotals {
    match state {
        Some(s) => SlotTotals {
            count: s.count as nat,
            sum_qty: s.sum_qty as nat,
            sum_base_price: s.sum_base_price as nat,
            sum_discount: s.sum_discount as nat,
            sum_tax: s.sum_tax as nat,
        },
        None => SlotTotals::zero(),
    }
}

/// Whether the totals can be added to the slot without leaving `u64`.
pub open spec fn fits_slot(before: Option<QueryOneStateColumn>, totals: SlotTotals) -> bool {
    let sum = totals_of(before).plus(totals);
    &&& sum.count <= u64::MAX
    &&& sum.sum_qty <= u64::MAX
    &&& sum.sum_base_price <= u64::MAX
    &&& sum.sum_discount <= u64::MAX
    &&& sum.sum_tax <= u64::MAX
}

/// The slot after the totals of some rows were added to it. A slot stays as
/// it is, empty or not, where no row has its key.
pub open spec fn accumulate(before: Option<QueryOneStateColumn>, totals: SlotTotals) -> Option<
    QueryOneStateColumn,
> {
    if totals.count == 0 {
        before
    } else {
        let sum = totals_of(before).plus(totals);
        Some(
            QueryOneStateColumn {
                count: sum.count as u64,
                sum_qty: sum.sum_qty as u64,
                sum_base_price: sum.sum_base_price as u64,
                sum_discount: sum.sum_discount as u64,
                sum_tax: sum.sum_tax as u64,
            },
        )
    }
}

/// Whether `after` is `before` with the rows added: slot by slot, the totals
/// of the rows with the slot's key.
pub open spec fn accumulated(
    before: Seq<Option<QueryOneStateColumn>>,
    rows: Seq<LineItem>,
    after: Seq<Option<QueryOneStateColumn>>,
) -> bool {
    &&& after.len() == before.len()
    &&& forall|slot: int|
        0 <= slot < after.len() ==> #[trigger] after[slot] == accumulate(
            before[slot],
            slot_totals(rows, slot),
        )
}

/// Whether the rows can be added to the table without leaving `u64` in any slot.
pub open spec fn fits_state(state: Seq<Option<QueryOneStateColumn>>, rows: Seq<LineItem>) -> bool {
    forall|slot: int|
        0 <= slot < state.len() ==> fits_slot(#[trigger] state[slot], slot_totals(rows, slot))
}

/// The totals of two stretches of rows that follow each other.
pub proof fn lemma_slot_totals_concat(front: Seq<LineItem>, back: Seq<LineItem>, slot: int)
    ensures
        slot_totals(front + back, slot) == slot_totals(front, slot).plus(slot_totals(back, slot)),
    decreases back.len(),
{
    if back.len() == 0 {
        assert(front + back =~= front);
    } else {
        lemma_slot_totals_concat(front, back.drop_last(), slot);
        assert((front + back).drop_last() =~= front + back.drop_last());
    }
}

/// Rows of one key count for that key alone: there they are all the rows,
/// and the measures are those of all the rows.
pub proof fn lemma_slot_totals_uniform(rows: Seq<LineItem>, key: int, slot: int)
    requires
        forall|i: int| 0 <= i < rows.len() ==> sort_key(#[trigger] rows[i]) == key,
    ensures
        slot != key ==> slot_totals(rows, slot) == SlotTotals::zero(),
        slot == key ==> slot_totals(rows, slot) == (SlotTotals {
            count: rows.len(),
            sum_qty: sum(quantity_of(rows)),
            sum_base_price: sum(extendedprice_of(rows)),
            sum_discount: sum(discount_of(rows)),
            sum_tax: sum(tax_of(rows)),
        }),
    decreases rows.len(),
{
    if rows.len() > 0 {
        let front = rows.drop_last();
        lemma_slot_totals_uniform(front, key, slot);
        assert(quantity_of(rows).drop_last() =~= quantity_of(front));
        assert(extendedprice_of(rows).drop_last() =~= extendedprice_of(front));
        assert(discount_of(rows).drop_last() =~= discount_of(front));
        assert(tax_of(rows).drop_last() =~= tax_of(front));
    }
}

/// No key has more rows than there are, and no measure adds up to more than
/// 65535 for each row of the key.
pub proof fn lemma_slot_totals_bound(rows: Seq<LineItem>, slot: int)
    ensures
        slot_totals(rows, slot).count <= rows.len(),
        slot_totals(rows, slot).sum_qty <= 65535 * slot_totals(rows, slot).count,
        slot_totals(rows, slot).sum_base_price <= 65535 * slot_totals(rows, slot).count,
        slot_totals(rows, slot).sum_discount <= 65535 * slot_totals(rows, slot).count,
        slot_totals(rows, slot).sum_tax <= 65535 * slot_totals(rows, slot).count,
    decreases rows.len(),
{
    if rows.len() > 0 {
        lemma_slot_totals_bound(rows.drop_last(), slot);
    }
}

/// The first rows of some rows add up to no more than all of them.
pub proof fn lemma_slot_totals_take(rows: Seq<LineItem>, n: int, slot: int)
    requires
        0 <= n <= rows.len(),
    ensures
        slot_totals(rows.take(n), slot).within(slot_totals(rows, slot)),
{
    assert(rows =~= rows.take(n) + rows.skip(n));
    lemma_slot_totals_concat(rows.take(n), rows.skip(n), slot);
}

/// Adding rows in two steps is adding them all at once.
pub proof fn lemma_accumulate_twice(
    before: Option<QueryOneStateColumn>,
    front: Seq<LineItem>,
    back: Seq<LineItem>,
    slot: int,
)
    requires
        fits_slot(before, slot_totals(front + back, slot)),
    ensures
        fits_slot(before, slot_totals(front, slot)),
        fits_slot(accumulate(before, slot_totals(front, slot)), slot_totals(back, slot)),
        accumulate(accumulate(before, slot_totals(front, slot)), slot_totals(back, slot))
            == accumulate(before, slot_totals(front + back, slot)),
{
    lemma_slot_totals_concat(front, back, slot);
    lemma_slot_totals_bound(front, slot);
    lemma_slot_totals_bound(back, slot);
}

/// The totals of a key are those of its rows alone.
pub proof fn lemma_slot_totals_of_key(rows: Seq<LineItem>, slot: int)
    ensures
        slot_totals(rows, slot) == slot_totals(with_key(rows, slot), slot),
        slot_totals(rows, slot).count == with_key(rows, slot).len(),
    decreases rows.len(),
{
    if rows.len() > 0 {
        lemma_slot_totals_of_key(rows.drop_last(), slot);
        if sort_key(rows.last()) == slot {
            let kept = with_key(rows.drop_last(), slot).push(rows.last());
            assert(kept.drop_last() =~= with_key(rows.drop_last(), slot));
        }
    }
}

/// Sorting rows changes no total: the rows of every key are the same rows.
pub proof fn lemma_slot_totals_sorted(sorted: Seq<LineItem>, rows: Seq<LineItem>, slot: int)
    requires
        is_stable_sort_of(sorted, rows),
    ensures
        slot_totals(sorted, slot) == slot_totals(rows, slot),
{
    lemma_slot_totals_of_key(sorted, slot);
    lemma_slot_totals_of_key(rows, slot);
    assert(with_key(sorted, slot) == with_key(rows, slot));
}

/// Adding rows empties no slot and lowers no total of a slot.
pub proof fn lemma_accumulated_grows(
    before: Seq<Option<QueryOneStateColumn>>,
    rows: Seq<LineItem>,
    after: Seq<Option<QueryOneStateColumn>>,
    slot: int,
)
    requires
        fits_state(before, rows),
        accumulated(before, rows, after),
        0 <= slot < before.len(),
    ensures
        before[slot] is Some ==> after[slot] is Some,
        totals_of(before[slot]).within(totals_of(after[slot])),
        after[slot] is Some <==> before[slot] is Some || slot_totals(rows, slot).count > 0,
{
    assert(after[slot] == accumulate(before[slot], slot_totals(rows, slot)));
    assert(fits_slot(before[slot], slot_totals(rows, slot)));
}

/// Adds the rows of a row group to the table, run by run: the two key
/// columns are walked together, and each stretch of rows with one pair of key
/// bytes is added to its slot in one step.
pub fn accumulate_row_group(group: &RowGroup, state: &mut Vec<Option<QueryOneStateColumn>>)
    requires
        old(state)@.len() == STATE_SLOTS,
        fits_state(old(state)@, group.rows()),
    ensures
        accumulated(old(state)@, group.rows(), final(state)@),
{
    let ghost rows = group.rows();
    let ghost initial = state@;
    let n = group.item_count() as usize;
    let returnflag_column = group.returnflag();
    let linestatus_column = group.linestatus();
    let quantity = group.quantity();
    let discount = group.discount();
    let tax = group.tax();
    let extendedprice = group.extendedprice();
    let mut returnflag = RunCursor::new(returnflag_column.as_runs());
    let mut linestatus = RunCursor::new(linestatus_column.as_runs());
    let mut index: usize = 0;
    proof {
        lemma_expand_len(returnflag.runs());
        lemma_expand_len(linestatus.runs());
        assert(rows.take(0) =~= Seq::<LineItem>::empty());
    }
    while index < n
        invariant
            index <= n == rows.len(),
            n <= MAX_ROW_GROUP_SIZE,
            expand(returnflag.runs()) == returnflag_of(rows),
            expand(linestatus.runs()) == linestatus_of(rows),
            total(returnflag.runs()) == n,
            total(linestatus.runs()) == n,
            returnflag.position() == index,
            linestatus.position() == index,
            returnflag.aligned(),
            linestatus.aligned(),
            quantity@ == quantity_of(rows),
            discount@ == discount_of(rows),
            tax@ == tax_of(rows),
            extendedprice@ == extendedprice_of(rows),
            initial.len() == STATE_SLOTS,
            fits_state(initial, rows),
            accumulated(initial, rows.take(index as int), state@),
        decreases n - index,
    {
        returnflag.advance();
        linestatus.advance();
        let (rf_value, rf_remaining) = returnflag.current();
        let (ls_value, ls_remaining) = linestatus.current();
        let run = if rf_remaining <= ls_remaining {
            rf_remaining
        } else {
            ls_remaining
        };
        let run_length = run as usize;
        let current_index = get_state_index(&rf_value, &ls_value);
        let ghost done = rows.take(index as int);
        let ghost stretch = rows.subrange(index as int, index + run_length);
        let ghost before = state@;
        proof {
            assert forall|i: int| 0 <= i < stretch.len() implies sort_key(#[trigger] stretch[i])
                == current_index by {
                assert(expand(returnflag.runs())[index + i] == rf_value);
                assert(expand(linestatus.runs())[index + i] == ls_value);
            }
            assert(rows.take(index + run_length) =~= done + stretch);
            assert(quantity@.subrange(index as int, index + run_length) =~= quantity_of(stretch));
            assert(extendedprice@.subrange(index as int, index + run_length) =~= extendedprice_of(
                stretch,
            ));
            assert(discount@.subrange(index as int, index + run_length) =~= discount_of(stretch));
            assert(tax@.subrange(index as int, index + run_length) =~= tax_of(stretch));
            lemma_sum_bound(quantity_of(stretch));
            lemma_sum_bound(extendedprice_of(stretch));
            lemma_sum_bound(discount_of(stretch));
            lemma_sum_bound(tax_of(stretch));
            assert forall|slot: int| 0 <= slot < STATE_SLOTS implies fits_slot(
                initial[slot],
                slot_totals(done + stretch, slot),
            ) by {
                lemma_slot_totals_take(rows, index + run_length, slot);
            }
            lemma_slot_totals_uniform(stretch, current_index as int, current_index as int);
            lemma_accumulate_twice(initial[current_index as int], done, stretch, current_index as int);
        }
        let current = match state[current_index] {
            Some(slot) => slot,
            None => QueryOneStateColumn::default(),
        };
        let sum_qty = sum_u16s(quantity, index, run_length);
        let sum_base_price = sum_u16s(extendedprice, index, run_length);
        let sum_discount = sum_u16s(discount, index, run_length);
        let sum_tax = sum_u16s(tax, index, run_length);
        state.set(
            current_index,
            Some(
                QueryOneStateColumn {
                    count: current.count + run_length as u64,
                    sum_qty: current.sum_qty + sum_qty,
                    sum_base_price: current.sum_base_price + sum_base_price,
                    sum_discount: current.sum_discount + sum_discount,
                    sum_tax: current.sum_tax + sum_tax,
                },
            ),
        );
        proof {
            assert forall|slot: int| 0 <= slot < state@.len() implies #[trigger] state@[slot]
                == accumulate(initial[slot], slot_totals(done + stretch, slot)) by {
                lemma_slot_totals_uniform(stretch, current_index as int, slot);
                lemma_accumulate_twice(initial[slot], done, stretch, slot);
                assert(before[slot] == accumulate(initial[slot], slot_totals(done, slot)));
            }
        }
        returnflag.consume(run);
        linestatus.consume(run);
        index = index + run_length;
    }
    // Every row has been added, and with the last row both columns end.
    assert(returnflag.exhausted() && linestatus.exhausted());
    assert(rows.take(n as int) =~= rows);
}

/// Reads one row group and adds its rows to the table. Where something is
/// wrong with the row group, nothing is read and the table stays as it is.
pub fn update_state_from_row_group(
    reader: &mut ByteReader,
    state: &mut Vec<Option<QueryOneStateColumn>>,
) -> (result: Result<(), FormatError>)
    requires
        old(state)@.len() == STATE_SLOTS,
        row_group_error(old(reader).bytes(), old(reader).offset()) is None ==> fits_state(
            old(state)@,
            rows_at(old(reader).bytes(), old(reader).offset()),
        ),
    ensures
        0 <= old(reader).offset() <= old(reader).bytes().len(),
        match result {
            Ok(()) => {
                &&& row_group_error(old(reader).bytes(), old(reader).offset()) is None
                &&& final(reader).bytes() == old(reader).bytes()
                &&& final(reader).offset() == row_group_end(
                    old(reader).bytes(),
                    old(reader).offset(),
                )
                &&& accumulated(
                    old(state)@,
                    rows_at(old(reader).bytes(), old(reader).offset()),
                    final(state)@,
                )
            },
            Err(e) => {
                &&& row_group_error(old(reader).bytes(), old(reader).offset()) == Some(e)
                &&& final(reader).advanced(old(reader), 0)
                &&& final(state)@ == old(state)@
            },
        },
{
    match read_row_group(reader) {
        Ok(group) => {
            accumulate_row_group(&group, state);
            Ok(())
        },
        Err(e) => Err(e),
    }
}

/// What is wrong with the stream from offset `pos` on: what is wrong with
/// its first row group that is not well-formed, if there is one.
pub open spec fn file_error(data: Seq<u8>, pos: int) -> Option<FormatError>
    decreases data.len() - pos,
{
    if pos < 0 || pos >= data.len() {
        None
    } else if row_group_error(data, pos) is Some {
        row_group_error(data, pos)
    } else {
        file_error(data, row_group_end(data, pos))
    }
}

/// The rows of the row groups from offset `pos` on, as far as the row groups
/// are well-formed.
pub open spec fn file_rows(data: Seq<u8>, pos: int) -> Seq<LineItem>
    decreases data.len() - pos,
{
    if pos < 0 || pos >= data.len() || row_group_error(data, pos) is Some {
        Seq::empty()
    } else {
        rows_at(data, pos) + file_rows(data, row_group_end(data, pos))
    }
}

/// The longest stream whose rows fit the table whatever they hold: with at
/// least eight bytes to a row, no measure of its rows adds up to more than a
/// `u64` holds.
pub const MAX_STREAM_LEN: u64 = 0x8_0000_0000_0000;

/// Row groups as they are stored one behind the other.
pub open spec fn stream_bytes(groups: Seq<Seq<LineItem>>) -> Seq<u8>
    decreases groups.len(),
{
    if groups.len() == 0 {
        Seq::empty()
    } else {
        row_group_bytes(groups.first()) + stream_bytes(groups.drop_first())
    }
}

/// The rows of all row groups, in order.
pub open spec fn stream_rows(groups: Seq<Seq<LineItem>>) -> Seq<LineItem>
    decreases groups.len(),
{
    if groups.len() == 0 {
        Seq::empty()
    } else {
        groups.first() + stream_rows(groups.drop_first())
    }
}

/// Row groups that were written one behind the other are read back as they
/// were written: nothing is wrong with the stream, and its rows are the rows
/// of the row groups, in order. This holds behind any bytes that stand
/// before the row groups.
pub proof fn lemma_stream_round_trip(before: Seq<u8>, groups: Seq<Seq<LineItem>>)
    requires
        forall|i: int|
            0 <= i < groups.len() ==> 1 <= (#[trigger] groups[i]).len() <= MAX_ROW_GROUP_SIZE,
    ensures
        file_error(before + stream_bytes(groups), before.len() as int) is None,
        file_rows(before + stream_bytes(groups), before.len() as int) == stream_rows(groups),
    decreases groups.len(),
{
    let data = before + stream_bytes(groups);
    let pos = before.len() as int;
    if groups.len() == 0 {
        assert(data =~= before);
    } else {
        let first = groups.first();
        let rest = groups.drop_first();
        let tail = stream_bytes(rest);
        assert(data =~= before + row_group_bytes(first) + tail);
        lemma_row_group_round_trip(before, first, tail);
        lemma_stream_round_trip(before + row_group_bytes(first), rest);
    }
}

/// Every row of a stream takes at least eight of its bytes.
pub proof fn lemma_file_rows_len(data: Seq<u8>, pos: int)
    requires
        0 <= pos <= data.len(),
    ensures
        8 * file_rows(data, pos).len() <= data.len() - pos,
    decreases data.len() - pos,
{
    if pos < data.len() && row_group_error(data, pos) is None {
        lemma_file_rows_len(data, row_group_end(data, pos));
    }
}

/// The rows of a stream of at most `MAX_STREAM_LEN` bytes fit the empty table.
pub proof fn lemma_stream_fits(data: Seq<u8>)
    requires
        data.len() <= MAX_STREAM_LEN,
    ensures
        fits_state(empty_table(), file_rows(data, 0)),
{
    lemma_file_rows_len(data, 0);
    assert forall|slot: int| 0 <= slot < empty_table().len() implies fits_slot(
        #[trigger] empty_table()[slot],
        slot_totals(file_rows(data, 0), slot),
    ) by {
        lemma_slot_totals_bound(file_rows(data, 0), slot);
    }
}

/// The table before any row is added: every slot is empty.
pub open spec fn empty_table() -> Seq<Option<QueryOneStateColumn>> {
    Seq::new(STATE_SLOTS as nat, |slot: int| None)
}

/// A table in which every slot is empty.
pub fn empty_state() -> (state: Vec<Option<QueryOneStateColumn>>)
    ensures
        state@ == empty_table(),
{
    let mut state: Vec<Option<QueryOneStateColumn>> = Vec::with_capacity(STATE_SLOTS);
    let mut slot: usize = 0;
    while slot < STATE_SLOTS
        invariant
            slot <= STATE_SLOTS,
            state@.len() == slot,
            forall|i: int| 0 <= i < slot ==> state@[i] is None,
        decreases STATE_SLOTS - slot,
    {
        state.push(None);
        slot = slot + 1;
    }
    assert(state@ =~= empty_table());
    state
}

/// Groups the rows of a whole stream of row groups by their key bytes: the
/// table that holds, slot by slot, the number of rows with the slot's key and
/// the sums of their measures.
pub fn query_1_column(data: &[u8]) -> (result: Result<Vec<Option<QueryOneStateColumn>>, FormatError>)
    requires
        fits_state(empty_table(), file_rows(data@, 0)),
    ensures
        match result {
            Ok(state) => {
                &&& file_error(data@, 0) is None
                &&& accumulated(empty_table(), file_rows(data@, 0), state@)
            },
            Err(e) => file_error(data@, 0) == Some(e),
        },
{
    let mut reader = ByteReader::new(data);
    let mut state = empty_state();
    let ghost done = Seq::<LineItem>::empty();
    proof {
        assert(done + file_rows(data@, 0) =~= file_rows(data@, 0));
        assert forall|slot: int| 0 <= slot < STATE_SLOTS implies #[trigger] state@[slot]
            == accumulate(empty_table()[slot], slot_totals(done, slot)) by {}
    }
    loop
        invariant
            reader.bytes() == data@,
            fits_state(empty_table(), file_rows(data@, 0)),
            file_error(data@, 0) == file_error(data@, reader.offset()),
            file_rows(data@, 0) == done + file_rows(data@, reader.offset()),
            accumulated(empty_table(), done, state@),
        decreases data@.len() - reader.offset(),
    {
        if reader.is_empty() {
            proof {
                assert(done + Seq::<LineItem>::empty() =~= done);
            }
            return Ok(state);
        }
        let ghost pos = reader.offset();
        let ghost group = rows_at(data@, pos);
        let ghost rest = file_rows(data@, row_group_end(data@, pos));
        let ghost before = state@;
        proof {
            if row_group_error(data@, pos) is None {
                assert(done + (group + rest) =~= (done + group) + rest);
                assert forall|slot: int| 0 <= slot < STATE_SLOTS implies fits_slot(
                    #[trigger] before[slot],
                    slot_totals(group, slot),
                ) by {
                    assert(fits_slot(empty_table()[slot], slot_totals(file_rows(data@, 0), slot)));
                    lemma_slot_totals_concat(done + group, rest, slot);
                    lemma_accumulate_twice(None, done, group, slot);
                }
            }
        }
        match update_state_from_row_group(&mut reader, &mut state) {
            Ok(()) => {
                proof {
                    assert forall|slot: int| 0 <= slot < STATE_SLOTS implies #[trigger] state@[slot]
                        == accumulate(empty_table()[slot], slot_totals(done + group, slot)) by {
                        assert(fits_slot(
                            empty_table()[slot],
                            slot_totals(file_rows(data@, 0), slot),
                        ));
                        lemma_slot_totals_concat(done + group, rest, slot);
                        lemma_accumulate_twice(None, done, group, slot);
                        assert(before[slot] == accumulate(None, slot_totals(done, slot)));
                    }
                    done = done + group;
                }
            },
            Err(e) => {
                return Err(e);
            },
        }
    }
}

/// The slots that hold rows, in the order of their keys, each with its two
/// key bytes.
pub open spec fn populated(state: Seq<Option<QueryOneStateColumn>>) -> Seq<
    (u8, u8, QueryOneStateColumn),
>
    decreases state.len(),
{
    if state.len() == 0 {
        Seq::empty()
    } else {
        let slot = state.len() - 1;
        match state.last() {
            Some(totals) => populated(state.drop_last()).push(
                ((slot / 256) as u8, (slot % 256) as u8, totals),
            ),
            None => populated(state.drop_last()),
        }
    }
}

/// The groups of the table: the slots that hold rows, in the order of their
/// keys, each with its return flag and its line status.
pub fn populated_groups(state: &Vec<Option<QueryOneStateColumn>>) -> (groups: Vec<
    (u8, u8, QueryOneStateColumn),
>)
    requires
        state@.len() == STATE_SLOTS,
    ensures
        groups@ == populated(state@),
{
    let mut groups: Vec<(u8, u8, QueryOneStateColumn)> = Vec::new();
    let mut slot: usize = 0;
    assert(state@.take(0) =~= Seq::<Option<QueryOneStateColumn>>::empty());
    while slot < STATE_SLOTS
        invariant
            slot <= STATE_SLOTS == state@.len(),
            groups@ == populated(state@.take(slot as int)),
        decreases STATE_SLOTS - slot,
    {
        proof {
            assert(state@.take(slot + 1).drop_last() =~= state@.take(slot as int));
        }
        match state[slot] {
            Some(totals) => {
                groups.push(((slot / 256) as u8, (slot % 256) as u8, totals));
            },
            None => {},
        }
        slot = slot + 1;
    }
    assert(state@.take(STATE_SLOTS as int) =~= state@);
    groups
}

} // verus!
