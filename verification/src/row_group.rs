//! Row groups: up to 8000 rows, stored column by column.
//!
//! A row group is its item count as a `u16`, the line status column and the
//! return flag column in runs, and the quantity, discount, tax and extended
//! price columns as measures.

use vstd::prelude::*;
use crate::error::FormatError;
use crate::io::{appended, fits, lemma_number_round_trip, number_at, read_u16, write_u16};
use crate::le::{le_bytes, le_limit, lemma_le_bytes_len, lemma_le_limits};
use crate::line_item::{
    discount_of, extendedprice_of, linestatus_of, quantity_of, returnflag_of, rows_of, tax_of,
    LineItem,
};
use crate::reader::ByteReader;
use crate::sort::{is_stable_sort_of, sort_line_items};
use crate::runs::{
    collapse, expand, lemma_collapse_is_collapsed, lemma_collapse_last, lemma_expand_collapse,
    lemma_expand_len, lemma_runs_at_most_total, total,
};
use crate::string_column::{
    column_bytes, column_end, column_fits, lemma_column_round_trip, lemma_packed_len, runs_at,
    StringColumnReader,
};
use crate::tracked_writer::TrackedWriter;
use crate::u16_column::{
    lemma_measure_bytes_len, lemma_measures_round_trip, measure_bytes, measures_at,
    read_u16_column, write_u16_column, U16column,
};

verus! {

/// The most rows that a row group holds.
pub const MAX_ROW_GROUP_SIZE: usize = 8000;

/// A row group as it is stored.
pub open spec fn row_group_bytes(rows: Seq<LineItem>) -> Seq<u8> {
    le_bytes(rows.len(), 2) + column_bytes(collapse(linestatus_of(rows))) + column_bytes(
        collapse(returnflag_of(rows)),
    ) + measure_bytes(quantity_of(rows)) + measure_bytes(discount_of(rows)) + measure_bytes(
        tax_of(rows),
    ) + measure_bytes(extendedprice_of(rows))
}

/// The number of rows that the row group at offset `pos` of `data` announces.
pub open spec fn item_count_at(data: Seq<u8>, pos: int) -> nat {
    number_at(data, pos, 2)
}

/// Where the return flag column of the row group at `pos` starts: behind the
/// line status column.
pub open spec fn returnflag_pos(data: Seq<u8>, pos: int) -> int {
    column_end(data, pos + 2)
}

/// Where the measures of the row group at `pos` start: behind both key columns.
pub open spec fn measures_pos(data: Seq<u8>, pos: int) -> int {
    column_end(data, returnflag_pos(data, pos))
}

/// The offset just behind the row group at offset `pos` of `data`.
pub open spec fn row_group_end(data: Seq<u8>, pos: int) -> int {
    measures_pos(data, pos) + 8 * item_count_at(data, pos)
}

/// What is wrong with the row group at offset `pos` of `data`, if anything:
/// in this order, an item count that is cut off, one that is out of range,
/// a column that is cut off, key runs that do not add up to the item count.
pub open spec fn row_group_error(data: Seq<u8>, pos: int) -> Option<FormatError> {
    let n = item_count_at(data, pos);
    if !fits(data, pos, 2) {
        Some(FormatError::UnexpectedEof { offset: data.len() as usize })
    } else if n == 0 || n > MAX_ROW_GROUP_SIZE {
        Some(FormatError::ItemCountOutOfRange { offset: pos as usize })
    } else if !column_fits(data, pos + 2) || !column_fits(data, returnflag_pos(data, pos)) || !fits(
        data,
        measures_pos(data, pos),
        8 * (n as int),
    ) {
        Some(FormatError::UnexpectedEof { offset: data.len() as usize })
    } else if total(runs_at(data, pos + 2)) != n || total(runs_at(data, returnflag_pos(data, pos)))
        != n {
        Some(FormatError::RunCountMismatch { offset: pos as usize })
    } else {
        None
    }
}

/// The rows of the row group at offset `pos` of `data`.
pub open spec fn rows_at(data: Seq<u8>, pos: int) -> Seq<LineItem> {
    let n = item_count_at(data, pos);
    let m = measures_pos(data, pos);
    rows_of(
        expand(runs_at(data, returnflag_pos(data, pos))),
        expand(runs_at(data, pos + 2)),
        measures_at(data, m, n),
        measures_at(data, m + 2 * n, n),
        measures_at(data, m + 4 * n, n),
        measures_at(data, m + 6 * n, n),
    )
}

/// How many bytes a stored column of runs takes.
pub proof fn lemma_column_bytes_len(runs: Seq<(u8, u32)>)
    ensures
        column_bytes(runs).len() == 8 + 5 * runs.len(),
{
    lemma_le_bytes_len(runs.len(), 8);
    lemma_packed_len(runs);
}

/// Seven parts between a front and a back: the whole is, for each part, what
/// stands before it, the part, and what stands behind it.
proof fn lemma_split_parts(
    before: Seq<u8>,
    a: Seq<u8>,
    b: Seq<u8>,
    c: Seq<u8>,
    d: Seq<u8>,
    e: Seq<u8>,
    f: Seq<u8>,
    g: Seq<u8>,
    after: Seq<u8>,
)
    ensures
        ({
            let data = before + (a + b + c + d + e + f + g) + after;
            &&& data == before + a + (b + c + d + e + f + g + after)
            &&& data == (before + a) + b + (c + d + e + f + g + after)
            &&& data == (before + a + b) + c + (d + e + f + g + after)
            &&& data == (before + a + b + c) + d + (e + f + g + after)
            &&& data == (before + a + b + c + d) + e + (f + g + after)
            &&& data == (before + a + b + c + d + e) + f + (g + after)
            &&& data == (before + a + b + c + d + e + f) + g + after
        }),
{
    let data = before + (a + b + c + d + e + f + g) + after;
    assert(data =~= before + a + (b + c + d + e + f + g + after));
    assert(data =~= (before + a) + b + (c + d + e + f + g + after));
    assert(data =~= (before + a + b) + c + (d + e + f + g + after));
    assert(data =~= (before + a + b + c) + d + (e + f + g + after));
    assert(data =~= (before + a + b + c + d) + e + (f + g + after));
    assert(data =~= (before + a + b + c + d + e) + f + (g + after));
    assert(data =~= (before + a + b + c + d + e + f) + g + after);
}

/// How long the parts of a written row group are.
proof fn lemma_row_group_part_lens(rows: Seq<LineItem>)
    requires
        1 <= rows.len() <= MAX_ROW_GROUP_SIZE,
    ensures
        le_bytes(rows.len(), 2).len() == 2,
        rows.len() < le_limit(2),
        collapse(linestatus_of(rows)).len() < le_limit(8),
        collapse(returnflag_of(rows)).len() < le_limit(8),
        column_bytes(collapse(linestatus_of(rows))).len() == 8 + 5 * collapse(
            linestatus_of(rows),
        ).len(),
        column_bytes(collapse(returnflag_of(rows))).len() == 8 + 5 * collapse(
            returnflag_of(rows),
        ).len(),
        measure_bytes(quantity_of(rows)).len() == 2 * rows.len(),
        measure_bytes(discount_of(rows)).len() == 2 * rows.len(),
        measure_bytes(tax_of(rows)).len() == 2 * rows.len(),
        measure_bytes(extendedprice_of(rows)).len() == 2 * rows.len(),
{
    let ls = collapse(linestatus_of(rows));
    let rf = collapse(returnflag_of(rows));
    lemma_le_bytes_len(rows.len(), 2);
    lemma_column_bytes_len(ls);
    lemma_column_bytes_len(rf);
    lemma_measure_bytes_len(quantity_of(rows));
    lemma_measure_bytes_len(discount_of(rows));
    lemma_measure_bytes_len(tax_of(rows));
    lemma_measure_bytes_len(extendedprice_of(rows));
    lemma_le_limits();
    lemma_collapse_last(linestatus_of(rows));
    lemma_collapse_last(returnflag_of(rows));
    lemma_collapse_is_collapsed(linestatus_of(rows));
    lemma_collapse_is_collapsed(returnflag_of(rows));
    lemma_runs_at_most_total(ls);
    lemma_runs_at_most_total(rf);
}

/// Where the item count and the key columns of a written row group lie, and
/// what is read there.
proof fn lemma_row_group_keys(before: Seq<u8>, rows: Seq<LineItem>, after: Seq<u8>)
    requires
        1 <= rows.len() <= MAX_ROW_GROUP_SIZE,
    ensures
        ({
            let data = before + row_group_bytes(rows) + after;
            let pos = before.len() as int;
            let ls = collapse(linestatus_of(rows));
            let rf = collapse(returnflag_of(rows));
            &&& fits(data, pos, 2)
            &&& item_count_at(data, pos) == rows.len()
            &&& column_fits(data, pos + 2)
            &&& runs_at(data, pos + 2) == ls
            &&& returnflag_pos(data, pos) == pos + 2 + 8 + 5 * ls.len()
            &&& column_fits(data, returnflag_pos(data, pos))
            &&& runs_at(data, returnflag_pos(data, pos)) == rf
            &&& measures_pos(data, pos) == pos + 2 + 8 + 5 * ls.len() + 8 + 5 * rf.len()
        }),
{
    let n = rows.len();
    let ls = collapse(linestatus_of(rows));
    let rf = collapse(returnflag_of(rows));
    let head = le_bytes(n, 2);
    let cl = column_bytes(ls);
    let cr = column_bytes(rf);
    let q = measure_bytes(quantity_of(rows));
    let d = measure_bytes(discount_of(rows));
    let t = measure_bytes(tax_of(rows));
    let p = measure_bytes(extendedprice_of(rows));
    lemma_split_parts(before, head, cl, cr, q, d, t, p, after);
    lemma_row_group_part_lens(rows);
    lemma_number_round_trip(before, n, 2, cl + cr + q + d + t + p + after);
    lemma_column_round_trip(before + head, ls, cr + q + d + t + p + after);
    lemma_column_round_trip(before + head + cl, rf, q + d + t + p + after);
}

/// Where the measure columns of a written row group lie, and what is read
/// there.
proof fn lemma_row_group_measures(before: Seq<u8>, rows: Seq<LineItem>, after: Seq<u8>)
    requires
        1 <= rows.len() <= MAX_ROW_GROUP_SIZE,
    ensures
        ({
            let data = before + row_group_bytes(rows) + after;
            let pos = before.len() as int;
            let n = rows.len();
            let ls = collapse(linestatus_of(rows));
            let rf = collapse(returnflag_of(rows));
            let m = pos + 2 + 8 + 5 * ls.len() + 8 + 5 * rf.len();
            &&& fits(data, m, 8 * (n as int))
            &&& measures_at(data, m, n) == quantity_of(rows)
            &&& measures_at(data, m + 2 * n, n) == discount_of(rows)
            &&& measures_at(data, m + 4 * n, n) == tax_of(rows)
            &&& measures_at(data, m + 6 * n, n) == extendedprice_of(rows)
            &&& row_group_bytes(rows).len() == 2 + 8 + 5 * ls.len() + 8 + 5 * rf.len() + 8 * n
        }),
{
    let n = rows.len();
    let ls = collapse(linestatus_of(rows));
    let rf = collapse(returnflag_of(rows));
    let head = le_bytes(n, 2);
    let cl = column_bytes(ls);
    let cr = column_bytes(rf);
    let q = measure_bytes(quantity_of(rows));
    let d = measure_bytes(discount_of(rows));
    let t = measure_bytes(tax_of(rows));
    let p = measure_bytes(extendedprice_of(rows));
    lemma_split_parts(before, head, cl, cr, q, d, t, p, after);
    lemma_row_group_part_lens(rows);
    lemma_measures_round_trip(before + head + cl + cr, quantity_of(rows), d + t + p + after);
    lemma_measures_round_trip(before + head + cl + cr + q, discount_of(rows), t + p + after);
    lemma_measures_round_trip(before + head + cl + cr + q + d, tax_of(rows), p + after);
    lemma_measures_round_trip(before + head + cl + cr + q + d + t, extendedprice_of(rows), after);
}

/// A row group that was written is the row group that is read at the same
/// place, whatever stands before and after it: nothing is wrong with it, its
/// rows are the rows that were written, and it ends where the written bytes end.
pub proof fn lemma_row_group_round_trip(before: Seq<u8>, rows: Seq<LineItem>, after: Seq<u8>)
    requires
        1 <= rows.len() <= MAX_ROW_GROUP_SIZE,
    ensures
        row_group_error(before + row_group_bytes(rows) + after, before.len() as int) is None,
        rows_at(before + row_group_bytes(rows) + after, before.len() as int) == rows,
        row_group_end(before + row_group_bytes(rows) + after, before.len() as int) == before.len()
            + row_group_bytes(rows).len(),
{
    let data = before + row_group_bytes(rows) + after;
    let pos = before.len() as int;
    lemma_row_group_keys(before, rows, after);
    lemma_row_group_measures(before, rows, after);
    lemma_collapse_last(linestatus_of(rows));
    lemma_collapse_last(returnflag_of(rows));
    lemma_expand_collapse(linestatus_of(rows));
    lemma_expand_collapse(returnflag_of(rows));
    assert(rows_at(data, pos) =~= rows);
}

/// Writes the rows as one row group, in the order in which they stand.
pub fn write_row_group(lineitems: &[LineItem], writer: &mut TrackedWriter)
    requires
        1 <= lineitems@.len() <= MAX_ROW_GROUP_SIZE,
    ensures
        appended(old(writer), final(writer), row_group_bytes(lineitems@)),
{
    let n = lineitems.len();
    let mut linestatus: Vec<u8> = Vec::with_capacity(n);
    let mut returnflag: Vec<u8> = Vec::with_capacity(n);
    let mut quantity: Vec<u16> = Vec::with_capacity(n);
    let mut discount: Vec<u16> = Vec::with_capacity(n);
    let mut tax: Vec<u16> = Vec::with_capacity(n);
    let mut extendedprice: Vec<u16> = Vec::with_capacity(n);
    let mut i: usize = 0;
    while i < n
        invariant
            i <= n == lineitems@.len(),
            linestatus@ == linestatus_of(lineitems@).take(i as int),
            returnflag@ == returnflag_of(lineitems@).take(i as int),
            quantity@ == quantity_of(lineitems@).take(i as int),
            discount@ == discount_of(lineitems@).take(i as int),
            tax@ == tax_of(lineitems@).take(i as int),
            extendedprice@ == extendedprice_of(lineitems@).take(i as int),
        decreases n - i,
    {
        let item = lineitems[i];
        linestatus.push(item.l_linestatus);
        returnflag.push(item.l_returnflag);
        quantity.push(item.l_quantity);
        discount.push(item.l_discount);
        tax.push(item.l_tax);
        extendedprice.push(item.l_extendedprice);
        proof {
            assert(linestatus@ =~= linestatus_of(lineitems@).take(i + 1));
            assert(returnflag@ =~= returnflag_of(lineitems@).take(i + 1));
            assert(quantity@ =~= quantity_of(lineitems@).take(i + 1));
            assert(discount@ =~= discount_of(lineitems@).take(i + 1));
            assert(tax@ =~= tax_of(lineitems@).take(i + 1));
            assert(extendedprice@ =~= extendedprice_of(lineitems@).take(i + 1));
        }
        i = i + 1;
    }
    proof {
        assert(linestatus@ =~= linestatus_of(lineitems@));
        assert(returnflag@ =~= returnflag_of(lineitems@));
        assert(quantity@ =~= quantity_of(lineitems@));
        assert(discount@ =~= discount_of(lineitems@));
        assert(tax@ =~= tax_of(lineitems@));
        assert(extendedprice@ =~= extendedprice_of(lineitems@));
    }
    let ghost start = writer.bytes();
    write_u16(writer, n as u16);
    let linestatus_column = StringColumnReader::from_values(linestatus.as_slice());
    linestatus_column.write(writer);
    let returnflag_column = StringColumnReader::from_values(returnflag.as_slice());
    returnflag_column.write(writer);
    write_u16_column(quantity.as_slice(), writer);
    write_u16_column(discount.as_slice(), writer);
    write_u16_column(tax.as_slice(), writer);
    write_u16_column(extendedprice.as_slice(), writer);
    proof {
        assert(writer.bytes() =~= start + row_group_bytes(lineitems@));
    }
}

/// Orders the rows of the batch by key, rows of one key staying in their
/// order, and writes them as one row group.
pub fn write_batch(writer: &mut TrackedWriter, batch: &mut Vec<LineItem>)
    requires
        1 <= old(batch)@.len() <= MAX_ROW_GROUP_SIZE,
    ensures
        is_stable_sort_of(final(batch)@, old(batch)@),
        appended(old(writer), final(writer), row_group_bytes(final(batch)@)),
{
    let sorted = sort_line_items(batch.as_slice());
    *batch = sorted;
    write_row_group(batch.as_slice(), writer);
}

/// One row group as it was read: its six columns, all of one length.
#[derive(Debug)]
pub struct RowGroup {
    item_count: u16,
    linestatus: StringColumnReader,
    returnflag: StringColumnReader,
    quantity: U16column,
    discount: U16column,
    tax: U16column,
    extendedprice: U16column,
}

impl RowGroup {
    #[verifier::type_invariant]
    spec fn columns_agree(self) -> bool {
        &&& 1 <= self.item_count <= MAX_ROW_GROUP_SIZE
        &&& total(self.linestatus.runs()) == self.item_count
        &&& total(self.returnflag.runs()) == self.item_count
        &&& self.quantity@.len() == self.item_count
        &&& self.discount@.len() == self.item_count
        &&& self.tax@.len() == self.item_count
        &&& self.extendedprice@.len() == self.item_count
    }

    /// The rows of the row group, in order.
    pub closed spec fn rows(&self) -> Seq<LineItem> {
        rows_of(
            self.returnflag.values(),
            self.linestatus.values(),
            self.quantity@,
            self.discount@,
            self.tax@,
            self.extendedprice@,
        )
    }

    /// The number of rows.
    pub fn item_count(&self) -> (n: u16)
        ensures
            n == self.rows().len(),
            1 <= n <= MAX_ROW_GROUP_SIZE,
    {
        proof {
            use_type_invariant(self);
        }
        self.item_count
    }

    /// The line status column.
    pub fn linestatus(&self) -> (column: &StringColumnReader)
        ensures
            column.values() == linestatus_of(self.rows()),
    {
        proof {
            use_type_invariant(self);
            lemma_expand_len(self.linestatus.runs());
            assert(self.linestatus.values() =~= linestatus_of(self.rows()));
        }
        &self.linestatus
    }

    /// The return flag column.
    pub fn returnflag(&self) -> (column: &StringColumnReader)
        ensures
            column.values() == returnflag_of(self.rows()),
    {
        proof {
            use_type_invariant(self);
            lemma_expand_len(self.returnflag.runs());
            assert(self.returnflag.values() =~= returnflag_of(self.rows()));
        }
        &self.returnflag
    }

    /// The quantity column.
    pub fn quantity(&self) -> (column: &U16column)
        ensures
            column@ == quantity_of(self.rows()),
    {
        proof {
            use_type_invariant(self);
            assert(self.quantity@ =~= quantity_of(self.rows()));
        }
        &self.quantity
    }

    /// The discount column.
    pub fn discount(&self) -> (column: &U16column)
        ensures
            column@ == discount_of(self.rows()),
    {
        proof {
            use_type_invariant(self);
            assert(self.discount@ =~= discount_of(self.rows()));
        }
        &self.discount
    }

    /// The tax column.
    pub fn tax(&self) -> (column: &U16column)
        ensures
            column@ == tax_of(self.rows()),
    {
        proof {
            use_type_invariant(self);
            assert(self.tax@ =~= tax_of(self.rows()));
        }
        &self.tax
    }

    /// The extended price column.
    pub fn extendedprice(&self) -> (column: &U16column)
        ensures
            column@ == extendedprice_of(self.rows()),
    {
        proof {
            use_type_invariant(self);
            assert(self.extendedprice@ =~= extendedprice_of(self.rows()));
        }
        &self.extendedprice
    }

    /// The rows of the row group, one by one.
    pub fn line_items(&self) -> (items: Vec<LineItem>)
        ensures
            items@ == self.rows(),
    {
        proof {
            use_type_invariant(self);
            lemma_expand_len(self.linestatus.runs());
            lemma_expand_len(self.returnflag.runs());
        }
        let linestatus = self.linestatus.expanded();
        let returnflag = self.returnflag.expanded();
        let n = self.item_count as usize;
        let mut items: Vec<LineItem> = Vec::with_capacity(n);
        let mut i: usize = 0;
        while i < n
            invariant
                i <= n,
                linestatus@.len() == n,
                returnflag@.len() == n,
                self.quantity@.len() == n,
                self.discount@.len() == n,
                self.tax@.len() == n,
                self.extendedprice@.len() == n,
                linestatus@ == self.linestatus.values(),
                returnflag@ == self.returnflag.values(),
                items@ == self.rows().take(i as int),
            decreases n - i,
        {
            items.push(
                LineItem {
                    l_returnflag: returnflag[i],
                    l_linestatus: linestatus[i],
                    l_quantity: self.quantity.data[i],
                    l_extendedprice: self.extendedprice.data[i],
                    l_discount: self.discount.data[i],
                    l_tax: self.tax.data[i],
                },
            );
            proof {
                assert(items@ =~= self.rows().take(i + 1));
            }
            i = i + 1;
        }
        assert(items@ =~= self.rows());
        items
    }
}

/// Reads one row group. Where something is wrong with it, nothing is read.
pub fn read_row_group(reader: &mut ByteReader) -> (result: Result<RowGroup, FormatError>)
    ensures
        0 <= old(reader).offset() <= old(reader).bytes().len(),
        match result {
            Ok(group) => {
                &&& row_group_error(old(reader).bytes(), old(reader).offset()) is None
                &&& group.rows() == rows_at(old(reader).bytes(), old(reader).offset())
                &&& final(reader).bytes() == old(reader).bytes()
                &&& final(reader).offset() == row_group_end(
                    old(reader).bytes(),
                    old(reader).offset(),
                )
            },
            Err(e) => {
                &&& row_group_error(old(reader).bytes(), old(reader).offset()) == Some(e)
                &&& final(reader).advanced(old(reader), 0)
            },
        },
{
    let start = reader.position();
    let item_count = match read_u16(reader) {
        Ok(n) => n,
        Err(e) => {
            return Err(e);
        },
    };
    if item_count == 0 || item_count as usize > MAX_ROW_GROUP_SIZE {
        reader.rewind(start);
        return Err(FormatError::ItemCountOutOfRange { offset: start });
    }
    let linestatus = match StringColumnReader::new(reader) {
        Ok(column) => column,
        Err(e) => {
            reader.rewind(start);
            return Err(e);
        },
    };
    let returnflag = match StringColumnReader::new(reader) {
        Ok(column) => column,
        Err(e) => {
            reader.rewind(start);
            return Err(e);
        },
    };
    let quantity = match read_u16_column(reader, item_count) {
        Ok(column) => column,
        Err(e) => {
            reader.rewind(start);
            return Err(e);
        },
    };
    let discount = match read_u16_column(reader, item_count) {
        Ok(column) => column,
        Err(e) => {
            reader.rewind(start);
            return Err(e);
        },
    };
    let tax = match read_u16_column(reader, item_count) {
        Ok(column) => column,
        Err(e) => {
            reader.rewind(start);
            return Err(e);
        },
    };
    let extendedprice = match read_u16_column(reader, item_count) {
        Ok(column) => column,
        Err(e) => {
            reader.rewind(start);
            return Err(e);
        },
    };
    if !linestatus.has_total(item_count as u64) || !returnflag.has_total(item_count as u64) {
        reader.rewind(start);
        return Err(FormatError::RunCountMismatch { offset: start });
    }
    Ok(RowGroup { item_count, linestatus, returnflag, quantity, discount, tax, extendedprice })
}

} // verus!
