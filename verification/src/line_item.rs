//! One row of the table, as the store holds it.

use vstd::prelude::*;

verus! {

/// A line item: its two key bytes and its four measures in hundredths.
#[derive(Debug, Clone, Copy, PartialEq, Eq, Structural)]
pub struct LineItem {
    pub l_returnflag: u8,
    pub l_linestatus: u8,
    pub l_quantity: u16,
    pub l_extendedprice: u16,
    pub l_discount: u16,
    pub l_tax: u16,
}

/// The number by which rows are ordered and grouped: the return flag is the
/// high byte, the line status the low byte.
pub open spec fn state_index(returnflag: u8, linestatus: u8) -> int {
    returnflag as int * 256 + linestatus as int
}

/// The key of a row.
pub open spec fn sort_key(item: LineItem) -> int {
    state_index(item.l_returnflag, item.l_linestatus)
}

/// Index of the accumulator slot that belongs to a pair of key bytes.
pub fn get_state_index(returnflag: &u8, linestatus: &u8) -> (index: usize)
    ensures
        index as int == state_index(*returnflag, *linestatus),
        index < 65536,
{
    (*returnflag as usize) * 256 + (*linestatus as usize)
}

/// The line status of each row.
pub open spec fn linestatus_of(rows: Seq<LineItem>) -> Seq<u8> {
    Seq::new(rows.len(), |i: int| rows[i].l_linestatus)
}

/// The return flag of each row.
pub open spec fn returnflag_of(rows: Seq<LineItem>) -> Seq<u8> {
    Seq::new(rows.len(), |i: int| rows[i].l_returnflag)
}

/// The quantity of each row.
pub open spec fn quantity_of(rows: Seq<LineItem>) -> Seq<u16> {
    Seq::new(rows.len(), |i: int| rows[i].l_quantity)
}

/// The discount of each row.
pub open spec fn discount_of(rows: Seq<LineItem>) -> Seq<u16> {
    Seq::new(rows.len(), |i: int| rows[i].l_discount)
}

/// The tax of each row.
pub open spec fn tax_of(rows: Seq<LineItem>) -> Seq<u16> {
    Seq::new(rows.len(), |i: int| rows[i].l_tax)
}

/// The extended price of each row.
pub open spec fn extendedprice_of(rows: Seq<LineItem>) -> Seq<u16> {
    Seq::new(rows.len(), |i: int| rows[i].l_extendedprice)
}

/// The rows that six columns of one length stand for.
pub open spec fn rows_of(
    returnflag: Seq<u8>,
    linestatus: Seq<u8>,
    quantity: Seq<u16>,
    discount: Seq<u16>,
    tax: Seq<u16>,
    extendedprice: Seq<u16>,
) -> Seq<LineItem> {
    Seq::new(
        quantity.len(),
        |i: int|
            LineItem {
                l_returnflag: returnflag[i],
                l_linestatus: linestatus[i],
                l_quantity: quantity[i],
                l_extendedprice: extendedprice[i],
                l_discount: discount[i],
                l_tax: tax[i],
            },
    )
}

/// Two key bytes are told apart by their number, and the number tells both.
pub proof fn lemma_state_index_bijective(rf1: u8, ls1: u8, rf2: u8, ls2: u8)
    ensures
        0 <= state_index(rf1, ls1) < 65536,
        state_index(rf1, ls1) / 256 == rf1,
        state_index(rf1, ls1) % 256 == ls1,
        state_index(rf1, ls1) == state_index(rf2, ls2) <==> rf1 == rf2 && ls1 == ls2,
{
}

/// Every number below 65536 is the number of one pair of key bytes.
pub proof fn lemma_state_index_onto(index: int)
    requires
        0 <= index < 65536,
    ensures
        state_index((index / 256) as u8, (index % 256) as u8) == index,
{
}

} // verus!
