//! A column of 16-bit measures, two bytes each, low byte first.

use vstd::prelude::*;
use crate::error::FormatError;
use crate::io::{appended, fits, number_at};
use crate::le::{le_bytes, le_value, lemma_le_bytes_len, lemma_le_limits, lemma_le_value_of_bytes};
use crate::reader::ByteReader;
use crate::tracked_writer::TrackedWriter;

verus! {

/// The measures of one column of a row group.
#[derive(Debug, Clone, PartialEq, Eq)]
pub struct U16column {
    pub data: Vec<u16>,
}

impl View for U16column {
    type V = Seq<u16>;

    open spec fn view(&self) -> Seq<u16> {
        self.data@
    }
}

/// The measures laid out one after the other, two bytes each.
pub open spec fn measure_bytes(values: Seq<u16>) -> Seq<u8>
    decreases values.len(),
{
    if values.len() == 0 {
        Seq::empty()
    } else {
        measure_bytes(values.drop_last()) + le_bytes(values.last() as nat, 2)
    }
}

/// The measure with index `i` of the column at offset `pos` of `data`.
pub open spec fn measure_at(data: Seq<u8>, pos: int, i: int) -> u16 {
    number_at(data, pos + 2 * i, 2) as u16
}

/// The `count` measures of the column at offset `pos` of `data`.
pub open spec fn measures_at(data: Seq<u8>, pos: int, count: nat) -> Seq<u16> {
    Seq::new(count, |i: int| measure_at(data, pos, i))
}

/// What the measures add up to.
pub open spec fn sum(values: Seq<u16>) -> nat
    decreases values.len(),
{
    if values.len() == 0 {
        0
    } else {
        sum(values.drop_last()) + values.last() as nat
    }
}

/// Every measure takes two bytes.
pub proof fn lemma_measure_bytes_len(values: Seq<u16>)
    ensures
        measure_bytes(values).len() == 2 * values.len(),
    decreases values.len(),
{
    if values.len() > 0 {
        lemma_measure_bytes_len(values.drop_last());
        lemma_le_bytes_len(values.last() as nat, 2);
    }
}

/// Measure `i` lies in the two bytes at `2 * i`.
pub proof fn lemma_measure_bytes_at(values: Seq<u16>, i: int)
    requires
        0 <= i < values.len(),
    ensures
        2 * i + 2 <= measure_bytes(values).len(),
        measure_bytes(values).subrange(2 * i, 2 * i + 2) == le_bytes(values[i] as nat, 2),
    decreases values.len(),
{
    lemma_measure_bytes_len(values);
    lemma_measure_bytes_len(values.drop_last());
    lemma_le_bytes_len(values.last() as nat, 2);
    if i == values.len() - 1 {
        assert(measure_bytes(values).subrange(2 * i, 2 * i + 2) =~= le_bytes(values[i] as nat, 2));
    } else {
        lemma_measure_bytes_at(values.drop_last(), i);
        assert(measure_bytes(values).subrange(2 * i, 2 * i + 2) =~= measure_bytes(
            values.drop_last(),
        ).subrange(2 * i, 2 * i + 2));
    }
}

/// A column that was written is the column that is read at the same place,
/// whatever stands before and after it.
pub proof fn lemma_measures_round_trip(before: Seq<u8>, values: Seq<u16>, after: Seq<u8>)
    ensures
        fits(
            before + measure_bytes(values) + after,
            before.len() as int,
            2 * (values.len() as int),
        ),
        measures_at(before + measure_bytes(values) + after, before.len() as int, values.len())
            == values,
{
    let data = before + measure_bytes(values) + after;
    let pos = before.len() as int;
    lemma_measure_bytes_len(values);
    lemma_le_limits();
    assert forall|i: int| 0 <= i < values.len() implies measure_at(data, pos, i) == values[i] by {
        lemma_measure_bytes_at(values, i);
        lemma_le_value_of_bytes(values[i] as nat, 2);
        assert(data.subrange(pos + 2 * i, pos + 2 * i + 2) =~= measure_bytes(values).subrange(
            2 * i,
            2 * i + 2,
        ));
    }
    assert(measures_at(data, pos, values.len()) =~= values);
}

/// Adding measures never loses any: a sum is at most 65535 times the number
/// of measures.
pub proof fn lemma_sum_bound(values: Seq<u16>)
    ensures
        sum(values) <= 65535 * values.len(),
    decreases values.len(),
{
    if values.len() > 0 {
        lemma_sum_bound(values.drop_last());
    }
}

/// The sum of two stretches of measures that follow each other.
pub proof fn lemma_sum_concat(front: Seq<u16>, back: Seq<u16>)
    ensures
        sum(front + back) == sum(front) + sum(back),
    decreases back.len(),
{
    if back.len() == 0 {
        assert(front + back =~= front);
    } else {
        lemma_sum_concat(front, back.drop_last());
        assert((front + back).drop_last() =~= front + back.drop_last());
    }
}

/// The `u16` that two bytes spell, low byte first. `bytemuck::cast` reads the
/// pair as a `u16` in the byte order of the machine, and `u16::from_le` takes
/// that for little-endian: together they give `low + 256 * high` on every
/// machine. The cast cannot fail, the two types being of one size. This is
/// taken on trust: nothing of it is proved here.
#[verifier::external_body]
fn u16_from_le_pair(low: u8, high: u8) -> (value: u16)
    ensures
        value as nat == low as nat + 256 * high as nat,
{
    u16::from_le(bytemuck::cast::<[u8; 2], u16>([low, high]))
}

/// Reads a column of `item_count` measures. Where fewer bytes are left than
/// the column takes, nothing is read.
pub fn read_u16_column(reader: &mut ByteReader, item_count: u16) -> (result: Result<
    U16column,
    FormatError,
>)
    ensures
        0 <= old(reader).offset() <= old(reader).bytes().len(),
        match result {
            Ok(column) => {
                &&& fits(old(reader).bytes(), old(reader).offset(), 2 * item_count)
                &&& column@ == measures_at(
                    old(reader).bytes(),
                    old(reader).offset(),
                    item_count as nat,
                )
                &&& final(reader).advanced(old(reader), 2 * item_count)
            },
            Err(e) => {
                &&& !fits(old(reader).bytes(), old(reader).offset(), 2 * item_count)
                &&& e == old(reader).eof()
                &&& final(reader).advanced(old(reader), 0)
            },
        },
{
    let start = reader.position();
    let count = item_count as usize;
    let block = match reader.read_exact(2 * count) {
        Ok(block) => block,
        Err(e) => {
            return Err(e);
        },
    };
    let ghost bytes = reader.bytes();
    let mut data: Vec<u16> = Vec::with_capacity(count);
    let mut i: usize = 0;
    while i < count
        invariant
            i <= count <= u16::MAX,
            0 <= start,
            start + 2 * count <= bytes.len(),
            block@ == bytes.subrange(start as int, start + 2 * count),
            data@ == measures_at(bytes, start as int, count as nat).take(i as int),
        decreases count - i,
    {
        let value = u16_from_le_pair(block[2 * i], block[2 * i + 1]);
        proof {
            let pair = bytes.subrange(start + 2 * i, start + 2 * i + 2);
            reveal_with_fuel(le_value, 3);
            assert(pair.skip(1).skip(1).len() == 0);
            assert(pair[0] == block@[2 * i]);
            assert(pair.skip(1)[0] == block@[2 * i + 1]);
            assert(le_value(pair) == block@[2 * i] as nat + 256 * block@[2 * i + 1] as nat);
        }
        data.push(value);
        proof {
            assert(data@ =~= measures_at(bytes, start as int, count as nat).take(i + 1));
        }
        i = i + 1;
    }
    assert(data@ =~= measures_at(bytes, start as int, count as nat));
    Ok(U16column { data })
}

/// Writes the measures one after the other, two bytes each, from one buffer.
pub fn write_u16_column(values: &[u16], writer: &mut TrackedWriter)
    ensures
        appended(old(writer), final(writer), measure_bytes(values@)),
{
    let mut buffer: Vec<u8> = Vec::new();
    let mut i: usize = 0;
    while i < values.len()
        invariant
            i <= values@.len(),
            buffer@ == measure_bytes(values@.take(i as int)),
        decreases values@.len() - i,
    {
        let value = values[i];
        let ghost before = buffer@;
        buffer.push((value % 256) as u8);
        buffer.push((value / 256) as u8);
        proof {
            reveal_with_fuel(le_bytes, 3);
            assert(le_bytes(value as nat, 2) =~= seq![(value % 256) as u8, (value / 256) as u8]);
            assert(values@.take(i + 1).drop_last() =~= values@.take(i as int));
            assert(buffer@ =~= before + le_bytes(value as nat, 2));
        }
        i = i + 1;
    }
    proof {
        assert(values@.take(values@.len() as int) =~= values@);
    }
    writer.write(buffer.as_slice());
}

/// The sum of the `count` measures that start at index `start`.
pub fn sum_u16s(data: &U16column, start: usize, count: usize) -> (total: u64)
    requires
        start + count <= data@.len(),
        sum(data@.subrange(start as int, start + count)) <= u64::MAX,
    ensures
        total == sum(data@.subrange(start as int, start + count)),
{
    let ghost stretch = data@.subrange(start as int, start + count);
    let len = data.data.len();
    let mut total: u64 = 0;
    let mut i: usize = 0;
    while i < count
        invariant
            i <= count,
            start + count <= data@.len() == len,
            stretch == data@.subrange(start as int, start + count),
            total == sum(stretch.take(i as int)),
            sum(stretch) <= u64::MAX,
        decreases count - i,
    {
        proof {
            assert(stretch.take(i + 1).drop_last() =~= stretch.take(i as int));
            assert(stretch =~= stretch.take(i + 1) + stretch.skip(i + 1));
            lemma_sum_concat(stretch.take(i + 1), stretch.skip(i + 1));
        }
        total = total + data.data[start + i] as u64;
        i = i + 1;
    }
    assert(stretch.take(count as int) =~= stretch);
    total
}

} // verus!
