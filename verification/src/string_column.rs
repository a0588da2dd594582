//! A column of single-byte values, stored as runs of equal values: the
//! number of runs as a `u64`, then five bytes for each run.

use vstd::prelude::*;
use vstd::slice::slice_subrange;
use vstd::string::StringSliceAdditionalSpecFns;
use crate::error::FormatError;
use crate::io::{
    appended, fits, number_at, read_repeated_string, read_u64, run_bytes, write_repeated_string,
    write_u64,
};
use crate::le::{
    le_bytes, le_decode, le_limit, lemma_le_bytes_len, lemma_le_limits,
    lemma_le_value_bound, lemma_le_value_of_bytes,
};
use crate::reader::ByteReader;
use crate::runs::{
    collapse, expand, is_collapsed, lemma_collapse_is_collapsed, lemma_collapse_last,
    lemma_collapse_run, lemma_expand_collapse, lemma_expand_len, lemma_expand_run,
    lemma_runs_at_most_total, lemma_total_step, lemma_total_take, total,
};
use crate::tracked_writer::TrackedWriter;

verus! {

/// The runs laid out one after the other, five bytes each.
pub open spec fn packed(runs: Seq<(u8, u32)>) -> Seq<u8>
    decreases runs.len(),
{
    if runs.len() == 0 {
        Seq::empty()
    } else {
        packed(runs.drop_last()) + run_bytes(runs.last().0, runs.last().1)
    }
}

/// A column as it is stored: the number of runs as a `u64`, then the runs.
pub open spec fn column_bytes(runs: Seq<(u8, u32)>) -> Seq<u8> {
    le_bytes(runs.len(), 8) + packed(runs)
}

/// The number of runs that the column at offset `pos` of `data` announces.
pub open spec fn run_count_at(data: Seq<u8>, pos: int) -> nat {
    number_at(data, pos, 8)
}

/// Whether a whole column lies at offset `pos` of `data`.
pub open spec fn column_fits(data: Seq<u8>, pos: int) -> bool {
    fits(data, pos, 8) && pos + 8 + 5 * run_count_at(data, pos) <= data.len()
}

/// The offset just behind the column at offset `pos` of `data`.
pub open spec fn column_end(data: Seq<u8>, pos: int) -> int {
    pos + 8 + 5 * run_count_at(data, pos)
}

/// The run with index `i` of the column at offset `pos` of `data`.
pub open spec fn run_at(data: Seq<u8>, pos: int, i: int) -> (u8, u32) {
    (data[pos + 8 + 5 * i], number_at(data, pos + 8 + 5 * i + 1, 4) as u32)
}

/// The runs of the column at offset `pos` of `data`.
pub open spec fn runs_at(data: Seq<u8>, pos: int) -> Seq<(u8, u32)> {
    Seq::new(run_count_at(data, pos), |i: int| run_at(data, pos, i))
}

/// Every run takes five bytes.
pub proof fn lemma_packed_len(runs: Seq<(u8, u32)>)
    ensures
        packed(runs).len() == 5 * runs.len(),
    decreases runs.len(),
{
    if runs.len() > 0 {
        lemma_packed_len(runs.drop_last());
        lemma_le_bytes_len(runs.last().1 as nat, 4);
    }
}

/// Run `i` lies in the five bytes at `5 * i`.
pub proof fn lemma_packed_run(runs: Seq<(u8, u32)>, i: int)
    requires
        0 <= i < runs.len(),
    ensures
        5 * i + 5 <= packed(runs).len(),
        packed(runs).subrange(5 * i, 5 * i + 5) == run_bytes(runs[i].0, runs[i].1),
    decreases runs.len(),
{
    lemma_packed_len(runs);
    lemma_packed_len(runs.drop_last());
    lemma_le_bytes_len(runs.last().1 as nat, 4);
    if i == runs.len() - 1 {
        assert(packed(runs).subrange(5 * i, 5 * i + 5) =~= run_bytes(runs[i].0, runs[i].1));
    } else {
        lemma_packed_run(runs.drop_last(), i);
        assert(packed(runs).subrange(5 * i, 5 * i + 5) =~= packed(runs.drop_last()).subrange(
            5 * i,
            5 * i + 5,
        ));
    }
}

/// A column that was written is the column that is read at the same place,
/// whatever stands before and after it.
pub proof fn lemma_column_round_trip(before: Seq<u8>, runs: Seq<(u8, u32)>, after: Seq<u8>)
    requires
        runs.len() < le_limit(8),
    ensures
        column_fits(before + column_bytes(runs) + after, before.len() as int),
        runs_at(before + column_bytes(runs) + after, before.len() as int) == runs,
        column_end(before + column_bytes(runs) + after, before.len() as int) == before.len()
            + column_bytes(runs).len(),
{
    let data = before + column_bytes(runs) + after;
    let pos = before.len() as int;
    lemma_le_bytes_len(runs.len(), 8);
    lemma_le_value_of_bytes(runs.len(), 8);
    lemma_packed_len(runs);
    assert(data.subrange(pos, pos + 8) =~= le_bytes(runs.len(), 8));
    assert(run_count_at(data, pos) == runs.len());
    assert forall|i: int| 0 <= i < runs.len() implies run_at(data, pos, i) == runs[i] by {
        lemma_packed_run(runs, i);
        lemma_le_limits();
        lemma_le_bytes_len(runs[i].1 as nat, 4);
        lemma_le_value_of_bytes(runs[i].1 as nat, 4);
        let run = run_bytes(runs[i].0, runs[i].1);
        assert(data.subrange(pos + 8 + 5 * i, pos + 8 + 5 * i + 5) =~= packed(runs).subrange(
            5 * i,
            5 * i + 5,
        ));
        assert(data[pos + 8 + 5 * i] == data.subrange(pos + 8 + 5 * i, pos + 8 + 5 * i + 5)[0]);
        assert(data.subrange(pos + 8 + 5 * i + 1, pos + 8 + 5 * i + 1 + 4) =~= run.subrange(1, 5));
        assert(run.subrange(1, 5) =~= le_bytes(runs[i].1 as nat, 4));
    }
    assert(runs_at(data, pos) =~= runs);
}

/// Values that were written as a column of their runs are the values that
/// the column stands for when it is read at the same place: its runs are the
/// runs of the values, and they stand for as many values as were written.
pub proof fn lemma_values_round_trip(before: Seq<u8>, values: Seq<u8>, after: Seq<u8>)
    requires
        values.len() <= u32::MAX,
    ensures
        column_fits(before + column_bytes(collapse(values)) + after, before.len() as int),
        runs_at(before + column_bytes(collapse(values)) + after, before.len() as int) == collapse(
            values,
        ),
        expand(runs_at(before + column_bytes(collapse(values)) + after, before.len() as int))
            == values,
        total(runs_at(before + column_bytes(collapse(values)) + after, before.len() as int))
            == values.len(),
{
    let runs = collapse(values);
    lemma_collapse_last(values);
    lemma_collapse_is_collapsed(values);
    lemma_runs_at_most_total(runs);
    lemma_le_limits();
    lemma_column_round_trip(before, runs, after);
    lemma_expand_collapse(values);
}

/// Collapses `input` into runs of equal neighbours, which replace what
/// `data` held, and returns the number of runs.
pub fn write_vec_to_data_array(input: &[u8], data: &mut Vec<(u8, u32)>) -> (column_length: u64)
    requires
        input@.len() <= u32::MAX,
    ensures
        final(data)@ == collapse(input@),
        expand(final(data)@) == input@,
        is_collapsed(final(data)@),
        column_length == final(data)@.len(),
{
    data.clear();
    let n = input.len();
    let mut column_length: u64 = 0;
    let mut i: usize = 0;
    assert(input@.take(0) =~= Seq::<u8>::empty());
    while i < n
        invariant
            n == input@.len(),
            n <= u32::MAX,
            i <= n,
            data@ == collapse(input@.take(i as int)),
            column_length == data@.len(),
            data@.len() <= i,
            0 < i < n ==> input@[i - 1] != input@[i as int],
        decreases n - i,
    {
        let value = input[i];
        let start = i;
        let mut count: u32 = 1;
        i = i + 1;
        while i < n && input[i] == value
            invariant
                n == input@.len(),
                n <= u32::MAX,
                start < i <= n,
                count == i - start,
                forall|k: int| start <= k < i ==> input@[k] == value,
            decreases n - i,
        {
            count = count + 1;
            i = i + 1;
        }
        proof {
            lemma_collapse_run(input@, start as int, i as int, value);
        }
        data.push((value, count));
        column_length = column_length + 1;
    }
    proof {
        assert(input@.take(n as int) =~= input@);
        lemma_expand_collapse(input@);
        lemma_collapse_is_collapsed(input@);
    }
    column_length
}

/// Writes a column in one piece: the number of runs, then all runs from one
/// buffer.
pub fn write_u8_string_column_from_vec(writer: &mut TrackedWriter, data: &[(u8, u32)])
    ensures
        appended(old(writer), final(writer), column_bytes(data@)),
{
    let ghost start = writer.bytes();
    write_u64(writer, data.len() as u64);
    let mut buffer: Vec<u8> = Vec::new();
    let mut i: usize = 0;
    while i < data.len()
        invariant
            i <= data@.len(),
            buffer@ == packed(data@.take(i as int)),
        decreases data@.len() - i,
    {
        let (value, count) = data[i];
        let ghost before = buffer@;
        buffer.push(value);
        buffer.push((count % 256) as u8);
        buffer.push((count / 256 % 256) as u8);
        buffer.push((count / 65536 % 256) as u8);
        buffer.push((count / 16777216) as u8);
        proof {
            reveal_with_fuel(le_bytes, 5);
            assert(le_bytes(count as nat, 4) =~= seq![
                (count % 256) as u8,
                (count / 256 % 256) as u8,
                (count / 65536 % 256) as u8,
                (count / 16777216) as u8,
            ]);
            assert(data@.take(i + 1).drop_last() =~= data@.take(i as int));
            assert(buffer@ =~= before + run_bytes(value, count));
        }
        i = i + 1;
    }
    proof {
        assert(data@.take(data@.len() as int) =~= data@);
        lemma_le_bytes_len(data@.len(), 8);
    }
    writer.write(buffer.as_slice());
    assert(writer.bytes() =~= start + column_bytes(data@));
}

/// Writes a column run by run: the number of runs, then each run on its own.
pub fn write_u8_string_column_by_entry(writer: &mut TrackedWriter, data: &[(u8, u32)])
    ensures
        appended(old(writer), final(writer), column_bytes(data@)),
{
    let ghost start = writer.bytes();
    let ghost counted = writer.count();
    write_u64(writer, data.len() as u64);
    proof {
        lemma_le_bytes_len(data@.len(), 8);
    }
    let mut i: usize = 0;
    while i < data.len()
        invariant
            i <= data@.len(),
            writer.bytes() == start + le_bytes(data@.len(), 8) + packed(data@.take(i as int)),
            writer.count() == counted + 8 + 5 * i,
        decreases data@.len() - i,
    {
        let (value, count) = data[i];
        let ghost before = writer.bytes();
        write_repeated_string(writer, value, count);
        proof {
            assert(data@.take(i + 1).drop_last() =~= data@.take(i as int));
            assert(writer.bytes() =~= start + le_bytes(data@.len(), 8) + packed(
                data@.take(i + 1),
            ));
        }
        i = i + 1;
    }
    proof {
        assert(data@.take(data@.len() as int) =~= data@);
        lemma_packed_len(data@);
        assert(writer.bytes() =~= start + column_bytes(data@));
    }
}

/// Reads a column in one piece: the number of runs, then all runs as one
/// block, which replace what `data` held. Returns the number of runs. Where
/// the stream ends before the column does, nothing is read and `data` stays
/// as it is.
pub fn read_u8_string_column_to_vec(reader: &mut ByteReader, data: &mut Vec<(u8, u32)>) -> (result:
    Result<u64, FormatError>)
    ensures
        0 <= old(reader).offset() <= old(reader).bytes().len(),
        match result {
            Ok(column_entries) => {
                &&& column_fits(old(reader).bytes(), old(reader).offset())
                &&& column_entries == run_count_at(old(reader).bytes(), old(reader).offset())
                &&& final(data)@ == runs_at(old(reader).bytes(), old(reader).offset())
                &&& final(reader).advanced(old(reader), 8 + 5 * column_entries)
            },
            Err(e) => {
                &&& !column_fits(old(reader).bytes(), old(reader).offset())
                &&& e == old(reader).eof()
                &&& final(reader).advanced(old(reader), 0)
                &&& final(data)@ == old(data)@
            },
        },
{
    let start = reader.position();
    let column_entries = match read_u64(reader) {
        Ok(n) => n,
        Err(e) => {
            return Err(e);
        },
    };
    let available = reader.available();
    if column_entries > (available / 5) as u64 {
        reader.rewind(start);
        return Err(reader.end_of_stream());
    }
    let runs = column_entries as usize;
    let block = match reader.read_exact(5 * runs) {
        Ok(block) => block,
        Err(e) => {
            reader.rewind(start);
            return Err(e);
        },
    };
    let ghost bytes = reader.bytes();
    data.clear();
    let mut i: usize = 0;
    while i < runs
        invariant
            i <= runs,
            5 * runs <= usize::MAX,
            block@.len() == 5 * runs,
            runs == run_count_at(bytes, start as int),
            0 <= start,
            start + 8 + 5 * runs <= bytes.len(),
            block@ == bytes.subrange(start + 8, start + 8 + 5 * runs),
            data@ == runs_at(bytes, start as int).take(i as int),
        decreases runs - i,
    {
        let value = block[5 * i];
        let tail = slice_subrange(block, 5 * i + 1, 5 * i + 5);
        proof {
            lemma_le_value_bound(tail@);
            lemma_le_limits();
            assert(tail@ =~= bytes.subrange(start + 8 + 5 * i + 1, start + 8 + 5 * i + 1 + 4));
        }
        let count = le_decode(tail) as u32;
        let ghost before = data@;
        data.push((value, count));
        proof {
            assert(data@ =~= runs_at(bytes, start as int).take(i + 1));
        }
        i = i + 1;
    }
    assert(data@ =~= runs_at(bytes, start as int));
    Ok(column_entries)
}

/// Reads a column run by run: the number of runs, then each run on its own.
/// The runs replace what `data` held. Returns the number of runs. Where the
/// stream ends before the column does, nothing is read and `data` stays as it
/// is.
pub fn read_u8_string_column_by_entry(reader: &mut ByteReader, data: &mut Vec<(u8, u32)>) -> (result:
    Result<u64, FormatError>)
    ensures
        0 <= old(reader).offset() <= old(reader).bytes().len(),
        match result {
            Ok(column_entries) => {
                &&& column_fits(old(reader).bytes(), old(reader).offset())
                &&& column_entries == run_count_at(old(reader).bytes(), old(reader).offset())
                &&& final(data)@ == runs_at(old(reader).bytes(), old(reader).offset())
                &&& final(reader).advanced(old(reader), 8 + 5 * column_entries)
            },
            Err(e) => {
                &&& !column_fits(old(reader).bytes(), old(reader).offset())
                &&& e == old(reader).eof()
                &&& final(reader).advanced(old(reader), 0)
                &&& final(data)@ == old(data)@
            },
        },
{
    let start = reader.position();
    let column_entries = match read_u64(reader) {
        Ok(n) => n,
        Err(e) => {
            return Err(e);
        },
    };
    let ghost bytes = reader.bytes();
    let mut runs: Vec<(u8, u32)> = Vec::new();
    let mut i: u64 = 0;
    while i < column_entries
        invariant
            i <= column_entries,
            column_entries == run_count_at(bytes, start as int),
            bytes == old(reader).bytes(),
            start == old(reader).offset(),
            0 <= start <= bytes.len(),
            fits(bytes, start as int, 8),
            reader.bytes() == bytes,
            reader.offset() == start + 8 + 5 * i,
            reader.offset() <= bytes.len(),
            runs@ == runs_at(bytes, start as int).take(i as int),
        decreases column_entries - i,
    {
        match read_repeated_string(reader) {
            Ok(run) => {
                runs.push(run);
                proof {
                    assert(runs@ =~= runs_at(bytes, start as int).take(i + 1));
                }
            },
            Err(e) => {
                reader.rewind(start);
                return Err(e);
            },
        }
        i = i + 1;
    }
    assert(runs@ =~= runs_at(bytes, start as int));
    *data = runs;
    Ok(column_entries)
}

/// The first byte of each string.
pub open spec fn first_bytes(strings: Seq<&str>) -> Seq<u8> {
    Seq::new(strings.len(), |i: int| strings[i].spec_bytes()[0])
}

/// A column of single-byte values, held as runs, with a cursor that walks
/// over the values one by one.
#[derive(Debug)]
pub struct StringColumnReader {
    data: Vec<(u8, u32)>,
    item_index: usize,
    repeat_index: u32,
}

impl StringColumnReader {
    #[verifier::type_invariant]
    spec fn cursor_in_bounds(self) -> bool {
        &&& self.item_index <= self.data@.len()
        &&& self.item_index < self.data@.len() ==> self.repeat_index <= self.data@[self.item_index as int].1
        &&& self.item_index == self.data@.len() ==> self.repeat_index == 0
    }

    /// The runs of the column, in order.
    pub closed spec fn runs(&self) -> Seq<(u8, u32)> {
        self.data@
    }

    /// How many values the cursor has handed out.
    pub closed spec fn cursor(&self) -> nat {
        total(self.data@.take(self.item_index as int)) + self.repeat_index as nat
    }

    /// The values of the column, in order.
    pub open spec fn values(&self) -> Seq<u8> {
        expand(self.runs())
    }

    /// The column that holds the first byte of each string, in runs that are
    /// as long as they can be.
    pub fn new_from_strings(strings: Vec<&str>) -> (column: Self)
        requires
            strings@.len() <= u32::MAX,
            forall|i: int| 0 <= i < strings@.len() ==> (#[trigger] strings@[i]).spec_bytes().len() > 0,
        ensures
            column.runs() == collapse(first_bytes(strings@)),
            column.values() == first_bytes(strings@),
            is_collapsed(column.runs()),
            column.cursor() == 0,
    {
        let mut keys: Vec<u8> = Vec::with_capacity(strings.len());
        let mut i: usize = 0;
        while i < strings.len()
            invariant
                i <= strings@.len(),
                forall|k: int|
                    0 <= k < strings@.len() ==> (#[trigger] strings@[k]).spec_bytes().len() > 0,
                keys@ == first_bytes(strings@).take(i as int),
            decreases strings@.len() - i,
        {
            let bytes = strings[i].as_bytes();
            keys.push(bytes[0]);
            proof {
                assert(keys@ =~= first_bytes(strings@).take(i + 1));
            }
            i = i + 1;
        }
        assert(keys@ =~= first_bytes(strings@));
        StringColumnReader::from_values(keys.as_slice())
    }

    /// The column that holds `values`, in runs that are as long as they can be.
    pub fn from_values(values: &[u8]) -> (column: Self)
        requires
            values@.len() <= u32::MAX,
        ensures
            column.runs() == collapse(values@),
            column.values() == values@,
            is_collapsed(column.runs()),
            column.cursor() == 0,
    {
        let mut data: Vec<(u8, u32)> = Vec::new();
        write_vec_to_data_array(values, &mut data);
        assert(data@.take(0) =~= Seq::<(u8, u32)>::empty());
        StringColumnReader { data, item_index: 0, repeat_index: 0 }
    }

    /// A column without values.
    pub fn empty() -> (column: Self)
        ensures
            column.runs() == Seq::<(u8, u32)>::empty(),
            column.cursor() == 0,
    {
        let data: Vec<(u8, u32)> = Vec::new();
        assert(data@.take(0) =~= Seq::<(u8, u32)>::empty());
        StringColumnReader { data, item_index: 0, repeat_index: 0 }
    }

    /// Reads a column. Where the stream ends before the column does, nothing
    /// is read.
    pub fn new(reader: &mut ByteReader) -> (result: Result<Self, FormatError>)
        ensures
            0 <= old(reader).offset() <= old(reader).bytes().len(),
            match result {
                Ok(column) => {
                    &&& column_fits(old(reader).bytes(), old(reader).offset())
                    &&& column.runs() == runs_at(old(reader).bytes(), old(reader).offset())
                    &&& column.cursor() == 0
                    &&& final(reader).bytes() == old(reader).bytes()
                    &&& final(reader).offset() == column_end(
                        old(reader).bytes(),
                        old(reader).offset(),
                    )
                },
                Err(e) => {
                    &&& !column_fits(old(reader).bytes(), old(reader).offset())
                    &&& e == old(reader).eof()
                    &&& final(reader).advanced(old(reader), 0)
                },
            },
    {
        let mut data: Vec<(u8, u32)> = Vec::new();
        match read_u8_string_column_to_vec(reader, &mut data) {
            Ok(_) => {
                assert(data@.take(0) =~= Seq::<(u8, u32)>::empty());
                Ok(StringColumnReader { data, item_index: 0, repeat_index: 0 })
            },
            Err(e) => Err(e),
        }
    }

    /// Writes the column: the number of runs, then the runs.
    pub fn write(&self, writer: &mut TrackedWriter)
        ensures
            appended(old(writer), final(writer), column_bytes(self.runs())),
    {
        write_u8_string_column_from_vec(writer, self.data.as_slice());
    }

    /// The runs of the column, in order.
    pub fn as_runs(&self) -> (runs: &[(u8, u32)])
        ensures
            runs@ == self.runs(),
    {
        self.data.as_slice()
    }

    /// An iterator over the runs of the column, in order.
    pub fn compressed_iterator(&self) -> (iter: core::slice::Iter<'_, (u8, u32)>)
        ensures
            vstd::std_specs::iter::IteratorSpec::remaining(&iter) == self.runs().as_ref(),
            vstd::std_specs::iter::IteratorSpec::decrease(&iter) is Some,
            vstd::std_specs::iter::IteratorSpec::initial_value_relation(&iter, &iter),
    {
        broadcast use vstd::std_specs::slice::axiom_spec_slice_iter;
        self.data.as_slice().iter()
    }

    /// Replaces the column by one that is read from `reader`, and puts the
    /// cursor at its start. Where the stream ends before the column does,
    /// nothing is read and the column stays as it is.
    pub fn read(&mut self, reader: &mut ByteReader) -> (result: Result<(), FormatError>)
        ensures
            0 <= old(reader).offset() <= old(reader).bytes().len(),
            match result {
                Ok(()) => {
                    &&& column_fits(old(reader).bytes(), old(reader).offset())
                    &&& final(self).runs() == runs_at(old(reader).bytes(), old(reader).offset())
                    &&& final(self).cursor() == 0
                    &&& final(reader).bytes() == old(reader).bytes()
                    &&& final(reader).offset() == column_end(
                        old(reader).bytes(),
                        old(reader).offset(),
                    )
                },
                Err(e) => {
                    &&& !column_fits(old(reader).bytes(), old(reader).offset())
                    &&& e == old(reader).eof()
                    &&& final(reader).advanced(old(reader), 0)
                    &&& final(self).runs() == old(self).runs()
                    &&& final(self).cursor() == old(self).cursor()
                },
            },
    {
        proof {
            use_type_invariant(&*self);
        }
        let mut taken = StringColumnReader::empty();
        core::mem::swap(self, &mut taken);
        let StringColumnReader { data: mut data, item_index, repeat_index } = taken;
        match read_u8_string_column_to_vec(reader, &mut data) {
            Ok(_) => {
                assert(data@.take(0) =~= Seq::<(u8, u32)>::empty());
                *self = StringColumnReader { data, item_index: 0, repeat_index: 0 };
                Ok(())
            },
            Err(e) => {
                *self = StringColumnReader { data, item_index, repeat_index };
                Err(e)
            },
        }
    }

    /// The number of values in the column.
    pub fn count_strings(&self) -> (count: u64)
        requires
            total(self.runs()) <= u64::MAX,
        ensures
            count == total(self.runs()),
            count == self.values().len(),
    {
        let mut count: u64 = 0;
        let mut i: usize = 0;
        while i < self.data.len()
            invariant
                i <= self.data@.len(),
                count == total(self.data@.take(i as int)),
                total(self.data@) <= u64::MAX,
            decreases self.data@.len() - i,
        {
            proof {
                lemma_total_step(self.data@, i as int);
                lemma_total_take(self.data@, i + 1);
            }
            count = count + self.data[i].1 as u64;
            i = i + 1;
        }
        proof {
            assert(self.data@.take(self.data@.len() as int) =~= self.data@);
            lemma_expand_len(self.data@);
        }
        count
    }

    /// Whether the column holds exactly `count` values.
    pub fn has_total(&self, count: u64) -> (same: bool)
        ensures
            same == (total(self.runs()) == count),
    {
        let mut seen: u64 = 0;
        let mut i: usize = 0;
        while i < self.data.len()
            invariant
                i <= self.data@.len(),
                seen == total(self.data@.take(i as int)),
                seen <= count,
            decreases self.data@.len() - i,
        {
            proof {
                lemma_total_step(self.data@, i as int);
                lemma_total_take(self.data@, i + 1);
            }
            let run = self.data[i].1 as u64;
            if run > count - seen {
                return false;
            }
            seen = seen + run;
            i = i + 1;
        }
        proof {
            assert(self.data@.take(self.data@.len() as int) =~= self.data@);
        }
        seen == count
    }

    /// The values of the column, in order.
    pub fn expanded(&self) -> (values: Vec<u8>)
        requires
            total(self.runs()) <= usize::MAX,
        ensures
            values@ == self.values(),
    {
        let mut values: Vec<u8> = Vec::new();
        let mut i: usize = 0;
        while i < self.data.len()
            invariant
                i <= self.data@.len(),
                values@ == expand(self.data@.take(i as int)),
            decreases self.data@.len() - i,
        {
            let (value, count) = self.data[i];
            let ghost before = values@;
            let mut k: u32 = 0;
            while k < count
                invariant
                    k <= count,
                    values@ == before + Seq::new(k as nat, |j: int| value),
                decreases count - k,
            {
                values.push(value);
                proof {
                    assert(values@ =~= before + Seq::new((k + 1) as nat, |j: int| value));
                }
                k = k + 1;
            }
            proof {
                lemma_total_step(self.data@, i as int);
            }
            i = i + 1;
        }
        proof {
            assert(self.data@.take(self.data@.len() as int) =~= self.data@);
        }
        values
    }

    /// The value under the cursor, which moves on by one; `None` once every
    /// value has been handed out.
    pub fn next(&mut self) -> (value: Option<u8>)
        ensures
            final(self).runs() == old(self).runs(),
            old(self).cursor() <= old(self).values().len(),
            match value {
                Some(v) => {
                    &&& old(self).cursor() < old(self).values().len()
                    &&& v == old(self).values()[old(self).cursor() as int]
                    &&& final(self).cursor() == old(self).cursor() + 1
                },
                None => {
                    &&& old(self).cursor() == old(self).values().len()
                    &&& final(self).cursor() == old(self).cursor()
                },
            },
    {
        proof {
            use_type_invariant(&*self);
            lemma_expand_len(self.data@);
        }
        loop
            invariant
                self.data@ == old(self).data@,
                self.cursor() == old(self).cursor(),
                self.cursor_in_bounds(),
                expand(self.data@).len() == total(self.data@),
            decreases self.data@.len() - self.item_index,
        {
            if self.item_index >= self.data.len() {
                proof {
                    assert(self.data@.take(self.data@.len() as int) =~= self.data@);
                }
                return None;
            }
            let (value, count) = self.data[self.item_index];
            proof {
                lemma_total_step(self.data@, self.item_index as int);
                lemma_total_take(self.data@, self.item_index + 1);
            }
            if self.repeat_index < count {
                proof {
                    lemma_expand_run(self.data@, self.item_index as int, self.cursor() as int);
                }
                self.repeat_index = self.repeat_index + 1;
                return Some(value);
            }
            self.repeat_index = 0;
            self.item_index = self.item_index + 1;
        }
    }
}

} // verus!
