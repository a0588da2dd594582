//! Fixed-width unsigned numbers, little-endian, read from a [`ByteReader`]
//! and written to a [`TrackedWriter`].

use vstd::prelude::*;
use crate::error::FormatError;
use crate::le::{
    le_bytes, le_decode, le_encode, le_limit, le_value, lemma_le_bytes_len, lemma_le_limits,
    lemma_le_value_bound, lemma_le_value_of_bytes,
};
use crate::reader::ByteReader;
use crate::tracked_writer::TrackedWriter;

verus! {

/// Whether `width` bytes lie at offset `pos` of `data`.
pub open spec fn fits(data: Seq<u8>, pos: int, width: int) -> bool {
    0 <= pos && 0 <= width && pos + width <= data.len()
}

/// The little-endian number in the `width` bytes at offset `pos` of `data`.
pub open spec fn number_at(data: Seq<u8>, pos: int, width: int) -> nat {
    le_value(data.subrange(pos, pos + width))
}

/// The bytes of one run: its value, then its length as a `u32`.
pub open spec fn run_bytes(value: u8, count: u32) -> Seq<u8> {
    seq![value] + le_bytes(count as nat, 4)
}

/// Whether `after` is `before` with `bytes` written to it.
pub open spec fn appended(before: &TrackedWriter, after: &TrackedWriter, bytes: Seq<u8>) -> bool {
    after.bytes() == before.bytes() + bytes && after.count() == before.count() + bytes.len()
}

/// A number that was written is the number that is read at the same place,
/// whatever stands before and after it.
pub proof fn lemma_number_round_trip(before: Seq<u8>, value: nat, width: nat, after: Seq<u8>)
    requires
        value < le_limit(width),
    ensures
        fits(before + le_bytes(value, width) + after, before.len() as int, width as int),
        number_at(before + le_bytes(value, width) + after, before.len() as int, width as int)
            == value,
{
    let data = before + le_bytes(value, width) + after;
    lemma_le_bytes_len(value, width);
    lemma_le_value_of_bytes(value, width);
    assert(data.subrange(before.len() as int, (before.len() + width) as int) =~= le_bytes(value, width));
}

/// Reads `width` bytes as a number.
fn read_number(reader: &mut ByteReader, width: usize) -> (result: Result<u64, FormatError>)
    requires
        width <= 8,
    ensures
        match result {
            Ok(value) => {
                &&& fits(old(reader).bytes(), old(reader).offset(), width as int)
                &&& value as nat == number_at(
                    old(reader).bytes(),
                    old(reader).offset(),
                    width as int,
                )
                &&& value < le_limit(width as nat)
                &&& final(reader).advanced(old(reader), width as int)
            },
            Err(e) => {
                &&& !fits(old(reader).bytes(), old(reader).offset(), width as int)
                &&& e == old(reader).eof()
                &&& final(reader).advanced(old(reader), 0)
            },
        },
        0 <= old(reader).offset() <= old(reader).bytes().len(),
{
    match reader.read_exact(width) {
        Ok(bytes) => {
            proof {
                lemma_le_value_bound(bytes@);
            }
            Ok(le_decode(bytes))
        },
        Err(e) => Err(e),
    }
}

/// Reads one byte.
pub fn read_u8(reader: &mut ByteReader) -> (result: Result<u8, FormatError>)
    ensures
        match result {
            Ok(value) => {
                &&& fits(old(reader).bytes(), old(reader).offset(), 1)
                &&& value as nat == number_at(old(reader).bytes(), old(reader).offset(), 1)
                &&& value == old(reader).bytes()[old(reader).offset()]
                &&& final(reader).advanced(old(reader), 1)
            },
            Err(e) => {
                &&& !fits(old(reader).bytes(), old(reader).offset(), 1)
                &&& e == old(reader).eof()
                &&& final(reader).advanced(old(reader), 0)
            },
        },
        0 <= old(reader).offset() <= old(reader).bytes().len(),
{
    proof {
        lemma_le_limits();
        let one = old(reader).bytes().subrange(
            old(reader).offset(),
            old(reader).offset() + 1,
        );
        if fits(old(reader).bytes(), old(reader).offset(), 1) {
            reveal_with_fuel(le_value, 2);
            assert(one.skip(1).len() == 0);
        }
    }
    match read_number(reader, 1) {
        Ok(value) => Ok(value as u8),
        Err(e) => Err(e),
    }
}

/// Reads a little-endian `u16`.
pub fn read_u16(reader: &mut ByteReader) -> (result: Result<u16, FormatError>)
    ensures
        match result {
            Ok(value) => {
                &&& fits(old(reader).bytes(), old(reader).offset(), 2)
                &&& value as nat == number_at(old(reader).bytes(), old(reader).offset(), 2)
                &&& final(reader).advanced(old(reader), 2)
            },
            Err(e) => {
                &&& !fits(old(reader).bytes(), old(reader).offset(), 2)
                &&& e == old(reader).eof()
                &&& final(reader).advanced(old(reader), 0)
            },
        },
        0 <= old(reader).offset() <= old(reader).bytes().len(),
{
    proof {
        lemma_le_limits();
    }
    match read_number(reader, 2) {
        Ok(value) => Ok(value as u16),
        Err(e) => Err(e),
    }
}

/// Reads a little-endian `u32`.
pub fn read_u32(reader: &mut ByteReader) -> (result: Result<u32, FormatError>)
    ensures
        match result {
            Ok(value) => {
                &&& fits(old(reader).bytes(), old(reader).offset(), 4)
                &&& value as nat == number_at(old(reader).bytes(), old(reader).offset(), 4)
                &&& final(reader).advanced(old(reader), 4)
            },
            Err(e) => {
                &&& !fits(old(reader).bytes(), old(reader).offset(), 4)
                &&& e == old(reader).eof()
                &&& final(reader).advanced(old(reader), 0)
            },
        },
        0 <= old(reader).offset() <= old(reader).bytes().len(),
{
    proof {
        lemma_le_limits();
    }
    match read_number(reader, 4) {
        Ok(value) => Ok(value as u32),
        Err(e) => Err(e),
    }
}

/// Reads a little-endian `u64`.
pub fn read_u64(reader: &mut ByteReader) -> (result: Result<u64, FormatError>)
    ensures
        match result {
            Ok(value) => {
                &&& fits(old(reader).bytes(), old(reader).offset(), 8)
                &&& value as nat == number_at(old(reader).bytes(), old(reader).offset(), 8)
                &&& final(reader).advanced(old(reader), 8)
            },
            Err(e) => {
                &&& !fits(old(reader).bytes(), old(reader).offset(), 8)
                &&& e == old(reader).eof()
                &&& final(reader).advanced(old(reader), 0)
            },
        },
        0 <= old(reader).offset() <= old(reader).bytes().len(),
{
    read_number(reader, 8)
}

/// Writes one byte.
pub fn write_u8(writer: &mut TrackedWriter, value: u8)
    ensures
        appended(old(writer), final(writer), le_bytes(value as nat, 1)),
        le_bytes(value as nat, 1) == seq![value],
{
    let bytes = le_encode(value as u64, 1);
    proof {
        lemma_le_bytes_len(value as nat, 1);
        reveal_with_fuel(le_bytes, 2);
        assert(le_bytes(value as nat, 1) =~= seq![value]);
    }
    writer.write(bytes.as_slice());
}

/// Writes a `u16`, low byte first.
pub fn write_u16(writer: &mut TrackedWriter, value: u16)
    ensures
        appended(old(writer), final(writer), le_bytes(value as nat, 2)),
{
    let bytes = le_encode(value as u64, 2);
    proof {
        lemma_le_bytes_len(value as nat, 2);
    }
    writer.write(bytes.as_slice());
}

/// Writes a `u32`, low byte first.
pub fn write_u32(writer: &mut TrackedWriter, value: u32)
    ensures
        appended(old(writer), final(writer), le_bytes(value as nat, 4)),
{
    let bytes = le_encode(value as u64, 4);
    proof {
        lemma_le_bytes_len(value as nat, 4);
    }
    writer.write(bytes.as_slice());
}

/// Writes a `u64`, low byte first.
pub fn write_u64(writer: &mut TrackedWriter, value: u64)
    ensures
        appended(old(writer), final(writer), le_bytes(value as nat, 8)),
{
    let bytes = le_encode(value, 8);
    proof {
        lemma_le_bytes_len(value as nat, 8);
    }
    writer.write(bytes.as_slice());
}

/// Writes one run: the value, then how often it repeats.
pub fn write_repeated_string(writer: &mut TrackedWriter, value: u8, count: u32)
    ensures
        appended(old(writer), final(writer), run_bytes(value, count)),
        run_bytes(value, count).len() == 5,
{
    proof {
        lemma_le_bytes_len(count as nat, 4);
    }
    let ghost start = writer.bytes();
    write_u8(writer, value);
    write_u32(writer, count);
    assert(writer.bytes() =~= start + run_bytes(value, count));
}

/// Reads one run: the value, then how often it repeats. Where fewer than
/// five bytes are left nothing is read.
pub fn read_repeated_string(reader: &mut ByteReader) -> (result: Result<(u8, u32), FormatError>)
    ensures
        match result {
            Ok((value, count)) => {
                &&& fits(old(reader).bytes(), old(reader).offset(), 5)
                &&& value == old(reader).bytes()[old(reader).offset()]
                &&& count as nat == number_at(
                    old(reader).bytes(),
                    old(reader).offset() + 1,
                    4,
                )
                &&& final(reader).advanced(old(reader), 5)
            },
            Err(e) => {
                &&& !fits(old(reader).bytes(), old(reader).offset(), 5)
                &&& e == old(reader).eof()
                &&& final(reader).advanced(old(reader), 0)
            },
        },
        0 <= old(reader).offset() <= old(reader).bytes().len(),
{
    let start = reader.position();
    let value = match read_u8(reader) {
        Ok(value) => value,
        Err(e) => {
            return Err(e);
        },
    };
    match read_u32(reader) {
        Ok(count) => Ok((value, count)),
        Err(e) => {
            reader.rewind(start);
            Err(e)
        },
    }
}

} // verus!
