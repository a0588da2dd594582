use abdb::io::write_u16;
use abdb::sort::sort_line_items;
use abdb::string_column::{write_u8_string_column_from_vec, StringColumnReader};
use abdb::u16_column::{sum_u16s, write_u16_column};
use abdb::{
    read_row_group, read_u16_column, write_batch, write_row_group, ByteReader, FormatError,
    LineItem, TrackedWriter, U16column,
};

fn item(returnflag: u8, linestatus: u8, quantity: u16) -> LineItem {
    LineItem {
        l_returnflag: returnflag,
        l_linestatus: linestatus,
        l_quantity: quantity,
        l_extendedprice: quantity.wrapping_mul(3).wrapping_add(1),
        l_discount: quantity % 11,
        l_tax: quantity % 9,
    }
}

#[test]
fn test_write_and_read_row_group() {
    let lineitems: Vec<LineItem> = (0..20)
        .map(|_| LineItem {
            l_returnflag: b'A',
            l_linestatus: b'B',
            l_quantity: 100,
            l_extendedprice: 200,
            l_discount: 300,
            l_tax: 400,
        })
        .collect();
    let mut writer = TrackedWriter::new(Vec::new());

    write_row_group(&lineitems[0..9], &mut writer);
    write_row_group(&lineitems[9..20], &mut writer);

    let binding = writer.into_inner();
    let mut reader = ByteReader::new(&binding);

    let read_lineitems1 = read_row_group(&mut reader).unwrap().line_items();
    let read_lineitems2 = read_row_group(&mut reader).unwrap().line_items();
    let read_lineitems = read_lineitems1
        .iter()
        .chain(read_lineitems2.iter())
        .cloned()
        .collect::<Vec<LineItem>>();

    assert_eq!(lineitems.to_vec(), read_lineitems);
}

#[test]
fn test_save_data() {
    let rows: Vec<LineItem> = (0..20000u32)
        .map(|i| item(b"ANR"[(i % 3) as usize], b"FO"[(i % 2) as usize], (i % 5000) as u16))
        .collect();
    let mut writer = TrackedWriter::new(Vec::new());
    let mut batch = Vec::with_capacity(8000);
    let mut batches = 0;
    for row in &rows {
        batch.push(*row);
        if batch.len() == 8000 {
            write_batch(&mut writer, &mut batch);
            batch.clear();
            batches += 1;
        }
    }
    if !batch.is_empty() {
        write_batch(&mut writer, &mut batch);
        batches += 1;
    }
    assert_eq!(batches, 3);
    let written = writer.bytes_written();
    let bytes = writer.into_inner();
    assert_eq!(written, bytes.len());
    // Six keys, so six runs of line status and three of return flag in each group.
    let group = |n: usize| 2 + (8 + 6 * 5) + (8 + 3 * 5) + 8 * n;
    assert_eq!(bytes.len(), group(8000) + group(8000) + group(4000));

    let mut reader = ByteReader::new(&bytes);
    let mut counts = Vec::new();
    while !reader.is_empty() {
        counts.push(read_row_group(&mut reader).unwrap().item_count());
    }
    assert_eq!(counts, vec![8000, 8000, 4000]);
}

#[test]
fn a_row_group_is_laid_out_byte_by_byte() {
    let rows = [
        LineItem {
            l_returnflag: b'A',
            l_linestatus: b'F',
            l_quantity: 0x0102,
            l_extendedprice: 0x0a0b,
            l_discount: 5,
            l_tax: 0xffff,
        },
        LineItem {
            l_returnflag: b'A',
            l_linestatus: b'O',
            l_quantity: 1,
            l_extendedprice: 2,
            l_discount: 3,
            l_tax: 4,
        },
    ];
    let mut writer = TrackedWriter::new(Vec::new());
    write_row_group(&rows, &mut writer);
    let expected: Vec<u8> = vec![
        2, 0, // item count
        2, 0, 0, 0, 0, 0, 0, 0, b'F', 1, 0, 0, 0, b'O', 1, 0, 0, 0, // line status
        1, 0, 0, 0, 0, 0, 0, 0, b'A', 2, 0, 0, 0, // return flag
        0x02, 0x01, 1, 0, // quantity
        5, 0, 3, 0, // discount
        0xff, 0xff, 4, 0, // tax
        0x0b, 0x0a, 2, 0, // extended price
    ];
    assert_eq!(writer.bytes_written(), expected.len());
    assert_eq!(writer.into_inner(), expected);
}

#[test]
fn a_row_group_hands_out_its_columns() {
    let rows: Vec<LineItem> = (0..100u16).map(|i| item(b'A' + (i / 50) as u8, b'F' + (i / 25 % 2) as u8, i * 7)).collect();
    let mut writer = TrackedWriter::new(Vec::new());
    write_row_group(&rows, &mut writer);
    let bytes = writer.into_inner();
    let mut reader = ByteReader::new(&bytes);
    let group = read_row_group(&mut reader).unwrap();
    assert!(reader.is_empty());
    assert_eq!(group.item_count(), 100);
    assert_eq!(group.returnflag().as_runs(), &[(b'A', 50), (b'B', 50)]);
    assert_eq!(group.linestatus().as_runs(), &[(b'F', 25), (b'G', 25), (b'F', 25), (b'G', 25)]);
    assert_eq!(group.linestatus().count_strings(), 100);
    assert_eq!(group.returnflag().count_strings(), 100);
    for (i, row) in rows.iter().enumerate() {
        assert_eq!(group.quantity().data[i], row.l_quantity);
        assert_eq!(group.discount().data[i], row.l_discount);
        assert_eq!(group.tax().data[i], row.l_tax);
        assert_eq!(group.extendedprice().data[i], row.l_extendedprice);
    }
    assert_eq!(group.line_items(), rows);
}

#[test]
fn a_batch_is_sorted_and_comes_back_sorted() {
    let mut seed: u32 = 99;
    for len in [1usize, 2, 3, 17, 1000, 8000] {
        let mut batch: Vec<LineItem> = Vec::with_capacity(len);
        for i in 0..len {
            seed = seed.wrapping_mul(1664525).wrapping_add(1013904223);
            batch.push(item(b"ANR"[(seed >> 28) as usize % 3], b"FO"[(seed >> 20) as usize % 2], i as u16));
        }
        let input = batch.clone();
        let mut writer = TrackedWriter::new(Vec::new());
        write_batch(&mut writer, &mut batch);

        let mut expected = input.clone();
        expected.sort_by_key(|row| (row.l_returnflag, row.l_linestatus));
        assert_eq!(batch, expected);

        let bytes = writer.into_inner();
        let mut reader = ByteReader::new(&bytes);
        let read = read_row_group(&mut reader).unwrap().line_items();
        assert!(reader.is_empty());
        assert_eq!(read, expected);
        for pair in read.windows(2) {
            assert!((pair[0].l_returnflag, pair[0].l_linestatus) <= (pair[1].l_returnflag, pair[1].l_linestatus));
        }
        let mut left = input;
        let mut right = read;
        let whole = |row: &LineItem| (row.l_returnflag, row.l_linestatus, row.l_quantity, row.l_extendedprice, row.l_discount, row.l_tax);
        left.sort_by_key(whole);
        right.sort_by_key(whole);
        assert_eq!(left, right);
    }
}

#[test]
fn sorting_keeps_rows_of_one_key_in_their_order() {
    let rows = vec![
        item(b'B', b'O', 1),
        item(b'A', b'O', 2),
        item(b'B', b'F', 3),
        item(b'A', b'O', 4),
        item(b'B', b'O', 5),
        item(b'A', b'F', 6),
        item(b'A', b'O', 7),
    ];
    let sorted = sort_line_items(&rows);
    let quantities: Vec<u16> = sorted.iter().map(|row| row.l_quantity).collect();
    assert_eq!(quantities, vec![6, 2, 4, 7, 3, 1, 5]);
    assert_eq!(sort_line_items(&[]), vec![]);
    // The return flag is the high byte of the key.
    let sorted = sort_line_items(&[item(1, 0, 1), item(0, 255, 2)]);
    assert_eq!(sorted, vec![item(0, 255, 2), item(1, 0, 1)]);
}

#[test]
fn a_cut_row_group_reports_the_end_of_the_stream() {
    let rows: Vec<LineItem> = (0..10u16).map(|i| item(b'A', b'F' + (i % 2) as u8, i)).collect();
    let mut writer = TrackedWriter::new(Vec::new());
    write_row_group(&rows, &mut writer);
    let bytes = writer.into_inner();
    for cut in 1..bytes.len() {
        let mut reader = ByteReader::new(&bytes[..cut]);
        assert_eq!(
            read_row_group(&mut reader).err(),
            Some(FormatError::UnexpectedEof { offset: cut })
        );
        assert_eq!(reader.position(), 0);
    }
}

#[test]
fn an_item_count_out_of_range_is_refused() {
    for count in [0u16, 8001, 65535] {
        let mut writer = TrackedWriter::new(vec![7u8, 7, 7]);
        write_u16(&mut writer, count);
        write_u8_string_column_from_vec(&mut writer, &[(b'F', count as u32)]);
        write_u8_string_column_from_vec(&mut writer, &[(b'A', count as u32)]);
        for _ in 0..4 {
            write_u16_column(&vec![1u16; count as usize], &mut writer);
        }
        let bytes = writer.into_inner();
        let mut reader = ByteReader::new(&bytes);
        reader.read_exact(3).unwrap();
        assert_eq!(
            read_row_group(&mut reader).err(),
            Some(FormatError::ItemCountOutOfRange { offset: 3 })
        );
        assert_eq!(reader.position(), 3);
    }
}

#[test]
fn the_largest_row_group_is_read() {
    let rows: Vec<LineItem> = (0..8000u16).map(|i| item(b'R', b'F', i)).collect();
    let mut writer = TrackedWriter::new(Vec::new());
    write_row_group(&rows, &mut writer);
    let bytes = writer.into_inner();
    let mut reader = ByteReader::new(&bytes);
    assert_eq!(read_row_group(&mut reader).unwrap().line_items(), rows);
}

#[test]
fn runs_that_do_not_add_up_are_refused() {
    for (linestatus, returnflag) in [
        (vec![(b'F', 3u32)], vec![(b'A', 4u32)]),
        (vec![(b'F', 4)], vec![(b'A', 5)]),
        (vec![(b'F', 5)], vec![(b'A', 4)]),
        (vec![(b'F', 2), (b'O', 1)], vec![(b'A', 4)]),
        (vec![], vec![(b'A', 4)]),
        (vec![(b'F', 4)], vec![(b'A', u32::MAX), (b'B', u32::MAX)]),
    ] {
        let mut writer = TrackedWriter::new(vec![0u8; 5]);
        write_u16(&mut writer, 4);
        write_u8_string_column_from_vec(&mut writer, &linestatus);
        write_u8_string_column_from_vec(&mut writer, &returnflag);
        for _ in 0..4 {
            write_u16_column(&[1, 2, 3, 4], &mut writer);
        }
        let bytes = writer.into_inner();
        let mut reader = ByteReader::new(&bytes);
        reader.read_exact(5).unwrap();
        assert_eq!(
            read_row_group(&mut reader).err(),
            Some(FormatError::RunCountMismatch { offset: 5 })
        );
        assert_eq!(reader.position(), 5);
    }
}

#[test]
fn a_cut_column_is_reported_before_runs_that_do_not_add_up() {
    let mut writer = TrackedWriter::new(Vec::new());
    write_u16(&mut writer, 4);
    write_u8_string_column_from_vec(&mut writer, &[(b'F', 3)]);
    write_u8_string_column_from_vec(&mut writer, &[(b'A', 4)]);
    for _ in 0..4 {
        write_u16_column(&[1, 2, 3, 4], &mut writer);
    }
    let bytes = writer.into_inner();
    let mut reader = ByteReader::new(&bytes[..bytes.len() - 1]);
    assert_eq!(
        read_row_group(&mut reader).err(),
        Some(FormatError::UnexpectedEof { offset: bytes.len() - 1 })
    );
}

#[test]
fn measures_are_read_low_byte_first() {
    let bytes = [0x34u8, 0x12, 0xff, 0x00, 0x00, 0xff, 0xff, 0xff, 9];
    let mut reader = ByteReader::new(&bytes);
    let column = read_u16_column(&mut reader, 4).unwrap();
    assert_eq!(column.data, vec![0x1234, 0x00ff, 0xff00, 0xffff]);
    assert_eq!(reader.position(), 8);
    assert!(read_u16_column(&mut reader, 1).is_err());
    assert_eq!(reader.position(), 8);
    assert_eq!(read_u16_column(&mut reader, 0).unwrap().data, Vec::<u16>::new());
}

#[test]
fn measures_are_written_low_byte_first() {
    let mut writer = TrackedWriter::new(Vec::new());
    write_u16_column(&[0x1234, 0x00ff, 0xff00, 0xffff], &mut writer);
    assert_eq!(writer.bytes_written(), 8);
    assert_eq!(writer.into_inner(), vec![0x34, 0x12, 0xff, 0x00, 0x00, 0xff, 0xff, 0xff]);
}

#[test]
fn every_measure_comes_back() {
    let values: Vec<u16> = (0..=u16::MAX).collect();
    let mut writer = TrackedWriter::new(Vec::new());
    for chunk in values.chunks(8000) {
        write_u16_column(chunk, &mut writer);
    }
    let bytes = writer.into_inner();
    assert_eq!(bytes.len(), 2 * 65536);
    let mut reader = ByteReader::new(&bytes);
    let mut read = Vec::new();
    for chunk in values.chunks(8000) {
        read.extend(read_u16_column(&mut reader, chunk.len() as u16).unwrap().data);
    }
    assert_eq!(read, values);
}

#[test]
fn a_stretch_of_measures_is_added_up() {
    let column = U16column { data: vec![1, 2, 3, 65535, 65535, 10] };
    assert_eq!(sum_u16s(&column, 0, 6), 1 + 2 + 3 + 65535 + 65535 + 10);
    assert_eq!(sum_u16s(&column, 1, 2), 5);
    assert_eq!(sum_u16s(&column, 3, 2), 131070);
    assert_eq!(sum_u16s(&column, 6, 0), 0);
    assert_eq!(sum_u16s(&column, 2, 0), 0);
}

#[test]
fn the_key_columns_of_a_written_group_are_collapsed() {
    let rows: Vec<LineItem> = b"FFOFFOOO".iter().map(|&ls| item(b'A', ls, 1)).collect();
    let mut writer = TrackedWriter::new(Vec::new());
    write_row_group(&rows, &mut writer);
    let bytes = writer.into_inner();
    let mut reader = ByteReader::new(&bytes[2..]);
    let linestatus = StringColumnReader::new(&mut reader).unwrap();
    let returnflag = StringColumnReader::new(&mut reader).unwrap();
    assert_eq!(linestatus.as_runs(), &[(b'F', 2), (b'O', 1), (b'F', 2), (b'O', 3)]);
    assert_eq!(returnflag.as_runs(), &[(b'A', 8)]);
}
