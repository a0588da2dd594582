use abdb::io::write_u16;
use abdb::query::accumulate_row_group;
use abdb::run_cursor::RunCursor;
use abdb::string_column::write_u8_string_column_from_vec;
use abdb::u16_column::write_u16_column;
use abdb::{
    empty_state, get_state_index, populated_groups, query_1_column, read_row_group,
    update_state_from_row_group, write_batch, write_row_group, ByteReader, FormatError, LineItem,
    QueryOneStateColumn, TrackedWriter, STATE_SLOTS,
};

fn uniform(count: usize) -> Vec<LineItem> {
    (0..count)
        .map(|_| LineItem {
            l_returnflag: b'A',
            l_linestatus: b'B',
            l_quantity: 100,
            l_extendedprice: 200,
            l_discount: 300,
            l_tax: 400,
        })
        .collect()
}

#[test]
fn test_get_state_index() {
    assert_eq!(get_state_index(&b'A', &b'F'), 65 * 256 + 70);
    assert_eq!(get_state_index(&b'B', &b'O'), 66 * 256 + 79);
    assert_eq!(get_state_index(&b'C', &b'N'), 67 * 256 + 78);
}

#[test]
fn the_state_index_is_one_to_one() {
    assert_eq!(get_state_index(&b'A', &b'F'), 16710);
    assert_eq!(get_state_index(&b'B', &b'O'), 16975);
    assert_eq!(get_state_index(&b'C', &b'N'), 17230);
    assert_eq!(get_state_index(&0, &0), 0);
    assert_eq!(get_state_index(&0, &255), 255);
    assert_eq!(get_state_index(&1, &0), 256);
    assert_eq!(get_state_index(&255, &255), 65535);
    let mut seen = vec![false; STATE_SLOTS];
    for returnflag in 0..=255u8 {
        for linestatus in 0..=255u8 {
            let index = get_state_index(&returnflag, &linestatus);
            assert!(!seen[index]);
            seen[index] = true;
            assert_eq!((index / 256) as u8, returnflag);
            assert_eq!((index % 256) as u8, linestatus);
        }
    }
    assert!(seen.iter().all(|&hit| hit));
}

#[test]
fn test_update_state_from_row_group() {
    let lineitems = uniform(2000);
    let mut writer = TrackedWriter::new(Vec::new());

    write_row_group(&lineitems[0..1000], &mut writer);
    write_row_group(&lineitems[1000..2000], &mut writer);

    let binding = writer.into_inner();
    let mut reader = ByteReader::new(&binding);

    let mut state: Vec<Option<QueryOneStateColumn>> = vec![None; 256 * 256];

    loop {
        if reader.is_empty() {
            println!("End of file");
            break;
        }
        update_state_from_row_group(&mut reader, &mut state).unwrap();
    }
    assert_eq!(
        state[get_state_index(&b'A', &b'B')],
        Some(QueryOneStateColumn {
            count: 2000,
            sum_qty: 200000,
            sum_base_price: 400000,
            sum_discount: 600000,
            sum_tax: 800000
        })
    );
}

#[test]
fn test_query_1() {
    let lineitems = uniform(2000);
    let mut writer = TrackedWriter::new(Vec::new());
    write_row_group(&lineitems[0..1000], &mut writer);
    write_row_group(&lineitems[1000..2000], &mut writer);
    let bytes = writer.into_inner();

    let state = query_1_column(&bytes).unwrap();
    assert_eq!(state.len(), 65536);
    let expected = QueryOneStateColumn {
        count: 2000,
        sum_qty: 200000,
        sum_base_price: 400000,
        sum_discount: 600000,
        sum_tax: 800000,
    };
    for (slot, totals) in state.iter().enumerate() {
        if slot == get_state_index(&b'A', &b'B') {
            assert_eq!(*totals, Some(expected));
        } else {
            assert_eq!(*totals, None);
        }
    }
    assert_eq!(populated_groups(&state), vec![(b'A', b'B', expected)]);
}

#[test]
fn test_read_file() {
    let mut writer = TrackedWriter::new(Vec::new());
    let mut batch = uniform(8000);
    write_batch(&mut writer, &mut batch);
    let mut batch = uniform(8000);
    write_batch(&mut writer, &mut batch);
    let mut batch = uniform(123);
    write_batch(&mut writer, &mut batch);
    let bytes = writer.into_inner();

    let mut reader = ByteReader::new(&bytes);
    let mut groups = 0;
    let mut rows = 0;
    loop {
        if reader.is_empty() {
            break;
        }
        let group = read_row_group(&mut reader).unwrap();
        groups += 1;
        rows += group.item_count() as usize;
    }
    assert_eq!(groups, 3);
    assert_eq!(rows, 16123);
    assert_eq!(reader.position(), bytes.len());
}

#[test]
fn three_keys_in_three_row_groups() {
    let keys = [(b'A', b'F'), (b'A', b'N'), (b'B', b'F')];
    let mut rows = Vec::new();
    for i in 0..6000u32 {
        let (returnflag, linestatus) = keys[(i % 3) as usize];
        rows.push(LineItem {
            l_returnflag: returnflag,
            l_linestatus: linestatus,
            l_quantity: (i % 5000) as u16,
            l_extendedprice: (i * 7 % 65536) as u16,
            l_discount: (i % 11) as u16,
            l_tax: (i % 9) as u16,
        });
    }
    let mut writer = TrackedWriter::new(Vec::new());
    for chunk in rows.chunks(2000) {
        let mut batch = chunk.to_vec();
        write_batch(&mut writer, &mut batch);
    }
    let bytes = writer.into_inner();
    let state = query_1_column(&bytes).unwrap();

    let groups = populated_groups(&state);
    assert_eq!(groups.len(), 3);
    for (k, (returnflag, linestatus)) in keys.iter().enumerate() {
        let mut expected = QueryOneStateColumn::default();
        for row in rows.iter().filter(|row| row.l_returnflag == *returnflag && row.l_linestatus == *linestatus) {
            expected.count += 1;
            expected.sum_qty += row.l_quantity as u64;
            expected.sum_base_price += row.l_extendedprice as u64;
            expected.sum_discount += row.l_discount as u64;
            expected.sum_tax += row.l_tax as u64;
        }
        assert_eq!(expected.count, 2000);
        assert_eq!(groups[k], (*returnflag, *linestatus, expected));
        assert_eq!(state[get_state_index(returnflag, linestatus)], Some(expected));
    }
    assert_eq!(state.iter().filter(|slot| slot.is_some()).count(), 3);
}

#[test]
fn alternating_line_status_takes_one_row_at_a_time() {
    let rows: Vec<LineItem> = (0..1001u16)
        .map(|i| LineItem {
            l_returnflag: b'R',
            l_linestatus: if i % 2 == 0 { b'F' } else { b'O' },
            l_quantity: i,
            l_extendedprice: 2 * i,
            l_discount: 3,
            l_tax: 65535,
        })
        .collect();
    let mut writer = TrackedWriter::new(Vec::new());
    write_row_group(&rows, &mut writer);
    let bytes = writer.into_inner();

    let mut reader = ByteReader::new(&bytes);
    let group = read_row_group(&mut reader).unwrap();
    assert_eq!(group.linestatus().as_runs().len(), 1001);
    assert!(group.linestatus().as_runs().iter().all(|run| run.1 == 1));
    assert_eq!(group.returnflag().as_runs(), &[(b'R', 1001)]);

    let state = query_1_column(&bytes).unwrap();
    // 0 + 2 + ... + 1000 and 1 + 3 + ... + 999
    let even: u64 = 250500;
    let odd: u64 = 250000;
    assert_eq!(
        populated_groups(&state),
        vec![
            (
                b'R',
                b'F',
                QueryOneStateColumn {
                    count: 501,
                    sum_qty: even,
                    sum_base_price: 2 * even,
                    sum_discount: 1503,
                    sum_tax: 501 * 65535,
                }
            ),
            (
                b'R',
                b'O',
                QueryOneStateColumn {
                    count: 500,
                    sum_qty: odd,
                    sum_base_price: 2 * odd,
                    sum_discount: 1500,
                    sum_tax: 500 * 65535,
                }
            ),
        ]
    );
}

#[test]
fn a_truncated_stream_is_reported() {
    let lineitems = uniform(2000);
    let mut writer = TrackedWriter::new(Vec::new());
    write_row_group(&lineitems[0..1000], &mut writer);
    write_row_group(&lineitems[1000..2000], &mut writer);
    let bytes = writer.into_inner();
    let cut = &bytes[..bytes.len() - 1];
    assert_eq!(query_1_column(cut), Err(FormatError::UnexpectedEof { offset: bytes.len() - 1 }));
    assert_eq!(query_1_column(&bytes[..1]), Err(FormatError::UnexpectedEof { offset: 1 }));
    let first = bytes.len() / 2;
    assert_eq!(query_1_column(&bytes[..first + 1]), Err(FormatError::UnexpectedEof { offset: first + 1 }));
    assert!(query_1_column(&bytes[..first]).is_ok());
}

#[test]
fn an_empty_stream_leaves_every_slot_empty() {
    let state = query_1_column(&[]).unwrap();
    assert_eq!(state.len(), STATE_SLOTS);
    assert!(state.iter().all(|slot| slot.is_none()));
    assert!(populated_groups(&state).is_empty());
    assert_eq!(empty_state(), state);
}

#[test]
fn a_row_group_that_is_refused_leaves_the_table_as_it_was() {
    let mut writer = TrackedWriter::new(Vec::new());
    write_row_group(&uniform(10), &mut writer);
    let good = writer.bytes_written();
    write_u16(&mut writer, 3);
    write_u8_string_column_from_vec(&mut writer, &[(b'F', 2)]);
    write_u8_string_column_from_vec(&mut writer, &[(b'A', 3)]);
    for _ in 0..4 {
        write_u16_column(&[1, 2, 3], &mut writer);
    }
    let bytes = writer.into_inner();

    let mut reader = ByteReader::new(&bytes);
    let mut state = empty_state();
    assert_eq!(update_state_from_row_group(&mut reader, &mut state), Ok(()));
    assert_eq!(reader.position(), good);
    let before = state.clone();
    assert_eq!(
        update_state_from_row_group(&mut reader, &mut state),
        Err(FormatError::RunCountMismatch { offset: good })
    );
    assert_eq!(reader.position(), good);
    assert_eq!(state, before);
    assert_eq!(query_1_column(&bytes), Err(FormatError::RunCountMismatch { offset: good }));
}

#[test]
fn rows_are_added_to_what_a_slot_holds() {
    let mut writer = TrackedWriter::new(Vec::new());
    write_row_group(&uniform(5), &mut writer);
    let bytes = writer.into_inner();
    let mut state = empty_state();
    let other = QueryOneStateColumn { count: 1, sum_qty: 2, sum_base_price: 3, sum_discount: 4, sum_tax: 5 };
    state[7] = Some(other);
    state[get_state_index(&b'A', &b'B')] = Some(QueryOneStateColumn {
        count: 10,
        sum_qty: 20,
        sum_base_price: 30,
        sum_discount: 40,
        sum_tax: u64::MAX - 2000,
    });
    let mut reader = ByteReader::new(&bytes);
    let group = read_row_group(&mut reader).unwrap();
    accumulate_row_group(&group, &mut state);
    assert_eq!(
        populated_groups(&state),
        vec![
            (0, 7, other),
            (
                b'A',
                b'B',
                QueryOneStateColumn {
                    count: 15,
                    sum_qty: 520,
                    sum_base_price: 1030,
                    sum_discount: 1540,
                    sum_tax: u64::MAX,
                }
            ),
        ]
    );
}

#[test]
fn runs_that_cross_are_taken_piece_by_piece() {
    // Return flag runs of 3 and 3, line status runs of 2, 2 and 2.
    let rows: Vec<LineItem> = [(b'A', b'F'), (b'A', b'F'), (b'A', b'O'), (b'B', b'O'), (b'B', b'F'), (b'B', b'F')]
        .iter()
        .enumerate()
        .map(|(i, &(returnflag, linestatus))| LineItem {
            l_returnflag: returnflag,
            l_linestatus: linestatus,
            l_quantity: 1 << i,
            l_extendedprice: 10 << i,
            l_discount: 100 << i,
            l_tax: 1000 << i,
        })
        .collect();
    let mut writer = TrackedWriter::new(Vec::new());
    write_row_group(&rows, &mut writer);
    let bytes = writer.into_inner();
    let state = query_1_column(&bytes).unwrap();
    let totals = |count: u64, bits: u64| QueryOneStateColumn {
        count,
        sum_qty: bits,
        sum_base_price: 10 * bits,
        sum_discount: 100 * bits,
        sum_tax: 1000 * bits,
    };
    assert_eq!(
        populated_groups(&state),
        vec![
            (b'A', b'F', totals(2, 0b000011)),
            (b'A', b'O', totals(1, 0b000100)),
            (b'B', b'F', totals(2, 0b110000)),
            (b'B', b'O', totals(1, 0b001000)),
        ]
    );
}

#[test]
fn runs_without_values_are_passed_over() {
    let mut writer = TrackedWriter::new(Vec::new());
    write_u16(&mut writer, 3);
    write_u8_string_column_from_vec(&mut writer, &[(b'x', 0), (b'F', 2), (b'y', 0), (b'O', 1), (b'z', 0)]);
    write_u8_string_column_from_vec(&mut writer, &[(b'A', 3), (b'w', 0)]);
    write_u16_column(&[1, 2, 4], &mut writer);
    write_u16_column(&[10, 20, 40], &mut writer);
    write_u16_column(&[100, 200, 400], &mut writer);
    write_u16_column(&[1000, 2000, 4000], &mut writer);
    let bytes = writer.into_inner();
    let state = query_1_column(&bytes).unwrap();
    assert_eq!(
        populated_groups(&state),
        vec![
            (
                b'A',
                b'F',
                QueryOneStateColumn {
                    count: 2,
                    sum_qty: 3,
                    sum_base_price: 3000,
                    sum_discount: 30,
                    sum_tax: 300,
                }
            ),
            (
                b'A',
                b'O',
                QueryOneStateColumn {
                    count: 1,
                    sum_qty: 4,
                    sum_base_price: 4000,
                    sum_discount: 40,
                    sum_tax: 400,
                }
            ),
        ]
    );
}

#[test]
fn a_cursor_walks_over_the_runs() {
    let runs = [(b'a', 0u32), (b'b', 3), (b'c', 0), (b'd', 2)];
    let mut cursor = RunCursor::new(&runs);
    assert_eq!(cursor.current().1, 0);
    assert!(cursor.advance());
    assert_eq!(cursor.current(), (b'b', 3));
    assert!(cursor.advance());
    assert_eq!(cursor.current(), (b'b', 3));
    cursor.consume(2);
    assert_eq!(cursor.current(), (b'b', 1));
    cursor.consume(1);
    assert!(cursor.advance());
    assert_eq!(cursor.current(), (b'd', 2));
    cursor.consume(2);
    assert!(!cursor.advance());
    assert_eq!(cursor.current().1, 0);
    assert!(!cursor.advance());

    let mut cursor = RunCursor::new(&[]);
    assert!(!cursor.advance());
}

#[test]
fn the_default_totals_are_zero() {
    assert_eq!(
        QueryOneStateColumn::default(),
        QueryOneStateColumn { count: 0, sum_qty: 0, sum_base_price: 0, sum_discount: 0, sum_tax: 0 }
    );
}

#[test]
fn groups_come_in_the_order_of_their_keys() {
    let mut state = empty_state();
    let totals = |count: u64| QueryOneStateColumn { count, sum_qty: 0, sum_base_price: 0, sum_discount: 0, sum_tax: 0 };
    state[65535] = Some(totals(1));
    state[256] = Some(totals(2));
    state[255] = Some(totals(3));
    state[0] = Some(totals(4));
    assert_eq!(
        populated_groups(&state),
        vec![(0, 0, totals(4)), (0, 255, totals(3)), (1, 0, totals(2)), (255, 255, totals(1))]
    );
}

#[test]
fn a_full_batch_of_mixed_keys_is_grouped() {
    let mut seed: u32 = 7;
    let mut rows = Vec::with_capacity(8000);
    for _ in 0..8000 {
        seed = seed.wrapping_mul(1664525).wrapping_add(1013904223);
        rows.push(LineItem {
            l_returnflag: b"ANR"[(seed >> 29) as usize % 3],
            l_linestatus: b"FO"[(seed >> 27) as usize % 2],
            l_quantity: (seed >> 8) as u16,
            l_extendedprice: (seed >> 4) as u16,
            l_discount: (seed >> 12) as u16 % 11,
            l_tax: (seed >> 16) as u16 % 9,
        });
    }
    let mut expected = vec![None; STATE_SLOTS];
    for row in &rows {
        let slot: &mut Option<QueryOneStateColumn> = &mut expected[get_state_index(&row.l_returnflag, &row.l_linestatus)];
        let totals = slot.get_or_insert_with(QueryOneStateColumn::default);
        totals.count += 1;
        totals.sum_qty += row.l_quantity as u64;
        totals.sum_base_price += row.l_extendedprice as u64;
        totals.sum_discount += row.l_discount as u64;
        totals.sum_tax += row.l_tax as u64;
    }
    let mut writer = TrackedWriter::new(Vec::new());
    let mut batch = rows.clone();
    write_batch(&mut writer, &mut batch);
    // The same rows once more, in the order in which they came.
    write_row_group(&rows, &mut writer);
    let bytes = writer.into_inner();
    let state = query_1_column(&bytes).unwrap();
    for slot in expected.iter_mut().flatten() {
        slot.count *= 2;
        slot.sum_qty *= 2;
        slot.sum_base_price *= 2;
        slot.sum_discount *= 2;
        slot.sum_tax *= 2;
    }
    assert_eq!(state, expected);
}
