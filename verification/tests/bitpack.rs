use bson_parse::bitpack::pack;

#[test]
fn test_pack() {
    let mut values = (0..100).collect::<Vec<_>>();
    values.extend(vec![150; 10]);
    values.extend(200..346);
    assert_eq!(values.len(), 256);

    let mut expected: [[u64; 4]; 9] = [[0; 4]; 9];
    for i in 0..256 {
        for j in 0..9 {
            let bit = (1 << j) & values[i] != 0;
            if bit {
                expected[8 - j][i / 64] |= 1 << (i % 64);
            }
        }
    }

    let mut columns: [[u64; 4]; 9] = [[0; 4]; 9];
    pack(&mut columns, &values);
    assert_eq!(columns, expected);
}

#[test]
fn short_input_packs_all_ones_padding() {
    // Two values over one bit plane: 0 then 1, the rest padded with ones.
    let values: Vec<usize> = vec![0, 1];
    let mut columns: [[u64; 4]; 1] = [[0; 4]];
    pack(&mut columns, &values);
    // Bit 0 clear (value 0), bit 1 set (value 1), bits 2.. all set (padding).
    assert_eq!(columns[0][0], !0b01u64);
    assert_eq!(columns[0][1], u64::MAX);
    assert_eq!(columns[0][2], u64::MAX);
    assert_eq!(columns[0][3], u64::MAX);
}

#[test]
fn packing_twice_keeps_earlier_bits() {
    // The planes are OR-accumulated: bits already set stay set.
    let mut columns: [[u64; 4]; 2] = [[0; 4]; 2];
    pack(&mut columns, &vec![3; 256]);
    let snapshot = columns;
    pack(&mut columns, &vec![0; 256]);
    assert_eq!(columns, snapshot);
}
