use qecp::util::{SimpleHasher, ZxError, find_strict_one_median, generate_perfect_measurements};

#[test]
fn util_find_strict_one_median() {
    assert_eq!(find_strict_one_median(&mut vec![4, 3, 3, 8]), None);
    assert_eq!(find_strict_one_median(&mut vec![4, 3, 4, 8]), Some(4));
    assert_eq!(find_strict_one_median(&mut vec![5, 3, 7]), Some(5));
}

#[test]
fn simple_hasher_reads_little_endian() {
    let mut hasher = SimpleHasher::default();
    hasher.write(&[1, 2]);
    assert_eq!(hasher.finish(), 1 + 2 * 256);
    let mut empty = SimpleHasher::default();
    empty.write(&[]);
    assert_eq!(empty.finish(), 0);
}

#[test]
fn perfect_measurements_detect_single_x_error() {
    let x_error = ZxError {
        data: vec![vec![true, false], vec![false, false]],
    };
    let z_error = ZxError {
        data: vec![vec![false, false], vec![false, false]],
    };
    let m = generate_perfect_measurements(&x_error, &z_error);
    assert_eq!(m.data.len(), 3);
    for i in 0..3 {
        for j in 0..3 {
            let expected = i == 1 && j == 1;
            assert_eq!(m.data[i][j], expected, "at ({}, {})", i, j);
        }
    }
}

#[test]
fn bit_packing_round_trip() {
    let l = 3usize;
    let mut data = vec![vec![vec![false; l]; l]; 2];
    data[0][0][0] = true;
    data[0][2][1] = true;
    data[1][1][2] = true;
    let bytes = qecp::util::pack_measurement_batch(&data, l);
    // two planes of ceil(9 / 8) == 2 bytes each
    assert_eq!(bytes.len(), 4);
    // plane 0: bit 0 (cell 0,0) and bit 7 (cell 2,1) set
    assert_eq!(bytes[0], 0b1000_0001);
    assert_eq!(bytes[1], 0);
    // plane 1: bit 5 (cell 1,2) set
    assert_eq!(bytes[2], 0b0010_0000);
    assert_eq!(bytes[3], 0);
    let back = qecp::util::unpack_measurement_batch(&bytes, 2, l);
    assert_eq!(back, data);
}
