use jpeg_encoder::coefficient_encoder::{
    ac_coefficients, categorize, coefficients_to_diffs, dc_coefficients, encode_ac_coefficients,
    encode_dc_coefficients, encode_two_ac_coefficients, encode_two_dc_coefficients,
    reorder_y_coefficients, runlength_encode_single_ac_table,
};

#[test]
fn test_get_dc_coefficients() {
    let values = vec![
        [2; 64],
        [1; 64],
        [
            1, 2, 3, 4, 5, 6, 7, 8, 9, 10, 11, 12, 13, 14, 15, 16, 1, 2, 3, 4, 5, 6, 7, 8, 9,
            10, 11, 12, 13, 14, 15, 16, 1, 2, 3, 4, 5, 6, 7, 8, 9, 10, 11, 12, 13, 14, 15, 16,
            1, 2, 3, 4, 5, 6, 7, 8, 9, 10, 11, 12, 13, 14, 15, 16,
        ],
    ];
    let expected = vec![2, 1, 1];
    let actual = dc_coefficients(&values);
    assert_eq!(expected, actual);
}

#[test]
fn test_get_ac_coefficients() {
    let values = vec![
        [2; 64],
        [1; 64],
        [
            1, 2, 3, 4, 5, 6, 7, 8, 9, 10, 11, 12, 13, 14, 15, 16, 1, 2, 3, 4, 5, 6, 7, 8, 9,
            10, 11, 12, 13, 14, 15, 16, 1, 2, 3, 4, 5, 6, 7, 8, 9, 10, 11, 12, 13, 14, 15, 16,
            1, 2, 3, 4, 5, 6, 7, 8, 9, 10, 11, 12, 13, 14, 15, 16,
        ],
    ];
    let expected = vec![
        vec![2; 63],
        vec![1; 63],
        vec![
            2, 3, 4, 5, 6, 7, 8, 9, 10, 11, 12, 13, 14, 15, 16, 1, 2, 3, 4, 5, 6, 7, 8, 9, 10,
            11, 12, 13, 14, 15, 16, 1, 2, 3, 4, 5, 6, 7, 8, 9, 10, 11, 12, 13, 14, 15, 16, 1,
            2, 3, 4, 5, 6, 7, 8, 9, 10, 11, 12, 13, 14, 15, 16,
        ],
    ];
    let actual = ac_coefficients(&values);
    assert_eq!(expected, actual);
}

#[test]
fn test_coefficients_to_diffs() {
    let coeffs: Vec<i32> = vec![-120, 20, 100, -1, 90];
    let expected: Vec<i32> = vec![-120, 140, 80, -101, 91];
    let actual = coefficients_to_diffs(&coeffs);
    assert_eq!(expected, actual);
}

#[test]
fn coefficient_encoder_test_categorize() {
    let max_val = categorize(32767);
    assert_eq!((15, 0b1111_1111_1111_111), max_val);
    let min_val = categorize(-32767);
    assert_eq!((15, 0b0), min_val);
    let zero = categorize(0);
    assert_eq!((0, 0b1111_1111_1111_1111), zero);
    let minus_one = categorize(-1);
    assert_eq!((1, 0b0), minus_one);
    let one = categorize(1);
    assert_eq!((1, 0b1), one);
    let border_u8_neg = categorize(-255);
    assert_eq!((8, 0b0), border_u8_neg);
    let border_u8_pos = categorize(255);
    assert_eq!((8, 0b1111_1111), border_u8_pos);
    let border_8_neg = categorize(-128);
    assert_eq!((8, 0b0111_1111), border_8_neg);
    let border_8_pos = categorize(128);
    assert_eq!((8, 0b1000_0000), border_8_pos);
    let anywhere_neg = categorize(-3153);
    assert_eq!((12, 942), anywhere_neg);
    let anywhere_pos = categorize(3153);
    assert_eq!((12, 3153), anywhere_pos);
}

#[test]
fn test_runlength_encode_slides() {
    let coefficients = vec![
        57, 45, 0, 0, 0, 0, 23, 0, -30, -16, 0, 0, 1, 0, 0, 0, 0, 0, 0, 0, 0, 0, 0, 0, 0, 0, 0,
        0, 0, 0, 0, 0, 0, 0, 0, 0, 0, 0, 0, 0, 0, 0, 0, 0, 0, 0, 0, 0, 0, 0, 0, 0, 0, 0, 0, 0,
        0, 0, 0, 0, 0, 0, 0,
    ];
    assert_eq!(63, coefficients.len());
    let expected = vec![
        (0x06, (6, 57)),
        (0x06, (6, 45)),
        (0x45, (5, 23)),
        (0x15, (5, 1)),
        (0x05, (5, 15)),
        (0x21, (1, 1)),
        (0, (0, 0)),
    ];
    let runlength_encoded = runlength_encode_single_ac_table(&coefficients);
    assert_eq!(expected, runlength_encoded);
}

#[test]
fn test_runlength_encode_slides_many_zeros() {
    let coefficients = vec![
        57, 0, 0, 0, 0, 0, 0, 0, 0, 0, 0, 0, 0, 0, 0, 0, 0, 0, 0, 3, 0, 0, 0, 0, 2, 0, 0, 0, 0,
        0, 0, 0, 0, 0, 0, 0, 0, 0, 0, 0, 0, 0, 0, 0, 0, 0, 0, 0, 0, 0, 0, 0, 0, 0, 0, 0, 0, 0,
        895, 0, 0, 0, 0,
    ];
    assert_eq!(63, coefficients.len());
    let expected = vec![
        (0x06, (6, 57)),
        (0xF0, (0, 0)),
        (0x22, (2, 3)),
        (0x42, (2, 2)),
        (0xF0, (0, 0)),
        (0xF0, (0, 0)),
        (0x1A, (10, 895)),
        (0, (0, 0)),
    ];
    let runlength_encoded = runlength_encode_single_ac_table(&coefficients);
    assert_eq!(expected, runlength_encoded);
}

#[test]
fn test_reorder_y_coefficients() {
    let width = 32;
    let mut actual = vec![1, 2, 3, 4, 5, 6, 7, 8, 9, 10, 11, 12, 13, 14, 15, 16];
    reorder_y_coefficients(&mut actual, width);
    let expected = vec![1, 2, 5, 6, 3, 4, 7, 8, 9, 10, 13, 14, 11, 12, 15, 16];
    assert_eq!(expected, actual);
}

#[test]
fn reorder_y_coefficients_takes_two_by_two_squares() {
    let width = 64;
    let per_row = 8usize;
    let original: Vec<u32> = (0..32).collect();
    let mut actual = original.clone();
    reorder_y_coefficients(&mut actual, width);
    let half = per_row / 2;
    for j in 0..32usize {
        let b = j / 4;
        let source = (2 * (b / half) + (j % 4) / 2) * per_row + 2 * (b % half) + j % 2;
        assert_eq!(actual[j], original[source]);
    }
    let mut sorted = actual.clone();
    sorted.sort();
    assert_eq!(sorted, original);
}

#[test]
fn two_ac_sets_are_coded_as_their_join() {
    let mut first = [0i32; 63];
    first[0] = 3;
    first[5] = -2;
    let mut second = [0i32; 63];
    second[1] = 7;
    second[20] = 1;
    let mut third = [0i32; 63];
    third[62] = -5;
    let ac1 = vec![first, second];
    let ac2 = vec![third, first];
    let joined = vec![first, second, third, first];
    let together = encode_two_ac_coefficients(&ac1, &ac2).unwrap();
    let at_once = encode_ac_coefficients(&joined).unwrap();
    assert_eq!(together.0, at_once.0);
    assert_eq!(together.1, at_once.1);
    assert_eq!(together.0.len(), 4);
}

#[test]
fn two_dc_sets_are_differenced_each_on_its_own() {
    let dc1 = vec![5, 7, 6];
    let dc2 = vec![-3, -3, 4];
    let (coded, map) = encode_two_dc_coefficients(&dc1, &dc2).unwrap();
    assert_eq!(coded.len(), 6);
    assert_eq!(coded[3].1, categorize(-3));
    assert_eq!(coded[0].1, categorize(5));
    for (code, category) in &coded {
        assert_eq!(*code, map[&category.0]);
    }
}

#[test]
fn coded_maps_are_prefix_free_and_never_all_ones() {
    let dc: Vec<i32> = vec![0, 1, -3, 8, 8, 20, -100, 3, 3, 3, 700, 1];
    let (_, map) = encode_dc_coefficients(&dc).unwrap();
    for (a, (la, ca)) in &map {
        assert!(*la >= 1 && *la <= 16);
        assert_ne!(*ca as u32 + 1, 1u32 << *la);
        for (b, (lb, cb)) in &map {
            if a != b && la <= lb {
                assert_ne!((*cb as u32) >> (lb - la), *ca as u32);
            }
        }
    }
}
