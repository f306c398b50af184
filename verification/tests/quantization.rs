use jpeg_encoder::quantization::{categorize, sample_zigzag};

#[test]
fn test_zigzag_sampling_slides() {
    let expected_vec = vec![
        12, -3, 1, 0, 0, 0, 0, 0, -5, 3, -1, 1, 0, 0, 0, 0, 2, 0, -1, 1, -1, 0, 0, 0, -1, -2,
        1, 0, 0, 0, 0, 0, 0, 0, 0, 0, 0, 0, 0, 0, 0, 0, 0, 0, 0, 0, 0, 0, 0, 0, 0, 0, 0, 0, 0,
        0, 0, 0, 0, 0, 0, 0, 0, 0, 0, 0, 0, 0, 0, 0, 0, 0,
    ];
    let mut expected_matrix = [0i32; 64];
    for (k, v) in expected_vec.into_iter().take(64).enumerate() {
        expected_matrix[k] = v;
    }
    let expected: [i32; 64] = [
        12, -3, -5, 2, 3, 1, 0, -1, 0, -1, 0, -2, -1, 1, 0, 0, 0, 1, 1, 0, 0, 0, 0, 0, 0, -1,
        0, 0, 0, 0, 0, 0, 0, 0, 0, 0, 0, 0, 0, 0, 0, 0, 0, 0, 0, 0, 0, 0, 0, 0, 0, 0, 0, 0, 0,
        0, 0, 0, 0, 0, 0, 0, 0, 0,
    ];
    let result = sample_zigzag(&expected_matrix);
    assert_eq!(expected, result);
}

#[test]
fn test_zigzag_sampling_sequence() {
    let mut expected_vec: Vec<i32> = Vec::with_capacity(64);
    for i in 0..=63 {
        expected_vec.push(i);
    }
    let mut expected_matrix = [0i32; 64];
    for (k, v) in expected_vec.into_iter().enumerate() {
        expected_matrix[k] = v;
    }
    let expected: [i32; 64] = [
        0, 1, 8, 16, 9, 2, 3, 10, 17, 24, 32, 25, 18, 11, 4, 5, 12, 19, 26, 33, 40, 48, 41, 34,
        27, 20, 13, 6, 7, 14, 21, 28, 35, 42, 49, 56, 57, 50, 43, 36, 29, 22, 15, 23, 30, 37,
        44, 51, 58, 59, 52, 45, 38, 31, 39, 46, 53, 60, 61, 54, 47, 55, 62, 63,
    ];
    let result = sample_zigzag(&expected_matrix);
    assert_eq!(expected, result);
}

#[test]
fn quantization_test_categorize() {
    let max_val = categorize(32767);
    assert_eq!((15, 0b1111_1111_1111_111), max_val);
    let min_val = categorize(-32767);
    assert_eq!((15, 0b0), min_val);
    let zero = categorize(0);
    assert_eq!((0, 0b1111_1111_1111_1111), zero);
    let minus_one = categorize(-1);
    assert_eq!((1, 0b0), minus_one);
    let one = categorize(1);
    assert_eq!((1, 0b1), one);
    let border_u8_neg = categorize(-255);
    assert_eq!((8, 0b0), border_u8_neg);
    let border_u8_pos = categorize(255);
    assert_eq!((8, 0b1111_1111), border_u8_pos);
    let border_8_neg = categorize(-128);
    assert_eq!((8, 0b0111_1111), border_8_neg);
    let border_8_pos = categorize(128);
    assert_eq!((8, 0b1000_0000), border_8_pos);
    let anywhere_neg = categorize(-3153);
    assert_eq!((12, 942), anywhere_neg);
    let anywhere_pos = categorize(3153);
    assert_eq!((12, 3153), anywhere_pos);
}

#[test]
fn zigzag_sampling_of_a_block_of_strings_moves_values() {
    let block: [&str; 64] = [
        "a", "b", "c", "d", "e", "f", "g", "h", "i", "j", "k", "l", "m", "n", "o", "p", "q", "r",
        "s", "t", "u", "v", "w", "x", "y", "z", "A", "B", "C", "D", "E", "F", "G", "H", "I", "J",
        "K", "L", "M", "N", "O", "P", "Q", "R", "S", "T", "U", "V", "W", "X", "Y", "Z", "0", "1",
        "2", "3", "4", "5", "6", "7", "8", "9", "+", "/",
    ];
    let result = sample_zigzag(&block);
    assert_eq!(&result[..6], &["a", "b", "i", "q", "j", "c"]);
    assert_eq!(result[63], "/");
}

#[test]
fn zigzag_walks_the_anti_diagonals_in_turn() {
    let block: [u32; 64] = core::array::from_fn(|i| i as u32);
    let walked = sample_zigzag(&block);
    let mut positions: Vec<(usize, usize)> = (0..64).map(|i| (i / 8, i % 8)).collect();
    positions.sort_by_key(|&(r, c)| {
        let d = r + c;
        (d, if d % 2 == 1 { r } else { 8 - r })
    });
    for k in 0..64 {
        let (r, c) = positions[k];
        assert_eq!(walked[k], block[8 * r + c]);
    }
    assert_eq!(walked[0], 0);
    assert_eq!(walked[63], 63);
}
