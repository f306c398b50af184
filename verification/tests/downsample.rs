use jpeg_encoder::downsample::{
    copy_and_pad, downsample_channel, downsample_rows, downsample_segment_of_row,
    downsample_vec_by_two,
};

#[test]
fn test_downsample_channel_vertical() {
    let input_channel = vec![
        vec![1, 2, 3, 4],
        vec![5, 6, 7, 8],
        vec![9, 10, 11, 12],
        vec![13, 14, 15, 16],
    ];

    let expected_output: Vec<Vec<u16>> = vec![vec![3, 5], vec![11, 13]];

    let result = downsample_channel(&input_channel, 4, 2, true);

    assert_eq!(result, expected_output);
}

#[test]
fn test_downsample_channel_horizontal() {
    let input_channel = vec![
        vec![1, 2, 3, 4],
        vec![5, 6, 7, 8],
        vec![9, 10, 11, 12],
        vec![13, 14, 15, 16],
    ];

    let expected_output: Vec<Vec<u16>> =
        vec![vec![1, 3], vec![5, 7], vec![9, 11], vec![13, 15]];

    let result = downsample_channel(&input_channel, 4, 2, false);

    assert_eq!(result, expected_output);
}

#[test]
fn test_downsample_channel_no_change() {
    let input_channel = vec![
        vec![1, 2, 3, 4],
        vec![5, 6, 7, 8],
        vec![9, 10, 11, 12],
        vec![13, 14, 15, 16],
    ];

    let result = downsample_channel(&input_channel, 4, 4, false);

    assert_eq!(result, input_channel);
}

#[test]
fn test_downsample_row_without_vertical_single() {
    let (upper_row, lower_row) = downsample_rows(
        &vec![16, 10, 4, 4, 13, 68, 39, 74, 38, 23, 45, 13],
        &vec![16, 54, 4, 96, 77, 33, 18, 23, 58, 58, 5, 45],
        4,
        1,
        false,
    );
    assert_eq!(vec![8, 48, 29], upper_row);
    assert_eq!(vec![42, 37, 41], lower_row);
}

#[test]
fn test_downsample_row_with_vertical_single() {
    let (upper_row, lower_row) = downsample_rows(
        &vec![16, 10, 4, 4, 13, 68, 39, 74, 38, 23, 45, 13],
        &vec![16, 54, 4, 96, 77, 33, 18, 23, 58, 58, 5, 45],
        4,
        1,
        true,
    );
    assert_eq!(vec![25, 42, 35], upper_row);
    assert_eq!(vec![25, 42, 35], lower_row);
}

#[test]
fn test_downsample_row_without_vertical_double() {
    let (upper_row, lower_row) = downsample_rows(
        &vec![16, 10, 4, 4, 13, 68, 39, 74, 38, 23, 45, 13],
        &vec![16, 54, 4, 96, 77, 33, 18, 23, 58, 58, 5, 45],
        4,
        2,
        false,
    );
    assert_eq!(vec![13, 4, 40, 56, 30, 29], upper_row);
    assert_eq!(vec![35, 50, 55, 20, 58, 25], lower_row);
}

#[test]
fn test_downsample_row_with_vertical_double() {
    let (upper_row, lower_row) = downsample_rows(
        &vec![16, 10, 4, 4, 13, 68, 39, 74, 38, 23, 45, 13],
        &vec![16, 54, 4, 96, 77, 33, 18, 23, 58, 58, 5, 45],
        4,
        2,
        true,
    );
    assert_eq!(vec![24, 27, 47, 38, 44, 27], upper_row);
    assert_eq!(vec![24, 27, 47, 38, 44, 27], lower_row);
}

#[test]
fn test_downsample_row_without_vertical_none() {
    let (upper_row, lower_row) = downsample_rows(
        &vec![16, 10, 4, 4, 13, 68, 39, 74, 38, 23, 45, 13],
        &vec![16, 54, 4, 96, 77, 33, 18, 23, 58, 58, 5, 45],
        4,
        4,
        false,
    );
    assert_eq!(
        vec![16, 10, 4, 4, 13, 68, 39, 74, 38, 23, 45, 13],
        upper_row
    );
    assert_eq!(
        vec![16, 54, 4, 96, 77, 33, 18, 23, 58, 58, 5, 45],
        lower_row
    );
}

#[test]
fn test_downsample_row_with_vertical_none() {
    let (upper_row, lower_row) = downsample_rows(
        &vec![16, 10, 4, 4, 13, 68, 39, 74, 38, 23, 45, 13],
        &vec![16, 54, 4, 96, 77, 33, 18, 23, 58, 58, 5, 45],
        4,
        4,
        true,
    );
    assert_eq!(
        vec![16, 10, 4, 4, 13, 68, 39, 74, 38, 23, 45, 13],
        upper_row
    );
    assert_eq!(
        vec![16, 54, 4, 96, 77, 33, 18, 23, 58, 58, 5, 45],
        lower_row
    );
}

#[test]
fn test_copy_and_pad_in_bounds() {
    let my_vec = vec![10, 20, 30, 40];
    let segment = copy_and_pad(&my_vec, 1, 2);
    assert_eq!(vec![20, 30], segment);
}

#[test]
fn test_copy_and_pad_out_of_bounds() {
    let my_vec = vec![10, 20, 30, 40];
    let segment = copy_and_pad(&my_vec, 2, 3);
    assert_eq!(vec![30, 40, 40], segment);
}

#[test]
fn test_downsample_even_segment_of_row_none() {
    let value = downsample_segment_of_row(&[15, 17, 4, 4], 4, 4);
    assert_eq!(vec![15, 17, 4, 4], value);
}

#[test]
fn test_downsample_even_segment_of_row_single() {
    let value = downsample_segment_of_row(&[15, 17, 4, 4], 4, 2);
    assert_eq!(vec![16, 4], value);
}

#[test]
fn test_downsample_even_segment_of_row_twice() {
    let value = downsample_segment_of_row(&[19, 21, 4, 16], 4, 1);
    assert_eq!(vec![15], value);
}

#[test]
fn test_downsample_odd_segment_of_row_none() {
    let value = downsample_segment_of_row(&[20, 10, 3], 4, 4);
    assert_eq!(vec![20, 10, 3], value);
}

#[test]
fn test_downsample_odd_segment_of_row_single() {
    let value = downsample_segment_of_row(&[20, 10, 3, 5, 4], 4, 2);
    assert_eq!(vec![15, 4, 4], value);
}

#[test]
fn test_downsample_odd_segment_of_row_twice() {
    let value = downsample_segment_of_row(&[44, 36, 29, 31, 10], 4, 1);
    assert_eq!(vec![35, 10], value);
}

#[test]
fn test_downsample_even_vec_by_two() {
    let value = downsample_vec_by_two(vec![60, 40, 30, 20]);
    assert_eq!(vec![50, 25], value);
}

#[test]
fn test_downsample_odd_vec_by_two() {
    let value = downsample_vec_by_two(vec![33, 31, 20, 40, 50]);
    assert_eq!(vec![32, 30, 50], value);
}

#[test]
fn test_downsample_empty_vec_by_two() {
    let value = downsample_vec_by_two(vec![]);
    let to_compare: Vec<u16> = vec![];
    assert_eq!(to_compare, value);
}
