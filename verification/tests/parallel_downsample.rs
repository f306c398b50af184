use jpeg_encoder::parallel_downsample::downsample_channel;

#[test]
fn test_downsample_parallel_channel_vertical() {
    let input_channel = vec![
        vec![1, 2, 3, 4],
        vec![5, 6, 7, 8],
        vec![9, 10, 11, 12],
        vec![13, 14, 15, 16],
    ];

    let expected_output: Vec<Vec<u16>> = vec![vec![3, 5], vec![11, 13]];

    let result = downsample_channel(&input_channel, 4, 2, true);

    assert_eq!(expected_output, result);
}

#[test]
fn test_downsample_parallel_channel_horizontal() {
    let input_channel = vec![
        vec![1, 2, 3, 4],
        vec![5, 6, 7, 8],
        vec![9, 10, 11, 12],
        vec![13, 14, 15, 16],
    ];

    let expected_output: Vec<Vec<u16>> =
        vec![vec![1, 3], vec![5, 7], vec![9, 11], vec![13, 15]];

    let result = downsample_channel(&input_channel, 4, 2, false);

    assert_eq!(expected_output, result);
}

#[test]
fn test_downsample_parallel_channel_no_change() {
    let input_channel = vec![
        vec![1, 2, 3, 4],
        vec![5, 6, 7, 8],
        vec![9, 10, 11, 12],
        vec![13, 14, 15, 16],
    ];

    let result = downsample_channel(&input_channel, 4, 4, false);

    assert_eq!(input_channel, result);
}

#[test]
fn parallel_downsampling_matches_pairwise_downsampling() {
    let channel: Vec<Vec<u16>> = (0..6u16)
        .map(|r| (0..8u16).map(|c| r * 100 + c * 3).collect())
        .collect();
    for vertical in [false, true] {
        let parallel = downsample_channel(&channel, 4, 2, vertical);
        let pairwise = jpeg_encoder::downsample::downsample_channel(&channel, 4, 2, vertical);
        assert_eq!(parallel, pairwise);
    }
    let odd: Vec<Vec<u16>> = channel[0..5].to_vec();
    let parallel = downsample_channel(&odd, 4, 2, true);
    let pairwise = jpeg_encoder::downsample::downsample_channel(&odd, 4, 2, true);
    assert_eq!(parallel.len(), pairwise.len() + 1);
    assert_eq!(parallel[0..pairwise.len()].to_vec(), pairwise);
}
