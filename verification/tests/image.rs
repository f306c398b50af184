use jpeg_encoder::image::{create_image, Image};
use jpeg_encoder::ppm_parser::read_ppm_from_text;

const TEST_IMAGE_MAX_15: &str = "P3
# a 4x4 test picture
4 4
15
 0  0  0    0  0  0    0  0  0   15  0 15
 0  0  0    0 15  7    0  0  0    0  0  0
 0  0  0    0  0  0    0 15  7    0  0  0
15  0 15    0  0  0    0  0  0    0  0  0
";

const TEST_IMAGE_MAX_65535: &str = "P3
# a 4x4 test picture
4 4
65535
0 0 0  0 0 0  0 0 0  65535 0 65535
0 0 0  0 65535 7  0 0 0  0 0 0
0 0 0  0 0 0  0 65535 7  0 0 0
65535 0 65535  0 0 0  0 0 0  0 0 0
";

const TEST_IMAGE_8X8: &str = "P3
# an 8x8 test picture
8 8
15
0 0 0   0 0 0   0 0 0   15 0 15   0 0 0   0 0 0   0 0 0   15 0 15
0 0 0   0 15 7   0 0 0   0 0 0   0 0 0   0 15 7   0 0 0   0 0 0
0 0 0   0 0 0   0 15 7   0 0 0   0 0 0   0 0 0   0 15 7   0 0 0
15 0 15   0 0 0   0 0 0   0 0 0   15 0 15   0 0 0   0 0 0   0 0 0
0 0 0   0 0 0   0 0 0   15 0 15   0 0 0   0 0 0   0 0 0   15 0 15
0 0 0   0 15 7   0 0 0   0 0 0   0 0 0   0 15 7   0 0 0   0 0 0
0 0 0   0 0 0   0 15 7   0 0 0   0 0 0   0 0 0   0 15 7   0 0 0
15 0 15   0 0 0   0 0 0   0 0 0   15 0 15   0 0 0   0 0 0   0 0 0
";

fn scale_sample(value: &String, max_value: u16) -> Option<u16> {
    let scaling_factor = u16::MAX as f32 / max_value as f32;
    value.parse::<f32>().ok().map(|v| (v * scaling_factor) as u16)
}

fn read_ppm(text: &str) -> Image {
    read_ppm_from_text(text, scale_sample).unwrap()
}

fn convert_rgb_values_to_ycbcr(r: u16, g: u16, b: u16) -> (u16, u16, u16) {
    let (r, g, b) = (r as f32, g as f32, b as f32);
    let y = 0.299 * r + 0.587 * g + 0.114 * b;
    let cb = -0.1687 * r + -0.3312 * g + 0.5 * b + 32767.0;
    let cr = 0.5 * r + -0.4186 * g + -0.0813 * b + 32767.0;
    (y.round() as u16, cb.round() as u16, cr.round() as u16)
}

fn assert_image(
    image: &Image,
    width: u16,
    height: u16,
    channel1: Vec<Vec<u16>>,
    channel2: Vec<Vec<u16>>,
    channel3: Vec<Vec<u16>>,
    factors: (usize, usize, usize),
    downsampled_vertically: bool,
) {
    assert_eq!(image.width(), width);
    assert_eq!(image.height(), height);
    assert_eq!(*image.channel1(), channel1);
    assert_eq!(*image.channel2(), channel2);
    assert_eq!(*image.channel3(), channel3);
    assert_eq!(image.y_downsample_factor(), factors.0);
    assert_eq!(image.cb_downsample_factor(), factors.1);
    assert_eq!(image.cr_downsample_factor(), factors.2);
    assert_eq!(image.downsampled_vertically(), downsampled_vertically);
}

#[test]
fn test_downsample_image_factor_two() {
    let mut read_image = read_ppm(TEST_IMAGE_MAX_15);
    read_image.downsample(4, 2, 2);
    assert_image(
        &read_image,
        4,
        4,
        vec![
            vec![0, 0, 0, 65535],
            vec![0, 0, 0, 0],
            vec![0, 0, 0, 0],
            vec![65535, 0, 0, 0],
        ],
        vec![vec![0, 0], vec![32767, 0], vec![0, 32767], vec![0, 0]],
        vec![vec![0, 32767], vec![15291, 0], vec![0, 15291], vec![32767, 0]],
        (1, 2, 2),
        false,
    );
}

#[test]
fn test_downsample_image_no_downsample() {
    let mut read_image = read_ppm(TEST_IMAGE_MAX_15);
    read_image.downsample(4, 4, 4);
    assert_image(
        &read_image,
        4,
        4,
        vec![
            vec![0, 0, 0, 65535],
            vec![0, 0, 0, 0],
            vec![0, 0, 0, 0],
            vec![65535, 0, 0, 0],
        ],
        vec![
            vec![0, 0, 0, 0],
            vec![0, 65535, 0, 0],
            vec![0, 0, 65535, 0],
            vec![0, 0, 0, 0],
        ],
        vec![
            vec![0, 0, 0, 65535],
            vec![0, 30583, 0, 0],
            vec![0, 0, 30583, 0],
            vec![65535, 0, 0, 0],
        ],
        (1, 1, 1),
        false,
    );
}

#[test]
fn test_downsample_image_factor_four_and_vertical() {
    let mut read_image = read_ppm(TEST_IMAGE_MAX_15);
    read_image.downsample(4, 1, 0);
    assert_image(
        &read_image,
        4,
        4,
        vec![
            vec![0, 0, 0, 65535],
            vec![0, 0, 0, 0],
            vec![0, 0, 0, 0],
            vec![65535, 0, 0, 0],
        ],
        vec![vec![8191], vec![8191]],
        vec![vec![12014], vec![12014]],
        (1, 4, 4),
        true,
    );
}

#[test]
fn test_pixel_at_in_bounds() {
    let read_image = read_ppm(TEST_IMAGE_MAX_15);
    let pixel = read_image.pixel_at(3, 0);
    assert_eq!((65535, 0, 65535), pixel);
}

#[test]
fn test_pixel_at_x_out_of_bounds() {
    let read_image = read_ppm(TEST_IMAGE_MAX_15);
    let pixel = read_image.pixel_at(4, 0);
    assert_eq!((65535, 0, 65535), pixel);
}

#[test]
fn test_pixel_at_y_out_of_bounds() {
    let read_image = read_ppm(TEST_IMAGE_MAX_15);
    let pixel = read_image.pixel_at(0, 4);
    assert_eq!((65535, 0, 65535), pixel);
}

#[test]
fn test_pixel_at_y_and_x_out_of_bounds() {
    let read_image = read_ppm(TEST_IMAGE_MAX_15);
    let pixel = read_image.pixel_at(4, 4);
    assert_eq!((0, 0, 0), pixel);
}

#[test]
fn test_pixel_at_in_bounds_after_downsample() {
    let mut read_image = read_ppm(TEST_IMAGE_MAX_15);
    read_image.downsample(4, 2, 2);
    let pixel = read_image.pixel_at(3, 0);
    assert_eq!((65535, 0, 32767), pixel);
}

#[test]
fn test_pixel_at_x_out_of_bounds_after_downsample() {
    let mut read_image = read_ppm(TEST_IMAGE_MAX_15);
    read_image.downsample(4, 2, 2);
    let pixel = read_image.pixel_at(4, 0);
    assert_eq!((65535, 0, 32767), pixel);
}

#[test]
fn test_pixel_at_y_out_of_bounds_after_vertical_downsample() {
    let mut read_image = read_ppm(TEST_IMAGE_MAX_15);
    read_image.downsample(4, 2, 0);
    let pixel = read_image.pixel_at(0, 4);
    assert_eq!((65535, 0, 16383), pixel);
}

#[test]
fn test_pixel_at_y_and_x_out_of_bounds_after_downsample() {
    let mut read_image = read_ppm(TEST_IMAGE_MAX_15);
    read_image.downsample(4, 2, 2);
    let pixel = read_image.pixel_at(4, 4);
    assert_eq!((0, 0, 0), pixel);
}

#[test]
fn test_pixel_at_y_and_x_out_of_bounds_after_vertical_downsample() {
    let mut read_image = read_ppm(TEST_IMAGE_MAX_15);
    read_image.downsample(4, 2, 0);
    let pixel = read_image.pixel_at(4, 4);
    assert_eq!((0, 16383, 7645), pixel);
}

#[test]
fn test_convert_rgb_to_rcbcr() {
    let mut image = create_image(
        1,
        5,
        Vec::from([Vec::from([0, 65535, 0, 0, 65535])]),
        Vec::from([Vec::from([0, 0, 65535, 0, 65535])]),
        Vec::from([Vec::from([0, 0, 0, 65535, 65535])]),
    );
    image.rgb_to_ycbcr(convert_rgb_values_to_ycbcr);
    assert_eq!(
        image,
        create_image(
            1,
            5,
            Vec::from([Vec::from([0, 19595, 38469, 7471, 65535])]),
            Vec::from([Vec::from([32767, 21711, 11062, 65535, 32774])]),
            Vec::from([Vec::from([32767, 65535, 5334, 27439, 32774])]),
        )
    )
}

#[test]
fn test_downsampling_parameters_are_power_of_two() {
    let mut image = read_ppm(TEST_IMAGE_MAX_15);
    image.downsample(4, 2, 2);
}

#[test]
fn test_correct_scaling_not_maximal_value() {
    let image = read_ppm(TEST_IMAGE_MAX_15);
    assert_image(
        &image,
        4,
        4,
        vec![
            vec![0, 0, 0, 65535],
            vec![0, 0, 0, 0],
            vec![0, 0, 0, 0],
            vec![65535, 0, 0, 0],
        ],
        vec![
            vec![0, 0, 0, 0],
            vec![0, 65535, 0, 0],
            vec![0, 0, 65535, 0],
            vec![0, 0, 0, 0],
        ],
        vec![
            vec![0, 0, 0, 65535],
            vec![0, 30583, 0, 0],
            vec![0, 0, 30583, 0],
            vec![65535, 0, 0, 0],
        ],
        (1, 1, 1),
        false,
    );
}

#[test]
fn test_correct_scaling_maximal_value() {
    let image = read_ppm(TEST_IMAGE_MAX_65535);
    assert_image(
        &image,
        4,
        4,
        vec![
            vec![0, 0, 0, 65535],
            vec![0, 0, 0, 0],
            vec![0, 0, 0, 0],
            vec![65535, 0, 0, 0],
        ],
        vec![
            vec![0, 0, 0, 0],
            vec![0, 65535, 0, 0],
            vec![0, 0, 65535, 0],
            vec![0, 0, 0, 0],
        ],
        vec![
            vec![0, 0, 0, 65535],
            vec![0, 7, 0, 0],
            vec![0, 0, 7, 0],
            vec![65535, 0, 0, 0],
        ],
        (1, 1, 1),
        false,
    );
}

#[test]
fn downsampling_factors_that_are_not_powers_of_two_are_refused() {
    let image = read_ppm(TEST_IMAGE_MAX_15);
    assert!(image.can_downsample(4, 2, 2));
    assert!(image.can_downsample(4, 2, 0));
    assert!(!image.can_downsample(5, 2, 2));
    assert!(!image.can_downsample(4, 3, 2));
    assert!(!image.can_downsample(4, 2, 3));
}

#[test]
fn default_image_is_empty_and_not_downsampled() {
    let image = Image::default();
    assert_image(&image, 0, 0, vec![], vec![], vec![], (1, 1, 1), false);
}

fn as_block(values: Vec<u16>) -> [u16; 64] {
    let mut block = [0u16; 64];
    for (k, v) in values.into_iter().enumerate() {
        block[k] = v;
    }
    block
}

#[test]
fn test_to_matrices_basic() {
    let image = read_ppm(TEST_IMAGE_8X8);
    let (r, g, b) = image.to_matrices().unwrap();

    let r_expected_vec = vec![
        0, 0, 0, 65535, 0, 0, 0, 65535, // row 1
        0, 0, 0, 0, 0, 0, 0, 0, // row 2
        0, 0, 0, 0, 0, 0, 0, 0, // row 3
        65535, 0, 0, 0, 65535, 0, 0, 0, // row 4
        0, 0, 0, 65535, 0, 0, 0, 65535, // row 5
        0, 0, 0, 0, 0, 0, 0, 0, // row 6
        0, 0, 0, 0, 0, 0, 0, 0, // row 7
        65535, 0, 0, 0, 65535, 0, 0, 0, // row 8
    ];
    let r_expected: Vec<[u16; 64]> = vec![as_block(r_expected_vec)];
    assert_eq!(r_expected, r);

    let g_expected_vec = vec![
        0, 0, 0, 0, 0, 0, 0, 0, // row 1
        0, 65535, 0, 0, 0, 65535, 0, 0, // row 2
        0, 0, 65535, 0, 0, 0, 65535, 0, // row 3
        0, 0, 0, 0, 0, 0, 0, 0, // row 4
        0, 0, 0, 0, 0, 0, 0, 0, // row 5
        0, 65535, 0, 0, 0, 65535, 0, 0, // row 6
        0, 0, 65535, 0, 0, 0, 65535, 0, // row 7
        0, 0, 0, 0, 0, 0, 0, 0, // row 8
    ];
    let g_expected: Vec<[u16; 64]> = vec![as_block(g_expected_vec)];
    assert_eq!(g_expected, g);

    let b_expected_vec = vec![
        0, 0, 0, 65535, 0, 0, 0, 65535, // row 1
        0, 30583, 0, 0, 0, 30583, 0, 0, // row 2
        0, 0, 30583, 0, 0, 0, 30583, 0, // row 3
        65535, 0, 0, 0, 65535, 0, 0, 0, // row 4
        0, 0, 0, 65535, 0, 0, 0, 65535, // row 5
        0, 30583, 0, 0, 0, 30583, 0, 0, // row 6
        0, 0, 30583, 0, 0, 0, 30583, 0, // row 7
        65535, 0, 0, 0, 65535, 0, 0, 0, // row 8
    ];
    let b_expected: Vec<[u16; 64]> = vec![as_block(b_expected_vec)];
    assert_eq!(b_expected, b);
}

#[test]
fn test_to_matrices_downsample_and_ycbcr() {
    let mut image = read_ppm(TEST_IMAGE_8X8);
    image.rgb_to_ycbcr(convert_rgb_values_to_ycbcr);
    image.downsample(4, 2, 0);

    let (y, cb, cr) = image.to_matrices().unwrap();
    let y_expected_vec = vec![
        0, 0, 0, 27066, 0, 0, 0, 27066, // row 1
        0, 41956, 0, 0, 0, 41956, 0, 0, // row 2
        0, 0, 41956, 0, 0, 0, 41956, 0, // row 3
        27066, 0, 0, 0, 27066, 0, 0, 0, // row 4
        0, 0, 0, 27066, 0, 0, 0, 27066, // row 5
        0, 41956, 0, 0, 0, 41956, 0, 0, // row 6
        0, 0, 41956, 0, 0, 0, 41956, 0, // row 7
        27066, 0, 0, 0, 27066, 0, 0, 0, // row 8
    ];
    let y_expected: Vec<[u16; 64]> = vec![as_block(y_expected_vec)];
    assert_eq!(y_expected, y);

    let cb_expected_vec = vec![
        31163, 31163, 38195, 38195, 31163, 31163, 38195, 38195, // row 1
        31163, 31163, 38195, 38195, 31163, 31163, 38195, 38195, // row 2
        38195, 38195, 31163, 31163, 38195, 38195, 31163, 31163, // row 3
        38195, 38195, 31163, 31163, 38195, 38195, 31163, 31163, // row 4
        31163, 31163, 38195, 38195, 31163, 31163, 38195, 38195, // row 5
        31163, 31163, 38195, 38195, 31163, 31163, 38195, 38195, // row 6
        38195, 38195, 31163, 31163, 38195, 38195, 31163, 31163, // row 7
        38195, 38195, 31163, 31163, 38195, 38195, 31163, 31163, // row 8
    ];
    let cb_expected: Vec<[u16; 64]> = vec![as_block(cb_expected_vec)];
    assert_eq!(cb_expected, cb);

    let cr_expected_vec = vec![
        25287, 25287, 39627, 39627, 25287, 25287, 39627, 39627, // row 1
        25287, 25287, 39627, 39627, 25287, 25287, 39627, 39627, // row 2
        39627, 39627, 25287, 25287, 39627, 39627, 25287, 25287, // row 3
        39627, 39627, 25287, 25287, 39627, 39627, 25287, 25287, // row 4
        25287, 25287, 39627, 39627, 25287, 25287, 39627, 39627, // row 5
        25287, 25287, 39627, 39627, 25287, 25287, 39627, 39627, // row 6
        39627, 39627, 25287, 25287, 39627, 39627, 25287, 25287, // row 7
        39627, 39627, 25287, 25287, 39627, 39627, 25287, 25287, // row 8
    ];
    let cr_expected: Vec<[u16; 64]> = vec![as_block(cr_expected_vec)];
    assert_eq!(cr_expected, cr);
}

#[test]
fn images_that_do_not_split_into_blocks_give_no_blocks() {
    let image = read_ppm(TEST_IMAGE_MAX_15);
    assert!(image.to_matrices().is_none());
    assert!(Image::default().to_matrices().is_none());
}

#[test]
fn a_sixteen_wide_image_gives_two_blocks_per_row_of_blocks() {
    let row: Vec<u16> = (0..16).collect();
    let channel: Vec<Vec<u16>> = (0..8).map(|_| row.clone()).collect();
    let image = create_image(8, 16, channel.clone(), channel.clone(), channel);
    let (y, _, _) = image.to_matrices().unwrap();
    assert_eq!(y.len(), 2);
    assert_eq!(y[1][0], 8);
    assert_eq!(y[1][63], 15);
}
