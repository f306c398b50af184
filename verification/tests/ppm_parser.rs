use jpeg_encoder::image::create_image;
use jpeg_encoder::ppm_parser::{parse_unsigned, read_ppm_from_text, strip_comments, PpmError};

const TEST_IMAGE_MAX_15: &str = "P3
# a 4x4 test picture
4 4
15
 0  0  0    0  0  0    0  0  0   15  0 15
 0  0  0    0 15  7    0  0  0    0  0  0
 0  0  0    0  0  0    0 15  7    0  0  0
15  0 15    0  0  0    0  0  0    0  0  0
";

fn scale_sample(value: &String, max_value: u16) -> Option<u16> {
    let scaling_factor = u16::MAX as f32 / max_value as f32;
    value.parse::<f32>().ok().map(|v| (v * scaling_factor) as u16)
}

#[test]
fn test_ppm_from_file_successful() {
    let read_image = read_ppm_from_text(TEST_IMAGE_MAX_15, scale_sample).unwrap();
    let expected_image = create_image(
        4,
        4,
        vec![
            vec![0, 0, 0, 65535],
            vec![0, 0, 0, 0],
            vec![0, 0, 0, 0],
            vec![65535, 0, 0, 0],
        ],
        vec![
            vec![0, 0, 0, 0],
            vec![0, 65535, 0, 0],
            vec![0, 0, 65535, 0],
            vec![0, 0, 0, 0],
        ],
        vec![
            vec![0, 0, 0, 65535],
            vec![0, 30583, 0, 0],
            vec![0, 0, 30583, 0],
            vec![65535, 0, 0, 0],
        ],
    );

    assert_eq!(expected_image, read_image);
}

#[test]
fn ppm_without_p3_is_refused() {
    let text = "P6\n4 4\n15\n0 0 0\n";
    assert_eq!(read_ppm_from_text(text, scale_sample), Err(PpmError::UnsupportedFormat));
}

#[test]
fn ppm_with_malformed_header_is_refused() {
    let text = "P3\n4 x\n15\n0 0 0\n";
    assert_eq!(read_ppm_from_text(text, scale_sample), Err(PpmError::MalformedHeader));
}

#[test]
fn ppm_with_malformed_value_is_refused() {
    let text = "P3\n1 1\n15\n0 zero 0\n";
    assert_eq!(read_ppm_from_text(text, scale_sample), Err(PpmError::MalformedValue));
}

#[test]
fn ppm_with_too_few_values_is_refused() {
    let text = "P3\n2 2\n15\n0 0 0 1 1 1\n";
    assert_eq!(read_ppm_from_text(text, scale_sample), Err(PpmError::MalformedValue));
}

#[test]
fn comment_lines_are_dropped_and_lines_joined() {
    let text = "P3\n# comment\n1 2\n#another\n3";
    assert_eq!(strip_comments(text), "P3 1 2 3");
}

#[test]
fn unsigned_numbers_are_parsed_within_their_bound() {
    assert_eq!(parse_unsigned("65535", 65535), Some(65535));
    assert_eq!(parse_unsigned("65536", 65535), None);
    assert_eq!(parse_unsigned("", 65535), None);
    assert_eq!(parse_unsigned("1a", 65535), None);
    assert_eq!(parse_unsigned("007", 65535), Some(7));
}

#[test]
fn ppm_with_p6_header_is_refused_as_unsupported() {
    let text = "P6\n# binary variant\n4 4\n15\n";
    assert_eq!(read_ppm_from_text(text, scale_sample), Err(PpmError::UnsupportedFormat));
    assert_eq!(read_ppm_from_text("", scale_sample), Err(PpmError::UnsupportedFormat));
}

#[test]
fn ppm_header_gives_width_before_height() {
    let text = "P3\n3 1\n255\n255 0 0  0 255 0  0 0 255\n";
    let image = read_ppm_from_text(text, scale_sample).unwrap();
    assert_eq!(image.width(), 3);
    assert_eq!(image.height(), 1);
    let expected = create_image(
        1,
        3,
        vec![vec![65535, 0, 0]],
        vec![vec![0, 65535, 0]],
        vec![vec![0, 0, 65535]],
    );
    assert_eq!(expected, image);
}

#[test]
fn ppm_of_two_rows_of_one_pixel() {
    let text = "P3\n1 2\n15\n15 15 15\n0 0 0\n";
    let image = read_ppm_from_text(text, scale_sample).unwrap();
    assert_eq!(image.width(), 1);
    assert_eq!(image.height(), 2);
    assert_eq!(*image.channel1(), vec![vec![65535], vec![0]]);
}

#[test]
fn ppm_with_crlf_lines_and_tabs_is_read() {
    let text = "P3\r\n# comment\r\n2\t1\r\n15\r\n15 0 0\t0 15 0\r\n";
    let image = read_ppm_from_text(text, scale_sample).unwrap();
    assert_eq!(image.width(), 2);
    assert_eq!(image.height(), 1);
    assert_eq!(*image.channel1(), vec![vec![65535, 0]]);
    assert_eq!(*image.channel2(), vec![vec![0, 65535]]);
}
