//! A baseline JPEG encoder: bit streams, Huffman coding, chroma downsampling,
//! coefficient encoding and the JPEG segment writer.

pub mod bits;
pub mod bit_stream;
pub mod appendable_to_bit_stream;
pub mod byte_stuffing_writer;
pub mod coefficient_encoder;
pub mod downsample;
pub mod parallel_downsample;
pub mod huffman;
pub mod weighted_sort;
pub mod package_merge;
pub mod quantization;
pub mod image;
pub mod jpg_writer;
pub mod image_data_writer;
pub mod ppm_parser;
pub mod huffman_decoder;
pub mod code_shape;
