use bmp_parser::bmp::{
    compression_name, compression_of, convert_bgr_to_rgba, row_padding, row_payload, row_stride,
    Compression, DecodeError, BMP,
};
use bmp_parser::utils::{combine_8bits, combine_8bits_signed};

/// Builds the 54 header bytes of a BMP file: a 14-byte file header followed
/// by a 40-byte BITMAPINFOHEADER.
fn headers(file_size: u32, width: i32, height: i32, bits_per_pixel: u16, compression: u32) -> Vec<u8> {
    let mut d: Vec<u8> = Vec::new();
    d.push(b'B');
    d.push(b'M');
    d.extend_from_slice(&file_size.to_le_bytes());
    d.extend_from_slice(&[0, 0, 0, 0]);
    d.extend_from_slice(&54u32.to_le_bytes());
    d.extend_from_slice(&40u32.to_le_bytes());
    d.extend_from_slice(&width.to_le_bytes());
    d.extend_from_slice(&height.to_le_bytes());
    d.extend_from_slice(&1u16.to_le_bytes());
    d.extend_from_slice(&bits_per_pixel.to_le_bytes());
    d.extend_from_slice(&compression.to_le_bytes());
    d.extend_from_slice(&16u32.to_le_bytes());
    d.extend_from_slice(&2835i32.to_le_bytes());
    d.extend_from_slice(&2835i32.to_le_bytes());
    d.extend_from_slice(&0u32.to_le_bytes());
    d.extend_from_slice(&0u32.to_le_bytes());
    assert_eq!(d.len(), 54);
    d
}

#[test]
fn combine_unsigned_one() {
    assert_eq!(combine_8bits(&[0x01, 0x00, 0x00, 0x00]), 1);
}

#[test]
fn combine_unsigned_max() {
    assert_eq!(combine_8bits(&[0xFF, 0xFF, 0xFF, 0xFF]), 4294967295);
}

#[test]
fn combine_unsigned_short_and_empty() {
    assert_eq!(combine_8bits(&[]), 0);
    assert_eq!(combine_8bits(&[0x34, 0x12]), 0x1234);
    assert_eq!(combine_8bits(&[0x78, 0x56, 0x34, 0x12]), 0x12345678);
}

#[test]
fn combine_signed_minus_one() {
    assert_eq!(combine_8bits_signed(&[0xFF, 0xFF, 0xFF, 0xFF]), -1);
}

#[test]
fn combine_signed_min() {
    assert_eq!(combine_8bits_signed(&[0x00, 0x00, 0x00, 0x80]), -2147483648);
}

#[test]
fn combine_signed_short_stays_positive() {
    assert_eq!(combine_8bits_signed(&[0xFF]), 255);
    assert_eq!(combine_8bits_signed(&[0xFF, 0xFF]), 65535);
    assert_eq!(combine_8bits_signed(&[0x2A, 0x00, 0x00, 0x00]), 42);
}

#[test]
fn compression_code_1_is_rle8() {
    assert_eq!(compression_of(1), Compression::Rle8);
    assert_eq!(compression_name(compression_of(1)), "RLE8");
}

#[test]
fn compression_code_99_is_unknown_and_nameless() {
    assert_eq!(compression_of(99), Compression::Unknown);
    assert_eq!(compression_name(compression_of(99)), "");
}

#[test]
fn compression_code_table() {
    assert_eq!(compression_name(compression_of(0)), "None");
    assert_eq!(compression_name(compression_of(2)), "RLE4");
    assert_eq!(compression_name(compression_of(3)), "Huffman1D");
    assert_eq!(compression_name(compression_of(4)), "RLE24");
    assert_eq!(compression_name(compression_of(5)), "");
    assert_eq!(compression_name(compression_of(6)), "RGBA-bitfields");
    assert_eq!(compression_name(compression_of(11)), "None");
    assert_eq!(compression_name(compression_of(12)), "RLE8");
    assert_eq!(compression_name(compression_of(13)), "RLE4");
}

#[test]
fn row_geometry_width_3() {
    assert_eq!(row_stride(3, 24), 12);
    assert_eq!(row_padding(3, 24), 1);
    assert_eq!(row_payload(3, 24), 11);
}

#[test]
fn row_geometry_other_widths() {
    assert_eq!(row_stride(2, 24), 8);
    assert_eq!(row_padding(2, 24), 2);
    assert_eq!(row_payload(2, 24), 6);
    assert_eq!(row_stride(4, 24), 12);
    assert_eq!(row_padding(4, 24), 0);
    assert_eq!(row_payload(4, 24), 12);
    assert_eq!(row_stride(1, 24), 4);
    assert_eq!(row_padding(1, 24), 3);
    assert_eq!(row_payload(1, 24), 1);
}

#[test]
fn convert_bgr_triple() {
    assert_eq!(convert_bgr_to_rgba(&[0x10, 0x20, 0x30], 0xFF), vec![0x30, 0x20, 0x10, 0xFF]);
}

#[test]
fn short_file_header_is_fatal() {
    let data = [b'B', b'M', 70, 0, 0, 0, 0, 0, 0, 0];
    let r = BMP::read(&data);
    assert_eq!(r.unwrap_err(), DecodeError::ShortRead);
}

#[test]
fn empty_input_is_fatal() {
    assert_eq!(BMP::read(&[]).unwrap_err(), DecodeError::ShortRead);
}

#[test]
fn short_dib_header_is_fatal() {
    let d = headers(70, 2, 2, 24, 0);
    let r = BMP::read(&d[..53]);
    assert_eq!(r.unwrap_err(), DecodeError::ShortRead);
}

#[test]
fn short_pixel_data_is_fatal() {
    let mut d = headers(70, 2, 2, 24, 0);
    d.extend_from_slice(&[0; 13]);
    assert_eq!(d.len(), 67);
    let r = BMP::read(&d);
    assert_eq!(r.unwrap_err(), DecodeError::ShortRead);
}

#[test]
fn decode_two_by_two() {
    let mut d = headers(70, 2, 2, 24, 0);
    // stored bottom row: (B,G,R) = (1,2,3) and (4,5,6), then 2 pad bytes
    d.extend_from_slice(&[0x01, 0x02, 0x03, 0x04, 0x05, 0x06, 0xAA, 0xBB]);
    // stored top row
    d.extend_from_slice(&[0x10, 0x20, 0x30, 0x40, 0x50, 0x60, 0xCC, 0xDD]);
    assert_eq!(d.len(), 70);
    let bmp = BMP::read(&d).unwrap();
    assert_eq!(bmp.file_identifier, "BM");
    assert_eq!(bmp.file_size_bytes, 70);
    assert_eq!(bmp.pixel_read_addr, 54);
    assert_eq!(bmp.dib_header_size, 40);
    assert_eq!(bmp.image_width, 2);
    assert_eq!(bmp.image_height, 2);
    assert_eq!(bmp.num_color_planes, 1);
    assert_eq!(bmp.bits_per_pixel, 24);
    assert_eq!(bmp.compression_method, 0);
    assert_eq!(bmp.compression_method_name, "None");
    assert_eq!(bmp.raw_image_size, 16);
    assert_eq!(bmp.resolution_horizontal_ppm, 2835);
    assert_eq!(bmp.resolution_vertical_ppm, 2835);
    assert_eq!(bmp.num_colors, 0);
    assert_eq!(bmp.num_important_colors, 0);
    assert_eq!(
        bmp.pixel_arr_flat,
        vec![
            0x30, 0x20, 0x10, 0xFF, // top left, from the last stored row
            0x60, 0x50, 0x40, 0xFF, // top right
            0x03, 0x02, 0x01, 0xFF, // bottom left, from the first stored row
            0x06, 0x05, 0x04, 0xFF, // bottom right
        ]
    );
}

#[test]
fn first_output_pixel_is_top_left() {
    let mut d = headers(70, 2, 2, 24, 0);
    d.extend_from_slice(&[0x01, 0x02, 0x03, 0x04, 0x05, 0x06, 0x00, 0x00]);
    d.extend_from_slice(&[0x10, 0x20, 0x30, 0x40, 0x50, 0x60, 0x00, 0x00]);
    let bmp = BMP::read(&d).unwrap();
    // the first 4 output bytes come from the stored row read last (the top
    // of the displayed image), not from the first stored row
    assert_eq!(&bmp.pixel_arr_flat[..4], &[0x30, 0x20, 0x10, 0xFF]);
}

#[test]
fn channel_conversion_in_image() {
    // one row, two pixels; the first stored triple is (0x10, 0x20, 0x30)
    let mut d = headers(60, 2, 1, 24, 0);
    d.extend_from_slice(&[0x10, 0x20, 0x30, 0x00, 0x00, 0x00]);
    // the 2 pad bytes after the last row are skipped, so they may be absent
    let bmp = BMP::read(&d).unwrap();
    assert_eq!(&bmp.pixel_arr_flat[..4], &[0x30, 0x20, 0x10, 0xFF]);
    assert_eq!(bmp.pixel_arr_flat.len(), 8);
}

#[test]
fn width_3_pad_byte_is_skipped_not_copied() {
    // width 3: stride 12, computed padding 1, payload 11; one row
    let mut d = headers(66, 3, 1, 24, 0);
    d.extend_from_slice(&[1, 2, 3, 4, 5, 6, 7, 8, 9]);
    // two true pad bytes land in the payload and are dropped as a partial
    // group; the third is skipped without being read
    d.extend_from_slice(&[0xAA, 0xBB, 0xCC]);
    let bmp = BMP::read(&d).unwrap();
    assert_eq!(bmp.pixel_arr_flat.len(), 3 * 1 * 4);
    assert_eq!(
        bmp.pixel_arr_flat,
        vec![3, 2, 1, 0xFF, 6, 5, 4, 0xFF, 9, 8, 7, 0xFF]
    );
    assert!(!bmp.pixel_arr_flat.contains(&0xAA));
    assert!(!bmp.pixel_arr_flat.contains(&0xBB));
    assert!(!bmp.pixel_arr_flat.contains(&0xCC));
}

#[test]
fn pixel_buffer_length_many_widths() {
    for width in [2i32, 3, 4, 6, 7, 8] {
        let height = 2i32;
        let stride = row_stride(width as u32, 24) as usize;
        let mut d = headers(0, width, height, 24, 0);
        d.extend(std::iter::repeat(0u8).take(stride * height as usize));
        let bmp = BMP::read(&d).unwrap();
        assert_eq!(bmp.pixel_arr_flat.len(), (width * height * 4) as usize);
    }
}

#[test]
fn width_one_above_multiple_of_four_loses_last_column() {
    // width 5: stride 16, computed padding 3, payload 13 — each row's last
    // pixel falls short of a whole group, so only 4 columns are emitted
    let stride = row_stride(5, 24) as usize;
    let mut d = headers(0, 5, 1, 24, 0);
    d.extend(std::iter::repeat(0x11u8).take(stride));
    let bmp = BMP::read(&d).unwrap();
    assert_eq!(bmp.pixel_arr_flat.len(), 4 * 4);
}

#[test]
fn unsupported_color_depth_leaves_buffer_empty() {
    let d = headers(54, 2, 2, 8, 0);
    let bmp = BMP::read(&d).unwrap();
    assert_eq!(bmp.bits_per_pixel, 8);
    assert_eq!(bmp.pixel_arr_flat.len(), 0);
}

#[test]
fn negative_height_leaves_buffer_empty() {
    let d = headers(54, 2, -2, 24, 0);
    let bmp = BMP::read(&d).unwrap();
    assert_eq!(bmp.image_height, -2);
    assert_eq!(bmp.pixel_arr_flat.len(), 0);
}

#[test]
fn identifier_is_not_validated() {
    let mut d = headers(54, 1, -1, 24, 0);
    d[0] = b'X';
    d[1] = b'Y';
    let bmp = BMP::read(&d).unwrap();
    assert_eq!(bmp.file_identifier, "XY");
}

#[test]
fn unknown_compression_code_does_not_fail_decode() {
    let d = headers(54, 2, -2, 24, 99);
    let bmp = BMP::read(&d).unwrap();
    assert_eq!(bmp.compression_method, 99);
    assert_eq!(bmp.compression_method_name, "");
}
