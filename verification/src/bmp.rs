//! Decoding a 24-bit uncompressed BMP image from its bytes: the 14-byte file
//! header, the 40-byte BITMAPINFOHEADER, and the DWORD-aligned bottom-up BGR
//! pixel array, normalized to a top-down RGBA pixel buffer.

use crate::utils::{
    as_signed32, combine_8bits, combine_8bits_signed, le_value, lemma_le_value_bound, pow256,
};
use vstd::prelude::*;
use vstd::slice::slice_subrange;

verus! {

/// Why a decode was aborted: a fixed-size read demanded more bytes than the
/// input holds. No partial result is returned.
#[derive(Debug, Clone, Copy, PartialEq, Eq, Structural)]
pub enum DecodeError {
    ShortRead,
}

/// The compression scheme a DIB header declares, as a closed enumeration.
/// Codes this decoder does not recognize degrade to `Unknown` rather than
/// failing the decode.
#[derive(Debug, Clone, Copy, PartialEq, Eq, Structural)]
pub enum Compression {
    Uncompressed,
    Rle8,
    Rle4,
    Huffman1d,
    Rle24,
    Reserved,
    RgbaBitfields,
    Unknown,
}

/// The compression scheme a DIB compression code declares.
pub open spec fn compression_of_spec(code: u32) -> Compression {
    if code == 0 || code == 11 {
        Compression::Uncompressed
    } else if code == 1 || code == 12 {
        Compression::Rle8
    } else if code == 2 || code == 13 {
        Compression::Rle4
    } else if code == 3 {
        Compression::Huffman1d
    } else if code == 4 {
        Compression::Rle24
    } else if code == 5 {
        Compression::Reserved
    } else if code == 6 {
        Compression::RgbaBitfields
    } else {
        Compression::Unknown
    }
}

/// Classifies a DIB compression code. Every code maps to some variant;
/// unrecognized codes map to `Unknown` and are not an error.
pub fn compression_of(code: u32) -> (r: Compression)
    ensures
        r == compression_of_spec(code),
{
    match code {
        0 | 11 => Compression::Uncompressed,
        1 | 12 => Compression::Rle8,
        2 | 13 => Compression::Rle4,
        3 => Compression::Huffman1d,
        4 => Compression::Rle24,
        5 => Compression::Reserved,
        6 => Compression::RgbaBitfields,
        _ => Compression::Unknown,
    }
}

/// The display name of a compression scheme. The reserved and unknown
/// schemes have an empty name.
pub open spec fn compression_name_spec(c: Compression) -> Seq<char> {
    match c {
        Compression::Uncompressed => "None"@,
        Compression::Rle8 => "RLE8"@,
        Compression::Rle4 => "RLE4"@,
        Compression::Huffman1d => "Huffman1D"@,
        Compression::Rle24 => "RLE24"@,
        Compression::Reserved => ""@,
        Compression::RgbaBitfields => "RGBA-bitfields"@,
        Compression::Unknown => ""@,
    }
}

/// Renders the name of a compression scheme.
pub fn compression_name(c: Compression) -> (r: String)
    ensures
        r@ == compression_name_spec(c),
{
    match c {
        Compression::Uncompressed => "None".to_string(),
        Compression::Rle8 => "RLE8".to_string(),
        Compression::Rle4 => "RLE4".to_string(),
        Compression::Huffman1d => "Huffman1D".to_string(),
        Compression::Rle24 => "RLE24".to_string(),
        Compression::Reserved => "".to_string(),
        Compression::RgbaBitfields => "RGBA-bitfields".to_string(),
        Compression::Unknown => "".to_string(),
    }
}

/// The stored size in bytes of one pixel row: the row's bits, rounded up to
/// a whole number of 32-bit words.
pub open spec fn row_stride_spec(width: int, bits_per_pixel: int) -> int {
    ((bits_per_pixel * width + 31) / 32) * 4
}

/// The count of pad bytes the decoder skips after each row's payload.
pub open spec fn row_padding_spec(width: int, bits_per_pixel: int) -> int {
    (width * (bits_per_pixel / 8)) % 4
}

/// The count of bytes the decoder reads from each stored row.
pub open spec fn row_payload_spec(width: int, bits_per_pixel: int) -> int {
    row_stride_spec(width, bits_per_pixel) - row_padding_spec(width, bits_per_pixel)
}

/// How many whole pixels (3-byte groups) one row's payload yields at
/// 24 bits per pixel.
pub open spec fn row_groups_spec(width: int) -> int {
    row_payload_spec(width, 24) / 3
}

/// The row padding never exceeds the row stride, so the payload is never
/// negative.
pub proof fn lemma_row_payload_nonneg(width: int, bits_per_pixel: int)
    requires
        width >= 0,
        bits_per_pixel >= 0,
    ensures
        0 <= row_padding_spec(width, bits_per_pixel) <= row_stride_spec(width, bits_per_pixel),
{
    let bytes = bits_per_pixel / 8;
    let prod = width * bytes;
    vstd::arithmetic::mul::lemma_mul_nonnegative(width, bytes);
    vstd::arithmetic::mul::lemma_mul_nonnegative(bits_per_pixel, width);
    if prod % 4 != 0 {
        assert(width >= 1 && bytes >= 1) by (nonlinear_arith)
            requires
                width >= 0,
                bytes >= 0,
                width * bytes >= 1,
        ;
        assert(bits_per_pixel >= 8);
        assert(bits_per_pixel * width >= 8) by (nonlinear_arith)
            requires
                bits_per_pixel >= 8,
                width >= 1,
        ;
    }
}

/// At 24 bits per pixel a row of positive width yields one pixel per column,
/// except that a width one above a multiple of four loses its last column:
/// the miscounted padding leaves that pixel's bytes short of a whole group.
pub proof fn lemma_row_groups_of_width(width: int)
    requires
        width > 0,
    ensures
        row_groups_spec(width) == if width % 4 == 1 {
            width - 1
        } else {
            width
        },
{
    let k = width / 4;
    let j = width % 4;
    vstd::arithmetic::div_mod::lemma_fundamental_div_mod(width, 4);
    let q = (24 * width + 31) / 32;
    let pay = row_payload_spec(width, 24);
    if j == 0 {
        vstd::arithmetic::div_mod::lemma_fundamental_div_mod_converse_div(
            24 * width + 31,
            32,
            3 * k,
            31,
        );
        vstd::arithmetic::div_mod::lemma_fundamental_div_mod_converse_mod(width * 3, 4, 3 * k, 0);
        assert(pay == 12 * k);
        vstd::arithmetic::div_mod::lemma_fundamental_div_mod_converse_div(pay, 3, 4 * k, 0);
    } else if j == 1 {
        vstd::arithmetic::div_mod::lemma_fundamental_div_mod_converse_div(
            24 * width + 31,
            32,
            3 * k + 1,
            23,
        );
        vstd::arithmetic::div_mod::lemma_fundamental_div_mod_converse_mod(width * 3, 4, 3 * k, 3);
        assert(pay == 12 * k + 1);
        vstd::arithmetic::div_mod::lemma_fundamental_div_mod_converse_div(pay, 3, 4 * k, 1);
    } else if j == 2 {
        vstd::arithmetic::div_mod::lemma_fundamental_div_mod_converse_div(
            24 * width + 31,
            32,
            3 * k + 2,
            15,
        );
        vstd::arithmetic::div_mod::lemma_fundamental_div_mod_converse_mod(
            width * 3,
            4,
            3 * k + 1,
            2,
        );
        assert(pay == 12 * k + 6);
        vstd::arithmetic::div_mod::lemma_fundamental_div_mod_converse_div(pay, 3, 4 * k + 2, 0);
    } else {
        vstd::arithmetic::div_mod::lemma_fundamental_div_mod_converse_div(
            24 * width + 31,
            32,
            3 * k + 3,
            7,
        );
        vstd::arithmetic::div_mod::lemma_fundamental_div_mod_converse_mod(
            width * 3,
            4,
            3 * k + 2,
            1,
        );
        assert(pay == 12 * k + 11);
        vstd::arithmetic::div_mod::lemma_fundamental_div_mod_converse_div(pay, 3, 4 * k + 3, 2);
    }
}

/// Computes the stored row size in bytes: the row's bits rounded up to a
/// whole number of 32-bit words.
pub fn row_stride(width: u32, bits_per_pixel: u16) -> (r: u64)
    ensures
        r == row_stride_spec(width as int, bits_per_pixel as int),
{
    proof {
        assert((bits_per_pixel as int) * (width as int) <= 65535 * 4294967295) by (nonlinear_arith)
            requires
                bits_per_pixel <= 65535,
                width <= 4294967295,
        ;
    }
    let bits: u64 = (bits_per_pixel as u64) * (width as u64);
    ((bits + 31) / 32) * 4
}

/// Computes how many pad bytes follow each row's payload.
pub fn row_padding(width: u32, bits_per_pixel: u16) -> (r: u64)
    ensures
        r == row_padding_spec(width as int, bits_per_pixel as int),
{
    let bytes_per_pixel: u64 = (bits_per_pixel / 8) as u64;
    proof {
        assert((width as int) * (bytes_per_pixel as int) <= 4294967295 * 8191) by (nonlinear_arith)
            requires
                width <= 4294967295,
                bytes_per_pixel <= 8191,
        ;
    }
    ((width as u64) * bytes_per_pixel) % 4
}

/// Computes how many bytes of each stored row the decoder reads; the rest of
/// the stride is skipped as padding.
pub fn row_payload(width: u32, bits_per_pixel: u16) -> (r: u64)
    ensures
        r == row_payload_spec(width as int, bits_per_pixel as int),
{
    let stride = row_stride(width, bits_per_pixel);
    let padding = row_padding(width, bits_per_pixel);
    proof {
        lemma_row_payload_nonneg(width as int, bits_per_pixel as int);
    }
    stride - padding
}

/// The unsigned little-endian value of the `n` bytes at offset `off`.
pub open spec fn le_at(data: Seq<u8>, off: int, n: int) -> nat {
    le_value(data.subrange(off, off + n))
}

/// The two's-complement reading of the four bytes at offset `off`.
pub open spec fn le_at_signed(data: Seq<u8>, off: int) -> int {
    as_signed32(le_at(data, off, 4))
}

/// The two identifier characters at the start of the file header.
pub open spec fn file_identifier_of(data: Seq<u8>) -> Seq<char> {
    seq![data[0] as char, data[1] as char]
}

/// The declared total file size, from the file header.
pub open spec fn file_size_bytes_of(data: Seq<u8>) -> nat {
    le_at(data, 2, 4)
}

/// The declared byte offset of the pixel array, from the file header.
pub open spec fn pixel_read_addr_of(data: Seq<u8>) -> nat {
    le_at(data, 10, 4)
}

/// The declared DIB header size.
pub open spec fn dib_header_size_of(data: Seq<u8>) -> nat {
    le_at(data, 14, 4)
}

/// The image width in pixels, signed.
pub open spec fn image_width_of(data: Seq<u8>) -> int {
    le_at_signed(data, 18)
}

/// The image height in pixels, signed.
pub open spec fn image_height_of(data: Seq<u8>) -> int {
    le_at_signed(data, 22)
}

/// The declared count of color planes.
pub open spec fn num_color_planes_of(data: Seq<u8>) -> nat {
    le_at(data, 26, 2)
}

/// The declared color depth in bits per pixel.
pub open spec fn bits_per_pixel_of(data: Seq<u8>) -> nat {
    le_at(data, 28, 2)
}

/// The declared compression code.
pub open spec fn compression_method_of(data: Seq<u8>) -> nat {
    le_at(data, 30, 4)
}

/// The declared size of the raw pixel data.
pub open spec fn raw_image_size_of(data: Seq<u8>) -> nat {
    le_at(data, 34, 4)
}

/// The declared horizontal resolution in pixels per metre, signed.
pub open spec fn resolution_horizontal_of(data: Seq<u8>) -> int {
    le_at_signed(data, 38)
}

/// The declared vertical resolution in pixels per metre, signed.
pub open spec fn resolution_vertical_of(data: Seq<u8>) -> int {
    le_at_signed(data, 42)
}

/// The declared count of palette colors.
pub open spec fn num_colors_of(data: Seq<u8>) -> nat {
    le_at(data, 46, 4)
}

/// The declared count of important colors.
pub open spec fn num_important_colors_of(data: Seq<u8>) -> nat {
    le_at(data, 50, 4)
}

/// Whether the headers declare pixel data this decoder can read: positive
/// geometry at 24 bits per pixel. Anything else leaves the pixel buffer
/// empty; the compression code is deliberately not consulted.
pub open spec fn pixels_supported_of(data: Seq<u8>) -> bool {
    &&& bits_per_pixel_of(data) == 24
    &&& image_width_of(data) > 0
    &&& image_height_of(data) > 0
}

/// One byte past the last pixel byte the decoder reads: the pixel array is
/// assumed to start right after the two headers, and the padding after the
/// last row is skipped, never read.
pub open spec fn pixel_data_end_of(data: Seq<u8>) -> int {
    54 + (image_height_of(data) - 1) * row_stride_spec(image_width_of(data), 24)
        + row_payload_spec(image_width_of(data), 24)
}

/// Whether the input holds every byte the decode reads, so that the decode
/// succeeds.
pub open spec fn decode_ok_of(data: Seq<u8>) -> bool {
    &&& data.len() >= 54
    &&& (pixels_supported_of(data) ==> data.len() >= pixel_data_end_of(data))
}

/// The byte at position `k` of the normalized pixel buffer: output pixels
/// run top row first while stored rows run bottom first, and each stored
/// (B, G, R) group is emitted as (R, G, B, 255).
pub open spec fn pixel_byte_at(data: Seq<u8>, width: int, height: int, k: int) -> u8 {
    let groups = row_groups_spec(width);
    let row = k / (4 * groups);
    let rem = k % (4 * groups);
    let g = rem / 4;
    let c = rem % 4;
    let off = 54 + (height - 1 - row) * row_stride_spec(width, 24) + 3 * g;
    if c == 0 {
        data[off + 2]
    } else if c == 1 {
        data[off + 1]
    } else if c == 2 {
        data[off]
    } else {
        255u8
    }
}

/// The whole normalized pixel buffer: `height` rows of whole 3-byte groups,
/// 4 output bytes per group.
pub open spec fn pixel_bytes_spec(data: Seq<u8>, width: int, height: int) -> Seq<u8> {
    Seq::new(
        (height * row_groups_spec(width) * 4) as nat,
        |k: int| pixel_byte_at(data, width, height, k),
    )
}

/// The decoded image: file header fields, DIB header fields, and the
/// normalized pixel buffer. Built by three sequential decode phases over one
/// input, then handed to the caller read-only.
#[derive(Debug)]
pub struct BMP {
    pub file_identifier: String,
    pub file_size_bytes: u32,
    pub pixel_read_addr: u32,
    pub dib_header_size: u32,
    pub image_width: i32,
    pub image_height: i32,
    pub num_color_planes: u16,
    pub bits_per_pixel: u16,
    pub compression_method: u32,
    pub compression_method_name: String,
    pub raw_image_size: u32,
    pub resolution_horizontal_ppm: i32,
    pub resolution_vertical_ppm: i32,
    pub num_colors: u32,
    pub num_important_colors: u32,
    pub pixel_arr_flat: Vec<u8>,
}

/// Relies on String::push: appends exactly the one given character.
#[verifier::external_body]
fn push_char(s: &mut String, c: char)
    ensures
        final(s)@ == old(s)@.push(c),
{
    s.push(c)
}

/// Whether a decoded value holds exactly what the input's bytes declare, the
/// pixel buffer normalized when the headers are supported and empty when
/// they are not.
pub open spec fn decoded_matches(b: BMP, data: Seq<u8>) -> bool {
    &&& b.file_identifier@ == file_identifier_of(data)
    &&& b.file_size_bytes == file_size_bytes_of(data)
    &&& b.pixel_read_addr == pixel_read_addr_of(data)
    &&& b.dib_header_size == dib_header_size_of(data)
    &&& b.image_width == image_width_of(data)
    &&& b.image_height == image_height_of(data)
    &&& b.num_color_planes == num_color_planes_of(data)
    &&& b.bits_per_pixel == bits_per_pixel_of(data)
    &&& b.compression_method == compression_method_of(data)
    &&& b.compression_method_name@ == compression_name_spec(
        compression_of_spec(compression_method_of(data) as u32),
    )
    &&& b.raw_image_size == raw_image_size_of(data)
    &&& b.resolution_horizontal_ppm == resolution_horizontal_of(data)
    &&& b.resolution_vertical_ppm == resolution_vertical_of(data)
    &&& b.num_colors == num_colors_of(data)
    &&& b.num_important_colors == num_important_colors_of(data)
    &&& b.pixel_arr_flat@ == if pixels_supported_of(data) {
        pixel_bytes_spec(data, image_width_of(data), image_height_of(data))
    } else {
        Seq::<u8>::empty()
    }
}

impl BMP {
    /// Consumes the first 14 bytes: identifier, declared file size, and the
    /// pixel array offset; the four reserved bytes are ignored.
    fn read_file_header(&mut self, data: &[u8]) -> (r: Result<(), DecodeError>)
        ensures
            r is Ok <==> data@.len() >= 14,
            r is Err ==> *final(self) == *old(self),
            r is Ok ==> ({
                &&& final(self).file_identifier@ == file_identifier_of(data@)
                &&& final(self).file_size_bytes == file_size_bytes_of(data@)
                &&& final(self).pixel_read_addr == pixel_read_addr_of(data@)
                &&& final(self).dib_header_size == old(self).dib_header_size
                &&& final(self).image_width == old(self).image_width
                &&& final(self).image_height == old(self).image_height
                &&& final(self).num_color_planes == old(self).num_color_planes
                &&& final(self).bits_per_pixel == old(self).bits_per_pixel
                &&& final(self).compression_method == old(self).compression_method
                &&& final(self).compression_method_name == old(self).compression_method_name
                &&& final(self).raw_image_size == old(self).raw_image_size
                &&& final(self).resolution_horizontal_ppm == old(self).resolution_horizontal_ppm
                &&& final(self).resolution_vertical_ppm == old(self).resolution_vertical_ppm
                &&& final(self).num_colors == old(self).num_colors
                &&& final(self).num_important_colors == old(self).num_important_colors
                &&& final(self).pixel_arr_flat == old(self).pixel_arr_flat
            }),
    {
        if data.len() < 14 {
            return Err(DecodeError::ShortRead);
        }
        let mut identifier = String::new();
        push_char(&mut identifier, data[0] as char);
        push_char(&mut identifier, data[1] as char);
        proof {
            assert(identifier@ =~= file_identifier_of(data@));
        }
        self.file_identifier = identifier;
        self.file_size_bytes = combine_8bits(slice_subrange(data, 2, 6));
        self.pixel_read_addr = combine_8bits(slice_subrange(data, 10, 14));
        Ok(())
    }

    /// Consumes the 40 bytes after the file header as a BITMAPINFOHEADER;
    /// exactly 40 bytes are read whatever size the header itself declares.
    fn read_dib_header(&mut self, data: &[u8]) -> (r: Result<(), DecodeError>)
        ensures
            r is Ok <==> data@.len() >= 54,
            r is Err ==> *final(self) == *old(self),
            r is Ok ==> ({
                &&& final(self).file_identifier == old(self).file_identifier
                &&& final(self).file_size_bytes == old(self).file_size_bytes
                &&& final(self).pixel_read_addr == old(self).pixel_read_addr
                &&& final(self).dib_header_size == dib_header_size_of(data@)
                &&& final(self).image_width == image_width_of(data@)
                &&& final(self).image_height == image_height_of(data@)
                &&& final(self).num_color_planes == num_color_planes_of(data@)
                &&& final(self).bits_per_pixel == bits_per_pixel_of(data@)
                &&& final(self).compression_method == compression_method_of(data@)
                &&& final(self).compression_method_name@ == compression_name_spec(
                    compression_of_spec(compression_method_of(data@) as u32),
                )
                &&& final(self).raw_image_size == raw_image_size_of(data@)
                &&& final(self).resolution_horizontal_ppm == resolution_horizontal_of(data@)
                &&& final(self).resolution_vertical_ppm == resolution_vertical_of(data@)
                &&& final(self).num_colors == num_colors_of(data@)
                &&& final(self).num_important_colors == num_important_colors_of(data@)
                &&& final(self).pixel_arr_flat == old(self).pixel_arr_flat
            }),
    {
        if data.len() < 54 {
            return Err(DecodeError::ShortRead);
        }
        self.dib_header_size = combine_8bits(slice_subrange(data, 14, 18));
        self.image_width = combine_8bits_signed(slice_subrange(data, 18, 22));
        self.image_height = combine_8bits_signed(slice_subrange(data, 22, 26));
        proof {
            lemma_le_value_bound(data@.subrange(26, 28));
            lemma_le_value_bound(data@.subrange(28, 30));
            assert(pow256(0) == 1);
            assert(pow256(1) == 256);
            assert(pow256(2) == 65536);
        }
        self.num_color_planes = combine_8bits(slice_subrange(data, 26, 28)) as u16;
        self.bits_per_pixel = combine_8bits(slice_subrange(data, 28, 30)) as u16;
        let code = combine_8bits(slice_subrange(data, 30, 34));
        self.compression_method = code;
        self.compression_method_name = compression_name(compression_of(code));
        self.raw_image_size = combine_8bits(slice_subrange(data, 34, 38));
        self.resolution_horizontal_ppm = combine_8bits_signed(slice_subrange(data, 38, 42));
        self.resolution_vertical_ppm = combine_8bits_signed(slice_subrange(data, 42, 46));
        self.num_colors = combine_8bits(slice_subrange(data, 46, 50));
        self.num_important_colors = combine_8bits(slice_subrange(data, 50, 54));
        Ok(())
    }
}

/// Reorders one stored (B, G, R) triple into output order, appending the
/// given alpha: the result is (R, G, B, alpha).
pub fn convert_bgr_to_rgba(bgr: &[u8], alpha: u8) -> (r: Vec<u8>)
    requires
        bgr@.len() >= 3,
    ensures
        r@ == seq![bgr@[2], bgr@[1], bgr@[0], alpha],
{
    let mut out: Vec<u8> = Vec::new();
    out.push(bgr[2]);
    out.push(bgr[1]);
    out.push(bgr[0]);
    out.push(alpha);
    proof {
        assert(out@ =~= seq![bgr@[2], bgr@[1], bgr@[0], alpha]);
    }
    out
}

impl BMP {
    /// Consumes the pixel array, assumed to start right after the two
    /// headers: reads `height` rows bottom-up, skipping each row's padding,
    /// and emits them top-down with every whole (B, G, R) group turned into
    /// (R, G, B, 255). Headers this decoder does not support (a color depth
    /// other than 24, or non-positive geometry) leave the buffer empty;
    /// pixel data shorter than the rows demand aborts the decode.
    fn read_pixel_array(&mut self, data: &[u8]) -> (r: Result<(), DecodeError>)
        requires
            old(self).pixel_arr_flat@.len() == 0,
        ensures
            ({
                let w = old(self).image_width as int;
                let h = old(self).image_height as int;
                let sup = old(self).bits_per_pixel == 24 && w > 0 && h > 0;
                &&& (r is Ok <==> (sup ==> data@.len() >= 54 + (h - 1) * row_stride_spec(w, 24)
                    + row_payload_spec(w, 24)))
                &&& (r is Err ==> *final(self) == *old(self))
                &&& (r is Ok ==> ({
                    &&& final(self).pixel_arr_flat@ == (if sup {
                        pixel_bytes_spec(data@, w, h)
                    } else {
                        Seq::<u8>::empty()
                    })
                    &&& final(self).file_identifier == old(self).file_identifier
                    &&& final(self).file_size_bytes == old(self).file_size_bytes
                    &&& final(self).pixel_read_addr == old(self).pixel_read_addr
                    &&& final(self).dib_header_size == old(self).dib_header_size
                    &&& final(self).image_width == old(self).image_width
                    &&& final(self).image_height == old(self).image_height
                    &&& final(self).num_color_planes == old(self).num_color_planes
                    &&& final(self).bits_per_pixel == old(self).bits_per_pixel
                    &&& final(self).compression_method == old(self).compression_method
                    &&& final(self).compression_method_name == old(self).compression_method_name
                    &&& final(self).raw_image_size == old(self).raw_image_size
                    &&& final(self).resolution_horizontal_ppm == old(
                        self,
                    ).resolution_horizontal_ppm
                    &&& final(self).resolution_vertical_ppm == old(self).resolution_vertical_ppm
                    &&& final(self).num_colors == old(self).num_colors
                    &&& final(self).num_important_colors == old(self).num_important_colors
                }))
            }),
    {
        if !(self.bits_per_pixel == 24 && self.image_width > 0 && self.image_height > 0) {
            proof {
                assert(old(self).pixel_arr_flat@ =~= Seq::<u8>::empty());
            }
            return Ok(());
        }
        let w: u32 = self.image_width as u32;
        let h: u32 = self.image_height as u32;
        let stride: u64 = row_stride(w, 24);
        let payload: u64 = row_payload(w, 24);
        let groups: u64 = payload / 3;
        proof {
            lemma_row_payload_nonneg(w as int, 24);
            vstd::arithmetic::div_mod::lemma_div_is_ordered(
                24 * (w as int) + 31,
                51539607559,
                32,
            );
            assert(stride <= 6442450944);
            let st = stride as int;
            let hm = h - 1;
            assert((hm as int) * st <= 2147483646 * 6442450944) by (nonlinear_arith)
                requires
                    0 <= hm as int <= 2147483646,
                    0 <= st <= 6442450944,
            ;
            vstd::arithmetic::div_mod::lemma_fundamental_div_mod(payload as int, 3);
        }
        let hm: u64 = (h as u64) - 1;
        let end: u64 = 54 + hm * stride + payload;
        let dlen: usize = data.len();
        if (dlen as u64) < end {
            return Err(DecodeError::ShortRead);
        }
        let ghost wi = w as int;
        let ghost hi = h as int;
        let ghost gi = groups as int;
        let ghost st = stride as int;
        let mut out: Vec<u8> = Vec::new();
        let mut d: u32 = 0;
        while d < h
            invariant
                d <= h,
                out@.len() == 4 * ((d as int) * gi),
                forall|k: int|
                    0 <= k < out@.len() ==> out@[k] == pixel_byte_at(data@, wi, hi, k),
                h >= 1,
                wi == w as int,
                hi == h as int,
                gi == groups as int,
                st == stride as int,
                stride == row_stride_spec(wi, 24),
                payload == row_payload_spec(wi, 24),
                gi == row_groups_spec(wi),
                3 * gi <= payload as int,
                dlen == data@.len(),
                dlen >= 54 + (hi - 1) * st + payload,
                (hi - 1) * st <= 2147483646 * 6442450944,
                stride <= 6442450944,
            decreases h - d,
        {
            proof {
                vstd::arithmetic::mul::lemma_mul_inequality((h - 1 - d) as int, hi - 1, st);
                vstd::arithmetic::mul::lemma_mul_nonnegative((h - 1 - d) as int, st);
            }
            let row_off: u64 = 54 + ((h - 1 - d) as u64) * stride;
            let mut g: u64 = 0;
            while g < groups
                invariant
                    g <= groups,
                    d < h,
                    out@.len() == 4 * ((d as int) * gi) + 4 * (g as int),
                    forall|k: int|
                        0 <= k < out@.len() ==> out@[k] == pixel_byte_at(data@, wi, hi, k),
                    h >= 1,
                    wi == w as int,
                    hi == h as int,
                    gi == groups as int,
                    st == stride as int,
                    stride == row_stride_spec(wi, 24),
                    payload == row_payload_spec(wi, 24),
                    gi == row_groups_spec(wi),
                    3 * gi <= payload as int,
                    dlen == data@.len(),
                    dlen >= 54 + (hi - 1) * st + payload,
                    row_off == 54 + (hi - 1 - d as int) * st,
                    row_off + payload <= dlen,
                decreases groups - g,
            {
                proof {
                    assert(3 * (g as int) + 3 <= payload as int);
                    assert(row_off as int + 3 * (g as int) + 3 <= dlen as int);
                }
                let base_64: u64 = row_off + 3 * g;
                let base: usize = base_64 as usize;
                let mut px = convert_bgr_to_rgba(slice_subrange(data, base, base + 3), 255);
                proof {
                    let di = d as int;
                    let gg = g as int;
                    let start = 4 * (di * gi) + 4 * gg;
                    assert(di * (4 * gi) == 4 * (di * gi)) by (nonlinear_arith);
                    assert forall|c: int| 0 <= c < 4 implies pixel_byte_at(
                        data@,
                        wi,
                        hi,
                        start + c,
                    ) == px@[c] by {
                        vstd::arithmetic::div_mod::lemma_fundamental_div_mod_converse_div(
                            start + c,
                            4 * gi,
                            di,
                            gg * 4 + c,
                        );
                        vstd::arithmetic::div_mod::lemma_fundamental_div_mod_converse_mod(
                            start + c,
                            4 * gi,
                            di,
                            gg * 4 + c,
                        );
                        vstd::arithmetic::div_mod::lemma_fundamental_div_mod_converse_div(
                            gg * 4 + c,
                            4,
                            gg,
                            c,
                        );
                        vstd::arithmetic::div_mod::lemma_fundamental_div_mod_converse_mod(
                            gg * 4 + c,
                            4,
                            gg,
                            c,
                        );
                    };
                }
                out.append(&mut px);
                g = g + 1;
            }
            proof {
                assert((d as int + 1) * gi == (d as int) * gi + gi) by (nonlinear_arith);
            }
            d = d + 1;
        }
        proof {
            vstd::arithmetic::mul::lemma_mul_nonnegative(hi, gi);
            assert(out@ =~= pixel_bytes_spec(data@, wi, hi));
        }
        self.pixel_arr_flat = out;
        Ok(())
    }

    /// Decodes a whole BMP image from its bytes: the 14-byte file header,
    /// the 40-byte DIB header, then the pixel array. A fixed-size read that
    /// runs past the end of the input aborts the decode with `ShortRead` and
    /// no partial result.
    pub fn read(data: &[u8]) -> (r: Result<BMP, DecodeError>)
        ensures
            r is Ok <==> decode_ok_of(data@),
            r matches Ok(b) ==> decoded_matches(b, data@),
            r matches Err(e) ==> e == DecodeError::ShortRead,
    {
        let mut bmp = BMP {
            file_identifier: String::new(),
            file_size_bytes: 0,
            pixel_read_addr: 0,
            dib_header_size: 0,
            image_height: 0,
            image_width: 0,
            num_color_planes: 0,
            bits_per_pixel: 0,
            compression_method: 0,
            compression_method_name: String::new(),
            num_colors: 0,
            num_important_colors: 0,
            raw_image_size: 0,
            resolution_horizontal_ppm: 0,
            resolution_vertical_ppm: 0,
            pixel_arr_flat: Vec::new(),
        };
        match bmp.read_file_header(data) {
            Ok(()) => {},
            Err(e) => {
                return Err(e);
            },
        }
        match bmp.read_dib_header(data) {
            Ok(()) => {},
            Err(e) => {
                return Err(e);
            },
        }
        match bmp.read_pixel_array(data) {
            Ok(()) => {},
            Err(e) => {
                return Err(e);
            },
        }
        Ok(bmp)
    }
}

/// For every decode of supported headers whose width is not one above a
/// multiple of four, the pixel buffer holds `width * height` pixels of four
/// bytes each. A width one above a multiple of four is left out: there each
/// row's payload falls short of a whole group for its last column.
pub proof fn lemma_pixel_buffer_length(data: Seq<u8>, width: int, height: int)
    requires
        width > 0,
        height > 0,
        width % 4 != 1,
    ensures
        pixel_bytes_spec(data, width, height).len() == width * height * 4,
{
    let g = row_groups_spec(width);
    lemma_row_groups_of_width(width);
    vstd::arithmetic::mul::lemma_mul_nonnegative(height, g);
    assert(height * g * 4 == width * height * 4) by (nonlinear_arith)
        requires
            g == width,
    ;
}

/// Output pixel (row, col) — rows counted from the top of the displayed
/// image — is the stored (B, G, R) triple of the same column of stored row
/// `height - 1 - row`, reversed to (R, G, B), with alpha 255 appended.
pub proof fn lemma_pixel_channel_order(data: Seq<u8>, width: int, height: int, row: int, col: int)
    requires
        width > 0,
        0 <= row < height,
        0 <= col < row_groups_spec(width),
    ensures
        ({
            let base = (row * row_groups_spec(width) + col) * 4;
            let off = 54 + (height - 1 - row) * row_stride_spec(width, 24) + 3 * col;
            &&& pixel_bytes_spec(data, width, height)[base] == data[off + 2]
            &&& pixel_bytes_spec(data, width, height)[base + 1] == data[off + 1]
            &&& pixel_bytes_spec(data, width, height)[base + 2] == data[off]
            &&& pixel_bytes_spec(data, width, height)[base + 3] == 255
        }),
{
    let g = row_groups_spec(width);
    let base = (row * g + col) * 4;
    assert(row * g + col + 1 <= height * g) by (nonlinear_arith)
        requires
            0 <= row,
            row + 1 <= height,
            0 <= col,
            col + 1 <= g,
    ;
    vstd::arithmetic::mul::lemma_mul_nonnegative(height, g);
    assert(row * (4 * g) == 4 * (row * g)) by (nonlinear_arith);
    let pbs = pixel_bytes_spec(data, width, height);
    let off = 54 + (height - 1 - row) * row_stride_spec(width, 24) + 3 * col;
    vstd::arithmetic::div_mod::lemma_fundamental_div_mod_converse_div(base, 4 * g, row, col * 4);
    vstd::arithmetic::div_mod::lemma_fundamental_div_mod_converse_mod(base, 4 * g, row, col * 4);
    vstd::arithmetic::div_mod::lemma_fundamental_div_mod_converse_div(col * 4, 4, col, 0);
    vstd::arithmetic::div_mod::lemma_fundamental_div_mod_converse_mod(col * 4, 4, col, 0);
    assert(pbs[base] == data[off + 2]);
    vstd::arithmetic::div_mod::lemma_fundamental_div_mod_converse_div(
        base + 1,
        4 * g,
        row,
        col * 4 + 1,
    );
    vstd::arithmetic::div_mod::lemma_fundamental_div_mod_converse_mod(
        base + 1,
        4 * g,
        row,
        col * 4 + 1,
    );
    vstd::arithmetic::div_mod::lemma_fundamental_div_mod_converse_div(col * 4 + 1, 4, col, 1);
    vstd::arithmetic::div_mod::lemma_fundamental_div_mod_converse_mod(col * 4 + 1, 4, col, 1);
    assert(pbs[base + 1] == data[off + 1]);
    vstd::arithmetic::div_mod::lemma_fundamental_div_mod_converse_div(
        base + 2,
        4 * g,
        row,
        col * 4 + 2,
    );
    vstd::arithmetic::div_mod::lemma_fundamental_div_mod_converse_mod(
        base + 2,
        4 * g,
        row,
        col * 4 + 2,
    );
    vstd::arithmetic::div_mod::lemma_fundamental_div_mod_converse_div(col * 4 + 2, 4, col, 2);
    vstd::arithmetic::div_mod::lemma_fundamental_div_mod_converse_mod(col * 4 + 2, 4, col, 2);
    assert(pbs[base + 2] == data[off]);
    vstd::arithmetic::div_mod::lemma_fundamental_div_mod_converse_div(
        base + 3,
        4 * g,
        row,
        col * 4 + 3,
    );
    vstd::arithmetic::div_mod::lemma_fundamental_div_mod_converse_mod(
        base + 3,
        4 * g,
        row,
        col * 4 + 3,
    );
    vstd::arithmetic::div_mod::lemma_fundamental_div_mod_converse_div(col * 4 + 3, 4, col, 3);
    vstd::arithmetic::div_mod::lemma_fundamental_div_mod_converse_mod(col * 4 + 3, 4, col, 3);
    assert(pbs[base + 3] == 255);
}

/// The first four output bytes hold the pixel at the top left of the
/// displayed image — the first stored triple of the last stored row — not
/// the bottom left: the decoder reverses BMP's bottom-up row order.
pub proof fn lemma_first_pixel_is_top_left(data: Seq<u8>, width: int, height: int)
    requires
        width > 0,
        height > 0,
        row_groups_spec(width) > 0,
    ensures
        ({
            let off = 54 + (height - 1) * row_stride_spec(width, 24);
            &&& pixel_bytes_spec(data, width, height)[0] == data[off + 2]
            &&& pixel_bytes_spec(data, width, height)[1] == data[off + 1]
            &&& pixel_bytes_spec(data, width, height)[2] == data[off]
            &&& pixel_bytes_spec(data, width, height)[3] == 255
        }),
{
    lemma_pixel_channel_order(data, width, height, 0, 0);
}

/// For every decoded image of a supported input whose width is not one
/// above a multiple of four, the pixel buffer holds exactly
/// `width * height * 4` bytes.
pub proof fn lemma_decoded_buffer_length(b: BMP, data: Seq<u8>)
    requires
        decoded_matches(b, data),
        pixels_supported_of(data),
        image_width_of(data) % 4 != 1,
    ensures
        b.pixel_arr_flat@.len() == image_width_of(data) * image_height_of(data) * 4,
{
    lemma_pixel_buffer_length(data, image_width_of(data), image_height_of(data));
}

/// For every decoded image of a supported input with at least one whole
/// group per row, the first four bytes of the pixel buffer hold the
/// top-left displayed pixel, taken channel-swapped from the last stored
/// row.
pub proof fn lemma_decoded_first_pixel_top_left(b: BMP, data: Seq<u8>)
    requires
        decoded_matches(b, data),
        pixels_supported_of(data),
        row_groups_spec(image_width_of(data)) > 0,
    ensures
        ({
            let off = 54 + (image_height_of(data) - 1) * row_stride_spec(
                image_width_of(data),
                24,
            );
            &&& b.pixel_arr_flat@[0] == data[off + 2]
            &&& b.pixel_arr_flat@[1] == data[off + 1]
            &&& b.pixel_arr_flat@[2] == data[off]
            &&& b.pixel_arr_flat@[3] == 255
        }),
{
    lemma_first_pixel_is_top_left(data, image_width_of(data), image_height_of(data));
}

} // verus!
