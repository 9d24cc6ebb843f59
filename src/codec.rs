//! Image decoding and BMP encoding, through the `image` crate.
use vstd::prelude::*;
use vstd::arithmetic::div_mod::lemma_fundamental_div_mod_converse;
use crate::raster::{offset, Raster};

verus! {

#[verifier::external_type_specification]
#[verifier::external_body]
pub struct ExImageError(image::ImageError);

/// What `image` decodes from a byte buffer, as an RGB raster
/// (width, height, row-major RGB bytes); `None` where it refuses the bytes.
pub uninterp spec fn decoded_rgb(bytes: Seq<u8>) -> Option<(u32, u32, Seq<u8>)>;


/// Padding after each BMP row of `width` RGB pixels, up to a multiple of four bytes.
pub open spec fn bmp_row_pad(width: int) -> int {
    (4 - (width * 3) % 4) % 4
}

/// Bytes of one BMP row of `width` RGB pixels, padding included.
pub open spec fn bmp_row_len(width: int) -> int {
    width * 3 + bmp_row_pad(width)
}

/// Length of the BMP stream for an RGB raster: a 14-byte file header, a
/// 40-byte info header, then each row padded.
pub open spec fn bmp_len(width: int, height: int) -> int {
    54 + height * (width * 3 + bmp_row_pad(width))
}

/// `v` as four little-endian bytes.
pub open spec fn le32(v: int) -> Seq<u8> {
    seq![(v % 256) as u8, ((v / 0x100) % 256) as u8, ((v / 0x1_0000) % 256) as u8, ((v / 0x100_0000) % 256) as u8]
}

/// `v` as two little-endian bytes.
pub open spec fn le16(v: int) -> Seq<u8> {
    seq![(v % 256) as u8, ((v / 0x100) % 256) as u8]
}

/// The 54-byte BMP file and info headers for a 24-bit, uncompressed image.
pub open spec fn bmp_header(width: int, height: int) -> Seq<u8> {
    seq![0x42u8, 0x4du8] + le32(bmp_len(width, height)) + le32(0) + le32(54)
        + le32(40) + le32(width) + le32(height) + le16(1) + le16(24) + le32(0)
        + le32(height * bmp_row_len(width)) + le32(0) + le32(0) + le32(0) + le32(0)
}

/// The pixel rows of a BMP stream: from the bottom row up, each pixel as
/// blue, green, red, each row padded with zeros.
pub open spec fn bmp_rows(width: int, height: int, data: Seq<u8>) -> Seq<u8> {
    let row = bmp_row_len(width);
    Seq::new((height * row) as nat, |i: int| {
        let y = height - 1 - i / row;
        let j = i % row;
        if j < width * 3 {
            data[offset(width, j / 3, y, 2 - j % 3)]
        } else {
            0u8
        }
    })
}

/// The BMP stream of an RGB raster.
pub open spec fn bmp_of(width: u32, height: u32, data: Seq<u8>) -> Seq<u8> {
    bmp_header(width as int, height as int) + bmp_rows(width as int, height as int, data)
}

/// The stream declares the raster's size: the `BM` signature, then the
/// width and height as little-endian words at bytes 18 and 22.
pub proof fn lemma_bmp_declares_size(width: u32, height: u32, data: Seq<u8>)
    ensures
        bmp_of(width, height, data)[0] == 0x42u8,
        bmp_of(width, height, data)[1] == 0x4du8,
        bmp_of(width, height, data).subrange(18, 22) == le32(width as int),
        bmp_of(width, height, data).subrange(22, 26) == le32(height as int),
{
    let b = bmp_of(width, height, data);
    assert(bmp_header(width as int, height as int).len() == 54);
    assert(b.subrange(18, 22) =~= le32(width as int));
    assert(b.subrange(22, 26) =~= le32(height as int));
}

/// The stream keeps every channel of every pixel, at a fixed position:
/// channel `c` of pixel `(x, y)` is byte `54 + (height - 1 - y) * row +
/// 3 * x + 2 - c`, so the raster can be read back exactly.
pub proof fn lemma_bmp_holds_pixels(width: u32, height: u32, data: Seq<u8>, x: int, y: int, c: int)
    requires
        0 <= x < width,
        0 <= y < height,
        0 <= c < 3,
    ensures
        bmp_of(width, height, data)[54 + (height - 1 - y) * bmp_row_len(width as int) + 3 * x + 2 - c]
            == data[offset(width as int, x, y, c)],
{
    let w = width as int;
    let h = height as int;
    let row = bmp_row_len(w);
    let r = h - 1 - y;
    let j = 3 * x + 2 - c;
    let i = r * row + j;
    assert(0 <= bmp_row_pad(w) < 4);
    assert(0 <= j < row);
    assert(0 <= r < h);
    assert(i < h * row) by (nonlinear_arith)
        requires i == r * row + j, j < row, r + 1 <= h, r >= 0, row > 0;
    assert(0 <= i) by (nonlinear_arith)
        requires i == r * row + j, j >= 0, r >= 0, row > 0;
    lemma_fundamental_div_mod_converse(i, row, r, j);
    lemma_fundamental_div_mod_converse(j, 3, x, 2 - c);
    assert(i / row == r && i % row == j);
    assert(j / 3 == x && j % 3 == 2 - c);
    assert(j < w * 3);
    let rows = bmp_rows(w, h, data);
    assert(rows.len() == h * row);
    assert(rows[i] == data[offset(w, x, y, c)]);
    let hd = bmp_header(w, h);
    assert(hd.len() == 54);
    assert((hd + rows)[54 + i] == rows[i]);
}

/// Relies on `image::load_from_memory` followed by `DynamicImage::into_rgb8`:
/// the format is guessed from the bytes and the image converted to RGB; the
/// outcome depends on the bytes alone.
#[verifier::external_body]
pub(crate) fn decode_rgb(bytes: &[u8]) -> (r: Result<Raster, image::ImageError>)
    ensures
        match r {
            Ok(img) => decoded_rgb(bytes@) == Some((img.width, img.height, img.data@)),
            Err(_) => decoded_rgb(bytes@) is None,
        },
{
    let img = image::load_from_memory(bytes)?.into_rgb8();
    let (width, height) = img.dimensions();
    Ok(Raster { width, height, data: img.into_raw() })
}

/// Relies on `image::codecs::bmp::BmpEncoder::encode` with `ColorType::Rgb8`
/// into a `Vec`. It multiplies `width * 3` and adds the row padding without
/// a check, so a padded row must fit in `u32` (else it panics or wraps);
/// the file size is computed with checks and its overflow is the only
/// error, ruled out here too. Writing to a `Vec` cannot fail. It writes
/// `bmp_len` bytes, and panics on a buffer shorter than the pixel count asks.
#[verifier::external_body]
pub(crate) fn encode_bmp(raster: &Raster) -> (r: Result<Vec<u8>, image::ImageError>)
    requires
        raster.wf(),
        bmp_row_len(raster.width as int) <= u32::MAX,
        bmp_len(raster.width as int, raster.height as int) <= u32::MAX,
    ensures
        r is Ok,
        r matches Ok(b) ==> b@ == bmp_of(raster.width, raster.height, raster.data@),
        r matches Ok(b) ==> b@.len() == bmp_len(raster.width as int, raster.height as int),
{
    let mut bytes: Vec<u8> = Vec::new();
    image::codecs::bmp::BmpEncoder::new(&mut bytes).encode(
        &raster.data,
        raster.width,
        raster.height,
        image::ColorType::Rgb8,
    )?;
    Ok(bytes)
}

} // verus!
