//! Scan order and byte layout of a packed RGB image.
//!
//! An image of `w` columns and `h` rows is stored as `3 * w * h` bytes, one
//! red, green and blue byte per pixel. Rows are numbered from the bottom of
//! the picture, as the image plane's vertical axis is, and the top row is
//! stored first; within a row the columns run from left to right.

use vstd::arithmetic::div_mod::{lemma_fundamental_div_mod, lemma_mod_bound};
use vstd::prelude::*;

verus! {

/// Number of bytes that an image of `w` columns and `h` rows takes.
pub open spec fn image_len(w: u32, h: u32) -> nat {
    (3 * (h * w)) as nat
}

/// Computes `image_len(w, h)`, or `None` where a `Vec` cannot hold that many
/// bytes.
pub fn checked_image_len(w: u32, h: u32) -> (len: Option<usize>)
    ensures
        len is Some <==> image_len(w, h) <= isize::MAX,
        len is Some ==> len->0 == image_len(w, h),
{
    assert(h * w <= 0xffff_ffff * 0xffff_ffff) by (nonlinear_arith)
        requires
            0 <= h <= 0xffff_ffff,
            0 <= w <= 0xffff_ffff,
    ;
    let rows: u64 = h.into();
    let columns: u64 = w.into();
    let pixels: u64 = rows * columns;
    if pixels > (isize::MAX as u64) / 3 {
        None
    } else {
        let bytes: u64 = 3 * pixels;
        Some(bytes as usize)
    }
}

/// Where the three bytes of the pixel in column `col` of row `row` start,
/// counted from the first byte of the image.
pub open spec fn pixel_offset(w: u32, h: u32, col: u32, row: u32) -> int
    recommends
        col < w,
        row < h,
{
    3 * ((h - 1 - row) * w + col)
}

/// The three bytes that start at index `at` of `bytes`, as one pixel.
pub open spec fn pixel_at(bytes: Seq<u8>, at: int) -> (u8, u8, u8)
    recommends
        0 <= at,
        at + 3 <= bytes.len(),
{
    (bytes[at], bytes[at + 1], bytes[at + 2])
}

/// In scan order a pixel of a higher row, or of the same row and a lower
/// column, lies wholly before the other: its three bytes end where the other's
/// start, or earlier.
pub proof fn lemma_scan_order(w: u32, h: u32, col: u32, row: u32, col2: u32, row2: u32)
    requires
        col < w,
        row2 < row < h || (row2 == row && col < col2),
    ensures
        pixel_offset(w, h, col, row) + 3 <= pixel_offset(w, h, col2, row2),
{
    if row2 < row {
        let above: int = h - 1 - row;
        let above2: int = h - 1 - row2;
        assert((above + 1) * w <= above2 * w) by (nonlinear_arith)
            requires
                above + 1 <= above2,
                0 <= w,
        ;
        assert((above + 1) * w == above * w + w) by (nonlinear_arith);
    }
}

/// Every pixel of the image lies inside its `image_len(w, h)` bytes.
pub proof fn lemma_pixel_in_image(w: u32, h: u32, col: u32, row: u32)
    requires
        col < w,
        row < h,
    ensures
        0 <= pixel_offset(w, h, col, row),
        pixel_offset(w, h, col, row) + 3 <= image_len(w, h),
{
    let above: int = h - 1 - row;
    assert(0 <= above * w) by (nonlinear_arith)
        requires
            0 <= above,
            0 <= w,
    ;
    assert((above + 1) * w <= h * w) by (nonlinear_arith)
        requires
            above + 1 <= h,
            0 <= w,
    ;
    assert((above + 1) * w == above * w + w) by (nonlinear_arith);
}

/// Column of the pixel that is stored as the `k`-th of the image.
pub open spec fn scan_col(w: u32, k: int) -> int
    recommends
        0 <= k,
        0 < w,
{
    k % (w as int)
}

/// Row of the pixel that is stored as the `k`-th of the image.
pub open spec fn scan_row(w: u32, h: u32, k: int) -> int
    recommends
        0 <= k < h * w,
{
    h - 1 - k / (w as int)
}

/// Every one of the `h * w` places of three bytes holds a pixel of the image:
/// the `k`-th holds the one in column `scan_col(w, k)` of row
/// `scan_row(w, h, k)`. With `lemma_scan_order` this makes the layout a
/// one-to-one match between pixels and places.
pub proof fn lemma_scan_position(w: u32, h: u32, k: int)
    requires
        0 <= k < h * w,
    ensures
        0 <= scan_col(w, k) < w,
        0 <= scan_row(w, h, k) < h,
        pixel_offset(w, h, scan_col(w, k) as u32, scan_row(w, h, k) as u32) == 3 * k,
{
    let width: int = w as int;
    assert(width > 0) by (nonlinear_arith)
        requires
            0 <= k < h * width,
            0 <= width,
    ;
    lemma_fundamental_div_mod(k, width);
    lemma_mod_bound(k, width);
    let above: int = k / width;
    assert(0 <= above < h) by (nonlinear_arith)
        requires
            0 <= k < h * width,
            0 < width,
            k == width * above + k % width,
            0 <= k % width < width,
    ;
    assert(above * width == width * above) by (nonlinear_arith);
}

/// Appends a `w` by `h` image to `buffer`, asking `shade` for the three
/// channel bytes of each pixel.
///
/// `shade` is called once for every column `col < w` and row `row < h`, the
/// top row (`h - 1`) first and each row from left to right. What was in the
/// buffer stays in front; the pixel of column `col` and row `row` is stored
/// `pixel_offset(w, h, col, row)` bytes behind it.
///
/// The buffer must have room for the image: a `Vec` holds `isize::MAX` bytes
/// at most, and `checked_image_len` tells whether an image is within that.
pub fn fill_buffer<F: Fn(u32, u32) -> (u8, u8, u8)>(buffer: &mut Vec<u8>, w: u32, h: u32, shade: F)
    requires
        forall|col: u32, row: u32| col < w && row < h ==> call_requires(shade, (col, row)),
        old(buffer)@.len() + image_len(w, h) <= isize::MAX,
    ensures
        final(buffer)@.len() == old(buffer)@.len() + image_len(w, h),
        final(buffer)@.subrange(0, old(buffer)@.len() as int) == old(buffer)@,
        forall|col: u32, row: u32|
            col < w && row < h ==> call_ensures(
                shade,
                (col, row),
                pixel_at(
                    final(buffer)@,
                    old(buffer)@.len() + #[trigger] pixel_offset(w, h, col, row),
                ),
            ),
{
    let ghost base: int = buffer@.len() as int;
    let mut row: u32 = h;
    while row > 0
        invariant
            row <= h,
            base == old(buffer)@.len(),
            buffer@.len() == base + 3 * ((h - row) * w),
            buffer@.subrange(0, base) == old(buffer)@,
            forall|c: u32, r: u32| c < w && r < h ==> call_requires(shade, (c, r)),
            forall|c: u32, r: u32|
                c < w && row <= r < h ==> call_ensures(
                    shade,
                    (c, r),
                    pixel_at(buffer@, base + #[trigger] pixel_offset(w, h, c, r)),
                ),
        decreases row,
    {
        row = row - 1;
        let mut col: u32 = 0;
        while col < w
            invariant
                col <= w,
                row < h,
                base == old(buffer)@.len(),
                buffer@.len() == base + pixel_offset(w, h, col, row),
                buffer@.subrange(0, base) == old(buffer)@,
                forall|c: u32, r: u32| c < w && r < h ==> call_requires(shade, (c, r)),
                forall|c: u32, r: u32|
                    c < w && (row < r < h || (r == row && c < col)) ==> call_ensures(
                        shade,
                        (c, r),
                        pixel_at(buffer@, base + #[trigger] pixel_offset(w, h, c, r)),
                    ),
            decreases w - col,
        {
            let ghost before = buffer@;
            let (red, green, blue) = shade(col, row);
            buffer.push(red);
            buffer.push(green);
            buffer.push(blue);
            proof {
                assert(buffer@.subrange(0, base) =~= before.subrange(0, base));
                assert forall|c: u32, r: u32|
                    c < w && (row < r < h || (r == row && c < col + 1)) implies call_ensures(
                        shade,
                        (c, r),
                        pixel_at(buffer@, base + #[trigger] pixel_offset(w, h, c, r)),
                    ) by {
                    if r == row && c == col {
                        assert(pixel_at(buffer@, base + pixel_offset(w, h, c, r)) == (
                            red,
                            green,
                            blue,
                        ));
                    } else {
                        lemma_scan_order(w, h, c, r, col, row);
                        let at = base + pixel_offset(w, h, c, r);
                        lemma_pixel_in_image(w, h, c, r);
                        assert(pixel_at(buffer@, at) == pixel_at(before, at));
                    }
                }
            }
            col = col + 1;
        }
        proof {
            assert((h - 1 - row) * w + w == (h - row) * w) by (nonlinear_arith);
        }
    }
}

} // verus!
