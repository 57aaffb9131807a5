//! The intensity buffer: one byte per pixel, row-major.
use vstd::arithmetic::div_mod::lemma_fundamental_div_mod_converse;
use vstd::prelude::*;

verus! {

/// The iteration limit that the renderer's classifier is meant to use; an
/// escape count below it fits in a byte once inverted.
pub const ITERATION_LIMIT: usize = 255;

/// The byte written for a pixel, given how its point was classified: black
/// for a point that never escaped, brighter the sooner it escaped. The count
/// is taken as a byte (modulo 256) before it is subtracted from 255.
pub open spec fn shade(escape: Option<usize>) -> u8 {
    match escape {
        None => 0u8,
        Some(count) => (255 - (count as u8)) as u8,
    }
}

/// The column and row of the pixel stored at index `i` of a row-major buffer
/// `width` pixels wide.
pub open spec fn pixel_at(width: usize, i: int) -> (usize, usize) {
    ((i % (width as int)) as usize, (i / (width as int)) as usize)
}

/// Every index of a row-major buffer for an image of `width` by `height`
/// pixels stores exactly one pixel inside the image: its column and row are
/// in bounds and the index is `row * width + column`.
pub proof fn lemma_index_is_pixel(width: usize, height: usize, i: int)
    requires
        0 <= i < width * height,
    ensures
        pixel_at(width, i).0 < width,
        pixel_at(width, i).1 < height,
        i == pixel_at(width, i).1 * width + pixel_at(width, i).0,
{
    assert(width > 0) by (nonlinear_arith)
        requires
            0 <= i < width * height,
    ;
    let q = i / (width as int);
    let m = i % (width as int);
    assert(i == q * width + m && 0 <= m < width && 0 <= q) by (nonlinear_arith)
        requires
            width > 0,
            i >= 0,
            q == i / (width as int),
            m == i % (width as int),
    ;
    assert(q < height) by (nonlinear_arith)
        requires
            i == q * width + m,
            0 <= m,
            i < width * height,
            width > 0,
    ;
}

/// Byte `b` at index `i` of a buffer `width` pixels wide is the shade of one
/// classification that `classify` may give for that pixel.
pub open spec fn rendered_as<F: Fn(usize, usize) -> Option<usize>>(
    classify: F,
    width: usize,
    i: int,
    b: u8,
) -> bool {
    exists|e: Option<usize>| classify.ensures(pixel_at(width, i), e) && b == shade(e)
}

/// The byte that a pixel with classification `escape` is rendered as.
pub fn intensity(escape: Option<usize>) -> (b: u8)
    ensures
        b == shade(escape),
{
    match escape {
        None => 0,
        Some(count) => 255 - (count as u8),
    }
}

/// Whether a buffer of `len` bytes holds exactly one byte per pixel of an
/// image of `bounds` (width, height).
pub fn buffer_fits(len: usize, bounds: (usize, usize)) -> (r: bool)
    ensures
        r == (len as int == bounds.0 as int * bounds.1 as int),
{
    match bounds.0.checked_mul(bounds.1) {
        Some(n) => len == n,
        None => false,
    }
}

/// Index of `pixel` (column, row) in a row-major buffer for `bounds`.
pub fn pixel_index(bounds: (usize, usize), pixel: (usize, usize)) -> (r: usize)
    requires
        pixel.0 < bounds.0,
        pixel.1 < bounds.1,
        bounds.0 * bounds.1 <= usize::MAX,
    ensures
        r == pixel.1 * bounds.0 + pixel.0,
        r < bounds.0 * bounds.1,
        pixel_at(bounds.0, r as int) == pixel,
{
    proof {
        assert(pixel.1 * bounds.0 + pixel.0 < bounds.0 * bounds.1) by (nonlinear_arith)
            requires
                pixel.0 < bounds.0,
                pixel.1 < bounds.1,
        ;
        lemma_fundamental_div_mod_converse(
            pixel.1 * bounds.0 + pixel.0,
            bounds.0 as int,
            pixel.1 as int,
            pixel.0 as int,
        );
    }
    pixel.1 * bounds.0 + pixel.0
}

/// Fills `pixels`, a row-major buffer for an image of `bounds` (width,
/// height), with the shade of each pixel as `classify(column, row)` rates it.
/// Every index of the buffer is written; its length is kept.
pub fn render<F: Fn(usize, usize) -> Option<usize>>(
    pixels: &mut [u8],
    bounds: (usize, usize),
    classify: F,
)
    requires
        old(pixels)@.len() == bounds.0 * bounds.1,
        forall|column: usize, row: usize|
            column < bounds.0 && row < bounds.1 ==> classify.requires((column, row)),
    ensures
        final(pixels)@.len() == old(pixels)@.len(),
        forall|i: int|
            0 <= i < final(pixels)@.len() ==> rendered_as(
                classify,
                bounds.0,
                i,
                #[trigger] final(pixels)@[i],
            ),
{
    let (width, height) = bounds;
    let n = pixels.len();
    let ghost len = pixels@.len();
    let mut row: usize = 0;
    while row < height
        invariant
            pixels@.len() == len,
            len == n,
            len == width * height,
            bounds == (width, height),
            row <= height,
            forall|column: usize, row: usize|
                column < width && row < height ==> classify.requires((column, row)),
            forall|i: int|
                0 <= i < row * width ==> rendered_as(classify, width, i, #[trigger] pixels@[i]),
        decreases height - row,
    {
        let mut column: usize = 0;
        while column < width
            invariant
                pixels@.len() == len,
                len == n,
                len == width * height,
                bounds == (width, height),
                row < height,
                column <= width,
                forall|column: usize, row: usize|
                    column < width && row < height ==> classify.requires((column, row)),
                forall|i: int|
                    0 <= i < row * width + column ==> rendered_as(
                        classify,
                        width,
                        i,
                        #[trigger] pixels@[i],
                    ),
            decreases width - column,
        {
            let index = pixel_index(bounds, (column, row));
            let escape = classify(column, row);
            let ghost before = pixels@;
            pixels[index] = intensity(escape);
            proof {
                assert(rendered_as(classify, width, index as int, pixels@[index as int]));
                assert forall|i: int| 0 <= i < row * width + column + 1 implies rendered_as(
                    classify,
                    width,
                    i,
                    #[trigger] pixels@[i],
                ) by {
                    if i < index {
                        assert(pixels@[i] == before[i]);
                    }
                }
            }
            column = column + 1;
        }
        proof {
            assert((row + 1) * width == row * width + width) by (nonlinear_arith);
        }
        row = row + 1;
    }
    proof {
        assert(row * width == len) by (nonlinear_arith)
            requires
                row == height,
                len == width * height,
        ;
    }
}

} // verus!
