use vstd::prelude::*;

verus! {

/// Row-major index of the pixel in column `i` of row `j`.
pub fn pixel_index(i: usize, j: usize, width: usize, height: usize) -> (k: usize)
    requires
        i < width,
        j < height,
        width * height <= usize::MAX,
    ensures
        k == j * width + i,
        k < width * height,
{
    proof {
        assert(j * width + i < width * height) by (nonlinear_arith)
            requires
                i < width,
                j < height,
        ;
    }
    j * width + i
}

/// Column and row of the pixel with row-major index `k`.
pub fn pixel_coords(k: usize, width: usize) -> (c: (usize, usize))
    requires
        width > 0,
    ensures
        c.0 == k % width,
        c.1 == k / width,
        c.0 < width,
        k == c.1 * width + c.0,
{
    proof {
        vstd::arithmetic::div_mod::lemma_fundamental_div_mod(k as int, width as int);
        vstd::arithmetic::mul::lemma_mul_is_commutative(width as int, k as int / width as int);
        assert(k % width < width) by (nonlinear_arith)
            requires
                width > 0,
        ;
    }
    (k % width, k / width)
}

/// The row recovered from an index below `width * height` is a valid row.
pub proof fn lemma_pixel_coords_bounded(k: int, width: int, height: int)
    requires
        width > 0,
        0 <= k < width * height,
    ensures
        k / width < height,
        k % width < width,
{
    assert(k / width < height && k % width < width) by (nonlinear_arith)
        requires
            width > 0,
            0 <= k < width * height,
    ;
}

/// Index of the pixel `(x, y)` in a buffer whose row order is flipped
/// vertically: row 0 of the buffer is the bottom row of the image, so a
/// consumer that writes rows top-down reads row `height - 1 - y` for its
/// row `y`.
pub fn flipped_row_index(x: usize, y: usize, width: usize, height: usize) -> (k: usize)
    requires
        x < width,
        y < height,
        width * height <= usize::MAX,
    ensures
        k == (height - 1 - y) * width + x,
        k < width * height,
{
    proof {
        assert((height - 1 - y) * width + x < width * height) by (nonlinear_arith)
            requires
                x < width,
                y < height,
        ;
    }
    (height - 1 - y) * width + x
}

/// Two distinct pixels never share a flipped buffer index: writing the image
/// top-down through `flipped_row_index` touches every buffer cell once.
pub proof fn lemma_flipped_row_index_injective(
    x1: int,
    y1: int,
    x2: int,
    y2: int,
    width: int,
    height: int,
)
    requires
        0 <= x1 < width,
        0 <= x2 < width,
        0 <= y1 < height,
        0 <= y2 < height,
        (height - 1 - y1) * width + x1 == (height - 1 - y2) * width + x2,
    ensures
        x1 == x2,
        y1 == y2,
{
    assert(x1 == x2 && y1 == y2) by (nonlinear_arith)
        requires
            0 <= x1 < width,
            0 <= x2 < width,
            0 <= y1 < height,
            0 <= y2 < height,
            (height - 1 - y1) * width + x1 == (height - 1 - y2) * width + x2,
    ;
}

} // verus!
