//! The layout of a rendered image: which pixel each position of the output
//! buffer holds.
use vstd::prelude::*;

verus! {

/// Pixel `(i, j)` at position `k` of the output: rows from the top
/// (`j = height - 1`) down, each from left to right.
pub open spec fn spec_pixel_at(k: int, width: int, height: int) -> (int, int) {
    (k % width, height - 1 - k / width)
}

proof fn lemma_row_major(row: int, i: int, width: int)
    requires
        0 <= row,
        0 <= i < width,
    ensures
        (row * width + i) / width == row,
        (row * width + i) % width == i,
{
    vstd::arithmetic::div_mod::lemma_fundamental_div_mod_converse(row * width + i, width, row, i);
}

/// The pixel coordinates in the order in which their bytes appear in the
/// output buffer, three bytes to a pixel.
pub fn pixel_order(width: u32, height: u32) -> (r: Vec<(u32, u32)>)
    requires
        width * height <= usize::MAX,
    ensures
        r@.len() == width * height,
        forall|k: int|
            0 <= k < r@.len() ==> (#[trigger] r@[k]).0 == spec_pixel_at(k, width as int, height as int).0
                && r@[k].1 == spec_pixel_at(k, width as int, height as int).1,
{
    let mut r: Vec<(u32, u32)> = Vec::new();
    let mut row: u32 = 0;
    while row < height
        invariant
            row <= height,
            width * height <= usize::MAX,
            r@.len() == row * width,
            forall|k: int|
                0 <= k < r@.len() ==> (#[trigger] r@[k]).0 == spec_pixel_at(
                    k,
                    width as int,
                    height as int,
                ).0 && r@[k].1 == spec_pixel_at(k, width as int, height as int).1,
        decreases height - row,
    {
        let j = height - 1 - row;
        let mut i: u32 = 0;
        while i < width
            invariant
                row < height,
                i <= width,
                j == height - 1 - row,
                width * height <= usize::MAX,
                r@.len() == row * width + i,
                forall|k: int|
                    0 <= k < r@.len() ==> (#[trigger] r@[k]).0 == spec_pixel_at(
                        k,
                        width as int,
                        height as int,
                    ).0 && r@[k].1 == spec_pixel_at(k, width as int, height as int).1,
            decreases width - i,
        {
            proof {
                lemma_row_major(row as int, i as int, width as int);
                assert(row * width + i < width * height) by (nonlinear_arith)
                    requires
                        row < height,
                        i < width,
                ;
            }
            r.push((i, j));
            i = i + 1;
        }
        assert((row + 1) * width == row * width + width) by (nonlinear_arith);
        row = row + 1;
    }
    assert(row * width == width * height) by (nonlinear_arith)
        requires
            row == height,
    ;
    r
}

} // verus!
