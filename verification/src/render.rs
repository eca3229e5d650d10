//! Filling a strip of pixels, row by row.
//!
//! A strip is a row-major buffer of `width * height` gray levels. What decides
//! the level of a pixel is an evaluator handed in by the caller: a function from
//! the pixel's column and row to the iteration at which its point escaped.

use vstd::prelude::*;
use crate::shade::{intensity, intensity_of};

verus! {

/// Where the pixel at (`col`, `row`) lies in a row-major buffer of rows that are
/// `width` pixels long.
pub open spec fn offset_of(width: int, col: int, row: int) -> int {
    row * width + col
}

/// `shade` is a gray level that `evaluate` can give the pixel at (`col`, `row`):
/// the level of one of the answers that the evaluator may return there.
pub open spec fn shades<F: Fn(usize, usize) -> Option<u32>>(
    evaluate: F,
    col: usize,
    row: usize,
    shade: u8,
) -> bool {
    exists|escape: Option<u32>| #[trigger]
        call_ensures(evaluate, (col, row), escape) && shade == intensity_of(escape)
}

/// `pixels` is a strip of `bounds.0` columns and `bounds.1` rows in which every
/// pixel holds a level that `evaluate` gives it.
pub open spec fn is_rendering<F: Fn(usize, usize) -> Option<u32>>(
    evaluate: F,
    bounds: (usize, usize),
    pixels: Seq<u8>,
) -> bool {
    &&& pixels.len() == bounds.0 * bounds.1
    &&& forall|col: usize, row: usize|
        col < bounds.0 && row < bounds.1 ==> #[trigger] shades(
            evaluate,
            col,
            row,
            pixels[offset_of(bounds.0 as int, col as int, row as int)],
        )
}

/// A pixel inside a strip has its offset inside the strip's buffer.
pub proof fn lemma_offset_in_strip(width: int, height: int, col: int, row: int)
    requires
        0 <= col < width,
        0 <= row < height,
    ensures
        0 <= offset_of(width, col, row) < width * height,
{
    assert(row * width + col < width * height) by (nonlinear_arith)
        requires
            0 <= col < width,
            0 <= row < height,
    ;
    assert(0 <= row * width) by (nonlinear_arith)
        requires
            0 <= row,
            0 <= width,
    ;
}

/// Two pixels of a strip share an offset only if they are the same pixel.
pub proof fn lemma_offset_injective(width: int, col_a: int, row_a: int, col_b: int, row_b: int)
    requires
        0 <= col_a < width,
        0 <= col_b < width,
        offset_of(width, col_a, row_a) == offset_of(width, col_b, row_b),
    ensures
        col_a == col_b,
        row_a == row_b,
{
    assert(row_a == row_b) by (nonlinear_arith)
        requires
            0 <= col_a < width,
            0 <= col_b < width,
            row_a * width + col_a == row_b * width + col_b,
    ;
}

/// The strip of `width` columns and `height` rows whose pixel at (`col`, `row`)
/// has the gray level of `escape(col, row)`.
pub open spec fn image(width: nat, height: nat, escape: spec_fn(int, int) -> Option<u32>) -> Seq<
    u8,
> {
    Seq::new(
        width * height,
        |k: int| intensity_of(escape(k % (width as int), k / (width as int))),
    )
}

/// `evaluate` answers as `escape` does on every pixel of a strip of the given
/// bounds: whatever it returns for a column and row is `escape` of them.
pub open spec fn follows<F: Fn(usize, usize) -> Option<u32>>(
    evaluate: F,
    bounds: (usize, usize),
    escape: spec_fn(int, int) -> Option<u32>,
) -> bool {
    forall|col: usize, row: usize, answer: Option<u32>|
        col < bounds.0 && row < bounds.1 && #[trigger] call_ensures(evaluate, (col, row), answer)
            ==> answer == escape(col as int, row as int)
}

/// The offset of a pixel gives its column and row back.
pub proof fn lemma_offset_splits(width: int, col: int, row: int)
    requires
        0 <= col < width,
        0 <= row,
    ensures
        offset_of(width, col, row) % width == col,
        offset_of(width, col, row) / width == row,
{
    vstd::arithmetic::div_mod::lemma_fundamental_div_mod_converse(
        offset_of(width, col, row),
        width,
        row,
        col,
    );
    assert(row * width == width * row) by (nonlinear_arith);
}

/// Every offset inside a strip is the offset of its own column and row, and
/// these lie inside the strip.
pub proof fn lemma_offset_joins(width: int, height: int, k: int)
    requires
        0 <= k < width * height,
        0 <= height,
    ensures
        0 < width,
        0 <= k % width < width,
        0 <= k / width < height,
        offset_of(width, k % width, k / width) == k,
{
    assert(0 < width) by (nonlinear_arith)
        requires
            0 <= k < width * height,
            0 <= height,
    ;
    vstd::arithmetic::div_mod::lemma_fundamental_div_mod(k, width);
    vstd::arithmetic::div_mod::lemma_mod_bound(k, width);
    let q = k / width;
    let r = k % width;
    assert(k == width * q + r);
    assert(0 <= q < height) by (nonlinear_arith)
        requires
            0 < width,
            0 <= height,
            0 <= r < width,
            0 <= k < width * height,
            k == width * q + r,
    ;
    assert(q * width == width * q) by (nonlinear_arith);
}

/// A rendering by an evaluator that answers as `escape` does is the image of
/// `escape`: with such an evaluator the bytes of a strip are determined.
pub proof fn lemma_rendering_is_image<F: Fn(usize, usize) -> Option<u32>>(
    evaluate: F,
    bounds: (usize, usize),
    escape: spec_fn(int, int) -> Option<u32>,
    pixels: Seq<u8>,
)
    requires
        is_rendering(evaluate, bounds, pixels),
        follows(evaluate, bounds, escape),
    ensures
        pixels == image(bounds.0 as nat, bounds.1 as nat, escape),
{
    let width = bounds.0 as int;
    let height = bounds.1 as int;
    let target = image(bounds.0 as nat, bounds.1 as nat, escape);
    assert(pixels.len() == target.len());
    assert forall|k: int| 0 <= k < pixels.len() implies pixels[k] == target[k] by {
        lemma_offset_joins(width, height, k);
        let col = (k % width) as usize;
        let row = (k / width) as usize;
        assert(shades(evaluate, col, row, pixels[offset_of(width, col as int, row as int)]));
        let answer = choose|answer: Option<u32>| #[trigger]
            call_ensures(evaluate, (col, row), answer) && pixels[k] == intensity_of(answer);
        assert(answer == escape(col as int, row as int));
    }
    assert(pixels =~= target);
}

/// Renders one strip: every pixel of `pixels` is set, in row-major order, to the
/// gray level of what `evaluate` returns for its column and row.
///
/// The buffer must hold exactly `bounds.0 * bounds.1` pixels.
pub fn render<F: Fn(usize, usize) -> Option<u32>>(
    pixels: &mut [u8],
    bounds: (usize, usize),
    evaluate: F,
)
    requires
        old(pixels)@.len() == bounds.0 * bounds.1,
        forall|col: usize, row: usize|
            col < bounds.0 && row < bounds.1 ==> call_requires(evaluate, (col, row)),
    ensures
        is_rendering(evaluate, bounds, final(pixels)@),
{
    let width: usize = bounds.0;
    let height: usize = bounds.1;
    let total: usize = pixels.len();
    let mut row: usize = 0;
    while row < height
        invariant
            row <= height,
            total == width * height,
            width == bounds.0,
            height == bounds.1,
            pixels@.len() == width * height,
            forall|c: usize, r: usize| c < width && r < height ==> call_requires(evaluate, (c, r)),
            forall|c: usize, r: usize|
                c < width && r < row ==> #[trigger] shades(
                    evaluate,
                    c,
                    r,
                    pixels@[offset_of(width as int, c as int, r as int)],
                ),
        decreases height - row,
    {
        let mut col: usize = 0;
        while col < width
            invariant
                row < height,
                col <= width,
                total == width * height,
                pixels@.len() == width * height,
                forall|c: usize, r: usize|
                    c < width && r < height ==> call_requires(evaluate, (c, r)),
                forall|c: usize, r: usize|
                    c < width && (r < row || (r == row && c < col)) ==> #[trigger] shades(
                        evaluate,
                        c,
                        r,
                        pixels@[offset_of(width as int, c as int, r as int)],
                    ),
            decreases width - col,
        {
            proof {
                lemma_offset_in_strip(width as int, height as int, col as int, row as int);
                assert(0 <= row * width <= offset_of(width as int, col as int, row as int))
                    by (nonlinear_arith)
                    requires
                        0 <= col,
                        0 <= row,
                        0 <= width,
                        offset_of(width as int, col as int, row as int) == row * width + col,
                ;
            }
            let escape = evaluate(col, row);
            let ghost before = pixels@;
            pixels[row * width + col] = intensity(escape);
            proof {
                let here = offset_of(width as int, col as int, row as int);
                assert forall|c: usize, r: usize|
                    c < width && (r < row || (r == row && c < col + 1)) implies #[trigger] shades(
                    evaluate,
                    c,
                    r,
                    pixels@[offset_of(width as int, c as int, r as int)],
                ) by {
                    let there = offset_of(width as int, c as int, r as int);
                    lemma_offset_in_strip(width as int, height as int, c as int, r as int);
                    if c == col && r == row {
                        assert(call_ensures(evaluate, (c, r), escape));
                    } else {
                        if there == here {
                            lemma_offset_injective(
                                width as int,
                                c as int,
                                r as int,
                                col as int,
                                row as int,
                            );
                        }
                        assert(shades(evaluate, c, r, before[there]));
                    }
                }
            }
            col += 1;
        }
        row += 1;
    }
}

} // verus!
