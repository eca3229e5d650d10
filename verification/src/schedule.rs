//! Handing the bands of an image to their workers.
//!
//! A pixel buffer is cut along the bands of its image into strips that share no
//! pixel. Each strip can then be rendered on its own, by whoever owns it and in
//! any order: laid end to end again, the strips are the buffer.

use vstd::prelude::*;
use crate::bands::{
    band_height_of, band_of, band_top_of, bands, lemma_band_ends_at_next_top,
    lemma_bands_partition_rows, rows_per_band_of, Band,
};
use crate::render::{
    image, is_rendering, lemma_offset_in_strip, lemma_offset_joins, lemma_offset_splits, offset_of,
    render, shades,
};
use crate::shade::intensity_of;

verus! {

/// The strips laid end to end, first strip first.
pub open spec fn joined(strips: Seq<Seq<u8>>) -> Seq<u8>
    decreases strips.len(),
{
    if strips.len() == 0 {
        Seq::empty()
    } else {
        joined(strips.drop_last()) + strips.last()
    }
}

/// The pixels of `band` in a row-major buffer of rows `width` pixels long.
pub open spec fn band_pixels(buffer: Seq<u8>, width: nat, band: Band) -> Seq<u8> {
    buffer.subrange(width * band.top, width * (band.top + band.height))
}

/// Cuts a pixel buffer into the strips of its bands.
///
/// Strip `i` is the part of the buffer that holds the rows of band `i` of an
/// image of `bounds.1` rows cut for `thread_count` workers. The strips borrow
/// from the buffer and share nothing: once they are given back, the buffer is
/// the strips, as their holders left them, laid end to end.
pub fn split_bands<'a>(pixels: &'a mut [u8], bounds: (usize, usize), thread_count: usize) -> (strips:
    Vec<&'a mut [u8]>)
    requires
        thread_count >= 1,
        old(pixels)@.len() == bounds.0 * bounds.1,
    ensures
        strips@.len() == thread_count,
        forall|index: int|
            #![trigger strips@.index(index)]
            0 <= index < thread_count ==> strips@.index(index)@ == band_pixels(
                old(pixels)@,
                bounds.0 as nat,
                band_of(bounds.1 as nat, thread_count as nat, index as nat),
            ),
        final(pixels)@ == joined(Seq::new(thread_count as nat, |index: int| final(strips@[index])@)),
{
    let width: usize = bounds.0;
    let height: usize = bounds.1;
    let plan: Vec<Band> = bands(height, thread_count);
    let total: usize = pixels.len();
    let ghost before = pixels@;
    let ghost after = final(pixels)@;
    let mut strips: Vec<&'a mut [u8]> = Vec::new();
    let mut rest: &'a mut [u8] = pixels;
    let mut index: usize = 0;
    proof {
        assert(0 * rows_per_band_of(height as nat, thread_count as nat) == 0) by (nonlinear_arith);
        assert(width * 0 == 0) by (nonlinear_arith);
        assert(rest@ =~= before.subrange(0, total as int));
        assert(Seq::new(0nat, |i: int| final(strips@[i])@) =~= Seq::<Seq<u8>>::empty());
        assert(after =~= joined(Seq::new(0nat, |i: int| final(strips@[i])@)) + final(rest)@);
    }
    while index < thread_count
        invariant
            thread_count >= 1,
            index <= thread_count,
            total == width * height,
            before.len() == total,
            plan@.len() == thread_count,
            forall|i: int|
                0 <= i < thread_count ==> #[trigger] plan@[i] == band_of(
                    height as nat,
                    thread_count as nat,
                    i as nat,
                ),
            strips@.len() == index,
            rest@ == before.subrange(
                width * band_top_of(height as nat, thread_count as nat, index as nat),
                total as int,
            ),
            after == joined(Seq::new(index as nat, |i: int| final(strips@[i])@)) + final(rest)@,
            forall|i: int|
                #![trigger strips@.index(i)]
                0 <= i < index ==> strips@.index(i)@ == band_pixels(
                    before,
                    width as nat,
                    band_of(height as nat, thread_count as nat, i as nat),
                ),
        decreases thread_count - index,
    {
        let band: Band = plan[index];
        let ghost top = band_top_of(height as nat, thread_count as nat, index as nat);
        let ghost rows = band_height_of(height as nat, thread_count as nat, index as nat);
        proof {
            lemma_band_ends_at_next_top(height as nat, thread_count as nat, index as nat);
            assert(band == band_of(height as nat, thread_count as nat, index as nat));
            assert(width * (top + rows) == width * top + rows * width) by (nonlinear_arith);
            assert(width * (top + rows) <= width * height) by (nonlinear_arith)
                requires
                    top + rows <= height,
                    0 <= width,
            ;
            assert(0 <= width * top) by (nonlinear_arith)
                requires
                    0 <= width,
                    0 <= top,
            ;
            assert(0 <= rows * width) by (nonlinear_arith)
                requires
                    0 <= width,
                    0 <= rows,
            ;
        }
        let count: usize = band.height * width;
        let ghost earlier = Seq::new(index as nat, |i: int| final(strips@[i])@);
        let ghost rest_later = final(rest)@;
        let (strip, tail) = rest.split_at_mut(count);
        let ghost strip_now = strip@;
        let ghost strip_later = final(strip)@;
        let ghost tail_later = final(tail)@;
        strips.push(strip);
        rest = tail;
        proof {
            let later = Seq::new((index + 1) as nat, |i: int| final(strips@[i])@);
            assert(later.drop_last() =~= earlier);
            assert(later.last() == strip_later);
            assert(rest_later == strip_later + tail_later);
            assert(after =~= joined(later) + final(rest)@);
            assert(strip_now =~= band_pixels(before, width as nat, band));
            assert(rest@ =~= before.subrange(width * (top + rows), total as int));
        }
        index = index + 1;
    }
    proof {
        lemma_bands_partition_rows(height as nat, thread_count as nat);
        assert(final(rest)@ =~= Seq::<u8>::empty());
    }
    strips
}

/// `strip` holds `rows` rows of an image, from row `top` on, and every pixel in
/// it has a gray level that `fits` its column and its row in the image.
pub open spec fn strip_meets(
    width: nat,
    top: nat,
    rows: nat,
    strip: Seq<u8>,
    fits: spec_fn(int, int, u8) -> bool,
) -> bool {
    &&& strip.len() == width * rows
    &&& forall|col: int, row: int|
        #![trigger offset_of(width as int, col, row)]
        0 <= col < width && 0 <= row < rows ==> fits(
            col,
            top + row,
            strip[offset_of(width as int, col, row)],
        )
}

/// The strips of the first `count` bands of an image.
pub open spec fn leading(strips: Seq<Seq<u8>>, count: nat) -> Seq<Seq<u8>> {
    strips.subrange(0, count as int)
}

/// Strips that each meet a rule on their own band meet it together: laid end to
/// end, the strips of the first `count` bands are the rows above the next band,
/// and every pixel in them fits its place in the image.
pub proof fn lemma_joined_strips_meet(
    width: nat,
    height: nat,
    threads: nat,
    strips: Seq<Seq<u8>>,
    fits: spec_fn(int, int, u8) -> bool,
    count: nat,
)
    requires
        threads >= 1,
        count <= threads,
        strips.len() == threads,
        forall|index: int|
            0 <= index < threads ==> strip_meets(
                width,
                band_top_of(height, threads, index as nat),
                band_height_of(height, threads, index as nat),
                #[trigger] strips[index],
                fits,
            ),
    ensures
        strip_meets(
            width,
            0,
            band_top_of(height, threads, count),
            joined(leading(strips, count)),
            fits,
        ),
    decreases count,
{
    let w = width as int;
    let whole = joined(leading(strips, count));
    if count == 0 {
        assert(0 * rows_per_band_of(height, threads) == 0) by (nonlinear_arith);
        assert(width * 0 == 0) by (nonlinear_arith);
    } else {
        let before = (count - 1) as nat;
        let top = band_top_of(height, threads, before);
        let rows = band_height_of(height, threads, before);
        let above = joined(leading(strips, before));
        let strip = strips[before as int];
        lemma_joined_strips_meet(width, height, threads, strips, fits, before);
        lemma_band_ends_at_next_top(height, threads, before);
        assert(leading(strips, count).drop_last() =~= leading(strips, before));
        assert(leading(strips, count).last() == strip);
        assert(whole == above + strip);
        assert(strip_meets(width, top, rows, strip, fits));
        assert(width * (top + rows) == width * top + width * rows) by (nonlinear_arith);
        assert forall|col: int, row: int|
            #![trigger offset_of(w, col, row)]
            0 <= col < width && 0 <= row < top + rows implies fits(
            col,
            0 + row,
            whole[offset_of(w, col, row)],
        ) by {
            if row < top {
                lemma_offset_in_strip(w, top as int, col, row);
                assert(whole[offset_of(w, col, row)] == above[offset_of(w, col, row)]);
            } else {
                lemma_offset_in_strip(w, rows as int, col, row - top);
                assert(offset_of(w, col, row) == w * top + offset_of(w, col, row - top))
                    by (nonlinear_arith)
                    requires
                        offset_of(w, col, row) == row * w + col,
                        offset_of(w, col, row - top) == (row - top) * w + col,
                ;
                assert(whole[offset_of(w, col, row)] == strip[offset_of(w, col, row - top)]);
                assert(top + (row - top) == row);
            }
        }
    }
}

/// Band `index` of an image, rendered on its own: a strip whose rows are counted
/// from the band's top.
pub open spec fn band_image(
    width: nat,
    height: nat,
    threads: nat,
    index: nat,
    escape: spec_fn(int, int) -> Option<u32>,
) -> Seq<u8> {
    image(
        width,
        band_height_of(height, threads, index),
        |col: int, row: int| escape(col, band_top_of(height, threads, index) + row),
    )
}

/// An image rendered band by band: the images of its bands, laid end to end.
pub open spec fn banded_image(
    width: nat,
    height: nat,
    threads: nat,
    escape: spec_fn(int, int) -> Option<u32>,
) -> Seq<u8> {
    joined(Seq::new(threads, |index: int| band_image(width, height, threads, index as nat, escape)))
}

/// An image does not depend on the number of bands it is rendered in: rendered
/// band by band, for any number of workers, it is byte for byte the image
/// rendered in one piece.
pub proof fn lemma_banding_keeps_image(
    width: nat,
    height: nat,
    threads: nat,
    escape: spec_fn(int, int) -> Option<u32>,
)
    requires
        threads >= 1,
    ensures
        banded_image(width, height, threads, escape) == image(width, height, escape),
{
    let w = width as int;
    let strips = Seq::new(
        threads,
        |index: int| band_image(width, height, threads, index as nat, escape),
    );
    let fits = |col: int, row: int, shade: u8| shade == intensity_of(escape(col, row));
    assert forall|index: int| 0 <= index < threads implies strip_meets(
        width,
        band_top_of(height, threads, index as nat),
        band_height_of(height, threads, index as nat),
        #[trigger] strips[index],
        fits,
    ) by {
        let top = band_top_of(height, threads, index as nat);
        let rows = band_height_of(height, threads, index as nat);
        let strip = strips[index];
        assert(strip == band_image(width, height, threads, index as nat, escape));
        assert forall|col: int, row: int|
            #![trigger offset_of(w, col, row)]
            0 <= col < width && 0 <= row < rows implies fits(
            col,
            top + row,
            strip[offset_of(w, col, row)],
        ) by {
            lemma_offset_in_strip(w, rows as int, col, row);
            lemma_offset_splits(w, col, row);
        }
    }
    lemma_joined_strips_meet(width, height, threads, strips, fits, threads);
    lemma_bands_partition_rows(height, threads);
    assert(leading(strips, threads) =~= strips);
    let banded = banded_image(width, height, threads, escape);
    let whole = image(width, height, escape);
    assert(banded.len() == whole.len());
    assert forall|k: int| 0 <= k < banded.len() implies banded[k] == whole[k] by {
        lemma_offset_joins(w, height as int, k);
        assert(fits(k % w, 0 + k / w, banded[offset_of(w, k % w, k / w)]));
    }
    assert(banded =~= whole);
}

/// The pixels of a band in the buffer of its image are as many as its rows hold.
pub proof fn lemma_band_pixels_len(
    buffer: Seq<u8>,
    width: nat,
    height: nat,
    threads: nat,
    index: nat,
)
    requires
        threads >= 1,
        height <= usize::MAX,
        buffer.len() == width * height,
    ensures
        band_pixels(buffer, width, band_of(height, threads, index)).len() == width
            * band_height_of(height, threads, index),
{
    let top = band_top_of(height, threads, index);
    let rows = band_height_of(height, threads, index);
    lemma_band_ends_at_next_top(height, threads, index);
    assert(width * (top + rows) == width * top + width * rows) by (nonlinear_arith);
    assert(width * (top + rows) <= width * height) by (nonlinear_arith)
        requires
            top + rows <= height,
    ;
    assert(0 <= width * top && 0 <= width * rows) by (nonlinear_arith);
}

/// The rule that a pixel's gray level is one that `evaluate` gives its column
/// and row.
pub open spec fn shaded_by<F: Fn(usize, usize) -> Option<u32>>(evaluate: F) -> spec_fn(
    int,
    int,
    u8,
) -> bool {
    |col: int, row: int, shade: u8|
        0 <= col <= usize::MAX && 0 <= row <= usize::MAX && shades(
            evaluate,
            col as usize,
            row as usize,
            shade,
        )
}

/// Renders an image band by band on the calling thread.
///
/// The buffer is cut into the strips of `thread_count` bands, and each strip is
/// rendered on its own, with its rows counted from its band's top. The bands are
/// taken from the bottom up; the order is of no account. What is left in the
/// buffer is what `render` leaves there in one piece.
pub fn render_banded<F: Fn(usize, usize) -> Option<u32>>(
    pixels: &mut [u8],
    bounds: (usize, usize),
    thread_count: usize,
    evaluate: F,
)
    requires
        thread_count >= 1,
        old(pixels)@.len() == bounds.0 * bounds.1,
        forall|col: usize, row: usize|
            col < bounds.0 && row < bounds.1 ==> call_requires(evaluate, (col, row)),
    ensures
        is_rendering(evaluate, bounds, final(pixels)@),
{
    let width: usize = bounds.0;
    let height: usize = bounds.1;
    let plan: Vec<Band> = bands(height, thread_count);
    let ghost after = final(pixels)@;
    let ghost fits = shaded_by(evaluate);
    let mut strips: Vec<&mut [u8]> = split_bands(pixels, bounds, thread_count);
    let ghost finals = Seq::new(thread_count as nat, |index: int| final(strips@[index])@);
    let mut index: usize = thread_count;
    proof {
        assert forall|i: int|
            #![trigger strips@.index(i)]
            0 <= i < thread_count implies strips@.index(i)@.len() == width * band_height_of(
            height as nat,
            thread_count as nat,
            i as nat,
        ) by {
            lemma_band_pixels_len(
                old(pixels)@,
                width as nat,
                height as nat,
                thread_count as nat,
                i as nat,
            );
        }
    }
    while index > 0
        invariant
            thread_count >= 1,
            index <= thread_count,
            width == bounds.0,
            height == bounds.1,
            forall|col: usize, row: usize|
                col < width && row < height ==> call_requires(evaluate, (col, row)),
            plan@.len() == thread_count,
            forall|i: int|
                0 <= i < thread_count ==> #[trigger] plan@[i] == band_of(
                    height as nat,
                    thread_count as nat,
                    i as nat,
                ),
            strips@.len() == index,
            finals.len() == thread_count,
            fits == shaded_by(evaluate),
            forall|i: int|
                #![trigger strips@.index(i)]
                0 <= i < index ==> final(strips@.index(i))@ == finals[i] && strips@.index(i)@.len()
                    == width * band_height_of(height as nat, thread_count as nat, i as nat),
            forall|i: int|
                index <= i < thread_count ==> strip_meets(
                    width as nat,
                    band_top_of(height as nat, thread_count as nat, i as nat),
                    band_height_of(height as nat, thread_count as nat, i as nat),
                    #[trigger] finals[i],
                    fits,
                ),
        decreases index,
    {
        index = index - 1;
        let band: Band = plan[index];
        let top: usize = band.top;
        let rows: usize = band.height;
        let strip = strips.pop().unwrap();
        let ghost done = final(strip)@;
        proof {
            lemma_band_ends_at_next_top(height as nat, thread_count as nat, index as nat);
            assert(band == band_of(height as nat, thread_count as nat, index as nat));
            assert(done == finals[index as int]);
        }
        let inner: &F = &evaluate;
        let shifted = |col: usize, row: usize| -> (escape: Option<u32>)
            requires
                col < width,
                row < rows,
            ensures
                call_ensures(*inner, (col, (top + row) as usize), escape),
            { inner(col, top + row) };
        render(strip, (width, rows), shifted);
        proof {
            let w = width as int;
            assert forall|col: int, row: int|
                #![trigger offset_of(w, col, row)]
                0 <= col < width && 0 <= row < rows implies fits(
                col,
                top + row,
                done[offset_of(w, col, row)],
            ) by {
                lemma_offset_in_strip(w, rows as int, col, row);
                let shade = done[offset_of(w, col, row)];
                assert(shades(
                    shifted,
                    col as usize,
                    row as usize,
                    done[offset_of(width as int, col as usize as int, row as usize as int)],
                ));
                let escape = choose|escape: Option<u32>| #[trigger]
                    call_ensures(shifted, (col as usize, row as usize), escape) && shade
                        == intensity_of(escape);
                assert(call_ensures(evaluate, (col as usize, (top + row) as usize), escape));
            }
        }
    }
    proof {
        let w = width as int;
        lemma_joined_strips_meet(
            width as nat,
            height as nat,
            thread_count as nat,
            finals,
            fits,
            thread_count as nat,
        );
        lemma_bands_partition_rows(height as nat, thread_count as nat);
        assert(leading(finals, thread_count as nat) =~= finals);
        assert forall|col: usize, row: usize| col < width && row < height implies #[trigger] shades(
            evaluate,
            col,
            row,
            after[offset_of(w, col as int, row as int)],
        ) by {
            assert(fits(col as int, 0 + row as int, after[offset_of(w, col as int, row as int)]));
        }
    }
}

} // verus!
