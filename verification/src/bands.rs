//! Cutting an image into horizontal bands, one per worker.
//!
//! The rows of an image are dealt out from the top: every band takes the same
//! number of rows, the quotient of the image's height by the number of workers,
//! rounded up, until the rows run out. The band that meets the bottom edge takes
//! what is left, and the bands after it are empty. Bands are found by arithmetic
//! alone, so workers that each own one band never touch the same row.

use vstd::prelude::*;

verus! {

/// The number of workers of a render that asks for none.
pub const DEFAULT_THREADS: usize = 8;

/// A horizontal strip of an image: `height` rows, starting at row `top`.
#[derive(Clone, Copy, Debug, PartialEq, Eq, Structural)]
pub struct Band {
    pub top: usize,
    pub height: usize,
}

impl Band {
    /// The row below the band's last row.
    pub open spec fn bottom(self) -> nat {
        (self.top + self.height) as nat
    }

    /// The pixel corners of the band in an image that is `width` pixels wide:
    /// column and row of its upper left pixel, and of the pixel diagonally
    /// below its lower right one. They are what maps the band's own viewport
    /// out of the image's viewport.
    pub fn corners(&self, width: usize) -> (corners: ((usize, usize), (usize, usize)))
        requires
            self.bottom() <= usize::MAX,
        ensures
            corners.0 == (0usize, self.top),
            corners.1 == (width, self.bottom() as usize),
    {
        ((0, self.top), (width, self.top + self.height))
    }
}

/// The rows that a band takes while rows are left: `height / threads`, rounded
/// up.
pub open spec fn rows_per_band_of(height: nat, threads: nat) -> nat
    recommends
        threads >= 1,
{
    ((height + threads - 1) / (threads as int)) as nat
}

/// The first row of band `index`: that many full bands down, or the bottom edge
/// where the image ends before that.
pub open spec fn band_top_of(height: nat, threads: nat, index: nat) -> nat
    recommends
        threads >= 1,
{
    let reach = index * rows_per_band_of(height, threads);
    if reach < height {
        reach
    } else {
        height
    }
}

/// The rows of band `index`: a full band's rows, or what is left below its top.
pub open spec fn band_height_of(height: nat, threads: nat, index: nat) -> nat
    recommends
        threads >= 1,
{
    let rows = rows_per_band_of(height, threads);
    let left = (height - band_top_of(height, threads, index)) as nat;
    if rows < left {
        rows
    } else {
        left
    }
}

/// Band `index` of an image of `height` rows cut for `threads` workers.
pub open spec fn band_of(height: nat, threads: nat, index: nat) -> Band
    recommends
        threads >= 1,
{
    Band {
        top: band_top_of(height, threads, index) as usize,
        height: band_height_of(height, threads, index) as usize,
    }
}

/// Row `row` belongs to band `index`.
pub open spec fn band_holds(height: nat, threads: nat, index: nat, row: nat) -> bool
    recommends
        threads >= 1,
{
    band_top_of(height, threads, index) <= row < band_top_of(height, threads, index)
        + band_height_of(height, threads, index)
}

/// The band in which row `row` of the image lies.
pub open spec fn band_index_of(height: nat, threads: nat, row: nat) -> nat
    recommends
        threads >= 1,
        row < height,
{
    (row as int / rows_per_band_of(height, threads) as int) as nat
}

/// The rows of the first `count` bands, added up.
pub open spec fn rows_in_bands(height: nat, threads: nat, count: nat) -> nat
    recommends
        threads >= 1,
    decreases count,
{
    if count == 0 {
        0
    } else {
        rows_in_bands(height, threads, (count - 1) as nat) + band_height_of(
            height,
            threads,
            (count - 1) as nat,
        )
    }
}

/// The rows of a full band are the least number that, taken once per worker,
/// covers the image.
pub proof fn lemma_rows_per_band_is_ceiling(height: nat, threads: nat)
    requires
        threads >= 1,
    ensures
        threads * rows_per_band_of(height, threads) >= height,
        rows_per_band_of(height, threads) > 0 ==> threads * (rows_per_band_of(height, threads) - 1)
            < height,
{
    let t = threads as int;
    let n = height + threads - 1;
    let q = n / t;
    vstd::arithmetic::div_mod::lemma_fundamental_div_mod(n, t);
    vstd::arithmetic::div_mod::lemma_mod_bound(n, t);
    vstd::arithmetic::div_mod::lemma_div_pos_is_pos(n, t);
    assert(n == t * q + n % t);
    assert(t * (q - 1) == t * q - t) by (nonlinear_arith);
}

/// Each band starts where the one before it ends.
pub proof fn lemma_band_ends_at_next_top(height: nat, threads: nat, index: nat)
    requires
        threads >= 1,
    ensures
        band_top_of(height, threads, index) + band_height_of(height, threads, index)
            == band_top_of(height, threads, index + 1),
        band_top_of(height, threads, index) <= band_top_of(height, threads, index + 1) <= height,
{
    let rows = rows_per_band_of(height, threads);
    assert((index + 1) * rows == index * rows + rows) by (nonlinear_arith);
}

/// Band tops never go back up.
pub proof fn lemma_band_tops_ascend(height: nat, threads: nat, low: nat, high: nat)
    requires
        threads >= 1,
        low <= high,
    ensures
        band_top_of(height, threads, low) <= band_top_of(height, threads, high) <= height,
{
    let rows = rows_per_band_of(height, threads);
    assert(low * rows <= high * rows) by (nonlinear_arith)
        requires
            low <= high,
            0 <= rows,
    ;
}

/// The first `count` bands hold, between them, as many rows as lie above the top
/// of the band that follows them.
pub proof fn lemma_rows_in_bands_is_next_top(height: nat, threads: nat, count: nat)
    requires
        threads >= 1,
    ensures
        rows_in_bands(height, threads, count) == band_top_of(height, threads, count),
    decreases count,
{
    if count > 0 {
        lemma_rows_in_bands_is_next_top(height, threads, (count - 1) as nat);
        lemma_band_ends_at_next_top(height, threads, (count - 1) as nat);
    } else {
        assert(0 * rows_per_band_of(height, threads) == 0) by (nonlinear_arith);
    }
}

/// The bands cut the rows of an image into consecutive ranges that leave no gap
/// and do not overlap: the first band starts at row 0, the last one ends at the
/// bottom edge, every row lies in exactly one band, and the heights of the bands
/// add up to the height of the image.
pub proof fn lemma_bands_partition_rows(height: nat, threads: nat)
    requires
        threads >= 1,
    ensures
        band_top_of(height, threads, 0) == 0,
        band_top_of(height, threads, threads) == height,
        forall|index: nat|
            #![trigger band_height_of(height, threads, index)]
            band_top_of(height, threads, index) + band_height_of(height, threads, index)
                == band_top_of(height, threads, index + 1),
        forall|row: nat|
            #![trigger band_index_of(height, threads, row)]
            row < height ==> band_index_of(height, threads, row) < threads && band_holds(
                height,
                threads,
                band_index_of(height, threads, row),
                row,
            ),
        forall|index: nat, row: nat| #[trigger]
            band_holds(height, threads, index, row) ==> row < height,
        forall|first: nat, second: nat, row: nat|
            #[trigger] band_holds(height, threads, first, row) && #[trigger] band_holds(
                height,
                threads,
                second,
                row,
            ) ==> first == second,
        rows_in_bands(height, threads, threads) == height,
{
    let rows = rows_per_band_of(height, threads);
    assert(0 * rows == 0) by (nonlinear_arith);
    lemma_rows_per_band_is_ceiling(height, threads);
    lemma_rows_in_bands_is_next_top(height, threads, threads);
    assert forall|index: nat|
        #![trigger band_height_of(height, threads, index)]
        band_top_of(height, threads, index) + band_height_of(height, threads, index)
            == band_top_of(height, threads, index + 1) by {
        lemma_band_ends_at_next_top(height, threads, index);
    }
    assert forall|row: nat|
        #![trigger band_index_of(height, threads, row)]
        row < height implies band_index_of(height, threads, row) < threads && band_holds(
        height,
        threads,
        band_index_of(height, threads, row),
        row,
    ) by {
        lemma_row_has_band(height, threads, row);
    }
    assert forall|index: nat, row: nat| #[trigger]
        band_holds(height, threads, index, row) implies row < height by {
        lemma_band_ends_at_next_top(height, threads, index);
    }
    assert forall|first: nat, second: nat, row: nat|
        #[trigger] band_holds(height, threads, first, row) && #[trigger] band_holds(
            height,
            threads,
            second,
            row,
        ) implies first == second by {
        if first < second {
            lemma_band_ends_at_next_top(height, threads, first);
            lemma_band_tops_ascend(height, threads, first + 1, second);
        } else if second < first {
            lemma_band_ends_at_next_top(height, threads, second);
            lemma_band_tops_ascend(height, threads, second + 1, first);
        }
    }
}

/// A row of the image lies in the band whose number is the row divided by the
/// rows of a full band.
pub proof fn lemma_row_has_band(height: nat, threads: nat, row: nat)
    requires
        threads >= 1,
        row < height,
    ensures
        rows_per_band_of(height, threads) >= 1,
        band_index_of(height, threads, row) < threads,
        band_holds(height, threads, band_index_of(height, threads, row), row),
{
    let rows = rows_per_band_of(height, threads) as int;
    lemma_rows_per_band_is_ceiling(height, threads);
    assert(rows >= 1) by (nonlinear_arith)
        requires
            threads * rows >= height,
            height > 0,
            rows >= 0,
    ;
    let index = row as int / rows;
    vstd::arithmetic::div_mod::lemma_fundamental_div_mod(row as int, rows);
    vstd::arithmetic::div_mod::lemma_mod_bound(row as int, rows);
    vstd::arithmetic::div_mod::lemma_div_pos_is_pos(row as int, rows);
    assert(row == rows * index + row as int % rows);
    assert(index * rows == rows * index) by (nonlinear_arith);
    assert(index < threads) by (nonlinear_arith)
        requires
            threads * rows >= height,
            row < height,
            rows * index <= row,
            rows >= 1,
            index >= 0,
    ;
    assert(index as nat * rows_per_band_of(height, threads) == index * rows);
}

/// A band that is followed by a band with rows in it is a full band: only the
/// band that meets the bottom edge is shorter, and those after it are empty.
pub proof fn lemma_bands_before_last_are_full(height: nat, threads: nat, index: nat, later: nat)
    requires
        threads >= 1,
        index < later,
        band_height_of(height, threads, later) > 0,
    ensures
        band_height_of(height, threads, index) == rows_per_band_of(height, threads),
{
    let rows = rows_per_band_of(height, threads);
    assert((index + 1) * rows <= later * rows) by (nonlinear_arith)
        requires
            index + 1 <= later,
            0 <= rows,
    ;
    assert((index + 1) * rows == index * rows + rows) by (nonlinear_arith);
}

/// Computes the rows of a full band: `height / thread_count`, rounded up.
pub fn rows_per_band(height: usize, thread_count: usize) -> (rows: usize)
    requires
        thread_count >= 1,
    ensures
        rows == rows_per_band_of(height as nat, thread_count as nat),
{
    let whole: usize = height / thread_count;
    let over: usize = height % thread_count;
    proof {
        let h = height as int;
        let t = thread_count as int;
        vstd::arithmetic::div_mod::lemma_fundamental_div_mod(h, t);
        assert(t * (whole + 1) == t * whole + t) by (nonlinear_arith);
        if over == 0 {
            vstd::arithmetic::div_mod::lemma_fundamental_div_mod_converse(
                h + t - 1,
                t,
                whole as int,
                t - 1,
            );
        } else {
            vstd::arithmetic::div_mod::lemma_fundamental_div_mod_converse(
                h + t - 1,
                t,
                whole + 1,
                over - 1,
            );
            assert(whole < h) by (nonlinear_arith)
                requires
                    h == t * whole + over,
                    0 < over < t,
                    0 <= whole,
            ;
        }
    }
    if over == 0 {
        whole
    } else {
        whole + 1
    }
}

/// Cuts an image of `height` rows into `thread_count` bands, from the top down.
pub fn bands(height: usize, thread_count: usize) -> (plan: Vec<Band>)
    requires
        thread_count >= 1,
    ensures
        plan@.len() == thread_count,
        forall|index: int|
            0 <= index < thread_count ==> #[trigger] plan@[index] == band_of(
                height as nat,
                thread_count as nat,
                index as nat,
            ),
{
    let rows: usize = rows_per_band(height, thread_count);
    let mut plan: Vec<Band> = Vec::new();
    let mut top: usize = 0;
    let mut index: usize = 0;
    proof {
        assert(0 * rows == 0) by (nonlinear_arith);
    }
    while index < thread_count
        invariant
            thread_count >= 1,
            index <= thread_count,
            rows == rows_per_band_of(height as nat, thread_count as nat),
            top == band_top_of(height as nat, thread_count as nat, index as nat),
            top <= height,
            plan@.len() == index,
            forall|earlier: int|
                0 <= earlier < index ==> #[trigger] plan@[earlier] == band_of(
                    height as nat,
                    thread_count as nat,
                    earlier as nat,
                ),
        decreases thread_count - index,
    {
        let left: usize = height - top;
        let here: usize = if rows < left {
            rows
        } else {
            left
        };
        proof {
            lemma_band_ends_at_next_top(height as nat, thread_count as nat, index as nat);
        }
        plan.push(Band { top, height: here });
        top = top + here;
        index = index + 1;
    }
    plan
}

} // verus!
