use mandelbrot::bands::{bands, rows_per_band, Band, DEFAULT_THREADS};

#[test]
fn rows_per_band_rounds_up() {
    assert_eq!(rows_per_band(750, 8), 94);
    assert_eq!(rows_per_band(16, 8), 2);
    assert_eq!(rows_per_band(17, 8), 3);
    assert_eq!(rows_per_band(10, 8), 2);
    assert_eq!(rows_per_band(7, 8), 1);
    assert_eq!(rows_per_band(1, 8), 1);
    assert_eq!(rows_per_band(0, 8), 0);
    assert_eq!(rows_per_band(9, 1), 9);
    assert_eq!(rows_per_band(9, 9), 1);
    assert_eq!(rows_per_band(9, 10), 1);
}

#[test]
fn rows_per_band_stays_in_range_at_the_limits() {
    assert_eq!(rows_per_band(usize::MAX, 1), usize::MAX);
    assert_eq!(rows_per_band(usize::MAX, 2), usize::MAX / 2 + 1);
    assert_eq!(rows_per_band(usize::MAX, usize::MAX), 1);
    assert_eq!(rows_per_band(usize::MAX - 1, usize::MAX), 1);
    assert_eq!(rows_per_band(0, usize::MAX), 0);
}

#[test]
fn bands_divide_an_even_height_evenly() {
    let plan = bands(16, 8);
    assert_eq!(plan.len(), 8);
    for (index, band) in plan.iter().enumerate() {
        assert_eq!(*band, Band { top: 2 * index, height: 2 });
    }
}

#[test]
fn last_band_with_rows_takes_the_remainder() {
    assert_eq!(
        bands(750, 8),
        vec![
            Band { top: 0, height: 94 },
            Band { top: 94, height: 94 },
            Band { top: 188, height: 94 },
            Band { top: 282, height: 94 },
            Band { top: 376, height: 94 },
            Band { top: 470, height: 94 },
            Band { top: 564, height: 94 },
            Band { top: 658, height: 92 },
        ]
    );
    assert_eq!(
        bands(7, 3),
        vec![
            Band { top: 0, height: 3 },
            Band { top: 3, height: 3 },
            Band { top: 6, height: 1 },
        ]
    );
}

#[test]
fn bands_past_the_bottom_edge_are_empty() {
    assert_eq!(
        bands(10, 8),
        vec![
            Band { top: 0, height: 2 },
            Band { top: 2, height: 2 },
            Band { top: 4, height: 2 },
            Band { top: 6, height: 2 },
            Band { top: 8, height: 2 },
            Band { top: 10, height: 0 },
            Band { top: 10, height: 0 },
            Band { top: 10, height: 0 },
        ]
    );
    assert_eq!(
        bands(2, 4),
        vec![
            Band { top: 0, height: 1 },
            Band { top: 1, height: 1 },
            Band { top: 2, height: 0 },
            Band { top: 2, height: 0 },
        ]
    );
}

#[test]
fn an_image_without_rows_has_only_empty_bands() {
    assert_eq!(bands(0, 3), vec![Band { top: 0, height: 0 }; 3]);
}

#[test]
fn one_worker_gets_the_whole_image() {
    assert_eq!(bands(750, 1), vec![Band { top: 0, height: 750 }]);
    assert_eq!(bands(usize::MAX, 1), vec![Band { top: 0, height: usize::MAX }]);
}

#[test]
fn bands_cover_every_row_once() {
    for height in 0..40usize {
        for thread_count in 1..12usize {
            let plan = bands(height, thread_count);
            assert_eq!(plan.len(), thread_count);
            let mut next_row = 0;
            for band in &plan {
                assert_eq!(band.top, next_row);
                next_row += band.height;
            }
            assert_eq!(next_row, height);
            assert_eq!(plan.iter().map(|band| band.height).sum::<usize>(), height);
            for row in 0..height {
                let holders = plan
                    .iter()
                    .filter(|band| band.top <= row && row < band.top + band.height)
                    .count();
                assert_eq!(holders, 1);
            }
        }
    }
}

#[test]
fn only_the_last_band_with_rows_is_short() {
    for height in 0..40usize {
        for thread_count in 1..12usize {
            let rows = rows_per_band(height, thread_count);
            let plan = bands(height, thread_count);
            for (index, band) in plan.iter().enumerate() {
                assert!(band.height <= rows);
                let followed = plan[index + 1..].iter().any(|later| later.height > 0);
                if followed {
                    assert_eq!(band.height, rows);
                }
            }
        }
    }
}

#[test]
fn bands_near_the_largest_height_do_not_overflow() {
    let plan = bands(usize::MAX, 3);
    let rows = usize::MAX / 3;
    assert_eq!(
        plan,
        vec![
            Band { top: 0, height: rows },
            Band { top: rows, height: rows },
            Band { top: 2 * rows, height: rows },
        ]
    );
    let uneven = bands(usize::MAX - 1, 2);
    assert_eq!(
        uneven,
        vec![
            Band { top: 0, height: usize::MAX / 2 },
            Band { top: usize::MAX / 2, height: usize::MAX / 2 },
        ]
    );
}

#[test]
fn corners_span_the_band_across_the_full_width() {
    let band = Band { top: 94, height: 94 };
    assert_eq!(band.corners(1000), ((0, 94), (1000, 188)));
    let empty = Band { top: 10, height: 0 };
    assert_eq!(empty.corners(7), ((0, 10), (7, 10)));
    let first = bands(750, 8)[0];
    assert_eq!(first.corners(1000), ((0, 0), (1000, 94)));
    let last = bands(750, 8)[7];
    assert_eq!(last.corners(1000), ((0, 658), (1000, 750)));
}

#[test]
fn default_worker_count_is_eight() {
    assert_eq!(DEFAULT_THREADS, 8);
}
