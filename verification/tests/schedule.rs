use mandelbrot::bands::bands;
use mandelbrot::escape::escape_time;
use mandelbrot::render::render;
use mandelbrot::schedule::{render_banded, split_bands};
use mandelbrot::shade::DEFAULT_LIMIT;

fn sample(bounds: (usize, usize), col: usize, row: usize) -> Option<u32> {
    let c = (
        -2.0 + col as f64 * 3.0 / bounds.0 as f64,
        1.25 - row as f64 * 2.5 / bounds.1 as f64,
    );
    escape_time((0.0, 0.0), DEFAULT_LIMIT, move |z: (f64, f64)| {
        let next = (z.0 * z.0 - z.1 * z.1 + c.0, z.0 * z.1 + z.1 * z.0 + c.1);
        (next, next.0 * next.0 + next.1 * next.1 > 4.0)
    })
}

#[test]
fn split_bands_hands_out_one_strip_per_band() {
    let mut pixels: Vec<u8> = (0..30).collect();
    let strips = split_bands(&mut pixels, (3, 10), 8);
    let lengths: Vec<usize> = strips.iter().map(|strip| strip.len()).collect();
    assert_eq!(lengths, vec![6, 6, 6, 6, 6, 0, 0, 0]);
    assert_eq!(*strips[0], [0, 1, 2, 3, 4, 5]);
    assert_eq!(*strips[1], [6, 7, 8, 9, 10, 11]);
    assert_eq!(*strips[4], [24, 25, 26, 27, 28, 29]);
}

#[test]
fn split_bands_follows_the_plan_of_bands() {
    for height in 0..20usize {
        for thread_count in 1..10usize {
            for width in 0..4usize {
                let mut pixels: Vec<u8> = (0..width * height).map(|k| k as u8).collect();
                let whole = pixels.clone();
                let plan = bands(height, thread_count);
                let strips = split_bands(&mut pixels, (width, height), thread_count);
                assert_eq!(strips.len(), thread_count);
                for (band, strip) in plan.iter().zip(strips.iter()) {
                    let from = band.top * width;
                    let to = (band.top + band.height) * width;
                    assert_eq!(**strip, whole[from..to]);
                }
            }
        }
    }
}

#[test]
fn writes_to_strips_land_in_the_buffer() {
    let mut pixels = vec![0u8; 14];
    {
        let mut strips = split_bands(&mut pixels, (2, 7), 3);
        assert_eq!(strips.len(), 3);
        for (index, strip) in strips.iter_mut().enumerate() {
            for pixel in strip.iter_mut() {
                *pixel = index as u8 + 1;
            }
        }
    }
    assert_eq!(pixels, vec![1, 1, 1, 1, 1, 1, 2, 2, 2, 2, 2, 2, 3, 3]);
}

#[test]
fn strips_rendered_out_of_order_give_the_same_image() {
    let bounds = (6, 5);
    let mut whole = vec![0u8; 30];
    render(&mut whole, bounds, |col, row| sample(bounds, col, row));

    let mut pixels = vec![0u8; 30];
    {
        let plan = bands(bounds.1, 3);
        let strips = split_bands(&mut pixels, bounds, 3);
        let mut work: Vec<_> = plan.into_iter().zip(strips).collect();
        work.swap(0, 2);
        for (band, strip) in work {
            render(strip, (bounds.0, band.height), |col, row| sample(bounds, col, band.top + row));
        }
    }
    assert_eq!(pixels, whole);
}

#[test]
fn banded_render_matches_render_in_one_piece() {
    let bounds = (6, 5);
    let mut whole = vec![0u8; 30];
    render(&mut whole, bounds, |col, row| sample(bounds, col, row));
    assert_eq!(
        whole,
        vec![
            255, 254, 254, 253, 254, 254, 255, 253, 253, 250, 222, 253, 255, 251, 255, 255, 255,
            251, 255, 251, 255, 255, 255, 251, 255, 253, 253, 250, 222, 253
        ]
    );
    for thread_count in 1..=9 {
        let mut banded = vec![0u8; 30];
        render_banded(&mut banded, bounds, thread_count, |col, row| sample(bounds, col, row));
        assert_eq!(banded, whole);
    }
}

#[test]
fn banded_render_matches_for_many_shapes() {
    for width in 0..6usize {
        for height in 0..9usize {
            let bounds = (width, height);
            let evaluate = |col: usize, row: usize| Some((7 * row + 3 * col) as u32);
            let mut whole = vec![1u8; width * height];
            render(&mut whole, bounds, evaluate);
            for thread_count in 1..=10 {
                let mut banded = vec![2u8; width * height];
                render_banded(&mut banded, bounds, thread_count, evaluate);
                assert_eq!(banded, whole);
            }
        }
    }
}

#[test]
fn banded_render_evaluates_each_pixel_once() {
    let calls = std::cell::RefCell::new(vec![0u32; 12]);
    let mut pixels = vec![0u8; 12];
    render_banded(&mut pixels, (3, 4), 3, |col, row| {
        calls.borrow_mut()[row * 3 + col] += 1;
        None
    });
    assert_eq!(calls.into_inner(), vec![1; 12]);
    assert_eq!(pixels, vec![255; 12]);
}
