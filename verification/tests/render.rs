use mandelbrot::escape::escape_time;
use mandelbrot::render::render;
use mandelbrot::shade::{intensity, DEFAULT_LIMIT};

fn point_of(bounds: (usize, usize), pixel: (usize, usize), corners: [(f64, f64); 2]) -> (f64, f64) {
    let [upper_left, lower_right] = corners;
    let width = lower_right.0 - upper_left.0;
    let height = upper_left.1 - lower_right.1;
    (
        upper_left.0 + pixel.0 as f64 * width / bounds.0 as f64,
        upper_left.1 - pixel.1 as f64 * height / bounds.1 as f64,
    )
}

fn time_of(c: (f64, f64)) -> Option<u32> {
    escape_time((0.0, 0.0), DEFAULT_LIMIT, move |z: (f64, f64)| {
        let next = (z.0 * z.0 - z.1 * z.1 + c.0, z.0 * z.1 + z.1 * z.0 + c.1);
        (next, next.0 * next.0 + next.1 * next.1 > 4.0)
    })
}

#[test]
fn render_fills_a_small_image_around_the_origin() {
    let bounds = (4, 4);
    let corners = [(-1.0, 1.0), (1.0, -1.0)];
    let mut pixels = vec![0u8; 16];
    render(&mut pixels, bounds, |col, row| time_of(point_of(bounds, (col, row), corners)));
    assert_eq!(pixels.len(), 16);
    assert_eq!(
        pixels,
        vec![253, 252, 255, 254, 251, 255, 255, 251, 255, 255, 255, 251, 251, 255, 255, 251]
    );
    assert_eq!(pixels[2 * 4 + 2], 255);
}

#[test]
fn render_writes_each_pixel_at_row_times_width_plus_column() {
    let mut pixels = vec![0u8; 12];
    render(&mut pixels, (4, 3), |col, row| Some((10 * row + col) as u32));
    assert_eq!(pixels, vec![255, 254, 253, 252, 245, 244, 243, 242, 235, 234, 233, 232]);
    for row in 0..3 {
        for col in 0..4 {
            assert_eq!(pixels[row * 4 + col], intensity(Some((10 * row + col) as u32)));
        }
    }
}

#[test]
fn render_overwrites_what_the_buffer_held() {
    let mut pixels = vec![17u8; 6];
    render(&mut pixels, (3, 2), |_, _| None);
    assert_eq!(pixels, vec![255; 6]);
    render(&mut pixels, (2, 3), |_, _| Some(255));
    assert_eq!(pixels, vec![0; 6]);
}

#[test]
fn render_saturates_late_escapes() {
    let mut pixels = vec![9u8; 4];
    render(&mut pixels, (4, 1), |col, _| Some(253 + col as u32));
    assert_eq!(pixels, vec![2, 1, 0, 0]);
}

#[test]
fn render_of_an_empty_strip_calls_nothing() {
    let mut none: Vec<u8> = Vec::new();
    render(&mut none, (0, 0), |_, _| panic!("no pixel to evaluate"));
    render(&mut none, (5, 0), |_, _| panic!("no pixel to evaluate"));
    render(&mut none, (0, 5), |_, _| panic!("no pixel to evaluate"));
    assert!(none.is_empty());
}

#[test]
fn render_visits_pixels_in_row_major_order() {
    let seen = std::cell::RefCell::new(Vec::new());
    let mut pixels = vec![0u8; 6];
    render(&mut pixels, (3, 2), |col, row| {
        seen.borrow_mut().push((col, row));
        None
    });
    assert_eq!(seen.into_inner(), vec![(0, 0), (1, 0), (2, 0), (0, 1), (1, 1), (2, 1)]);
}

#[test]
fn render_takes_a_strip_of_a_larger_buffer() {
    let mut pixels = vec![7u8; 10];
    render(&mut pixels[2..8], (3, 2), |col, row| Some((row * 3 + col) as u32));
    assert_eq!(pixels, vec![7, 7, 255, 254, 253, 252, 251, 250, 7, 7]);
}
