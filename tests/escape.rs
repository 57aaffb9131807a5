use mandelbrot::escape::escape_count;
use num::Complex;

fn mandelbrot_escape(c: Complex<f64>, limit: usize) -> Option<usize> {
    let start = Complex { re: 0.0, im: 0.0 };
    escape_count(start, limit, |z: Complex<f64>| z.norm_sqr() > 4.0, |z: Complex<f64>| z * z + c)
}

#[test]
fn escape_count_finds_the_first_escaping_point() {
    assert_eq!(escape_count(0u32, 10, |x: u32| x >= 3, |x: u32| x + 1), Some(3));
    assert_eq!(escape_count(5u32, 10, |x: u32| x >= 3, |x: u32| x + 1), Some(0));
}

#[test]
fn escape_count_stops_at_the_limit() {
    assert_eq!(escape_count(0u32, 3, |x: u32| x >= 3, |x: u32| x + 1), None);
    assert_eq!(escape_count(0u32, 4, |x: u32| x >= 3, |x: u32| x + 1), Some(3));
    assert_eq!(escape_count(9u32, 0, |_x: u32| true, |x: u32| x), None);
}

#[test]
fn origin_never_escapes() {
    let origin = Complex { re: 0.0, im: 0.0 };
    for limit in [1usize, 2, 10, 255] {
        assert_eq!(mandelbrot_escape(origin, limit), None);
    }
}

#[test]
fn far_point_escapes_after_one_step() {
    assert_eq!(mandelbrot_escape(Complex { re: 5.0, im: 5.0 }, 255), Some(1));
}

#[test]
fn escape_count_repeats_its_result() {
    let c = Complex { re: -0.75, im: 0.1 };
    let first = mandelbrot_escape(c, 255);
    assert_eq!(mandelbrot_escape(c, 255), first);
    assert!(first.is_some());
}
