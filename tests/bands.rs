use mandelbrot::bands::{partition_rows, render, render_image, rows_per_band, shade, Band};

fn render_all(width: usize, height: usize, threads: usize, classify: &dyn Fn(usize, usize) -> Option<u32>) -> Vec<u8> {
    let mut pixels = vec![0u8; width * height];
    let mut rest: &mut [u8] = &mut pixels;
    for band in partition_rows(height, threads) {
        let (mine, others) = rest.split_at_mut(band.rows * width);
        render(mine, width, band, &classify);
        rest = others;
    }
    assert!(rest.is_empty());
    pixels
}

fn escape_time(re: f64, im: f64, limit: u32) -> Option<u32> {
    let (mut zr, mut zi) = (0.0f64, 0.0f64);
    for i in 0..limit {
        let t = zr * zr - zi * zi + re;
        zi = 2.0 * zr * zi + im;
        zr = t;
        if zr * zr + zi * zi > 4.0 {
            return Some(i);
        }
    }
    None
}

fn mandelbrot_classifier(width: usize, height: usize) -> impl Fn(usize, usize) -> Option<u32> {
    let (ul_re, ul_im, lr_re, lr_im) = (-1.20f64, 0.35f64, -1.0f64, 0.20f64);
    move |x: usize, y: usize| {
        let re = ul_re + x as f64 * (lr_re - ul_re) / width as f64;
        let im = ul_im - y as f64 * (ul_im - lr_im) / height as f64;
        escape_time(re, im, 255)
    }
}

#[test]
fn shade_maps_escape_counts() {
    assert_eq!(shade(None), 0);
    assert_eq!(shade(Some(0)), 255);
    assert_eq!(shade(Some(10)), 245);
    assert_eq!(shade(Some(254)), 1);
    assert_eq!(shade(Some(255)), 0);
    assert_eq!(shade(Some(1000)), 0);
}

#[test]
fn rows_per_band_is_ceiling() {
    assert_eq!(rows_per_band(75, 4), 19);
    assert_eq!(rows_per_band(16, 8), 2);
    assert_eq!(rows_per_band(3, 8), 1);
    assert_eq!(rows_per_band(1, 1), 1);
    assert_eq!(rows_per_band(0, 8), 0);
}

#[test]
fn fewer_rows_than_workers_gives_one_row_bands() {
    let bands = partition_rows(3, 8);
    assert_eq!(
        bands,
        vec![
            Band { top: 0, rows: 1 },
            Band { top: 1, rows: 1 },
            Band { top: 2, rows: 1 }
        ]
    );
}

#[test]
fn bands_cover_every_row_once() {
    for height in 1..60usize {
        for threads in 1..12usize {
            let bands = partition_rows(height, threads);
            assert!(!bands.is_empty() && bands.len() <= threads);
            let mut next = 0;
            for b in &bands {
                assert_eq!(b.top, next);
                assert!(b.rows >= 1);
                next = b.top + b.rows;
            }
            assert_eq!(next, height);
        }
    }
}

#[test]
fn last_band_may_be_shorter() {
    let bands = partition_rows(75, 4);
    assert_eq!(
        bands,
        vec![
            Band { top: 0, rows: 19 },
            Band { top: 19, rows: 19 },
            Band { top: 38, rows: 19 },
            Band { top: 57, rows: 18 }
        ]
    );
}

#[test]
fn single_worker_gets_whole_image() {
    assert_eq!(partition_rows(75, 1), vec![Band { top: 0, rows: 75 }]);
}

#[test]
fn empty_image_has_no_bands() {
    assert!(partition_rows(0, 8).is_empty());
}

#[test]
fn render_writes_rows_in_order() {
    let mut pixels = vec![7u8; 6];
    let classify = |x: usize, y: usize| Some((10 * y + x) as u32);
    render(&mut pixels, 3, Band { top: 4, rows: 2 }, &classify);
    assert_eq!(pixels, vec![255 - 40, 255 - 41, 255 - 42, 255 - 50, 255 - 51, 255 - 52]);
}

#[test]
fn render_marks_members_black() {
    let mut pixels = vec![9u8; 4];
    render(&mut pixels, 2, Band { top: 0, rows: 2 }, &|_x: usize, _y: usize| None);
    assert_eq!(pixels, vec![0, 0, 0, 0]);
}

#[test]
fn one_and_eight_workers_give_identical_bytes() {
    let classify = mandelbrot_classifier(100, 75);
    let one = render_all(100, 75, 1, &classify);
    let eight = render_all(100, 75, 8, &classify);
    assert_eq!(one, eight);
}

#[test]
fn end_to_end_corners() {
    let classify = mandelbrot_classifier(100, 75);
    let pixels = render_all(100, 75, 4, &classify);
    assert_eq!(pixels.len(), 7500);
    assert_eq!(pixels[0], shade(escape_time(-1.20, 0.35, 255)));
    let re = -1.20 + 99.0 * (-1.0 - -1.20) / 100.0;
    let im = 0.35 - 74.0 * (0.35 - 0.20) / 75.0;
    assert_eq!(pixels[74 * 100 + 99], shade(escape_time(re, im, 255)));
}

#[test]
fn far_points_escape_at_once() {
    let mut pixels = vec![0u8; 1];
    render(&mut pixels, 1, Band { top: 0, rows: 1 }, &|_x: usize, _y: usize| escape_time(3.0, 0.0, 255));
    assert_eq!(pixels, vec![255]);
}

#[test]
fn whole_image_render_matches_band_by_band() {
    let classify = mandelbrot_classifier(100, 75);
    let by_bands = render_all(100, 75, 4, &classify);
    let mut whole = vec![0u8; 7500];
    render_image(&mut whole, 100, 75, 4, &classify);
    assert_eq!(whole, by_bands);
}

#[test]
fn whole_image_render_ignores_worker_count() {
    let classify = |x: usize, y: usize| if (x + y) % 3 == 0 { None } else { Some((x * y) as u32) };
    let mut one = vec![0u8; 7 * 5];
    let mut eight = vec![1u8; 7 * 5];
    render_image(&mut one, 7, 5, 1, &classify);
    render_image(&mut eight, 7, 5, 8, &classify);
    assert_eq!(one, eight);
    assert_eq!(one[0], 0);
    assert_eq!(one[7 * 4 + 6], shade(Some(24)));
}
