use tnt_comput::mnist::{dilate, ensure_white_on_black, foreground_bbox, GrayImg};

fn img(w: usize, h: usize, f: impl Fn(usize, usize) -> u8) -> GrayImg {
    GrayImg { width: w, rows: (0..h).map(|y| (0..w).map(|x| f(y, x)).collect()).collect() }
}

#[test]
fn white_background_is_inverted() {
    let src = img(5, 4, |y, x| if y == 2 && x == 2 { 0 } else { 250 });
    let out = ensure_white_on_black(&src);
    assert_eq!(out.width, 5);
    assert_eq!(out.rows.len(), 4);
    assert_eq!(out.rows[2][2], 255);
    assert_eq!(out.rows[0][0], 5);
}

#[test]
fn dark_background_is_kept() {
    let src = img(5, 4, |y, x| if y == 2 && x == 2 { 255 } else { 10 });
    let out = ensure_white_on_black(&src);
    assert_eq!(out.rows, src.rows);
}

#[test]
fn border_mean_of_exactly_127_is_kept() {
    // border mean 127 is not above 127
    let src = img(3, 3, |_, _| 127);
    assert_eq!(ensure_white_on_black(&src).rows, src.rows);
    let src = img(3, 3, |_, _| 128);
    assert_eq!(ensure_white_on_black(&src).rows[1][1], 127);
}

#[test]
fn border_mean_is_taken_in_single_precision() {
    // 131072 x 2, all 127 but one top pixel of 128: the border mean is
    // 127 + 1/262148, above 127, but in single precision the sum rounds to
    // 127 * 262148 and the mean to exactly 127, so the image is kept
    let (w, h) = (131072usize, 2usize);
    let src = img(w, h, |y, x| if y == 0 && x == 5 { 128 } else { 127 });
    let sum: u64 = 127 * (2 * w as u64 + 2 * h as u64) + 1;
    let n: u64 = 2 * w as u64 + 2 * h as u64;
    assert!(!((sum as f32) / (n as f32) > 127.0));
    assert!(sum > 127 * n);
    assert_eq!(ensure_white_on_black(&src).rows, src.rows);
    // two more bright pixels push the single-precision mean over 127
    let src = img(w, h, |y, x| if y == 0 && (5..8).contains(&x) { 128 } else { 127 });
    assert!(((sum + 2) as f32) / (n as f32) > 127.0);
    assert_eq!(ensure_white_on_black(&src).rows[1][1], 128);
}

#[test]
fn empty_image_is_returned_unchanged() {
    let src = GrayImg { width: 0, rows: vec![Vec::new(), Vec::new()] };
    let out = ensure_white_on_black(&src);
    assert_eq!(out.width, 0);
    assert_eq!(out.rows.len(), 2);
}

#[test]
fn dilate_grows_a_point_into_a_square() {
    let src = img(5, 5, |y, x| if y == 2 && x == 2 { 200 } else { 0 });
    let out = dilate(&src, 1);
    for y in 0..5 {
        for x in 0..5 {
            let inside = (1..=3).contains(&y) && (1..=3).contains(&x);
            assert_eq!(out.rows[y][x], if inside { 200 } else { 0 });
        }
    }
    let twice = dilate(&src, 2);
    assert!(twice.rows.iter().all(|r| r.iter().all(|&v| v == 200)));
}

#[test]
fn dilate_zero_times_copies() {
    let src = img(3, 2, |y, x| (y * 3 + x) as u8);
    assert_eq!(dilate(&src, 0).rows, src.rows);
}

#[test]
fn dilate_takes_neighbourhood_maximum() {
    let src = img(3, 1, |_, x| [10u8, 50, 30][x]);
    assert_eq!(dilate(&src, 1).rows, vec![vec![50, 50, 50]]);
}

#[test]
fn bbox_of_foreground() {
    let src = img(6, 5, |y, x| if (y == 1 && x == 4) || (y == 3 && x == 2) { 90 } else { 40 });
    assert_eq!(foreground_bbox(&src, 50), Some((2, 1, 4, 3)));
    assert_eq!(foreground_bbox(&src, 90), None);
    assert_eq!(foreground_bbox(&src, 30), Some((0, 0, 5, 4)));
}

struct Lcg(u64);

impl Lcg {
    fn below(&mut self, n: usize) -> usize {
        self.0 = self.0.wrapping_mul(6364136223846793005).wrapping_add(1442695040888963407);
        ((self.0 >> 33) % n as u64) as usize
    }
}

/// The polarity fix on an `image` buffer, as it reads with that crate.
fn polarity_by_image(img: &image::GrayImage) -> image::GrayImage {
    let (w, h) = img.dimensions();
    if w == 0 || h == 0 {
        return img.clone();
    }
    let (mut sum, mut n) = (0u64, 0u64);
    for x in 0..w {
        sum += img.get_pixel(x, 0).0[0] as u64;
        sum += img.get_pixel(x, h - 1).0[0] as u64;
        n += 2;
    }
    for y in 0..h {
        sum += img.get_pixel(0, y).0[0] as u64;
        sum += img.get_pixel(w - 1, y).0[0] as u64;
        n += 2;
    }
    if sum as f32 / n as f32 > 127.0 {
        let mut out = img.clone();
        for p in out.pixels_mut() {
            p.0[0] = 255 - p.0[0];
        }
        out
    } else {
        img.clone()
    }
}

/// The 3x3 maximum filter on an `image` buffer, as it reads with that crate.
fn dilate_by_image(img: &image::GrayImage, times: u32) -> image::GrayImage {
    let mut current = img.clone();
    for _ in 0..times {
        let (w, h) = current.dimensions();
        let mut out = image::GrayImage::new(w, h);
        for y in 0..h {
            for x in 0..w {
                let mut max_val = 0u8;
                for dy in -1i32..=1 {
                    for dx in -1i32..=1 {
                        let (nx, ny) = (x as i32 + dx, y as i32 + dy);
                        if nx >= 0 && ny >= 0 && (nx as u32) < w && (ny as u32) < h {
                            max_val = max_val.max(current.get_pixel(nx as u32, ny as u32).0[0]);
                        }
                    }
                }
                out.put_pixel(x, y, image::Luma([max_val]));
            }
        }
        current = out;
    }
    current
}

fn to_buffer(g: &GrayImg) -> image::GrayImage {
    let mut out = image::GrayImage::new(g.width as u32, g.rows.len() as u32);
    for (y, row) in g.rows.iter().enumerate() {
        for (x, v) in row.iter().enumerate() {
            out.put_pixel(x as u32, y as u32, image::Luma([*v]));
        }
    }
    out
}

#[test]
fn agrees_with_the_image_crate_on_random_images() {
    let mut r = Lcg(11);
    for _ in 0..400 {
        let (w, h) = (r.below(12), r.below(12));
        let base = r.below(256);
        let spread = 1 + r.below(40);
        let src = img(w, h, |_, _| 0);
        let mut src = src;
        for row in src.rows.iter_mut() {
            for v in row.iter_mut() {
                *v = ((base + r.below(spread)) % 256) as u8;
            }
        }
        let buf = to_buffer(&src);
        assert_eq!(to_buffer(&ensure_white_on_black(&src)), polarity_by_image(&buf));
        let times = r.below(4) as u32;
        assert_eq!(to_buffer(&dilate(&src, times)), dilate_by_image(&buf, times));
    }
}

#[test]
fn dilation_passes_compose() {
    let src = img(9, 7, |y, x| if (y * 7 + x * 3) % 11 == 0 { (40 * y + 13 * x) as u8 } else { 0 });
    for a in 0..3u32 {
        for b in 0..3u32 {
            assert_eq!(dilate(&dilate(&src, a), b).rows, dilate(&src, a + b).rows, "{} then {}", a, b);
        }
    }
}
