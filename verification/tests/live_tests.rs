use tnt_comput::geom::Rect;
use tnt_comput::geom::{BgrPlanes, Point};
use tnt_comput::live::{detect_camera_frame, dots_changed, find_dots_by_color_and_edge};

struct Lcg(u64);

impl Lcg {
    fn below(&mut self, n: usize) -> usize {
        self.0 = self.0.wrapping_mul(6364136223846793005).wrapping_add(1442695040888963407);
        ((self.0 >> 33) % n as u64) as usize
    }
}

fn outline(g: &mut Vec<Vec<u8>>, x0: usize, y0: usize, bw: usize, bh: usize, v: u8) {
    let (w, h) = (g[0].len(), g.len());
    for x in x0..(x0 + bw + 1).min(w) {
        if y0 < h {
            g[y0][x] = v;
        }
        if y0 + bh < h {
            g[y0 + bh][x] = v;
        }
    }
    for y in y0..(y0 + bh + 1).min(h) {
        if x0 < w {
            g[y][x0] = v;
        }
        if x0 + bw < w {
            g[y][x0 + bw] = v;
        }
    }
}

/// A noisy dark image with one to five bright rectangle outlines.
fn scene(seed: u64) -> (usize, usize, Vec<Vec<u8>>) {
    let mut r = Lcg(seed);
    let w = 120 + r.below(100);
    let h = 80 + r.below(80);
    let mut g: Vec<Vec<u8>> = Vec::new();
    for _ in 0..h {
        let mut row = Vec::new();
        for _ in 0..w {
            row.push((40 + r.below(25)) as u8);
        }
        g.push(row);
    }
    let n = 1 + r.below(5);
    for _ in 0..n {
        let bw = 60 + r.below(70);
        let bh = 40 + r.below(50);
        let x0 = r.below(if w > bw { w - bw } else { 1 });
        let y0 = r.below(if h > bh { h - bh } else { 1 });
        let v = (100 + r.below(150)) as u8;
        outline(&mut g, x0, y0, bw, bh, v);
    }
    (w, h, g)
}

fn rect(x: i32, y: i32, width: i32, height: i32) -> Rect {
    Rect { x, y, width, height }
}

#[test]
fn single_outline_is_found_at_its_strongest_edges() {
    let mut g = vec![vec![30u8; 150]; 100];
    outline(&mut g, 20, 15, 90, 60, 200);
    // the strongest column steps lie just left of the left side and just
    // right of the right side; likewise for the rows
    assert_eq!(detect_camera_frame(&g, 150, 100), rect(19, 14, 91, 61));
}

#[test]
fn flat_or_tiny_images_give_the_empty_box() {
    assert_eq!(detect_camera_frame(&vec![vec![90u8; 200]; 120], 200, 120), rect(0, 0, 0, 0));
    assert_eq!(detect_camera_frame(&vec![vec![7u8; 5]; 5], 5, 5), rect(0, 0, 0, 0));
    // an outline too small for a frame
    let mut g = vec![vec![30u8; 150]; 100];
    outline(&mut g, 20, 15, 40, 30, 200);
    assert_eq!(detect_camera_frame(&g, 150, 100), rect(0, 0, 0, 0));
}

#[test]
fn frame_size_limits() {
    for (bw, bh, found) in [(79usize, 60usize, true), (78, 60, false), (109, 60, true), (110, 60, false), (90, 54, true), (90, 53, false), (90, 74, true), (90, 75, false)] {
        let mut g = vec![vec![30u8; 180]; 120];
        outline(&mut g, 20, 15, bw, bh, 200);
        let r = detect_camera_frame(&g, 180, 120);
        if found {
            assert_eq!(r, rect(19, 14, bw as i32 + 1, bh as i32 + 1));
        } else {
            assert_eq!(r, rect(0, 0, 0, 0));
        }
    }
}

#[test]
fn camera_frame_by_edges_on_random_images() {
    // (x, y, width, height) found on the image of each seed 1..=60
    let expected: Vec<(i32, i32, i32, i32)> = vec![
        (29, 55, 104, 68), (50, 23, 89, 58), (61, 29, 86, 69), (44, 20, 93, 65), (65, 10, 101, 72), (16, 56, 96, 66),
        (70, 28, 97, 75), (48, 31, 106, 75), (19, 5, 86, 65), (31, 21, 82, 55), (41, 19, 83, 58), (18, 17, 86, 57),
        (25, 8, 110, 69), (37, 75, 81, 57), (59, 50, 97, 58), (64, 7, 83, 58), (13, 39, 90, 56), (29, 11, 104, 64),
        (86, 69, 81, 56), (19, 18, 100, 69), (15, 23, 93, 62), (27, 34, 91, 63), (49, 55, 88, 55), (20, 7, 107, 65),
        (84, 7, 90, 75), (30, 10, 89, 58), (49, 13, 104, 74), (15, 7, 100, 67), (8, 50, 101, 55), (43, 26, 89, 69),
        (29, 10, 110, 56), (0, 0, 0, 0), (38, 17, 100, 57), (31, 21, 86, 64), (14, 22, 82, 68), (28, 30, 86, 56),
        (111, 29, 81, 58), (29, 15, 101, 57), (27, 37, 81, 55), (15, 14, 87, 68), (39, 38, 92, 71), (44, 18, 97, 55),
        (32, 33, 80, 64), (31, 42, 95, 59), (37, 12, 94, 56), (34, 32, 102, 67), (86, 51, 96, 60), (61, 11, 82, 73),
        (6, 13, 94, 69), (16, 10, 90, 59), (22, 49, 82, 56), (6, 29, 110, 68), (75, 12, 107, 67), (49, 10, 97, 67),
        (25, 42, 85, 74), (37, 18, 90, 69), (59, 30, 97, 63), (23, 17, 90, 55), (0, 0, 0, 0), (5, 9, 103, 67),
    ];
    for (i, e) in expected.iter().enumerate() {
        let (w, h, g) = scene(i as u64 + 1);
        let r = detect_camera_frame(&g, w, h);
        assert_eq!((r.x, r.y, r.width, r.height), *e, "seed {}", i + 1);
        assert!(r == rect(0, 0, 0, 0) || (80 <= r.width && r.width <= 110 && 55 <= r.height && r.height <= 75));
    }
}

fn planes(w: usize, h: usize, f: impl Fn(usize, usize) -> u8) -> BgrPlanes {
    let p: Vec<Vec<u8>> = (0..h).map(|y| (0..w).map(|x| f(y, x)).collect()).collect();
    BgrPlanes { b: p.clone(), g: p.clone(), r: p }
}

fn pt(x: i32, y: i32) -> Point {
    Point { x, y }
}

#[test]
fn dots_by_size_shape_and_outline() {
    let p = planes(20, 20, |_, _| 0);
    let boxes = vec![
        rect(5, 5, 4, 4),   // a dot
        rect(10, 10, 3, 5), // too narrow: 3:5 is below 7:10
        rect(1, 1, 5, 4),   // near the border is fine here
        rect(12, 2, 2, 7),  // 14 pixels: too small
        rect(3, 12, 7, 5),  // 7:5 is not below 7:5
        rect(14, 14, 5, 5), // 25 pixels, square
    ];
    assert_eq!(find_dots_by_color_and_edge(&p, &boxes), vec![pt(7, 7), pt(3, 3), pt(16, 16)]);
    let bright = planes(20, 20, |_, _| 200);
    assert_eq!(find_dots_by_color_and_edge(&bright, &boxes), vec![]);
}

#[test]
fn dot_needs_fifteen_percent_dark_outline() {
    // box (5, 5, 4, 4): its ring runs over columns and rows 4..=10, 33 pixels
    let ring: Vec<(usize, usize)> = vec![(4, 4), (4, 5), (4, 6), (4, 7), (4, 8)];
    let five = planes(20, 20, |y, x| if ring.contains(&(y, x)) { 0 } else { 200 });
    assert_eq!(find_dots_by_color_and_edge(&five, &vec![rect(5, 5, 4, 4)]), vec![pt(7, 7)]);
    let four = planes(20, 20, |y, x| if ring[..4].contains(&(y, x)) { 0 } else { 200 });
    assert_eq!(find_dots_by_color_and_edge(&four, &vec![rect(5, 5, 4, 4)]), vec![]);
}

#[test]
fn live_reader_reports_changes_and_every_third_frame() {
    let prev = vec![pt(10, 10), pt(50, 40)];
    // nothing moved by more than 2 pixels and the frame is not a third one
    assert!(!dots_changed(&prev, &vec![pt(12, 8), pt(50, 42)], 3, 3, 4));
    // a player moved by 3 pixels along one axis
    assert!(dots_changed(&prev, &vec![pt(10, 10), pt(53, 40)], 3, 3, 4));
    assert!(dots_changed(&prev, &vec![pt(10, 7), pt(50, 40)], 3, 3, 4));
    // a player appeared, or an enemy vanished
    assert!(dots_changed(&prev, &vec![pt(10, 10), pt(50, 40), pt(1, 1)], 3, 3, 4));
    assert!(dots_changed(&prev, &prev, 3, 2, 4));
    // every third frame is reported anyway
    assert!(dots_changed(&prev, &prev, 3, 3, 6));
    assert!(dots_changed(&vec![], &vec![], 0, 0, 0));
    assert!(!dots_changed(&vec![], &vec![], 0, 0, 5));
}
