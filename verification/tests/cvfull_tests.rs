use tnt_comput::cvfull::{
    cluster_points, cluster_sums_fit, detect_camera_frame, find_dots_by_color_and_edge, green_frame_width, keep_within,
};
use tnt_comput::geom::{dark_ring, BgrPlanes, Point, Rect};

fn pt(x: i32, y: i32) -> Point {
    Point { x, y }
}

fn r(x: i32, y: i32, width: i32, height: i32) -> Rect {
    Rect { x, y, width, height }
}

fn planes(w: usize, h: usize, f: impl Fn(usize, usize) -> u8) -> BgrPlanes {
    let p: Vec<Vec<u8>> = (0..h).map(|y| (0..w).map(|x| f(y, x)).collect()).collect();
    BgrPlanes { b: p.clone(), g: p.clone(), r: p }
}

#[test]
fn clusters_merge_close_points() {
    let pts = vec![pt(0, 0), pt(100, 100), pt(5, 5), pt(13, 13), pt(30, 0)];
    // (13, 13) is within 8 of (5, 5), so it joins the first cluster
    assert_eq!(cluster_points(&pts, 8), vec![pt(6, 6), pt(100, 100), pt(30, 0)]);
    assert_eq!(cluster_points(&Vec::new(), 8), vec![]);
    // a chain of close points is one cluster; its centroid is rounded down
    assert_eq!(cluster_points(&vec![pt(0, 0), pt(3, 0), pt(6, 1)], 3), vec![pt(3, 0)]);
}

#[test]
fn dots_with_dark_outline() {
    let p = planes(50, 50, |_, _| 0);
    let rects = vec![r(20, 20, 5, 5), r(25, 20, 5, 5), r(40, 40, 5, 5), r(2, 20, 5, 5), r(10, 10, 3, 3)];
    // the second is within 10 pixels of the first, the fourth is at the border, the last too small
    assert_eq!(find_dots_by_color_and_edge(&p, &rects), vec![pt(22, 22), pt(42, 42)]);
}

#[test]
fn dots_need_a_dark_outline() {
    let p = planes(50, 50, |_, _| 200);
    assert_eq!(find_dots_by_color_and_edge(&p, &vec![r(20, 20, 5, 5)]), vec![]);
}

#[test]
fn ring_counts() {
    // 10x10 image, dark except the column x = 4
    let p = planes(10, 10, |_, x| if x == 4 { 255 } else { 0 });
    // box (3, 3, 2, 2) with margin 1: window x, y in 2..=6 (5x5) minus the 2x2 box;
    // three ring pixels of the bright column are not dark
    assert_eq!(dark_ring(&p, r(3, 3, 2, 2), 1, 100), (18, 21));
    // clipped at the corner: window 0..=3 x 0..=3 minus the box
    assert_eq!(dark_ring(&p, r(0, 0, 2, 2), 1, 100), (12, 12));
}

#[test]
fn camera_frame_from_outlines() {
    let rects = vec![r(0, 0, 30, 30), r(5, 5, 100, 60), r(1, 1, 300, 100), r(2, 2, 120, 50)];
    assert_eq!(detect_camera_frame(&rects), r(5, 5, 100, 60));
    assert_eq!(detect_camera_frame(&vec![]), r(0, 0, 90, 60));
    // a flat outline has no area and leaves the default in place
    assert_eq!(detect_camera_frame(&vec![r(3, 3, 50, 0)]), r(0, 0, 90, 60));
    // of two outlines with the same area the first stays
    assert_eq!(detect_camera_frame(&vec![r(1, 1, 50, 20), r(2, 2, 100, 10)]), r(1, 1, 50, 20));
    assert_eq!(detect_camera_frame(&vec![r(1, 1, 39, 100), r(2, 2, 227, 100)]), r(0, 0, 90, 60));
}

#[test]
fn points_beyond_the_minimap_are_dropped() {
    let mut pts = vec![pt(10, 10), pt(227, 5), pt(226, 136), pt(5, 137), pt(100, 50)];
    keep_within(&mut pts, 226, 136);
    assert_eq!(pts, vec![pt(10, 10), pt(226, 136), pt(100, 50)]);
    let mut none: Vec<Point> = Vec::new();
    keep_within(&mut none, 226, 136);
    assert!(none.is_empty());
}

struct Lcg(u64);

impl Lcg {
    fn below(&mut self, n: usize) -> usize {
        self.0 = self.0.wrapping_mul(6364136223846793005).wrapping_add(1442695040888963407);
        ((self.0 >> 33) % n as u64) as usize
    }
}

/// Clustering written out with integer points.
fn clusters_by_hand(points: &[(i32, i32)], threshold: i32) -> Vec<(i32, i32)> {
    let mut clusters: Vec<Vec<(i32, i32)>> = Vec::new();
    for &p in points {
        let mut added = false;
        for cluster in &mut clusters {
            let close = cluster.iter().any(|&cp| (cp.0 - p.0).abs() <= threshold && (cp.1 - p.1).abs() <= threshold);
            if close {
                cluster.push(p);
                added = true;
                break;
            }
        }
        if !added {
            clusters.push(vec![p]);
        }
    }
    clusters
        .iter()
        .map(|c| {
            let sx: i32 = c.iter().map(|p| p.0).sum();
            let sy: i32 = c.iter().map(|p| p.1).sum();
            (sx / c.len() as i32, sy / c.len() as i32)
        })
        .collect()
}

/// The dot filter written out over the planes: size and shape, a dark ring
/// on at least 5% of the pixels around the box, away from the border, and
/// no two dots closer than 10 pixels.
fn dots_by_hand(p: &BgrPlanes, rects: &[Rect]) -> Vec<(i32, i32)> {
    let (cols, rows) = (p.b[0].len() as i32, p.b.len() as i32);
    let mut valid = Vec::new();
    for rect in rects {
        let area = rect.width * rect.height;
        if area >= 12 && area <= 64 && rect.width <= 9 && rect.height <= 9 {
            let aspect = rect.width as f64 / rect.height as f64;
            if aspect > 0.5 && aspect < 2.0 {
                let (mut dark, mut total) = (0, 0);
                let (sx, sy) = ((rect.x - 1).max(0), (rect.y - 1).max(0));
                let (ex, ey) = ((rect.x + rect.width + 1).min(cols - 1), (rect.y + rect.height + 1).min(rows - 1));
                for y in sy..=ey {
                    for x in sx..=ex {
                        if x < rect.x || x >= rect.x + rect.width || y < rect.y || y >= rect.y + rect.height {
                            total += 1;
                            let (yu, xu) = (y as usize, x as usize);
                            if p.b[yu][xu] < 100 && p.g[yu][xu] < 100 && p.r[yu][xu] < 100 {
                                dark += 1;
                            }
                        }
                    }
                }
                let dark_ratio = if total > 0 { dark as f64 / total as f64 } else { 0.0 };
                let near_border = rect.x <= 3
                    || rect.y <= 3
                    || rect.x + rect.width >= cols - 3
                    || rect.y + rect.height >= rows - 3;
                if dark_ratio >= 0.05 && !near_border {
                    valid.push((rect.x + rect.width / 2, rect.y + rect.height / 2));
                }
            }
        }
    }
    let mut out: Vec<(i32, i32)> = Vec::new();
    for q in valid {
        let dup = out.iter().any(|e| {
            let (dx, dy) = (e.0 - q.0, e.1 - q.1);
            (((dx * dx + dy * dy) as f64).sqrt()) < 10.0
        });
        if !dup {
            out.push(q);
        }
    }
    out
}

#[test]
fn agrees_with_the_integer_procedures_on_random_input() {
    let mut rng = Lcg(3);
    for _ in 0..500 {
        let n = rng.below(25);
        let t = rng.below(12) as i32;
        let raw: Vec<(i32, i32)> = (0..n).map(|_| (rng.below(60) as i32, rng.below(60) as i32)).collect();
        let pts: Vec<Point> = raw.iter().map(|&(x, y)| pt(x, y)).collect();
        let got: Vec<(i32, i32)> = cluster_points(&pts, t).iter().map(|p| (p.x, p.y)).collect();
        assert_eq!(got, clusters_by_hand(&raw, t));
    }
    for _ in 0..300 {
        let (w, h) = (20 + rng.below(40), 20 + rng.below(40));
        let level = rng.below(3);
        let img = planes(w, h, |_, _| 0);
        let mut img = img;
        for y in 0..h {
            for x in 0..w {
                let v = match level {
                    0 => rng.below(256),
                    1 => 60 + rng.below(100),
                    _ => if rng.below(10) < 2 { 50 } else { 200 },
                } as u8;
                img.b[y][x] = v;
                img.g[y][x] = if rng.below(4) == 0 { 200 } else { v };
                img.r[y][x] = v;
            }
        }
        let k = rng.below(12);
        let rects: Vec<Rect> = (0..k)
            .map(|_| {
                let (rw, rh) = (1 + rng.below(10), 1 + rng.below(10));
                let x = rng.below(w - rw + 1);
                let y = rng.below(h - rh + 1);
                r(x as i32, y as i32, rw as i32, rh as i32)
            })
            .collect();
        let got: Vec<(i32, i32)> = find_dots_by_color_and_edge(&img, &rects).iter().map(|p| (p.x, p.y)).collect();
        assert_eq!(got, dots_by_hand(&img, &rects));
    }
}

#[test]
fn cluster_sums_within_i32() {
    let big = i32::MAX / 2 + 1;
    // two far-apart points: each cluster's sums are small
    assert!(cluster_sums_fit(&vec![pt(big, 0), pt(0, big)], 8));
    // the same two points close together: one cluster whose x sum overflows i32
    assert!(!cluster_sums_fit(&vec![pt(big, 0), pt(big, 3)], 8));
    assert!(cluster_sums_fit(&vec![pt(big - 1, 0), pt(big, 3)], 8) == ((big - 1) as i64 + big as i64 <= i32::MAX as i64));
    assert!(cluster_sums_fit(&vec![], 8));
    assert_eq!(cluster_points(&vec![pt(big, 0), pt(0, big)], 8), vec![pt(big, 0), pt(0, big)]);
}

#[test]
fn green_outline_is_the_last_fitting_box() {
    let rects = vec![r(0, 0, 120, 3), r(0, 0, 40, 3), r(5, 5, 200, 2), r(1, 1, 227, 4), r(0, 0, 50, 1)];
    assert_eq!(green_frame_width(&rects), Some(200));
    assert_eq!(green_frame_width(&vec![r(0, 0, 50, 1), r(0, 0, 227, 1)]), None);
    assert_eq!(green_frame_width(&vec![r(0, 0, 51, 1)]), Some(51));
    assert_eq!(green_frame_width(&vec![r(0, 0, 226, 1)]), Some(226));
}
