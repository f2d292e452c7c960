use tnt_comput::detect::{detect_camera_frame, hit_near, hue_dist, longest_run, scan_columns, MinimapPlanes, ValueVoter};
use tnt_comput::geom::Rect;

fn plane(w: usize, h: usize, f: impl Fn(usize, usize) -> u8) -> Vec<Vec<u8>> {
    (0..h).map(|y| (0..w).map(|x| f(y, x)).collect()).collect()
}

#[test]
fn hue_dist_wraps_around_the_wheel() {
    assert_eq!(hue_dist(10, 20), 10);
    assert_eq!(hue_dist(5, 175), 10);
    assert_eq!(hue_dist(0, 90), 90);
    assert_eq!(hue_dist(170, 0), 10);
}

#[test]
fn longest_run_bridges_short_gaps() {
    // a run of 3 hits, a gap of 5 misses, 2 more hits: one run (the open run reaches the end)
    let mut v = vec![true, true, true];
    v.extend(vec![false; 5]);
    v.extend(vec![true, true]);
    assert_eq!(longest_run(&v), (0, 9, 5));
}

#[test]
fn longest_run_closes_after_long_gap() {
    // 4 hits, then 9 misses close the run; it is recorded with its end one row short
    let mut v = vec![true; 4];
    v.extend(vec![false; 9]);
    assert_eq!(longest_run(&v), (0, 2, 4));
}

#[test]
fn longest_run_of_nothing() {
    assert_eq!(longest_run(&vec![false; 20]), (0, -1, 0));
    assert_eq!(longest_run(&Vec::new()), (0, -1, 0));
}

#[test]
fn voter_needs_a_strict_majority() {
    let mut v = ValueVoter::new(5);
    assert_eq!(v.push(45), None);
    assert_eq!(v.push(45), None);
    assert_eq!(v.push(46), None);
    assert_eq!(v.push(45), Some(45));
    assert_eq!(v.push(46), Some(45));
    // the window is now 45 46 45 46 46
    assert_eq!(v.push(46), Some(46));
}

#[test]
fn voter_window_drops_old_values() {
    let mut v = ValueVoter::new(3);
    assert_eq!(v.push(1), None);
    assert_eq!(v.push(1), Some(1));
    assert_eq!(v.push(2), Some(1));
    assert_eq!(v.push(2), Some(2));
    assert_eq!(v.push(3), Some(2));
    assert_eq!(v.push(3), Some(3));
    v.clear();
    assert_eq!(v.push(7), None);
}

#[test]
fn voter_capacity_zero_acts_as_one() {
    let mut v = ValueVoter::new(0);
    assert_eq!(v.push(9), Some(9));
    assert_eq!(v.push(8), Some(8));
}

fn two_line_minimap() -> MinimapPlanes {
    let (w, h) = (60usize, 40usize);
    MinimapPlanes {
        gray: plane(w, h, |_, x| if x == 10 || x == 40 { 200 } else { 0 }),
        hue: plane(w, h, |_, _| 0),
        sat: plane(w, h, |_, _| 0),
        val: plane(w, h, |_, _| 255),
    }
}

#[test]
fn camera_frame_between_two_bright_lines() {
    let p = two_line_minimap();
    assert_eq!(detect_camera_frame(&p), Some(Rect { x: 7, y: 0, width: 30, height: 39 }));
}

#[test]
fn camera_frame_scan_finds_the_two_lines() {
    let p = two_line_minimap();
    let scan = scan_columns(&p).unwrap();
    let pos: Vec<i32> = scan.bright.iter().map(|f| f.pos).collect();
    assert_eq!(pos, vec![7, 37]);
    assert!(scan.soft.is_empty());
    assert!(scan.ecol[0][8] && scan.ecol[0][10] && !scan.ecol[0][9]);
}

#[test]
fn camera_frame_needs_thirty_pixels() {
    let (w, h) = (29usize, 40usize);
    let p = MinimapPlanes {
        gray: plane(w, h, |_, x| if x == 5 { 200 } else { 0 }),
        hue: plane(w, h, |_, _| 0),
        sat: plane(w, h, |_, _| 0),
        val: plane(w, h, |_, _| 255),
    };
    assert_eq!(detect_camera_frame(&p), None);
}

#[test]
fn camera_frame_too_narrow_is_rejected() {
    // lines 4 columns apart: the pair spans less than 15% of the width
    let (w, h) = (60usize, 40usize);
    let p = MinimapPlanes {
        gray: plane(w, h, |_, x| if x == 20 || x == 24 { 200 } else { 0 }),
        hue: plane(w, h, |_, _| 0),
        sat: plane(w, h, |_, _| 0),
        val: plane(w, h, |_, _| 255),
    };
    assert_eq!(detect_camera_frame(&p), None);
}

/// Two tinted edges (hue 60) at columns 7 and 37; the strip inside the left
/// edge holds 50 saturated pixels, `m_in` of them of the edge's hue, the
/// strip outside it 2, one of them of that hue.
fn tinted_minimap(m_in: usize) -> MinimapPlanes {
    let (w, h) = (60usize, 40usize);
    let mut sat = plane(w, h, |_, _| 0);
    let mut hue = plane(w, h, |_, _| 0);
    for y in 0..h {
        for x in [7, 37] {
            sat[y][x] = 200;
            hue[y][x] = 60;
        }
    }
    let mut k = 0;
    for x in 12..17 {
        for y in 0..10 {
            sat[y][x] = 200;
            hue[y][x] = if k < m_in { 60 } else { 0 };
            k += 1;
        }
    }
    sat[0][2] = 200;
    hue[0][2] = 60;
    sat[1][2] = 200;
    for y in 0..10 {
        sat[y][30] = 200;
        hue[y][30] = 60;
    }
    MinimapPlanes {
        gray: plane(w, h, |_, x| if x == 10 || x == 40 { 200 } else { 0 }),
        hue,
        sat,
        val: plane(w, h, |_, _| 100),
    }
}

#[test]
fn tint_step_is_taken_in_double_precision() {
    // 29/50 - 1/2 is exactly 8/100, but in double precision the difference of
    // the two quotients comes out just below 0.08, so the pair is refused
    assert!(29.0f64 / 50.0 - 1.0 / 2.0 < 0.08);
    assert_eq!(detect_camera_frame(&tinted_minimap(29)), None);
    // one more pixel of the edge's hue inside: a step of 1/10 passes
    assert_eq!(detect_camera_frame(&tinted_minimap(30)), Some(Rect { x: 7, y: 0, width: 30, height: 39 }));
    let scan = scan_columns(&tinted_minimap(30)).unwrap();
    let soft: Vec<(i32, i32)> = scan.soft.iter().map(|f| (f.pos, f.hue)).collect();
    assert_eq!(soft, vec![(7, 60), (37, 60)]);
    assert!(scan.bright.is_empty());
}

#[test]
fn breathing_hit_near_a_dot() {
    let m = plane(20, 20, |y, x| if y == 5 && x == 7 { 255 } else { 0 });
    assert!(hit_near(&m, 20, 9, 5, 2));
    assert!(!hit_near(&m, 20, 10, 5, 2));
    assert!(hit_near(&m, 20, 7, 5, 0));
    // a negative radius leaves no window, even on a set pixel
    assert!(!hit_near(&m, 20, 7, 5, -1));
    assert!(!hit_near(&m, 20, 7, 5, -3));
    assert!(!hit_near(&m, 20, 7, 9, 3));
}

struct Lcg(u64);

impl Lcg {
    fn below(&mut self, n: usize) -> usize {
        self.0 = self.0.wrapping_mul(6364136223846793005).wrapping_add(1442695040888963407);
        ((self.0 >> 33) % n as u64) as usize
    }
}

/// A pseudo-random minimap: two to four vertical lines (some bright), a
/// tinted region, and scattered saturated pixels.
fn random_minimap(seed: u64) -> MinimapPlanes {
    let mut r = Lcg(seed);
    let w = 30 + r.below(40);
    let h = 30 + r.below(30);
    let nlines = 2 + r.below(3);
    let mut lines = Vec::new();
    for _ in 0..nlines {
        let x = r.below(w);
        let y0 = r.below(h / 3);
        let y1 = h - 1 - r.below(h / 3);
        let bright = r.below(2) == 0;
        lines.push((x, y0, y1, bright));
    }
    let palette = [0u8, 60, 65, 120];
    let tint = palette[r.below(4)];
    let fx0 = r.below(w / 2);
    let fx1 = fx0 + r.below(w - fx0);
    let mut gray = plane(w, h, |_, _| 50);
    let mut val = plane(w, h, |_, _| 100);
    let mut sat = plane(w, h, |_, _| 0);
    let mut hue = plane(w, h, |_, _| 0);
    for &(x, y0, y1, bright) in &lines {
        for y in y0..=y1 {
            gray[y][x] = 200;
            if bright {
                for xx in x.saturating_sub(2)..(x + 3).min(w) {
                    val[y][xx] = 220;
                }
            }
        }
    }
    for y in 0..h {
        for x in 0..w {
            let inside = fx0 <= x && x <= fx1;
            let p = if inside { 7 } else { 3 };
            if r.below(10) < p {
                sat[y][x] = 200;
                hue[y][x] = if inside && r.below(10) < 8 { tint } else { palette[r.below(4)] };
            }
        }
    }
    MinimapPlanes { gray, hue, sat, val }
}

#[test]
fn camera_frame_on_random_minimaps() {
    // (x, y, width, height) of the frame found on the minimap of each seed 1..=300
    let expected: Vec<Option<(i32, i32, i32, i32)>> = vec![
        None, None, None, None, None, Some((6, 4, 41, 17)),
        None, Some((6, 8, 10, 33)), None, None, None, None,
        None, None, None, Some((49, 7, 11, 22)), None, None,
        None, None, Some((0, 7, 7, 32)), Some((0, 5, 34, 24)), Some((2, 11, 34, 27)), Some((31, 8, 9, 28)),
        None, Some((21, 5, 9, 34)), Some((37, 10, 10, 48)), None, None, None,
        None, Some((8, 13, 29, 44)), None, Some((11, 10, 30, 35)), Some((26, 7, 18, 39)), Some((10, 17, 25, 38)),
        None, Some((24, 5, 22, 30)), None, Some((8, 13, 11, 18)), Some((9, 17, 26, 20)), Some((28, 8, 8, 35)),
        Some((24, 4, 7, 30)), None, Some((27, 3, 8, 41)), Some((21, 17, 20, 26)), Some((20, 10, 30, 30)), None,
        Some((6, 10, 7, 24)), None, Some((1, 16, 7, 25)), Some((14, 11, 7, 42)), Some((15, 3, 9, 29)), Some((1, 9, 21, 14)),
        None, None, Some((29, 16, 24, 23)), None, None, Some((9, 11, 11, 30)),
        None, None, None, None, None, Some((10, 6, 22, 21)),
        None, None, None, None, Some((8, 8, 7, 20)), Some((4, 5, 31, 30)),
        None, None, None, None, Some((23, 7, 21, 41)), None,
        Some((15, 3, 35, 26)), None, None, None, None, Some((8, 16, 20, 23)),
        Some((2, 7, 14, 30)), None, Some((15, 15, 18, 16)), None, None, Some((48, 5, 15, 31)),
        Some((2, 9, 11, 17)), None, Some((16, 5, 8, 42)), Some((11, 6, 24, 35)), None, Some((24, 11, 19, 25)),
        Some((3, 14, 22, 31)), Some((20, 7, 26, 24)), None, None, None, Some((9, 12, 22, 32)),
        Some((11, 8, 23, 22)), Some((4, 11, 27, 43)), None, None, None, None,
        Some((19, 12, 38, 23)), Some((23, 4, 35, 17)), Some((0, 5, 23, 28)), Some((17, 10, 8, 18)), None, None,
        Some((16, 3, 14, 28)), Some((7, 9, 36, 23)), Some((23, 9, 25, 22)), None, None, None,
        None, None, None, None, None, None,
        None, None, None, Some((34, 6, 15, 28)), None, None,
        Some((0, 8, 16, 31)), Some((4, 9, 25, 25)), None, None, None, Some((27, 2, 18, 26)),
        Some((1, 12, 39, 19)), None, None, None, None, None,
        None, Some((22, 18, 21, 23)), None, None, None, None,
        None, None, Some((1, 1, 24, 24)), Some((3, 8, 10, 36)), Some((12, 4, 7, 27)), Some((0, 10, 40, 26)),
        None, Some((39, 9, 8, 25)), Some((19, 6, 32, 25)), Some((12, 9, 25, 20)), Some((18, 13, 45, 25)), Some((11, 6, 9, 38)),
        None, Some((5, 13, 19, 29)), None, Some((10, 10, 22, 26)), None, Some((4, 9, 9, 23)),
        Some((32, 6, 17, 27)), Some((11, 12, 43, 30)), None, None, None, Some((5, 10, 18, 22)),
        Some((14, 13, 7, 16)), None, Some((16, 5, 18, 33)), Some((3, 1, 28, 29)), Some((17, 5, 8, 26)), Some((6, 8, 42, 32)),
        Some((4, 12, 45, 27)), None, None, Some((15, 9, 10, 11)), None, None,
        None, None, None, Some((25, 4, 12, 23)), None, None,
        None, None, Some((20, 6, 7, 31)), None, None, None,
        None, None, None, None, Some((19, 17, 19, 38)), None,
        Some((20, 8, 12, 27)), None, Some((8, 11, 27, 19)), None, None, None,
        None, Some((2, 12, 23, 19)), None, Some((8, 1, 11, 38)), None, None,
        None, Some((33, 14, 9, 21)), Some((0, 9, 21, 44)), Some((19, 8, 20, 14)), None, Some((23, 10, 29, 19)),
        None, Some((14, 6, 14, 30)), Some((0, 5, 29, 26)), Some((7, 8, 7, 24)), None, Some((8, 6, 38, 22)),
        Some((6, 15, 7, 24)), Some((11, 3, 20, 27)), None, Some((5, 10, 37, 18)), Some((0, 5, 43, 36)), Some((10, 15, 11, 25)),
        None, None, Some((0, 2, 18, 24)), Some((16, 2, 7, 38)), Some((1, 8, 30, 25)), None,
        None, None, Some((11, 12, 24, 16)), None, None, Some((15, 5, 11, 34)),
        Some((8, 6, 15, 19)), None, None, None, Some((33, 40, 21, 17)), Some((13, 8, 16, 28)),
        None, None, None, None, Some((13, 9, 26, 26)), None,
        None, None, None, None, Some((9, 10, 17, 25)), None,
        None, None, None, None, None, Some((10, 13, 10, 17)),
        Some((11, 5, 38, 33)), None, None, None, None, Some((0, 13, 11, 25)),
        Some((4, 15, 31, 38)), None, None, None, None, Some((34, 3, 18, 39)),
        None, Some((0, 11, 23, 29)), None, None, None, Some((5, 3, 31, 17)),
        None, Some((13, 10, 28, 30)), Some((9, 4, 22, 34)), Some((20, 15, 19, 35)), None, Some((31, 7, 19, 31)),
        Some((8, 9, 19, 30)), Some((23, 10, 31, 23)), None, None, None, None
    ];
    for (i, want) in expected.iter().enumerate() {
        let p = random_minimap(i as u64 + 1);
        let got = detect_camera_frame(&p).map(|r| (r.x, r.y, r.width, r.height));
        assert_eq!(got, *want, "seed {}", i + 1);
    }
}

#[test]
fn closed_run_ends_before_its_last_hit_open_run_reaches_the_end() {
    let mut hits = vec![true; 4];
    hits.extend(vec![false; 10]);
    // closed by nine misses: it ends one row before its last hit (row 3)
    assert_eq!(longest_run(&hits), (0, 2, 4));
    hits.push(true);
    hits.extend(vec![false; 5]);
    // the single hit at row 14 is still open at the end and reaches row 19,
    // which makes it longer than the closed run
    assert_eq!(longest_run(&hits), (14, 19, 1));
    assert_eq!(longest_run(&vec![false; 30]), (0, -1, 0));
}
