use tnt_comput::geom::Rect;
use tnt_comput::mnist::GrayImg;
use tnt_comput::ui::{
    angle_from_digits, center_on_canvas, clamp_rect, count_holes, extract_individual_digits, frame_rois,
    is_digit_component, keep_component, pick_wind_arrow, power_bar_fill_end, CompStat,
};

fn r(x: i32, y: i32, width: i32, height: i32) -> Rect {
    Rect { x, y, width, height }
}

fn comp(x: i32, y: i32, width: i32, height: i32, area: i32) -> CompStat {
    CompStat { x, y, width, height, area }
}

fn plane(w: usize, h: usize, f: impl Fn(usize, usize) -> u8) -> Vec<Vec<u8>> {
    (0..h).map(|y| (0..w).map(|x| f(y, x)).collect()).collect()
}

#[test]
fn angles_from_digits() {
    assert_eq!(angle_from_digits(&vec![4, 5]), Some(45));
    assert_eq!(angle_from_digits(&vec![7]), Some(7));
    assert_eq!(angle_from_digits(&vec![9, 0]), Some(90));
    assert_eq!(angle_from_digits(&vec![9, 5]), Some(85));
    assert_eq!(angle_from_digits(&vec![1, 0, 2]), Some(78));
    assert_eq!(angle_from_digits(&vec![1, 0, 9]), Some(71));
    assert_eq!(angle_from_digits(&vec![1, 8, 0]), Some(0));
}

#[test]
fn angles_rejected() {
    assert_eq!(angle_from_digits(&vec![]), None);
    assert_eq!(angle_from_digits(&vec![9, 2, 3]), None);
    assert_eq!(angle_from_digits(&vec![1, 9, 0]), None);
    assert_eq!(angle_from_digits(&vec![1, 2, 3, 4]), None);
}

#[test]
fn digit_component_shape() {
    assert!(is_digit_component(12, 20, 40));
    assert!(!is_digit_component(12, 17, 400));
    assert!(!is_digit_component(61, 20, 400));
    assert!(is_digit_component(60, 20, 400));
    // 1.2 * 40 = 48 pixels needed at height 40
    assert!(is_digit_component(10, 40, 48));
    assert!(!is_digit_component(10, 40, 47));
    assert!(!is_digit_component(10, 20, 39));
}

#[test]
fn kept_components() {
    assert!(keep_component(12, 20, 40));
    assert!(keep_component(30, 10, 30));
    assert!(!keep_component(91, 10, 100));
    assert!(!keep_component(30, 10, 29));
}

#[test]
fn clamp_rect_into_frame() {
    assert_eq!(clamp_rect(r(-5, -5, 50, 50), 100, 80), r(0, 0, 50, 50));
    assert_eq!(clamp_rect(r(90, 70, 50, 50), 100, 80), r(90, 70, 10, 10));
    assert_eq!(clamp_rect(r(200, 200, 0, -3), 100, 80), r(99, 79, 1, 1));
    assert_eq!(clamp_rect(r(3, 3, 5, 5), 0, 0), r(0, 0, 1, 1));
}

#[test]
fn regions_of_a_frame() {
    let (minimap, angle, power, wind) = frame_rois(1000, 500);
    assert_eq!(minimap, r(0, 0, 220, 110));
    assert_eq!(angle, r(20, 425, 120, 60));
    assert_eq!(power, r(150, 460, 700, 25));
    assert_eq!(wind, r(400, 5, 200, 30));
}

#[test]
fn power_bar_width_follows_double_precision_seventy_percent() {
    // 90 * 0.7 is 62.99999999999999 in double precision
    let (_, _, power, _) = frame_rois(90, 100);
    assert_eq!(power, r(13, 92, 62, 5));
    assert_eq!(power.width, (90.0f64 * 0.70) as i32);
    for cols in [10, 100, 170, 180, 1280, 1920, 2560, 3840, 89730] {
        let (_, _, power, _) = frame_rois(cols, 1000);
        assert_eq!(power.width, (cols as f64 * 0.70) as i32, "cols = {}", cols);
    }
}

#[test]
fn power_bar_last_filled_column() {
    // 10 rows: a column needs 3 set rows
    let m = plane(8, 10, |y, x| if x <= 4 && y < 3 { 255 } else if x == 6 && y < 2 { 255 } else { 0 });
    assert_eq!(power_bar_fill_end(&m, 8), 4);
    let empty = plane(8, 10, |_, _| 0);
    assert_eq!(power_bar_fill_end(&empty, 8), -1);
    assert_eq!(power_bar_fill_end(&Vec::new(), 0), -1);
}

#[test]
fn wind_arrow_is_the_largest_arrow_shape() {
    let rects = vec![
        r(0, 0, 2, 2),   // too small
        r(10, 0, 4, 4),  // area 16
        r(20, 0, 40, 3), // too wide
        r(30, 0, 5, 4),  // area 20
        r(40, 0, 4, 5),  // area 20, not larger
        r(50, 0, 1, 10), // too thin
    ];
    assert_eq!(pick_wind_arrow(&rects, 90), Some(r(30, 0, 5, 4)));
    assert_eq!(pick_wind_arrow(&vec![r(0, 0, 2, 2)], 90), None);
}

#[test]
fn holes_of_a_glyph() {
    let comps = vec![comp(0, 0, 40, 40, 900), comp(10, 10, 5, 5, 20), comp(20, 20, 2, 2, 4), comp(5, 5, 30, 35, 50)];
    // the first touches the border, the third is too small, the last reaches the bottom
    assert_eq!(count_holes(&comps, 40, 40), 1);
}

#[test]
fn two_digits_in_a_row() {
    let comps = vec![comp(30, 10, 12, 20, 150), comp(10, 10, 12, 20, 150), comp(50, 2, 3, 3, 5)];
    let eroded = plane(60, 40, |_, _| 0);
    let out = extract_individual_digits(&comps, &eroded, 60, 40, &limits(40, 1.55), false);
    assert_eq!(out, vec![(r(10, 10, 12, 20), false), (r(30, 10, 12, 20), false)]);
}

#[test]
fn digit_at_the_edge_voids_the_row() {
    let comps = vec![comp(1, 10, 12, 20, 150), comp(30, 10, 12, 20, 150)];
    let eroded = plane(60, 40, |_, _| 0);
    assert_eq!(extract_individual_digits(&comps, &eroded, 60, 40, &limits(40, 1.55), false), vec![]);
}

#[test]
fn wide_box_is_split_at_the_gap() {
    // one component 24 wide and 20 high: expected digit width 12, split into two at the empty column
    let comps = vec![comp(10, 10, 24, 20, 300)];
    let eroded = plane(60, 40, |y, x| if (10..30).contains(&y) && (10..34).contains(&x) && x != 22 { 255 } else { 0 });
    let out = extract_individual_digits(&comps, &eroded, 60, 40, &limits(40, 1.55), false);
    assert_eq!(out, vec![(r(10, 10, 12, 20), false), (r(22, 10, 12, 20), false)]);
}

#[test]
fn fragment_is_absorbed_in_second_pass() {
    // a digit and a bar above it that the first pass ignores
    let comps = vec![comp(20, 15, 12, 20, 150), comp(20, 8, 12, 4, 40)];
    let eroded = plane(60, 40, |_, _| 0);
    assert_eq!(
        extract_individual_digits(&comps, &eroded, 60, 40, &limits(40, 1.55), false),
        vec![(r(20, 15, 12, 20), false)]
    );
    assert_eq!(
        extract_individual_digits(&comps, &eroded, 60, 40, &limits(40, 1.55), true),
        vec![(r(20, 8, 12, 27), true)]
    );
}

#[test]
fn row_height_bound_is_the_double_precision_product() {
    // median height 45: 140% of it is 62.99999999999999 in double precision,
    // so a 63 pixel box falls out of the row while sitting in its band, and
    // the row is given up; a 62 pixel box stays in it
    assert!(!(63.0f64 <= 45.0f64 * 1.4));
    let eroded = plane(300, 200, |_, _| 0);
    let tall = vec![comp(20, 50, 20, 45, 200), comp(60, 50, 20, 45, 200), comp(100, 41, 20, 63, 200)];
    assert_eq!(extract_individual_digits(&tall, &eroded, 300, 200, &limits(200, 1.55), false), vec![]);
    let fits = vec![comp(20, 50, 20, 45, 200), comp(60, 50, 20, 45, 200), comp(100, 41, 20, 62, 200)];
    assert_eq!(
        extract_individual_digits(&fits, &eroded, 300, 200, &limits(200, 1.55), false),
        vec![(r(20, 50, 20, 45), false), (r(60, 50, 20, 45), false), (r(100, 41, 20, 62), false)]
    );
}

#[test]
fn template_is_centered() {
    let g = GrayImg { width: 2, rows: vec![vec![1, 2], vec![3, 4], vec![5, 6]] };
    let t = center_on_canvas(&g);
    assert_eq!(t.width, 40);
    assert_eq!(t.rows.len(), 40);
    // offsets (40 - 2) / 2 = 19 and (40 - 3) / 2 = 18
    assert_eq!(t.rows[18][19], 1);
    assert_eq!(t.rows[20][20], 6);
    assert_eq!(t.rows[17][19], 0);
    assert_eq!(t.rows.iter().map(|r| r.iter().map(|&v| v as u32).sum::<u32>()).sum::<u32>(), 21);
}

struct Lcg(u64);

impl Lcg {
    fn below(&mut self, n: usize) -> usize {
        self.0 = self.0.wrapping_mul(6364136223846793005).wrapping_add(1442695040888963407);
        ((self.0 >> 33) % n as u64) as usize
    }
}

/// A pseudo-random row of digit-like components with a few fragments, and
/// an eroded mask with about 70% of each component's box set.
fn random_row(seed: u64) -> (usize, usize, Vec<CompStat>, Vec<Vec<u8>>) {
    let mut r = Lcg(seed);
    let cols = 60 + r.below(140);
    let rows = 40 + r.below(50);
    let mut comps: Vec<(usize, usize, usize, usize, usize)> = Vec::new();
    let base_h = 18 + r.below(30);
    let base_y = 2 + r.below((rows as i64 - base_h as i64 - 4).max(1) as usize);
    let n = 1 + r.below(4);
    let mut x = 1 + r.below(10);
    for _ in 0..n {
        let mut h = if r.below(4) != 0 { (base_h + r.below(9)) as i64 - 4 } else { (base_h + r.below(30)) as i64 };
        let mut w = (4 + r.below(2 * base_h)) as i64;
        let mut y = (base_y + r.below(7)) as i64 - 3;
        if y < 0 {
            y = 0;
        }
        if y + h > rows as i64 {
            h = rows as i64 - y;
        }
        if x as i64 + w > cols as i64 {
            w = cols as i64 - x as i64;
        }
        if w < 1 || h < 1 {
            break;
        }
        let area = r.below((w * h + 1) as usize);
        comps.push((x, y as usize, w as usize, h as usize, area));
        x += w as usize + r.below(8);
        if x >= cols - 2 {
            break;
        }
    }
    let nf = r.below(4);
    for _ in 0..nf {
        let w = 3 + r.below(30);
        let h = 2 + r.below(15);
        let x = r.below((cols as i64 - w as i64).max(1) as usize);
        let y = r.below((rows as i64 - h as i64).max(1) as usize);
        let area = r.below(w * h + 1);
        comps.push((x, y, w, h, area));
    }
    for i in 0..comps.len().saturating_sub(1) {
        if r.below(3) == 0 {
            comps.swap(i, i + 1);
        }
    }
    let mut eroded = plane(cols, rows, |_, _| 0);
    for &(x, y, w, h, _) in &comps {
        for yy in y..y + h {
            for xx in x..x + w {
                if r.below(10) < 7 {
                    eroded[yy][xx] = 255;
                }
            }
        }
    }
    let comps = comps.iter().map(|&(x, y, w, h, a)| comp(x as i32, y as i32, w as i32, h as i32, a as i32)).collect();
    (cols, rows, comps, eroded)
}

fn decode(s: &str) -> Vec<(Rect, bool)> {
    if s.is_empty() {
        return Vec::new();
    }
    s.split(';')
        .map(|t| {
            let v: Vec<i32> = t.split(',').map(|n| n.parse().unwrap()).collect();
            (r(v[0], v[1], v[2], v[3]), v[4] == 1)
        })
        .collect()
}

#[test]
fn digits_of_random_rows() {
    // boxes of each seed 1..=200, first without and then with fragment merging,
    // as "x,y,width,height,merged" separated by ';'
    let expected: Vec<(&str, &str)> = vec![
        ("", ""),
        ("", ""),
        ("4,9,18,21,0;22,9,14,21,0;36,9,13,21,0", "4,9,18,21,0;22,9,14,21,0;36,9,13,21,0"),
        ("8,48,11,26,0;19,48,17,26,0;36,48,14,26,0;52,48,15,26,0", "8,48,11,26,0;19,48,17,26,0;36,48,14,26,0;52,48,15,26,0"),
        ("2,22,18,25,0;20,22,8,25,0;28,22,20,25,0;50,23,17,33,0;74,21,6,21,0;82,22,17,23,0", "2,22,18,25,0;20,22,8,25,0;28,22,20,25,0;50,23,17,33,0;74,21,6,21,0;82,22,17,23,0"),
        ("", ""),
        ("", ""),
        ("4,17,13,21,0;17,17,11,21,0;28,17,15,21,0;46,19,15,23,0", ""),
        ("", ""),
        ("10,4,4,38,0", "10,4,4,38,0"),
        ("", ""),
        ("", ""),
        ("2,8,21,38,0;23,8,16,38,0;39,8,28,38,0", "2,8,21,38,0;23,8,16,38,0;39,8,28,38,0"),
        ("", ""),
        ("", ""),
        ("", ""),
        ("", ""),
        ("3,9,16,38,0;19,9,36,38,0;55,9,18,38,0;77,6,27,37,0;104,6,23,37,0;131,6,19,33,0", "3,9,16,38,0;19,9,36,38,0;55,9,18,38,0;77,6,27,37,0;104,6,23,37,0;123,6,32,42,1"),
        ("", ""),
        ("", ""),
        ("5,15,51,38,0;60,16,36,39,0", "5,15,51,38,0;60,16,36,39,0"),
        ("", ""),
        ("3,4,36,31,0", "3,4,36,31,0"),
        ("", ""),
        ("", ""),
        ("", ""),
        ("7,6,5,35,0", "7,6,5,35,0"),
        ("", ""),
        ("", ""),
        ("9,7,20,35,0", "9,7,20,35,0"),
        ("3,51,54,31,0;62,46,55,35,0", "3,51,54,31,0;62,46,55,35,0"),
        ("7,16,15,27,0;22,16,24,27,0;51,21,17,28,0;75,16,21,32,0", ""),
        ("", ""),
        ("5,5,11,22,0", "5,5,11,22,0"),
        ("", "9,7,24,26,1;37,11,15,36,0;53,10,12,26,0"),
        ("", ""),
        ("7,29,12,21,0", "7,29,12,21,0"),
        ("", ""),
        ("", ""),
        ("", ""),
        ("", ""),
        ("", ""),
        ("", ""),
        ("3,24,24,45,0;27,24,36,45,0;63,24,20,45,0", "3,24,24,45,0;27,24,36,45,0;63,24,20,45,0"),
        ("7,3,35,46,0;48,4,32,47,0;80,4,28,47,0", "7,3,35,46,0;48,4,32,47,0;80,4,28,47,0"),
        ("42,27,24,40,0;68,23,20,40,0;88,23,32,40,0;120,23,29,40,0", "42,27,24,40,0;68,23,20,40,0;88,23,32,40,0;120,23,29,40,0"),
        ("", ""),
        ("", ""),
        ("", ""),
        ("", ""),
        ("2,10,8,41,0", ""),
        ("", ""),
        ("", ""),
        ("4,22,22,40,0;26,22,20,40,0;46,22,27,40,0", "4,22,22,40,0;26,22,20,40,0;46,22,27,40,0"),
        ("", ""),
        ("", ""),
        ("", ""),
        ("10,5,15,27,0;25,5,16,27,0", ""),
        ("", ""),
        ("6,6,17,30,0;23,6,26,30,0;49,6,23,32,0;77,8,53,34,0;136,10,5,31,0", "6,6,17,30,0;23,6,26,30,0;49,6,23,32,0;77,8,53,34,0;136,10,5,31,0"),
        ("10,49,8,26,0", ""),
        ("4,14,56,31,0;60,9,22,31,0", "4,14,56,31,0;55,9,27,31,1"),
        ("", ""),
        ("37,17,42,29,0;84,18,14,23,0;98,18,20,23,0;124,21,12,25,0;136,21,14,25,0", ""),
        ("", ""),
        ("", ""),
        ("", ""),
        ("8,11,20,21,0", "8,11,20,21,0"),
        ("", ""),
        ("", ""),
        ("10,16,23,36,0", ""),
        ("4,20,9,26,0;14,19,46,25,0", "4,20,9,26,0;14,19,46,25,0"),
        ("40,17,11,18,0;51,17,12,18,0;63,17,12,18,0;78,19,31,18,0", "40,17,11,18,0;51,17,12,18,0;63,17,12,18,0;78,13,37,24,1"),
        ("2,31,16,20,0;19,30,15,22,0;34,30,10,22,0;44,30,12,22,0;57,32,4,26,0;66,29,15,24,0;81,29,19,24,0", "2,31,16,20,0;19,30,15,22,0;34,30,10,22,0;44,30,12,22,0;57,32,4,26,0;66,29,15,24,0;81,29,19,24,0"),
        ("6,2,16,24,0", ""),
        ("8,45,10,21,0;18,45,15,21,0;33,45,11,21,0;45,43,39,22,0;88,47,16,24,0;104,47,18,24,0", "8,45,10,21,0;18,45,15,21,0;33,45,11,21,0;45,43,39,22,0;88,47,16,24,1;104,47,18,24,1"),
        ("9,3,23,24,0;34,4,15,22,0;54,6,16,18,0", "9,3,23,24,0;34,4,15,22,0;54,6,16,18,0"),
        ("7,43,11,21,0;18,43,12,21,0", ""),
        ("", ""),
        ("", ""),
        ("9,35,6,36,0;17,38,23,36,0;42,37,18,38,0;65,36,19,42,0;84,36,35,42,0", "9,35,6,36,0;17,38,23,36,0;42,37,18,38,0;65,36,19,42,0;84,36,35,42,0"),
        ("3,11,30,41,0;33,11,28,41,0;63,7,33,38,0;96,7,26,38,0", "3,11,30,41,0;33,11,28,41,0;63,4,33,41,1;96,4,26,41,1"),
        ("7,38,21,47,0;28,38,32,47,0;62,38,9,42,0;77,36,76,35,0", "7,38,21,47,0;28,38,32,47,0;62,38,9,42,0;77,36,76,35,1"),
        ("", ""),
        ("", ""),
        ("9,17,63,36,0;74,15,36,37,0", "9,17,63,36,1;74,15,38,45,1"),
        ("", ""),
        ("7,32,28,39,0;35,32,28,39,0", "7,32,61,39,1"),
        ("", ""),
        ("", ""),
        ("", ""),
        ("", ""),
        ("5,24,10,31,0;18,24,34,36,0", ""),
        ("", ""),
        ("3,4,66,35,0", ""),
        ("7,10,16,30,0;23,10,15,30,0;38,10,23,30,0;61,10,13,30,0;77,10,16,29,0;93,10,12,29,0;105,10,19,29,0", ""),
        ("", ""),
        ("", ""),
        ("9,25,18,29,0;27,25,22,29,0;49,25,16,29,0", ""),
        ("", ""),
        ("7,10,24,30,0;31,10,14,30,0;49,13,13,29,0;63,12,19,26,0;85,10,23,33,0", ""),
        ("", ""),
        ("46,11,9,21,0", ""),
        ("9,19,21,26,0;34,16,23,36,0;60,17,41,24,0", "9,19,21,26,0;34,16,23,36,0;60,17,41,24,0"),
        ("", ""),
        ("", ""),
        ("2,8,38,21,0;44,5,32,18,0;80,7,8,18,0", "2,8,38,21,1;44,5,32,18,0;80,7,8,18,0"),
        ("", ""),
        ("", ""),
        ("", ""),
        ("", ""),
        ("10,6,32,45,0", "10,6,32,45,0"),
        ("4,10,66,41,0;75,10,16,45,0", "4,10,66,41,0;75,10,16,45,0"),
        ("", ""),
        ("", ""),
        ("6,3,37,52,0", "6,3,37,52,0"),
        ("", ""),
        ("", ""),
        ("8,13,19,39,0;27,13,40,39,0;67,13,23,39,0", ""),
        ("", ""),
        ("6,15,7,40,0;19,17,83,39,0", "6,15,7,40,0;19,6,33,50,1;52,6,20,50,1;72,6,30,50,1"),
        ("", ""),
        ("", ""),
        ("8,5,18,39,0;26,5,25,39,0;51,5,34,39,0;127,3,26,42,0", "8,5,18,39,1;26,5,25,39,1;51,5,34,39,1;127,3,26,42,0"),
        ("", ""),
        ("4,10,32,34,0", "4,10,32,34,0"),
        ("8,12,16,31,0;30,9,17,26,0;47,9,14,26,0;61,9,20,26,0", "8,11,16,32,1;30,9,17,26,0;47,9,14,26,0;61,9,20,26,0"),
        ("2,9,37,34,0;45,8,47,51,0;93,14,22,47,0", ""),
        ("", ""),
        ("", ""),
        ("", ""),
        ("8,4,30,31,0;45,3,20,31,0;65,3,17,31,0;82,3,17,31,0;100,2,29,30,0;130,5,15,27,0", "8,4,40,35,1;45,3,20,31,0;65,3,17,31,0;82,3,17,31,0;100,2,29,30,0;130,5,15,27,0"),
        ("2,24,14,29,0", "2,24,14,29,0"),
        ("", ""),
        ("", ""),
        ("5,16,23,29,0", "5,16,23,29,0"),
        ("9,13,8,31,0;24,9,16,27,0;40,9,18,27,0", "9,13,8,31,0;24,9,16,27,0;40,9,18,27,0"),
        ("", ""),
        ("", ""),
        ("", ""),
        ("5,35,17,20,0;22,38,19,25,0;41,38,14,25,0", ""),
        ("7,9,21,35,0;28,7,12,27,0;40,7,23,27,0;67,6,10,26,0;77,6,19,26,0;96,8,12,26,0;108,8,15,26,0", "7,9,21,35,0;28,7,12,27,0;40,7,23,27,0;67,6,10,26,0;77,6,19,26,0;96,8,31,34,1"),
        ("", ""),
        ("", ""),
        ("27,42,17,24,0;50,41,9,20,0;59,41,15,20,0", "27,42,17,24,0;50,41,9,20,0;59,41,15,20,0"),
        ("3,36,11,23,0;14,36,13,23,0;27,36,18,23,0;80,40,37,19,0;117,39,16,26,0", ""),
        ("", ""),
        ("", ""),
        ("", ""),
        ("9,13,4,40,0", ""),
        ("3,23,72,36,0;76,22,27,40,0", "3,23,72,36,1;76,22,28,40,1"),
        ("7,5,28,40,0", ""),
        ("", ""),
        ("", ""),
        ("9,31,29,40,0;39,33,19,37,0;58,33,31,37,0;90,32,28,36,0", "9,31,29,40,0;39,33,19,37,0;58,33,31,37,0;90,32,28,36,0"),
        ("", ""),
        ("7,6,22,34,0", ""),
        ("", ""),
        ("", ""),
        ("7,20,7,33,0", "7,20,7,33,0"),
        ("", ""),
        ("", ""),
        ("9,28,8,33,0;38,24,21,34,0;66,24,16,37,0;82,24,22,37,0", ""),
        ("3,7,56,29,0", ""),
        ("", ""),
        ("", ""),
        ("6,2,13,28,0", "6,2,13,28,0"),
        ("", ""),
        ("4,12,18,30,0;25,12,19,28,0", "4,12,18,30,0;25,12,19,28,0"),
        ("", ""),
        ("2,27,50,32,0;55,30,11,27,0", ""),
        ("6,13,11,21,0;17,13,14,21,0;31,13,18,21,0;52,13,17,24,0;75,13,10,22,0", "6,13,11,21,0;17,13,14,21,0;31,13,18,21,0;52,13,17,24,0;75,13,10,22,0"),
        ("10,12,27,20,0;63,12,31,20,0;100,18,8,19,0;108,18,13,19,0;121,18,12,19,0", ""),
        ("", ""),
        ("", ""),
        ("", ""),
        ("", ""),
        ("8,19,46,49,0;57,17,23,48,0;80,17,27,48,0", "8,19,46,49,0;57,17,23,48,0;80,17,27,48,0"),
        ("", ""),
        ("", ""),
        ("", ""),
        ("", ""),
        ("", ""),
        ("", ""),
        ("", ""),
        ("", ""),
        ("", ""),
        ("", ""),
        ("", ""),
        ("", ""),
        ("", ""),
        ("", ""),
        ("", ""),
        ("", ""),
        ("5,28,34,38,0;44,26,17,34,0;61,26,20,34,0", ""),
        ("9,20,23,25,0;32,20,15,25,0;52,24,21,27,0;77,23,57,26,0", ""),
        ("", ""),
        ("7,8,19,28,0", ""),
        ("", ""),
        ("5,12,25,30,0;36,10,12,24,0;48,10,16,24,0;68,7,17,30,0;85,7,23,30,0", "5,12,25,30,0;36,10,12,24,0;48,10,16,24,0;68,7,17,30,0;85,7,23,30,0")
    ];
    for (i, (first, second)) in expected.iter().enumerate() {
        let (cols, rows, comps, eroded) = random_row(i as u64 + 1);
        let (c, rw) = (cols as i32, rows as i32);
        assert_eq!(extract_individual_digits(&comps, &eroded, c, rw, &limits(rw, 1.55), false), decode(first), "seed {}", i + 1);
        assert_eq!(extract_individual_digits(&comps, &eroded, c, rw, &limits(rw, 1.55), true), decode(second), "seed {}", i + 1);
    }
}

/// The widest box left whole for each expected digit width, at split ratio
/// `ratio`, as the recognizer computes them.
fn limits(rows: i32, ratio: f64) -> Vec<i32> {
    (0..rows + 7).map(|e| (e as f64 * ratio) as i32).collect()
}

#[test]
fn split_limits_follow_the_callers_ratio() {
    // one component 11 wide and 20 high: expected digit width 12
    let comps = vec![comp(10, 10, 11, 20, 150)];
    let eroded = plane(60, 40, |y, x| if (10..30).contains(&y) && (10..21).contains(&x) && x != 15 { 255 } else { 0 });
    assert_eq!(extract_individual_digits(&comps, &eroded, 60, 40, &limits(40, 1.55), false), vec![(r(10, 10, 11, 20), false)]);
    // at ratio 0.9 the limit is 10 (10.8 truncated): two digits
    assert_eq!(
        extract_individual_digits(&comps, &eroded, 60, 40, &limits(40, 0.9), false),
        vec![(r(10, 10, 5, 20), false), (r(15, 10, 6, 20), false)]
    );
}

/// The digit-stroke test with the floating-point ratios of its statement.
fn digit_by_ratio(w: i32, h: i32, area: i32) -> bool {
    if h < 18 {
        return false;
    }
    if (w as f64) / (h as f64) > 3.0 {
        return false;
    }
    area >= (((h as f64) * 1.2).max(40.0)) as i32
}

/// The power-bar scan with the 30% need computed in floating point.
fn fill_by_ratio(mask: &[Vec<u8>], cols: usize) -> i32 {
    let rows = mask.len();
    if cols == 0 || rows == 0 {
        return -1;
    }
    let need = ((rows as f64) * 0.3).ceil() as i32;
    let mut end = -1;
    for x in 0..cols {
        let cnt = (0..rows).filter(|&y| mask[y][x] > 0).count() as i32;
        if cnt >= need {
            end = x as i32;
        }
    }
    end
}

/// The wind-arrow choice with the aspect ratio in floating point.
fn arrow_by_ratio(rects: &[Rect], cols: i32) -> Option<Rect> {
    let mut best = None;
    let mut max_area = 0;
    for rect in rects {
        let area = rect.width * rect.height;
        if area < 6 || rect.height < 3 || rect.width > cols / 3 {
            continue;
        }
        let aspect = rect.width as f64 / (rect.height.max(1)) as f64;
        if !(0.3..=3.0).contains(&aspect) {
            continue;
        }
        if area > max_area {
            max_area = area;
            best = Some(*rect);
        }
    }
    best
}

#[test]
fn small_procedures_agree_with_their_ratios() {
    let mut rng = Lcg(19);
    for _ in 0..20000 {
        let (w, h, a) = (rng.below(200) as i32, rng.below(200) as i32, rng.below(500) as i32);
        assert_eq!(is_digit_component(w, h, a), digit_by_ratio(w, h, a), "{} {} {}", w, h, a);
    }
    for _ in 0..300 {
        let (cols, rows) = (rng.below(30), rng.below(30));
        let p = rng.below(10);
        let m = plane(cols, rows, |_, _| 0);
        let mut m = m;
        for row in m.iter_mut() {
            for v in row.iter_mut() {
                *v = if rng.below(10) < p { 255 } else { 0 };
            }
        }
        assert_eq!(power_bar_fill_end(&m, cols), fill_by_ratio(&m, cols));
    }
    for _ in 0..2000 {
        let cols = 10 + rng.below(200) as i32;
        let n = rng.below(8);
        let rects: Vec<Rect> =
            (0..n).map(|_| r(rng.below(100) as i32, 0, rng.below(40) as i32, rng.below(40) as i32)).collect();
        assert_eq!(pick_wind_arrow(&rects, cols), arrow_by_ratio(&rects, cols));
    }
}

fn clamp_by_std(rc: Rect, cols: i32, rows: i32) -> Rect {
    let x = rc.x.clamp(0, (cols - 1).max(0));
    let y = rc.y.clamp(0, (rows - 1).max(0));
    let w = rc.width.clamp(1, (cols - x).max(1));
    let h = rc.height.clamp(1, (rows - y).max(1));
    r(x, y, w, h)
}

/// The four regions with the layout's percentages as floating-point factors.
fn rois_by_ratio(cols: i32, rows: i32) -> (Rect, Rect, Rect, Rect) {
    let (c, rw) = (cols as f64, rows as f64);
    (
        clamp_by_std(r(0, 0, (c * 0.22) as i32, (rw * 0.22) as i32), cols, rows),
        clamp_by_std(r((c * 0.02) as i32, (rw * 0.85) as i32, (c * 0.12) as i32, (rw * 0.12) as i32), cols, rows),
        clamp_by_std(r((c * 0.15) as i32, (rw * 0.92) as i32, (c * 0.70) as i32, (rw * 0.05) as i32), cols, rows),
        clamp_by_std(r((c * 0.40) as i32, (rw * 0.01) as i32, (c * 0.20) as i32, (rw * 0.06) as i32), cols, rows),
    )
}

#[test]
fn regions_agree_with_floating_point_layout() {
    let mut rng = Lcg(23);
    for _ in 0..20000 {
        let (cols, rows) = (rng.below(200_000) as i32, rng.below(200_000) as i32);
        assert_eq!(frame_rois(cols, rows), rois_by_ratio(cols, rows), "{} {}", cols, rows);
    }
    for cols in 0..3000 {
        assert_eq!(frame_rois(cols, cols / 2), rois_by_ratio(cols, cols / 2), "{}", cols);
    }
    for _ in 0..20000 {
        let rc = r(rng.below(400) as i32 - 200, rng.below(400) as i32 - 200, rng.below(400) as i32 - 200, rng.below(400) as i32 - 200);
        let (cols, rows) = (rng.below(300) as i32, rng.below(300) as i32);
        assert_eq!(clamp_rect(rc, cols, rows), clamp_by_std(rc, cols, rows));
    }
}
