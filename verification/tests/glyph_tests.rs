use tnt_comput::glyph::{counter_area, glyph_height, stroke_width};

struct Lcg(u64);

impl Lcg {
    fn below(&mut self, n: usize) -> usize {
        self.0 = self.0.wrapping_mul(6364136223846793005).wrapping_add(1442695040888963407);
        ((self.0 >> 33) % n as u64) as usize
    }
}

fn image(rows: &[&str]) -> (Vec<Vec<u8>>, usize, usize) {
    let g: Vec<Vec<u8>> = rows.iter().map(|r| r.bytes().map(|b| if b == b'#' { 255 } else { 0 }).collect()).collect();
    let (w, h) = (g[0].len(), g.len());
    (g, w, h)
}

#[test]
fn ring_has_its_inside_as_counter() {
    let (g, w, h) = image(&[
        "........",
        "..####..",
        "..#..#..",
        "..#..#..",
        "..####..",
        "........",
    ]);
    assert_eq!(glyph_height(&g, w, h, 0), 4);
    // runs: 4, 1, 1, 1, 1, 4 -> sorted 1 1 1 1 4 4, median at index 3
    assert_eq!(stroke_width(&g, w, h, 0), 1);
    assert_eq!(counter_area(&g, w, h, 0), 4);
}

#[test]
fn eight_has_two_counters_and_a_gap_opens_one() {
    let (g, w, h) = image(&[
        ".###.",
        ".#.#.",
        ".###.",
        ".#.#.",
        ".###.",
    ]);
    assert_eq!(counter_area(&g, w, h, 0), 2);
    assert_eq!(glyph_height(&g, w, h, 0), 5);
    let (g, w, h) = image(&[
        ".###.",
        ".#.#.",
        ".###.",
        ".#...",
        ".###.",
    ]);
    assert_eq!(counter_area(&g, w, h, 0), 1);
}

#[test]
fn diagonal_gaps_do_not_open_a_counter() {
    // the inside touches the outside only at a corner: four-connected fill stops there
    let (g, w, h) = image(&[
        "......",
        ".###..",
        ".#.#..",
        ".##.#.",
        "....#.",
    ]);
    assert_eq!(counter_area(&g, w, h, 0), 1);
}

#[test]
fn empty_images() {
    let g = vec![vec![0u8; 7]; 5];
    assert_eq!(glyph_height(&g, 7, 5, 0), 0);
    assert_eq!(stroke_width(&g, 7, 5, 0), 0);
    assert_eq!(counter_area(&g, 7, 5, 0), 0);
    // no rows: no foreground, so no height
    let g: Vec<Vec<u8>> = Vec::new();
    assert_eq!(glyph_height(&g, 0, 0, 0), 0);
    // ink in the first row only
    let mut g = vec![vec![0u8; 4]; 3];
    g[0][2] = 9;
    assert_eq!(glyph_height(&g, 4, 3, 0), 1);
    assert_eq!(counter_area(&g, 0, 0, 0), 0);
}

#[test]
fn threshold_decides_what_is_ink() {
    let g = vec![vec![0, 0, 0, 0, 0], vec![0, 90, 90, 90, 0], vec![0, 90, 20, 90, 0], vec![0, 90, 90, 90, 0], vec![0, 0, 0, 0, 0]];
    assert_eq!(counter_area(&g, 5, 5, 0), 0);
    assert_eq!(counter_area(&g, 5, 5, 40), 1);
    assert_eq!(counter_area(&g, 5, 5, 90), 0);
    assert_eq!(glyph_height(&g, 5, 5, 90), 0);
    assert_eq!(stroke_width(&g, 5, 5, 0), 3);
    // runs 3; 1, 1; 3 -> sorted 1 1 3 3, index 2
    assert_eq!(stroke_width(&g, 5, 5, 40), 3);
}

#[test]
fn median_run_of_even_count_takes_the_upper_middle() {
    // runs 1, 2, 3, 5 -> index 2 of the sorted runs
    let (g, w, h) = image(&["#.##.###", "#####..."]);
    assert_eq!(stroke_width(&g, w, h, 0), 3);
}

/// A small glyph-like image: one to three rectangle outlines and a few stray pixels.
fn scene(seed: u64) -> (usize, usize, Vec<Vec<u8>>, u8) {
    let mut r = Lcg(seed);
    let w = 8 + r.below(25);
    let h = 8 + r.below(25);
    let mut g = vec![vec![0u8; w]; h];
    let n = 1 + r.below(3);
    for _ in 0..n {
        let bw = 2 + r.below(w - 1);
        let bh = 2 + r.below(h - 1);
        let x0 = r.below(w - bw + 1);
        let y0 = r.below(h - bh + 1);
        let th = 1 + r.below(2);
        let v = (1 + r.below(255)) as u8;
        for y in y0..(y0 + bh).min(h) {
            for x in x0..(x0 + bw).min(w) {
                if x < x0 + th || x >= x0 + bw - th || y < y0 + th || y >= y0 + bh - th {
                    g[y][x] = v;
                }
            }
        }
    }
    let k = r.below(6);
    for _ in 0..k {
        let v = r.below(256) as u8;
        let y = r.below(h);
        let x = r.below(w);
        g[y][x] = v;
    }
    let t = [0u8, 0, 40, 128][r.below(4)];
    (w, h, g, t)
}

#[test]
fn glyph_measures_on_random_images() {
    // (height, stroke width, counter area) of the image of each seed 1..=200
    let expected: Vec<(u32, u32, u32)> = vec![
        (6, 1, 79), (12, 2, 0), (21, 1, 114), (9, 2, 0), (28, 2, 221), (10, 1, 23),
        (10, 1, 17), (20, 2, 129), (23, 2, 0), (30, 2, 160), (8, 2, 16), (1, 1, 0),
        (15, 2, 60), (18, 2, 296), (0, 0, 0), (8, 2, 36), (12, 2, 9), (17, 1, 126),
        (22, 1, 159), (15, 3, 0), (22, 1, 0), (9, 1, 60), (16, 1, 96), (19, 2, 46),
        (18, 2, 56), (27, 1, 200), (12, 2, 11), (14, 2, 121), (20, 2, 83), (14, 1, 72),
        (24, 2, 97), (6, 1, 8), (10, 2, 9), (12, 2, 64), (21, 2, 198), (25, 2, 57),
        (6, 1, 0), (10, 1, 40), (15, 2, 88), (24, 2, 140), (27, 1, 353), (8, 1, 62),
        (13, 1, 6), (10, 2, 101), (21, 2, 15), (24, 2, 65), (8, 1, 66), (11, 1, 64),
        (14, 1, 0), (10, 2, 132), (12, 2, 89), (25, 1, 0), (11, 4, 0), (9, 1, 0),
        (19, 1, 176), (12, 2, 6), (26, 2, 242), (8, 1, 0), (16, 2, 59), (18, 2, 172),
        (18, 1, 143), (29, 1, 19), (1, 1, 0), (12, 1, 35), (19, 7, 21), (20, 1, 28),
        (27, 2, 412), (7, 1, 47), (2, 2, 0), (14, 2, 180), (20, 3, 111), (28, 2, 63),
        (30, 1, 263), (12, 1, 108), (14, 2, 54), (22, 2, 413), (26, 2, 14), (1, 1, 0),
        (6, 1, 19), (12, 2, 63), (22, 2, 82), (19, 2, 12), (28, 1, 72), (12, 1, 116),
        (12, 2, 62), (18, 2, 110), (23, 2, 234), (24, 1, 10), (7, 1, 59), (11, 2, 78),
        (14, 2, 23), (20, 1, 18), (20, 2, 224), (6, 1, 7), (10, 1, 2), (0, 0, 0),
        (24, 1, 263), (16, 1, 0), (6, 1, 68), (12, 1, 90), (18, 1, 0), (6, 7, 1),
        (27, 2, 291), (8, 1, 0), (9, 6, 7), (16, 14, 0), (20, 2, 48), (26, 1, 126),
        (32, 1, 634), (11, 1, 18), (8, 8, 0), (9, 2, 86), (0, 0, 0), (16, 1, 196),
        (9, 1, 9), (16, 5, 0), (20, 1, 88), (7, 2, 0), (24, 1, 44), (11, 2, 39),
        (12, 12, 0), (18, 1, 0), (21, 2, 69), (1, 1, 0), (3, 31, 29), (14, 2, 10),
        (16, 2, 39), (23, 2, 28), (6, 1, 0), (9, 1, 50), (7, 8, 11), (14, 2, 0),
        (23, 1, 138), (25, 2, 0), (7, 9, 26), (7, 1, 0), (13, 2, 30), (0, 0, 0),
        (14, 1, 0), (32, 1, 178), (11, 2, 28), (15, 2, 166), (6, 4, 0), (1, 1, 0),
        (31, 1, 694), (10, 1, 74), (14, 2, 0), (15, 2, 0), (21, 1, 88), (0, 0, 0),
        (5, 1, 4), (14, 2, 20), (18, 1, 31), (14, 2, 49), (24, 1, 348), (8, 1, 0),
        (12, 4, 0), (11, 1, 0), (18, 2, 83), (26, 2, 0), (32, 1, 132), (8, 2, 28),
        (17, 2, 62), (21, 4, 16), (25, 2, 216), (30, 1, 60), (10, 2, 22), (7, 12, 8),
        (22, 2, 55), (24, 2, 37), (28, 1, 169), (10, 21, 52), (14, 5, 51), (8, 3, 0),
        (1, 1, 0), (22, 1, 25), (8, 5, 2), (12, 1, 0), (17, 1, 113), (20, 1, 24),
        (28, 1, 650), (6, 1, 17), (13, 1, 40), (18, 2, 215), (18, 2, 139), (14, 1, 87),
        (7, 1, 62), (4, 18, 0), (17, 1, 97), (20, 1, 71), (25, 2, 328), (28, 1, 24),
        (10, 5, 0), (16, 2, 233), (19, 2, 127), (24, 2, 83), (22, 1, 45), (10, 2, 22),
        (1, 1, 0), (9, 4, 0),
    ];
    for (i, e) in expected.iter().enumerate() {
        let (w, h, g, t) = scene(i as u64 + 1);
        let got = (glyph_height(&g, w, h, t), stroke_width(&g, w, h, t), counter_area(&g, w, h, t));
        assert_eq!(got, *e, "seed {}", i + 1);
    }
}
