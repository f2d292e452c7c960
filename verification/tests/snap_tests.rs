use tnt_comput::detect::{ColScan, MinimapPlanes};
use tnt_comput::geom::Rect;
use tnt_comput::snap::{edge_rows, hue_hist, snap_rows, snapped_rect};

fn rect(x: i32, y: i32, width: i32, height: i32) -> Rect {
    Rect { x, y, width, height }
}

#[test]
fn rows_around_the_drawn_box() {
    // 30% of 40 is 12 rows above and below
    assert_eq!(snap_rows(rect(10, 20, 50, 40), 100), Some((8, 72)));
    // clipped to the image
    assert_eq!(snap_rows(rect(10, 5, 50, 40), 50), Some((0, 49)));
    // too few rows left
    assert_eq!(snap_rows(rect(10, 0, 50, 5), 100), None);
    // a flat box counts as one row high
    assert_eq!(snap_rows(rect(0, 20, 10, 0), 100), None);
    assert_eq!(snap_rows(rect(0, 20, 10, 10), 100), Some((17, 33)));
}

#[test]
fn edge_rows_look_at_the_neighbours_too() {
    let w = 6;
    let mut ecol = vec![vec![false; w]; 5];
    ecol[0][2] = true;
    ecol[1][3] = true;
    ecol[2][4] = true;
    ecol[4][0] = true;
    let scan = ColScan { w: w as i32, h: 5, ecol, bright: vec![], soft: vec![] };
    // column 3 sees columns 2..=4
    assert_eq!(edge_rows(&scan, 0, 4, 3), 3);
    assert_eq!(edge_rows(&scan, 1, 2, 3), 2);
    // column 0 sees columns 0..=1 only
    assert_eq!(edge_rows(&scan, 0, 4, 0), 1);
    // the last column sees columns 4..=5
    assert_eq!(edge_rows(&scan, 0, 4, 5), 1);
}

#[test]
fn hue_histogram_of_saturated_pixels() {
    let hue = vec![vec![10u8, 20, 30, 40], vec![10, 10, 200, 40], vec![90, 90, 90, 90]];
    let sat = vec![vec![80u8, 80, 70, 255], vec![71, 0, 100, 100], vec![255, 255, 255, 255]];
    let p = MinimapPlanes { gray: vec![vec![0u8; 4]; 3], hue, sat, val: vec![vec![0u8; 4]; 3] };
    let h = hue_hist(&p, 0, 1, -5, 1);
    assert_eq!(h.len(), 256);
    assert_eq!((h[10], h[20]), (2, 1));
    assert_eq!(h.iter().sum::<u64>(), 3);
    let h = hue_hist(&p, 0, 2, 2, 9);
    assert_eq!((h[40], h[200], h[90], h[30]), (2, 1, 2, 0));
    // a strip entirely outside the image
    assert_eq!(hue_hist(&p, 0, 2, 7, 9).iter().sum::<u64>(), 0);
}

#[test]
fn snapped_box() {
    let roi = rect(10, 20, 50, 40);
    assert_eq!(snapped_rect(roi, 12, 58, 200), Some(rect(12, 20, 46, 40)));
    // neither side moved
    assert_eq!(snapped_rect(roi, 10, 60, 200), None);
    // narrower than a tenth of the image
    assert_eq!(snapped_rect(roi, 10, 29, 200), None);
    assert_eq!(snapped_rect(roi, 10, 30, 200), Some(rect(10, 20, 20, 40)));
}
