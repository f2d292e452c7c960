use vstd::prelude::*;
use crate::detect::{ColScan, MinimapPlanes, MAX_SIDE};
use crate::geom::{px, Rect};

verus! {

// The integer steps of snapping a hand-drawn box to the camera frame: the
// rows searched, the edge rows of each column, the hue histogram of a strip
// and the final box. Scoring the columns (circular hue means and weights)
// is floating-point and stays with the caller.

/// The row window of a hand-drawn box `roi` on an image `h` rows high:
/// 30% of its height above and below, clipped; none when it spans fewer
/// than 10 rows.
pub open spec fn snap_rows_spec(roi: Rect, h: int) -> Option<(int, int)> {
    let rh = if roi.height >= 1 { roi.height as int } else { 1 };
    let a = roi.y - rh * 30 / 100;
    let b = roi.y + roi.height + rh * 30 / 100;
    let y0 = if a >= 0 { a } else { 0 };
    let y1 = if b <= h - 1 { b } else { h - 1 };
    if y1 - y0 < 10 { None } else { Some((y0, y1)) }
}

pub open spec fn roi_fits(roi: Rect) -> bool {
    &&& -MAX_SIDE <= roi.x <= MAX_SIDE
    &&& -MAX_SIDE <= roi.y <= MAX_SIDE
    &&& 0 <= roi.width <= MAX_SIDE
    &&& 0 <= roi.height <= MAX_SIDE
}

/// The rows searched for the frame's sides (see `snap_rows_spec`).
pub fn snap_rows(roi: Rect, h: i32) -> (r: Option<(i32, i32)>)
    requires
        roi_fits(roi),
        0 <= h <= MAX_SIDE,
    ensures
        match r {
            None => snap_rows_spec(roi, h as int) is None,
            Some((y0, y1)) => snap_rows_spec(roi, h as int) == Some((y0 as int, y1 as int)),
        },
{
    let rh: i32 = if roi.height >= 1 { roi.height } else { 1 };
    let m = rh * 30 / 100;
    let a = roi.y - m;
    let b = roi.y + roi.height + m;
    let y0 = if a >= 0 { a } else { 0 };
    let y1 = if b <= h - 1 { b } else { h - 1 };
    if y1 - y0 < 10 {
        None
    } else {
        Some((y0, y1))
    }
}

/// Rows `y0..k` in which column `x` or a neighbour carries an edge pixel.
pub open spec fn edge_rows_spec(scan: &ColScan, y0: int, k: int, x: int) -> int
    decreases k - y0,
{
    if k <= y0 {
        0
    } else {
        let y = k - 1;
        let xa = if x - 1 >= 0 { x - 1 } else { 0 };
        let xb = if x + 1 <= scan.w - 1 { x + 1 } else { scan.w - 1 };
        edge_rows_spec(scan, y0, k - 1, x) + if exists|xx: int| xa <= xx <= xb && #[trigger] scan.ecol@[y]@[xx] {
            1int
        } else {
            0int
        }
    }
}

pub open spec fn scan_ok(scan: &ColScan) -> bool {
    &&& 1 <= scan.w <= MAX_SIDE
    &&& 0 <= scan.h <= MAX_SIDE
    &&& scan.ecol@.len() == scan.h
    &&& forall|y: int| 0 <= y < scan.h ==> #[trigger] scan.ecol@[y]@.len() == scan.w
}

/// Edge rows of column `x` over rows `y0..=y1` (see `edge_rows_spec`).
pub fn edge_rows(scan: &ColScan, y0: i32, y1: i32, x: i32) -> (r: i32)
    requires
        scan_ok(scan),
        0 <= y0 <= y1 < scan.h,
        0 <= x < scan.w,
    ensures
        r == edge_rows_spec(scan, y0 as int, y1 + 1, x as int),
        0 <= r <= y1 - y0 + 1,
{
    let xa = if x - 1 >= 0 { x - 1 } else { 0 };
    let xb = if x + 1 <= scan.w - 1 { x + 1 } else { scan.w - 1 };
    let mut n: i32 = 0;
    let mut y = y0;
    while y <= y1
        invariant
            scan_ok(scan),
            0 <= y0 <= y <= y1 + 1,
            y1 < scan.h,
            0 <= x < scan.w,
            xa == (if x - 1 >= 0 { x - 1 } else { 0 }),
            xb == (if x + 1 <= scan.w - 1 { x + 1 } else { scan.w - 1 }),
            n == edge_rows_spec(scan, y0 as int, y as int, x as int),
            0 <= n <= y - y0,
        decreases y1 + 1 - y,
    {
        let mut hit = false;
        let mut xx = xa;
        while xx <= xb
            invariant
                scan_ok(scan),
                0 <= y < scan.h,
                0 <= xa <= xx <= xb + 1,
                xb < scan.w,
                hit == exists|z: int| xa <= z < xx && #[trigger] scan.ecol@[y as int]@[z],
            decreases xb + 1 - xx,
        {
            if scan.ecol[y as usize][xx as usize] {
                hit = true;
            }
            xx = xx + 1;
        }
        if hit {
            n = n + 1;
        }
        y = y + 1;
    }
    n
}

/// Saturated pixels (saturation above 70) of hue `v` in rows `y0..k`,
/// columns `xa..=xb`.
pub open spec fn hue_count(p: &MinimapPlanes, y0: int, k: int, xa: int, xb: int, v: int) -> int
    decreases k - y0,
{
    if k <= y0 { 0 } else { hue_count(p, y0, k - 1, xa, xb, v) + hue_count_row(p, k - 1, xa, xb + 1, v) }
}

pub open spec fn hue_count_row(p: &MinimapPlanes, y: int, xa: int, k: int, v: int) -> int
    decreases k - xa,
{
    if k <= xa {
        0
    } else {
        hue_count_row(p, y, xa, k - 1, v) + if px(p.sat@, y, k - 1) > 70 && px(p.hue@, y, k - 1) == v { 1int } else { 0int }
    }
}

proof fn lemma_hue_count_row_bound(p: &MinimapPlanes, y: int, xa: int, k: int, v: int)
    ensures
        0 <= hue_count_row(p, y, xa, k, v) <= (if k >= xa { k - xa } else { 0 }),
    decreases k - xa,
{
    if k > xa {
        lemma_hue_count_row_bound(p, y, xa, k - 1, v);
    }
}

proof fn lemma_hue_count_bound(p: &MinimapPlanes, y0: int, k: int, xa: int, xb: int, v: int)
    requires
        xa <= xb + 1,
    ensures
        0 <= hue_count(p, y0, k, xa, xb, v) <= (if k >= y0 { (k - y0) * (xb + 1 - xa) } else { 0 }),
    decreases k - y0,
{
    if k > y0 {
        lemma_hue_count_bound(p, y0, k - 1, xa, xb, v);
        lemma_hue_count_row_bound(p, k - 1, xa, xb + 1, v);
        assert((k - 1 - y0) * (xb + 1 - xa) + (xb + 1 - xa) == (k - y0) * (xb + 1 - xa)) by (nonlinear_arith);
    }
}

proof fn lemma_hue_count_empty(p: &MinimapPlanes, y0: int, k: int, xa: int, xb: int, v: int)
    requires
        xb < xa,
    ensures
        hue_count(p, y0, k, xa, xb, v) == 0,
    decreases k - y0,
{
    if k > y0 {
        lemma_hue_count_empty(p, y0, k - 1, xa, xb, v);
    }
}

/// Histogram of the hues of the saturated pixels of the strip of columns
/// `xa..=xb` (clipped to the image) over rows `y0..=y1`: entry `v` counts
/// those of hue `v`.
pub fn hue_hist(p: &MinimapPlanes, y0: i32, y1: i32, xa: i32, xb: i32) -> (r: Vec<u64>)
    requires
        p.wf(),
        0 <= y0 <= y1 < p.height(),
        -MAX_SIDE <= xa <= MAX_SIDE,
        -MAX_SIDE <= xb <= MAX_SIDE,
    ensures
        r@.len() == 256,
        forall|v: int| 0 <= v < 256 ==> #[trigger] r@[v] == hue_count(
            p,
            y0 as int,
            y1 + 1,
            if xa >= 0 { xa as int } else { 0 },
            if xb <= p.width() - 1 { xb as int } else { p.width() - 1 },
            v,
        ),
{
    let w = p.gray[0].len() as i32;
    let a = if xa >= 0 { xa } else { 0 };
    let b = if xb <= w - 1 { xb } else { w - 1 };
    let mut hist: Vec<u64> = Vec::new();
    let mut i: usize = 0;
    while i < 256
        invariant
            i <= 256,
            hist@.len() == i,
            forall|v: int| 0 <= v < i ==> #[trigger] hist@[v] == 0,
        decreases 256 - i,
    {
        hist.push(0);
        i = i + 1;
    }
    if a > b {
        proof {
            assert forall|v: int| 0 <= v < 256 implies #[trigger] hist@[v] == hue_count(p, y0 as int, y1 + 1, a as int, b as int, v) by {
                lemma_hue_count_empty(p, y0 as int, y1 + 1, a as int, b as int, v);
            }
        }
        return hist;
    }
    let mut y = y0;
    while y <= y1
        invariant
            p.wf(),
            w == p.width(),
            0 <= y0 <= y <= y1 + 1,
            y1 < p.height(),
            0 <= a <= b < w,
            w <= MAX_SIDE,
            hist@.len() == 256,
            forall|v: int| 0 <= v < 256 ==> #[trigger] hist@[v] == hue_count(p, y0 as int, y as int, a as int, b as int, v),
        decreases y1 + 1 - y,
    {
        let mut x = a;
        while x <= b
            invariant
                p.wf(),
                w == p.width(),
                0 <= y0 <= y <= y1,
                y1 < p.height(),
                0 <= a <= x <= b + 1,
                b < w,
                w <= MAX_SIDE,
                    hist@.len() == 256,
                forall|v: int| 0 <= v < 256 ==> #[trigger] hist@[v] == hue_count(p, y0 as int, y as int, a as int, b as int, v)
                    + hue_count_row(p, y as int, a as int, x as int, v),
            decreases b + 1 - x,
        {
            let s = p.sat[y as usize][x as usize];
            let hv = p.hue[y as usize][x as usize];
            if s > 70 {
                let k = hv as usize;
                proof {
                    lemma_hue_count_bound(p, y0 as int, y as int, a as int, b as int, k as int);
                    lemma_hue_count_row_bound(p, y as int, a as int, x as int, k as int);
                    assert((y - y0) * (b + 1 - a) + (x - a) < MAX_SIDE * (MAX_SIDE + 1)) by (nonlinear_arith)
                        requires
                            0 <= y0 <= y <= y1,
                            y1 < MAX_SIDE,
                            0 <= a <= x <= b,
                            b < MAX_SIDE;
                }
                let c = hist[k];
                hist.set(k, c + 1);
            }
            x = x + 1;
        }
        y = y + 1;
    }
    hist
}

/// The snapped box: the found left and right sides with the drawn box's rows,
/// none when neither side moved or the box came out narrower than a tenth
/// of the image.
pub open spec fn snapped_rect_spec(roi: Rect, left: int, right: int, w: int) -> Option<Rect> {
    if left == roi.x && right == roi.x + roi.width {
        None
    } else if right - left < w * 10 / 100 {
        None
    } else {
        Some(Rect { x: left as i32, y: roi.y, width: (right - left) as i32, height: roi.height })
    }
}

/// The box made of the snapped sides (see `snapped_rect_spec`).
pub fn snapped_rect(roi: Rect, left: i32, right: i32, w: i32) -> (r: Option<Rect>)
    requires
        roi_fits(roi),
        -MAX_SIDE <= left <= 2 * MAX_SIDE,
        -MAX_SIDE <= right <= 2 * MAX_SIDE,
        0 <= w <= MAX_SIDE,
    ensures
        r == snapped_rect_spec(roi, left as int, right as int, w as int),
{
    if left == roi.x && right == roi.x + roi.width {
        None
    } else if right - left < w * 10 / 100 {
        None
    } else {
        Some(Rect { x: left, y: roi.y, width: right - left, height: roi.height })
    }
}

} // verus!
