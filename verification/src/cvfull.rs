use vstd::prelude::*;
use crate::geom::{box_ok, dark_ring, dark_ring_spec, BgrPlanes, Point, Rect};

verus! {

// ------------------------------------------------------------ clustering

/// `q` is within `t` of `p` along both axes.
pub open spec fn near(q: Point, p: Point, t: int) -> bool {
    let dx = q.x - p.x;
    let dy = q.y - p.y;
    -t <= dx <= t && -t <= dy <= t
}

pub open spec fn near_any(c: Seq<Point>, p: Point, t: int) -> bool {
    exists|i: int| 0 <= i < c.len() && near(#[trigger] c[i], p, t)
}

/// Index of the first cluster from `i` on with a member near `p`, or the
/// number of clusters.
pub open spec fn first_near(cs: Seq<Seq<Point>>, p: Point, t: int, i: int) -> int
    decreases cs.len() - i,
{
    if i >= cs.len() {
        cs.len() as int
    } else if near_any(cs[i], p, t) {
        i
    } else {
        first_near(cs, p, t, i + 1)
    }
}

/// Clusters of `pts[0..k]`: each point joins the first cluster that has a
/// member within `t` of it along both axes, or starts a new one.
pub open spec fn clusters(pts: Seq<Point>, t: int, k: int) -> Seq<Seq<Point>>
    decreases k,
{
    if k <= 0 {
        Seq::empty()
    } else {
        let cs = clusters(pts, t, k - 1);
        let p = pts[k - 1];
        let j = first_near(cs, p, t, 0);
        if j < cs.len() {
            cs.update(j, cs[j].push(p))
        } else {
            cs.push(seq![p])
        }
    }
}

pub open spec fn sum_x(c: Seq<Point>) -> int
    decreases c.len(),
{
    if c.len() == 0 { 0 } else { sum_x(c.drop_last()) + c.last().x }
}

pub open spec fn sum_y(c: Seq<Point>) -> int
    decreases c.len(),
{
    if c.len() == 0 { 0 } else { sum_y(c.drop_last()) + c.last().y }
}

/// Mean position of a cluster, rounded down.
pub open spec fn centroid(c: Seq<Point>) -> Point {
    Point { x: (sum_x(c) / (c.len() as int)) as i32, y: (sum_y(c) / (c.len() as int)) as i32 }
}

pub open spec fn pts_ok(c: Seq<Point>) -> bool {
    forall|i: int| 0 <= i < c.len() ==> 0 <= #[trigger] c[i].x && 0 <= c[i].y
}

proof fn lemma_sums_bound(c: Seq<Point>)
    requires
        pts_ok(c),
    ensures
        0 <= sum_x(c) <= c.len() * (i32::MAX as int),
        0 <= sum_y(c) <= c.len() * (i32::MAX as int),
    decreases c.len(),
{
    if c.len() > 0 {
        assert(pts_ok(c.drop_last())) by {
            assert forall|i: int| 0 <= i < c.drop_last().len() implies 0 <= #[trigger] c.drop_last()[i].x && 0
                <= c.drop_last()[i].y by {
                assert(c.drop_last()[i] == c[i]);
            }
        }
        lemma_sums_bound(c.drop_last());
        assert(0 <= c[c.len() - 1].x);
    }
}

proof fn lemma_centroid_ok(c: Seq<Point>)
    requires
        pts_ok(c),
        c.len() > 0,
    ensures
        0 <= sum_x(c) / (c.len() as int) <= i32::MAX,
        0 <= sum_y(c) / (c.len() as int) <= i32::MAX,
{
    lemma_sums_bound(c);
    let n = c.len() as int;
    let m = i32::MAX as int;
    assert(sum_x(c) / n <= m) by (nonlinear_arith)
        requires
            0 <= sum_x(c) <= n * m,
            n > 0;
    assert(sum_y(c) / n <= m) by (nonlinear_arith)
        requires
            0 <= sum_y(c) <= n * m,
            n > 0;
    assert(0 <= sum_x(c) / n) by (nonlinear_arith)
        requires
            0 <= sum_x(c),
            n > 0;
    assert(0 <= sum_y(c) / n) by (nonlinear_arith)
        requires
            0 <= sum_y(c),
            n > 0;
}

fn near_any_exec(c: &Vec<Point>, p: Point, t: i32) -> (r: bool)
    requires
        pts_ok(c@),
        0 <= p.x,
        0 <= p.y,
    ensures
        r == near_any(c@, p, t as int),
{
    let mut i: usize = 0;
    while i < c.len()
        invariant
            pts_ok(c@),
            0 <= p.x,
            0 <= p.y,
            i <= c.len(),
            forall|j: int| 0 <= j < i ==> !near(#[trigger] c@[j], p, t as int),
        decreases c.len() - i,
    {
        let q = c[i];
        proof {
            assert(0 <= c@[i as int].x && 0 <= c@[i as int].y);
        }
        let dx = q.x as i64 - p.x as i64;
        let dy = q.y as i64 - p.y as i64;
        if -(t as i64) <= dx && dx <= t as i64 && -(t as i64) <= dy && dy <= t as i64 {
            proof {
                assert(near(c@[i as int], p, t as int));
            }
            return true;
        }
        i = i + 1;
    }
    false
}

/// The clusters of `points` (see `clusters`).
fn build_clusters(points: &Vec<Point>, threshold: i32) -> (cs: Vec<Vec<Point>>)
    requires
        pts_ok(points@),
    ensures
        cs@.len() == clusters(points@, threshold as int, points@.len() as int).len(),
        forall|i: int| 0 <= i < cs@.len() ==> #[trigger] cs@[i]@ == clusters(points@, threshold as int, points@.len() as int)[i],
        forall|i: int| 0 <= i < cs@.len() ==> pts_ok(#[trigger] cs@[i]@) && cs@[i]@.len() > 0,
{
    let mut cs: Vec<Vec<Point>> = Vec::new();
    let mut k: usize = 0;
    while k < points.len()
        invariant
            pts_ok(points@),
            k <= points.len(),
            cs@.len() == clusters(points@, threshold as int, k as int).len(),
            forall|i: int| 0 <= i < cs@.len() ==> #[trigger] cs@[i]@ == clusters(points@, threshold as int, k as int)[i],
            forall|i: int| 0 <= i < cs@.len() ==> pts_ok(#[trigger] cs@[i]@) && cs@[i]@.len() > 0,
        decreases points.len() - k,
    {
        let p = points[k];
        proof {
            assert(0 <= points@[k as int].x && 0 <= points@[k as int].y);
        }
        let ghost gcs = clusters(points@, threshold as int, k as int);
        let mut j: usize = 0;
        while j < cs.len() && !near_any_exec(&cs[j], p, threshold)
            invariant
                j <= cs@.len(),
                0 <= p.x,
                0 <= p.y,
                cs@.len() == gcs.len(),
                forall|i: int| 0 <= i < cs@.len() ==> #[trigger] cs@[i]@ == gcs[i],
                forall|i: int| 0 <= i < cs@.len() ==> pts_ok(#[trigger] cs@[i]@) && cs@[i]@.len() > 0,
                first_near(gcs, p, threshold as int, 0) == first_near(gcs, p, threshold as int, j as int),
            decreases cs.len() - j,
        {
            j = j + 1;
        }
        if j < cs.len() {
            let prev = &cs[j];
            let mut nc: Vec<Point> = Vec::new();
            let mut i: usize = 0;
            while i < prev.len()
                invariant
                    i <= prev.len(),
                    nc@ == prev@.take(i as int),
                decreases prev.len() - i,
            {
                proof {
                    assert(prev@.take(i + 1) =~= prev@.take(i as int).push(prev@[i as int]));
                }
                nc.push(prev[i]);
                i = i + 1;
            }
            proof {
                assert(prev@.take(i as int) =~= prev@);
            }
            nc.push(p);
            proof {
                assert(pts_ok(nc@)) by {
                    assert forall|t: int| 0 <= t < nc@.len() implies 0 <= #[trigger] nc@[t].x && 0 <= nc@[t].y by {
                        if t < prev@.len() {
                            assert(nc@[t] == cs@[j as int]@[t]);
                            assert(pts_ok(cs@[j as int]@));
                            assert(0 <= cs@[j as int]@[t].x && 0 <= cs@[j as int]@[t].y);
                        }
                    }
                }
            }
            cs.set(j, nc);
        } else {
            let mut nc: Vec<Point> = Vec::new();
            nc.push(p);
            proof {
                assert(nc@ =~= seq![p]);
            }
            cs.push(nc);
        }
        k = k + 1;
    }
    cs
}

/// Every cluster's coordinates add up to at most `i32::MAX` on each axis.
pub open spec fn sums_fit(cs: Seq<Seq<Point>>) -> bool {
    forall|i: int| 0 <= i < cs.len() ==> sum_x(#[trigger] cs[i]) <= i32::MAX && sum_y(cs[i]) <= i32::MAX
}

proof fn lemma_sum_prefix(c: Seq<Point>, t: int)
    requires
        pts_ok(c),
        0 <= t <= c.len(),
    ensures
        sum_x(c.take(t)) <= sum_x(c),
        sum_y(c.take(t)) <= sum_y(c),
    decreases c.len() - t,
{
    if t < c.len() {
        lemma_sum_prefix(c, t + 1);
        assert(c.take(t + 1).drop_last() =~= c.take(t));
        assert(0 <= c[t].x && 0 <= c[t].y);
    } else {
        assert(c.take(t) =~= c);
    }
}

/// The sums of `c` (`(sum_x(c), sum_y(c))`).
fn cluster_sums(c: &Vec<Point>) -> (r: (i128, i128))
    requires
        pts_ok(c@),
        c@.len() > 0,
    ensures
        r.0 == sum_x(c@),
        r.1 == sum_y(c@),
{
    proof {
        lemma_sums_bound(c@);
    }
    let mut sx: i128 = 0;
    let mut sy: i128 = 0;
    let mut t: usize = 0;
    while t < c.len()
        invariant
            pts_ok(c@),
            c@.len() > 0,
            t <= c.len(),
            sx == sum_x(c@.take(t as int)),
            sy == sum_y(c@.take(t as int)),
            0 <= sx <= t * (i32::MAX as int),
            0 <= sy <= t * (i32::MAX as int),
        decreases c.len() - t,
    {
        proof {
            assert(c@.take(t + 1).drop_last() =~= c@.take(t as int));
            assert(0 <= c@[t as int].x && 0 <= c@[t as int].y);
        }
        sx = sx + c[t].x as i128;
        sy = sy + c[t].y as i128;
        t = t + 1;
    }
    proof {
        assert(c@.take(t as int) =~= c@);
    }
    (sx, sy)
}

/// Whether the coordinates of every cluster of `points` add up within
/// `i32` (see `sums_fit`): the condition under which `cluster_points` can
/// take its means the way the screenshot tools do, in `i32`.
pub fn cluster_sums_fit(points: &Vec<Point>, threshold: i32) -> (r: bool)
    requires
        pts_ok(points@),
    ensures
        r == sums_fit(clusters(points@, threshold as int, points@.len() as int)),
{
    let cs = build_clusters(points, threshold);
    let ghost gcs = clusters(points@, threshold as int, points@.len() as int);
    let mut i: usize = 0;
    while i < cs.len()
        invariant
            gcs == clusters(points@, threshold as int, points@.len() as int),
            cs@.len() == gcs.len(),
            forall|j: int| 0 <= j < cs@.len() ==> #[trigger] cs@[j]@ == gcs[j],
            forall|j: int| 0 <= j < cs@.len() ==> pts_ok(#[trigger] cs@[j]@) && cs@[j]@.len() > 0,
            i <= cs.len(),
            forall|j: int| 0 <= j < i ==> sum_x(#[trigger] gcs[j]) <= i32::MAX && sum_y(gcs[j]) <= i32::MAX,
        decreases cs.len() - i,
    {
        proof {
            assert(pts_ok(cs@[i as int]@));
        }
        let (sx, sy) = cluster_sums(&cs[i]);
        if sx > i32::MAX as i128 || sy > i32::MAX as i128 {
            proof {
                assert(cs@[i as int]@ == gcs[i as int]);
                assert(!(sum_x(gcs[i as int]) <= i32::MAX && sum_y(gcs[i as int]) <= i32::MAX));
            }
            return false;
        }
        proof {
            assert(cs@[i as int]@ == gcs[i as int]);
        }
        i = i + 1;
    }
    true
}

/// Merges points lying close together into clusters and returns the
/// centroid of each cluster, in the order the clusters were started (see
/// `clusters`). The means are taken of coordinate sums that fit in `i32`.
pub fn cluster_points(points: &Vec<Point>, threshold: i32) -> (r: Vec<Point>)
    requires
        pts_ok(points@),
        points@.len() <= i32::MAX,
        sums_fit(clusters(points@, threshold as int, points@.len() as int)),
    ensures
        r@.len() == clusters(points@, threshold as int, points@.len() as int).len(),
        forall|i: int| 0 <= i < r@.len() ==> #[trigger] r@[i] == centroid(clusters(points@, threshold as int, points@.len() as int)[i]),
{
    let cs = build_clusters(points, threshold);
    let ghost gcs = clusters(points@, threshold as int, points@.len() as int);
    let mut out: Vec<Point> = Vec::new();
    let mut i: usize = 0;
    while i < cs.len()
        invariant
            cs@.len() == gcs.len(),
            forall|j: int| 0 <= j < cs@.len() ==> #[trigger] cs@[j]@ == gcs[j],
            forall|t: int| 0 <= t < cs@.len() ==> pts_ok(#[trigger] cs@[t]@) && cs@[t]@.len() > 0,
            sums_fit(gcs),
            out@.len() == i,
            i <= cs@.len(),
            forall|t: int| 0 <= t < i ==> #[trigger] out@[t] == centroid(cs@[t]@),
        decreases cs.len() - i,
    {
        let c = &cs[i];
        proof {
            assert(pts_ok(cs@[i as int]@));
            assert(cs@[i as int]@ == gcs[i as int]);
            lemma_centroid_ok(c@);
        }
        let mut sx: i32 = 0;
        let mut sy: i32 = 0;
        let mut t: usize = 0;
        while t < c.len()
            invariant
                pts_ok(c@),
                c@.len() > 0,
                sum_x(c@) <= i32::MAX,
                sum_y(c@) <= i32::MAX,
                t <= c.len(),
                sx == sum_x(c@.take(t as int)),
                sy == sum_y(c@.take(t as int)),
            decreases c.len() - t,
        {
            proof {
                assert(c@.take(t + 1).drop_last() =~= c@.take(t as int));
                lemma_sum_prefix(c@, t + 1);
            }
            sx = sx + c[t].x;
            sy = sy + c[t].y;
            t = t + 1;
        }
        proof {
            assert(c@.take(t as int) =~= c@);
            lemma_sums_bound(c@);
        }
        let n = c.len() as i128;
        out.push(Point { x: (sx as i128 / n) as i32, y: (sy as i128 / n) as i32 });
        i = i + 1;
    }
    out
}

// ------------------------------------------------------------ green frame

/// The width of the last outline box 51 to 226 pixels wide, if any.
pub open spec fn green_width(rects: Seq<Rect>, k: int) -> Option<int>
    decreases k,
{
    if k <= 0 {
        None
    } else if 50 < rects[k - 1].width <= 226 {
        Some(rects[k - 1].width as int)
    } else {
        green_width(rects, k - 1)
    }
}

/// The width of the thin green camera outline: of the outline boxes of the
/// green mask, the last one more than 50 and at most 226 pixels wide.
pub fn green_frame_width(rects: &Vec<Rect>) -> (r: Option<i32>)
    ensures
        match r {
            Some(w) => green_width(rects@, rects.len() as int) == Some(w as int),
            None => green_width(rects@, rects.len() as int) is None,
        },
{
    let mut i = rects.len();
    while i > 0
        invariant
            i <= rects.len(),
            forall|j: int| i <= j < rects.len() ==> !(50 < #[trigger] rects@[j].width <= 226),
            green_width(rects@, rects.len() as int) == green_width(rects@, i as int),
        decreases i,
    {
        let w = rects[i - 1].width;
        if 50 < w && w <= 226 {
            return Some(w);
        }
        i = i - 1;
    }
    None
}

// ------------------------------------------------------------ minimap dots

/// Blob `r` of a colour mask, if it is a player dot: 12..=64 pixels of box,
/// at most 9 wide and high, aspect strictly between 1:2 and 2:1, at least 5%
/// of the one-pixel ring around it dark (all channels below 100), and not
/// within 3 pixels of the minimap's border. The dot is the box's centre.
/// (The screenshot analysis tests the two ratios in binary64; 0.5 and 2 are
/// exact there, and for boxes this small no dark share lands near enough to
/// 0.05 for its rounding to matter, so the integer forms here are exact.)
pub open spec fn dot_of(p: &BgrPlanes, r: Rect) -> Option<Point> {
    let area = r.width * r.height;
    let (dark, total) = dark_ring_spec(p, r, 1, 100);
    let near_border = r.x <= 3 || r.y <= 3 || r.x + r.width >= p.width() - 3 || r.y + r.height >= p.height() - 3;
    if 12 <= area <= 64 && r.width <= 9 && r.height <= 9 && 2 * r.width > r.height && r.width < 2 * r.height
        && total > 0 && 20 * dark >= total && !near_border {
        Some(Point { x: (r.x + r.width / 2) as i32, y: (r.y + r.height / 2) as i32 })
    } else {
        None
    }
}

pub open spec fn dot_candidates(p: &BgrPlanes, rects: Seq<Rect>, k: int) -> Seq<Point>
    decreases k,
{
    if k <= 0 {
        Seq::empty()
    } else {
        let prev = dot_candidates(p, rects, k - 1);
        match dot_of(p, rects[k - 1]) {
            Some(d) => prev.push(d),
            None => prev,
        }
    }
}

/// `q` and `p` are closer than 10 pixels.
pub open spec fn too_close(q: Point, p: Point) -> bool {
    (q.x - p.x) * (q.x - p.x) + (q.y - p.y) * (q.y - p.y) < 100
}

/// Keeps each point of `pts[0..k]` unless an earlier kept point is closer
/// than 10 pixels.
pub open spec fn suppress(pts: Seq<Point>, k: int) -> Seq<Point>
    decreases k,
{
    if k <= 0 {
        Seq::empty()
    } else {
        let kept = suppress(pts, k - 1);
        let p = pts[k - 1];
        if exists|i: int| 0 <= i < kept.len() && too_close(#[trigger] kept[i], p) {
            kept
        } else {
            kept.push(p)
        }
    }
}

pub open spec fn in_image(pts: Seq<Point>, w: int, h: int) -> bool {
    forall|i: int| 0 <= i < pts.len() ==> 0 <= #[trigger] pts[i].x <= w && 0 <= pts[i].y <= h
}

/// The player dots of one colour on the minimap, given the bounding boxes
/// of the blobs of its colour mask: the dot-shaped blobs with a dark outline
/// (see `dot_of`), with any dot closer than 10 pixels to an earlier one
/// dropped.
pub fn find_dots_by_color_and_edge(p: &BgrPlanes, rects: &Vec<Rect>) -> (r: Vec<Point>)
    requires
        p.wf(),
        p.height() >= 1,
        forall|i: int| 0 <= i < rects.len() ==> box_ok(#[trigger] rects@[i], p.width(), p.height()),
    ensures
        r@ == suppress(dot_candidates(p, rects@, rects.len() as int), dot_candidates(p, rects@, rects.len() as int).len() as int),
{
    let cols = p.b[0].len() as i64;
    let rows = p.b.len() as i64;
    let mut cands: Vec<Point> = Vec::new();
    let mut i: usize = 0;
    while i < rects.len()
        invariant
            p.wf(),
            p.height() >= 1,
            cols == p.width(),
            rows == p.height(),
            forall|j: int| 0 <= j < rects.len() ==> box_ok(#[trigger] rects@[j], p.width(), p.height()),
            i <= rects.len(),
            cands@ == dot_candidates(p, rects@, i as int),
            in_image(cands@, cols as int, rows as int),
        decreases rects.len() - i,
    {
        let r = rects[i];
        proof {
            assert(box_ok(rects@[i as int], p.width(), p.height()));
            assert(0 <= r.width * r.height <= 20_000_000 * 20_000_000) by (nonlinear_arith)
                requires
                    0 <= r.width <= 20_000_000,
                    0 <= r.height <= 20_000_000;
        }
        let area = r.width as i64 * r.height as i64;
        if 12 <= area && area <= 64 && r.width <= 9 && r.height <= 9 && 2 * r.width as i64 > r.height as i64
            && (r.width as i64) < 2 * r.height as i64 {
            let (dark, total) = dark_ring(p, r, 1, 100);
            let near_border = r.x <= 3 || r.y <= 3 || r.x as i64 + r.width as i64 >= cols - 3 || r.y as i64
                + r.height as i64 >= rows - 3;
            if total > 0 && 20 * dark >= total && !near_border {
                cands.push(Point { x: r.x + r.width / 2, y: r.y + r.height / 2 });
            }
        }
        i = i + 1;
    }
    let ghost cs = cands@;
    let mut kept: Vec<Point> = Vec::new();
    let mut k: usize = 0;
    while k < cands.len()
        invariant
            cands@ == cs,
            in_image(cs, cols as int, rows as int),
            cols <= 20_000_000,
            rows <= 20_000_000,
            k <= cands.len(),
            kept@ == suppress(cs, k as int),
            in_image(kept@, cols as int, rows as int),
        decreases cands.len() - k,
    {
        let q = cands[k];
        proof {
            assert(0 <= cs[k as int].x <= cols && 0 <= cs[k as int].y <= rows);
        }
        let mut dup = false;
        let mut j: usize = 0;
        while j < kept.len()
            invariant
                in_image(kept@, cols as int, rows as int),
                cols <= 20_000_000,
                rows <= 20_000_000,
                0 <= q.x <= cols,
                0 <= q.y <= rows,
                j <= kept.len(),
                dup == exists|t: int| 0 <= t < j && too_close(#[trigger] kept@[t], q),
            decreases kept.len() - j,
        {
            let e = kept[j];
            proof {
                assert(0 <= kept@[j as int].x <= cols && 0 <= kept@[j as int].y <= rows);
            }
            let dx = e.x as i64 - q.x as i64;
            let dy = e.y as i64 - q.y as i64;
            proof {
                assert(dx * dx <= 400_000_000_000_000) by (nonlinear_arith)
                    requires
                        -20_000_000 <= dx <= 20_000_000;
                assert(dy * dy <= 400_000_000_000_000) by (nonlinear_arith)
                    requires
                        -20_000_000 <= dy <= 20_000_000;
                assert(dx * dx >= 0) by (nonlinear_arith);
                assert(dy * dy >= 0) by (nonlinear_arith);
            }
            let close = dx * dx + dy * dy < 100;
            proof {
                if close {
                    assert(too_close(kept@[j as int], q));
                }
            }
            dup = dup || close;
            j = j + 1;
        }
        if !dup {
            kept.push(q);
        }
        k = k + 1;
    }
    kept
}

/// `d` is the centre of box `r`, and `r` has the size, shape and outline of
/// a dot on the screenshot's minimap: 12 to 64 pixels, at most 9 wide and
/// high, neither side twice the other or more, at least 5% of its one-pixel
/// ring dark (all channels below 100), and more than 3 pixels from every
/// edge of the image.
pub open spec fn centre_of_shot_dot(p: &BgrPlanes, r: Rect, d: Point) -> bool {
    &&& 12 <= r.width * r.height <= 64
    &&& r.width <= 9 && r.height <= 9
    &&& 2 * r.width > r.height && 2 * r.height > r.width
    &&& dark_ring_spec(p, r, 1, 100).1 > 0
    &&& 100 * dark_ring_spec(p, r, 1, 100).0 >= 5 * dark_ring_spec(p, r, 1, 100).1
    &&& r.x > 3 && r.y > 3 && r.x + r.width < p.width() - 3 && r.y + r.height < p.height() - 3
    &&& d.x == r.x + r.width / 2
    &&& d.y == r.y + r.height / 2
}

proof fn lemma_candidates_sources(p: &BgrPlanes, rects: Seq<Rect>, k: int)
    requires
        0 <= k <= rects.len(),
        p.width() <= i32::MAX,
        p.height() <= i32::MAX,
        forall|j: int| 0 <= j < rects.len() ==> box_ok(#[trigger] rects[j], p.width(), p.height()),
    ensures
        forall|i: int|
            0 <= i < dot_candidates(p, rects, k).len() ==> exists|j: int|
                0 <= j < k && centre_of_shot_dot(p, rects[j], #[trigger] dot_candidates(p, rects, k)[i]),
        forall|j: int, d: Point|
            0 <= j < k && #[trigger] centre_of_shot_dot(p, rects[j], d) ==> dot_candidates(p, rects, k).contains(d),
    decreases k,
{
    if k > 0 {
        lemma_candidates_sources(p, rects, k - 1);
        let prev = dot_candidates(p, rects, k - 1);
        let cur = dot_candidates(p, rects, k);
        let r = rects[k - 1];
        assert(box_ok(r, p.width(), p.height()));
        assert(0 <= r.x + r.width / 2 <= i32::MAX && 0 <= r.y + r.height / 2 <= i32::MAX);
        assert forall|i: int| 0 <= i < cur.len() implies exists|j: int|
            0 <= j < k && centre_of_shot_dot(p, rects[j], #[trigger] cur[i]) by {
            if i < prev.len() {
                assert(cur[i] == prev[i]);
                let j = choose|j: int| 0 <= j < k - 1 && centre_of_shot_dot(p, rects[j], #[trigger] prev[i]);
                assert(centre_of_shot_dot(p, rects[j], cur[i]));
            } else {
                assert(dot_of(p, r) is Some);
                assert(centre_of_shot_dot(p, rects[k - 1], cur[i]));
            }
        }
        assert forall|j: int, d: Point|
            0 <= j < k && #[trigger] centre_of_shot_dot(p, rects[j], d) implies cur.contains(d) by {
            if j == k - 1 {
                assert(dot_of(p, r) is Some);
                assert(cur[cur.len() - 1] == d);
            } else {
                let i = choose|i: int| 0 <= i < prev.len() && prev[i] == d;
                assert(cur[i] == prev[i]);
            }
        }
    }
}

proof fn lemma_suppress_facts(pts: Seq<Point>, k: int)
    requires
        0 <= k <= pts.len(),
    ensures
        forall|i: int|
            0 <= i < suppress(pts, k).len() ==> exists|j: int| 0 <= j < k && pts[j] == #[trigger] suppress(pts, k)[i],
        forall|i1: int, i2: int|
            0 <= i1 < i2 < suppress(pts, k).len() ==> !too_close(
                #[trigger] suppress(pts, k)[i1],
                #[trigger] suppress(pts, k)[i2],
            ),
        forall|j: int|
            0 <= j < k ==> suppress(pts, k).contains(#[trigger] pts[j]) || exists|i: int|
                0 <= i < suppress(pts, k).len() && too_close(#[trigger] suppress(pts, k)[i], pts[j]),
    decreases k,
{
    if k > 0 {
        lemma_suppress_facts(pts, k - 1);
        let kept = suppress(pts, k - 1);
        let cur = suppress(pts, k);
        let q = pts[k - 1];
        assert forall|i: int| 0 <= i < cur.len() implies exists|j: int| 0 <= j < k && pts[j] == #[trigger] cur[i] by {
            if i < kept.len() {
                assert(cur[i] == kept[i]);
                let j = choose|j: int| 0 <= j < k - 1 && pts[j] == #[trigger] kept[i];
            } else {
                assert(cur[i] == pts[k - 1]);
            }
        }
        assert forall|i1: int, i2: int| 0 <= i1 < i2 < cur.len() implies !too_close(
            #[trigger] cur[i1],
            #[trigger] cur[i2],
        ) by {
            assert(cur[i1] == kept[i1]);
            if i2 < kept.len() {
                assert(cur[i2] == kept[i2]);
            } else {
                assert(!too_close(kept[i1], q));
            }
        }
        assert forall|j: int|
            0 <= j < k implies cur.contains(#[trigger] pts[j]) || exists|i: int|
                0 <= i < cur.len() && too_close(#[trigger] cur[i], pts[j]) by {
            if j == k - 1 {
                if exists|i: int| 0 <= i < kept.len() && too_close(#[trigger] kept[i], q) {
                    let i = choose|i: int| 0 <= i < kept.len() && too_close(#[trigger] kept[i], q);
                    assert(cur[i] == kept[i]);
                } else {
                    assert(cur[cur.len() - 1] == q);
                }
            } else {
                if kept.contains(pts[j]) {
                    let i = choose|i: int| 0 <= i < kept.len() && kept[i] == pts[j];
                    assert(cur[i] == kept[i]);
                } else {
                    let i = choose|i: int| 0 <= i < kept.len() && too_close(#[trigger] kept[i], pts[j]);
                    assert(cur[i] == kept[i]);
                }
            }
        }
    }
}

/// What the screenshot dot finder returns: every dot is the centre of a
/// blob box of dot size, shape and outline, not near the image's edge
/// (see `centre_of_shot_dot`); no two dots are closer than 10 pixels; and
/// the centre of every such box is a dot or lies closer than 10 pixels to
/// one.
pub proof fn lemma_shot_dots_are_dot_boxes(p: &BgrPlanes, rects: Seq<Rect>)
    requires
        p.width() <= i32::MAX,
        p.height() <= i32::MAX,
        forall|j: int| 0 <= j < rects.len() ==> box_ok(#[trigger] rects[j], p.width(), p.height()),
    ensures
        ({
            let c = dot_candidates(p, rects, rects.len() as int);
            let out = suppress(c, c.len() as int);
            &&& forall|i: int|
                0 <= i < out.len() ==> exists|j: int|
                    0 <= j < rects.len() && centre_of_shot_dot(p, rects[j], #[trigger] out[i])
            &&& forall|i1: int, i2: int|
                0 <= i1 < i2 < out.len() ==> (#[trigger] out[i1].x - #[trigger] out[i2].x) * (out[i1].x - out[i2].x) + (
                out[i1].y - out[i2].y) * (out[i1].y - out[i2].y) >= 100
            &&& forall|j: int, d: Point|
                0 <= j < rects.len() && #[trigger] centre_of_shot_dot(p, rects[j], d) ==> out.contains(d) || exists|
                    i: int,
                |
                    0 <= i < out.len() && (#[trigger] out[i].x - d.x) * (out[i].x - d.x) + (out[i].y - d.y) * (
                    out[i].y - d.y) < 100
        }),
{
    let n = rects.len() as int;
    let c = dot_candidates(p, rects, n);
    let out = suppress(c, c.len() as int);
    lemma_candidates_sources(p, rects, n);
    lemma_suppress_facts(c, c.len() as int);
    assert forall|i: int| 0 <= i < out.len() implies exists|j: int|
        0 <= j < rects.len() && centre_of_shot_dot(p, rects[j], #[trigger] out[i]) by {
        let t = choose|t: int| 0 <= t < c.len() && c[t] == #[trigger] out[i];
        assert(exists|j: int| 0 <= j < n && centre_of_shot_dot(p, rects[j], #[trigger] c[t]));
    }
    assert forall|i1: int, i2: int| 0 <= i1 < i2 < out.len() implies (#[trigger] out[i1].x
        - #[trigger] out[i2].x) * (out[i1].x - out[i2].x) + (out[i1].y - out[i2].y) * (out[i1].y - out[i2].y)
        >= 100 by {
        assert(!too_close(out[i1], out[i2]));
    }
    assert forall|j: int, d: Point|
        0 <= j < rects.len() && #[trigger] centre_of_shot_dot(p, rects[j], d) implies out.contains(d) || exists|
            i: int,
        |
            0 <= i < out.len() && (#[trigger] out[i].x - d.x) * (out[i].x - d.x) + (out[i].y - d.y) * (out[i].y
                - d.y) < 100 by {
        assert(c.contains(d));
        let t = choose|t: int| 0 <= t < c.len() && c[t] == d;
        assert(out.contains(c[t]) || exists|i: int| 0 <= i < out.len() && too_close(#[trigger] out[i], c[t]));
        if !out.contains(d) {
            let i = choose|i: int| 0 <= i < out.len() && too_close(#[trigger] out[i], c[t]);
            assert(too_close(out[i], d));
        }
    }
}

// ------------------------------------------------------------ camera frame

/// The frame outline among blobs `rects[0..k]`: the first with the largest
/// box area among those 40..=226 pixels wide; `(0, 0, 90, 60)` when none is.
pub open spec fn camera_rect_spec(rects: Seq<Rect>, k: int) -> (Rect, int)
    decreases k,
{
    if k <= 0 {
        (Rect { x: 0, y: 0, width: 90, height: 60 }, 0)
    } else {
        let (best, best_area) = camera_rect_spec(rects, k - 1);
        let r = rects[k - 1];
        let area = r.width * r.height;
        if 40 <= r.width <= 226 && area > best_area {
            (r, area)
        } else {
            (best, best_area)
        }
    }
}

/// Picks the camera frame among the bounding boxes of the blobs of the
/// frame-colour mask (see `camera_rect_spec`).
pub fn detect_camera_frame(rects: &Vec<Rect>) -> (r: Rect)
    requires
        forall|i: int|
            0 <= i < rects.len() ==> 0 <= #[trigger] rects@[i].height && rects@[i].width * rects@[i].height
                <= i32::MAX,
    ensures
        r == camera_rect_spec(rects@, rects.len() as int).0,
{
    let mut best = Rect { x: 0, y: 0, width: 90, height: 60 };
    let mut max_area: i64 = 0;
    let mut i: usize = 0;
    while i < rects.len()
        invariant
            i <= rects.len(),
            forall|j: int|
                0 <= j < rects.len() ==> 0 <= #[trigger] rects@[j].height && rects@[j].width * rects@[j].height
                    <= i32::MAX,
            (best, max_area as int) == camera_rect_spec(rects@, i as int),
        decreases rects.len() - i,
    {
        let r = rects[i];
        proof {
            assert(0 <= rects@[i as int].height);
            assert(r.width * r.height >= i64::MIN) by (nonlinear_arith)
                requires
                    0 <= r.height,
                    r.width >= i32::MIN;
        }
        let area = r.width as i64 * r.height as i64;
        if 40 <= r.width && r.width <= 226 && area > max_area {
            best = r;
            max_area = area;
        }
        i = i + 1;
    }
    best
}

// ------------------------------------------------------------ minimap bounds

/// The points of `pts[0..k]` lying within `max_x` and `max_y`, in order.
pub open spec fn within(pts: Seq<Point>, max_x: int, max_y: int, k: int) -> Seq<Point>
    decreases k,
{
    if k <= 0 {
        Seq::empty()
    } else {
        let kept = within(pts, max_x, max_y, k - 1);
        let p = pts[k - 1];
        if p.x <= max_x && p.y <= max_y { kept.push(p) } else { kept }
    }
}

/// Drops the points found beyond the minimap itself: the search runs on a
/// slightly larger area so that a dot on the minimap's edge keeps its dark
/// ring, and what lies past `max_x` or `max_y` is discarded afterwards.
pub fn keep_within(pts: &mut Vec<Point>, max_x: i32, max_y: i32)
    ensures
        final(pts)@ == within(old(pts)@, max_x as int, max_y as int, old(pts)@.len() as int),
{
    let mut out: Vec<Point> = Vec::new();
    let mut i: usize = 0;
    while i < pts.len()
        invariant
            i <= pts.len(),
            out@ == within(pts@, max_x as int, max_y as int, i as int),
        decreases pts.len() - i,
    {
        let p = pts[i];
        if p.x <= max_x && p.y <= max_y {
            out.push(p);
        }
        i = i + 1;
    }
    *pts = out;
}

// ------------------------------------------------------------ laws

/// The camera frame picked is one of the boxes, 40..=226 pixels wide, and
/// no box of such a width has a larger area; the default frame comes back
/// only when no box of such a width has a positive area.
pub proof fn lemma_camera_rect_largest(rects: Seq<Rect>, k: int)
    requires
        0 <= k <= rects.len(),
    ensures
        ({
            let (b, a) = camera_rect_spec(rects, k);
            &&& a >= 0
            &&& a == 0 ==> b == Rect { x: 0, y: 0, width: 90, height: 60 }
            &&& a > 0 ==> 40 <= b.width <= 226 && a == b.width * b.height && exists|i: int|
                0 <= i < k && #[trigger] rects[i] == b
            &&& forall|i: int|
                0 <= i < k && 40 <= #[trigger] rects[i].width <= 226 ==> rects[i].width * rects[i].height <= a
        }),
    decreases k,
{
    if k > 0 {
        lemma_camera_rect_largest(rects, k - 1);
        let (b, a) = camera_rect_spec(rects, k - 1);
        let r = rects[k - 1];
        if 40 <= r.width <= 226 && r.width * r.height > a {
            assert(rects[k - 1] == r);
        } else if a > 0 {
            let i = choose|i: int| 0 <= i < k - 1 && #[trigger] rects[i] == b;
            assert(0 <= i < k && rects[i] == b);
        }
    }
}

/// Number of points over all clusters.
pub open spec fn total_len(cs: Seq<Seq<Point>>) -> int
    decreases cs.len(),
{
    if cs.len() == 0 { 0 } else { total_len(cs.drop_last()) + cs.last().len() }
}

proof fn lemma_total_len_update(cs: Seq<Seq<Point>>, j: int, c: Seq<Point>)
    requires
        0 <= j < cs.len(),
    ensures
        total_len(cs.update(j, c)) == total_len(cs) - cs[j].len() + c.len(),
    decreases cs.len(),
{
    if j == cs.len() - 1 {
        assert(cs.update(j, c).drop_last() =~= cs.drop_last());
    } else {
        lemma_total_len_update(cs.drop_last(), j, c);
        assert(cs.update(j, c).drop_last() =~= cs.drop_last().update(j, c));
    }
}

proof fn lemma_first_near_range(cs: Seq<Seq<Point>>, p: Point, t: int, i: int)
    requires
        0 <= i <= cs.len(),
    ensures
        i <= first_near(cs, p, t, i) <= cs.len(),
    decreases cs.len() - i,
{
    if i < cs.len() && !near_any(cs[i], p, t) {
        lemma_first_near_range(cs, p, t, i + 1);
    }
}

/// Clustering loses no point and makes no empty cluster: the clusters of
/// the first `k` points hold `k` points in all, at least one each, so there
/// are never more clusters than points.
pub proof fn lemma_clusters_partition(pts: Seq<Point>, t: int, k: int)
    requires
        0 <= k <= pts.len(),
    ensures
        total_len(clusters(pts, t, k)) == k,
        clusters(pts, t, k).len() <= k,
        forall|i: int| 0 <= i < clusters(pts, t, k).len() ==> #[trigger] clusters(pts, t, k)[i].len() >= 1,
    decreases k,
{
    if k > 0 {
        lemma_clusters_partition(pts, t, k - 1);
        let cs = clusters(pts, t, k - 1);
        let p = pts[k - 1];
        let j = first_near(cs, p, t, 0);
        lemma_first_near_range(cs, p, t, 0);
        if j < cs.len() {
            lemma_total_len_update(cs, j, cs[j].push(p));
        } else {
            assert(cs.push(seq![p]).drop_last() =~= cs);
        }
    }
}

/// No two dots reported are closer than 10 pixels: every dot kept is at
/// least 10 pixels from each one kept before it.
pub proof fn lemma_dots_separated(pts: Seq<Point>, k: int)
    requires
        0 <= k <= pts.len(),
    ensures
        forall|i: int, j: int|
            0 <= i < j < suppress(pts, k).len() ==> !too_close(#[trigger] suppress(pts, k)[i], #[trigger] suppress(pts, k)[j]),
    decreases k,
{
    if k > 0 {
        lemma_dots_separated(pts, k - 1);
        let kept = suppress(pts, k - 1);
        let p = pts[k - 1];
        if !(exists|i: int| 0 <= i < kept.len() && too_close(#[trigger] kept[i], p)) {
            assert forall|i: int, j: int|
                0 <= i < j < kept.push(p).len() implies !too_close(#[trigger] kept.push(p)[i], #[trigger] kept.push(p)[j]) by {
                if j < kept.len() {
                    assert(kept.push(p)[i] == kept[i]);
                    assert(kept.push(p)[j] == kept[j]);
                } else {
                    assert(kept.push(p)[i] == kept[i]);
                }
            }
        }
    }
}

} // verus!
