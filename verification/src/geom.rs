use vstd::prelude::*;

verus! {

/// An axis-aligned rectangle in pixel coordinates.
#[derive(Clone, Copy, Debug, PartialEq, Eq, Structural)]
pub struct Rect {
    pub x: i32,
    pub y: i32,
    pub width: i32,
    pub height: i32,
}

/// A pixel position.
#[derive(Clone, Copy, Debug, PartialEq, Eq, Structural)]
pub struct Point {
    pub x: i32,
    pub y: i32,
}

/// Pixel `(y, x)` of a row-major plane.
pub open spec fn px(m: Seq<Vec<u8>>, y: int, x: int) -> int {
    m[y]@[x] as int
}

/// `m` has `h` rows of `w` pixels each.
pub open spec fn is_plane(m: Seq<Vec<u8>>, w: int, h: int) -> bool {
    &&& m.len() == h
    &&& forall|y: int| 0 <= y < h ==> #[trigger] m[y]@.len() == w
}

/// The box lies inside a `cols` x `rows` image.
pub open spec fn box_ok(r: Rect, cols: int, rows: int) -> bool {
    &&& 0 <= r.x
    &&& 0 <= r.y
    &&& 0 <= r.width
    &&& 0 <= r.height
    &&& r.x + r.width <= cols
    &&& r.y + r.height <= rows
}

/// A BGR colour image as three planes of the same size.
pub struct BgrPlanes {
    pub b: Vec<Vec<u8>>,
    pub g: Vec<Vec<u8>>,
    pub r: Vec<Vec<u8>>,
}

impl BgrPlanes {
    pub open spec fn width(&self) -> int {
        if self.b@.len() > 0 { self.b@[0]@.len() as int } else { 0 }
    }

    pub open spec fn height(&self) -> int {
        self.b@.len() as int
    }

    pub open spec fn wf(&self) -> bool {
        &&& is_plane(self.b@, self.width(), self.height())
        &&& is_plane(self.g@, self.width(), self.height())
        &&& is_plane(self.r@, self.width(), self.height())
        &&& self.width() <= 20_000_000
        &&& self.height() <= 20_000_000
    }

    /// All three channels of pixel `(y, x)` are below `limit`.
    pub open spec fn dark(&self, y: int, x: int, limit: int) -> bool {
        px(self.b@, y, x) < limit && px(self.g@, y, x) < limit && px(self.r@, y, x) < limit
    }
}

/// Pixel `(y, x)` lies inside box `r`.
pub open spec fn in_box(r: Rect, y: int, x: int) -> bool {
    x >= r.x && x < r.x + r.width && y >= r.y && y < r.y + r.height
}

/// Pixels of row `y`, columns `sx..k`, outside box `r` (only the dark ones
/// when `dark_only`).
pub open spec fn ring_row(p: &BgrPlanes, r: Rect, y: int, sx: int, k: int, limit: int, dark_only: bool) -> int
    decreases k - sx,
{
    if k <= sx {
        0
    } else {
        ring_row(p, r, y, sx, k - 1, limit, dark_only) + if !in_box(r, y, k - 1) && (!dark_only || p.dark(
            y,
            k - 1,
            limit,
        )) {
            1int
        } else {
            0int
        }
    }
}

/// `ring_row` summed over rows `sy..k`, columns `sx..=ex`.
pub open spec fn ring_sum(p: &BgrPlanes, r: Rect, sy: int, k: int, sx: int, ex: int, limit: int, dark_only: bool) -> int
    decreases k - sy,
{
    if k <= sy {
        0
    } else {
        ring_sum(p, r, sy, k - 1, sx, ex, limit, dark_only) + ring_row(p, r, k - 1, sx, ex + 1, limit, dark_only)
    }
}

/// `(dark, total)`: the pixels of the ring of width `m` around box `r`
/// (clipped to the image), and how many of them are dark.
pub open spec fn dark_ring_spec(p: &BgrPlanes, r: Rect, m: int, limit: int) -> (int, int) {
    let sx = if r.x - m >= 0 { r.x - m } else { 0 };
    let sy = if r.y - m >= 0 { r.y - m } else { 0 };
    let ex = if r.x + r.width + m <= p.width() - 1 { r.x + r.width + m } else { p.width() - 1 };
    let ey = if r.y + r.height + m <= p.height() - 1 { r.y + r.height + m } else { p.height() - 1 };
    (ring_sum(p, r, sy, ey + 1, sx, ex, limit, true), ring_sum(p, r, sy, ey + 1, sx, ex, limit, false))
}

proof fn lemma_ring_row_bound(p: &BgrPlanes, r: Rect, y: int, sx: int, k: int, limit: int)
    ensures
        0 <= ring_row(p, r, y, sx, k, limit, true) <= ring_row(p, r, y, sx, k, limit, false),
        ring_row(p, r, y, sx, k, limit, false) <= (if k >= sx { k - sx } else { 0 }),
    decreases k - sx,
{
    if k > sx {
        lemma_ring_row_bound(p, r, y, sx, k - 1, limit);
    }
}

proof fn lemma_ring_sum_bound(p: &BgrPlanes, r: Rect, sy: int, k: int, sx: int, ex: int, limit: int)
    requires
        0 <= ex - sx + 1 <= 40_000_001,
    ensures
        0 <= ring_sum(p, r, sy, k, sx, ex, limit, true) <= ring_sum(p, r, sy, k, sx, ex, limit, false),
        ring_sum(p, r, sy, k, sx, ex, limit, false) <= (if k >= sy { (k - sy) * 40_000_001 } else { 0 }),
    decreases k - sy,
{
    if k > sy {
        lemma_ring_sum_bound(p, r, sy, k - 1, sx, ex, limit);
        lemma_ring_row_bound(p, r, k - 1, sx, ex + 1, limit);
    }
}

/// Counts the pixels of the ring of width `margin` around box `r` and the
/// dark ones among them (all channels below `limit`): `(dark, total)`.
pub fn dark_ring(p: &BgrPlanes, r: Rect, margin: i32, limit: u8) -> (res: (i64, i64))
    requires
        p.wf(),
        p.height() >= 1,
        box_ok(r, p.width(), p.height()),
        0 <= margin <= 20_000_000,
    ensures
        (res.0 as int, res.1 as int) == dark_ring_spec(p, r, margin as int, limit as int),
        0 <= res.0 <= res.1 <= 1_000_000_000_000_000,
{
    let cols = p.b[0].len() as i64;
    let rows = p.b.len() as i64;
    let m = margin as i64;
    let sx = if r.x as i64 - m >= 0 { r.x as i64 - m } else { 0 };
    let sy = if r.y as i64 - m >= 0 { r.y as i64 - m } else { 0 };
    let ex = if r.x as i64 + r.width as i64 + m <= cols - 1 { r.x as i64 + r.width as i64 + m } else { cols - 1 };
    let ey = if r.y as i64 + r.height as i64 + m <= rows - 1 { r.y as i64 + r.height as i64 + m } else { rows - 1 };
    let mut dark: i64 = 0;
    let mut total: i64 = 0;
    if ex < sx {
        proof {
            assert forall|k: int| sy <= k implies ring_sum(p, r, sy as int, k, sx as int, ex as int, limit as int, true) == 0
                && ring_sum(p, r, sy as int, k, sx as int, ex as int, limit as int, false) == 0 by {
                lemma_ring_sum_zero(p, r, sy as int, k, sx as int, ex as int, limit as int);
            }
        }
        return (0, 0);
    }
    let mut y = sy;
    while y <= ey
        invariant
            p.wf(),
            cols == p.width(),
            rows == p.height(),
            0 <= sy <= y,
            y <= ey + 1 || y == sy,
            ey <= rows - 1,
            0 <= sx <= ex <= cols - 1,
            dark == ring_sum(p, r, sy as int, y as int, sx as int, ex as int, limit as int, true),
            total == ring_sum(p, r, sy as int, y as int, sx as int, ex as int, limit as int, false),
            0 <= dark <= total <= (y - sy) * 40_000_001,
            y - sy <= 20_000_001,
        decreases ey + 1 - y,
    {
        proof {
            lemma_ring_row_bound(p, r, y as int, sx as int, ex + 1, limit as int);
        }
        let mut x = sx;
        let mut rd: i64 = 0;
        let mut rt: i64 = 0;
        while x <= ex
            invariant
                p.wf(),
                cols == p.width(),
                rows == p.height(),
                0 <= y < rows,
                0 <= sx <= x <= ex + 1,
                ex <= cols - 1,
                rd == ring_row(p, r, y as int, sx as int, x as int, limit as int, true),
                rt == ring_row(p, r, y as int, sx as int, x as int, limit as int, false),
                0 <= rd <= rt <= x - sx,
            decreases ex + 1 - x,
        {
            proof {
                lemma_ring_row_bound(p, r, y as int, sx as int, x as int, limit as int);
            }
            let inside = x >= r.x as i64 && x < r.x as i64 + r.width as i64 && y >= r.y as i64 && y < r.y as i64
                + r.height as i64;
            if !inside {
                rt = rt + 1;
                let yu = y as usize;
                let xu = x as usize;
                if p.b[yu][xu] < limit && p.g[yu][xu] < limit && p.r[yu][xu] < limit {
                    rd = rd + 1;
                }
            }
            x = x + 1;
        }
        dark = dark + rd;
        total = total + rt;
        y = y + 1;
    }
    proof {
        assert((y - sy) * 40_000_001 <= 20_000_001 * 40_000_001) by (nonlinear_arith)
            requires
                0 <= y - sy <= 20_000_001;
    }
    (dark, total)
}

proof fn lemma_ring_sum_zero(p: &BgrPlanes, r: Rect, sy: int, k: int, sx: int, ex: int, limit: int)
    requires
        ex < sx,
    ensures
        ring_sum(p, r, sy, k, sx, ex, limit, true) == 0,
        ring_sum(p, r, sy, k, sx, ex, limit, false) == 0,
    decreases k - sy,
{
    if k > sy {
        lemma_ring_sum_zero(p, r, sy, k - 1, sx, ex, limit);
    }
}

} // verus!
