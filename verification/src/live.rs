use vstd::prelude::*;
use crate::dbl::{
    add_dbl, add_dbl_exec, dbl_gt, dbl_gt_exec, frac_dbl, frac_dbl_exec, hi53, lo53, small_dbl,
};
use crate::geom::{box_ok, dark_ring, dark_ring_spec, is_plane, px, BgrPlanes, Point, Rect};
use vstd::arithmetic::power2::pow2;

verus! {

// The edge-profile camera-frame search of the live-screen programs, run on
// the contrast-enhanced grayscale minimap.

/// Largest side accepted.
pub const LIVE_MAX: usize = 20_000_000;

pub open spec fn absd(a: int, b: int) -> int {
    if a >= b { a - b } else { b - a }
}

/// Sum over rows `0..k` of the gray-level step between columns `x` and `x + 1`.
pub open spec fn col_sum(g: Seq<Vec<u8>>, x: int, k: int) -> int
    decreases k,
{
    if k <= 0 { 0 } else { col_sum(g, x, k - 1) + absd(px(g, k - 1, x), px(g, k - 1, x + 1)) }
}

/// Sum over columns `0..k` of the gray-level step between rows `y` and `y + 1`.
pub open spec fn row_sum(g: Seq<Vec<u8>>, y: int, k: int) -> int
    decreases k,
{
    if k <= 0 { 0 } else { row_sum(g, y, k - 1) + absd(px(g, y, k - 1), px(g, y + 1, k - 1)) }
}

/// Edge strength of column `x` of a `w` x `h` image (0 for the last column).
pub open spec fn col_score(g: Seq<Vec<u8>>, w: int, h: int, x: int) -> int {
    if x < w - 1 { col_sum(g, x, h) } else { 0 }
}

/// Edge strength of row `y` (0 for the last row).
pub open spec fn row_score(g: Seq<Vec<u8>>, w: int, h: int, y: int) -> int {
    if y < h - 1 { row_sum(g, y, w) } else { 0 }
}

/// Columns `5 <= x < k` whose edge strength is above 1000 and above both
/// neighbours', with their strength, left to right.
pub open spec fn col_peaks(g: Seq<Vec<u8>>, w: int, h: int, k: int) -> Seq<(int, int)>
    decreases k,
{
    if k <= 5 {
        Seq::empty()
    } else {
        let prev = col_peaks(g, w, h, k - 1);
        let x = k - 1;
        let s = col_score(g, w, h, x);
        if s > col_score(g, w, h, x - 1) && s > col_score(g, w, h, x + 1) && s > 1000 {
            prev.push((x, s))
        } else {
            prev
        }
    }
}

/// Rows `5 <= y < k` whose edge strength is above 1000 and above both
/// neighbours', with their strength, top to bottom.
pub open spec fn row_peaks(g: Seq<Vec<u8>>, w: int, h: int, k: int) -> Seq<(int, int)>
    decreases k,
{
    if k <= 5 {
        Seq::empty()
    } else {
        let prev = row_peaks(g, w, h, k - 1);
        let y = k - 1;
        let s = row_score(g, w, h, y);
        if s > row_score(g, w, h, y - 1) && s > row_score(g, w, h, y + 1) && s > 1000 {
            prev.push((y, s))
        } else {
            prev
        }
    }
}

/// Index of the first element of `t` from `i` on whose strength is below `v`.
pub open spec fn first_below(t: Seq<(int, int)>, v: int, i: int) -> int
    decreases t.len() - i,
{
    if i >= t.len() {
        t.len() as int
    } else if t[i].1 < v {
        i
    } else {
        first_below(t, v, i + 1)
    }
}

/// `s` by strength, strongest first; equal strengths keep their order.
pub open spec fn sort_desc(s: Seq<(int, int)>) -> Seq<(int, int)>
    decreases s.len(),
{
    if s.len() == 0 {
        s
    } else {
        let t = sort_desc(s.drop_last());
        t.insert(first_below(t, s.last().1, 0), s.last())
    }
}

/// The pairs of `v` as mathematical integers.
pub open spec fn wide(v: Seq<(i64, i64)>) -> Seq<(int, int)> {
    Seq::new(v.len(), |i: int| (v[i].0 as int, v[i].1 as int))
}

fn col_score_exec(g: &Vec<Vec<u8>>, w: usize, h: usize, x: usize) -> (r: i64)
    requires
        is_plane(g@, w as int, h as int),
        1 <= w <= LIVE_MAX,
        h <= LIVE_MAX,
        x < w,
    ensures
        r == col_score(g@, w as int, h as int, x as int),
        0 <= r <= 255 * h,
{
    if x + 1 >= w {
        return 0;
    }
    let mut s: i64 = 0;
    let mut y: usize = 0;
    while y < h
        invariant
            is_plane(g@, w as int, h as int),
            x + 1 < w,
            y <= h <= LIVE_MAX,
            s == col_sum(g@, x as int, y as int),
            0 <= s <= 255 * y,
        decreases h - y,
    {
        let a = g[y][x] as i64;
        let b = g[y][x + 1] as i64;
        s = s + if a >= b { a - b } else { b - a };
        y = y + 1;
    }
    s
}

fn row_score_exec(g: &Vec<Vec<u8>>, w: usize, h: usize, y: usize) -> (r: i64)
    requires
        is_plane(g@, w as int, h as int),
        w <= LIVE_MAX,
        1 <= h <= LIVE_MAX,
        y < h,
    ensures
        r == row_score(g@, w as int, h as int, y as int),
        0 <= r <= 255 * w,
{
    if y + 1 >= h {
        return 0;
    }
    let mut s: i64 = 0;
    let mut x: usize = 0;
    while x < w
        invariant
            is_plane(g@, w as int, h as int),
            y + 1 < h,
            x <= w <= LIVE_MAX,
            s == row_sum(g@, y as int, x as int),
            0 <= s <= 255 * x,
        decreases w - x,
    {
        let a = g[y][x] as i64;
        let b = g[y + 1][x] as i64;
        s = s + if a >= b { a - b } else { b - a };
        x = x + 1;
    }
    s
}

/// Column peaks of the image (see `col_peaks`).
fn col_peaks_exec(g: &Vec<Vec<u8>>, w: usize, h: usize) -> (r: Vec<(i64, i64)>)
    requires
        is_plane(g@, w as int, h as int),
        5 <= w <= LIVE_MAX,
        h <= LIVE_MAX,
    ensures
        wide(r@) == col_peaks(g@, w as int, h as int, w as int - 5),
{
    let mut out: Vec<(i64, i64)> = Vec::new();
    let mut x: usize = 5;
    proof {
        assert(wide(out@) =~= Seq::<(int, int)>::empty());
    }
    while x + 5 < w
        invariant
            is_plane(g@, w as int, h as int),
            5 <= w <= LIVE_MAX,
            h <= LIVE_MAX,
            5 <= x,
            x + 5 <= w || x == 5,
            wide(out@) == col_peaks(g@, w as int, h as int, x as int),
        decreases w - x,
    {
        let s = col_score_exec(g, w, h, x);
        let l = col_score_exec(g, w, h, x - 1);
        let rr = col_score_exec(g, w, h, x + 1);
        if s > l && s > rr && s > 1000 {
            proof {
                assert(wide(out@.push((x as i64, s))) =~= wide(out@).push((x as int, s as int)));
            }
            out.push((x as i64, s));
        }
        x = x + 1;
    }
    proof {
        if w < 10 {
            assert(col_peaks(g@, w as int, h as int, w as int - 5) == col_peaks(g@, w as int, h as int, 5));
        }
    }
    out
}

/// Row peaks of the image (see `row_peaks`).
fn row_peaks_exec(g: &Vec<Vec<u8>>, w: usize, h: usize) -> (r: Vec<(i64, i64)>)
    requires
        is_plane(g@, w as int, h as int),
        w <= LIVE_MAX,
        5 <= h <= LIVE_MAX,
    ensures
        wide(r@) == row_peaks(g@, w as int, h as int, h as int - 5),
{
    let mut out: Vec<(i64, i64)> = Vec::new();
    let mut y: usize = 5;
    proof {
        assert(wide(out@) =~= Seq::<(int, int)>::empty());
    }
    while y + 5 < h
        invariant
            is_plane(g@, w as int, h as int),
            w <= LIVE_MAX,
            5 <= h <= LIVE_MAX,
            5 <= y,
            y + 5 <= h || y == 5,
            wide(out@) == row_peaks(g@, w as int, h as int, y as int),
        decreases h - y,
    {
        let s = row_score_exec(g, w, h, y);
        let l = row_score_exec(g, w, h, y - 1);
        let rr = row_score_exec(g, w, h, y + 1);
        if s > l && s > rr && s > 1000 {
            proof {
                assert(wide(out@.push((y as i64, s))) =~= wide(out@).push((y as int, s as int)));
            }
            out.push((y as i64, s));
        }
        y = y + 1;
    }
    proof {
        if h < 10 {
            assert(row_peaks(g@, w as int, h as int, h as int - 5) == row_peaks(g@, w as int, h as int, 5));
        }
    }
    out
}

/// `v` sorted by strength, strongest first, equal strengths in their order
/// (see `sort_desc`).
fn sort_desc_exec(v: &Vec<(i64, i64)>) -> (r: Vec<(i64, i64)>)
    ensures
        wide(r@) == sort_desc(wide(v@)),
        r@.len() == v@.len(),
        forall|i: int| 0 <= i < r@.len() ==> exists|j: int| 0 <= j < v@.len() && #[trigger] r@[i] == v@[j],
{
    let mut out: Vec<(i64, i64)> = Vec::new();
    let mut i: usize = 0;
    proof {
        assert(wide(v@).take(0) =~= Seq::<(int, int)>::empty());
        assert(wide(out@) =~= Seq::<(int, int)>::empty());
    }
    while i < v.len()
        invariant
            i <= v.len(),
            wide(out@) == sort_desc(wide(v@).take(i as int)),
            out@.len() == i,
            forall|t: int| 0 <= t < out@.len() ==> exists|j: int| 0 <= j < v@.len() && #[trigger] out@[t] == v@[j],
        decreases v.len() - i,
    {
        let e = v[i];
        let ghost wo = wide(out@);
        let mut pos: usize = 0;
        while pos < out.len() && out[pos].1 >= e.1
            invariant
                pos <= out@.len(),
                wo == wide(out@),
                first_below(wo, e.1 as int, 0) == first_below(wo, e.1 as int, pos as int),
            decreases out.len() - pos,
        {
            pos = pos + 1;
        }
        proof {
            assert(wide(v@).take(i + 1).drop_last() =~= wide(v@).take(i as int));
            assert(wide(v@).take(i + 1).last() == (e.0 as int, e.1 as int));
            assert(first_below(wo, e.1 as int, pos as int) == pos);
            assert(wide(out@.insert(pos as int, e)) =~= wo.insert(pos as int, (e.0 as int, e.1 as int)));
        }
        let ghost before = out@;
        out.insert(pos, e);
        proof {
            assert forall|t: int| 0 <= t < out@.len() implies exists|j: int| 0 <= j < v@.len() && #[trigger] out@[t] == v@[j] by {
                if t < pos {
                    assert(out@[t] == before[t]);
                } else if t == pos {
                    assert(out@[t] == v@[i as int]);
                } else {
                    assert(out@[t] == before[t - 1]);
                }
            }
        }
        i = i + 1;
    }
    proof {
        assert(wide(v@).take(i as int) =~= wide(v@));
    }
    out
}

// ------------------------------------------------------------ pairs

/// Positions of elements `i` and `j` of `c`, the smaller first.
pub open spec fn span(c: Seq<(int, int)>, i: int, j: int) -> (int, int) {
    if c[i].0 <= c[j].0 { (c[i].0, c[j].0) } else { (c[j].0, c[i].0) }
}

/// Spans of the pairs `(i, j)`, `i < j < k`, at most `hi` and at least `lo` apart.
pub open spec fn pair_row(c: Seq<(int, int)>, i: int, k: int, lo: int, hi: int) -> Seq<(int, int)>
    decreases k - i,
{
    if k <= i + 1 {
        Seq::empty()
    } else {
        let prev = pair_row(c, i, k - 1, lo, hi);
        let p = span(c, i, k - 1);
        if lo <= p.1 - p.0 <= hi { prev.push(p) } else { prev }
    }
}

/// Spans of all pairs `i < j` of `c` with `i < k`, in loop order, that are
/// `lo` to `hi` apart.
pub open spec fn pairs_upto(c: Seq<(int, int)>, k: int, lo: int, hi: int) -> Seq<(int, int)>
    decreases k,
{
    if k <= 0 {
        Seq::empty()
    } else {
        pairs_upto(c, k - 1, lo, hi) + pair_row(c, k - 1, c.len() as int, lo, hi)
    }
}

pub open spec fn positions_in(c: Seq<(int, int)>, lo: int, hi: int) -> bool {
    forall|i: int| 0 <= i < c.len() ==> lo <= #[trigger] c[i].0 < hi
}

proof fn lemma_col_peaks_in(g: Seq<Vec<u8>>, w: int, h: int, k: int)
    ensures
        positions_in(col_peaks(g, w, h, k), 5, if k >= 5 { k } else { 5 }),
    decreases k,
{
    if k > 5 {
        lemma_col_peaks_in(g, w, h, k - 1);
    }
}

proof fn lemma_row_peaks_in(g: Seq<Vec<u8>>, w: int, h: int, k: int)
    ensures
        positions_in(row_peaks(g, w, h, k), 5, if k >= 5 { k } else { 5 }),
    decreases k,
{
    if k > 5 {
        lemma_row_peaks_in(g, w, h, k - 1);
    }
}

/// The spans of `pairs_upto` of positions in `lo..hi`.
fn pairs_exec(c: &Vec<(i64, i64)>, lo: i64, hi: i64, Ghost(a): Ghost<int>, Ghost(b): Ghost<int>) -> (r: Vec<(i64, i64)>)
    requires
        positions_in(wide(c@), a, b),
        0 <= a,
        b <= LIVE_MAX,
    ensures
        wide(r@) == pairs_upto(wide(c@), c@.len() as int, lo as int, hi as int),
        forall|t: int| 0 <= t < r@.len() ==> a <= #[trigger] r@[t].0 <= r@[t].1 < b && lo <= r@[t].1 - r@[t].0 <= hi,
{
    let ghost wc = wide(c@);
    let n = c.len();
    let mut out: Vec<(i64, i64)> = Vec::new();
    let mut i: usize = 0;
    proof {
        assert(wide(out@) =~= Seq::<(int, int)>::empty());
    }
    while i < n
        invariant
            n == c@.len(),
            wc == wide(c@),
            positions_in(wc, a, b),
            0 <= a,
            b <= LIVE_MAX,
            i <= n,
            wide(out@) == pairs_upto(wc, i as int, lo as int, hi as int),
            forall|t: int| 0 <= t < out@.len() ==> a <= #[trigger] out@[t].0 <= out@[t].1 < b && lo <= out@[t].1 - out@[t].0 <= hi,
        decreases n - i,
    {
        let ghost row_start = wide(out@);
        let mut j: usize = i + 1;
        proof {
            assert(row_start + pair_row(wc, i as int, j as int, lo as int, hi as int) =~= row_start);
        }
        while j < n
            invariant
                n == c@.len(),
                wc == wide(c@),
                positions_in(wc, a, b),
                0 <= a,
                b <= LIVE_MAX,
                i < n,
                i + 1 <= j <= n,
                wide(out@) == row_start + pair_row(wc, i as int, j as int, lo as int, hi as int),
                forall|t: int| 0 <= t < out@.len() ==> a <= #[trigger] out@[t].0 <= out@[t].1 < b && lo <= out@[t].1 - out@[t].0 <= hi,
            decreases n - j,
        {
            let (p, q) = (c[i].0, c[j].0);
            proof {
                assert(wc[i as int].0 == p && wc[j as int].0 == q);
                assert(a <= wc[i as int].0 < b && a <= wc[j as int].0 < b);
            }
            let (u, v) = if p <= q { (p, q) } else { (q, p) };
            if lo <= v - u && v - u <= hi {
                proof {
                    assert(wide(out@.push((u, v))) =~= wide(out@).push((u as int, v as int)));
                    assert(row_start + pair_row(wc, i as int, j + 1, lo as int, hi as int) =~= (row_start
                        + pair_row(wc, i as int, j as int, lo as int, hi as int)).push((u as int, v as int)));
                }
                out.push((u, v));
            }
            j = j + 1;
        }
        proof {
            assert(pairs_upto(wc, i + 1, lo as int, hi as int) == pairs_upto(wc, i as int, lo as int, hi as int)
                + pair_row(wc, i as int, n as int, lo as int, hi as int));
        }
        i = i + 1;
    }
    out
}

// ------------------------------------------------------------ frame score

pub open spec fn min30(v: int) -> int {
    if v <= 30 { v } else { 30 }
}

/// Sum over columns `a..k` of the step between rows `y` and `y + 1`, each
/// capped at 30.
pub open spec fn hband(g: Seq<Vec<u8>>, y: int, a: int, k: int) -> int
    decreases k - a,
{
    if k <= a { 0 } else { hband(g, y, a, k - 1) + min30(absd(px(g, y, k - 1), px(g, y + 1, k - 1))) }
}

/// Sum over rows `a..k` of the step between columns `x` and `x + 1`, each
/// capped at 30.
pub open spec fn vband(g: Seq<Vec<u8>>, x: int, a: int, k: int) -> int
    decreases k - a,
{
    if k <= a { 0 } else { vband(g, x, a, k - 1) + min30(absd(px(g, k - 1, x), px(g, k - 1, x + 1))) }
}

/// The frame score of the box with columns `xp` and rows `yp`: the mean
/// capped step along its top, bottom, left and right edges, each mean a
/// binary64 quotient and the four added left to right in binary64.
pub open spec fn frame_score(g: Seq<Vec<u8>>, xp: (int, int), yp: (int, int)) -> (int, nat) {
    let w = xp.1 - xp.0;
    let h = yp.1 - yp.0;
    add_dbl(
        add_dbl(
            add_dbl(frac_dbl(hband(g, yp.0, xp.0, xp.1), w), frac_dbl(hband(g, yp.1, xp.0, xp.1), w)),
            frac_dbl(vband(g, xp.0, yp.0, yp.1), h),
        ),
        frac_dbl(vband(g, xp.1, yp.0, yp.1), h),
    )
}

fn hband_exec(g: &Vec<Vec<u8>>, w: usize, h: usize, y: i64, a: i64, b: i64) -> (r: i64)
    requires
        is_plane(g@, w as int, h as int),
        w <= LIVE_MAX,
        0 <= y,
        y + 1 < h,
        0 <= a <= b,
        b <= w,
    ensures
        r == hband(g@, y as int, a as int, b as int),
        0 <= r <= 30 * (b - a),
{
    let mut s: i64 = 0;
    let mut x = a;
    while x < b
        invariant
            is_plane(g@, w as int, h as int),
            w <= LIVE_MAX,
            0 <= y,
            y + 1 < h,
            0 <= a <= x <= b,
            b <= w,
            s == hband(g@, y as int, a as int, x as int),
            0 <= s <= 30 * (x - a),
        decreases b - x,
    {
        let p = g[y as usize][x as usize] as i64;
        let q = g[y as usize + 1][x as usize] as i64;
        let d = if p >= q { p - q } else { q - p };
        s = s + if d <= 30 { d } else { 30 };
        x = x + 1;
    }
    s
}

fn vband_exec(g: &Vec<Vec<u8>>, w: usize, h: usize, x: i64, a: i64, b: i64) -> (r: i64)
    requires
        is_plane(g@, w as int, h as int),
        h <= LIVE_MAX,
        0 <= x,
        x + 1 < w,
        0 <= a <= b,
        b <= h,
    ensures
        r == vband(g@, x as int, a as int, b as int),
        0 <= r <= 30 * (b - a),
{
    let mut s: i64 = 0;
    let mut y = a;
    while y < b
        invariant
            is_plane(g@, w as int, h as int),
            h <= LIVE_MAX,
            0 <= x,
            x + 1 < w,
            0 <= a <= y <= b,
            b <= h,
            s == vband(g@, x as int, a as int, y as int),
            0 <= s <= 30 * (y - a),
        decreases b - y,
    {
        let p = g[y as usize][x as usize] as i64;
        let q = g[y as usize][x as usize + 1] as i64;
        let d = if p >= q { p - q } else { q - p };
        s = s + if d <= 30 { d } else { 30 };
        y = y + 1;
    }
    s
}

/// A mean of capped steps as a binary64 value at most 32.
fn mean_exec(t: i64, n: i64) -> (r: (u64, u32))
    requires
        0 <= t <= 30 * n,
        1 <= n <= 128,
    ensures
        (r.0 as int, r.1 as nat) == frac_dbl(t as int, n as int),
        small_dbl((r.0 as int, r.1 as nat)),
        r.0 <= pow2(r.1 as nat + 5),
{
    proof {
        if t > 0 {
            crate::dbl::lemma_frac_scale_range(t as int, n as int);
            vstd::arithmetic::power2::lemma2_to64();
            crate::dbl::lemma_frac_le_pow(t as int, n as int, 5);
        } else {
            vstd::arithmetic::power2::lemma_pow2_pos(5);
        }
    }
    frac_dbl_exec(t as u64, n as u64)
}

/// `frame_score(g, (x1, x2), (y1, y2))`, a value at most 2^7.
fn frame_score_exec(g: &Vec<Vec<u8>>, w: usize, h: usize, x1: i64, x2: i64, y1: i64, y2: i64) -> (r: (u64, u32))
    requires
        is_plane(g@, w as int, h as int),
        w <= LIVE_MAX,
        h <= LIVE_MAX,
        0 <= x1,
        x2 + 1 < w,
        0 <= y1,
        y2 + 1 < h,
        80 <= x2 - x1 <= 110,
        55 <= y2 - y1 <= 75,
    ensures
        (r.0 as int, r.1 as nat) == frame_score(g@, (x1 as int, x2 as int), (y1 as int, y2 as int)),
        small_dbl((r.0 as int, r.1 as nat)),
{
    let bw = x2 - x1;
    let bh = y2 - y1;
    let t = hband_exec(g, w, h, y1, x1, x2);
    let b = hband_exec(g, w, h, y2, x1, x2);
    let l = vband_exec(g, w, h, x1, y1, y2);
    let rr = vband_exec(g, w, h, x2, y1, y2);
    let qt = mean_exec(t, bw);
    let qb = mean_exec(b, bw);
    let ql = mean_exec(l, bh);
    let qr = mean_exec(rr, bh);
    let s1 = add_dbl_exec(qt, qb, Ghost(5));
    proof {
        crate::dbl::lemma_add_dbl((qt.0 as int, qt.1 as nat), (qb.0 as int, qb.1 as nat), 5);
        crate::dbl::lemma_pow2_mono((ql.1 + 5) as nat, (ql.1 + 6) as nat);
    }
    let s2 = add_dbl_exec(s1, ql, Ghost(6));
    proof {
        crate::dbl::lemma_add_dbl((s1.0 as int, s1.1 as nat), (ql.0 as int, ql.1 as nat), 6);
        crate::dbl::lemma_pow2_mono((qr.1 + 5) as nat, (qr.1 + 7) as nat);
    }
    let s3 = add_dbl_exec(s2, qr, Ghost(7));
    proof {
        crate::dbl::lemma_add_dbl((s2.0 as int, s2.1 as nat), (qr.0 as int, qr.1 as nat), 7);
    }
    s3
}

// ------------------------------------------------------------ search

/// The best score so far and the box `(x, y, width, height)` that gave it.
pub type Best = ((int, nat), (int, int, int, int));

/// One candidate box with columns `xp` and rows `yp`: it replaces the best
/// so far when its score is strictly greater.
pub open spec fn consider(g: Seq<Vec<u8>>, xp: (int, int), yp: (int, int), acc: Best) -> Best {
    let s = frame_score(g, xp, yp);
    if dbl_gt(s, acc.0) { (s, (xp.0, yp.0, xp.1 - xp.0, yp.1 - yp.0)) } else { acc }
}

/// The candidates with columns `xp` and the first `k` row spans of `ys`, in order.
pub open spec fn scan_rows(g: Seq<Vec<u8>>, xp: (int, int), ys: Seq<(int, int)>, k: int, acc: Best) -> Best
    decreases k,
{
    if k <= 0 { acc } else { consider(g, xp, ys[k - 1], scan_rows(g, xp, ys, k - 1, acc)) }
}

/// The candidates of the first `k` column spans of `xs`, each with every row
/// span of `ys`, in loop order.
pub open spec fn scan_cols(g: Seq<Vec<u8>>, xs: Seq<(int, int)>, ys: Seq<(int, int)>, k: int, acc: Best) -> Best
    decreases k,
{
    if k <= 0 { acc } else { scan_rows(g, xs[k - 1], ys, ys.len() as int, scan_cols(g, xs, ys, k - 1, acc)) }
}

/// Column spans of 80 to 110 pixels between two column peaks, the peaks
/// taken strongest first.
pub open spec fn live_col_spans(g: Seq<Vec<u8>>, w: int, h: int) -> Seq<(int, int)> {
    let c = sort_desc(col_peaks(g, w, h, w - 5));
    pairs_upto(c, c.len() as int, 80, 110)
}

/// Row spans of 55 to 75 pixels between two row peaks, the peaks taken
/// strongest first.
pub open spec fn live_row_spans(g: Seq<Vec<u8>>, w: int, h: int) -> Seq<(int, int)> {
    let c = sort_desc(row_peaks(g, w, h, h - 5));
    pairs_upto(c, c.len() as int, 55, 75)
}

/// The best score of the edge-profile search and its box: the first box of
/// best frame score, strictly above zero, or zero and the empty box at the
/// origin.
pub open spec fn live_best(g: Seq<Vec<u8>>, w: int, h: int) -> Best {
    let xs = live_col_spans(g, w, h);
    let ys = live_row_spans(g, w, h);
    scan_cols(g, xs, ys, xs.len() as int, ((0, 0), (0, 0, 0, 0)))
}

/// The camera frame found by the edge-profile search (see `live_best`).
pub open spec fn live_frame(g: Seq<Vec<u8>>, w: int, h: int) -> (int, int, int, int) {
    live_best(g, w, h).1
}

/// The box is the empty one at the origin, or one 80 to 110 wide and 55 to
/// 75 high lying at least 5 pixels inside every side of a `w` x `h` image.
pub open spec fn live_box_ok(b: (int, int, int, int), w: int, h: int) -> bool {
    ||| b == (0int, 0int, 0int, 0int)
    ||| {
        &&& 5 <= b.0 && b.0 + b.2 < w - 5 && 80 <= b.2 <= 110
        &&& 5 <= b.1 && b.1 + b.3 < h - 5 && 55 <= b.3 <= 75
    }
}

/// A score that is zero or in normal form.
pub open spec fn zero_or_normal(x: (int, nat)) -> bool {
    x.0 == 0 || lo53() <= x.0 < hi53()
}

/// `dbl_gt` for values that are zero or in normal form.
fn gt_exec(x: (u64, u32), y: (u64, u32)) -> (r: bool)
    requires
        zero_or_normal((x.0 as int, x.1 as nat)),
        zero_or_normal((y.0 as int, y.1 as nat)),
    ensures
        r == dbl_gt((x.0 as int, x.1 as nat), (y.0 as int, y.1 as nat)),
{
    proof {
        vstd::arithmetic::power2::lemma_pow2_pos(x.1 as nat);
        vstd::arithmetic::power2::lemma_pow2_pos(y.1 as nat);
        assert(x.0 * pow2(y.1 as nat) >= 0) by (nonlinear_arith)
            requires
                pow2(y.1 as nat) > 0;
        assert(y.0 * pow2(x.1 as nat) >= 0) by (nonlinear_arith)
            requires
                pow2(x.1 as nat) > 0;
        if x.0 != 0 && y.0 == 0 {
            assert(x.0 * pow2(y.1 as nat) > 0) by (nonlinear_arith)
                requires
                    pow2(y.1 as nat) > 0,
                    x.0 > 0;
        }
    }
    if x.0 == 0 {
        false
    } else if y.0 == 0 {
        true
    } else {
        dbl_gt_exec(x, y)
    }
}

/// Positions kept by the sort: every element of the sorted copy is an
/// element of the input.
proof fn lemma_sorted_in(v: Seq<(i64, i64)>, r: Seq<(i64, i64)>, a: int, b: int)
    requires
        positions_in(wide(v), a, b),
        forall|i: int| 0 <= i < r.len() ==> exists|j: int| 0 <= j < v.len() && #[trigger] r[i] == v[j],
    ensures
        positions_in(wide(r), a, b),
{
    assert forall|i: int| 0 <= i < wide(r).len() implies a <= #[trigger] wide(r)[i].0 < b by {
        let j = choose|j: int| 0 <= j < v.len() && r[i] == v[j];
        assert(wide(v)[j].0 == v[j].0);
    }
}

/// The camera frame of a contrast-enhanced grayscale minimap, by its edge
/// profile: columns and rows whose summed gray-level step is a local maximum
/// above 1000 are candidate frame edges; every pair of column edges 80 to 110
/// apart and of row edges 55 to 75 apart is scored by the mean step, capped
/// at 30, along the four sides of the box, and the first box of highest
/// score above zero is returned (the empty box at the origin if none).
pub fn detect_camera_frame(g: &Vec<Vec<u8>>, w: usize, h: usize) -> (r: Rect)
    requires
        is_plane(g@, w as int, h as int),
        5 <= w <= LIVE_MAX,
        5 <= h <= LIVE_MAX,
    ensures
        (r.x as int, r.y as int, r.width as int, r.height as int) == live_frame(g@, w as int, h as int),
        live_box_ok((r.x as int, r.y as int, r.width as int, r.height as int), w as int, h as int),
{
    let xp = col_peaks_exec(g, w, h);
    let yp = row_peaks_exec(g, w, h);
    let xc = sort_desc_exec(&xp);
    let yc = sort_desc_exec(&yp);
    proof {
        lemma_col_peaks_in(g@, w as int, h as int, w as int - 5);
        lemma_row_peaks_in(g@, w as int, h as int, h as int - 5);
        lemma_sorted_in(xp@, xc@, 5, if w >= 10 { w - 5 } else { 5 });
        lemma_sorted_in(yp@, yc@, 5, if h >= 10 { h - 5 } else { 5 });
    }
    let xs = pairs_exec(&xc, 80, 110, Ghost(5), Ghost(if w >= 10 { w - 5 } else { 5 }));
    let ys = pairs_exec(&yc, 55, 75, Ghost(5), Ghost(if h >= 10 { h - 5 } else { 5 }));
    let ghost gxs = wide(xs@);
    let ghost gys = wide(ys@);
    let ghost init: Best = ((0, 0), (0, 0, 0, 0));
    let mut best: (u64, u32) = (0, 0);
    let mut bx: (i64, i64, i64, i64) = (0, 0, 0, 0);
    let mut a: usize = 0;
    while a < xs.len()
        invariant
            is_plane(g@, w as int, h as int),
            w <= LIVE_MAX,
            h <= LIVE_MAX,
            gxs == wide(xs@),
            gys == wide(ys@),
            gxs == live_col_spans(g@, w as int, h as int),
            gys == live_row_spans(g@, w as int, h as int),
            forall|t: int| 0 <= t < xs@.len() ==> 5 <= #[trigger] xs@[t].0 <= xs@[t].1 < w - 5 && 80 <= xs@[t].1 - xs@[t].0 <= 110,
            forall|t: int| 0 <= t < ys@.len() ==> 5 <= #[trigger] ys@[t].0 <= ys@[t].1 < h - 5 && 55 <= ys@[t].1 - ys@[t].0 <= 75,
            a <= xs@.len(),
            zero_or_normal((best.0 as int, best.1 as nat)),
            0 <= bx.0 < w,
            0 <= bx.1 < h,
            0 <= bx.2 < w,
            0 <= bx.3 < h,
            live_box_ok((bx.0 as int, bx.1 as int, bx.2 as int, bx.3 as int), w as int, h as int),
            ((best.0 as int, best.1 as nat), (bx.0 as int, bx.1 as int, bx.2 as int, bx.3 as int))
                == scan_cols(g@, gxs, gys, a as int, init),
        decreases xs@.len() - a,
    {
        let (x1, x2) = xs[a];
        proof {
            assert(gxs[a as int] == (x1 as int, x2 as int));
        }
        let ghost before = ((best.0 as int, best.1 as nat), (bx.0 as int, bx.1 as int, bx.2 as int, bx.3 as int));
        let mut b: usize = 0;
        while b < ys.len()
            invariant
                is_plane(g@, w as int, h as int),
                w <= LIVE_MAX,
                h <= LIVE_MAX,
                gys == wide(ys@),
                forall|t: int| 0 <= t < ys@.len() ==> 5 <= #[trigger] ys@[t].0 <= ys@[t].1 < h - 5 && 55 <= ys@[t].1 - ys@[t].0 <= 75,
                5 <= x1 <= x2 < w - 5,
                80 <= x2 - x1 <= 110,
                b <= ys@.len(),
                zero_or_normal((best.0 as int, best.1 as nat)),
                0 <= bx.0 < w,
                0 <= bx.1 < h,
                0 <= bx.2 < w,
                0 <= bx.3 < h,
                live_box_ok((bx.0 as int, bx.1 as int, bx.2 as int, bx.3 as int), w as int, h as int),
                before == scan_cols(g@, gxs, gys, a as int, init),
                a < gxs.len(),
                gxs[a as int] == (x1 as int, x2 as int),
                ((best.0 as int, best.1 as nat), (bx.0 as int, bx.1 as int, bx.2 as int, bx.3 as int))
                    == scan_rows(g@, (x1 as int, x2 as int), gys, b as int, before),
            decreases ys@.len() - b,
        {
            let (y1, y2) = ys[b];
            proof {
                assert(gys[b as int] == (y1 as int, y2 as int));
            }
            let sc = frame_score_exec(g, w, h, x1, x2, y1, y2);
            if gt_exec(sc, best) {
                best = sc;
                bx = (x1, y1, x2 - x1, y2 - y1);
            }
            b = b + 1;
        }
        a = a + 1;
    }
    Rect { x: bx.0 as i32, y: bx.1 as i32, width: bx.2 as i32, height: bx.3 as i32 }
}

// ------------------------------------------------------------ dots

/// Blob `r` of a colour mask, if it is a player dot: 15..=150 pixels of box,
/// width to height strictly between 7:10 and 7:5, and at least 15% of the
/// one-pixel ring around it dark (all channels below 100). The dot is the
/// box's centre. (The ratios are tested in binary64 by the screen programs;
/// for boxes this small a quotient never lands near enough to 0.7, 1.4 or
/// 0.15 for its rounding to matter, so the integer forms here are exact.)
pub open spec fn live_dot_of(p: &BgrPlanes, r: Rect) -> Option<Point> {
    let area = r.width * r.height;
    let (dark, total) = dark_ring_spec(p, r, 1, 100);
    if 15 <= area <= 150 && 10 * r.width > 7 * r.height && 5 * r.width < 7 * r.height && total > 0 && 20 * dark
        >= 3 * total {
        Some(Point { x: (r.x + r.width / 2) as i32, y: (r.y + r.height / 2) as i32 })
    } else {
        None
    }
}

/// The dots of the first `k` blobs, in order.
pub open spec fn live_dots(p: &BgrPlanes, rects: Seq<Rect>, k: int) -> Seq<Point>
    decreases k,
{
    if k <= 0 {
        Seq::empty()
    } else {
        let prev = live_dots(p, rects, k - 1);
        match live_dot_of(p, rects[k - 1]) {
            Some(d) => prev.push(d),
            None => prev,
        }
    }
}

/// The player dots of one colour on the minimap, given the bounding boxes of
/// the blobs of its colour mask, in the order of the boxes (see
/// `live_dot_of`); every dot lies inside the image.
pub fn find_dots_by_color_and_edge(p: &BgrPlanes, rects: &Vec<Rect>) -> (r: Vec<Point>)
    requires
        p.wf(),
        p.height() >= 1,
        forall|i: int| 0 <= i < rects.len() ==> box_ok(#[trigger] rects@[i], p.width(), p.height()),
    ensures
        r@ == live_dots(p, rects@, rects.len() as int),
        forall|i: int| 0 <= i < r@.len() ==> 0 <= #[trigger] r@[i].x <= p.width() && 0 <= r@[i].y <= p.height(),
{
    let mut out: Vec<Point> = Vec::new();
    let mut i: usize = 0;
    while i < rects.len()
        invariant
            p.wf(),
            p.height() >= 1,
            forall|j: int| 0 <= j < rects.len() ==> box_ok(#[trigger] rects@[j], p.width(), p.height()),
            i <= rects.len(),
            out@ == live_dots(p, rects@, i as int),
            forall|t: int| 0 <= t < out@.len() ==> 0 <= #[trigger] out@[t].x <= p.width() && 0 <= out@[t].y <= p.height(),
        decreases rects.len() - i,
    {
        let r = rects[i];
        proof {
            assert(box_ok(rects@[i as int], p.width(), p.height()));
            assert(0 <= r.width * r.height <= 20_000_000 * 20_000_000) by (nonlinear_arith)
                requires
                    0 <= r.width <= 20_000_000,
                    0 <= r.height <= 20_000_000;
        }
        let area = r.width as i64 * r.height as i64;
        if 15 <= area && area <= 150 && 10 * r.width as i64 > 7 * r.height as i64 && 5 * (r.width as i64) < 7
            * r.height as i64 {
            let (dark, total) = dark_ring(p, r, 1, 100);
            if total > 0 && 20 * dark >= 3 * total {
                out.push(Point { x: r.x + r.width / 2, y: r.y + r.height / 2 });
            }
        }
        i = i + 1;
    }
    out
}

/// `d` is the centre of box `r`, and `r` has the size, shape and outline of
/// a dot: 15 to 150 pixels, width strictly between 0.7 and 1.4 times the
/// height, and at least 15% of its one-pixel ring dark (all channels below
/// 100).
pub open spec fn centre_of_dot_box(p: &BgrPlanes, r: Rect, d: Point) -> bool {
    &&& 15 <= r.width * r.height <= 150
    &&& 10 * r.width > 7 * r.height
    &&& 5 * r.width < 7 * r.height
    &&& dark_ring_spec(p, r, 1, 100).1 > 0
    &&& 100 * dark_ring_spec(p, r, 1, 100).0 >= 15 * dark_ring_spec(p, r, 1, 100).1
    &&& d.x == r.x + r.width / 2
    &&& d.y == r.y + r.height / 2
}

proof fn lemma_live_dots_sources(p: &BgrPlanes, rects: Seq<Rect>, k: int)
    requires
        0 <= k <= rects.len(),
        p.width() <= i32::MAX,
        p.height() <= i32::MAX,
        forall|j: int| 0 <= j < rects.len() ==> box_ok(#[trigger] rects[j], p.width(), p.height()),
    ensures
        live_dots(p, rects, k).len() <= k,
        forall|i: int|
            0 <= i < live_dots(p, rects, k).len() ==> exists|j: int|
                0 <= j < k && centre_of_dot_box(p, rects[j], #[trigger] live_dots(p, rects, k)[i]),
    decreases k,
{
    if k > 0 {
        lemma_live_dots_sources(p, rects, k - 1);
        let prev = live_dots(p, rects, k - 1);
        let cur = live_dots(p, rects, k);
        assert forall|i: int| 0 <= i < cur.len() implies exists|j: int|
            0 <= j < k && centre_of_dot_box(p, rects[j], #[trigger] cur[i]) by {
            if i < prev.len() {
                assert(cur[i] == prev[i]);
                let j = choose|j: int| 0 <= j < k - 1 && centre_of_dot_box(p, rects[j], #[trigger] prev[i]);
                assert(centre_of_dot_box(p, rects[j], cur[i]));
            } else {
                let r = rects[k - 1];
                assert(box_ok(r, p.width(), p.height()));
                assert(0 <= r.x + r.width / 2 <= i32::MAX && 0 <= r.y + r.height / 2 <= i32::MAX);
                assert(live_dot_of(p, r) is Some);
                assert(centre_of_dot_box(p, rects[k - 1], cur[i]));
            }
        }
    }
}

proof fn lemma_live_dots_complete(p: &BgrPlanes, rects: Seq<Rect>, k: int, j: int)
    requires
        0 <= j < k <= rects.len(),
        live_dot_of(p, rects[j]) is Some,
    ensures
        live_dots(p, rects, k).contains(live_dot_of(p, rects[j])->0),
    decreases k,
{
    let cur = live_dots(p, rects, k);
    if j == k - 1 {
        assert(cur[cur.len() - 1] == live_dot_of(p, rects[j])->0);
    } else {
        lemma_live_dots_complete(p, rects, k - 1, j);
        let prev = live_dots(p, rects, k - 1);
        let i = choose|i: int| 0 <= i < prev.len() && prev[i] == live_dot_of(p, rects[j])->0;
        assert(cur[i] == prev[i]);
    }
}

/// What the live dot finder returns: at most one dot per blob box, and every
/// dot is the centre of a box of 15 to 150 pixels whose width is strictly
/// between 0.7 and 1.4 times its height and whose one-pixel ring is at least
/// 15% dark, so a larger or smaller box never yields a dot. Conversely, the
/// centre of every such box is among the dots.
pub proof fn lemma_live_dots_are_dot_boxes(p: &BgrPlanes, rects: Seq<Rect>)
    requires
        p.width() <= i32::MAX,
        p.height() <= i32::MAX,
        forall|j: int| 0 <= j < rects.len() ==> box_ok(#[trigger] rects[j], p.width(), p.height()),
    ensures
        live_dots(p, rects, rects.len() as int).len() <= rects.len(),
        forall|i: int|
            0 <= i < live_dots(p, rects, rects.len() as int).len() ==> exists|j: int|
                0 <= j < rects.len() && centre_of_dot_box(p, rects[j], #[trigger] live_dots(p, rects, rects.len() as int)[i]),
        forall|j: int, d: Point|
            0 <= j < rects.len() && #[trigger] centre_of_dot_box(p, rects[j], d) ==> live_dots(
                p,
                rects,
                rects.len() as int,
            ).contains(d),
{
    let n = rects.len() as int;
    lemma_live_dots_sources(p, rects, n);
    assert forall|j: int, d: Point|
        0 <= j < rects.len() && #[trigger] centre_of_dot_box(p, rects[j], d) implies live_dots(p, rects, n).contains(d) by {
        assert(box_ok(rects[j], p.width(), p.height()));
        assert(0 <= rects[j].x + rects[j].width / 2 <= i32::MAX && 0 <= rects[j].y + rects[j].height / 2 <= i32::MAX);
        lemma_live_dots_complete(p, rects, n, j);
        let out = live_dots(p, rects, n);
        let i = choose|i: int| 0 <= i < out.len() && out[i] == live_dot_of(p, rects[j])->0;
        assert(out[i] == d);
    }
}

// ------------------------------------------------------------ best box

/// The value of `x` is at least that of `y`.
pub open spec fn dbl_ge(x: (int, nat), y: (int, nat)) -> bool {
    !dbl_gt(y, x)
}

/// The box with columns `xp` and rows `yp`, as `(x, y, width, height)`.
pub open spec fn box_of(xp: (int, int), yp: (int, int)) -> (int, int, int, int) {
    (xp.0, yp.0, xp.1 - xp.0, yp.1 - yp.0)
}

proof fn lemma_ge_trans(x: (int, nat), y: (int, nat), z: (int, nat))
    requires
        dbl_ge(x, y),
        dbl_ge(y, z),
    ensures
        dbl_ge(x, z),
{
    let (px, py, pz) = (pow2(x.1), pow2(y.1), pow2(z.1));
    vstd::arithmetic::power2::lemma_pow2_pos(x.1);
    vstd::arithmetic::power2::lemma_pow2_pos(y.1);
    vstd::arithmetic::power2::lemma_pow2_pos(z.1);
    assert(x.0 * pz >= z.0 * px) by (nonlinear_arith)
        requires
            x.0 * py >= y.0 * px,
            y.0 * pz >= z.0 * py,
            px > 0,
            py > 0,
            pz > 0;
}

/// The search over the row spans keeps the best so far: its result is at
/// least its start and at least every candidate it saw, and it is its start
/// or one of those candidates.
proof fn lemma_scan_rows(g: Seq<Vec<u8>>, xp: (int, int), ys: Seq<(int, int)>, k: int, acc: Best)
    requires
        0 <= k <= ys.len(),
    ensures
        dbl_ge(scan_rows(g, xp, ys, k, acc).0, acc.0),
        forall|b: int| 0 <= b < k ==> dbl_ge(scan_rows(g, xp, ys, k, acc).0, #[trigger] frame_score(g, xp, ys[b])),
        scan_rows(g, xp, ys, k, acc) == acc || exists|b: int|
            0 <= b < k && scan_rows(g, xp, ys, k, acc) == (#[trigger] frame_score(g, xp, ys[b]), box_of(xp, ys[b])),
    decreases k,
{
    if k > 0 {
        lemma_scan_rows(g, xp, ys, k - 1, acc);
        let prev = scan_rows(g, xp, ys, k - 1, acc);
        let r = scan_rows(g, xp, ys, k, acc);
        let s = frame_score(g, xp, ys[k - 1]);
        assert(r == consider(g, xp, ys[k - 1], prev));
        assert(dbl_ge(r.0, prev.0));
        assert(dbl_ge(r.0, s));
        lemma_ge_trans(r.0, prev.0, acc.0);
        assert forall|b: int| 0 <= b < k implies dbl_ge(r.0, #[trigger] frame_score(g, xp, ys[b])) by {
            if b < k - 1 {
                lemma_ge_trans(r.0, prev.0, frame_score(g, xp, ys[b]));
            }
        }
        if r != prev {
            assert(r == (frame_score(g, xp, ys[k - 1]), box_of(xp, ys[k - 1])));
        }
    }
}

/// The same over the column spans, each with every row span.
proof fn lemma_scan_cols(g: Seq<Vec<u8>>, xs: Seq<(int, int)>, ys: Seq<(int, int)>, k: int, acc: Best)
    requires
        0 <= k <= xs.len(),
    ensures
        dbl_ge(scan_cols(g, xs, ys, k, acc).0, acc.0),
        forall|a: int, b: int|
            0 <= a < k && 0 <= b < ys.len() ==> dbl_ge(scan_cols(g, xs, ys, k, acc).0, #[trigger] frame_score(g, xs[a], ys[b])),
        scan_cols(g, xs, ys, k, acc) == acc || exists|a: int, b: int|
            0 <= a < k && 0 <= b < ys.len() && scan_cols(g, xs, ys, k, acc) == (#[trigger] frame_score(g, xs[a], ys[b]), box_of(
                xs[a],
                ys[b],
            )),
    decreases k,
{
    if k > 0 {
        lemma_scan_cols(g, xs, ys, k - 1, acc);
        let prev = scan_cols(g, xs, ys, k - 1, acc);
        let r = scan_cols(g, xs, ys, k, acc);
        lemma_scan_rows(g, xs[k - 1], ys, ys.len() as int, prev);
        assert(r == scan_rows(g, xs[k - 1], ys, ys.len() as int, prev));
        lemma_ge_trans(r.0, prev.0, acc.0);
        assert forall|a: int, b: int| 0 <= a < k && 0 <= b < ys.len() implies dbl_ge(r.0, #[trigger] frame_score(g, xs[a], ys[b])) by {
            if a < k - 1 {
                lemma_ge_trans(r.0, prev.0, frame_score(g, xs[a], ys[b]));
            } else {
                assert(dbl_ge(r.0, frame_score(g, xs[k - 1], ys[b])));
            }
        }
        if r != prev {
            let b = choose|b: int|
                0 <= b < ys.len() && r == (#[trigger] frame_score(g, xs[k - 1], ys[b]), box_of(xs[k - 1], ys[b]));
            assert(0 <= k - 1 < k && 0 <= b < ys.len() && r == (frame_score(g, xs[k - 1], ys[b]), box_of(xs[k - 1], ys[b])));
        } else if prev != acc {
            let (a, b) = choose|a: int, b: int|
                0 <= a < k - 1 && 0 <= b < ys.len() && prev == (#[trigger] frame_score(g, xs[a], ys[b]), box_of(xs[a], ys[b]));
            assert(0 <= a < k && 0 <= b < ys.len() && r == (frame_score(g, xs[a], ys[b]), box_of(xs[a], ys[b])));
        }
    }
}

/// The edge-profile search returns a box of highest score: no pair of
/// column and row spans it tried scores more, and the box is either the
/// empty one (no candidate scored above zero) or one of the candidates,
/// with its score.
pub proof fn lemma_live_frame_best(g: Seq<Vec<u8>>, w: int, h: int)
    ensures
        ({
            let xs = live_col_spans(g, w, h);
            let ys = live_row_spans(g, w, h);
            let best = live_best(g, w, h);
            &&& forall|a: int, b: int|
                0 <= a < xs.len() && 0 <= b < ys.len() ==> !dbl_gt(#[trigger] frame_score(g, xs[a], ys[b]), best.0)
            &&& best == ((0int, 0nat), (0int, 0int, 0int, 0int)) ==> forall|a: int, b: int|
                0 <= a < xs.len() && 0 <= b < ys.len() ==> !dbl_gt(#[trigger] frame_score(g, xs[a], ys[b]), (0int, 0nat))
            &&& best == ((0int, 0nat), (0int, 0int, 0int, 0int)) || exists|a: int, b: int|
                0 <= a < xs.len() && 0 <= b < ys.len() && best == (#[trigger] frame_score(g, xs[a], ys[b]), box_of(
                    xs[a],
                    ys[b],
                ))
        }),
{
    let xs = live_col_spans(g, w, h);
    let ys = live_row_spans(g, w, h);
    lemma_scan_cols(g, xs, ys, xs.len() as int, ((0, 0), (0, 0, 0, 0)));
}

// ------------------------------------------------------------ reporting

pub open spec fn abs_i(v: int) -> int {
    if v >= 0 { v } else { -v }
}

/// Dot `p` has moved from `q` by more than 2 pixels along an axis.
pub open spec fn moved(p: Point, q: Point) -> bool {
    abs_i(p.x - q.x) > 2 || abs_i(p.y - q.y) > 2
}

/// The differences the comparison of `p` with `q` takes fit in `i32` (the
/// vertical one only when the horizontal one does not already decide).
pub open spec fn diff_fits(p: Point, q: Point) -> bool {
    &&& -i32::MAX <= p.x - q.x <= i32::MAX
    &&& abs_i(p.x - q.x) <= 2 ==> -i32::MAX <= p.y - q.y <= i32::MAX
}

/// The frame is reported (and its dots kept as the new reference): when the
/// number of players or enemies changed, when some player moved by more
/// than 2 pixels along an axis from the one at its index before, or on every
/// third frame.
pub open spec fn dots_changed_spec(prev: Seq<Point>, cur: Seq<Point>, prev_enemies: int, enemies: int, frame: int) -> bool {
    ||| cur.len() != prev.len()
    ||| enemies != prev_enemies
    ||| exists|i: int| 0 <= i < cur.len() && #[trigger] moved(cur[i], prev[i])
    ||| frame % 3 == 0
}

/// Whether the comparisons of the live reader fit in `i32`: each pair of
/// dots at the same index, up to the first one that moved.
pub open spec fn diffs_fit(prev: Seq<Point>, cur: Seq<Point>) -> bool {
    forall|i: int|
        0 <= i < cur.len() ==> (forall|j: int| 0 <= j < i ==> !#[trigger] moved(cur[j], prev[j])) ==> diff_fits(
            cur[i],
            prev[i],
        )
}

/// Some player moved by more than 2 pixels from the one at its index.
fn any_moved(prev: &Vec<Point>, cur: &Vec<Point>) -> (r: bool)
    requires
        cur.len() == prev.len(),
        diffs_fit(prev@, cur@),
    ensures
        r == exists|i: int| 0 <= i < cur.len() && #[trigger] moved(cur@[i], prev@[i]),
{
    let mut i: usize = 0;
    while i < cur.len()
        invariant
            cur.len() == prev.len(),
            i <= cur.len(),
            diffs_fit(prev@, cur@),
            forall|j: int| 0 <= j < i ==> !#[trigger] moved(cur@[j], prev@[j]),
        decreases cur.len() - i,
    {
        let p = cur[i];
        let q = prev[i];
        proof {
            assert(diff_fits(cur@[i as int], prev@[i as int]));
        }
        let dx = p.x - q.x;
        let adx = if dx >= 0 { dx } else { -dx };
        if adx > 2 {
            assert(moved(cur@[i as int], prev@[i as int]));
            return true;
        }
        let dy = p.y - q.y;
        let ady = if dy >= 0 { dy } else { -dy };
        if ady > 2 {
            assert(moved(cur@[i as int], prev@[i as int]));
            return true;
        }
        i = i + 1;
    }
    false
}

/// Whether the live reader reports this frame (see `dots_changed_spec`).
pub fn dots_changed(prev_players: &Vec<Point>, players: &Vec<Point>, prev_enemies: usize, enemies: usize, frame: usize) -> (r: bool)
    requires
        players.len() == prev_players.len() ==> diffs_fit(prev_players@, players@),
    ensures
        r == dots_changed_spec(prev_players@, players@, prev_enemies as int, enemies as int, frame as int),
{
    if players.len() != prev_players.len() || enemies != prev_enemies {
        return true;
    }
    any_moved(prev_players, players) || frame % 3 == 0
}

/// When the live reader reports a frame. Any change in the number of
/// enemies, up or down, is reported, and so is any change in the number of
/// players, any player that moved by more than 2 pixels along an axis, and
/// every third frame. A frame is skipped only when both counts are the same
/// and every player lies within 2 pixels on each axis of the one at its
/// index before. The decision does not depend on which of two frames came
/// first.
pub proof fn lemma_dots_changed_reports(prev: Seq<Point>, cur: Seq<Point>, prev_enemies: int, enemies: int, frame: int)
    ensures
        enemies != prev_enemies ==> dots_changed_spec(prev, cur, prev_enemies, enemies, frame),
        cur.len() != prev.len() ==> dots_changed_spec(prev, cur, prev_enemies, enemies, frame),
        frame % 3 == 0 ==> dots_changed_spec(prev, cur, prev_enemies, enemies, frame),
        forall|i: int|
            #![trigger cur[i], prev[i]]
            0 <= i < cur.len() && i < prev.len() && (abs_i(cur[i].x - prev[i].x) > 2 || abs_i(cur[i].y - prev[i].y) > 2)
                ==> dots_changed_spec(prev, cur, prev_enemies, enemies, frame),
        !dots_changed_spec(prev, cur, prev_enemies, enemies, frame) ==> {
            &&& enemies == prev_enemies
            &&& cur.len() == prev.len()
            &&& frame % 3 != 0
            &&& forall|i: int|
                0 <= i < cur.len() ==> abs_i(#[trigger] cur[i].x - prev[i].x) <= 2 && abs_i(cur[i].y - prev[i].y) <= 2
        },
        dots_changed_spec(prev, cur, prev_enemies, enemies, frame) == dots_changed_spec(
            cur,
            prev,
            enemies,
            prev_enemies,
            frame,
        ),
{
    assert forall|i: int|
        #![trigger cur[i], prev[i]]
        0 <= i < cur.len() && i < prev.len() && (abs_i(cur[i].x - prev[i].x) > 2 || abs_i(cur[i].y - prev[i].y) > 2)
            implies dots_changed_spec(prev, cur, prev_enemies, enemies, frame) by {
        if cur.len() == prev.len() {
            assert(moved(cur[i], prev[i]));
        }
    }
    if !dots_changed_spec(prev, cur, prev_enemies, enemies, frame) {
        assert forall|i: int| 0 <= i < cur.len() implies abs_i(#[trigger] cur[i].x - prev[i].x) <= 2 && abs_i(
            cur[i].y - prev[i].y,
        ) <= 2 by {
            assert(!moved(cur[i], prev[i]));
        }
    }
    if cur.len() == prev.len() {
        assert((exists|i: int| 0 <= i < cur.len() && #[trigger] moved(cur[i], prev[i])) == (exists|i: int|
            0 <= i < prev.len() && #[trigger] moved(prev[i], cur[i]))) by {
            if exists|i: int| 0 <= i < cur.len() && #[trigger] moved(cur[i], prev[i]) {
                let i = choose|i: int| 0 <= i < cur.len() && #[trigger] moved(cur[i], prev[i]);
                assert(moved(prev[i], cur[i]));
            }
            if exists|i: int| 0 <= i < prev.len() && #[trigger] moved(prev[i], cur[i]) {
                let i = choose|i: int| 0 <= i < prev.len() && #[trigger] moved(prev[i], cur[i]);
                assert(moved(cur[i], prev[i]));
            }
        }
    }
}

} // verus!
