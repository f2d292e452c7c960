use vstd::prelude::*;
use crate::geom::{is_plane, px};
use vstd::relations::{sorted_by, total_ordering};

verus! {

// Shape measurements of a normalised digit glyph: its height, the width of
// its strokes and the area of its enclosed counters. A pixel is ink when its
// gray level is above the threshold `t`.

pub open spec fn ink(g: Seq<Vec<u8>>, t: int, y: int, x: int) -> bool {
    px(g, y, x) > t
}

/// Row `y` has an ink pixel among its first `w`.
pub open spec fn row_ink(g: Seq<Vec<u8>>, w: int, t: int, y: int) -> bool {
    exists|x: int| 0 <= x < w && #[trigger] ink(g, t, y, x)
}

/// The first row from `i` on (below `h`) with ink, or `h`.
pub open spec fn first_ink_row(g: Seq<Vec<u8>>, w: int, t: int, i: int, h: int) -> int
    decreases h - i,
{
    if i >= h {
        h
    } else if row_ink(g, w, t, i) {
        i
    } else {
        first_ink_row(g, w, t, i + 1, h)
    }
}

/// The last row below `k` with ink, or -1.
pub open spec fn last_ink_row(g: Seq<Vec<u8>>, w: int, t: int, k: int) -> int
    decreases k,
{
    if k <= 0 {
        -1
    } else if row_ink(g, w, t, k - 1) {
        k - 1
    } else {
        last_ink_row(g, w, t, k - 1)
    }
}

/// Height of the foreground's bounding box: the rows from the topmost to
/// the bottommost row with ink, 0 when there is no ink.
pub open spec fn glyph_height_spec(g: Seq<Vec<u8>>, w: int, h: int, t: int) -> int {
    let y0 = first_ink_row(g, w, t, 0, h);
    let y1 = last_ink_row(g, w, t, h);
    if y0 < h { y1 - y0 + 1 } else { 0 }
}

proof fn lemma_first_ink_row(g: Seq<Vec<u8>>, w: int, t: int, i: int, j: int, h: int)
    requires
        0 <= i <= j <= h,
        forall|r: int| i <= r < j ==> !row_ink(g, w, t, r),
        j == h || row_ink(g, w, t, j),
    ensures
        first_ink_row(g, w, t, i, h) == j,
    decreases j - i,
{
    if i < j {
        lemma_first_ink_row(g, w, t, i + 1, j, h);
    }
}

proof fn lemma_last_ink_row(g: Seq<Vec<u8>>, w: int, t: int, k: int, j: int)
    requires
        -1 <= j < k,
        forall|r: int| j < r < k ==> !row_ink(g, w, t, r),
        j == -1 || row_ink(g, w, t, j),
    ensures
        last_ink_row(g, w, t, k) == j,
    decreases k,
{
    if k - 1 > j {
        lemma_last_ink_row(g, w, t, k - 1, j);
    }
}

/// Whether row `y` has ink.
fn row_has_ink(g: &Vec<Vec<u8>>, w: usize, h: usize, t: u8, y: usize) -> (r: bool)
    requires
        is_plane(g@, w as int, h as int),
        y < h,
    ensures
        r == row_ink(g@, w as int, t as int, y as int),
{
    let mut x: usize = 0;
    while x < w
        invariant
            is_plane(g@, w as int, h as int),
            y < h,
            x <= w,
            forall|i: int| 0 <= i < x ==> !#[trigger] ink(g@, t as int, y as int, i),
        decreases w - x,
    {
        if g[y][x] > t {
            assert(ink(g@, t as int, y as int, x as int));
            return true;
        }
        x = x + 1;
    }
    false
}

/// Height of the glyph: the rows from its topmost to its bottommost ink
/// pixel (see `glyph_height_spec`).
pub fn glyph_height(g: &Vec<Vec<u8>>, w: usize, h: usize, t: u8) -> (r: u32)
    requires
        is_plane(g@, w as int, h as int),
        h <= u32::MAX,
    ensures
        r == glyph_height_spec(g@, w as int, h as int, t as int),
{
    let mut y0: usize = h;
    let mut y1: usize = 0;
    let mut y: usize = 0;
    while y < h
        invariant
            is_plane(g@, w as int, h as int),
            y <= h,
            y0 == h || (y0 < y && row_ink(g@, w as int, t as int, y0 as int)),
            forall|r: int| 0 <= r < y && r < y0 ==> !row_ink(g@, w as int, t as int, r),
            y1 == 0 || (y1 < y && row_ink(g@, w as int, t as int, y1 as int)),
            forall|r: int| y1 < r < y ==> !row_ink(g@, w as int, t as int, r),
        decreases h - y,
    {
        if row_has_ink(g, w, h, t, y) {
            if y < y0 {
                y0 = y;
            }
            y1 = y;
        }
        y = y + 1;
    }
    proof {
        lemma_first_ink_row(g@, w as int, t as int, 0, y0 as int, h as int);
        if y1 > 0 || (h > 0 && row_ink(g@, w as int, t as int, 0)) {
            lemma_last_ink_row(g@, w as int, t as int, h as int, y1 as int);
        } else {
            lemma_last_ink_row(g@, w as int, t as int, h as int, -1);
        }
    }
    if y0 < h {
        (y1 - y0 + 1) as u32
    } else {
        0
    }
}

// ------------------------------------------------------------ stroke width

/// The runs of ink closed within the first `k` pixels of `row`, left to
/// right, and the length of the run still open after them.
pub open spec fn row_runs(row: Seq<u8>, t: int, k: int) -> (Seq<u32>, int)
    decreases k,
{
    if k <= 0 {
        (Seq::empty(), 0)
    } else {
        let (rs, run) = row_runs(row, t, k - 1);
        if row[k - 1] > t {
            (rs, run + 1)
        } else if run > 0 {
            (rs.push(run as u32), 0)
        } else {
            (rs, 0)
        }
    }
}

/// The lengths of the maximal horizontal runs of ink in `row`, left to right.
pub open spec fn runs_of_row(row: Seq<u8>, t: int) -> Seq<u32> {
    let (rs, run) = row_runs(row, t, row.len() as int);
    if run > 0 { rs.push(run as u32) } else { rs }
}

/// The horizontal ink runs of the first `k` rows, row by row.
pub open spec fn all_runs(g: Seq<Vec<u8>>, t: int, k: int) -> Seq<u32>
    decreases k,
{
    if k <= 0 { Seq::empty() } else { all_runs(g, t, k - 1) + runs_of_row(g[k - 1]@, t) }
}

pub open spec fn le_u32() -> spec_fn(u32, u32) -> bool {
    |a: u32, b: u32| a <= b
}

/// The median horizontal run: the element at index `n / 2` of the `n` runs
/// sorted ascending, 0 when there is no ink.
pub open spec fn stroke_width_spec(g: Seq<Vec<u8>>, h: int, t: int) -> u32 {
    let rs = all_runs(g, t, h);
    if rs.len() == 0 { 0 } else { rs.sort_by(le_u32())[(rs.len() / 2) as int] }
}

proof fn lemma_row_runs_bound(row: Seq<u8>, t: int, k: int)
    requires
        0 <= k <= row.len(),
    ensures
        0 <= row_runs(row, t, k).1 <= k,
    decreases k,
{
    if k > 0 {
        lemma_row_runs_bound(row, t, k - 1);
    }
}

/// `v` sorted ascending.
fn sort_u32(v: &Vec<u32>) -> (r: Vec<u32>)
    ensures
        sorted_by(r@, le_u32()),
        r@.to_multiset() == v@.to_multiset(),
{
    broadcast use vstd::seq_lib::group_to_multiset_ensures;

    let mut out: Vec<u32> = Vec::new();
    let mut i: usize = 0;
    while i < v.len()
        invariant
            i <= v.len(),
            sorted_by(out@, le_u32()),
            out@.to_multiset() == v@.take(i as int).to_multiset(),
        decreases v.len() - i,
    {
        let e = v[i];
        let mut pos: usize = 0;
        while pos < out.len() && out[pos] <= e
            invariant
                pos <= out@.len(),
                forall|j: int| 0 <= j < pos ==> out@[j] <= e,
            decreases out.len() - pos,
        {
            pos = pos + 1;
        }
        let ghost before = out@;
        proof {
            assert(pos < before.len() ==> e < before[pos as int]);
            assert(forall|j: int| pos <= j < before.len() ==> e < before[j]) by {
                assert forall|j: int| pos <= j < before.len() implies e < before[j] by {
                    assert(le_u32()(before[pos as int], before[j]) || j == pos);
                }
            }
        }
        out.insert(pos, e);
        proof {
            assert(v@.take(i + 1) =~= v@.take(i as int).push(e));
            assert(out@ == before.insert(pos as int, e));
            vstd::seq_lib::to_multiset_insert(before, pos as int, e);
            vstd::seq_lib::to_multiset_build(v@.take(i as int), e);
            assert forall|a: int, b: int| 0 <= a < b < out@.len() implies #[trigger] le_u32()(out@[a], out@[b]) by {
                if b < pos {
                    assert(le_u32()(before[a], before[b]));
                } else if b == pos {
                } else if a < pos {
                    assert(out@[b] == before[b - 1]);
                } else if a == pos {
                    assert(out@[b] == before[b - 1]);
                } else {
                    assert(le_u32()(before[a - 1], before[b - 1]));
                }
            }
        }
        i = i + 1;
    }
    proof {
        assert(v@.take(v.len() as int) =~= v@);
    }
    out
}

proof fn lemma_le_u32_total()
    ensures
        total_ordering(le_u32()),
{
}

/// Median width of the horizontal runs of ink (see `stroke_width_spec`); a
/// vertical stroke gives one short run per row, so this follows the stroke
/// thickness.
pub fn stroke_width(g: &Vec<Vec<u8>>, w: usize, h: usize, t: u8) -> (r: u32)
    requires
        is_plane(g@, w as int, h as int),
        w <= u32::MAX,
    ensures
        r == stroke_width_spec(g@, h as int, t as int),
        all_runs(g@, t as int, h as int).len() > 0 ==> all_runs(g@, t as int, h as int).contains(r),
{
    let mut runs: Vec<u32> = Vec::new();
    let mut y: usize = 0;
    while y < h
        invariant
            is_plane(g@, w as int, h as int),
            w <= u32::MAX,
            y <= h,
            runs@ == all_runs(g@, t as int, y as int),
        decreases h - y,
    {
        let ghost start = runs@;
        let ghost row = g@[y as int]@;
        let mut run: u32 = 0;
        let mut x: usize = 0;
        while x < w
            invariant
                is_plane(g@, w as int, h as int),
                w <= u32::MAX,
                y < h,
                row == g@[y as int]@,
                x <= w,
                runs@ == start + row_runs(row, t as int, x as int).0,
                run == row_runs(row, t as int, x as int).1,
            decreases w - x,
        {
            proof {
                lemma_row_runs_bound(row, t as int, x as int);
            }
            if g[y][x] > t {
                run = run + 1;
            } else if run > 0 {
                proof {
                    assert(start + row_runs(row, t as int, x as int).0.push(run) =~= (start + row_runs(row, t as int, x as int).0).push(run));
                }
                runs.push(run);
                run = 0;
            }
            x = x + 1;
        }
        proof {
            assert(row.len() == w);
            if run > 0 {
                assert(start + row_runs(row, t as int, w as int).0.push(run) =~= (start + row_runs(row, t as int, w as int).0).push(run));
            }
        }
        if run > 0 {
            runs.push(run);
        }
        proof {
            assert(all_runs(g@, t as int, y + 1) == start + runs_of_row(row, t as int));
        }
        y = y + 1;
    }
    if runs.len() == 0 {
        return 0;
    }
    let sorted = sort_u32(&runs);
    proof {
        lemma_le_u32_total();
        runs@.lemma_sort_by_ensures(le_u32());
        vstd::seq_lib::lemma_sorted_unique(sorted@, runs@.sort_by(le_u32()), le_u32());
        vstd::seq_lib::to_multiset_len(sorted@);
        vstd::seq_lib::to_multiset_len(runs@);
        assert(sorted@.contains(sorted@[(runs@.len() / 2) as int]));
    }
    sorted[runs.len() / 2]
}

// ------------------------------------------------------------ counters

/// Pixel `p = (x, y)` lies in the `w` x `h` image.
pub open spec fn in_img(w: int, h: int, p: (int, int)) -> bool {
    0 <= p.0 < w && 0 <= p.1 < h
}

/// Background: a pixel of the image at or below the threshold.
pub open spec fn bg(g: Seq<Vec<u8>>, w: int, h: int, t: int, p: (int, int)) -> bool {
    in_img(w, h, p) && px(g, p.1, p.0) <= t
}

pub open spec fn on_edge(w: int, h: int, p: (int, int)) -> bool {
    p.0 == 0 || p.1 == 0 || p.0 == w - 1 || p.1 == h - 1
}

/// `b` is one of the four pixels next to `a`.
pub open spec fn adjacent(a: (int, int), b: (int, int)) -> bool {
    b == (a.0 + 1, a.1) || b == (a.0 - 1, a.1) || b == (a.0, a.1 + 1) || b == (a.0, a.1 - 1)
}

/// A walk through background pixels, each next to the one before, that
/// starts on the image's edge.
pub open spec fn bg_path(g: Seq<Vec<u8>>, w: int, h: int, t: int, path: Seq<(int, int)>) -> bool {
    &&& path.len() > 0
    &&& on_edge(w, h, path[0])
    &&& forall|i: int| 0 <= i < path.len() ==> bg(g, w, h, t, #[trigger] path[i])
    &&& forall|i: int| 0 <= i < path.len() - 1 ==> adjacent(#[trigger] path[i], path[i + 1])
}

/// Background reachable from the image's edge through background.
pub open spec fn open_bg(g: Seq<Vec<u8>>, w: int, h: int, t: int, p: (int, int)) -> bool {
    exists|path: Seq<(int, int)>| #[trigger] bg_path(g, w, h, t, path) && path.last() == p
}

/// A pixel of an enclosed counter: background that no background walk
/// from the edge reaches.
pub open spec fn hole(g: Seq<Vec<u8>>, w: int, h: int, t: int, p: (int, int)) -> bool {
    bg(g, w, h, t, p) && !open_bg(g, w, h, t, p)
}

pub open spec fn hole_row(g: Seq<Vec<u8>>, w: int, h: int, t: int, y: int, k: int) -> int
    decreases k,
{
    if k <= 0 { 0 } else { hole_row(g, w, h, t, y, k - 1) + if hole(g, w, h, t, (k - 1, y)) { 1int } else { 0int } }
}

/// Counter pixels of the first `k` rows.
pub open spec fn hole_count(g: Seq<Vec<u8>>, w: int, h: int, t: int, k: int) -> int
    decreases k,
{
    if k <= 0 { 0 } else { hole_count(g, w, h, t, k - 1) + hole_row(g, w, h, t, k - 1, w) }
}

/// The mark of pixel `p` in a row-major `w`-wide array of marks.
pub open spec fn sn(s: Seq<bool>, w: int, p: (int, int)) -> bool {
    s[p.1 * w + p.0]
}

pub open spec fn on_stack(st: Seq<(i64, i64)>, q: (int, int)) -> bool {
    exists|j: int| 0 <= j < st.len() && (#[trigger] st[j]).0 as int == q.0 && st[j].1 as int == q.1
}

/// Pixel `q` is not background, or is marked, or waits on the stack.
pub open spec fn covered(g: Seq<Vec<u8>>, w: int, h: int, t: int, s: Seq<bool>, st: Seq<(i64, i64)>, q: (int, int)) -> bool {
    !bg(g, w, h, t, q) || sn(s, w, q) || on_stack(st, q)
}

pub open spec fn closed_at(g: Seq<Vec<u8>>, w: int, h: int, t: int, s: Seq<bool>, st: Seq<(i64, i64)>, p: (int, int)) -> bool {
    &&& covered(g, w, h, t, s, st, (p.0 + 1, p.1))
    &&& covered(g, w, h, t, s, st, (p.0 - 1, p.1))
    &&& covered(g, w, h, t, s, st, (p.0, p.1 + 1))
    &&& covered(g, w, h, t, s, st, (p.0, p.1 - 1))
}

/// A stack entry outside the image, on its edge, or next to a marked pixel.
pub open spec fn sourced(s: Seq<bool>, w: int, h: int, e: (i64, i64)) -> bool {
    let p = (e.0 as int, e.1 as int);
    !in_img(w, h, p) || on_edge(w, h, p) || exists|q: (int, int)| in_img(w, h, q) && #[trigger] sn(s, w, q) && adjacent(q, p)
}

/// What the fill keeps true of the marks `s` and the stack `st`: marked
/// pixels are open background; every stack entry is near the image and
/// sourced; the neighbours of marked pixels and the edge pixels are covered.
pub open spec fn fill_inv(g: Seq<Vec<u8>>, w: int, h: int, t: int, s: Seq<bool>, st: Seq<(i64, i64)>) -> bool {
    &&& s.len() == w * h
    &&& forall|j: int| 0 <= j < st.len() ==> -1 <= (#[trigger] st[j]).0 <= w && -1 <= st[j].1 <= h
    &&& forall|j: int| 0 <= j < st.len() ==> sourced(s, w, h, #[trigger] st[j])
    &&& forall|p: (int, int)| in_img(w, h, p) && #[trigger] sn(s, w, p) ==> bg(g, w, h, t, p) && open_bg(g, w, h, t, p)
    &&& forall|p: (int, int)| in_img(w, h, p) && #[trigger] sn(s, w, p) ==> closed_at(g, w, h, t, s, st, p)
    &&& forall|p: (int, int)| in_img(w, h, p) && #[trigger] on_edge(w, h, p) ==> covered(g, w, h, t, s, st, p)
}

proof fn lemma_idx(w: int, h: int, p: (int, int))
    requires
        in_img(w, h, p),
    ensures
        0 <= p.1 * w + p.0 < w * h,
{
    assert(0 <= p.1 * w + p.0 < w * h) by (nonlinear_arith)
        requires
            0 <= p.0 < w,
            0 <= p.1 < h;
}

proof fn lemma_idx_inj(w: int, h: int, p: (int, int), q: (int, int))
    requires
        in_img(w, h, p),
        in_img(w, h, q),
        p.1 * w + p.0 == q.1 * w + q.0,
    ensures
        p == q,
{
    if p.1 < q.1 {
        assert(q.1 * w >= p.1 * w + w) by (nonlinear_arith)
            requires
                p.1 < q.1,
                w >= 0;
    } else if q.1 < p.1 {
        assert(p.1 * w >= q.1 * w + w) by (nonlinear_arith)
            requires
                q.1 < p.1,
                w >= 0;
    }
}

/// Coverage of `q` survives a step that pops the top `e` of `st` and pushes
/// onto what is left, as long as marks are kept and `e` is marked when it is
/// background.
proof fn lemma_cover_moves(
    g: Seq<Vec<u8>>,
    w: int,
    h: int,
    t: int,
    s: Seq<bool>,
    st: Seq<(i64, i64)>,
    s2: Seq<bool>,
    st2: Seq<(i64, i64)>,
    q: (int, int),
)
    requires
        covered(g, w, h, t, s, st, q),
        st.len() > 0,
        st2.len() >= st.len() - 1,
        forall|j: int| 0 <= j < st.len() - 1 ==> st2[j] == st[j],
        bg(g, w, h, t, q) && sn(s, w, q) ==> sn(s2, w, q),
        bg(g, w, h, t, q) && q == (st.last().0 as int, st.last().1 as int) ==> sn(s2, w, q),
    ensures
        covered(g, w, h, t, s2, st2, q),
{
    if bg(g, w, h, t, q) && !sn(s, w, q) {
        let j = choose|j: int| 0 <= j < st.len() && (#[trigger] st[j]).0 as int == q.0 && st[j].1 as int == q.1;
        if j < st.len() - 1 {
            assert(st2[j] == st[j]);
        }
    }
}

/// Popping an entry that is outside the image, marked, or ink keeps the
/// invariant.
proof fn lemma_fill_discard(g: Seq<Vec<u8>>, w: int, h: int, t: int, s: Seq<bool>, st: Seq<(i64, i64)>)
    requires
        fill_inv(g, w, h, t, s, st),
        st.len() > 0,
        ({
            let e = (st.last().0 as int, st.last().1 as int);
            !in_img(w, h, e) || sn(s, w, e) || !bg(g, w, h, t, e)
        }),
    ensures
        fill_inv(g, w, h, t, s, st.drop_last()),
{
    let st2 = st.drop_last();
    assert forall|j: int| 0 <= j < st2.len() implies sourced(s, w, h, #[trigger] st2[j]) by {
        assert(st2[j] == st[j]);
    }
    assert forall|j: int| 0 <= j < st2.len() implies -1 <= (#[trigger] st2[j]).0 <= w && -1 <= st2[j].1 <= h by {
        assert(st2[j] == st[j]);
    }
    assert forall|p: (int, int)| in_img(w, h, p) && #[trigger] sn(s, w, p) implies closed_at(g, w, h, t, s, st2, p) by {
        assert(closed_at(g, w, h, t, s, st, p));
        lemma_cover_moves(g, w, h, t, s, st, s, st2, (p.0 + 1, p.1));
        lemma_cover_moves(g, w, h, t, s, st, s, st2, (p.0 - 1, p.1));
        lemma_cover_moves(g, w, h, t, s, st, s, st2, (p.0, p.1 + 1));
        lemma_cover_moves(g, w, h, t, s, st, s, st2, (p.0, p.1 - 1));
    }
    assert forall|p: (int, int)| in_img(w, h, p) && #[trigger] on_edge(w, h, p) implies covered(g, w, h, t, s, st2, p) by {
        lemma_cover_moves(g, w, h, t, s, st, s, st2, p);
    }
}

/// Marking `e` marks exactly `e` more.
proof fn lemma_mark(s: Seq<bool>, w: int, h: int, e: (int, int), q: (int, int))
    requires
        s.len() == w * h,
        in_img(w, h, e),
        in_img(w, h, q),
    ensures
        sn(s.update(e.1 * w + e.0, true), w, q) == (q == e || sn(s, w, q)),
{
    lemma_idx(w, h, e);
    lemma_idx(w, h, q);
    if q.1 * w + q.0 == e.1 * w + e.0 {
        lemma_idx_inj(w, h, q, e);
    }
}

/// The top `e` of the stack is open background.
proof fn lemma_top_open(g: Seq<Vec<u8>>, w: int, h: int, t: int, s: Seq<bool>, st: Seq<(i64, i64)>)
    requires
        fill_inv(g, w, h, t, s, st),
        st.len() > 0,
        bg(g, w, h, t, (st.last().0 as int, st.last().1 as int)),
    ensures
        open_bg(g, w, h, t, (st.last().0 as int, st.last().1 as int)),
{
    let e = (st.last().0 as int, st.last().1 as int);
    assert(sourced(s, w, h, st[st.len() - 1]));
    if on_edge(w, h, e) {
        let path = seq![e];
        assert(bg_path(g, w, h, t, path));
    } else {
        let q = choose|q: (int, int)| in_img(w, h, q) && #[trigger] sn(s, w, q) && adjacent(q, e);
        assert(open_bg(g, w, h, t, q));
        let pq = choose|path: Seq<(int, int)>| #[trigger] bg_path(g, w, h, t, path) && path.last() == q;
        let path = pq.push(e);
        assert forall|i: int| 0 <= i < path.len() implies bg(g, w, h, t, #[trigger] path[i]) by {
            if i < pq.len() {
                assert(path[i] == pq[i]);
            }
        }
        assert forall|i: int| 0 <= i < path.len() - 1 implies adjacent(#[trigger] path[i], path[i + 1]) by {
            assert(path[i] == pq[i]);
            if i < pq.len() - 1 {
                assert(path[i + 1] == pq[i + 1]);
            }
        }
        assert(bg_path(g, w, h, t, path));
        assert(path.last() == e);
    }
}

/// Marking the background top `e` of the stack and pushing its four
/// neighbours in its place keeps the invariant.
proof fn lemma_fill_mark(
    g: Seq<Vec<u8>>,
    w: int,
    h: int,
    t: int,
    s: Seq<bool>,
    st: Seq<(i64, i64)>,
    n1: (i64, i64),
    n2: (i64, i64),
    n3: (i64, i64),
    n4: (i64, i64),
)
    requires
        fill_inv(g, w, h, t, s, st),
        st.len() > 0,
        in_img(w, h, (st.last().0 as int, st.last().1 as int)),
        bg(g, w, h, t, (st.last().0 as int, st.last().1 as int)),
        !sn(s, w, (st.last().0 as int, st.last().1 as int)),
        n1.0 == st.last().0 + 1 && n1.1 == st.last().1,
        n2.0 == st.last().0 - 1 && n2.1 == st.last().1,
        n3.0 == st.last().0 && n3.1 == st.last().1 + 1,
        n4.0 == st.last().0 && n4.1 == st.last().1 - 1,
    ensures
        fill_inv(
            g,
            w,
            h,
            t,
            s.update(st.last().1 * w + st.last().0, true),
            st.drop_last().push(n1).push(n2).push(n3).push(n4),
        ),
{
    let e = (st.last().0 as int, st.last().1 as int);
    let s2 = s.update(st.last().1 * w + st.last().0, true);
    let st2 = st.drop_last().push(n1).push(n2).push(n3).push(n4);
    let m = st.len() - 1;
    lemma_top_open(g, w, h, t, s, st);
    lemma_idx(w, h, e);
    assert(s2.len() == w * h);
    assert(st2.len() == m + 4);
    assert(st2[m] == n1 && st2[m + 1] == n2 && st2[m + 2] == n3 && st2[m + 3] == n4);
    assert forall|j: int| 0 <= j < m implies st2[j] == st[j] by {}
    lemma_mark(s, w, h, e, e);
    assert(sn(s2, w, e));
    assert forall|j: int| 0 <= j < st2.len() implies -1 <= (#[trigger] st2[j]).0 <= w && -1 <= st2[j].1 <= h by {
        if j < m {
            assert(st2[j] == st[j]);
        }
    }
    assert forall|j: int| 0 <= j < st2.len() implies sourced(s2, w, h, #[trigger] st2[j]) by {
        if j < m {
            assert(st2[j] == st[j]);
            assert(sourced(s, w, h, st[j]));
            let p = (st[j].0 as int, st[j].1 as int);
            if in_img(w, h, p) && !on_edge(w, h, p) {
                let q = choose|q: (int, int)| in_img(w, h, q) && #[trigger] sn(s, w, q) && adjacent(q, p);
                lemma_mark(s, w, h, e, q);
                assert(sn(s2, w, q));
            }
        } else {
            assert(adjacent(e, (st2[j].0 as int, st2[j].1 as int)));
        }
    }
    assert forall|p: (int, int)| in_img(w, h, p) && #[trigger] sn(s2, w, p) implies bg(g, w, h, t, p) && open_bg(
        g,
        w,
        h,
        t,
        p,
    ) by {
        lemma_mark(s, w, h, e, p);
    }
    assert forall|p: (int, int)| in_img(w, h, p) && #[trigger] sn(s2, w, p) implies closed_at(g, w, h, t, s2, st2, p) by {
        lemma_mark(s, w, h, e, p);
        if p == e {
            assert(on_stack(st2, (p.0 + 1, p.1))) by {
                assert(st2[m] == n1);
            }
            assert(on_stack(st2, (p.0 - 1, p.1))) by {
                assert(st2[m + 1] == n2);
            }
            assert(on_stack(st2, (p.0, p.1 + 1))) by {
                assert(st2[m + 2] == n3);
            }
            assert(on_stack(st2, (p.0, p.1 - 1))) by {
                assert(st2[m + 3] == n4);
            }
        } else {
            assert(sn(s, w, p));
            assert(closed_at(g, w, h, t, s, st, p));
            let q1 = (p.0 + 1, p.1);
            let q2 = (p.0 - 1, p.1);
            let q3 = (p.0, p.1 + 1);
            let q4 = (p.0, p.1 - 1);
            if in_img(w, h, q1) {
                lemma_mark(s, w, h, e, q1);
            }
            if in_img(w, h, q2) {
                lemma_mark(s, w, h, e, q2);
            }
            if in_img(w, h, q3) {
                lemma_mark(s, w, h, e, q3);
            }
            if in_img(w, h, q4) {
                lemma_mark(s, w, h, e, q4);
            }
            lemma_cover_moves(g, w, h, t, s, st, s2, st2, q1);
            lemma_cover_moves(g, w, h, t, s, st, s2, st2, q2);
            lemma_cover_moves(g, w, h, t, s, st, s2, st2, q3);
            lemma_cover_moves(g, w, h, t, s, st, s2, st2, q4);
        }
    }
    assert forall|p: (int, int)| in_img(w, h, p) && #[trigger] on_edge(w, h, p) implies covered(g, w, h, t, s2, st2, p) by {
        lemma_mark(s, w, h, e, p);
        lemma_cover_moves(g, w, h, t, s, st, s2, st2, p);
    }
}

/// With the stack empty, every pixel of a background walk from the edge is
/// marked.
proof fn lemma_fill_complete(g: Seq<Vec<u8>>, w: int, h: int, t: int, s: Seq<bool>, path: Seq<(int, int)>, i: int)
    requires
        forall|p: (int, int)| in_img(w, h, p) && #[trigger] sn(s, w, p) ==> closed_at(g, w, h, t, s, Seq::empty(), p),
        forall|p: (int, int)| in_img(w, h, p) && #[trigger] on_edge(w, h, p) ==> covered(g, w, h, t, s, Seq::empty(), p),
        bg_path(g, w, h, t, path),
        0 <= i < path.len(),
    ensures
        sn(s, w, path[i]),
    decreases i,
{
    let q = path[i];
    assert(bg(g, w, h, t, q));
    assert(!on_stack(Seq::<(i64, i64)>::empty(), q));
    if i == 0 {
        assert(on_edge(w, h, path[0]));
        assert(covered(g, w, h, t, s, Seq::empty(), q));
    } else {
        lemma_fill_complete(g, w, h, t, s, path, i - 1);
        let p = path[i - 1];
        assert(adjacent(p, q));
        assert(closed_at(g, w, h, t, s, Seq::empty(), p));
    }
}

/// What the fill leaves marked: exactly the open background.
proof fn lemma_fill_result(g: Seq<Vec<u8>>, w: int, h: int, t: int, s: Seq<bool>, p: (int, int))
    requires
        fill_inv(g, w, h, t, s, Seq::empty()),
        in_img(w, h, p),
    ensures
        hole(g, w, h, t, p) == (bg(g, w, h, t, p) && !sn(s, w, p)),
{
    if !sn(s, w, p) && bg(g, w, h, t, p) && open_bg(g, w, h, t, p) {
        let path = choose|path: Seq<(int, int)>| #[trigger] bg_path(g, w, h, t, path) && path.last() == p;
        lemma_fill_complete(g, w, h, t, s, path, path.len() - 1);
    }
}

pub open spec fn count_true(s: Seq<bool>) -> nat
    decreases s.len(),
{
    if s.len() == 0 { 0 } else { count_true(s.drop_last()) + if s.last() { 1nat } else { 0nat } }
}

proof fn lemma_count_true_le(s: Seq<bool>)
    ensures
        count_true(s) <= s.len(),
    decreases s.len(),
{
    if s.len() > 0 {
        lemma_count_true_le(s.drop_last());
    }
}

proof fn lemma_count_true_set(s: Seq<bool>, i: int)
    requires
        0 <= i < s.len(),
        !s[i],
    ensures
        count_true(s.update(i, true)) == count_true(s) + 1,
    decreases s.len(),
{
    let u = s.update(i, true);
    if i == s.len() - 1 {
        assert(u.drop_last() =~= s.drop_last());
    } else {
        assert(u.drop_last() =~= s.drop_last().update(i, true));
        lemma_count_true_set(s.drop_last(), i);
    }
}

proof fn lemma_hole_bounds(g: Seq<Vec<u8>>, w: int, h: int, t: int, y: int, k: int)
    requires
        0 <= k,
    ensures
        0 <= hole_row(g, w, h, t, y, k) <= k,
    decreases k,
{
    if k > 0 {
        lemma_hole_bounds(g, w, h, t, y, k - 1);
    }
}

proof fn lemma_hole_count_bound(g: Seq<Vec<u8>>, w: int, h: int, t: int, k: int)
    requires
        0 <= k,
        0 <= w,
    ensures
        0 <= hole_count(g, w, h, t, k) <= k * w,
    decreases k,
{
    if k > 0 {
        lemma_hole_count_bound(g, w, h, t, k - 1);
        lemma_hole_bounds(g, w, h, t, k - 1, w);
        assert((k - 1) * w + w == k * w) by (nonlinear_arith);
    }
}

/// Area of the glyph's enclosed counters: the background pixels that no
/// walk through background from the image's edge reaches (the holes of 0,
/// 6, 8, 9), found by a flood fill from the edge.
pub fn counter_area(g: &Vec<Vec<u8>>, w: usize, h: usize, t: u8) -> (r: u32)
    requires
        is_plane(g@, w as int, h as int),
        w <= i32::MAX,
        h <= i32::MAX,
        w * h <= i32::MAX,
    ensures
        r == hole_count(g@, w as int, h as int, t as int, h as int),
{
    let ghost (gw, gh, gt) = (w as int, h as int, t as int);
    let wi = w as i64;
    let hi = h as i64;
    let n = w * h;
    let mut seen: Vec<bool> = Vec::new();
    let mut i: usize = 0;
    while i < n
        invariant
            i <= n,
            seen@.len() == i,
            forall|j: int| 0 <= j < i ==> !#[trigger] seen@[j],
        decreases n - i,
    {
        seen.push(false);
        i = i + 1;
    }
    let mut stack: Vec<(i64, i64)> = Vec::new();
    let mut x: i64 = 0;
    while x < wi
        invariant
            gw == w,
            gh == h,
            wi == w,
            hi == h,
            w <= i32::MAX,
            h <= i32::MAX,
            0 <= x <= wi,
            forall|j: int| 0 <= j < stack@.len() ==> -1 <= (#[trigger] stack@[j]).0 <= gw && -1 <= stack@[j].1 <= gh,
            forall|j: int| 0 <= j < stack@.len() ==> on_edge(gw, gh, ((#[trigger] stack@[j]).0 as int, stack@[j].1 as int)),
            forall|p: (int, int)| 0 <= p.0 < x && #[trigger] on_edge(gw, gh, p) && (p.1 == 0 || p.1 == gh - 1) ==> on_stack(stack@, p),
        decreases wi - x,
    {
        let ghost before = stack@;
        let bottom = hi - 1;
        stack.push((x, 0));
        stack.push((x, bottom));
        proof {
            let l = before.len() as int;
            assert(stack@[l] == (x, 0i64) && stack@[l + 1] == (x, bottom));
            assert forall|p: (int, int)| 0 <= p.0 < x + 1 && #[trigger] on_edge(gw, gh, p) && (p.1 == 0 || p.1 == gh - 1) implies on_stack(stack@, p) by {
                if p.0 < x {
                    assert(on_stack(before, p));
                    let j = choose|j: int| 0 <= j < before.len() && (#[trigger] before[j]).0 as int == p.0 && before[j].1 as int == p.1;
                    assert(stack@[j] == before[j]);
                } else if p.1 == 0 {
                    assert(stack@[l].0 as int == p.0 && stack@[l].1 as int == p.1);
                } else {
                    assert(stack@[l + 1].0 as int == p.0 && stack@[l + 1].1 as int == p.1);
                }
            }
            assert forall|j: int| 0 <= j < stack@.len() implies on_edge(gw, gh, ((#[trigger] stack@[j]).0 as int, stack@[j].1 as int)) by {
                if j < l {
                    assert(stack@[j] == before[j]);
                }
            }
            assert forall|j: int| 0 <= j < stack@.len() implies -1 <= (#[trigger] stack@[j]).0 <= gw && -1 <= stack@[j].1 <= gh by {
                if j < l {
                    assert(stack@[j] == before[j]);
                }
            }
        }
        x = x + 1;
    }
    let mut y: i64 = 0;
    while y < hi
        invariant
            gw == w,
            gh == h,
            wi == w,
            hi == h,
            w <= i32::MAX,
            h <= i32::MAX,
            0 <= y <= hi,
            forall|j: int| 0 <= j < stack@.len() ==> -1 <= (#[trigger] stack@[j]).0 <= gw && -1 <= stack@[j].1 <= gh,
            forall|j: int| 0 <= j < stack@.len() ==> on_edge(gw, gh, ((#[trigger] stack@[j]).0 as int, stack@[j].1 as int)),
            forall|p: (int, int)| 0 <= p.0 < gw && #[trigger] on_edge(gw, gh, p) && (p.1 == 0 || p.1 == gh - 1) ==> on_stack(stack@, p),
            forall|p: (int, int)| 0 <= p.1 < y && #[trigger] on_edge(gw, gh, p) && (p.0 == 0 || p.0 == gw - 1) ==> on_stack(stack@, p),
        decreases hi - y,
    {
        let ghost before = stack@;
        let right = wi - 1;
        stack.push((0, y));
        stack.push((right, y));
        proof {
            let l = before.len() as int;
            assert(stack@[l] == (0i64, y) && stack@[l + 1] == (right, y));
            assert forall|p: (int, int)| #[trigger] on_edge(gw, gh, p) && on_stack(before, p) implies on_stack(stack@, p) by {
                let j = choose|j: int| 0 <= j < before.len() && (#[trigger] before[j]).0 as int == p.0 && before[j].1 as int == p.1;
                assert(stack@[j] == before[j]);
            }
            assert forall|p: (int, int)| 0 <= p.1 < y + 1 && #[trigger] on_edge(gw, gh, p) && (p.0 == 0 || p.0 == gw - 1) implies on_stack(stack@, p) by {
                if p.1 == y {
                    if p.0 == 0 {
                        assert(stack@[l].0 as int == p.0 && stack@[l].1 as int == p.1);
                    } else {
                        assert(stack@[l + 1].0 as int == p.0 && stack@[l + 1].1 as int == p.1);
                    }
                }
            }
            assert forall|j: int| 0 <= j < stack@.len() implies on_edge(gw, gh, ((#[trigger] stack@[j]).0 as int, stack@[j].1 as int)) by {
                if j < l {
                    assert(stack@[j] == before[j]);
                }
            }
            assert forall|j: int| 0 <= j < stack@.len() implies -1 <= (#[trigger] stack@[j]).0 <= gw && -1 <= stack@[j].1 <= gh by {
                if j < l {
                    assert(stack@[j] == before[j]);
                }
            }
        }
        y = y + 1;
    }
    proof {
        assert forall|p: (int, int)| in_img(gw, gh, p) implies !#[trigger] sn(seen@, gw, p) by {
            lemma_idx(gw, gh, p);
        }
        assert forall|j: int| 0 <= j < stack@.len() implies sourced(seen@, gw, gh, #[trigger] stack@[j]) by {
            assert(on_edge(gw, gh, (stack@[j].0 as int, stack@[j].1 as int)));
        }
        assert(fill_inv(g@, gw, gh, gt, seen@, stack@));
        lemma_count_true_le(seen@);
    }
    while stack.len() > 0
        invariant
            is_plane(g@, gw, gh),
            gw == w,
            gh == h,
            gt == t,
            wi == w,
            hi == h,
            w * h <= i32::MAX,
            w <= i32::MAX,
            h <= i32::MAX,
            fill_inv(g@, gw, gh, gt, seen@, stack@),
            count_true(seen@) <= gw * gh,
        decreases gw * gh - count_true(seen@), stack@.len(),
    {
        let ghost st = stack@;
        let top = stack.pop().unwrap();
        let (x, y) = top;
        proof {
            assert(top == st.last());
            assert(stack@ == st.drop_last());
            assert(-1 <= st[st.len() - 1].0 <= gw && -1 <= st[st.len() - 1].1 <= gh);
        }
        if x < 0 || y < 0 || x >= wi || y >= hi {
            proof {
                lemma_fill_discard(g@, gw, gh, gt, seen@, st);
            }
            continue;
        }
        proof {
            lemma_idx(gw, gh, (x as int, y as int));
            assert(0 <= y * wi + x < gw * gh);
        }
        let k = (y * wi + x) as usize;
        if seen[k] || g[y as usize][x as usize] > t {
            proof {
                lemma_fill_discard(g@, gw, gh, gt, seen@, st);
            }
            continue;
        }
        let n1 = (x + 1, y);
        let n2 = (x - 1, y);
        let n3 = (x, y + 1);
        let n4 = (x, y - 1);
        proof {
            lemma_fill_mark(g@, gw, gh, gt, seen@, st, n1, n2, n3, n4);
            lemma_count_true_set(seen@, k as int);
            lemma_count_true_le(seen@.update(k as int, true));
        }
        seen.set(k, true);
        stack.push(n1);
        stack.push(n2);
        stack.push(n3);
        stack.push(n4);
    }
    let mut holes: u32 = 0;
    let mut yy: usize = 0;
    while yy < h
        invariant
            is_plane(g@, gw, gh),
            gw == w,
            gh == h,
            gt == t,
            w * h <= i32::MAX,
            fill_inv(g@, gw, gh, gt, seen@, Seq::empty()),
            yy <= h,
            holes == hole_count(g@, gw, gh, gt, yy as int),
        decreases h - yy,
    {
        proof {
            lemma_hole_count_bound(g@, gw, gh, gt, yy as int);
            assert(yy * w + w <= w * h) by (nonlinear_arith)
                requires
                    yy < h;
        }
        let mut xx: usize = 0;
        while xx < w
            invariant
                is_plane(g@, gw, gh),
                gw == w,
                gh == h,
                gt == t,
                w * h <= i32::MAX,
                fill_inv(g@, gw, gh, gt, seen@, Seq::empty()),
                yy < h,
                xx <= w,
                holes == hole_count(g@, gw, gh, gt, yy as int) + hole_row(g@, gw, gh, gt, yy as int, xx as int),
                hole_count(g@, gw, gh, gt, yy as int) <= yy * w,
                yy * w + w <= w * h,
            decreases w - xx,
        {
            proof {
                lemma_hole_bounds(g@, gw, gh, gt, yy as int, xx as int);
                lemma_idx(gw, gh, (xx as int, yy as int));
                lemma_fill_result(g@, gw, gh, gt, seen@, (xx as int, yy as int));
            }
            let k = yy * w + xx;
            if !seen[k] && g[yy][xx] <= t {
                holes = holes + 1;
            }
            xx = xx + 1;
        }
        yy = yy + 1;
    }
    holes
}

/// An image without ink has no counters: every pixel is reached straight
/// down its column from the top edge.
pub proof fn lemma_no_ink_no_counter(g: Seq<Vec<u8>>, w: int, h: int, t: int)
    requires
        is_plane(g, w, h),
        forall|y: int, x: int| 0 <= y < h && 0 <= x < w ==> !#[trigger] ink(g, t, y, x),
    ensures
        hole_count(g, w, h, t, h) == 0,
{
    assert forall|p: (int, int)| in_img(w, h, p) implies !#[trigger] hole(g, w, h, t, p) by {
        let path = Seq::new((p.1 + 1) as nat, |i: int| (p.0, i));
        assert(!ink(g, t, p.1, p.0));
        assert forall|i: int| 0 <= i < path.len() implies bg(g, w, h, t, #[trigger] path[i]) by {
            assert(!ink(g, t, i, p.0));
        }
        assert forall|i: int| 0 <= i < path.len() - 1 implies adjacent(#[trigger] path[i], path[i + 1]) by {}
        assert(bg_path(g, w, h, t, path));
        assert(path.last() == p);
    }
    lemma_no_hole_rows(g, w, h, t, h);
}

proof fn lemma_no_hole_rows(g: Seq<Vec<u8>>, w: int, h: int, t: int, k: int)
    requires
        k <= h,
        forall|p: (int, int)| in_img(w, h, p) ==> !#[trigger] hole(g, w, h, t, p),
    ensures
        hole_count(g, w, h, t, k) == 0,
    decreases k,
{
    if k > 0 {
        lemma_no_hole_rows(g, w, h, t, k - 1);
        lemma_no_hole_in_row(g, w, h, t, k - 1, w);
    }
}

proof fn lemma_no_hole_in_row(g: Seq<Vec<u8>>, w: int, h: int, t: int, y: int, k: int)
    requires
        0 <= y < h,
        k <= w,
        forall|p: (int, int)| in_img(w, h, p) ==> !#[trigger] hole(g, w, h, t, p),
    ensures
        hole_row(g, w, h, t, y, k) == 0,
    decreases k,
{
    if k > 0 {
        lemma_no_hole_in_row(g, w, h, t, y, k - 1);
        assert(!hole(g, w, h, t, (k - 1, y)));
    }
}

} // verus!
