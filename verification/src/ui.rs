use vstd::prelude::*;
use crate::geom::{box_ok, is_plane, px, Rect};
use crate::mnist::GrayImg;

verus! {

// ------------------------------------------------------------ angle digits

/// Largest angle the screen shows (an arc fired backwards reads 91..=180).
pub const ANGLE_MAX: i32 = 180;

/// The decimal number written by `s`, most significant digit first.
pub open spec fn digits_value(s: Seq<u8>) -> int
    decreases s.len(),
{
    if s.len() == 0 {
        0
    } else {
        digits_value(s.drop_last()) * 10 + s.last()
    }
}

/// The angle read from recognised digits: one to three digits, a three-digit
/// reading must start with 1, the value must not exceed 180, and a value
/// above 90 is folded back to `180 - value`.
pub open spec fn angle_spec(s: Seq<u8>) -> Option<int> {
    if s.len() == 0 || s.len() > 3 {
        None
    } else if s.len() == 3 && s[0] != 1 {
        None
    } else {
        let v = digits_value(s);
        if v > ANGLE_MAX {
            None
        } else if v > 90 {
            Some(ANGLE_MAX - v)
        } else {
            Some(v)
        }
    }
}

proof fn lemma_digits_value_bound(s: Seq<u8>)
    requires
        forall|i: int| 0 <= i < s.len() ==> #[trigger] s[i] <= 9,
    ensures
        0 <= digits_value(s),
        s.len() <= 3 ==> digits_value(s) <= 999,
        s.len() <= 2 ==> digits_value(s) <= 99,
        s.len() <= 1 ==> digits_value(s) <= 9,
    decreases s.len(),
{
    if s.len() > 0 {
        assert(forall|i: int| 0 <= i < s.drop_last().len() ==> #[trigger] s.drop_last()[i] == s[i]);
        lemma_digits_value_bound(s.drop_last());
    }
}

/// Assembles the angle from the recognised digits (see `angle_spec`); the
/// result always lies in `0..=90`.
pub fn angle_from_digits(digits: &Vec<u8>) -> (r: Option<i32>)
    requires
        forall|i: int| 0 <= i < digits.len() ==> #[trigger] digits@[i] <= 9,
    ensures
        r matches Some(a) ==> angle_spec(digits@) == Some(a as int),
        r is None <==> angle_spec(digits@) is None,
        r matches Some(a) ==> 0 <= a <= 90,
{
    let n = digits.len();
    if n == 0 || n > 3 {
        return None;
    }
    if n == 3 && digits[0] != 1 {
        return None;
    }
    let mut val: i32 = 0;
    let mut i: usize = 0;
    while i < n
        invariant
            n == digits.len(),
            n <= 3,
            i <= n,
            forall|j: int| 0 <= j < digits.len() ==> #[trigger] digits@[j] <= 9,
            val == digits_value(digits@.take(i as int)),
            0 <= val <= 999,
        decreases n - i,
    {
        proof {
            assert(digits@.take(i + 1).drop_last() =~= digits@.take(i as int));
            assert(forall|j: int| 0 <= j < digits@.take(i + 1).len() ==> #[trigger] digits@.take(i + 1)[j] == digits@[j]);
            lemma_digits_value_bound(digits@.take(i + 1));
        }
        val = val * 10 + digits[i] as i32;
        i = i + 1;
    }
    proof {
        assert(digits@.take(n as int) =~= digits@);
    }
    if val > ANGLE_MAX {
        return None;
    }
    if val > 90 {
        Some(ANGLE_MAX - val)
    } else {
        Some(val)
    }
}

// ------------------------------------------------------------ components

/// A connected component's bounding box and pixel count.
#[derive(Clone, Copy, Debug, PartialEq, Eq, Structural)]
pub struct CompStat {
    pub x: i32,
    pub y: i32,
    pub width: i32,
    pub height: i32,
    pub area: i32,
}

/// A component shaped like a digit stroke: at least 18 high, at most three
/// times as wide as high, and with at least `max(1.2 * height, 40)` pixels.
pub open spec fn is_digit_spec(w: int, h: int, area: int) -> bool {
    &&& h >= 18
    &&& w <= 3 * h
    &&& area >= (if h * 6 / 5 >= 40 { h * 6 / 5 } else { 40 })
}

/// Whether a connected component is a plausible digit stroke.
pub fn is_digit_component(w: i32, h: i32, area: i32) -> (r: bool)
    ensures
        r == is_digit_spec(w as int, h as int, area as int),
{
    if h < 18 {
        return false;
    }
    if w as i64 > 3 * h as i64 {
        return false;
    }
    let min_area: i64 = if h as i64 * 6 / 5 >= 40 { h as i64 * 6 / 5 } else { 40 };
    area as i64 >= min_area
}

/// A small piece that may be part of a digit cut by a line.
pub open spec fn is_fragment_spec(w: int, h: int, area: int) -> bool {
    area >= 30 && w <= 90 && h <= 45
}

/// Components kept in the digit mask: digit strokes and possible fragments.
pub fn keep_component(w: i32, h: i32, area: i32) -> (r: bool)
    ensures
        r == (is_digit_spec(w as int, h as int, area as int) || is_fragment_spec(w as int, h as int, area as int)),
{
    is_digit_component(w, h, area) || (area >= 30 && w <= 90 && h <= 45)
}

// ------------------------------------------------------------ regions

pub open spec fn clamp_spec(v: int, lo: int, hi: int) -> int {
    if v < lo { lo } else if v > hi { hi } else { v }
}

pub open spec fn clamp_rect_spec(r: Rect, cols: int, rows: int) -> Rect {
    let x = clamp_spec(r.x as int, 0, if cols - 1 >= 0 { cols - 1 } else { 0 });
    let y = clamp_spec(r.y as int, 0, if rows - 1 >= 0 { rows - 1 } else { 0 });
    let w = clamp_spec(r.width as int, 1, if cols - x >= 1 { cols - x } else { 1 });
    let h = clamp_spec(r.height as int, 1, if rows - y >= 1 { rows - y } else { 1 });
    Rect { x: x as i32, y: y as i32, width: w as i32, height: h as i32 }
}

/// Clamps a region into a `cols` x `rows` frame so that cutting it out
/// cannot fail: on a non-empty frame the result lies inside it and is at
/// least one pixel wide and high.
pub fn clamp_rect(r: Rect, cols: i32, rows: i32) -> (c: Rect)
    requires
        cols > i32::MIN,
        rows > i32::MIN,
    ensures
        c == clamp_rect_spec(r, cols as int, rows as int),
        c.width >= 1,
        c.height >= 1,
        cols >= 1 ==> 0 <= c.x && c.x + c.width <= cols,
        rows >= 1 ==> 0 <= c.y && c.y + c.height <= rows,
{
    let xm = if cols - 1 >= 0 { cols - 1 } else { 0 };
    let ym = if rows - 1 >= 0 { rows - 1 } else { 0 };
    let x = if r.x < 0 { 0 } else if r.x > xm { xm } else { r.x };
    let y = if r.y < 0 { 0 } else if r.y > ym { ym } else { r.y };
    let wm = if cols - x >= 1 { cols - x } else { 1 };
    let hm = if rows - y >= 1 { rows - y } else { 1 };
    let w = if r.width < 1 { 1 } else if r.width > wm { wm } else { r.width };
    let h = if r.height < 1 { 1 } else if r.height > hm { hm } else { r.height };
    Rect { x, y, width: w, height: h }
}

/// `v * pct / 100`, rounded down.
pub open spec fn pct(v: int, p: int) -> int {
    v * p / 100
}

fn pct_exec(v: i32, p: i32) -> (r: i32)
    requires
        0 <= v,
        0 <= p <= 100,
    ensures
        r == pct(v as int, p as int),
        0 <= r <= v,
{
    proof {
        assert(0 <= v * p <= v * 100) by (nonlinear_arith)
            requires
                0 <= v,
                0 <= p <= 100;
    }
    (v as i64 * p as i64 / 100) as i32
}

/// The largest power of two not above `k` (1 below 2).
pub open spec fn binade_low(k: int) -> int
    decreases k,
{
    if k < 2 { 1 } else { 2 * binade_low(k / 2) }
}

proof fn lemma_binade_low(k: int)
    requires
        k >= 1,
    ensures
        1 <= binade_low(k) <= k < 2 * binade_low(k),
    decreases k,
{
    if k >= 2 {
        lemma_binade_low(k / 2);
    }
}

fn binade_low_exec(k: i64) -> (r: i64)
    requires
        1 <= k,
    ensures
        r == binade_low(k as int),
        1 <= r <= k,
    decreases k,
{
    proof {
        lemma_binade_low(k as int);
    }
    if k < 2 {
        1
    } else {
        2 * binade_low_exec(k / 2)
    }
}

/// Seventy percent of `v` as the frame layout computes it: `v` times the
/// double-precision number nearest to seven tenths, rounded down. That
/// number lies just below seven tenths, so where `v` is a multiple of ten
/// the product falls short of `k = 7v/10` by `4k / (7 * 2^53)`, and it
/// rounds to the double below `k` (giving `k - 1`) exactly when `k` lies in
/// the top eighth of its binade (`4k > 7 * binade_low(k)`).
pub open spec fn pct70(v: int) -> int {
    let k = v * 7 / 10;
    if v % 10 == 0 && k >= 1 && 4 * k > 7 * binade_low(k) { k - 1 } else { k }
}

fn pct70_exec(v: i64) -> (r: i64)
    requires
        0 <= v <= 0x1_0000_0000_0000,
    ensures
        r == pct70(v as int),
        0 <= r <= v,
{
    let k = v * 7 / 10;
    if v % 10 == 0 && k >= 1 {
        let b = binade_low_exec(k);
        if 4 * k > 7 * b {
            return k - 1;
        }
    }
    k
}

/// The four regions read from a full frame of `cols` x `rows`: minimap (top
/// left 22% x 22%), angle digits, power bar and wind indicator, each clamped
/// into the frame.
pub open spec fn frame_rois_spec(cols: int, rows: int) -> (Rect, Rect, Rect, Rect) {
    (
        clamp_rect_spec(Rect { x: 0, y: 0, width: pct(cols, 22) as i32, height: pct(rows, 22) as i32 }, cols, rows),
        clamp_rect_spec(Rect { x: pct(cols, 2) as i32, y: pct(rows, 85) as i32, width: pct(cols, 12) as i32, height: pct(rows, 12) as i32 }, cols, rows),
        clamp_rect_spec(Rect { x: pct(cols, 15) as i32, y: pct(rows, 92) as i32, width: pct70(cols) as i32, height: pct(rows, 5) as i32 }, cols, rows),
        clamp_rect_spec(Rect { x: pct(cols, 40) as i32, y: pct(rows, 1) as i32, width: pct(cols, 20) as i32, height: pct(rows, 6) as i32 }, cols, rows),
    )
}

/// Regions of interest of a full frame (see `frame_rois_spec`).
pub fn frame_rois(cols: i32, rows: i32) -> (r: (Rect, Rect, Rect, Rect))
    requires
        0 <= cols,
        0 <= rows,
    ensures
        r == frame_rois_spec(cols as int, rows as int),
{
    let minimap = clamp_rect(Rect { x: 0, y: 0, width: pct_exec(cols, 22), height: pct_exec(rows, 22) }, cols, rows);
    let angle = clamp_rect(
        Rect { x: pct_exec(cols, 2), y: pct_exec(rows, 85), width: pct_exec(cols, 12), height: pct_exec(rows, 12) },
        cols,
        rows,
    );
    let power = clamp_rect(
        Rect { x: pct_exec(cols, 15), y: pct_exec(rows, 92), width: pct70_exec(cols as i64) as i32, height: pct_exec(rows, 5) },
        cols,
        rows,
    );
    let wind = clamp_rect(
        Rect { x: pct_exec(cols, 40), y: pct_exec(rows, 1), width: pct_exec(cols, 20), height: pct_exec(rows, 6) },
        cols,
        rows,
    );
    (minimap, angle, power, wind)
}

// ------------------------------------------------------------ power bar

/// Rows of column `x` among `0..k` that are set in the mask.
pub open spec fn col_set(m: Seq<Vec<u8>>, x: int, k: int) -> int
    decreases k,
{
    if k <= 0 {
        0
    } else {
        col_set(m, x, k - 1) + if px(m, k - 1, x) > 0 { 1int } else { 0int }
    }
}

/// Rows a column needs set to count as filled: 30% of the height, rounded up.
pub open spec fn fill_need(rows: int) -> int {
    (3 * rows + 9) / 10
}

/// Column `x` of the bar counts as filled.
pub open spec fn col_filled(m: Seq<Vec<u8>>, x: int, rows: int) -> bool {
    col_set(m, x, rows) >= fill_need(rows)
}

proof fn lemma_col_set_bound(m: Seq<Vec<u8>>, x: int, k: int)
    ensures
        0 <= col_set(m, x, k) <= (if k >= 0 { k } else { 0 }),
    decreases k,
{
    if k > 0 {
        lemma_col_set_bound(m, x, k - 1);
    }
}

/// The last filled column of the power-bar mask (a column is filled when at
/// least 30% of its rows are set), or -1 when there is none or the mask is
/// empty.
pub fn power_bar_fill_end(mask: &Vec<Vec<u8>>, cols: usize) -> (r: i32)
    requires
        is_plane(mask@, cols as int, mask@.len() as int),
        cols <= i32::MAX,
        mask@.len() <= i32::MAX,
    ensures
        (cols == 0 || mask@.len() == 0) ==> r == -1,
        (cols > 0 && mask@.len() > 0) ==> {
            &&& -1 <= r < cols
            &&& r >= 0 ==> col_filled(mask@, r as int, mask@.len() as int)
            &&& forall|x: int| r < x < cols ==> !col_filled(mask@, x, mask@.len() as int)
        },
{
    let rows = mask.len();
    if cols == 0 || rows == 0 {
        return -1;
    }
    let need: usize = ((3 * rows as u64 + 9) / 10) as usize;
    let mut end: i32 = -1;
    let mut x: usize = 0;
    while x < cols
        invariant
            is_plane(mask@, cols as int, rows as int),
            rows == mask@.len(),
            0 < rows <= i32::MAX,
            cols <= i32::MAX,
            need == fill_need(rows as int),
            x <= cols,
            -1 <= end < x,
            end >= 0 ==> col_filled(mask@, end as int, rows as int),
            forall|xx: int| end < xx < x ==> !col_filled(mask@, xx, rows as int),
        decreases cols - x,
    {
        let mut cnt: usize = 0;
        let mut y: usize = 0;
        while y < rows
            invariant
                is_plane(mask@, cols as int, rows as int),
                rows == mask@.len(),
                x < cols,
                y <= rows,
                cnt == col_set(mask@, x as int, y as int),
            decreases rows - y,
        {
            proof {
                lemma_col_set_bound(mask@, x as int, y as int);
            }
            if mask[y][x] > 0 {
                cnt = cnt + 1;
            }
            y = y + 1;
        }
        if cnt >= need {
            end = x as i32;
        }
        x = x + 1;
    }
    end
}

// ------------------------------------------------------------ wind arrow

/// A white blob shaped like the wind arrow: at least 6 pixels of box and 3
/// rows, at most a third of the indicator wide, and with a width-to-height
/// ratio in 0.3..=3.
pub open spec fn arrow_shaped(r: Rect, cols: int) -> bool {
    let area = r.width * r.height;
    &&& !(area < 6 || r.height < 3)
    &&& r.width <= cols / 3
    &&& 10 * r.width >= 3 * r.height
    &&& r.width <= 3 * r.height
}

/// Best arrow among the first `k` blobs: the first one with the largest box
/// area among those shaped like the arrow.
pub open spec fn best_arrow(rects: Seq<Rect>, cols: int, k: int) -> Option<Rect>
    decreases k,
{
    if k <= 0 {
        None
    } else {
        let prev = best_arrow(rects, cols, k - 1);
        let r = rects[k - 1];
        let best_area = match prev { Some(b) => b.width * b.height, None => 0 };
        if arrow_shaped(r, cols) && r.width * r.height > best_area {
            Some(r)
        } else {
            prev
        }
    }
}

/// The wind arrow among the bounding boxes of the white blobs of the wind
/// indicator (see `best_arrow`), if any.
pub fn pick_wind_arrow(rects: &Vec<Rect>, cols: i32) -> (r: Option<Rect>)
    requires
        forall|i: int|
            0 <= i < rects.len() ==> 0 <= #[trigger] rects@[i].width && 0 <= rects@[i].height && rects@[i].width
                * rects@[i].height <= i32::MAX,
    ensures
        r == best_arrow(rects@, cols as int, rects.len() as int),
{
    let mut best: Option<Rect> = None;
    let mut max_area: i64 = 0;
    let mut i: usize = 0;
    while i < rects.len()
        invariant
            i <= rects.len(),
            forall|j: int|
                0 <= j < rects.len() ==> 0 <= #[trigger] rects@[j].width && 0 <= rects@[j].height && rects@[j].width
                    * rects@[j].height <= i32::MAX,
            best == best_arrow(rects@, cols as int, i as int),
            max_area == (match best { Some(b) => b.width * b.height, None => 0 }),
        decreases rects.len() - i,
    {
        let r = rects[i];
        proof {
            assert(0 <= r.width * r.height) by (nonlinear_arith)
                requires
                    0 <= r.width,
                    0 <= r.height;
        }
        let area: i64 = r.width as i64 * r.height as i64;
        let shaped = !(area < 6 || r.height < 3) && r.width <= cols / 3 && 10 * r.width as i64 >= 3 * r.height as i64
            && r.width as i64 <= 3 * r.height as i64;
        if shaped && area > max_area {
            best = Some(r);
            max_area = area;
        }
        i = i + 1;
    }
    best
}

// ------------------------------------------------------------ digit boxes

pub open spec fn rect_of(c: CompStat) -> Rect {
    Rect { x: c.x, y: c.y, width: c.width, height: c.height }
}

/// Digit-shaped components among `comps[0..k]`, as not-absorbed boxes.
pub open spec fn digit_boxes(comps: Seq<CompStat>, k: int) -> Seq<(Rect, bool)>
    decreases k,
{
    if k <= 0 {
        Seq::empty()
    } else {
        let prev = digit_boxes(comps, k - 1);
        let c = comps[k - 1];
        if is_digit_spec(c.width as int, c.height as int, c.area as int) {
            prev.push((rect_of(c), false))
        } else {
            prev
        }
    }
}

/// Fragment components among `comps[0..k]` (digit-shaped ones excluded).
pub open spec fn fragment_boxes(comps: Seq<CompStat>, k: int) -> Seq<Rect>
    decreases k,
{
    if k <= 0 {
        Seq::empty()
    } else {
        let prev = fragment_boxes(comps, k - 1);
        let c = comps[k - 1];
        if !is_digit_spec(c.width as int, c.height as int, c.area as int) && is_fragment_spec(
            c.width as int,
            c.height as int,
            c.area as int,
        ) {
            prev.push(rect_of(c))
        } else {
            prev
        }
    }
}

/// The box touches (or comes within one pixel of) the border of the mask.
pub open spec fn at_edge(r: Rect, cols: int, rows: int) -> bool {
    r.x <= 1 || r.y <= 1 || r.x + r.width >= cols - 1 || r.y + r.height >= rows - 1
}

/// Horizontal overlap of two boxes.
pub open spec fn x_overlap(d: Rect, f: Rect) -> int {
    min_i(d.x + d.width, f.x + f.width) - max_i(d.x as int, f.x as int)
}

/// Vertical gap between two boxes (negative when they overlap).
pub open spec fn y_gap(d: Rect, f: Rect) -> int {
    max_i(f.y - (d.y + d.height), d.y - (f.y + f.height))
}

pub open spec fn min_i(a: int, b: int) -> int {
    if a <= b { a } else { b }
}

pub open spec fn max_i(a: int, b: int) -> int {
    if a >= b { a } else { b }
}

/// Fragment `f` may be merged into digit `d`, beating an overlap of `best_ov`:
/// it overlaps `d` horizontally over more than half its width (and more than
/// `best_ov`), lies within 45% of the digit's height above or below it, and
/// is at most twice as wide and at most as high as the digit.
pub open spec fn absorbs(d: Rect, f: Rect, best_ov: int) -> bool {
    let ov = x_overlap(d, f);
    &&& ov * 2 > f.width
    &&& ov > best_ov
    &&& y_gap(d, f) <= d.height * 45 / 100
    &&& f.width <= d.width * 2
    &&& f.height <= d.height
}

/// `(index, overlap)` of the digit among `v[0..k]` that takes fragment `f`:
/// the first with the largest overlap; index -1 when none does.
pub open spec fn absorb_target(v: Seq<(Rect, bool)>, f: Rect, k: int) -> (int, int)
    decreases k,
{
    if k <= 0 {
        (-1, 0)
    } else {
        let (b, bo) = absorb_target(v, f, k - 1);
        if absorbs(v[k - 1].0, f, bo) {
            (k - 1, x_overlap(v[k - 1].0, f))
        } else {
            (b, bo)
        }
    }
}

/// Smallest box holding both `d` and `f`.
pub open spec fn union_rect(d: Rect, f: Rect) -> Rect {
    let nx = min_i(d.x as int, f.x as int);
    let ny = min_i(d.y as int, f.y as int);
    Rect {
        x: nx as i32,
        y: ny as i32,
        width: (max_i(d.x + d.width, f.x + f.width) - nx) as i32,
        height: (max_i(d.y + d.height, f.y + f.height) - ny) as i32,
    }
}

/// After offering the fragments `frags[0..k]` in turn: the digit boxes, each
/// grown by the fragments merged into it and then marked absorbed, and the
/// fragments left over (those at the edge and those no digit takes).
pub open spec fn absorb_all(v: Seq<(Rect, bool)>, frags: Seq<Rect>, cols: int, rows: int, k: int) -> (Seq<(Rect, bool)>, Seq<Rect>)
    decreases k,
{
    if k <= 0 {
        (v, Seq::empty())
    } else {
        let (dv, left) = absorb_all(v, frags, cols, rows, k - 1);
        let f = frags[k - 1];
        if at_edge(f, cols, rows) {
            (dv, left.push(f))
        } else {
            let (b, _) = absorb_target(dv, f, dv.len() as int);
            if b >= 0 {
                (dv.update(b, (union_rect(dv[b].0, f), true)), left)
            } else {
                (dv, left.push(f))
            }
        }
    }
}

/// Index of the first element of `s` after `i` that exceeds `v`, or its length.
pub open spec fn first_gt(s: Seq<i64>, v: i64, i: int) -> int
    decreases s.len() - i,
{
    if i >= s.len() {
        s.len() as int
    } else if s[i] > v {
        i
    } else {
        first_gt(s, v, i + 1)
    }
}

/// `s` in ascending order (insertion sort; equal values keep their order).
pub open spec fn isort(s: Seq<i64>) -> Seq<i64>
    decreases s.len(),
{
    if s.len() == 0 {
        s
    } else {
        let t = isort(s.drop_last());
        t.insert(first_gt(t, s.last(), 0), s.last())
    }
}

pub open spec fn heights(v: Seq<(Rect, bool)>) -> Seq<i64> {
    Seq::new(v.len(), |i: int| v[i].0.height as i64)
}

/// Twice the vertical centre of each box.
pub open spec fn centers2(v: Seq<(Rect, bool)>) -> Seq<i64> {
    Seq::new(v.len(), |i: int| (2 * v[i].0.y + v[i].0.height) as i64)
}

/// Box `r` belongs to the row of digits whose median height is `mh` and
/// whose median doubled centre is `mc2`: its height is within 70%..140% of
/// `mh` and its centre within 35% of `mh` from the median centre. The upper
/// bounds are those of double-precision products (see `pct70`): 140% of
/// `mh` is 70% of `2 * mh`, and a centre offset of `d / 2` is within 35% of
/// `mh` when `d` is within 70%.
pub open spec fn in_row(r: Rect, mh: int, mc2: int) -> bool {
    let d = 2 * r.y + r.height - mc2;
    &&& 10 * r.height >= 7 * mh
    &&& r.height <= pct70(2 * mh)
    &&& (if d >= 0 { d } else { -d }) <= pct70(mh)
}

pub open spec fn row_part(v: Seq<(Rect, bool)>, mh: int, mc2: int, keep: bool, k: int) -> Seq<(Rect, bool)>
    decreases k,
{
    if k <= 0 {
        Seq::empty()
    } else {
        let prev = row_part(v, mh, mc2, keep, k - 1);
        if in_row(v[k - 1].0, mh, mc2) == keep {
            prev.push(v[k - 1])
        } else {
            prev
        }
    }
}

pub open spec fn min_top(v: Seq<(Rect, bool)>, k: int) -> int
    decreases k,
{
    if k <= 1 {
        v[0].0.y as int
    } else {
        min_i(min_top(v, k - 1), v[k - 1].0.y as int)
    }
}

pub open spec fn max_bottom(v: Seq<(Rect, bool)>, k: int) -> int
    decreases k,
{
    if k <= 1 {
        v[0].0.y + v[0].0.height
    } else {
        max_i(max_bottom(v, k - 1), v[k - 1].0.y + v[k - 1].0.height)
    }
}

/// Box `r` sits in the band of rows `top..bot` over more than half its height.
pub open spec fn in_band(r: Rect, top: int, bot: int) -> bool {
    (min_i(r.y + r.height, bot) - max_i(r.y as int, top)) * 2 > r.height
}

/// The row would read a cut-off digit: a kept digit lies at the edge, or a
/// dropped box or left-over fragment sits within the digits' band.
pub open spec fn row_vetoed(kept: Seq<(Rect, bool)>, dropped: Seq<(Rect, bool)>, left: Seq<Rect>, cols: int, rows: int) -> bool {
    let top = min_top(kept, kept.len() as int);
    let bot = max_bottom(kept, kept.len() as int);
    ||| exists|i: int| 0 <= i < kept.len() && at_edge(#[trigger] kept[i].0, cols, rows)
    ||| exists|i: int| 0 <= i < dropped.len() && in_band(#[trigger] dropped[i].0, top, bot)
    ||| exists|i: int| 0 <= i < left.len() && in_band(#[trigger] left[i], top, bot)
}

/// Index of the first element of `s` after `i` whose box lies right of `x`.
pub open spec fn first_right_of(s: Seq<(Rect, bool)>, x: i32, i: int) -> int
    decreases s.len() - i,
{
    if i >= s.len() {
        s.len() as int
    } else if s[i].0.x > x {
        i
    } else {
        first_right_of(s, x, i + 1)
    }
}

/// Boxes ordered left to right (stable: equal `x` keep their order).
pub open spec fn sort_by_x(s: Seq<(Rect, bool)>) -> Seq<(Rect, bool)>
    decreases s.len(),
{
    if s.len() == 0 {
        s
    } else {
        let t = sort_by_x(s.drop_last());
        t.insert(first_right_of(t, s.last().0.x, 0), s.last())
    }
}

// ------------------------------------------------------------ splitting

/// Set pixels in column `x` of box `r` over its rows `0..k`.
pub open spec fn box_col_sum(m: Seq<Vec<u8>>, r: Rect, x: int, k: int) -> int
    decreases k,
{
    if k <= 0 {
        0
    } else {
        box_col_sum(m, r, x, k - 1) + if px(m, r.y + k - 1, r.x + x) > 0 { 1int } else { 0int }
    }
}

pub open spec fn abs_i(v: int) -> int {
    if v >= 0 { v } else { -v }
}

/// Scan of columns `x..hi` of box `r` for the emptiest one, nearest to
/// `center` on a tie, starting from `(best, best_v)`.
pub open spec fn valley_scan(m: Seq<Vec<u8>>, r: Rect, center: int, x: int, hi: int, best: int, best_v: int) -> (int, int)
    decreases hi - x,
{
    if x >= hi {
        (best, best_v)
    } else {
        let v = box_col_sum(m, r, x, r.height as int);
        if v < best_v || (v == best_v && abs_i(x - center) < abs_i(best - center)) {
            valley_scan(m, r, center, x + 1, hi, x, v)
        } else {
            valley_scan(m, r, center, x + 1, hi, best, best_v)
        }
    }
}

/// `(column, set pixels)` of the cut between part `p - 1` and part `p` of
/// `np` equal parts of box `r`: the emptiest column within 30% of a part's
/// width (at least 2) of the even split point, not on the box's border.
/// With no column to search the count is `i32::MAX`.
pub open spec fn valley(m: Seq<Vec<u8>>, r: Rect, np: int, p: int) -> (int, int) {
    let center = r.width * p / np;
    let q = r.width as int / np;
    let span = max_i((3 * q + 5) / 10, 2);
    let lo = max_i(center - span, 1);
    let hi = min_i(center + span, r.width - 1);
    valley_scan(m, r, center, lo, hi, center, i32::MAX as int)
}

/// The cut for part `p` runs through a column with more than 60% of the
/// box's height set: there is no gap to split at.
pub open spec fn blocked(m: Seq<Vec<u8>>, r: Rect, np: int, p: int) -> bool {
    valley(m, r, np, p).1 * 5 > 3 * r.height
}

/// `0`, the cuts of parts `1..np`, and the box width.
pub open spec fn cut_points(m: Seq<Vec<u8>>, r: Rect, np: int) -> Seq<int> {
    seq![0int] + Seq::new((np - 1) as nat, |i: int| valley(m, r, np, i + 1).0) + seq![r.width as int]
}

/// The pieces of `r` between consecutive cuts among `cuts[0..=k]`, skipping
/// pieces narrower than 3 pixels.
pub open spec fn pieces(cuts: Seq<int>, r: Rect, k: int) -> Seq<Rect>
    decreases k,
{
    if k <= 0 {
        Seq::empty()
    } else {
        let prev = pieces(cuts, r, k - 1);
        let a = cuts[k - 1];
        let b = cuts[k];
        if b - a >= 3 {
            prev.push(Rect { x: (r.x + a) as i32, y: r.y, width: (b - a) as i32, height: r.height })
        } else {
            prev
        }
    }
}

/// Box `r` split into `np` digits at the emptiest columns near the even
/// split points; the box unchanged when some split point has no gap.
pub open spec fn split_by_valley_spec(m: Seq<Vec<u8>>, r: Rect, np: int) -> Seq<Rect> {
    if exists|p: int| 1 <= p < np && #[trigger] blocked(m, r, np, p) {
        seq![r]
    } else {
        let cuts = cut_points(m, r, np);
        pieces(cuts, r, cuts.len() - 1)
    }
}

/// Expected width of one digit of height `h`: 62% of it, rounded, at least 6.
pub open spec fn expect_w(h: int) -> int {
    max_i((62 * h + 50) / 100, 6)
}

/// Number of digits a box of width `w` holds: `w / e` rounded, at least 2.
pub open spec fn num_parts(w: int, e: int) -> int {
    max_i((2 * w + e) / (2 * e), 2)
}

/// A box wider than the split limit of its expected digit width `e`
/// (`lim[e]`, what the caller's split ratio makes of `e`) is split.
pub open spec fn parts_of(m: Seq<Vec<u8>>, item: (Rect, bool), lim: Seq<i32>) -> Seq<(Rect, bool)> {
    let (r, ab) = item;
    let e = expect_w(r.height as int);
    if r.width > lim[e] {
        split_by_valley_spec(m, r, num_parts(r.width as int, e)).map_values(|x: Rect| (x, ab))
    } else {
        seq![(r, ab)]
    }
}

pub open spec fn split_all(m: Seq<Vec<u8>>, s: Seq<(Rect, bool)>, lim: Seq<i32>, k: int) -> Seq<(Rect, bool)>
    decreases k,
{
    if k <= 0 {
        Seq::empty()
    } else {
        split_all(m, s, lim, k - 1) + parts_of(m, s[k - 1], lim)
    }
}

/// The boxes of the digits of an angle reading, left to right, each marked
/// with whether a fragment was merged into it (see the spec functions above
/// for each step): digit-shaped components, with fragments merged in when
/// `allow_absorb`; boxes off the row of digits dropped; nothing when the row
/// would read a cut-off digit; wide boxes split into several digits.
pub open spec fn extract_spec(
    comps: Seq<CompStat>,
    m: Seq<Vec<u8>>,
    cols: int,
    rows: int,
    lim: Seq<i32>,
    allow_absorb: bool,
) -> Seq<(Rect, bool)> {
    let v0 = digit_boxes(comps, comps.len() as int);
    let fr = if allow_absorb { fragment_boxes(comps, comps.len() as int) } else { Seq::empty() };
    let (v1, left) = absorb_all(v0, fr, cols, rows, fr.len() as int);
    if v1.len() == 0 {
        Seq::empty()
    } else {
        let mh = isort(heights(v1))[(v1.len() / 2) as int] as int;
        let mc = isort(centers2(v1))[(v1.len() / 2) as int] as int;
        let kept = row_part(v1, mh, mc, true, v1.len() as int);
        let dropped = row_part(v1, mh, mc, false, v1.len() as int);
        if kept.len() > 0 && row_vetoed(kept, dropped, left, cols, rows) {
            Seq::empty()
        } else {
            let sorted = sort_by_x(kept);
            split_all(m, sorted, lim, sorted.len() as int)
        }
    }
}

/// Largest mask side accepted.
pub const MAX_MASK: i32 = 20_000_000;

pub open spec fn comp_ok(c: CompStat, cols: int, rows: int) -> bool {
    box_ok(rect_of(c), cols, rows) && 0 <= c.area
}

proof fn lemma_box_col_sum_bound(m: Seq<Vec<u8>>, r: Rect, x: int, k: int)
    ensures
        0 <= box_col_sum(m, r, x, k) <= (if k >= 0 { k } else { 0 }),
    decreases k,
{
    if k > 0 {
        lemma_box_col_sum_bound(m, r, x, k - 1);
    }
}

/// Set pixels of each column of box `r`.
fn box_col_sums(m: &Vec<Vec<u8>>, r: Rect, Ghost(cols): Ghost<int>, Ghost(rows): Ghost<int>) -> (sums: Vec<i64>)
    requires
        is_plane(m@, cols, rows),
        box_ok(r, cols, rows),
        cols <= MAX_MASK,
        rows <= MAX_MASK,
    ensures
        sums@.len() == r.width,
        forall|x: int| 0 <= x < r.width ==> #[trigger] sums@[x] == box_col_sum(m@, r, x, r.height as int),
        forall|x: int| 0 <= x < r.width ==> 0 <= #[trigger] sums@[x] <= r.height,
{
    let mut sums: Vec<i64> = Vec::new();
    let mut x: i32 = 0;
    while x < r.width
        invariant
            is_plane(m@, cols, rows),
            box_ok(r, cols, rows),
            cols <= MAX_MASK,
            rows <= MAX_MASK,
            0 <= x <= r.width,
            sums@.len() == x,
            forall|i: int| 0 <= i < x ==> #[trigger] sums@[i] == box_col_sum(m@, r, i, r.height as int),
            forall|i: int| 0 <= i < x ==> 0 <= #[trigger] sums@[i] <= r.height,
        decreases r.width - x,
    {
        let mut n: i64 = 0;
        let mut y: i32 = 0;
        while y < r.height
            invariant
                is_plane(m@, cols, rows),
                box_ok(r, cols, rows),
                cols <= MAX_MASK,
                rows <= MAX_MASK,
                0 <= x < r.width,
                0 <= y <= r.height,
                n == box_col_sum(m@, r, x as int, y as int),
            decreases r.height - y,
        {
            proof {
                lemma_box_col_sum_bound(m@, r, x as int, y as int);
            }
            if m[(r.y + y) as usize][(r.x + x) as usize] > 0 {
                n = n + 1;
            }
            y = y + 1;
        }
        proof {
            lemma_box_col_sum_bound(m@, r, x as int, r.height as int);
        }
        sums.push(n);
        x = x + 1;
    }
    sums
}

/// The cut of part `p` of `np` (see `valley`).
fn valley_exec(sums: &Vec<i64>, r: Rect, np: i64, p: i64, Ghost(m): Ghost<Seq<Vec<u8>>>) -> (res: (i64, i64))
    requires
        sums@.len() == r.width,
        forall|x: int| 0 <= x < r.width ==> #[trigger] sums@[x] == box_col_sum(m, r, x, r.height as int),
        0 <= r.width <= MAX_MASK,
        1 <= np <= MAX_MASK,
        1 <= p < np,
    ensures
        (res.0 as int, res.1 as int) == valley(m, r, np as int, p as int),
        0 <= res.0 <= r.width,
        0 <= res.1 <= i32::MAX,
{
    let w = r.width as i64;
    proof {
        assert(0 <= w * p <= w * np) by (nonlinear_arith)
            requires
                0 <= w,
                1 <= p < np;
        assert(w * np <= MAX_MASK * MAX_MASK) by (nonlinear_arith)
            requires
                0 <= w <= MAX_MASK,
                1 <= np <= MAX_MASK;
        assert((w * p) / (np as int) <= w) by (nonlinear_arith)
            requires
                0 <= w,
                1 <= p < np;
    }
    let center = w * p / np;
    let q = w / np;
    let span = if (3 * q + 5) / 10 >= 2 { (3 * q + 5) / 10 } else { 2 };
    let lo = if center - span >= 1 { center - span } else { 1 };
    let hi = if center + span <= w - 1 { center + span } else { w - 1 };
    let ghost start = valley_scan(m, r, center as int, lo as int, hi as int, center as int, i32::MAX as int);
    let mut best = center;
    let mut best_v: i64 = i32::MAX as i64;
    let mut x = lo;
    while x < hi
        invariant
            sums@.len() == r.width,
            forall|i: int| 0 <= i < r.width ==> #[trigger] sums@[i] == box_col_sum(m, r, i, r.height as int),
            w == r.width,
            1 <= lo <= x,
            hi <= w - 1,
            x <= hi || x == lo,
            0 <= center <= w,
            0 <= best <= w,
            0 <= best_v <= i32::MAX,
            start == valley_scan(m, r, center as int, x as int, hi as int, best as int, best_v as int),
        decreases hi - x,
    {
        let v = sums[x as usize];
        proof {
            lemma_box_col_sum_bound(m, r, x as int, r.height as int);
        }
        let dx = if x >= center { x - center } else { center - x };
        let db = if best >= center { best - center } else { center - best };
        if v < best_v || (v == best_v && dx < db) {
            best = x;
            best_v = v;
        }
        x = x + 1;
    }
    (best, best_v)
}

/// Splits box `r` of the mask into `np` digits (see `split_by_valley_spec`).
fn split_by_valley(m: &Vec<Vec<u8>>, r: Rect, np: i64, Ghost(cols): Ghost<int>, Ghost(rows): Ghost<int>) -> (res: Vec<Rect>)
    requires
        is_plane(m@, cols, rows),
        box_ok(r, cols, rows),
        cols <= MAX_MASK,
        rows <= MAX_MASK,
        1 <= np <= MAX_MASK,
    ensures
        res@ == split_by_valley_spec(m@, r, np as int),
        forall|i: int| 0 <= i < res@.len() ==> box_ok(#[trigger] res@[i], cols, rows),
{
    let sums = box_col_sums(m, r, Ghost(cols), Ghost(rows));
    let mut cuts: Vec<i64> = Vec::new();
    cuts.push(0);
    let mut p: i64 = 1;
    while p < np
        invariant
            is_plane(m@, cols, rows),
            box_ok(r, cols, rows),
            cols <= MAX_MASK,
            rows <= MAX_MASK,
            sums@.len() == r.width,
            forall|x: int| 0 <= x < r.width ==> #[trigger] sums@[x] == box_col_sum(m@, r, x, r.height as int),
            1 <= np <= MAX_MASK,
            1 <= p <= np,
            cuts@.len() == p,
            cuts@[0] == 0,
            forall|i: int| 1 <= i < p ==> #[trigger] cuts@[i] as int == valley(m@, r, np as int, i).0,
            forall|i: int| 0 <= i < p ==> 0 <= #[trigger] cuts@[i] <= r.width,
            forall|i: int| 1 <= i < p ==> !#[trigger] blocked(m@, r, np as int, i),
        decreases np - p,
    {
        let (b, bv) = valley_exec(&sums, r, np, p, Ghost(m@));
        if bv * 5 > 3 * r.height as i64 {
            proof {
                assert(blocked(m@, r, np as int, p as int));
            }
            let mut one: Vec<Rect> = Vec::new();
            one.push(r);
            proof {
                assert(one@ =~= seq![r]);
            }
            return one;
        }
        cuts.push(b);
        p = p + 1;
    }
    cuts.push(r.width as i64);
    let ghost cp = cut_points(m@, r, np as int);
    proof {
        assert(!exists|p: int| 1 <= p < np && #[trigger] blocked(m@, r, np as int, p));
        assert forall|i: int| 0 <= i < cuts@.len() implies #[trigger] cuts@[i] as int == cp[i] by {
            if i == 0 {
            } else if i < np {
                assert(cp[i] == valley(m@, r, np as int, i).0);
            } else {
                assert(cp[i] == r.width);
            }
        }
        assert(cp.len() == cuts@.len());
    }
    let mut out: Vec<Rect> = Vec::new();
    let mut k: usize = 1;
    while k < cuts.len()
        invariant
            box_ok(r, cols, rows),
            cols <= MAX_MASK,
            1 <= k <= cuts@.len(),
            cp.len() == cuts@.len(),
            forall|i: int| 0 <= i < cuts@.len() ==> #[trigger] cuts@[i] as int == cp[i],
            forall|i: int| 0 <= i < cuts@.len() ==> 0 <= #[trigger] cuts@[i] <= r.width,
            out@ == pieces(cp, r, k - 1),
            forall|i: int| 0 <= i < out@.len() ==> box_ok(#[trigger] out@[i], cols, rows),
        decreases cuts@.len() - k,
    {
        let a = cuts[k - 1];
        let b = cuts[k];
        if b - a >= 3 {
            out.push(Rect { x: r.x + a as i32, y: r.y, width: (b - a) as i32, height: r.height });
        }
        k = k + 1;
    }
    out
}

pub open spec fn boxes_ok(v: Seq<(Rect, bool)>, cols: int, rows: int) -> bool {
    forall|i: int| 0 <= i < v.len() ==> box_ok(#[trigger] v[i].0, cols, rows)
}

pub open spec fn rects_ok(v: Seq<Rect>, cols: int, rows: int) -> bool {
    forall|i: int| 0 <= i < v.len() ==> box_ok(#[trigger] v[i], cols, rows)
}

/// Digit boxes and (when `allow`) fragment boxes of the components.
fn collect_boxes(comps: &Vec<CompStat>, allow: bool, Ghost(cols): Ghost<int>, Ghost(rows): Ghost<int>) -> (r: (
    Vec<(Rect, bool)>,
    Vec<Rect>,
))
    requires
        forall|i: int| 0 <= i < comps.len() ==> comp_ok(#[trigger] comps@[i], cols, rows),
    ensures
        r.0@ == digit_boxes(comps@, comps.len() as int),
        r.0@.len() <= comps.len(),
        r.1@ == (if allow { fragment_boxes(comps@, comps.len() as int) } else { Seq::<Rect>::empty() }),
        boxes_ok(r.0@, cols, rows),
        rects_ok(r.1@, cols, rows),
{
    let mut digits: Vec<(Rect, bool)> = Vec::new();
    let mut frags: Vec<Rect> = Vec::new();
    let mut i: usize = 0;
    while i < comps.len()
        invariant
            i <= comps.len(),
            forall|j: int| 0 <= j < comps.len() ==> comp_ok(#[trigger] comps@[j], cols, rows),
            digits@ == digit_boxes(comps@, i as int),
            digits@.len() <= i,
            frags@ == (if allow { fragment_boxes(comps@, i as int) } else { Seq::<Rect>::empty() }),
            boxes_ok(digits@, cols, rows),
            rects_ok(frags@, cols, rows),
        decreases comps.len() - i,
    {
        let c = comps[i];
        let r = Rect { x: c.x, y: c.y, width: c.width, height: c.height };
        proof {
            assert(comp_ok(comps@[i as int], cols, rows));
        }
        if is_digit_component(c.width, c.height, c.area) {
            digits.push((r, false));
        } else if allow && c.area >= 30 && c.width <= 90 && c.height <= 45 {
            frags.push(r);
        }
        i = i + 1;
    }
    (digits, frags)
}

/// Index of the digit that takes fragment `f` (see `absorb_target`), or -1.
fn absorb_target_exec(v: &Vec<(Rect, bool)>, f: Rect, Ghost(cols): Ghost<int>, Ghost(rows): Ghost<int>) -> (r: i64)
    requires
        boxes_ok(v@, cols, rows),
        box_ok(f, cols, rows),
        cols <= MAX_MASK,
        rows <= MAX_MASK,
        v.len() <= i32::MAX,
    ensures
        r == absorb_target(v@, f, v.len() as int).0,
        -1 <= r < v.len(),
{
    let mut best: i64 = -1;
    let mut best_ov: i64 = 0;
    let mut i: usize = 0;
    while i < v.len()
        invariant
            boxes_ok(v@, cols, rows),
            box_ok(f, cols, rows),
            cols <= MAX_MASK,
            rows <= MAX_MASK,
            v.len() <= i32::MAX,
            i <= v.len(),
            (best as int, best_ov as int) == absorb_target(v@, f, i as int),
            -1 <= best < i,
            -MAX_MASK <= best_ov <= MAX_MASK,
        decreases v.len() - i,
    {
        let d = v[i].0;
        proof {
            assert(box_ok(v@[i as int].0, cols, rows));
        }
        let dr = d.x as i64 + d.width as i64;
        let fr = f.x as i64 + f.width as i64;
        let ov = (if dr <= fr { dr } else { fr }) - (if d.x >= f.x { d.x as i64 } else { f.x as i64 });
        let g1 = f.y as i64 - (d.y as i64 + d.height as i64);
        let g2 = d.y as i64 - (f.y as i64 + f.height as i64);
        let gap = if g1 >= g2 { g1 } else { g2 };
        if ov * 2 > f.width as i64 && ov > best_ov && gap <= d.height as i64 * 45 / 100 && f.width as i64
            <= d.width as i64 * 2 && f.height <= d.height {
            best = i as i64;
            best_ov = ov;
        }
        i = i + 1;
    }
    best
}

/// Offers each fragment to the digits (see `absorb_all`).
fn absorb_fragments(
    digits: Vec<(Rect, bool)>,
    frags: &Vec<Rect>,
    cols: i32,
    rows: i32,
) -> (r: (Vec<(Rect, bool)>, Vec<Rect>))
    requires
        0 <= cols <= MAX_MASK,
        0 <= rows <= MAX_MASK,
        boxes_ok(digits@, cols as int, rows as int),
        rects_ok(frags@, cols as int, rows as int),
        digits.len() <= i32::MAX,
    ensures
        r.0@.len() == digits@.len(),
        (r.0@, r.1@) == absorb_all(digits@, frags@, cols as int, rows as int, frags.len() as int),
        boxes_ok(r.0@, cols as int, rows as int),
        rects_ok(r.1@, cols as int, rows as int),
{
    let ghost v0 = digits@;
    let mut v = digits;
    let mut left: Vec<Rect> = Vec::new();
    let mut k: usize = 0;
    while k < frags.len()
        invariant
            0 <= cols <= MAX_MASK,
            0 <= rows <= MAX_MASK,
            rects_ok(frags@, cols as int, rows as int),
            k <= frags.len(),
            v@.len() == v0.len(),
            v0.len() <= i32::MAX,
            (v@, left@) == absorb_all(v0, frags@, cols as int, rows as int, k as int),
            boxes_ok(v@, cols as int, rows as int),
            rects_ok(left@, cols as int, rows as int),
        decreases frags.len() - k,
    {
        let f = frags[k];
        proof {
            assert(box_ok(frags@[k as int], cols as int, rows as int));
        }
        let edge = f.x <= 1 || f.y <= 1 || f.x as i64 + f.width as i64 >= cols as i64 - 1 || f.y as i64
            + f.height as i64 >= rows as i64 - 1;
        if edge {
            left.push(f);
        } else {
            let b = absorb_target_exec(&v, f, Ghost(cols as int), Ghost(rows as int));
            if b >= 0 {
                let d = v[b as usize].0;
                proof {
                    assert(box_ok(v@[b as int].0, cols as int, rows as int));
                }
                let nx = if d.x <= f.x { d.x } else { f.x };
                let ny = if d.y <= f.y { d.y } else { f.y };
                let rx = if d.x + d.width >= f.x + f.width { d.x + d.width } else { f.x + f.width };
                let by = if d.y + d.height >= f.y + f.height { d.y + d.height } else { f.y + f.height };
                let u = Rect { x: nx, y: ny, width: rx - nx, height: by - ny };
                v.set(b as usize, (u, true));
            } else {
                left.push(f);
            }
        }
        k = k + 1;
    }
    (v, left)
}

/// `keys` in ascending order (see `isort`).
fn isort_exec(keys: &Vec<i64>, Ghost(lo): Ghost<int>) -> (r: Vec<i64>)
    requires
        -3 * MAX_MASK <= lo,
        forall|i: int| 0 <= i < keys.len() ==> lo <= #[trigger] keys@[i] <= 3 * MAX_MASK,
    ensures
        r@ == isort(keys@),
        r@.len() == keys@.len(),
        forall|i: int| 0 <= i < r.len() ==> lo <= #[trigger] r@[i] <= 3 * MAX_MASK,
{
    let mut out: Vec<i64> = Vec::new();
    let mut i: usize = 0;
    proof {
        assert(keys@.take(0) =~= Seq::<i64>::empty());
    }
    while i < keys.len()
        invariant
            i <= keys.len(),
            forall|j: int| 0 <= j < keys.len() ==> lo <= #[trigger] keys@[j] <= 3 * MAX_MASK,
            out@ == isort(keys@.take(i as int)),
            out@.len() == i,
            forall|j: int| 0 <= j < out.len() ==> lo <= #[trigger] out@[j] <= 3 * MAX_MASK,
        decreases keys.len() - i,
    {
        let v = keys[i];
        let mut pos: usize = 0;
        while pos < out.len() && out[pos] <= v
            invariant
                pos <= out@.len(),
                first_gt(out@, v, 0) == first_gt(out@, v, pos as int),
            decreases out.len() - pos,
        {
            pos = pos + 1;
        }
        proof {
            assert(keys@.take(i + 1).drop_last() =~= keys@.take(i as int));
            assert(keys@.take(i + 1).last() == v);
        }
        out.insert(pos, v);
        i = i + 1;
    }
    proof {
        assert(keys@.take(i as int) =~= keys@);
    }
    out
}

/// Boxes left to right (see `sort_by_x`).
fn sort_by_x_exec(v: &Vec<(Rect, bool)>, Ghost(cols): Ghost<int>, Ghost(rows): Ghost<int>) -> (r: Vec<(Rect, bool)>)
    requires
        boxes_ok(v@, cols, rows),
    ensures
        r@ == sort_by_x(v@),
        boxes_ok(r@, cols, rows),
{
    let mut out: Vec<(Rect, bool)> = Vec::new();
    let mut i: usize = 0;
    proof {
        assert(v@.take(0) =~= Seq::<(Rect, bool)>::empty());
    }
    while i < v.len()
        invariant
            i <= v.len(),
            boxes_ok(v@, cols, rows),
            out@ == sort_by_x(v@.take(i as int)),
            boxes_ok(out@, cols, rows),
        decreases v.len() - i,
    {
        let item = v[i];
        let mut pos: usize = 0;
        while pos < out.len() && out[pos].0.x <= item.0.x
            invariant
                pos <= out@.len(),
                first_right_of(out@, item.0.x, 0) == first_right_of(out@, item.0.x, pos as int),
            decreases out.len() - pos,
        {
            pos = pos + 1;
        }
        proof {
            assert(v@.take(i + 1).drop_last() =~= v@.take(i as int));
            assert(v@.take(i + 1).last() == item);
            assert(box_ok(v@[i as int].0, cols, rows));
        }
        let ghost before = out@;
        out.insert(pos, item);
        proof {
            assert forall|j: int| 0 <= j < out@.len() implies box_ok(#[trigger] out@[j].0, cols, rows) by {
                if j < pos {
                    assert(out@[j] == before[j]);
                } else if j > pos {
                    assert(out@[j] == before[j - 1]);
                }
            }
        }
        i = i + 1;
    }
    proof {
        assert(v@.take(i as int) =~= v@);
    }
    out
}

/// The pieces of a box: split into digits when it is too wide for one.
fn parts_exec(
    m: &Vec<Vec<u8>>,
    item: (Rect, bool),
    split_limits: &Vec<i32>,
    Ghost(cols): Ghost<int>,
    Ghost(rows): Ghost<int>,
) -> (r: Vec<(Rect, bool)>)
    requires
        is_plane(m@, cols, rows),
        0 <= cols <= MAX_MASK,
        0 <= rows <= MAX_MASK,
        box_ok(item.0, cols, rows),
        rows + 7 <= split_limits@.len(),
    ensures
        r@ == parts_of(m@, item, split_limits@),
        boxes_ok(r@, cols, rows),
{
    let (rc, ab) = item;
    let e0 = (62 * rc.height as i64 + 50) / 100;
    let e = if e0 >= 6 { e0 } else { 6 };
    proof {
        assert(e0 <= rc.height + 1) by (nonlinear_arith)
            requires
                e0 == (62 * rc.height + 50) / 100,
                rc.height >= 0;
        assert(e <= MAX_MASK);
        assert(e <= rows + 6);
    }
    let limit = split_limits[e as usize];
    let mut out: Vec<(Rect, bool)> = Vec::new();
    if rc.width > limit {
        let n0 = (2 * rc.width as i64 + e) / (2 * e);
        let np = if n0 >= 2 { n0 } else { 2 };
        proof {
            assert(n0 <= MAX_MASK) by (nonlinear_arith)
                requires
                    n0 == (2 * rc.width + e) / (2 * e),
                    0 <= rc.width <= MAX_MASK,
                    6 <= e;
        }
        let pieces = split_by_valley(m, rc, np, Ghost(cols), Ghost(rows));
        let mut j: usize = 0;
        while j < pieces.len()
            invariant
                j <= pieces.len(),
                rects_ok(pieces@, cols, rows),
                out@ == pieces@.take(j as int).map_values(|x: Rect| (x, ab)),
                boxes_ok(out@, cols, rows),
            decreases pieces.len() - j,
        {
            proof {
                assert(pieces@.take(j + 1).map_values(|x: Rect| (x, ab)) =~= pieces@.take(j as int).map_values(
                    |x: Rect| (x, ab),
                ).push((pieces@[j as int], ab)));
                assert(box_ok(pieces@[j as int], cols, rows));
            }
            out.push((pieces[j], ab));
            j = j + 1;
        }
        proof {
            assert(pieces@.take(j as int) =~= pieces@);
        }
    } else {
        out.push(item);
        proof {
            assert(out@ =~= seq![item]);
        }
    }
    out
}

/// The boxes of the digits of an angle reading, left to right, with
/// whether each one has a fragment merged into it (see `extract_spec`).
/// `comps` are the connected components of the digit mask in label order,
/// `eroded` the mask after a 2x2 erosion (used to find the gaps between
/// touching digits), and a box is split when it is wider than
/// `split_limits[e]`, `e` the width expected of one digit of its height:
/// the caller's split ratio applied to each expected width. Every box lies
/// inside the mask.
pub fn extract_individual_digits(
    comps: &Vec<CompStat>,
    eroded: &Vec<Vec<u8>>,
    cols: i32,
    rows: i32,
    split_limits: &Vec<i32>,
    allow_absorb: bool,
) -> (r: Vec<(Rect, bool)>)
    requires
        0 <= cols <= MAX_MASK,
        0 <= rows <= MAX_MASK,
        is_plane(eroded@, cols as int, rows as int),
        comps.len() <= i32::MAX,
        forall|i: int| 0 <= i < comps.len() ==> comp_ok(#[trigger] comps@[i], cols as int, rows as int),
        rows + 7 <= split_limits@.len(),
    ensures
        r@ == extract_spec(comps@, eroded@, cols as int, rows as int, split_limits@, allow_absorb),
        boxes_ok(r@, cols as int, rows as int),
{
    let ghost (gc, gr) = (cols as int, rows as int);
    let (digits, frags) = collect_boxes(comps, allow_absorb, Ghost(gc), Ghost(gr));
    let (valid, left) = absorb_fragments(digits, &frags, cols, rows);
    let n = valid.len();
    if n == 0 {
        return Vec::new();
    }
    let mut hs: Vec<i64> = Vec::new();
    let mut cs: Vec<i64> = Vec::new();
    let mut i: usize = 0;
    while i < n
        invariant
            gc == cols as int,
            gr == rows as int,
            n == valid@.len(),
            boxes_ok(valid@, gc, gr),
            0 <= cols <= MAX_MASK,
            0 <= rows <= MAX_MASK,
            i <= n,
            hs@ == heights(valid@).take(i as int),
            cs@ == centers2(valid@).take(i as int),
            forall|j: int| 0 <= j < i ==> 0 <= #[trigger] hs@[j] <= 3 * MAX_MASK,
            forall|j: int| 0 <= j < i ==> -3 * MAX_MASK <= #[trigger] cs@[j] <= 3 * MAX_MASK,
        decreases n - i,
    {
        let r = valid[i].0;
        proof {
            assert(box_ok(valid@[i as int].0, gc, gr));
            assert(heights(valid@).take(i + 1) =~= heights(valid@).take(i as int).push(r.height as i64));
            assert(centers2(valid@).take(i + 1) =~= centers2(valid@).take(i as int).push((2 * r.y + r.height) as i64));
        }
        hs.push(r.height as i64);
        cs.push(2 * r.y as i64 + r.height as i64);
        i = i + 1;
    }
    proof {
        assert(heights(valid@).take(n as int) =~= heights(valid@));
        assert(centers2(valid@).take(n as int) =~= centers2(valid@));
    }
    let sh = isort_exec(&hs, Ghost(0));
    let sc = isort_exec(&cs, Ghost(-3 * MAX_MASK));
    let mh = sh[n / 2];
    let mc = sc[n / 2];
    let ghost (gmh, gmc) = (mh as int, mc as int);
    let lim_h = pct70_exec(2 * mh);
    let lim_c = pct70_exec(mh);
    let mut kept: Vec<(Rect, bool)> = Vec::new();
    let mut dropped: Vec<(Rect, bool)> = Vec::new();
    let mut i: usize = 0;
    while i < n
        invariant
            gc == cols as int,
            gr == rows as int,
            n == valid@.len(),
            boxes_ok(valid@, gc, gr),
            0 <= cols <= MAX_MASK,
            0 <= rows <= MAX_MASK,
            i <= n,
            gmh == mh,
            gmc == mc,
            0 <= mh <= 3 * MAX_MASK,
            -3 * MAX_MASK <= mc <= 3 * MAX_MASK,
            lim_h == pct70(2 * mh),
            lim_c == pct70(mh as int),
            kept@ == row_part(valid@, gmh, gmc, true, i as int),
            dropped@ == row_part(valid@, gmh, gmc, false, i as int),
            boxes_ok(kept@, gc, gr),
            boxes_ok(dropped@, gc, gr),
        decreases n - i,
    {
        let item = valid[i];
        let r = item.0;
        proof {
            assert(box_ok(valid@[i as int].0, gc, gr));
        }
        let d = 2 * r.y as i64 + r.height as i64 - mc;
        let ad = if d >= 0 { d } else { -d };
        let row = 10 * r.height as i64 >= 7 * mh && r.height as i64 <= lim_h && ad <= lim_c;
        if row {
            kept.push(item);
        } else {
            dropped.push(item);
        }
        i = i + 1;
    }
    let k = kept.len();
    if k > 0 {
        let mut top: i32 = kept[0].0.y;
        let mut bot: i32 = kept[0].0.y + kept[0].0.height;
        let mut edge = false;
        let mut i: usize = 0;
        while i < k
            invariant
                gc == cols as int,
                gr == rows as int,
                k == kept@.len(),
                k > 0,
                boxes_ok(kept@, gc, gr),
                0 <= cols <= MAX_MASK,
                0 <= rows <= MAX_MASK,
                i <= k,
                i >= 1 ==> top == min_top(kept@, i as int),
                i >= 1 ==> bot == max_bottom(kept@, i as int),
                i == 0 ==> top == kept@[0].0.y && bot == kept@[0].0.y + kept@[0].0.height,
                0 <= top <= rows,
                0 <= bot <= rows,
                edge == exists|j: int| 0 <= j < i && at_edge(#[trigger] kept@[j].0, gc, gr),
            decreases k - i,
        {
            let r = kept[i].0;
            proof {
                assert(box_ok(kept@[i as int].0, gc, gr));
                assert(box_ok(kept@[0].0, gc, gr));
            }
            if i > 0 {
                if r.y < top {
                    top = r.y;
                }
                if r.y + r.height > bot {
                    bot = r.y + r.height;
                }
            }
            let at = r.x <= 1 || r.y <= 1 || r.x as i64 + r.width as i64 >= cols as i64 - 1 || r.y as i64
                + r.height as i64 >= rows as i64 - 1;
            proof {
                if at {
                    assert(at_edge(kept@[i as int].0, gc, gr));
                }
            }
            edge = edge || at;
            i = i + 1;
        }
        let mut band = false;
        let mut i: usize = 0;
        while i < dropped.len()
            invariant
                gc == cols as int,
                gr == rows as int,
                boxes_ok(dropped@, gc, gr),
                0 <= top <= rows,
                0 <= bot <= rows,
                0 <= rows <= MAX_MASK,
                i <= dropped.len(),
                band == exists|j: int| 0 <= j < i && in_band(#[trigger] dropped@[j].0, top as int, bot as int),
            decreases dropped.len() - i,
        {
            let r = dropped[i].0;
            proof {
                assert(box_ok(dropped@[i as int].0, gc, gr));
            }
            let lo = if r.y >= top { r.y } else { top };
            let hi = if r.y + r.height <= bot { r.y + r.height } else { bot };
            let inb = (hi as i64 - lo as i64) * 2 > r.height as i64;
            proof {
                if inb {
                    assert(in_band(dropped@[i as int].0, top as int, bot as int));
                }
            }
            band = band || inb;
            i = i + 1;
        }
        let mut i: usize = 0;
        let mut band2 = false;
        while i < left.len()
            invariant
                gc == cols as int,
                gr == rows as int,
                rects_ok(left@, gc, gr),
                0 <= top <= rows,
                0 <= bot <= rows,
                0 <= rows <= MAX_MASK,
                i <= left.len(),
                band2 == exists|j: int| 0 <= j < i && in_band(#[trigger] left@[j], top as int, bot as int),
            decreases left.len() - i,
        {
            let r = left[i];
            proof {
                assert(box_ok(left@[i as int], gc, gr));
            }
            let lo = if r.y >= top { r.y } else { top };
            let hi = if r.y + r.height <= bot { r.y + r.height } else { bot };
            let inb = (hi as i64 - lo as i64) * 2 > r.height as i64;
            proof {
                if inb {
                    assert(in_band(left@[i as int], top as int, bot as int));
                }
            }
            band2 = band2 || inb;
            i = i + 1;
        }
        if edge || band || band2 {
            return Vec::new();
        }
    }
    let sorted = sort_by_x_exec(&kept, Ghost(gc), Ghost(gr));
    let mut out: Vec<(Rect, bool)> = Vec::new();
    let mut i: usize = 0;
    while i < sorted.len()
        invariant
            gc == cols as int,
            gr == rows as int,
            is_plane(eroded@, gc, gr),
            0 <= cols <= MAX_MASK,
            0 <= rows <= MAX_MASK,
            rows + 7 <= split_limits@.len(),
            boxes_ok(sorted@, gc, gr),
            i <= sorted.len(),
            out@ == split_all(eroded@, sorted@, split_limits@, i as int),
            boxes_ok(out@, gc, gr),
        decreases sorted.len() - i,
    {
        proof {
            assert(box_ok(sorted@[i as int].0, gc, gr));
        }
        let parts = parts_exec(eroded, sorted[i], split_limits, Ghost(gc), Ghost(gr));
        let ghost before = out@;
        let mut j: usize = 0;
        while j < parts.len()
            invariant
                gc == cols as int,
                gr == rows as int,
                j <= parts.len(),
                boxes_ok(parts@, gc, gr),
                boxes_ok(before, gc, gr),
                out@ == before + parts@.take(j as int),
                boxes_ok(out@, gc, gr),
            decreases parts.len() - j,
        {
            proof {
                assert(before + parts@.take(j + 1) =~= (before + parts@.take(j as int)).push(parts@[j as int]));
                assert(box_ok(parts@[j as int].0, gc, gr));
            }
            out.push(parts[j]);
            j = j + 1;
        }
        proof {
            assert(parts@.take(j as int) =~= parts@);
        }
        i = i + 1;
    }
    out
}

// ------------------------------------------------------------ glyph holes

/// A background component of the inverted glyph counts as a hole: it does
/// not touch the border of the `cols` x `rows` glyph and has at least 8
/// pixels.
pub open spec fn is_hole(c: CompStat, cols: int, rows: int) -> bool {
    !(c.x == 0 || c.y == 0 || c.x + c.width == cols || c.y + c.height == rows) && c.area >= 8
}

pub open spec fn holes_upto(comps: Seq<CompStat>, cols: int, rows: int, k: int) -> int
    decreases k,
{
    if k <= 0 {
        0
    } else {
        holes_upto(comps, cols, rows, k - 1) + if is_hole(comps[k - 1], cols, rows) { 1int } else { 0int }
    }
}

/// Number of closed loops of a glyph, given the components (background
/// label excluded) of its inverted binary image (see `is_hole`).
pub fn count_holes(comps: &Vec<CompStat>, cols: i32, rows: i32) -> (r: i32)
    requires
        comps.len() <= i32::MAX,
        forall|i: int| 0 <= i < comps.len() ==> comp_ok(#[trigger] comps@[i], cols as int, rows as int),
    ensures
        r == holes_upto(comps@, cols as int, rows as int, comps.len() as int),
{
    let mut n: i32 = 0;
    let mut i: usize = 0;
    while i < comps.len()
        invariant
            comps.len() <= i32::MAX,
            forall|j: int| 0 <= j < comps.len() ==> comp_ok(#[trigger] comps@[j], cols as int, rows as int),
            i <= comps.len(),
            0 <= n <= i,
            n == holes_upto(comps@, cols as int, rows as int, i as int),
        decreases comps.len() - i,
    {
        let c = comps[i];
        proof {
            assert(comp_ok(comps@[i as int], cols as int, rows as int));
        }
        let touches = c.x == 0 || c.y == 0 || c.x + c.width == cols || c.y + c.height == rows;
        if !touches && c.area >= 8 {
            n = n + 1;
        }
        i = i + 1;
    }
    n
}

// ------------------------------------------------------------ laws

/// The wind arrow picked is shaped like the arrow and no arrow-shaped blob
/// has a larger box; when none is picked, no blob is shaped like the arrow.
pub proof fn lemma_wind_arrow_largest(rects: Seq<Rect>, cols: int, k: int)
    requires
        0 <= k <= rects.len(),
        forall|i: int| 0 <= i < rects.len() ==> 0 <= #[trigger] rects[i].width && 0 <= rects[i].height,
    ensures
        best_arrow(rects, cols, k) matches Some(b) ==> arrow_shaped(b, cols) && forall|i: int|
            0 <= i < k && arrow_shaped(#[trigger] rects[i], cols) ==> rects[i].width * rects[i].height <= b.width
                * b.height,
        best_arrow(rects, cols, k) is None ==> forall|i: int| 0 <= i < k ==> !arrow_shaped(#[trigger] rects[i], cols),
    decreases k,
{
    if k > 0 {
        lemma_wind_arrow_largest(rects, cols, k - 1);
    }
}

// ------------------------------------------------------------ templates

/// Side of a digit template.
pub const TEMPLATE_SIDE: usize = 40;

/// `v / 2` rounded toward zero.
pub open spec fn half_toward_zero(v: int) -> int {
    if v >= 0 { v / 2 } else { -((-v) / 2) }
}

/// Pixel `(ty, tx)` of the 40x40 template with `img` centred on it (black
/// where the image does not reach; offsets `(40 - size) / 2` rounded toward
/// zero).
pub open spec fn centered_at(img: &GrayImg, ty: int, tx: int) -> int {
    let ox = half_toward_zero(40 - img.width);
    let oy = half_toward_zero(40 - img.height());
    let x = tx - ox;
    let y = ty - oy;
    if 0 <= y < img.height() && 0 <= x < img.width { img.at(y, x) } else { 0 }
}

/// Places the resized glyph at the centre of a black 40x40 template.
pub fn center_on_canvas(img: &GrayImg) -> (r: GrayImg)
    requires
        img.wf(),
        img.width <= i32::MAX,
        img.height() <= i32::MAX,
    ensures
        r.width == TEMPLATE_SIDE,
        r.height() == TEMPLATE_SIDE,
        r.wf(),
        forall|ty: int, tx: int| 0 <= ty < 40 && 0 <= tx < 40 ==> #[trigger] r.at(ty, tx) == centered_at(img, ty, tx),
{
    let nw = img.width as i64;
    let nh = img.rows.len() as i64;
    let dx = 40 - nw;
    let dy = 40 - nh;
    let ox = if dx >= 0 { dx / 2 } else { -((-dx) / 2) };
    let oy = if dy >= 0 { dy / 2 } else { -((-dy) / 2) };
    let mut rows: Vec<Vec<u8>> = Vec::new();
    let mut ty: usize = 0;
    while ty < 40
        invariant
            img.wf(),
            nw == img.width,
            nh == img.height(),
            ox == half_toward_zero(40 - img.width),
            oy == half_toward_zero(40 - img.height()),
            -0x8000_0000 <= ox <= 20,
            -0x8000_0000 <= oy <= 20,
            ty <= 40,
            rows@.len() == ty,
            forall|y: int| 0 <= y < ty ==> #[trigger] rows@[y]@.len() == 40,
            forall|y: int, x: int| 0 <= y < ty && 0 <= x < 40 ==> #[trigger] rows@[y]@[x] as int == centered_at(img, y, x),
        decreases 40 - ty,
    {
        let mut row: Vec<u8> = Vec::new();
        let mut tx: usize = 0;
        while tx < 40
            invariant
                img.wf(),
                nw == img.width,
                nh == img.height(),
                ox == half_toward_zero(40 - img.width),
                oy == half_toward_zero(40 - img.height()),
                -0x8000_0000 <= ox <= 20,
                -0x8000_0000 <= oy <= 20,
                ty < 40,
                tx <= 40,
                row@.len() == tx,
                forall|x: int| 0 <= x < tx ==> #[trigger] row@[x] as int == centered_at(img, ty as int, x),
            decreases 40 - tx,
        {
            let x = tx as i64 - ox;
            let y = ty as i64 - oy;
            let v: u8 = if 0 <= y && y < nh && 0 <= x && x < nw { img.rows[y as usize][x as usize] } else { 0 };
            row.push(v);
            tx = tx + 1;
        }
        rows.push(row);
        ty = ty + 1;
    }
    GrayImg { width: TEMPLATE_SIDE, rows }
}

} // verus!
